use solver_core::index::Indexed;
use solver_core::repair::try_home_room_repair_move;
use solver_core::score::score_solution;
use solver_core::state::GreedyState;
use solver_core::types::{
    ConstraintWeights, Lesson, LessonGroupId, LessonId, Placement, Problem, Room, RoomBlockedTime, RoomId,
    RoomSubjectSuitability, SchoolClass, SchoolClassId, Subject, SubjectId, Teacher, TeacherId,
    TeacherQualification, TimeBlock, TimeBlockId, TimeBlockKind,
};
use uuid::Uuid;

const LAHC_LIST_LEN: usize = 500;

fn lahc_uuid(n: u8) -> u128 {
    Uuid::from_bytes([n; 16]).as_u128()
}

struct Fixture {
    problem: Problem,
    class_a: SchoolClassId,
    class_b: SchoolClassId,
    teacher_a: TeacherId,
    teacher_b: TeacherId,
    subject: SubjectId,
    room_a: RoomId,
    room_b: RoomId,
    lesson_a: LessonId,
    lesson_b: LessonId,
}

fn subject_row(id: SubjectId) -> Subject {
    Subject {
        id,
        prefer_early_period: 0,
        avoid_first_period: 0,
        avoid_last_period: 0,
        prefer_late_period: 0,
        max_hours_per_day: 8,
    }
}

fn home_room_problem(home_room_a: Option<RoomId>, home_room_b: Option<RoomId>) -> Fixture {
    let class_a = SchoolClassId(lahc_uuid(50));
    let class_b = SchoolClassId(lahc_uuid(51));
    let teacher_a = TeacherId(lahc_uuid(20));
    let teacher_b = TeacherId(lahc_uuid(21));
    let subject = SubjectId(lahc_uuid(40));
    let room_a = RoomId(lahc_uuid(30));
    let room_b = RoomId(lahc_uuid(31));
    let lesson_a = LessonId(lahc_uuid(60));
    let lesson_b = LessonId(lahc_uuid(61));
    let lesson = |id: LessonId, class: SchoolClassId, teacher: TeacherId| Lesson {
        id,
        school_class_ids: vec![class],
        subject_id: subject,
        teacher_candidates: vec![teacher],
        teacher_pin: Some(teacher),
        hours_per_week: 1,
        preferred_block_size: 1,
        pre_buffer_minutes: 0,
        post_buffer_minutes: 0,
        lesson_group_id: None,
    };
    let mut time_blocks = Vec::new();
    let mut tb_idx: u8 = 0;
    for d in 0..2u8 {
        for p in 0..3u8 {
            time_blocks.push(TimeBlock {
                id: TimeBlockId(lahc_uuid(100 + tb_idx)),
                day_of_week: d,
                position: p,
                kind: TimeBlockKind::Lesson,
            });
            tb_idx += 1;
        }
    }
    let problem = Problem {
        time_blocks,
        teachers: vec![
            Teacher { id: teacher_a, max_hours_per_week: 40, reserve_hours_per_week: 0 },
            Teacher { id: teacher_b, max_hours_per_week: 40, reserve_hours_per_week: 0 },
        ],
        rooms: vec![Room { id: room_a }, Room { id: room_b }],
        subjects: vec![subject_row(subject)],
        school_classes: vec![
            SchoolClass { id: class_a, home_room_id: home_room_a, max_lessons_per_day: None, class_teacher_id: None },
            SchoolClass { id: class_b, home_room_id: home_room_b, max_lessons_per_day: None, class_teacher_id: None },
        ],
        lessons: vec![lesson(lesson_a, class_a, teacher_a), lesson(lesson_b, class_b, teacher_b)],
        teacher_qualifications: vec![
            TeacherQualification { teacher_id: teacher_a, subject_id: subject },
            TeacherQualification { teacher_id: teacher_b, subject_id: subject },
        ],
        teacher_blocked_times: vec![],
        room_blocked_times: vec![],
        room_subject_suitabilities: vec![],
        pinned_placements: vec![],
    };
    Fixture { problem, class_a, class_b, teacher_a, teacher_b, subject, room_a, room_b, lesson_a, lesson_b }
}

fn tb_at(problem: &Problem, day: u8, pos: u8) -> TimeBlockId {
    problem.time_blocks.iter().find(|tb| tb.day_of_week == day && tb.position == pos).expect("tb_at").id
}

fn permissive_lahc_list() -> Vec<u32> {
    vec![u32::MAX; LAHC_LIST_LEN]
}

fn home_weights() -> ConstraintWeights {
    ConstraintWeights { prefer_home_room: 5, ..ConstraintWeights::default() }
}

/// Lesson A alone at (d0, p0) in room B, booked in the state.
fn single_row(f: &Fixture) -> (Vec<Placement>, GreedyState) {
    let tb = tb_at(&f.problem, 0, 0);
    let placements = vec![Placement { lesson_id: f.lesson_a, time_block_id: tb, room_id: f.room_b, teacher_id: f.teacher_a }];
    let mut state = GreedyState::new();
    state.used_teacher.push((f.teacher_a.0, tb.0));
    state.used_class.push((f.class_a.0, tb.0));
    state.used_room.push((f.room_b.0, tb.0));
    (placements, state)
}

/// Lesson A in room B and lesson B in room A, both at (d0, p0).
fn two_rows(f: &Fixture) -> (Vec<Placement>, GreedyState) {
    let tb = tb_at(&f.problem, 0, 0);
    let placements = vec![
        Placement { lesson_id: f.lesson_a, time_block_id: tb, room_id: f.room_b, teacher_id: f.teacher_a },
        Placement { lesson_id: f.lesson_b, time_block_id: tb, room_id: f.room_a, teacher_id: f.teacher_b },
    ];
    let mut state = GreedyState::new();
    state.used_teacher.push((f.teacher_a.0, tb.0));
    state.used_teacher.push((f.teacher_b.0, tb.0));
    state.used_class.push((f.class_a.0, tb.0));
    state.used_class.push((f.class_b.0, tb.0));
    state.used_room.push((f.room_a.0, tb.0));
    state.used_room.push((f.room_b.0, tb.0));
    (placements, state)
}

fn run_repair(f: &Fixture, placements: &mut Vec<Placement>, state: &mut GreedyState, pinned: &Vec<LessonId>, lahc_list: &[u32]) -> bool {
    let idx = Indexed::new(&f.problem);
    try_home_room_repair_move(&f.problem, &idx, 0, &home_weights(), placements, state, pinned, lahc_list, 0)
}

#[test]
fn try_home_room_repair_move_accepts_room_free_path() {
    let f = home_room_problem(Some(RoomId(lahc_uuid(30))), None);
    let tb = tb_at(&f.problem, 0, 0);
    let (mut placements, mut state) = single_row(&f);
    state.canonical_score = 5;
    let accepted = run_repair(&f, &mut placements, &mut state, &vec![], &permissive_lahc_list());
    assert!(accepted, "room-free home_room repair must accept");
    assert_eq!(placements[0].room_id, f.room_a);
    assert!(state.used_room.contains(&(f.room_a.0, tb.0)));
    assert!(!state.used_room.contains(&(f.room_b.0, tb.0)));
    assert_eq!(state.canonical_score, 0);
}

#[test]
fn try_home_room_repair_move_accepts_room_occupied_single_collision_swap() {
    let f = home_room_problem(Some(RoomId(lahc_uuid(30))), None);
    let (mut placements, mut state) = two_rows(&f);
    state.canonical_score = 5;
    let accepted = run_repair(&f, &mut placements, &mut state, &vec![], &permissive_lahc_list());
    assert!(accepted, "single-collision swap must accept");
    assert_eq!(placements[0].room_id, f.room_a);
    assert_eq!(placements[1].room_id, f.room_b);
    assert_eq!(state.canonical_score, 0);
}

#[test]
fn try_home_room_repair_move_rejects_when_already_in_home_room() {
    let f = home_room_problem(Some(RoomId(lahc_uuid(30))), None);
    let (mut placements, mut state) = single_row(&f);
    placements[0].room_id = f.room_a;
    let placements_before = placements.clone();
    let accepted = run_repair(&f, &mut placements, &mut state, &vec![], &permissive_lahc_list());
    assert!(!accepted, "no-op repair must reject");
    assert_eq!(placements, placements_before);
}

#[test]
fn try_home_room_repair_move_rejects_blocked_room() {
    let mut f = home_room_problem(Some(RoomId(lahc_uuid(30))), None);
    let tb = tb_at(&f.problem, 0, 0);
    f.problem.room_blocked_times.push(RoomBlockedTime { room_id: f.room_a, time_block_id: tb });
    let (mut placements, mut state) = single_row(&f);
    let placements_before = placements.clone();
    let accepted = run_repair(&f, &mut placements, &mut state, &vec![], &permissive_lahc_list());
    assert!(!accepted, "blocked home_room must reject");
    assert_eq!(placements, placements_before);
}

#[test]
fn try_home_room_repair_move_rejects_grouped_lesson() {
    let mut f = home_room_problem(Some(RoomId(lahc_uuid(30))), None);
    f.problem.lessons[0].lesson_group_id = Some(LessonGroupId(lahc_uuid(70)));
    let (mut placements, mut state) = single_row(&f);
    let placements_before = placements.clone();
    let accepted = run_repair(&f, &mut placements, &mut state, &vec![], &permissive_lahc_list());
    assert!(!accepted, "grouped-lesson repair must reject");
    assert_eq!(placements, placements_before);
}

#[test]
fn try_home_room_repair_move_rejects_pinned_lesson() {
    let f = home_room_problem(Some(RoomId(lahc_uuid(30))), None);
    let (mut placements, mut state) = single_row(&f);
    let placements_before = placements.clone();
    let accepted = run_repair(&f, &mut placements, &mut state, &vec![f.lesson_a], &permissive_lahc_list());
    assert!(!accepted, "pinned-lesson repair must reject");
    assert_eq!(placements, placements_before);
}

#[test]
fn try_home_room_repair_move_rejects_no_home_room() {
    let f = home_room_problem(None, None);
    let (mut placements, mut state) = single_row(&f);
    let placements_before = placements.clone();
    let accepted = run_repair(&f, &mut placements, &mut state, &vec![], &permissive_lahc_list());
    assert!(!accepted, "no-home-room repair must reject");
    assert_eq!(placements, placements_before);
}

#[test]
fn try_home_room_repair_move_rejects_block_size_gt_1() {
    let mut f = home_room_problem(Some(RoomId(lahc_uuid(30))), None);
    f.problem.lessons[0].preferred_block_size = 2;
    f.problem.lessons[0].hours_per_week = 2;
    let (mut placements, mut state) = single_row(&f);
    let placements_before = placements.clone();
    let accepted = run_repair(&f, &mut placements, &mut state, &vec![], &permissive_lahc_list());
    assert!(!accepted, "block_size>1 repair must reject");
    assert_eq!(placements, placements_before);
}

#[test]
fn try_home_room_repair_move_rejects_subject_unsuitable_in_collision_swap() {
    let mut f = home_room_problem(Some(RoomId(lahc_uuid(30))), None);
    let subject_locked = SubjectId(lahc_uuid(41));
    f.problem.subjects.push(subject_row(subject_locked));
    f.problem.room_subject_suitabilities.push(RoomSubjectSuitability { room_id: f.room_a, subject_id: f.subject });
    f.problem.room_subject_suitabilities.push(RoomSubjectSuitability { room_id: f.room_a, subject_id: subject_locked });
    f.problem.room_subject_suitabilities.push(RoomSubjectSuitability { room_id: f.room_b, subject_id: f.subject });
    f.problem.lessons[1].subject_id = subject_locked;
    f.problem.teacher_qualifications.push(TeacherQualification { teacher_id: f.teacher_b, subject_id: subject_locked });
    let (mut placements, mut state) = two_rows(&f);
    let placements_before = placements.clone();
    let accepted = run_repair(&f, &mut placements, &mut state, &vec![], &permissive_lahc_list());
    assert!(!accepted, "subject-unsuitable collision swap must reject");
    assert_eq!(placements, placements_before);
}

#[test]
fn try_home_room_repair_move_rejects_when_lahc_accept_threshold_disallows() {
    let mut f = home_room_problem(Some(RoomId(lahc_uuid(30))), Some(RoomId(lahc_uuid(30))));
    f.problem.school_classes[1].home_room_id = Some(f.room_a);
    let (mut placements, mut state) = two_rows(&f);
    state.canonical_score = 5;
    let mut lahc_list = vec![u32::MAX; LAHC_LIST_LEN];
    lahc_list[0] = 4;
    let placements_before = placements.clone();
    let canonical_before = state.canonical_score;
    let accepted = run_repair(&f, &mut placements, &mut state, &vec![], &lahc_list);
    assert!(!accepted, "lahc-threshold-disallowed swap must reject");
    assert_eq!(placements, placements_before);
    assert_eq!(state.canonical_score, canonical_before);
}

#[test]
fn try_home_room_repair_move_equal_canonical_swap_passes_a_matching_threshold() {
    // Both classes share home room A: the swap moves lesson A in and lesson
    // B out, so the canonical score stays at 5, which a threshold of 5 lets
    // through.
    let mut f = home_room_problem(Some(RoomId(lahc_uuid(30))), Some(RoomId(lahc_uuid(30))));
    f.problem.school_classes[1].home_room_id = Some(f.room_a);
    let (mut placements, mut state) = two_rows(&f);
    state.canonical_score = 5;
    let mut lahc_list = vec![u32::MAX; LAHC_LIST_LEN];
    lahc_list[0] = 5;
    let accepted = run_repair(&f, &mut placements, &mut state, &vec![], &lahc_list);
    assert!(accepted);
    assert_eq!(placements[0].room_id, f.room_a);
    assert_eq!(placements[1].room_id, f.room_b);
    assert_eq!(state.canonical_score, 5);
}

#[test]
fn repair_leaves_the_canonical_score_of_the_repaired_placements() {
    let f = home_room_problem(Some(RoomId(lahc_uuid(30))), None);
    let (mut placements, mut state) = single_row(&f);
    state.canonical_score = score_solution(&f.problem, &placements, &home_weights(), &state.soft_pinned_blocks);
    assert_eq!(state.canonical_score, 5);
    assert!(run_repair(&f, &mut placements, &mut state, &vec![], &permissive_lahc_list()));
    assert_eq!(state.canonical_score, score_solution(&f.problem, &placements, &home_weights(), &state.soft_pinned_blocks));
}
