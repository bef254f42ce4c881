use solver_core::index::Indexed;
use solver_core::state::GreedyState;
use solver_core::swap::try_swap_move;
use solver_core::types::{
    ConstraintWeights, Lesson, LessonGroupId, LessonId, Placement, Problem, Room, RoomId, SchoolClass, SchoolClassId,
    Subject, SubjectId, Teacher, TeacherId, TeacherQualification, TimeBlock, TimeBlockId, TimeBlockKind,
};
use uuid::Uuid;

const LAHC_LIST_LEN: usize = 500;

fn lahc_uuid(n: u8) -> u128 {
    Uuid::from_bytes([n; 16]).as_u128()
}

fn block_move_problem(
    n_days: u8,
    slots_per_day: u8,
    rooms: Vec<RoomId>,
    teachers: Vec<TeacherId>,
    classes: Vec<SchoolClassId>,
    subject: SubjectId,
    lessons: Vec<Lesson>,
) -> Problem {
    let mut time_blocks = Vec::new();
    let mut tb_idx: u8 = 0;
    for d in 0..n_days {
        for p in 0..slots_per_day {
            time_blocks.push(TimeBlock {
                id: TimeBlockId(lahc_uuid(100 + tb_idx)),
                day_of_week: d,
                position: p,
                kind: TimeBlockKind::Lesson,
            });
            tb_idx += 1;
        }
    }
    Problem {
        time_blocks,
        teachers: teachers
            .iter()
            .map(|t| Teacher { id: *t, max_hours_per_week: 40, reserve_hours_per_week: 0 })
            .collect(),
        rooms: rooms.iter().map(|r| Room { id: *r }).collect(),
        subjects: vec![Subject {
            id: subject,
            prefer_early_period: 0,
            avoid_first_period: 0,
            avoid_last_period: 0,
            prefer_late_period: 0,
            max_hours_per_day: 8,
        }],
        school_classes: classes
            .iter()
            .map(|c| SchoolClass { id: *c, home_room_id: None, max_lessons_per_day: None, class_teacher_id: None })
            .collect(),
        lessons,
        teacher_qualifications: teachers
            .iter()
            .map(|t| TeacherQualification { teacher_id: *t, subject_id: subject })
            .collect(),
        teacher_blocked_times: vec![],
        room_blocked_times: vec![],
        room_subject_suitabilities: vec![],
        pinned_placements: vec![],
    }
}

fn tb_at(problem: &Problem, day: u8, pos: u8) -> TimeBlockId {
    problem.time_blocks.iter().find(|tb| tb.day_of_week == day && tb.position == pos).expect("tb_at").id
}

fn one_hour(id: LessonId, class: SchoolClassId, subject: SubjectId, teacher: TeacherId, hours: u8) -> Lesson {
    Lesson {
        id,
        school_class_ids: vec![class],
        subject_id: subject,
        teacher_candidates: vec![teacher],
        teacher_pin: Some(teacher),
        hours_per_week: hours,
        preferred_block_size: 1,
        pre_buffer_minutes: 0,
        post_buffer_minutes: 0,
        lesson_group_id: None,
    }
}

fn run_swap(
    problem: &Problem,
    placements: &mut Vec<Placement>,
    state: &mut GreedyState,
    pinned: &Vec<LessonId>,
    caps: &Vec<(SchoolClassId, u8)>,
) -> bool {
    let idx = Indexed::new(problem);
    let weights = ConstraintWeights::default();
    let lahc_list = vec![state.canonical_score; LAHC_LIST_LEN];
    try_swap_move(problem, &idx, 0, 1, true, &weights, placements, state, pinned, caps, &lahc_list, 0)
}

/// Two unrelated single-hour lessons: A at (day 0, position 0), B at
/// (day 1, position 0); different classes, teachers and rooms.
fn swap_two_unrelated_fixture() -> (Problem, Vec<Placement>, GreedyState) {
    let class_a = SchoolClassId(lahc_uuid(50));
    let class_b = SchoolClassId(lahc_uuid(51));
    let teacher_a = TeacherId(lahc_uuid(20));
    let teacher_b = TeacherId(lahc_uuid(21));
    let subject = SubjectId(lahc_uuid(40));
    let room_a = RoomId(lahc_uuid(30));
    let room_b = RoomId(lahc_uuid(31));
    let lesson_a = LessonId(lahc_uuid(60));
    let lesson_b = LessonId(lahc_uuid(61));
    let problem = block_move_problem(
        2,
        3,
        vec![room_a, room_b],
        vec![teacher_a, teacher_b],
        vec![class_a, class_b],
        subject,
        vec![one_hour(lesson_a, class_a, subject, teacher_a, 1), one_hour(lesson_b, class_b, subject, teacher_b, 1)],
    );
    let tb_d0_p0 = tb_at(&problem, 0, 0);
    let tb_d1_p0 = tb_at(&problem, 1, 0);
    let placements = vec![
        Placement { lesson_id: lesson_a, time_block_id: tb_d0_p0, room_id: room_a, teacher_id: teacher_a },
        Placement { lesson_id: lesson_b, time_block_id: tb_d1_p0, room_id: room_b, teacher_id: teacher_b },
    ];
    let mut state = GreedyState::new();
    state.class_positions.set_entry(class_a.0, 0, vec![0]);
    state.class_positions.set_entry(class_b.0, 1, vec![0]);
    state.teacher_positions.set_entry(teacher_a.0, 0, vec![0]);
    state.teacher_positions.set_entry(teacher_b.0, 1, vec![0]);
    state.used_teacher.push((teacher_a.0, tb_d0_p0.0));
    state.used_teacher.push((teacher_b.0, tb_d1_p0.0));
    state.used_class.push((class_a.0, tb_d0_p0.0));
    state.used_class.push((class_b.0, tb_d1_p0.0));
    state.used_room.push((room_a.0, tb_d0_p0.0));
    state.used_room.push((room_b.0, tb_d1_p0.0));
    state.locked_room.push(((class_a, 0, subject), (room_a, 1)));
    state.locked_room.push(((class_b, 1, subject), (room_b, 1)));
    (problem, placements, state)
}

#[test]
fn try_swap_move_swaps_two_unrelated_cells() {
    let (problem, mut placements, mut state) = swap_two_unrelated_fixture();
    let tb_a = placements[0].time_block_id;
    let tb_b = placements[1].time_block_id;
    let accepted = run_swap(&problem, &mut placements, &mut state, &vec![], &vec![]);
    assert!(accepted, "two-unrelated-cell swap must accept");
    assert_eq!(placements[0].time_block_id, tb_b);
    assert_eq!(placements[1].time_block_id, tb_a);
}

#[test]
fn try_swap_move_rejects_same_lesson() {
    let class = SchoolClassId(lahc_uuid(50));
    let teacher = TeacherId(lahc_uuid(20));
    let subject = SubjectId(lahc_uuid(40));
    let room = RoomId(lahc_uuid(30));
    let lesson_id = LessonId(lahc_uuid(60));
    let problem = block_move_problem(
        2,
        3,
        vec![room],
        vec![teacher],
        vec![class],
        subject,
        vec![one_hour(lesson_id, class, subject, teacher, 2)],
    );
    let tb_d0_p0 = tb_at(&problem, 0, 0);
    let tb_d1_p0 = tb_at(&problem, 1, 0);
    let mut placements = vec![
        Placement { lesson_id, time_block_id: tb_d0_p0, room_id: room, teacher_id: teacher },
        Placement { lesson_id, time_block_id: tb_d1_p0, room_id: room, teacher_id: teacher },
    ];
    let mut state = GreedyState::new();
    state.used_teacher.push((teacher.0, tb_d0_p0.0));
    state.used_teacher.push((teacher.0, tb_d1_p0.0));
    state.used_class.push((class.0, tb_d0_p0.0));
    state.used_class.push((class.0, tb_d1_p0.0));
    state.used_room.push((room.0, tb_d0_p0.0));
    state.used_room.push((room.0, tb_d1_p0.0));
    let placements_before = placements.clone();
    let accepted = run_swap(&problem, &mut placements, &mut state, &vec![], &vec![]);
    assert!(!accepted, "same-lesson swap must reject");
    assert_eq!(placements, placements_before);
}

#[test]
fn try_swap_move_rejects_pinned_partner() {
    let (problem, mut placements, mut state) = swap_two_unrelated_fixture();
    let pinned = vec![problem.lessons[0].id];
    let placements_before = placements.clone();
    let accepted = run_swap(&problem, &mut placements, &mut state, &pinned, &vec![]);
    assert!(!accepted, "pinned-partner swap must reject");
    assert_eq!(placements, placements_before);
}

#[test]
fn try_swap_move_rejects_group_partner() {
    let class_a = SchoolClassId(lahc_uuid(50));
    let class_b = SchoolClassId(lahc_uuid(51));
    let teacher_a = TeacherId(lahc_uuid(20));
    let teacher_b = TeacherId(lahc_uuid(21));
    let subject = SubjectId(lahc_uuid(40));
    let room_a = RoomId(lahc_uuid(30));
    let room_b = RoomId(lahc_uuid(31));
    let lesson_a = LessonId(lahc_uuid(60));
    let lesson_b = LessonId(lahc_uuid(61));
    let group_id = LessonGroupId(lahc_uuid(70));
    let mut lesson_a_obj = one_hour(lesson_a, class_a, subject, teacher_a, 1);
    lesson_a_obj.lesson_group_id = Some(group_id);
    let problem = block_move_problem(
        2,
        3,
        vec![room_a, room_b],
        vec![teacher_a, teacher_b],
        vec![class_a, class_b],
        subject,
        vec![lesson_a_obj, one_hour(lesson_b, class_b, subject, teacher_b, 1)],
    );
    let tb_d0_p0 = tb_at(&problem, 0, 0);
    let tb_d1_p0 = tb_at(&problem, 1, 0);
    let mut placements = vec![
        Placement { lesson_id: lesson_a, time_block_id: tb_d0_p0, room_id: room_a, teacher_id: teacher_a },
        Placement { lesson_id: lesson_b, time_block_id: tb_d1_p0, room_id: room_b, teacher_id: teacher_b },
    ];
    let mut state = GreedyState::new();
    state.used_teacher.push((teacher_a.0, tb_d0_p0.0));
    state.used_teacher.push((teacher_b.0, tb_d1_p0.0));
    state.used_class.push((class_a.0, tb_d0_p0.0));
    state.used_class.push((class_b.0, tb_d1_p0.0));
    state.used_room.push((room_a.0, tb_d0_p0.0));
    state.used_room.push((room_b.0, tb_d1_p0.0));
    let placements_before = placements.clone();
    let accepted = run_swap(&problem, &mut placements, &mut state, &vec![], &vec![]);
    assert!(!accepted, "group-member swap must reject");
    assert_eq!(placements, placements_before);
}

/// Three lessons A (class a, day 0 position 0), B (class c, day 1
/// position 0) and C (class a, day 1 position 1); with `phantom` the
/// bookkeeping also books class a at day 1 position 0.
fn three_lesson_fixture(phantom: bool, cap_class_a: bool) -> (Problem, Vec<Placement>, GreedyState, Vec<(SchoolClassId, u8)>) {
    let class_a = SchoolClassId(lahc_uuid(50));
    let class_other = SchoolClassId(lahc_uuid(if phantom { 52 } else { 51 }));
    let teacher_a = TeacherId(lahc_uuid(20));
    let teacher_b = TeacherId(lahc_uuid(21));
    let teacher_c = TeacherId(lahc_uuid(22));
    let subject = SubjectId(lahc_uuid(40));
    let room_a = RoomId(lahc_uuid(30));
    let room_b = RoomId(lahc_uuid(31));
    let room_c = RoomId(lahc_uuid(32));
    let lesson_a = LessonId(lahc_uuid(60));
    let lesson_b = LessonId(lahc_uuid(61));
    let lesson_c = LessonId(lahc_uuid(62));
    let mut problem = block_move_problem(
        2,
        3,
        vec![room_a, room_b, room_c],
        vec![teacher_a, teacher_b, teacher_c],
        vec![class_a, class_other],
        subject,
        vec![
            one_hour(lesson_a, class_a, subject, teacher_a, 1),
            one_hour(lesson_b, class_other, subject, teacher_b, 1),
            one_hour(lesson_c, class_a, subject, teacher_c, 1),
        ],
    );
    if cap_class_a {
        problem.school_classes[0].max_lessons_per_day = Some(1);
    }
    let tb_d0_p0 = tb_at(&problem, 0, 0);
    let tb_d1_p0 = tb_at(&problem, 1, 0);
    let tb_d1_p1 = tb_at(&problem, 1, 1);
    let placements = vec![
        Placement { lesson_id: lesson_a, time_block_id: tb_d0_p0, room_id: room_a, teacher_id: teacher_a },
        Placement { lesson_id: lesson_b, time_block_id: tb_d1_p0, room_id: room_b, teacher_id: teacher_b },
        Placement { lesson_id: lesson_c, time_block_id: tb_d1_p1, room_id: room_c, teacher_id: teacher_c },
    ];
    let mut state = GreedyState::new();
    state.used_teacher.push((teacher_a.0, tb_d0_p0.0));
    state.used_teacher.push((teacher_b.0, tb_d1_p0.0));
    state.used_teacher.push((teacher_c.0, tb_d1_p1.0));
    state.used_class.push((class_a.0, tb_d0_p0.0));
    state.used_class.push((class_other.0, tb_d1_p0.0));
    state.used_class.push((class_a.0, tb_d1_p1.0));
    if phantom {
        state.used_class.push((class_a.0, tb_d1_p0.0));
    }
    state.used_room.push((room_a.0, tb_d0_p0.0));
    state.used_room.push((room_b.0, tb_d1_p0.0));
    state.used_room.push((room_c.0, tb_d1_p1.0));
    let mut caps = vec![];
    if cap_class_a {
        state.lessons_by_class_day.push(((class_a, 0), 1));
        state.lessons_by_class_day.push(((class_other, 1), 1));
        state.lessons_by_class_day.push(((class_a, 1), 1));
        caps.push((class_a, 1));
    }
    (problem, placements, state, caps)
}

#[test]
fn try_swap_move_rejects_class_double_book() {
    let (problem, mut placements, mut state, caps) = three_lesson_fixture(true, false);
    let placements_before = placements.clone();
    let accepted = run_swap(&problem, &mut placements, &mut state, &vec![], &caps);
    assert!(!accepted, "class double-book swap must reject");
    assert_eq!(placements, placements_before);
}

#[test]
fn try_swap_move_rejects_daily_cap_breach() {
    let (problem, mut placements, mut state, caps) = three_lesson_fixture(false, true);
    let placements_before = placements.clone();
    let accepted = run_swap(&problem, &mut placements, &mut state, &vec![], &caps);
    assert!(!accepted, "daily-cap-breach swap must reject");
    assert_eq!(placements, placements_before);
}

#[test]
fn swap_moves_bookings_locks_and_positions_with_the_rows() {
    let (problem, mut placements, mut state) = swap_two_unrelated_fixture();
    let class_a = SchoolClassId(lahc_uuid(50));
    let class_b = SchoolClassId(lahc_uuid(51));
    let teacher_a = TeacherId(lahc_uuid(20));
    let teacher_b = TeacherId(lahc_uuid(21));
    let subject = SubjectId(lahc_uuid(40));
    let room_a = RoomId(lahc_uuid(30));
    let room_b = RoomId(lahc_uuid(31));
    let tb_a = placements[0].time_block_id;
    let tb_b = placements[1].time_block_id;
    assert!(run_swap(&problem, &mut placements, &mut state, &vec![], &vec![]));
    // Rooms and teachers stay with their rows.
    assert_eq!(placements[0].room_id, room_a);
    assert_eq!(placements[1].teacher_id, teacher_b);
    let mut teachers = state.used_teacher.clone();
    teachers.sort_unstable();
    let mut expected = vec![(teacher_a.0, tb_b.0), (teacher_b.0, tb_a.0)];
    expected.sort_unstable();
    assert_eq!(teachers, expected);
    assert!(state.used_room.contains(&(room_a.0, tb_b.0)));
    assert!(state.used_room.contains(&(room_b.0, tb_a.0)));
    assert_eq!(state.used_room.len(), 2);
    assert_eq!(state.class_positions.get(class_a.0, 1), Some(&vec![0u8]));
    assert!(state.class_positions.get(class_a.0, 0).is_none());
    assert_eq!(state.teacher_positions.get(teacher_b.0, 0), Some(&vec![0u8]));
    assert!(state.locked_room.contains(&((class_a, 1, subject), (room_a, 1))));
    assert!(state.locked_room.contains(&((class_b, 0, subject), (room_b, 1))));
    assert_eq!(state.locked_room.len(), 2);
}

#[test]
fn swap_rejects_a_move_into_another_room_lock() {
    // Class a is already locked to room b on day 1: lesson A, in room a,
    // may not land there.
    let (problem, mut placements, mut state) = swap_two_unrelated_fixture();
    let class_a = SchoolClassId(lahc_uuid(50));
    let subject = SubjectId(lahc_uuid(40));
    let room_b = RoomId(lahc_uuid(31));
    state.locked_room.push(((class_a, 1, subject), (room_b, 1)));
    let placements_before = placements.clone();
    assert!(!run_swap(&problem, &mut placements, &mut state, &vec![], &vec![]));
    assert_eq!(placements, placements_before);
}

#[test]
fn swap_of_a_row_with_itself_is_rejected() {
    let (problem, mut placements, mut state) = swap_two_unrelated_fixture();
    let idx = Indexed::new(&problem);
    let lahc_list = vec![0u32; LAHC_LIST_LEN];
    let weights = ConstraintWeights::default();
    assert!(!try_swap_move(&problem, &idx, 1, 1, true, &weights, &mut placements, &mut state, &vec![], &vec![], &lahc_list, 0));
    assert!(!try_swap_move(&problem, &idx, 0, 7, true, &weights, &mut placements, &mut state, &vec![], &vec![], &lahc_list, 0));
}

#[test]
fn swapping_back_restores_the_placements() {
    let (problem, mut placements, mut state) = swap_two_unrelated_fixture();
    let before = placements.clone();
    assert!(run_swap(&problem, &mut placements, &mut state, &vec![], &vec![]));
    assert!(run_swap(&problem, &mut placements, &mut state, &vec![], &vec![]));
    assert_eq!(placements, before);
    let mut teachers = state.used_teacher.clone();
    teachers.sort_unstable();
    let mut expected: Vec<(u128, u128)> = before.iter().map(|p| (p.teacher_id.0, p.time_block_id.0)).collect();
    expected.sort_unstable();
    assert_eq!(teachers, expected);
}

#[test]
fn swap_is_the_same_whichever_row_comes_first() {
    let (problem, mut placements, mut state) = swap_two_unrelated_fixture();
    let (_, mut placements2, mut state2) = swap_two_unrelated_fixture();
    let idx = Indexed::new(&problem);
    let weights = ConstraintWeights::default();
    let lahc_list = vec![0u32; LAHC_LIST_LEN];
    assert!(try_swap_move(&problem, &idx, 0, 1, true, &weights, &mut placements, &mut state, &vec![], &vec![], &lahc_list, 0));
    assert!(try_swap_move(&problem, &idx, 1, 0, true, &weights, &mut placements2, &mut state2, &vec![], &vec![], &lahc_list, 0));
    assert_eq!(placements, placements2);
}

#[test]
fn swap_blocked_by_travel_verdict_changes_nothing() {
    let (problem, mut placements, mut state) = swap_two_unrelated_fixture();
    let idx = Indexed::new(&problem);
    let weights = ConstraintWeights::default();
    let lahc_list = vec![0u32; LAHC_LIST_LEN];
    let before = placements.clone();
    let before_teacher = state.used_teacher.clone();
    assert!(!try_swap_move(&problem, &idx, 0, 1, false, &weights, &mut placements, &mut state, &vec![], &vec![], &lahc_list, 0));
    assert_eq!(placements, before);
    assert_eq!(state.used_teacher, before_teacher);
}
