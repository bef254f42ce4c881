use solver_core::change::try_change_move_n1;
use solver_core::index::Indexed;
use solver_core::state::GreedyState;
use solver_core::types::{
    ConstraintWeights, Lesson, LessonId, Placement, Problem, Room, RoomId, SchoolClass, SchoolClassId, Subject,
    SubjectId, Teacher, TeacherId, TeacherQualification, TimeBlock, TimeBlockId, TimeBlockKind,
};
use uuid::Uuid;

const LAHC_LIST_LEN: usize = 500;

fn lahc_uuid(n: u8) -> u128 {
    Uuid::from_bytes([n; 16]).as_u128()
}

fn block_move_problem(
    n_days: u8,
    slots_per_day: u8,
    rooms: Vec<RoomId>,
    teachers: Vec<TeacherId>,
    classes: Vec<SchoolClassId>,
    subject: Subject,
    lessons: Vec<Lesson>,
) -> Problem {
    let mut time_blocks = Vec::new();
    let mut tb_idx: u8 = 0;
    for d in 0..n_days {
        for p in 0..slots_per_day {
            time_blocks.push(TimeBlock {
                id: TimeBlockId(lahc_uuid(100 + tb_idx)),
                day_of_week: d,
                position: p,
                kind: TimeBlockKind::Lesson,
            });
            tb_idx += 1;
        }
    }
    Problem {
        time_blocks,
        teachers: teachers
            .iter()
            .map(|t| Teacher { id: *t, max_hours_per_week: 40, reserve_hours_per_week: 0 })
            .collect(),
        rooms: rooms.iter().map(|r| Room { id: *r }).collect(),
        subjects: vec![subject],
        school_classes: classes
            .iter()
            .map(|c| SchoolClass { id: *c, home_room_id: None, max_lessons_per_day: None, class_teacher_id: None })
            .collect(),
        lessons,
        teacher_qualifications: teachers
            .iter()
            .map(|t| TeacherQualification { teacher_id: *t, subject_id: subject.id })
            .collect(),
        teacher_blocked_times: vec![],
        room_blocked_times: vec![],
        room_subject_suitabilities: vec![],
        pinned_placements: vec![],
    }
}

fn tb_idx_at(problem: &Problem, day: u8, pos: u8) -> usize {
    problem.time_blocks.iter().position(|tb| tb.day_of_week == day && tb.position == pos).unwrap()
}

struct Fixture {
    problem: Problem,
    placements: Vec<Placement>,
    state: GreedyState,
    class: SchoolClassId,
    teacher: TeacherId,
    subject: SubjectId,
    room: RoomId,
    lesson_id: LessonId,
}

/// One single-hour lesson of one class placed at (day 0, position `pos`)
/// on a grid of two days with three slots each; the subject carries
/// `avoid_first` on its avoid-first axis and a daily cap of `cap`.
fn n1_fixture(pos: u8, avoid_first: u32, cap: u8) -> Fixture {
    let class = SchoolClassId(lahc_uuid(50));
    let teacher = TeacherId(lahc_uuid(20));
    let subject = SubjectId(lahc_uuid(40));
    let room = RoomId(lahc_uuid(30));
    let lesson_id = LessonId(lahc_uuid(60));
    let lesson = Lesson {
        id: lesson_id,
        school_class_ids: vec![class],
        subject_id: subject,
        teacher_candidates: vec![teacher],
        teacher_pin: Some(teacher),
        hours_per_week: 1,
        preferred_block_size: 1,
        pre_buffer_minutes: 0,
        post_buffer_minutes: 0,
        lesson_group_id: None,
    };
    let subject_row = Subject {
        id: subject,
        prefer_early_period: 0,
        avoid_first_period: avoid_first,
        avoid_last_period: 0,
        prefer_late_period: 0,
        max_hours_per_day: cap,
    };
    let problem = block_move_problem(2, 3, vec![room], vec![teacher], vec![class], subject_row, vec![lesson]);
    let tb = problem.time_blocks[tb_idx_at(&problem, 0, pos)].id;
    let placements = vec![Placement { lesson_id, time_block_id: tb, room_id: room, teacher_id: teacher }];
    let mut state = GreedyState::new();
    state.class_positions.set_entry(class.0, 0, vec![pos]);
    state.teacher_positions.set_entry(teacher.0, 0, vec![pos]);
    state.used_teacher.push((teacher.0, tb.0));
    state.used_class.push((class.0, tb.0));
    state.used_room.push((room.0, tb.0));
    state.locked_room.push(((class, 0, subject), (room, 1)));
    state.subject_hours_by_class_day.push(((class, 0, subject), 1));
    state.lessons_by_class_day.push(((class, 0), 1));
    Fixture { problem, placements, state, class, teacher, subject, room, lesson_id }
}

fn max_positions() -> Vec<(u8, u8)> {
    vec![(0, 2), (1, 2)]
}

fn run(f: &mut Fixture, new_tb_idx: usize, weights: &ConstraintWeights, pinned: &Vec<LessonId>, caps: &Vec<(SchoolClassId, u8)>, lahc_list: &[u32]) -> bool {
    run_with(f, new_tb_idx, true, weights, pinned, caps, lahc_list)
}

fn run_with(f: &mut Fixture, new_tb_idx: usize, travel_clear: bool, weights: &ConstraintWeights, pinned: &Vec<LessonId>, caps: &Vec<(SchoolClassId, u8)>, lahc_list: &[u32]) -> bool {
    let idx = Indexed::new(&f.problem);
    try_change_move_n1(
        &f.problem,
        &idx,
        0,
        new_tb_idx,
        travel_clear,
        &max_positions(),
        weights,
        &mut f.placements,
        &mut f.state,
        pinned,
        caps,
        lahc_list,
        0,
    )
}

#[test]
fn change_move_n1_moves_single_hour_within_the_day() {
    let mut f = n1_fixture(0, 0, 8);
    let target = tb_idx_at(&f.problem, 0, 1);
    let target_id = f.problem.time_blocks[target].id;
    let lahc_list = vec![f.state.canonical_score; LAHC_LIST_LEN];
    let accepted = run(&mut f, target, &ConstraintWeights::default(), &vec![], &vec![], &lahc_list);
    assert!(accepted);
    assert_eq!(f.placements[0].time_block_id, target_id);
    assert_eq!(f.state.class_positions.get(f.class.0, 0), Some(&vec![1u8]));
    assert_eq!(f.state.teacher_positions.get(f.teacher.0, 0), Some(&vec![1u8]));
    assert!(f.state.used_teacher.contains(&(f.teacher.0, target_id.0)));
    assert!(f.state.used_room.contains(&(f.room.0, target_id.0)));
    assert_eq!(f.state.canonical_score, 0);
}

#[test]
fn change_move_n1_off_the_first_period_lowers_slice_and_canonical() {
    let mut f = n1_fixture(0, 1, 8);
    let weights = ConstraintWeights { avoid_first_period: 1, ..ConstraintWeights::default() };
    f.state.search_score_slice = 1;
    f.state.canonical_score = 1;
    let target = tb_idx_at(&f.problem, 1, 1);
    let lahc_list = vec![0u32; LAHC_LIST_LEN];
    let accepted = run(&mut f, target, &weights, &vec![], &vec![], &lahc_list);
    assert!(accepted);
    assert_eq!(f.state.search_score_slice, 0);
    assert_eq!(f.state.canonical_score, 0);
    assert_eq!(f.state.lessons_by_class_day, vec![((f.class, 1), 1)]);
    assert_eq!(f.state.locked_room, vec![((f.class, 1, f.subject), (f.room, 1))]);
}

#[test]
fn change_move_n1_onto_the_first_period_is_rejected_by_the_gate() {
    let mut f = n1_fixture(1, 1, 8);
    let weights = ConstraintWeights { avoid_first_period: 1, ..ConstraintWeights::default() };
    let target = tb_idx_at(&f.problem, 0, 0);
    let before = f.placements.clone();
    let lahc_list = vec![0u32; LAHC_LIST_LEN];
    let accepted = run(&mut f, target, &weights, &vec![], &vec![], &lahc_list);
    assert!(!accepted);
    assert_eq!(f.placements, before);
    assert_eq!(f.state.canonical_score, 0);
}

#[test]
fn change_move_n1_rejects_pinned_lesson_and_own_block() {
    let mut f = n1_fixture(0, 0, 8);
    let target = tb_idx_at(&f.problem, 0, 1);
    let lahc_list = vec![u32::MAX; LAHC_LIST_LEN];
    let pinned = vec![f.lesson_id];
    assert!(!run(&mut f, target, &ConstraintWeights::default(), &pinned, &vec![], &lahc_list));
    let own = tb_idx_at(&f.problem, 0, 0);
    assert!(!run(&mut f, own, &ConstraintWeights::default(), &vec![], &vec![], &lahc_list));
}

#[test]
fn change_move_n1_rejects_break_slot_and_busy_teacher() {
    let mut f = n1_fixture(0, 0, 8);
    let lahc_list = vec![u32::MAX; LAHC_LIST_LEN];
    let brk = tb_idx_at(&f.problem, 0, 2);
    f.problem.time_blocks[brk].kind = TimeBlockKind::Break;
    assert!(!run(&mut f, brk, &ConstraintWeights::default(), &vec![], &vec![], &lahc_list));
    let busy = tb_idx_at(&f.problem, 1, 0);
    let busy_id = f.problem.time_blocks[busy].id;
    f.state.used_teacher.push((f.teacher.0, busy_id.0));
    assert!(!run(&mut f, busy, &ConstraintWeights::default(), &vec![], &vec![], &lahc_list));
}

#[test]
fn change_move_n1_rejects_when_a_daily_cap_is_reached() {
    let mut f = n1_fixture(0, 0, 1);
    let lahc_list = vec![u32::MAX; LAHC_LIST_LEN];
    let target = tb_idx_at(&f.problem, 1, 0);
    f.state.subject_hours_by_class_day.push(((f.class, 1, f.subject), 1));
    assert!(!run(&mut f, target, &ConstraintWeights::default(), &vec![], &vec![], &lahc_list));
    let mut g = n1_fixture(0, 0, 8);
    g.state.lessons_by_class_day.push(((g.class, 1), 2));
    let caps = vec![(g.class, 2u8)];
    assert!(!run(&mut g, target, &ConstraintWeights::default(), &vec![], &caps, &lahc_list));
}

#[test]
fn change_move_n1_blocked_by_travel_verdict_changes_nothing() {
    let mut f = n1_fixture(0, 0, 8);
    let target = tb_idx_at(&f.problem, 0, 1);
    let lahc_list = vec![f.state.canonical_score; LAHC_LIST_LEN];
    let before = f.placements.clone();
    let before_positions = f.state.class_positions.get(f.class.0, 0).cloned();
    assert!(!run_with(&mut f, target, false, &ConstraintWeights::default(), &vec![], &vec![], &lahc_list));
    assert_eq!(f.placements, before);
    assert_eq!(f.state.class_positions.get(f.class.0, 0).cloned(), before_positions);
}
