use solver_core::block::try_change_block_move;
use solver_core::index::Indexed;
use solver_core::state::GreedyState;
use solver_core::types::{
    ConstraintWeights, Lesson, LessonId, Placement, Problem, Room, RoomId, SchoolClass, SchoolClassId, Subject,
    SubjectId, Teacher, TeacherId, TeacherQualification, TimeBlock, TimeBlockId, TimeBlockKind,
};
use uuid::Uuid;

const LAHC_LIST_LEN: usize = 500;

fn lahc_uuid(n: u8) -> u128 {
    Uuid::from_bytes([n; 16]).as_u128()
}

fn subject_row(subject: SubjectId) -> Subject {
    Subject {
        id: subject,
        prefer_early_period: 0,
        avoid_first_period: 0,
        avoid_last_period: 0,
        prefer_late_period: 0,
        max_hours_per_day: 8,
    }
}

fn problem_with_blocks(
    time_blocks: Vec<TimeBlock>,
    rooms: Vec<RoomId>,
    teachers: Vec<TeacherId>,
    classes: Vec<SchoolClassId>,
    subject: SubjectId,
    lessons: Vec<Lesson>,
) -> Problem {
    Problem {
        time_blocks,
        teachers: teachers
            .iter()
            .map(|t| Teacher { id: *t, max_hours_per_week: 40, reserve_hours_per_week: 0 })
            .collect(),
        rooms: rooms.iter().map(|r| Room { id: *r }).collect(),
        subjects: vec![subject_row(subject)],
        school_classes: classes
            .iter()
            .map(|c| SchoolClass { id: *c, home_room_id: None, max_lessons_per_day: None, class_teacher_id: None })
            .collect(),
        lessons,
        teacher_qualifications: teachers
            .iter()
            .map(|t| TeacherQualification { teacher_id: *t, subject_id: subject })
            .collect(),
        teacher_blocked_times: vec![],
        room_blocked_times: vec![],
        room_subject_suitabilities: vec![],
        pinned_placements: vec![],
    }
}

fn block_move_problem(
    n_days: u8,
    slots_per_day: u8,
    rooms: Vec<RoomId>,
    teachers: Vec<TeacherId>,
    classes: Vec<SchoolClassId>,
    subject: SubjectId,
    lessons: Vec<Lesson>,
) -> Problem {
    let mut time_blocks = Vec::new();
    let mut tb_idx: u8 = 0;
    for d in 0..n_days {
        for p in 0..slots_per_day {
            time_blocks.push(TimeBlock {
                id: TimeBlockId(lahc_uuid(100 + tb_idx)),
                day_of_week: d,
                position: p,
                kind: TimeBlockKind::Lesson,
            });
            tb_idx += 1;
        }
    }
    problem_with_blocks(time_blocks, rooms, teachers, classes, subject, lessons)
}

fn tb_at(problem: &Problem, day: u8, pos: u8) -> TimeBlockId {
    problem.time_blocks.iter().find(|tb| tb.day_of_week == day && tb.position == pos).expect("tb_at").id
}

fn tb_day_pos(problem: &Problem, tb_id: TimeBlockId) -> (u8, u8) {
    let tb = problem.time_blocks.iter().find(|tb| tb.id == tb_id).expect("tb_day_pos");
    (tb.day_of_week, tb.position)
}

fn tb_idx_of(problem: &Problem, tb_id: TimeBlockId) -> usize {
    problem.time_blocks.iter().position(|tb| tb.id == tb_id).unwrap()
}

/// `(day, position) -> block` over the lesson blocks, and the room indices
/// ordered by room id.
fn block_move_lookups(problem: &Problem) -> (Vec<(u8, u8)>, Vec<((u8, u8), TimeBlockId)>, Vec<usize>) {
    let mut max_position_per_day: Vec<(u8, u8)> = Vec::new();
    for tb in &problem.time_blocks {
        match max_position_per_day.iter_mut().find(|e| e.0 == tb.day_of_week) {
            Some(e) => e.1 = e.1.max(tb.position),
            None => max_position_per_day.push((tb.day_of_week, tb.position)),
        }
    }
    let tb_by_day_pos: Vec<((u8, u8), TimeBlockId)> = problem
        .time_blocks
        .iter()
        .filter(|tb| tb.kind == TimeBlockKind::Lesson)
        .map(|tb| ((tb.day_of_week, tb.position), tb.id))
        .collect();
    let mut room_order: Vec<usize> = (0..problem.rooms.len()).collect();
    room_order.sort_unstable_by_key(|&i| problem.rooms[i].id.0);
    (max_position_per_day, tb_by_day_pos, room_order)
}

fn double_lesson(lesson_id: LessonId, class: SchoolClassId, subject: SubjectId, teacher: TeacherId, hours: u8, block: u8) -> Lesson {
    Lesson {
        id: lesson_id,
        school_class_ids: vec![class],
        subject_id: subject,
        teacher_candidates: vec![teacher],
        teacher_pin: Some(teacher),
        hours_per_week: hours,
        preferred_block_size: block,
        pre_buffer_minutes: 0,
        post_buffer_minutes: 0,
        lesson_group_id: None,
    }
}

/// The bookkeeping of one block of `class`, `teacher`, `room` at the given
/// positions of day 0.
fn booked_state(
    class: SchoolClassId,
    teacher: TeacherId,
    room: RoomId,
    subject: SubjectId,
    tbs: &[TimeBlockId],
    positions: Vec<u8>,
) -> GreedyState {
    let mut state = GreedyState::new();
    state.class_positions.set_entry(class.0, 0, positions.clone());
    state.teacher_positions.set_entry(teacher.0, 0, positions.clone());
    for tb in tbs {
        state.used_teacher.push((teacher.0, tb.0));
        state.used_class.push((class.0, tb.0));
        state.used_room.push((room.0, tb.0));
    }
    state.locked_room.push(((class, 0, subject), (room, positions.len() as u32)));
    state
}

struct Fixture {
    problem: Problem,
    placements: Vec<Placement>,
    state: GreedyState,
}

/// Doppelstunde at `(day 0, positions 0..2)` with one class, one teacher
/// and one room; day 1 entirely free; two days of three slots.
fn block_change_doppelstunde_fixture() -> Fixture {
    let class = SchoolClassId(lahc_uuid(50));
    let teacher = TeacherId(lahc_uuid(20));
    let subject = SubjectId(lahc_uuid(40));
    let room = RoomId(lahc_uuid(30));
    let lesson_id = LessonId(lahc_uuid(60));
    let lesson = double_lesson(lesson_id, class, subject, teacher, 2, 2);
    let problem = block_move_problem(2, 3, vec![room], vec![teacher], vec![class], subject, vec![lesson]);
    let tb_d0_p0 = tb_at(&problem, 0, 0);
    let tb_d0_p1 = tb_at(&problem, 0, 1);
    let placements = vec![
        Placement { lesson_id, time_block_id: tb_d0_p0, room_id: room, teacher_id: teacher },
        Placement { lesson_id, time_block_id: tb_d0_p1, room_id: room, teacher_id: teacher },
    ];
    let state = booked_state(class, teacher, room, subject, &[tb_d0_p0, tb_d0_p1], vec![0, 1]);
    Fixture { problem, placements, state }
}

/// Day 0 holds positions 0..3 and the Doppelstunde at 0..2; day 1 holds
/// `extra` as its blocks.
fn block_change_custom_day1_fixture(extra: Vec<TimeBlock>) -> Fixture {
    let class = SchoolClassId(lahc_uuid(50));
    let teacher = TeacherId(lahc_uuid(20));
    let subject = SubjectId(lahc_uuid(40));
    let room = RoomId(lahc_uuid(30));
    let lesson_id = LessonId(lahc_uuid(60));
    let lesson = double_lesson(lesson_id, class, subject, teacher, 2, 2);
    let mut time_blocks = vec![
        TimeBlock { id: TimeBlockId(lahc_uuid(100)), day_of_week: 0, position: 0, kind: TimeBlockKind::Lesson },
        TimeBlock { id: TimeBlockId(lahc_uuid(101)), day_of_week: 0, position: 1, kind: TimeBlockKind::Lesson },
        TimeBlock { id: TimeBlockId(lahc_uuid(102)), day_of_week: 0, position: 2, kind: TimeBlockKind::Lesson },
    ];
    time_blocks.extend(extra);
    let tb_d0_p0 = time_blocks[0].id;
    let tb_d0_p1 = time_blocks[1].id;
    let problem = problem_with_blocks(time_blocks, vec![room], vec![teacher], vec![class], subject, vec![lesson]);
    let placements = vec![
        Placement { lesson_id, time_block_id: tb_d0_p0, room_id: room, teacher_id: teacher },
        Placement { lesson_id, time_block_id: tb_d0_p1, room_id: room, teacher_id: teacher },
    ];
    let state = booked_state(class, teacher, room, subject, &[tb_d0_p0, tb_d0_p1], vec![0, 1]);
    Fixture { problem, placements, state }
}

/// Doppelstunde at `(day 0, positions 0..2)` in `room_a`; on day 1 the same
/// `room_a` is booked at position 1 by an unrelated placement, and
/// `room_b` is free all day.
fn block_change_alternate_room_fixture() -> Fixture {
    let class = SchoolClassId(lahc_uuid(50));
    let other_class = SchoolClassId(lahc_uuid(51));
    let teacher = TeacherId(lahc_uuid(20));
    let other_teacher = TeacherId(lahc_uuid(21));
    let subject = SubjectId(lahc_uuid(40));
    let room_a = RoomId(lahc_uuid(30));
    let room_b = RoomId(lahc_uuid(31));
    let lesson_id = LessonId(lahc_uuid(60));
    let other_lesson_id = LessonId(lahc_uuid(61));
    let lesson = double_lesson(lesson_id, class, subject, teacher, 2, 2);
    let other_lesson = double_lesson(other_lesson_id, other_class, subject, other_teacher, 1, 1);
    let problem = block_move_problem(
        2,
        3,
        vec![room_a, room_b],
        vec![teacher, other_teacher],
        vec![class, other_class],
        subject,
        vec![lesson, other_lesson],
    );
    let tb_d0_p0 = tb_at(&problem, 0, 0);
    let tb_d0_p1 = tb_at(&problem, 0, 1);
    let tb_d1_p1 = tb_at(&problem, 1, 1);
    let placements = vec![
        Placement { lesson_id, time_block_id: tb_d0_p0, room_id: room_a, teacher_id: teacher },
        Placement { lesson_id, time_block_id: tb_d0_p1, room_id: room_a, teacher_id: teacher },
        Placement { lesson_id: other_lesson_id, time_block_id: tb_d1_p1, room_id: room_a, teacher_id: other_teacher },
    ];
    let mut state = booked_state(class, teacher, room_a, subject, &[tb_d0_p0, tb_d0_p1], vec![0, 1]);
    state.class_positions.set_entry(other_class.0, 1, vec![1]);
    state.teacher_positions.set_entry(other_teacher.0, 1, vec![1]);
    state.used_teacher.push((other_teacher.0, tb_d1_p1.0));
    state.used_class.push((other_class.0, tb_d1_p1.0));
    state.used_room.push((room_a.0, tb_d1_p1.0));
    state.locked_room.push(((other_class, 1, subject), (room_a, 1)));
    Fixture { problem, placements, state }
}

/// Doppelstunde at `(day 0, positions 0..2)` on a single day of three
/// slots.
fn block_change_partial_overlap_fixture() -> Fixture {
    let class = SchoolClassId(lahc_uuid(50));
    let teacher = TeacherId(lahc_uuid(20));
    let subject = SubjectId(lahc_uuid(40));
    let room = RoomId(lahc_uuid(30));
    let lesson_id = LessonId(lahc_uuid(60));
    let lesson = double_lesson(lesson_id, class, subject, teacher, 2, 2);
    let problem = block_move_problem(1, 3, vec![room], vec![teacher], vec![class], subject, vec![lesson]);
    let tb_d0_p0 = tb_at(&problem, 0, 0);
    let tb_d0_p1 = tb_at(&problem, 0, 1);
    let placements = vec![
        Placement { lesson_id, time_block_id: tb_d0_p0, room_id: room, teacher_id: teacher },
        Placement { lesson_id, time_block_id: tb_d0_p1, room_id: room, teacher_id: teacher },
    ];
    let state = booked_state(class, teacher, room, subject, &[tb_d0_p0, tb_d0_p1], vec![0, 1]);
    Fixture { problem, placements, state }
}

/// Single-hour lesson at `(day 0, position 0)` on a single day of three
/// slots.
fn block_change_n1_fixture() -> Fixture {
    let class = SchoolClassId(lahc_uuid(50));
    let teacher = TeacherId(lahc_uuid(20));
    let subject = SubjectId(lahc_uuid(40));
    let room = RoomId(lahc_uuid(30));
    let lesson_id = LessonId(lahc_uuid(60));
    let lesson = double_lesson(lesson_id, class, subject, teacher, 1, 1);
    let problem = block_move_problem(1, 3, vec![room], vec![teacher], vec![class], subject, vec![lesson]);
    let tb_d0_p0 = tb_at(&problem, 0, 0);
    let placements = vec![Placement { lesson_id, time_block_id: tb_d0_p0, room_id: room, teacher_id: teacher }];
    let state = booked_state(class, teacher, room, subject, &[tb_d0_p0], vec![0]);
    Fixture { problem, placements, state }
}

fn run_block_move(f: &mut Fixture, new_tb_idx: usize, weights: &ConstraintWeights, lahc_list: &[u32]) -> bool {
    run_block_move_with(f, new_tb_idx, true, weights, lahc_list)
}

fn run_block_move_with(f: &mut Fixture, new_tb_idx: usize, travel_clear: bool, weights: &ConstraintWeights, lahc_list: &[u32]) -> bool {
    let idx = Indexed::new(&f.problem);
    let (max_position_per_day, tb_by_day_pos, room_order) = block_move_lookups(&f.problem);
    let pinned: Vec<LessonId> = vec![];
    let class_max_lessons_per_day: Vec<(SchoolClassId, u8)> = vec![];
    try_change_block_move(
        &f.problem,
        &idx,
        0,
        new_tb_idx,
        travel_clear,
        &max_position_per_day,
        weights,
        &mut f.placements,
        &mut f.state,
        &pinned,
        &class_max_lessons_per_day,
        lahc_list,
        0,
        &tb_by_day_pos,
        &room_order,
    )
}

#[test]
fn try_change_block_move_moves_doppelstunde_to_free_day() {
    let mut f = block_change_doppelstunde_fixture();
    let weights = ConstraintWeights::default();
    let lahc_list = vec![f.state.canonical_score; LAHC_LIST_LEN];
    let target_tb = tb_at(&f.problem, 1, 0);
    let new_tb_idx = tb_idx_of(&f.problem, target_tb);
    let accepted = run_block_move(&mut f, new_tb_idx, &weights, &lahc_list);
    assert!(accepted, "block-change to free day must accept");
    let lesson_id = f.problem.lessons[0].id;
    let block_placements: Vec<&Placement> = f.placements.iter().filter(|p| p.lesson_id == lesson_id).collect();
    assert_eq!(block_placements.len(), 2);
    let positions: Vec<(u8, u8)> = block_placements.iter().map(|p| tb_day_pos(&f.problem, p.time_block_id)).collect();
    for (day, _) in &positions {
        assert_eq!(*day, 1, "block must land entirely on day 1");
    }
    let mut pos_only: Vec<u8> = positions.iter().map(|(_, p)| *p).collect();
    pos_only.sort_unstable();
    assert_eq!(pos_only, vec![0, 1]);
}

#[test]
fn try_change_block_move_rejects_off_day_end() {
    // Day 1 has only positions 0 and 1: an anchor at (day 1, position 1)
    // needs position 2, which is missing.
    let mut f = block_change_custom_day1_fixture(vec![
        TimeBlock { id: TimeBlockId(lahc_uuid(103)), day_of_week: 1, position: 0, kind: TimeBlockKind::Lesson },
        TimeBlock { id: TimeBlockId(lahc_uuid(104)), day_of_week: 1, position: 1, kind: TimeBlockKind::Lesson },
    ]);
    let weights = ConstraintWeights::default();
    let lahc_list = vec![f.state.canonical_score; LAHC_LIST_LEN];
    let placements_before = f.placements.clone();
    let canonical_before = f.state.canonical_score;
    let bad_anchor_idx = 4;
    let accepted = run_block_move(&mut f, bad_anchor_idx, &weights, &lahc_list);
    assert!(!accepted, "off-day-end block move must reject");
    assert_eq!(f.placements, placements_before);
    assert_eq!(f.state.canonical_score, canonical_before);
}

#[test]
fn try_change_block_move_rejects_break_in_window() {
    // Day 1 has a break at position 1: an anchor at (day 1, position 0)
    // needs position 1, which is no lesson block.
    let mut f = block_change_custom_day1_fixture(vec![
        TimeBlock { id: TimeBlockId(lahc_uuid(103)), day_of_week: 1, position: 0, kind: TimeBlockKind::Lesson },
        TimeBlock { id: TimeBlockId(lahc_uuid(104)), day_of_week: 1, position: 1, kind: TimeBlockKind::Break },
        TimeBlock { id: TimeBlockId(lahc_uuid(105)), day_of_week: 1, position: 2, kind: TimeBlockKind::Lesson },
    ]);
    let weights = ConstraintWeights::default();
    let lahc_list = vec![f.state.canonical_score; LAHC_LIST_LEN];
    let placements_before = f.placements.clone();
    let canonical_before = f.state.canonical_score;
    let bad_anchor_idx = 3;
    let accepted = run_block_move(&mut f, bad_anchor_idx, &weights, &lahc_list);
    assert!(!accepted, "break-in-window block move must reject");
    assert_eq!(f.placements, placements_before);
    assert_eq!(f.state.canonical_score, canonical_before);
}

#[test]
fn try_change_block_move_falls_back_to_alternate_room() {
    let mut f = block_change_alternate_room_fixture();
    let weights = ConstraintWeights::default();
    let lahc_list = vec![f.state.canonical_score; LAHC_LIST_LEN];
    let target_tb = tb_at(&f.problem, 1, 0);
    let new_tb_idx = tb_idx_of(&f.problem, target_tb);
    let accepted = run_block_move(&mut f, new_tb_idx, &weights, &lahc_list);
    assert!(accepted, "block-change must accept with room fallback");
    let lesson_id = f.problem.lessons[0].id;
    let block_placements: Vec<&Placement> = f.placements.iter().filter(|p| p.lesson_id == lesson_id).collect();
    assert_eq!(block_placements.len(), 2);
    let room_b = RoomId(lahc_uuid(31));
    for p in &block_placements {
        assert_eq!(p.room_id, room_b, "fallback room must be room_b");
    }
}

#[test]
fn try_change_block_move_same_window_rejected() {
    let mut f = block_change_doppelstunde_fixture();
    let weights = ConstraintWeights::default();
    let lahc_list = vec![f.state.canonical_score; LAHC_LIST_LEN];
    let target_tb = tb_at(&f.problem, 0, 0);
    let new_tb_idx = tb_idx_of(&f.problem, target_tb);
    let placements_before = f.placements.clone();
    let canonical_before = f.state.canonical_score;
    let accepted = run_block_move(&mut f, new_tb_idx, &weights, &lahc_list);
    assert!(!accepted, "same-window block move must reject as no-op");
    assert_eq!(f.placements, placements_before);
    assert_eq!(f.state.canonical_score, canonical_before);
}

#[test]
fn try_change_block_move_partial_overlap_accepted() {
    let mut f = block_change_partial_overlap_fixture();
    let weights = ConstraintWeights::default();
    let lahc_list = vec![f.state.canonical_score; LAHC_LIST_LEN];
    let target_tb = tb_at(&f.problem, 0, 1);
    let new_tb_idx = tb_idx_of(&f.problem, target_tb);
    let accepted = run_block_move(&mut f, new_tb_idx, &weights, &lahc_list);
    assert!(accepted, "partial-overlap block move must accept");
    let lesson_id = f.problem.lessons[0].id;
    let mut positions: Vec<u8> = f
        .placements
        .iter()
        .filter(|p| p.lesson_id == lesson_id)
        .map(|p| tb_day_pos(&f.problem, p.time_block_id).1)
        .collect();
    positions.sort_unstable();
    assert_eq!(positions, vec![1, 2], "block must lay at pos=1+pos=2");
}

#[test]
fn try_change_block_move_n_equals_1_matches_existing_change() {
    let mut f = block_change_n1_fixture();
    let weights = ConstraintWeights::default();
    let lahc_list = vec![f.state.canonical_score; LAHC_LIST_LEN];
    let target_tb = tb_at(&f.problem, 0, 1);
    let new_tb_idx = tb_idx_of(&f.problem, target_tb);
    let accepted = run_block_move(&mut f, new_tb_idx, &weights, &lahc_list);
    assert!(accepted, "n=1 block-change must accept (delegates to delta path)");
    assert_eq!(f.placements[0].time_block_id, target_tb);
}

#[test]
fn block_move_rewrites_bookkeeping_of_both_days() {
    let mut f = block_change_doppelstunde_fixture();
    let weights = ConstraintWeights::default();
    let lahc_list = vec![f.state.canonical_score; LAHC_LIST_LEN];
    let class = SchoolClassId(lahc_uuid(50));
    let teacher = TeacherId(lahc_uuid(20));
    let subject = SubjectId(lahc_uuid(40));
    let room = RoomId(lahc_uuid(30));
    let d1p0 = tb_at(&f.problem, 1, 0);
    let d1p1 = tb_at(&f.problem, 1, 1);
    let new_tb_idx = tb_idx_of(&f.problem, d1p0);
    assert!(run_block_move(&mut f, new_tb_idx, &weights, &lahc_list));
    // The rows keep their order: the lower one lands on the lower slot.
    assert_eq!(f.placements[0].time_block_id, d1p0);
    assert_eq!(f.placements[1].time_block_id, d1p1);
    assert!(f.state.class_positions.get(class.0, 0).is_none());
    assert_eq!(f.state.class_positions.get(class.0, 1), Some(&vec![0u8, 1]));
    assert!(f.state.teacher_positions.get(teacher.0, 0).is_none());
    assert_eq!(f.state.teacher_positions.get(teacher.0, 1), Some(&vec![0u8, 1]));
    let mut booked = f.state.used_teacher.clone();
    booked.sort_unstable();
    let mut expected = vec![(teacher.0, d1p0.0), (teacher.0, d1p1.0)];
    expected.sort_unstable();
    assert_eq!(booked, expected);
    assert_eq!(f.state.used_class.len(), 2);
    assert_eq!(f.state.used_room.len(), 2);
    // The lock of day 0 goes, the one of day 1 holds both hours.
    assert!(f.state.locked_room.iter().all(|e| e.0 != (class, 0, subject)));
    assert!(f.state.locked_room.contains(&((class, 1, subject), (room, 2))));
    assert!(f.state.lessons_by_class_day.contains(&((class, 1), 2)));
}

#[test]
fn block_move_rejected_by_late_acceptance_changes_nothing() {
    let mut f = block_change_doppelstunde_fixture();
    // Preferring early periods makes the move to day 1, position 1 cost
    // more; with the current score and the list both at zero the move is
    // rejected.
    let weights = ConstraintWeights { prefer_early_period: 5, ..ConstraintWeights::default() };
    f.problem.subjects[0].prefer_early_period = 1;
    let lahc_list = vec![0u32; LAHC_LIST_LEN];
    let target_tb = tb_at(&f.problem, 1, 1);
    let new_tb_idx = tb_idx_of(&f.problem, target_tb);
    let placements_before = f.placements.clone();
    let used_before = f.state.used_teacher.clone();
    let accepted = run_block_move(&mut f, new_tb_idx, &weights, &lahc_list);
    assert!(!accepted);
    assert_eq!(f.placements, placements_before);
    assert_eq!(f.state.used_teacher, used_before);
    assert_eq!(f.state.canonical_score, 0);
}

#[test]
fn block_move_rejects_a_block_that_is_not_one_run() {
    // The two hours sit at positions 0 and 2 of day 0: not one run.
    let mut f = block_change_doppelstunde_fixture();
    let tb_d0_p2 = tb_at(&f.problem, 0, 2);
    f.placements[1].time_block_id = tb_d0_p2;
    let weights = ConstraintWeights::default();
    let lahc_list = vec![0u32; LAHC_LIST_LEN];
    let target_tb = tb_at(&f.problem, 1, 0);
    let new_tb_idx = tb_idx_of(&f.problem, target_tb);
    assert!(!run_block_move(&mut f, new_tb_idx, &weights, &lahc_list));
}

#[test]
fn block_move_blocked_by_travel_verdict_changes_nothing() {
    let mut f = block_change_doppelstunde_fixture();
    let weights = ConstraintWeights::default();
    let lahc_list = vec![f.state.canonical_score; LAHC_LIST_LEN];
    let target_tb = tb_at(&f.problem, 1, 0);
    let new_tb_idx = tb_idx_of(&f.problem, target_tb);
    let before_placements = f.placements.clone();
    let before_teacher = f.state.used_teacher.clone();
    let before_score = f.state.canonical_score;
    assert!(!run_block_move_with(&mut f, new_tb_idx, false, &weights, &lahc_list));
    assert_eq!(f.placements, before_placements);
    assert_eq!(f.state.used_teacher, before_teacher);
    assert_eq!(f.state.canonical_score, before_score);
}
