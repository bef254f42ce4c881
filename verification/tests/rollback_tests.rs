use solver_core::rollback::{kempe_rollback, rr_rollback};
use solver_core::state::{kempe_apply_block, rr_ruin_block, BlockSnapshot, GreedyState};
use solver_core::types::{
    Lesson, LessonId, Placement, RoomId, SchoolClassId, SubjectId, TeacherId, TimeBlock, TimeBlockId, TimeBlockKind,
};
use uuid::Uuid;

fn uid(n: u8) -> u128 {
    Uuid::from_bytes([n; 16]).as_u128()
}

fn block(id: u8, day: u8, pos: u8) -> TimeBlock {
    TimeBlock { id: TimeBlockId(uid(id)), day_of_week: day, position: pos, kind: TimeBlockKind::Lesson }
}

fn lesson(id: LessonId, class: SchoolClassId, subject: SubjectId, teacher: TeacherId, block_size: u8) -> Lesson {
    Lesson {
        id,
        school_class_ids: vec![class],
        subject_id: subject,
        teacher_candidates: vec![teacher],
        teacher_pin: Some(teacher),
        hours_per_week: block_size,
        preferred_block_size: block_size,
        pre_buffer_minutes: 0,
        post_buffer_minutes: 0,
        lesson_group_id: None,
    }
}

fn sorted<T: Ord + Clone>(v: &[T]) -> Vec<T> {
    let mut w = v.to_vec();
    w.sort();
    w
}

fn lock_of(state: &GreedyState, key: (SchoolClassId, u8, SubjectId)) -> Option<(RoomId, u32)> {
    state.locked_room.iter().find(|(k, _)| *k == key).map(|(_, v)| *v)
}

fn blocks_of(state: &GreedyState, key: (SchoolClassId, u8)) -> Option<u8> {
    state.lessons_by_class_day.iter().find(|(k, _)| *k == key).map(|(_, v)| *v)
}

struct Fixture {
    class: SchoolClassId,
    teacher: TeacherId,
    subject: SubjectId,
    room: RoomId,
    lesson: Lesson,
    tbs: Vec<TimeBlock>,
    placements: Vec<Placement>,
    state: GreedyState,
}

/// A double period of one lesson at (day 0, positions 0 and 1), fully
/// booked; day 1 has two free positions.
fn doppelstunde() -> Fixture {
    let class = SchoolClassId(uid(50));
    let teacher = TeacherId(uid(20));
    let subject = SubjectId(uid(40));
    let room = RoomId(uid(30));
    let lesson_id = LessonId(uid(60));
    let tbs = vec![block(10, 0, 0), block(11, 0, 1), block(12, 1, 0), block(13, 1, 1)];
    let placements = vec![
        Placement { lesson_id, time_block_id: tbs[0].id, room_id: room, teacher_id: teacher },
        Placement { lesson_id, time_block_id: tbs[1].id, room_id: room, teacher_id: teacher },
    ];
    let mut state = GreedyState::new();
    for tb in &tbs[0..2] {
        state.used_teacher.push((teacher.0, tb.id.0));
        state.used_class.push((class.0, tb.id.0));
        state.used_room.push((room.0, tb.id.0));
    }
    state.class_positions.set_entry(class.0, 0, vec![0, 1]);
    state.teacher_positions.set_entry(teacher.0, 0, vec![0, 1]);
    state.hours_by_teacher.push((teacher, 2));
    state.locked_room.push(((class, 0, subject), (room, 2)));
    state.subject_hours_by_class_day.push(((class, 0, subject), 2));
    state.lessons_by_class_day.push(((class, 0), 1));
    let lesson = lesson(lesson_id, class, subject, teacher, 2);
    Fixture { class, teacher, subject, room, lesson, tbs, placements, state }
}

#[test]
fn rr_rollback_replays_a_ruined_block() {
    let mut f = doppelstunde();
    let before_rows = sorted(&f.placements.iter().map(|p| p.time_block_id.0).collect::<Vec<_>>());
    let before_teacher = sorted(&f.state.used_teacher);
    let snap = rr_ruin_block(0, &f.lesson, &f.tbs, &mut f.placements, &mut f.state);
    assert!(f.placements.is_empty());
    assert_eq!(blocks_of(&f.state, (f.class, 0)), None);
    let lessons = vec![f.lesson.clone()];
    rr_rollback(&vec![], &vec![(f.lesson.id, snap)], &lessons, &f.tbs, &mut f.placements, &mut f.state);
    let after_rows = sorted(&f.placements.iter().map(|p| p.time_block_id.0).collect::<Vec<_>>());
    assert_eq!(after_rows, before_rows);
    assert_eq!(sorted(&f.state.used_teacher), before_teacher);
    assert_eq!(f.state.class_positions.get(f.class.0, 0), Some(&vec![0u8, 1]));
    assert_eq!(f.state.teacher_positions.get(f.teacher.0, 0), Some(&vec![0u8, 1]));
    assert_eq!(lock_of(&f.state, (f.class, 0, f.subject)), Some((f.room, 2)));
    assert_eq!(blocks_of(&f.state, (f.class, 0)), Some(1));
}

#[test]
fn rr_rollback_takes_recreated_rows_out_first() {
    let mut f = doppelstunde();
    let snap = rr_ruin_block(0, &f.lesson, &f.tbs, &mut f.placements, &mut f.state);
    // The recreate placed the block on day 1.
    let slots = vec![((1u8, 0u8), f.tbs[2].id), ((1u8, 1u8), f.tbs[3].id)];
    kempe_apply_block(&f.lesson, 1, 0, f.room, f.teacher, &slots, &mut f.placements, &mut f.state);
    let recreated: Vec<Placement> = f.placements.clone();
    assert_eq!(recreated.len(), 2);
    let lessons = vec![f.lesson.clone()];
    rr_rollback(&vec![recreated], &vec![(f.lesson.id, snap)], &lessons, &f.tbs, &mut f.placements, &mut f.state);
    let days: Vec<u8> = f
        .placements
        .iter()
        .map(|p| f.tbs.iter().find(|tb| tb.id == p.time_block_id).unwrap().day_of_week)
        .collect();
    assert_eq!(days, vec![0, 0]);
    assert!(f.state.class_positions.get(f.class.0, 1).is_none());
    assert_eq!(f.state.class_positions.get(f.class.0, 0), Some(&vec![0u8, 1]));
    assert_eq!(lock_of(&f.state, (f.class, 1, f.subject)), None);
    assert_eq!(blocks_of(&f.state, (f.class, 1)), None);
    assert_eq!(blocks_of(&f.state, (f.class, 0)), Some(1));
}

#[test]
fn kempe_rollback_undoes_an_applied_window() {
    let mut f = doppelstunde();
    let snap = rr_ruin_block(0, &f.lesson, &f.tbs, &mut f.placements, &mut f.state);
    let slots = vec![((1u8, 0u8), f.tbs[2].id), ((1u8, 1u8), f.tbs[3].id)];
    kempe_apply_block(&f.lesson, 1, 0, f.room, f.teacher, &slots, &mut f.placements, &mut f.state);
    assert_eq!(f.state.class_positions.get(f.class.0, 1), Some(&vec![0u8, 1]));
    let lessons = vec![f.lesson.clone()];
    kempe_rollback(
        &vec![(f.lesson.id, 1, 0)],
        &vec![(f.lesson.id, 0, snap)],
        &lessons,
        &f.tbs,
        &slots,
        &mut f.placements,
        &mut f.state,
    );
    assert_eq!(f.placements.len(), 2);
    assert!(f.placements.iter().all(|p| p.time_block_id == f.tbs[0].id || p.time_block_id == f.tbs[1].id));
    assert!(f.state.class_positions.get(f.class.0, 1).is_none());
    assert_eq!(f.state.teacher_positions.get(f.teacher.0, 0), Some(&vec![0u8, 1]));
    assert_eq!(lock_of(&f.state, (f.class, 0, f.subject)), Some((f.room, 2)));
    assert_eq!(blocks_of(&f.state, (f.class, 1)), None);
    assert_eq!(blocks_of(&f.state, (f.class, 0)), Some(1));
}

#[test]
fn kempe_rollback_without_a_recreated_row_leaves_the_day_count() {
    // Nothing of the lesson sits in the window: no row goes and the day
    // keeps its count.
    let mut f = doppelstunde();
    let slots = vec![((1u8, 0u8), f.tbs[2].id), ((1u8, 1u8), f.tbs[3].id)];
    f.state.lessons_by_class_day.push(((f.class, 1), 3));
    let lessons = vec![f.lesson.clone()];
    let empty: Vec<(LessonId, u8, BlockSnapshot)> = vec![];
    kempe_rollback(&vec![(f.lesson.id, 1, 0)], &empty, &lessons, &f.tbs, &slots, &mut f.placements, &mut f.state);
    assert_eq!(f.placements.len(), 2);
    assert_eq!(blocks_of(&f.state, (f.class, 1)), Some(3));
}
