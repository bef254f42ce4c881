use solver_core::state::{
    apply_change_move, kempe_apply_block, replay_placement, rr_remove_row_bookkeeping, rr_ruin_block, GreedyState,
};
use solver_core::types::{
    Lesson, LessonId, Placement, RoomId, SchoolClassId, SubjectId, TeacherId, TimeBlock, TimeBlockId, TimeBlockKind,
};
use uuid::Uuid;

fn lahc_uuid(n: u8) -> u128 {
    Uuid::from_bytes([n; 16]).as_u128()
}

fn vec_part(xs: &[u8]) -> Vec<u8> {
    xs.to_vec()
}

fn block(id: u8, day: u8, pos: u8) -> TimeBlock {
    TimeBlock { id: TimeBlockId(lahc_uuid(id)), day_of_week: day, position: pos, kind: TimeBlockKind::Lesson }
}

fn lesson(id: LessonId, class: SchoolClassId, subject: SubjectId, teacher: TeacherId, block_size: u8) -> Lesson {
    Lesson {
        id,
        school_class_ids: vec![class],
        subject_id: subject,
        teacher_candidates: vec![teacher],
        teacher_pin: Some(teacher),
        hours_per_week: block_size,
        preferred_block_size: block_size,
        pre_buffer_minutes: 0,
        post_buffer_minutes: 0,
        lesson_group_id: None,
    }
}

fn lock_of(state: &GreedyState, key: (SchoolClassId, u8, SubjectId)) -> Option<(RoomId, u32)> {
    state.locked_room.iter().find(|(k, _)| *k == key).map(|(_, v)| *v)
}

fn hours_of(state: &GreedyState, t: TeacherId) -> Option<u32> {
    state.hours_by_teacher.iter().find(|(k, _)| *k == t).map(|(_, v)| *v)
}

fn subject_hours_of(state: &GreedyState, key: (SchoolClassId, u8, SubjectId)) -> Option<u8> {
    state.subject_hours_by_class_day.iter().find(|(k, _)| *k == key).map(|(_, v)| *v)
}

fn blocks_of(state: &GreedyState, key: (SchoolClassId, u8)) -> Option<u8> {
    state.lessons_by_class_day.iter().find(|(k, _)| *k == key).map(|(_, v)| *v)
}

fn booked(set: &[(u128, u128)], owner: u128, tb: TimeBlockId) -> bool {
    set.contains(&(owner, tb.0))
}

#[test]
fn rr_ruin_block_removes_single_hour_lesson_from_state() {
    let class = SchoolClassId(lahc_uuid(50));
    let teacher = TeacherId(lahc_uuid(20));
    let subject = SubjectId(lahc_uuid(40));
    let room = RoomId(lahc_uuid(30));
    let lesson_id = LessonId(lahc_uuid(60));
    let tb = block(10, 0, 0);
    let l = lesson(lesson_id, class, subject, teacher, 1);
    let mut placements = vec![Placement { lesson_id, time_block_id: tb.id, room_id: room, teacher_id: teacher }];
    let mut state = GreedyState::new();
    state.used_teacher.push((teacher.0, tb.id.0));
    state.used_class.push((class.0, tb.id.0));
    state.used_room.push((room.0, tb.id.0));
    state.class_positions.set_entry(class.0, 0, vec_part(&[0]));
    state.teacher_positions.set_entry(teacher.0, 0, vec_part(&[0]));
    state.hours_by_teacher.push((teacher, 1));
    state.locked_room.push(((class, 0, subject), (room, 1)));

    let tbs = vec![tb];
    let snapshot = rr_ruin_block(0, &l, &tbs, &mut placements, &mut state);

    assert_eq!(placements.len(), 0);
    assert!(!booked(&state.used_teacher, teacher.0, tb.id));
    assert!(!booked(&state.used_class, class.0, tb.id));
    assert!(!booked(&state.used_room, room.0, tb.id));
    assert!(state.class_positions.get(class.0, 0).is_none());
    assert!(state.teacher_positions.get(teacher.0, 0).is_none());
    assert_eq!(hours_of(&state, teacher), Some(0));
    assert_eq!(lock_of(&state, (class, 0, subject)), None);
    assert_eq!(snapshot.rows.len(), 1);
    assert_eq!(snapshot.rows[0].lesson_id, lesson_id);
}

#[test]
fn rr_ruin_block_keeps_locked_room_when_partial() {
    let class = SchoolClassId(lahc_uuid(50));
    let teacher = TeacherId(lahc_uuid(20));
    let subject = SubjectId(lahc_uuid(40));
    let room = RoomId(lahc_uuid(30));
    let lesson_a = LessonId(lahc_uuid(60));
    let lesson_b = LessonId(lahc_uuid(61));
    let tb_a = block(10, 0, 0);
    let tb_b = block(11, 0, 1);
    let lesson_a_obj = lesson(lesson_a, class, subject, teacher, 1);
    let nil = TeacherId(Uuid::nil().as_u128());
    let mut placements = vec![
        Placement { lesson_id: lesson_a, time_block_id: tb_a.id, room_id: room, teacher_id: nil },
        Placement { lesson_id: lesson_b, time_block_id: tb_b.id, room_id: room, teacher_id: nil },
    ];
    let mut state = GreedyState::new();
    state.locked_room.push(((class, 0, subject), (room, 2)));

    let tbs = vec![tb_a, tb_b];
    rr_ruin_block(0, &lesson_a_obj, &tbs, &mut placements, &mut state);

    assert_eq!(lock_of(&state, (class, 0, subject)), Some((room, 1)));
}

#[test]
fn rr_ruin_block_removes_doppelstunde_atomically() {
    let class = SchoolClassId(lahc_uuid(50));
    let teacher = TeacherId(lahc_uuid(20));
    let subject = SubjectId(lahc_uuid(40));
    let room = RoomId(lahc_uuid(30));
    let lesson_id = LessonId(lahc_uuid(60));
    let tb_a = block(10, 0, 0);
    let tb_b = block(11, 0, 1);
    let l = lesson(lesson_id, class, subject, teacher, 2);
    let mut placements = vec![
        Placement { lesson_id, time_block_id: tb_a.id, room_id: room, teacher_id: teacher },
        Placement { lesson_id, time_block_id: tb_b.id, room_id: room, teacher_id: teacher },
    ];
    let mut state = GreedyState::new();
    state.used_teacher.push((teacher.0, tb_a.id.0));
    state.used_teacher.push((teacher.0, tb_b.id.0));
    state.used_class.push((class.0, tb_a.id.0));
    state.used_class.push((class.0, tb_b.id.0));
    state.used_room.push((room.0, tb_a.id.0));
    state.used_room.push((room.0, tb_b.id.0));
    state.class_positions.set_entry(class.0, 0, vec_part(&[0, 1]));
    state.teacher_positions.set_entry(teacher.0, 0, vec_part(&[0, 1]));
    state.hours_by_teacher.push((teacher, 2));
    state.locked_room.push(((class, 0, subject), (room, 2)));

    let tbs = vec![tb_a, tb_b];
    let snapshot = rr_ruin_block(0, &l, &tbs, &mut placements, &mut state);

    assert_eq!(placements.len(), 0);
    assert_eq!(snapshot.rows.len(), 2);
    assert_eq!(hours_of(&state, teacher), Some(0));
    assert_eq!(lock_of(&state, (class, 0, subject)), None);
}

#[test]
fn rr_ruin_block_keeps_other_days_and_lessons_and_counts_one_block_fewer() {
    let class = SchoolClassId(lahc_uuid(50));
    let teacher = TeacherId(lahc_uuid(20));
    let subject = SubjectId(lahc_uuid(40));
    let room = RoomId(lahc_uuid(30));
    let lesson_id = LessonId(lahc_uuid(60));
    let other_id = LessonId(lahc_uuid(61));
    let tb_d0 = block(10, 0, 0);
    let tb_d0b = block(11, 0, 1);
    let tb_d1 = block(12, 1, 0);
    let l = lesson(lesson_id, class, subject, teacher, 1);
    let mut placements = vec![
        Placement { lesson_id, time_block_id: tb_d1.id, room_id: room, teacher_id: teacher },
        Placement { lesson_id: other_id, time_block_id: tb_d0b.id, room_id: room, teacher_id: teacher },
        Placement { lesson_id, time_block_id: tb_d0.id, room_id: room, teacher_id: teacher },
    ];
    let mut state = GreedyState::new();
    state.lessons_by_class_day.push(((class, 0), 2));
    state.lessons_by_class_day.push(((class, 1), 1));
    state.subject_hours_by_class_day.push(((class, 0, subject), 1));
    let tbs = vec![tb_d0, tb_d0b, tb_d1];
    let snapshot = rr_ruin_block(2, &l, &tbs, &mut placements, &mut state);

    assert_eq!(snapshot.rows, vec![Placement { lesson_id, time_block_id: tb_d0.id, room_id: room, teacher_id: teacher }]);
    assert_eq!(placements.len(), 2);
    assert_eq!(placements[0].time_block_id, tb_d1.id);
    assert_eq!(placements[1].lesson_id, other_id);
    assert_eq!(blocks_of(&state, (class, 0)), Some(1));
    assert_eq!(blocks_of(&state, (class, 1)), Some(1));
    assert_eq!(subject_hours_of(&state, (class, 0, subject)), None);
}

#[test]
fn apply_change_move_updates_placement_partitions_and_used_sets() {
    let class = SchoolClassId(lahc_uuid(50));
    let teacher = TeacherId(lahc_uuid(20));
    let old_tb = block(10, 0, 0);
    let new_tb = block(11, 0, 1);
    let old_room = RoomId(lahc_uuid(30));
    let new_room = RoomId(lahc_uuid(31));
    let lesson_id = LessonId(lahc_uuid(60));
    let nil = TeacherId(Uuid::nil().as_u128());
    let mut placements =
        vec![Placement { lesson_id, time_block_id: old_tb.id, room_id: old_room, teacher_id: nil }];
    let mut state = GreedyState::new();
    state.class_positions.set_entry(class.0, 0, vec_part(&[0]));
    state.teacher_positions.set_entry(teacher.0, 0, vec_part(&[0]));
    state.used_teacher.push((teacher.0, old_tb.id.0));
    state.used_class.push((class.0, old_tb.id.0));
    state.used_room.push((old_room.0, old_tb.id.0));
    let subject = SubjectId(lahc_uuid(40));
    state.locked_room.push(((class, old_tb.day_of_week, subject), (old_room, 1)));
    let old_p = placements[0];
    apply_change_move(0, &old_p, old_tb, new_tb, new_room, &vec![class], teacher, subject, &mut placements, &mut state);

    assert_eq!(placements[0].time_block_id, new_tb.id);
    assert_eq!(placements[0].room_id, new_room);
    assert_eq!(state.class_positions.get(class.0, 0), Some(&vec_part(&[1])));
    assert_eq!(state.teacher_positions.get(teacher.0, 0), Some(&vec_part(&[1])));
    assert!(booked(&state.used_teacher, teacher.0, new_tb.id));
    assert!(!booked(&state.used_teacher, teacher.0, old_tb.id));
    assert!(booked(&state.used_class, class.0, new_tb.id));
    assert!(booked(&state.used_room, new_room.0, new_tb.id));
    assert!(!booked(&state.used_room, old_room.0, old_tb.id));
}

#[test]
fn apply_change_move_across_days_moves_locks_and_counters() {
    let class = SchoolClassId(lahc_uuid(50));
    let teacher = TeacherId(lahc_uuid(20));
    let subject = SubjectId(lahc_uuid(40));
    let old_tb = block(10, 0, 2);
    let new_tb = block(11, 1, 3);
    let room = RoomId(lahc_uuid(30));
    let new_room = RoomId(lahc_uuid(31));
    let lesson_id = LessonId(lahc_uuid(60));
    let mut placements = vec![Placement { lesson_id, time_block_id: old_tb.id, room_id: room, teacher_id: teacher }];
    let mut state = GreedyState::new();
    state.class_positions.set_entry(class.0, 0, vec_part(&[1, 2]));
    state.locked_room.push(((class, 0, subject), (room, 2)));
    state.subject_hours_by_class_day.push(((class, 0, subject), 1));
    state.lessons_by_class_day.push(((class, 0), 3));
    state.lessons_by_class_day.push(((class, 1), 1));
    let old_p = placements[0];
    apply_change_move(0, &old_p, old_tb, new_tb, new_room, &vec![class], teacher, subject, &mut placements, &mut state);

    assert_eq!(state.class_positions.get(class.0, 0), Some(&vec_part(&[1])));
    assert_eq!(state.class_positions.get(class.0, 1), Some(&vec_part(&[3])));
    assert_eq!(state.teacher_positions.get(teacher.0, 1), Some(&vec_part(&[3])));
    assert_eq!(lock_of(&state, (class, 0, subject)), Some((room, 1)));
    assert_eq!(lock_of(&state, (class, 1, subject)), Some((new_room, 1)));
    assert_eq!(subject_hours_of(&state, (class, 0, subject)), None);
    assert_eq!(subject_hours_of(&state, (class, 1, subject)), Some(1));
    assert_eq!(blocks_of(&state, (class, 0)), Some(2));
    assert_eq!(blocks_of(&state, (class, 1)), Some(2));
}

#[test]
fn replay_placement_undoes_rr_remove_row_bookkeeping() {
    let class = SchoolClassId(lahc_uuid(50));
    let teacher = TeacherId(lahc_uuid(20));
    let subject = SubjectId(lahc_uuid(40));
    let room = RoomId(lahc_uuid(30));
    let lesson_id = LessonId(lahc_uuid(60));
    let tb = block(10, 2, 4);
    let l = lesson(lesson_id, class, subject, teacher, 1);
    let row = Placement { lesson_id, time_block_id: tb.id, room_id: room, teacher_id: teacher };
    let mut state = GreedyState::new();
    state.used_teacher.push((teacher.0, tb.id.0));
    state.used_class.push((class.0, tb.id.0));
    state.used_room.push((room.0, tb.id.0));
    state.class_positions.set_entry(class.0, 2, vec_part(&[1, 4]));
    state.teacher_positions.set_entry(teacher.0, 2, vec_part(&[4, 5]));
    state.hours_by_teacher.push((teacher, 3));
    state.locked_room.push(((class, 2, subject), (room, 1)));
    state.subject_hours_by_class_day.push(((class, 2, subject), 2));
    let tbs = vec![tb];

    rr_remove_row_bookkeeping(&l, &row, &tbs, &mut state);
    assert!(!booked(&state.used_teacher, teacher.0, tb.id));
    assert_eq!(state.class_positions.get(class.0, 2), Some(&vec_part(&[1])));
    assert_eq!(hours_of(&state, teacher), Some(2));
    assert_eq!(lock_of(&state, (class, 2, subject)), None);
    assert_eq!(subject_hours_of(&state, (class, 2, subject)), Some(1));

    let mut placements = Vec::new();
    replay_placement(&l, &row, &tbs, &mut placements, &mut state);
    assert_eq!(placements, vec![row]);
    assert!(booked(&state.used_teacher, teacher.0, tb.id));
    assert!(booked(&state.used_class, class.0, tb.id));
    assert!(booked(&state.used_room, room.0, tb.id));
    assert_eq!(state.class_positions.get(class.0, 2), Some(&vec_part(&[1, 4])));
    assert_eq!(state.teacher_positions.get(teacher.0, 2), Some(&vec_part(&[4, 5])));
    assert_eq!(hours_of(&state, teacher), Some(3));
    assert_eq!(lock_of(&state, (class, 2, subject)), Some((room, 1)));
    assert_eq!(subject_hours_of(&state, (class, 2, subject)), Some(2));
}

#[test]
fn kempe_apply_block_places_one_row_per_window_slot() {
    let class = SchoolClassId(lahc_uuid(50));
    let teacher = TeacherId(lahc_uuid(20));
    let subject = SubjectId(lahc_uuid(40));
    let room = RoomId(lahc_uuid(30));
    let lesson_id = LessonId(lahc_uuid(60));
    let l = lesson(lesson_id, class, subject, teacher, 2);
    let slots = vec![((1u8, 2u8), TimeBlockId(lahc_uuid(12))), ((1u8, 3u8), TimeBlockId(lahc_uuid(13)))];
    let mut placements = Vec::new();
    let mut state = GreedyState::new();
    state.class_positions.set_entry(class.0, 1, vec_part(&[0]));
    kempe_apply_block(&l, 1, 2, room, teacher, &slots, &mut placements, &mut state);

    assert_eq!(
        placements,
        vec![
            Placement { lesson_id, time_block_id: TimeBlockId(lahc_uuid(12)), room_id: room, teacher_id: teacher },
            Placement { lesson_id, time_block_id: TimeBlockId(lahc_uuid(13)), room_id: room, teacher_id: teacher },
        ]
    );
    assert_eq!(state.class_positions.get(class.0, 1), Some(&vec_part(&[0, 2, 3])));
    assert_eq!(state.teacher_positions.get(teacher.0, 1), Some(&vec_part(&[2, 3])));
    assert!(booked(&state.used_room, room.0, TimeBlockId(lahc_uuid(13))));
    assert_eq!(hours_of(&state, teacher), Some(2));
    assert_eq!(lock_of(&state, (class, 1, subject)), Some((room, 2)));
    assert_eq!(subject_hours_of(&state, (class, 1, subject)), Some(2));
    assert_eq!(blocks_of(&state, (class, 1)), Some(1));
}
