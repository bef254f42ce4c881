use solver_core::index::Indexed;
use solver_core::lahc::{
    class_partitions_delta_sum, gap_count_after_swap, kempe_apply_subject_pref, kempe_pick_room,
    kempe_post_score_delta, kempe_snapshot_pre_score, lesson_teacher_in_state,
    partition_delta, pick_room, rr_collect_anchors, running_slice_from_placements, saturating_apply_delta,
    score_after_change_move,
};
use solver_core::score::slice_recompute;
use solver_core::partition::Partition;
use solver_core::types::{
    ConstraintWeights, Lesson, LessonGroupId, LessonId, Placement, Problem, Room, RoomBlockedTime, RoomId,
    RoomSubjectSuitability, SchoolClass, SchoolClassId, Subject, SubjectId, TeacherId, TimeBlock, TimeBlockId,
    TimeBlockKind,
};
use uuid::Uuid;

fn lahc_uuid(n: u8) -> u128 {
    Uuid::from_bytes([n; 16]).as_u128()
}

fn partition_of(entries: &[(u128, u8, Vec<u8>)]) -> Partition {
    let mut p = Partition::new();
    for (owner, day, positions) in entries {
        p.set_entry(*owner, *day, positions.clone());
    }
    p
}

fn unit_gap_weights() -> ConstraintWeights {
    ConstraintWeights { class_gap: 1, teacher_gap: 1, ..ConstraintWeights::default() }
}

#[test]
fn gap_count_after_swap_no_op_when_old_equals_new() {
    let positions = [0u8, 2, 4];
    assert_eq!(gap_count_after_swap(&positions, 2, 2), 2);
}

#[test]
fn gap_count_after_swap_fills_gap() {
    let positions = [0u8, 2, 4];
    assert_eq!(gap_count_after_swap(&positions, 2, 1), 2);
}

#[test]
fn gap_count_after_swap_extends_span() {
    let positions = [0u8, 1];
    assert_eq!(gap_count_after_swap(&positions, 1, 5), 4);
}

#[test]
fn gap_count_after_swap_perfectly_compacts() {
    let positions = [0u8, 2, 4];
    assert_eq!(gap_count_after_swap(&positions, 4, 1), 0);
}

#[test]
fn gap_count_after_swap_target_already_present_dedupes() {
    let positions = [0u8, 1, 2];
    assert_eq!(gap_count_after_swap(&positions, 0, 1), 0);
}

#[test]
fn gap_count_after_swap_absent_old_position_is_unchanged() {
    let positions = [0u8, 2, 4];
    assert_eq!(gap_count_after_swap(&positions, 3, 1), 2);
    assert_eq!(gap_count_after_swap(&[], 3, 1), 0);
    assert_eq!(gap_count_after_swap(&[3u8], 3, 9), 0);
}

#[test]
fn partition_delta_cross_day_zero_when_both_partitions_unaffected() {
    let class = SchoolClassId(lahc_uuid(50));
    let teacher = TeacherId(lahc_uuid(20));
    let class_positions = partition_of(&[(class.0, 0, vec![0, 1])]);
    let teacher_positions = Partition::new();
    let delta = score_after_change_move(&[class], teacher, 0, 1, 1, 0, &class_positions, &teacher_positions, &unit_gap_weights());
    assert_eq!(delta, 0);
}

#[test]
fn partition_delta_same_day_compacts_drops_score() {
    let class = SchoolClassId(lahc_uuid(50));
    let class_positions = partition_of(&[(class.0, 0, vec![0, 2, 4])]);
    let teacher_positions = Partition::new();
    let teacher = TeacherId(lahc_uuid(20));
    let delta = score_after_change_move(&[class], teacher, 0, 4, 0, 1, &class_positions, &teacher_positions, &unit_gap_weights());
    assert_eq!(delta, -2);
}

#[test]
fn partition_delta_cross_day_counts_both_days() {
    // Old day [0, 2, 4] loses 2: gap 2 -> 3. New day [0, 5] gains 1: gap 4 -> 3.
    let old_part = vec![0u8, 2, 4];
    let new_part = vec![0u8, 5];
    assert_eq!(partition_delta(Some(&old_part), Some(&new_part), 0, 1, 2, 1), 0);
    // Without a new-day partition the new day contributes nothing.
    assert_eq!(partition_delta(Some(&old_part), None, 0, 1, 2, 1), 1);
    assert_eq!(partition_delta(None, None, 0, 0, 2, 1), 0);
}

#[test]
fn class_partitions_delta_sum_adds_every_member_class() {
    let a = SchoolClassId(lahc_uuid(50));
    let b = SchoolClassId(lahc_uuid(51));
    let parts = partition_of(&[(a.0, 0, vec![0, 2, 4]), (b.0, 0, vec![0, 1, 4])]);
    // a: [0,2,4] -> move 4 to 1 -> [0,1,2]: 2 -> 0. b: [0,1,4] -> [0,1]: 2 -> 0.
    assert_eq!(class_partitions_delta_sum(&[a, b], 0, 0, 4, 1, &parts), -4);
    assert_eq!(class_partitions_delta_sum(&[], 0, 0, 4, 1, &parts), 0);
}

#[test]
fn score_after_change_move_weights_class_and_teacher_halves() {
    let class = SchoolClassId(lahc_uuid(50));
    let teacher = TeacherId(lahc_uuid(20));
    let class_positions = partition_of(&[(class.0, 0, vec![0, 2, 4])]);
    let teacher_positions = partition_of(&[(teacher.0, 0, vec![0, 2, 4])]);
    let weights = ConstraintWeights { class_gap: 3, teacher_gap: 5, ..ConstraintWeights::default() };
    assert_eq!(
        score_after_change_move(&[class], teacher, 0, 4, 0, 1, &class_positions, &teacher_positions, &weights),
        -16
    );
}

fn pick_room_problem(rooms: Vec<RoomId>) -> Problem {
    Problem {
        time_blocks: vec![TimeBlock {
            id: TimeBlockId(lahc_uuid(11)),
            day_of_week: 0,
            position: 1,
            kind: TimeBlockKind::Lesson,
        }],
        teachers: vec![],
        rooms: rooms.into_iter().map(|id| Room { id }).collect(),
        subjects: vec![Subject {
            id: SubjectId(lahc_uuid(40)),
            prefer_early_period: 0,
            avoid_first_period: 0,
            avoid_last_period: 0,
            prefer_late_period: 0,
            max_hours_per_day: 8,
        }],
        school_classes: vec![],
        lessons: vec![],
        teacher_qualifications: vec![],
        teacher_blocked_times: vec![],
        room_blocked_times: vec![],
        room_subject_suitabilities: vec![],
        pinned_placements: vec![],
    }
}

#[test]
fn pick_room_falls_back_to_lowest_id_when_old_blocked() {
    let subject = SubjectId(lahc_uuid(40));
    let old_room = RoomId(lahc_uuid(30));
    let alt_room = RoomId(lahc_uuid(20));
    let new_tb = TimeBlockId(lahc_uuid(11));
    let problem = pick_room_problem(vec![old_room, alt_room]);
    let idx = Indexed::new(&problem);
    let used = vec![(old_room.0, new_tb.0)];
    assert_eq!(pick_room(&problem, &idx, subject, old_room, new_tb, &used, None), Some(alt_room));
}

#[test]
fn pick_room_returns_none_when_all_rooms_infeasible() {
    let subject = SubjectId(lahc_uuid(40));
    let old_room = RoomId(lahc_uuid(30));
    let new_tb = TimeBlockId(lahc_uuid(11));
    let problem = pick_room_problem(vec![old_room]);
    let idx = Indexed::new(&problem);
    let used = vec![(old_room.0, new_tb.0)];
    assert_eq!(pick_room(&problem, &idx, subject, old_room, new_tb, &used, None), None);
}

#[test]
fn pick_room_reuses_old_room_when_feasible() {
    let subject = SubjectId(lahc_uuid(40));
    let old_room = RoomId(lahc_uuid(30));
    let new_tb = TimeBlockId(lahc_uuid(11));
    let problem = pick_room_problem(vec![old_room]);
    let idx = Indexed::new(&problem);
    let used: Vec<(u128, u128)> = Vec::new();
    assert_eq!(pick_room(&problem, &idx, subject, old_room, new_tb, &used, None), Some(old_room));
}

#[test]
fn pick_room_honours_lock_and_skips_unsuitable_and_blocked_rooms() {
    let subject = SubjectId(lahc_uuid(40));
    let old_room = RoomId(lahc_uuid(30));
    let low = RoomId(lahc_uuid(10));
    let mid = RoomId(lahc_uuid(20));
    let high = RoomId(lahc_uuid(25));
    let new_tb = TimeBlockId(lahc_uuid(11));
    let mut problem = pick_room_problem(vec![high, old_room, mid, low]);
    // `low` suits another subject only; `mid` is blocked at the block.
    problem.room_subject_suitabilities.push(RoomSubjectSuitability { room_id: low, subject_id: SubjectId(lahc_uuid(41)) });
    problem.room_blocked_times.push(RoomBlockedTime { room_id: mid, time_block_id: new_tb });
    let idx = Indexed::new(&problem);
    let used = vec![(old_room.0, new_tb.0)];
    assert_eq!(pick_room(&problem, &idx, subject, old_room, new_tb, &used, None), Some(high));
    assert_eq!(pick_room(&problem, &idx, subject, old_room, new_tb, &used, Some(mid)), None);
    assert_eq!(pick_room(&problem, &idx, subject, old_room, new_tb, &used, Some(high)), Some(high));
}

#[test]
fn saturating_apply_delta_clamps_both_ways() {
    assert_eq!(saturating_apply_delta(10, 5), 15);
    assert_eq!(saturating_apply_delta(10, -4), 6);
    assert_eq!(saturating_apply_delta(10, -40), 0);
    assert_eq!(saturating_apply_delta(u32::MAX - 1, 5), u32::MAX);
    // Magnitudes beyond u32 wrap through the cast to u32.
    assert_eq!(saturating_apply_delta(10, (1i64 << 32) + 3), 13);
}

fn lock_lesson(classes: Vec<SchoolClassId>, pin: Option<TeacherId>, candidates: Vec<TeacherId>) -> Lesson {
    Lesson {
        id: LessonId(lahc_uuid(60)),
        school_class_ids: classes,
        subject_id: SubjectId(lahc_uuid(40)),
        teacher_candidates: candidates,
        teacher_pin: pin,
        hours_per_week: 1,
        preferred_block_size: 1,
        pre_buffer_minutes: 0,
        post_buffer_minutes: 0,
        lesson_group_id: None,
    }
}

#[test]
fn lesson_teacher_in_state_prefers_lock_of_first_locked_class() {
    let a = SchoolClassId(lahc_uuid(50));
    let b = SchoolClassId(lahc_uuid(51));
    let subject = SubjectId(lahc_uuid(40));
    let t_pin = TeacherId(lahc_uuid(20));
    let t_lock = TeacherId(lahc_uuid(21));
    let lesson = lock_lesson(vec![a, b], Some(t_pin), vec![t_pin]);
    let locks = vec![((b, subject), t_lock), ((a, SubjectId(lahc_uuid(41))), TeacherId(lahc_uuid(22)))];
    assert_eq!(lesson_teacher_in_state(&locks, &lesson), t_lock);
    assert_eq!(lesson_teacher_in_state(&Vec::new(), &lesson), t_pin);
    let unpinned = lock_lesson(vec![a], None, vec![TeacherId(lahc_uuid(23)), t_pin]);
    assert_eq!(lesson_teacher_in_state(&Vec::new(), &unpinned), TeacherId(lahc_uuid(23)));
}

#[test]
fn rr_collect_anchors_skips_pinned_and_grouped_lessons() {
    let class = SchoolClassId(lahc_uuid(50));
    let teacher = TeacherId(lahc_uuid(20));
    let room = RoomId(lahc_uuid(30));
    let lesson_free = LessonId(lahc_uuid(60));
    let lesson_pinned = LessonId(lahc_uuid(61));
    let lesson_grouped = LessonId(lahc_uuid(62));
    let group_id = LessonGroupId(lahc_uuid(70));
    let mk = |id: LessonId, group: Option<LessonGroupId>| Lesson {
        id,
        school_class_ids: vec![class],
        subject_id: SubjectId(lahc_uuid(40)),
        teacher_candidates: vec![teacher],
        teacher_pin: Some(teacher),
        hours_per_week: 1,
        preferred_block_size: 1,
        pre_buffer_minutes: 0,
        post_buffer_minutes: 0,
        lesson_group_id: group,
    };
    let lessons = vec![mk(lesson_free, None), mk(lesson_pinned, None), mk(lesson_grouped, Some(group_id))];
    let tbs: Vec<TimeBlock> = (0..3)
        .map(|i| TimeBlock { id: TimeBlockId(lahc_uuid(10 + i)), day_of_week: 0, position: i, kind: TimeBlockKind::Lesson })
        .collect();
    let nil = TeacherId(Uuid::nil().as_u128());
    let placements = vec![
        Placement { lesson_id: lesson_free, time_block_id: tbs[0].id, room_id: room, teacher_id: nil },
        Placement { lesson_id: lesson_pinned, time_block_id: tbs[1].id, room_id: room, teacher_id: nil },
        Placement { lesson_id: lesson_grouped, time_block_id: tbs[2].id, room_id: room, teacher_id: nil },
    ];
    let pinned = vec![lesson_pinned];
    let anchors = rr_collect_anchors(&placements, &lessons, &tbs, &pinned);
    assert_eq!(anchors.len(), 1);
    assert_eq!(anchors[0].0, lesson_free);
    assert_eq!(anchors[0].1, 0);
}

#[test]
fn rr_collect_anchors_drops_days_with_more_than_one_block_and_sorts() {
    let class = SchoolClassId(lahc_uuid(50));
    let teacher = TeacherId(lahc_uuid(20));
    let mk = |id: u8| Lesson {
        id: LessonId(lahc_uuid(id)),
        school_class_ids: vec![class],
        subject_id: SubjectId(lahc_uuid(40)),
        teacher_candidates: vec![teacher],
        teacher_pin: Some(teacher),
        hours_per_week: 3,
        preferred_block_size: 1,
        pre_buffer_minutes: 0,
        post_buffer_minutes: 0,
        lesson_group_id: None,
    };
    let lessons = vec![mk(62), mk(61)];
    let tbs = vec![
        TimeBlock { id: TimeBlockId(lahc_uuid(10)), day_of_week: 1, position: 0, kind: TimeBlockKind::Lesson },
        TimeBlock { id: TimeBlockId(lahc_uuid(11)), day_of_week: 0, position: 0, kind: TimeBlockKind::Lesson },
        TimeBlock { id: TimeBlockId(lahc_uuid(12)), day_of_week: 0, position: 1, kind: TimeBlockKind::Lesson },
    ];
    let pl = |l: u8, t: u8| Placement {
        lesson_id: LessonId(lahc_uuid(l)),
        time_block_id: TimeBlockId(lahc_uuid(t)),
        room_id: RoomId(lahc_uuid(30)),
        teacher_id: teacher,
    };
    // Lesson 62 holds two single-hour blocks on day 0 (dropped) and one on day 1.
    let placements = vec![pl(62, 11), pl(62, 12), pl(62, 10), pl(61, 11), pl(99, 10)];
    let anchors = rr_collect_anchors(&placements, &lessons, &tbs, &Vec::new());
    assert_eq!(anchors, vec![(LessonId(lahc_uuid(61)), 0), (LessonId(lahc_uuid(62)), 1)]);
}

fn slice_problem() -> Problem {
    let class = SchoolClassId(lahc_uuid(50));
    let teacher = TeacherId(lahc_uuid(20));
    Problem {
        time_blocks: (0..4)
            .map(|i| TimeBlock { id: TimeBlockId(lahc_uuid(10 + i)), day_of_week: 0, position: i, kind: TimeBlockKind::Lesson })
            .collect(),
        teachers: vec![],
        rooms: vec![Room { id: RoomId(lahc_uuid(30)) }],
        subjects: vec![Subject {
            id: SubjectId(lahc_uuid(40)),
            prefer_early_period: 1,
            avoid_first_period: 0,
            avoid_last_period: 0,
            prefer_late_period: 0,
            max_hours_per_day: 8,
        }],
        school_classes: vec![SchoolClass { id: class, home_room_id: None, max_lessons_per_day: None, class_teacher_id: None }],
        lessons: vec![Lesson {
            id: LessonId(lahc_uuid(60)),
            school_class_ids: vec![class],
            subject_id: SubjectId(lahc_uuid(40)),
            teacher_candidates: vec![teacher],
            teacher_pin: Some(teacher),
            hours_per_week: 2,
            preferred_block_size: 2,
            pre_buffer_minutes: 0,
            post_buffer_minutes: 0,
            lesson_group_id: None,
        }],
        teacher_qualifications: vec![],
        teacher_blocked_times: vec![],
        room_blocked_times: vec![],
        room_subject_suitabilities: vec![],
        pinned_placements: vec![],
    }
}

#[test]
fn kempe_apply_subject_pref_sums_the_window() {
    let problem = slice_problem();
    let lesson = problem.lessons[0].clone();
    let subject = problem.subjects[0];
    let weights = ConstraintWeights { prefer_early_period: 2, ..ConstraintWeights::default() };
    let slots: Vec<((u8, u8), TimeBlockId)> = (0..4u8).map(|i| ((0u8, i), TimeBlockId(lahc_uuid(10 + i)))).collect();
    let max_days = vec![(0u8, 3u8)];
    // Window at positions 2 and 3: 2 * 2 + 2 * 3 = 10.
    assert_eq!(kempe_apply_subject_pref(&problem, &lesson, &subject, 0, 2, &weights, &max_days, &slots), 10);
    assert_eq!(kempe_apply_subject_pref(&problem, &lesson, &subject, 0, 0, &weights, &max_days, &slots), 2);
}

#[test]
fn running_slice_from_placements_matches_slice_recompute() {
    let problem = slice_problem();
    let teacher = TeacherId(lahc_uuid(20));
    let pl = |t: u8| Placement {
        lesson_id: LessonId(lahc_uuid(60)),
        time_block_id: TimeBlockId(lahc_uuid(t)),
        room_id: RoomId(lahc_uuid(30)),
        teacher_id: teacher,
    };
    let placements = vec![pl(10), pl(13)];
    let weights = ConstraintWeights { class_gap: 5, teacher_gap: 7, prefer_early_period: 3, ..ConstraintWeights::default() };
    let max_days = vec![(0u8, 3u8)];
    let running = running_slice_from_placements(&problem, &placements, &weights, &max_days);
    // Two gap-hours per partition: 5 * 2 + 7 * 2, plus 3 * 0 + 3 * 3.
    assert_eq!(running, 33);
    assert_eq!(running, slice_recompute(&problem, &placements, &weights));
    // A placement whose lesson does not resolve is skipped.
    let mut with_stray = placements.clone();
    with_stray.push(Placement { lesson_id: LessonId(lahc_uuid(99)), ..pl(11) });
    assert_eq!(running_slice_from_placements(&problem, &with_stray, &weights, &max_days), 33);
}

#[test]
fn kempe_pick_room_honours_shared_lock_and_room_order() {
    let problem = slice_problem();
    let idx = Indexed::new(&problem);
    let mut lesson = problem.lessons[0].clone();
    lesson.preferred_block_size = 2;
    let slots: Vec<((u8, u8), TimeBlockId)> = (0..4u8).map(|i| ((0u8, i), TimeBlockId(lahc_uuid(10 + i)))).collect();
    let room_a = RoomId(lahc_uuid(30));
    let mut problem2 = problem.clone();
    let room_b = RoomId(lahc_uuid(31));
    problem2.rooms.push(Room { id: room_b });
    let idx2 = Indexed::new(&problem2);
    let no_locks: Vec<((SchoolClassId, u8, SubjectId), (RoomId, u32))> = Vec::new();
    // Original room free: reused.
    assert_eq!(kempe_pick_room(&problem2, &idx2, &lesson, room_a, 0, 1, &slots, &no_locks, &Vec::new(), &[1, 0]), Some(room_a));
    // Original room used at the second block of the window: first free room in order.
    let used = vec![(room_a.0, lahc_uuid(12))];
    assert_eq!(kempe_pick_room(&problem2, &idx2, &lesson, room_a, 0, 1, &slots, &no_locks, &used, &[0, 1]), Some(room_b));
    // A lock on the destination triple pins the room.
    let class = lesson.school_class_ids[0];
    let locks = vec![((class, 0u8, lesson.subject_id), (room_a, 1u32))];
    assert_eq!(kempe_pick_room(&problem2, &idx2, &lesson, room_b, 0, 1, &slots, &locks, &used, &[0, 1]), None);
    assert_eq!(kempe_pick_room(&problem, &idx, &lesson, room_b, 0, 2, &slots, &locks, &Vec::new(), &[0]), Some(room_a));
}

#[test]
fn kempe_snapshot_and_post_delta_track_touched_partitions() {
    let problem = slice_problem();
    let class = problem.lessons[0].school_class_ids[0];
    let teacher = TeacherId(lahc_uuid(20));
    let placements = vec![
        Placement {
            lesson_id: LessonId(lahc_uuid(60)),
            time_block_id: TimeBlockId(lahc_uuid(10)),
            room_id: RoomId(lahc_uuid(30)),
            teacher_id: teacher,
        },
        Placement {
            lesson_id: LessonId(lahc_uuid(60)),
            time_block_id: TimeBlockId(lahc_uuid(13)),
            room_id: RoomId(lahc_uuid(30)),
            teacher_id: teacher,
        },
    ];
    let before_class = partition_of(&[(class.0, 0, vec![0, 3])]);
    let before_teacher = partition_of(&[(teacher.0, 0, vec![0, 3])]);
    let chain = vec![(LessonId(lahc_uuid(60)), 1u8)];
    let snap = kempe_snapshot_pre_score(
        &chain,
        &problem.lessons,
        &problem.time_blocks,
        &placements,
        &Vec::new(),
        &before_class,
        &before_teacher,
    );
    // Day 0 (occupied) and day 1 (destination), for the class and the teacher.
    assert_eq!(snap.class_pre.len(), 2);
    assert_eq!(snap.teacher_pre.len(), 2);
    assert!(snap.class_pre.contains(&((class.0, 0), 2)));
    assert!(snap.class_pre.contains(&((class.0, 1), 0)));
    let weights = ConstraintWeights { class_gap: 3, teacher_gap: 5, ..ConstraintWeights::default() };
    assert_eq!(kempe_post_score_delta(&snap, &before_class, &before_teacher, &weights), 0);
    // After the move both partitions are contiguous on day 1.
    let after_class = partition_of(&[(class.0, 1, vec![0, 1])]);
    let after_teacher = partition_of(&[(teacher.0, 1, vec![0, 1])]);
    assert_eq!(kempe_post_score_delta(&snap, &after_class, &after_teacher, &weights), -16);
}
