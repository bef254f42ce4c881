use solver_core::partition::Partition;
use solver_core::score::{
    class_day_balance_cost, class_day_balance_cost_for_class, class_day_balance_cost_for_class_after_add,
    class_day_balance_cost_for_class_from_counts, class_day_balance_cost_for_class_with_swap, gap_count,
    gap_count_after_insert, gap_count_after_remove, home_room_penalty, home_room_penalty_one_class,
    score_solution, slice_recompute, subject_preference_score, worst_class_interior_gaps, worst_class_spread,
};
use solver_core::types::{
    production_active_weights, ConstraintWeights, Lesson, LessonId, Placement, Problem, Room, RoomId, SchoolClass,
    SchoolClassId, Subject, SubjectId, Teacher, TeacherId, TeacherQualification, TimeBlock, TimeBlockId,
    TimeBlockKind,
};
use uuid::Uuid;

fn score_uuid(n: u8) -> u128 {
    Uuid::from_bytes([n; 16]).as_u128()
}

fn nil() -> u128 {
    Uuid::nil().as_u128()
}

fn no_soft() -> Vec<(LessonId, TimeBlockId)> {
    Vec::new()
}

fn plain_subject(id: u128) -> Subject {
    Subject {
        id: SubjectId(id),
        prefer_early_period: 0,
        avoid_first_period: 0,
        avoid_last_period: 0,
        prefer_late_period: 0,
        max_hours_per_day: 8,
    }
}

fn plain_class(id: u128, home: Option<RoomId>) -> SchoolClass {
    SchoolClass { id: SchoolClassId(id), home_room_id: home, max_lessons_per_day: None, class_teacher_id: None }
}

fn lesson(id: u128, classes: Vec<SchoolClassId>, subject: u128, teacher: u128, hours: u8) -> Lesson {
    Lesson {
        id: LessonId(id),
        school_class_ids: classes,
        subject_id: SubjectId(subject),
        teacher_candidates: vec![TeacherId(teacher)],
        teacher_pin: Some(TeacherId(teacher)),
        hours_per_week: hours,
        preferred_block_size: 1,
        pre_buffer_minutes: 0,
        post_buffer_minutes: 0,
        lesson_group_id: None,
    }
}

fn tb(id: u8, day: u8, position: u8) -> TimeBlock {
    TimeBlock { id: TimeBlockId(score_uuid(id)), day_of_week: day, position, kind: TimeBlockKind::Lesson }
}

fn three_block_one_class_problem() -> Problem {
    Problem {
        time_blocks: vec![tb(10, 0, 0), tb(11, 0, 1), tb(12, 0, 2)],
        teachers: vec![Teacher { id: TeacherId(score_uuid(20)), max_hours_per_week: 10, reserve_hours_per_week: 0 }],
        rooms: vec![Room { id: RoomId(score_uuid(30)) }],
        subjects: vec![plain_subject(score_uuid(40))],
        school_classes: vec![plain_class(score_uuid(50), None)],
        lessons: vec![lesson(score_uuid(60), vec![SchoolClassId(score_uuid(50))], score_uuid(40), score_uuid(20), 2)],
        teacher_qualifications: vec![TeacherQualification {
            teacher_id: TeacherId(score_uuid(20)),
            subject_id: SubjectId(score_uuid(40)),
        }],
        teacher_blocked_times: vec![],
        room_blocked_times: vec![],
        room_subject_suitabilities: vec![],
        pinned_placements: vec![],
    }
}

fn place(lesson_id: u8, tb_id: u8) -> Placement {
    Placement {
        lesson_id: LessonId(score_uuid(lesson_id)),
        time_block_id: TimeBlockId(score_uuid(tb_id)),
        room_id: RoomId(score_uuid(30)),
        teacher_id: TeacherId(score_uuid(20)),
    }
}

fn weights_gap(class_gap: u32, teacher_gap: u32) -> ConstraintWeights {
    ConstraintWeights { class_gap, teacher_gap, ..ConstraintWeights::default() }
}

#[test]
fn empty_placements_score_zero() {
    let p = three_block_one_class_problem();
    assert_eq!(score_solution(&p, &[], &weights_gap(5, 7), &no_soft()), 0);
}

#[test]
fn single_placement_scores_zero() {
    let p = three_block_one_class_problem();
    let placements = [place(60, 10)];
    assert_eq!(score_solution(&p, &placements, &weights_gap(5, 7), &no_soft()), 0);
}

#[test]
fn contiguous_placements_score_zero() {
    let p = three_block_one_class_problem();
    let placements = [place(60, 10), place(60, 11)];
    assert_eq!(score_solution(&p, &placements, &weights_gap(5, 7), &no_soft()), 0);
}

#[test]
fn one_gap_scores_class_plus_teacher_weights() {
    let p = three_block_one_class_problem();
    let placements = [place(60, 10), place(60, 12)];
    assert_eq!(score_solution(&p, &placements, &weights_gap(5, 7), &no_soft()), 12);
}

#[test]
fn weights_compose_linearly() {
    let p = three_block_one_class_problem();
    let placements = [place(60, 10), place(60, 12)];
    assert_eq!(score_solution(&p, &placements, &weights_gap(1, 0), &no_soft()), 1);
    assert_eq!(score_solution(&p, &placements, &weights_gap(2, 0), &no_soft()), 2);
}

#[test]
fn cross_day_placements_do_not_combine() {
    let mut p = three_block_one_class_problem();
    p.time_blocks.push(tb(13, 1, 0));
    let placements = [place(60, 10), place(60, 13)];
    assert_eq!(score_solution(&p, &placements, &weights_gap(5, 7), &no_soft()), 0);
}

#[test]
fn zero_weights_short_circuit_to_zero() {
    let p = three_block_one_class_problem();
    let placements = [place(60, 10), place(60, 12)];
    assert_eq!(score_solution(&p, &placements, &ConstraintWeights::default(), &no_soft()), 0);
}

#[test]
fn gap_count_after_remove_single_element_returns_zero() {
    let positions = [3u8];
    assert_eq!(gap_count_after_remove(&positions, 3), 0);
}

#[test]
fn gap_count_after_remove_min_shrinks_span() {
    let positions = [1u8, 3, 5];
    assert_eq!(gap_count_after_remove(&positions, 1), 1);
}

#[test]
fn gap_count_after_remove_max_shrinks_span() {
    let positions = [1u8, 3, 5];
    assert_eq!(gap_count_after_remove(&positions, 5), 1);
}

#[test]
fn gap_count_after_remove_middle_grows_gap() {
    let positions = [1u8, 3, 5];
    assert_eq!(gap_count_after_remove(&positions, 3), 3);
}

#[test]
fn gap_count_after_remove_absent_returns_unchanged() {
    let positions = [1u8, 3, 5];
    assert_eq!(gap_count_after_remove(&positions, 7), gap_count(&positions));
}

#[test]
fn gap_count_after_remove_two_to_one_returns_zero() {
    let positions = [1u8, 3];
    assert_eq!(gap_count_after_remove(&positions, 1), 0);
}

#[test]
fn gap_count_counts_missing_interior_positions() {
    assert_eq!(gap_count(&[]), 0);
    assert_eq!(gap_count(&[4u8]), 0);
    assert_eq!(gap_count(&[0u8, 1, 2]), 0);
    assert_eq!(gap_count(&[0u8, 3, 7]), 5);
}

#[test]
fn gap_count_after_insert_fills_and_extends() {
    let v = vec![1u8, 3, 5];
    assert_eq!(gap_count_after_insert(Some(&v), 2), 1);
    assert_eq!(gap_count_after_insert(Some(&v), 3), 2);
    assert_eq!(gap_count_after_insert(Some(&v), 8), 4);
    assert_eq!(gap_count_after_insert(None, 8), 0);
    let empty: Vec<u8> = Vec::new();
    assert_eq!(gap_count_after_insert(Some(&empty), 8), 0);
}

fn subject_with(prefer_early: u32, avoid_first: u32, avoid_last: u32, prefer_late: u32) -> Subject {
    Subject {
        id: SubjectId(score_uuid(40)),
        prefer_early_period: prefer_early,
        avoid_first_period: avoid_first,
        avoid_last_period: avoid_last,
        prefer_late_period: prefer_late,
        max_hours_per_day: 8,
    }
}

#[test]
fn subject_preference_score_returns_zero_when_flags_off() {
    let subject = subject_with(0, 0, 0, 0);
    let weights = ConstraintWeights { prefer_early_period: 5, avoid_first_period: 7, ..ConstraintWeights::default() };
    assert_eq!(subject_preference_score(&subject, &tb(10, 0, 3), 5, &weights), 0);
}

#[test]
fn subject_preference_score_linear_in_position_when_prefer_early_set() {
    let subject = subject_with(1, 0, 0, 0);
    let weights = ConstraintWeights { prefer_early_period: 3, ..ConstraintWeights::default() };
    for pos in 0u8..7 {
        assert_eq!(subject_preference_score(&subject, &tb(10, 0, pos), 6, &weights), u32::from(pos) * 3);
    }
}

#[test]
fn subject_preference_score_constant_at_position_zero_when_avoid_first_set() {
    let subject = subject_with(0, 1, 0, 0);
    let weights = ConstraintWeights { avoid_first_period: 9, ..ConstraintWeights::default() };
    assert_eq!(subject_preference_score(&subject, &tb(10, 0, 0), 1, &weights), 9);
    assert_eq!(subject_preference_score(&subject, &tb(11, 0, 1), 1, &weights), 0);
}

#[test]
fn subject_preference_score_constant_at_max_position_when_avoid_last_set() {
    let subject = subject_with(0, 0, 1, 0);
    let weights = ConstraintWeights { avoid_last_period: 11, ..ConstraintWeights::default() };
    assert_eq!(subject_preference_score(&subject, &tb(11, 0, 4), 4, &weights), 11);
    assert_eq!(subject_preference_score(&subject, &tb(10, 0, 3), 4, &weights), 0);
}

fn one_class_two_block_problem_with_flagged_subject(prefer_early: u32, avoid_first: u32, avoid_last: u32) -> Problem {
    let mut p = three_block_one_class_problem();
    p.time_blocks = vec![tb(10, 0, 0), tb(11, 0, 1)];
    p.subjects = vec![subject_with(prefer_early, avoid_first, avoid_last, 0)];
    p.lessons[0].hours_per_week = 1;
    p
}

fn nil_teacher_placement(tb_id: u8, room: u8) -> Placement {
    Placement {
        lesson_id: LessonId(score_uuid(60)),
        time_block_id: TimeBlockId(score_uuid(tb_id)),
        room_id: RoomId(score_uuid(room)),
        teacher_id: TeacherId(nil()),
    }
}

#[test]
fn score_solution_includes_prefer_early_per_placement() {
    let p = one_class_two_block_problem_with_flagged_subject(1, 0, 0);
    let weights = ConstraintWeights { prefer_early_period: 2, ..ConstraintWeights::default() };
    let placements = [nil_teacher_placement(11, 30)];
    assert_eq!(score_solution(&p, &placements, &weights, &no_soft()), 2);
}

#[test]
fn score_solution_includes_avoid_first_only_at_position_zero() {
    let p = one_class_two_block_problem_with_flagged_subject(0, 1, 0);
    let weights = ConstraintWeights { avoid_first_period: 7, ..ConstraintWeights::default() };
    assert_eq!(score_solution(&p, &[nil_teacher_placement(10, 30)], &weights, &no_soft()), 7);
    assert_eq!(score_solution(&p, &[nil_teacher_placement(11, 30)], &weights, &no_soft()), 0);
}

#[test]
fn score_solution_zero_with_subject_flags_off_matches_pre_9c_score() {
    let p = three_block_one_class_problem();
    let weights = ConstraintWeights {
        class_gap: 5,
        teacher_gap: 7,
        prefer_early_period: 100,
        avoid_first_period: 100,
        prefer_home_room: 0,
        avoid_last_period: 100,
        prefer_late_period: 0,
        class_day_balance: 0,
        prefer_class_teacher: 0,
        max_per_class_spread: 0,
        max_per_class_interior_gaps: 0,
        soft_pin_miss: 0,
    };
    let placements = [place(60, 10), place(60, 12)];
    assert_eq!(score_solution(&p, &placements, &weights, &no_soft()), 12);
}

fn single_class_lesson(class_id: SchoolClassId) -> Lesson {
    lesson(score_uuid(60), vec![class_id], score_uuid(40), score_uuid(20), 1)
}

#[test]
fn home_room_penalty_returns_zero_when_weight_is_zero() {
    let class_id = SchoolClassId(score_uuid(50));
    let classes = vec![plain_class(score_uuid(50), Some(RoomId(score_uuid(99))))];
    let weights = ConstraintWeights { prefer_home_room: 0, ..ConstraintWeights::default() };
    assert_eq!(home_room_penalty(&single_class_lesson(class_id), &classes, RoomId(score_uuid(30)), &weights), 0);
}

#[test]
fn home_room_penalty_returns_zero_when_class_has_no_home_room() {
    let class_id = SchoolClassId(score_uuid(50));
    let classes = vec![plain_class(score_uuid(50), None)];
    let weights = ConstraintWeights { prefer_home_room: 5, ..ConstraintWeights::default() };
    assert_eq!(home_room_penalty(&single_class_lesson(class_id), &classes, RoomId(score_uuid(30)), &weights), 0);
}

#[test]
fn home_room_penalty_returns_zero_when_room_matches_home_room() {
    let class_id = SchoolClassId(score_uuid(50));
    let home_room = RoomId(score_uuid(30));
    let classes = vec![plain_class(score_uuid(50), Some(home_room))];
    let weights = ConstraintWeights { prefer_home_room: 5, ..ConstraintWeights::default() };
    assert_eq!(home_room_penalty(&single_class_lesson(class_id), &classes, home_room, &weights), 0);
}

#[test]
fn home_room_penalty_returns_weight_when_room_differs_from_home_room() {
    let class_id = SchoolClassId(score_uuid(50));
    let classes = vec![plain_class(score_uuid(50), Some(RoomId(score_uuid(30))))];
    let weights = ConstraintWeights { prefer_home_room: 5, ..ConstraintWeights::default() };
    assert_eq!(home_room_penalty(&single_class_lesson(class_id), &classes, RoomId(score_uuid(31)), &weights), 5);
}

#[test]
fn home_room_penalty_sums_per_member_for_multi_class_lessons() {
    let c1 = SchoolClassId(score_uuid(50));
    let c2 = SchoolClassId(score_uuid(51));
    let c3 = SchoolClassId(score_uuid(52));
    let r1 = RoomId(score_uuid(30));
    let l = lesson(score_uuid(60), vec![c1, c2, c3], score_uuid(40), score_uuid(20), 1);
    let classes = vec![
        plain_class(score_uuid(50), Some(r1)),
        plain_class(score_uuid(51), Some(RoomId(score_uuid(31)))),
        plain_class(score_uuid(52), Some(RoomId(score_uuid(32)))),
    ];
    let weights = ConstraintWeights { prefer_home_room: 4, ..ConstraintWeights::default() };
    assert_eq!(home_room_penalty(&l, &classes, RoomId(score_uuid(33)), &weights), 12);
    assert_eq!(home_room_penalty(&l, &classes, r1, &weights), 8);
}

#[test]
fn score_solution_includes_home_room_penalty_per_class() {
    let mut p = three_block_one_class_problem();
    p.school_classes.push(plain_class(score_uuid(51), None));
    p.school_classes[0].home_room_id = Some(RoomId(score_uuid(30)));
    p.rooms.push(Room { id: RoomId(score_uuid(31)) });
    let weights = ConstraintWeights { prefer_home_room: 7, ..ConstraintWeights::default() };
    let placements = [nil_teacher_placement(10, 31)];
    assert_eq!(score_solution(&p, &placements, &weights, &no_soft()), 7);
}

#[test]
fn score_solution_zero_when_only_home_room_weight_set_and_no_home_rooms() {
    let p = three_block_one_class_problem();
    let weights = ConstraintWeights { prefer_home_room: 10, ..ConstraintWeights::default() };
    let placements = [place(60, 10), place(60, 12)];
    assert_eq!(score_solution(&p, &placements, &weights, &no_soft()), 0);
}

#[test]
fn subject_preference_score_sums_when_both_flags_on_at_position_zero() {
    let subject = subject_with(1, 1, 0, 0);
    let weights = ConstraintWeights { prefer_early_period: 2, avoid_first_period: 5, ..ConstraintWeights::default() };
    assert_eq!(subject_preference_score(&subject, &tb(10, 0, 0), 2, &weights), 5);
    assert_eq!(subject_preference_score(&subject, &tb(11, 0, 2), 2, &weights), 4);
}

fn nil_tb(position: u8) -> TimeBlock {
    TimeBlock { id: TimeBlockId(nil()), day_of_week: 0, position, kind: TimeBlockKind::Lesson }
}

#[test]
fn subject_preference_score_scales_linearly_with_prefer_early_subject_weight() {
    let weights = ConstraintWeights { prefer_early_period: 2, ..ConstraintWeights::default() };
    let t = nil_tb(3);
    assert_eq!(subject_preference_score(&subject_with(1, 0, 0, 0), &t, 6, &weights), 6);
    assert_eq!(subject_preference_score(&subject_with(2, 0, 0, 0), &t, 6, &weights), 12);
    assert_eq!(subject_preference_score(&subject_with(0, 0, 0, 0), &t, 6, &weights), 0);
}

#[test]
fn subject_preference_score_scales_linearly_with_avoid_first_subject_weight() {
    let weights = ConstraintWeights { avoid_first_period: 5, ..ConstraintWeights::default() };
    let t = nil_tb(0);
    assert_eq!(subject_preference_score(&subject_with(0, 1, 0, 0), &t, 6, &weights), 5);
    assert_eq!(subject_preference_score(&subject_with(0, 3, 0, 0), &t, 6, &weights), 15);
    assert_eq!(subject_preference_score(&subject_with(0, 0, 0, 0), &t, 6, &weights), 0);
}

#[test]
fn subject_preference_score_scales_linearly_with_avoid_last_subject_weight() {
    let weights = ConstraintWeights { avoid_last_period: 4, ..ConstraintWeights::default() };
    let t = nil_tb(6);
    assert_eq!(subject_preference_score(&subject_with(0, 0, 1, 0), &t, 6, &weights), 4);
    assert_eq!(subject_preference_score(&subject_with(0, 0, 2, 0), &t, 6, &weights), 8);
    assert_eq!(subject_preference_score(&subject_with(0, 0, 0, 0), &t, 6, &weights), 0);
}

#[test]
fn subject_preference_score_linear_in_distance_from_max_when_prefer_late_set() {
    let weights = ConstraintWeights { prefer_late_period: 4, ..ConstraintWeights::default() };
    for pos in 0u8..=5 {
        assert_eq!(
            subject_preference_score(&subject_with(0, 0, 0, 1), &tb(10, 0, pos), 5, &weights),
            u32::from(5 - pos) * 4
        );
    }
}

#[test]
fn subject_preference_score_saturates_on_huge_weights() {
    let weights = ConstraintWeights { prefer_early_period: u32::MAX, ..ConstraintWeights::default() };
    assert_eq!(subject_preference_score(&subject_with(2, 0, 0, 0), &tb(10, 0, 3), 5, &weights), u32::MAX);
}

#[test]
fn score_solution_includes_avoid_last_only_at_max_day_position() {
    let weights = ConstraintWeights { avoid_last_period: 3, ..ConstraintWeights::default() };
    let mut problem = three_block_one_class_problem();
    problem.time_blocks = vec![tb(10, 0, 0), tb(11, 0, 1), tb(12, 1, 0), tb(13, 1, 1), tb(14, 1, 2)];
    problem.subjects = vec![subject_with(0, 0, 1, 0)];
    problem.lessons[0].hours_per_week = 4;
    let placements =
        [nil_teacher_placement(10, 30), nil_teacher_placement(11, 30), nil_teacher_placement(12, 30), nil_teacher_placement(14, 30)];
    assert_eq!(score_solution(&problem, &placements, &weights, &no_soft()), 6);
}

#[test]
fn class_day_balance_zero_for_perfectly_even_spread() {
    let mut p = three_block_one_class_problem();
    for day in 1..=3u8 {
        p.time_blocks.push(tb(20 + day, day, 0));
    }
    let weights = ConstraintWeights { class_day_balance: 5, ..ConstraintWeights::default() };
    let placements = [place(60, 10), place(60, 21), place(60, 22), place(60, 23)];
    assert_eq!(score_solution(&p, &placements, &weights, &no_soft()), 0);
}

#[test]
fn class_day_balance_penalises_lopsided_spread() {
    let mut p = three_block_one_class_problem();
    for day in 1..=3u8 {
        p.time_blocks.push(tb(20 + day, day, 0));
    }
    p.time_blocks.push(tb(13, 0, 3));
    p.time_blocks.push(tb(14, 0, 4));
    let weights = ConstraintWeights { class_day_balance: 5, ..ConstraintWeights::default() };
    let placements = [place(60, 10), place(60, 11), place(60, 12), place(60, 13)];
    assert_eq!(score_solution(&p, &placements, &weights, &no_soft()), 30);
}

fn partition_of(entries: &[(u128, u8, Vec<u8>)]) -> Partition {
    let mut p = Partition::new();
    for (owner, day, positions) in entries {
        p.set_entry(*owner, *day, positions.clone());
    }
    p
}

#[test]
fn class_day_balance_cost_for_class_matches_full_cost_per_class() {
    let class_a = SchoolClassId(score_uuid(91));
    let class_b = SchoolClassId(score_uuid(92));
    let by_class_day =
        partition_of(&[(class_a.0, 0, vec![0, 1, 2]), (class_a.0, 1, vec![0]), (class_b.0, 2, vec![0, 1])]);
    let classes = vec![plain_class(class_a.0, None), plain_class(class_b.0, None)];
    let days: u8 = 5;
    let total = class_day_balance_cost(&by_class_day, &classes, days);
    let per_class_a = class_day_balance_cost_for_class(class_a, days, &by_class_day);
    let per_class_b = class_day_balance_cost_for_class(class_b, days, &by_class_day);
    assert_eq!(per_class_a + per_class_b, total);
}

#[test]
fn class_day_balance_cost_for_class_with_swap_matches_post_apply_recompute() {
    let class = SchoolClassId(score_uuid(93));
    let pre = partition_of(&[(class.0, 0, vec![0, 1, 2]), (class.0, 2, vec![0])]);
    let predicted = class_day_balance_cost_for_class_with_swap(class, 5, &pre, 0, 3);
    let post = partition_of(&[(class.0, 0, vec![0, 1]), (class.0, 2, vec![0]), (class.0, 3, vec![0])]);
    let actual = class_day_balance_cost_for_class(class, 5, &post);
    assert_eq!(predicted, actual);
}

#[test]
fn class_day_balance_cost_for_class_after_add_matches_post_apply_recompute() {
    let class = SchoolClassId(score_uuid(97));
    let pre = partition_of(&[(class.0, 0, vec![0, 1, 2]), (class.0, 2, vec![0])]);
    let predicted = class_day_balance_cost_for_class_after_add(class, 5, &pre, 1, 2);
    let post = partition_of(&[(class.0, 0, vec![0, 1, 2]), (class.0, 2, vec![0]), (class.0, 1, vec![0, 1])]);
    let actual = class_day_balance_cost_for_class(class, 5, &post);
    assert_eq!(predicted, actual);
}

#[test]
fn class_day_balance_cost_for_class_after_add_returns_zero_for_zero_days() {
    let class = SchoolClassId(score_uuid(98));
    let positions = Partition::new();
    assert_eq!(class_day_balance_cost_for_class_after_add(class, 0, &positions, 0, 1), 0);
}

#[test]
fn class_day_balance_cost_for_class_after_add_grows_lopsided_total() {
    let class = SchoolClassId(score_uuid(99));
    let positions = partition_of(&[(class.0, 0, vec![0, 1, 2])]);
    let cost_add_to_packed = class_day_balance_cost_for_class_after_add(class, 4, &positions, 0, 1);
    let cost_add_to_empty = class_day_balance_cost_for_class_after_add(class, 4, &positions, 1, 1);
    assert!(cost_add_to_empty < cost_add_to_packed);
}

#[test]
fn class_day_balance_cost_for_class_exact_values() {
    let class = SchoolClassId(score_uuid(99));
    // Counts 3/0/0/0 over four days: sum 3, scaled |12-3| + 3 * |0-3| = 18, / 4 = 4.
    let positions = partition_of(&[(class.0, 0, vec![0, 1, 2])]);
    assert_eq!(class_day_balance_cost_for_class(class, 4, &positions), 4);
    // Counts 1/1/1/1: perfectly even.
    let even = partition_of(&[(class.0, 0, vec![0]), (class.0, 1, vec![3]), (class.0, 2, vec![1]), (class.0, 3, vec![2])]);
    assert_eq!(class_day_balance_cost_for_class(class, 4, &even), 0);
    assert_eq!(class_day_balance_cost_for_class(class, 0, &even), 0);
}

#[test]
fn class_day_balance_cost_for_class_from_counts_matches_partition_walk() {
    let class = SchoolClassId(score_uuid(99));
    let positions = partition_of(&[(class.0, 0, vec![0, 1, 2])]);
    assert_eq!(
        class_day_balance_cost_for_class_from_counts(class, 4, &[3, 0, 0, 0]),
        class_day_balance_cost_for_class(class, 4, &positions)
    );
    assert_eq!(class_day_balance_cost_for_class_from_counts(class, 0, &[3, 0]), 0);
    assert_eq!(class_day_balance_cost_for_class_from_counts(class, 4, &[]), 0);
}

#[test]
fn home_room_penalty_one_class_matches_lesson_walk_for_single_class_lesson() {
    let class = SchoolClassId(score_uuid(94));
    let home = RoomId(score_uuid(95));
    let other = RoomId(score_uuid(96));
    let classes = vec![plain_class(class.0, Some(home))];
    let weights = ConstraintWeights { prefer_home_room: 7, ..ConstraintWeights::default() };
    assert_eq!(home_room_penalty_one_class(class, &classes, other, &weights), 7);
    assert_eq!(home_room_penalty_one_class(class, &classes, home, &weights), 0);
    let l = single_class_lesson(class);
    assert_eq!(home_room_penalty(&l, &classes, other, &weights), home_room_penalty_one_class(class, &classes, other, &weights));
}

fn prefer_class_teacher_test_problem(klt_qualified: bool, class_teacher: Option<TeacherId>) -> Problem {
    let t1 = TeacherId(score_uuid(20));
    let t2 = TeacherId(score_uuid(21));
    let subject_id = SubjectId(score_uuid(40));
    let mut qualifications = vec![TeacherQualification { teacher_id: t2, subject_id }];
    if klt_qualified {
        qualifications.push(TeacherQualification { teacher_id: t1, subject_id });
    }
    let mut p = three_block_one_class_problem();
    p.time_blocks = vec![tb(10, 0, 0), tb(11, 0, 1)];
    p.teachers.push(Teacher { id: t2, max_hours_per_week: 10, reserve_hours_per_week: 0 });
    p.school_classes[0].class_teacher_id = class_teacher;
    p.lessons[0].teacher_candidates = vec![t1, t2];
    p.lessons[0].teacher_pin = None;
    p.teacher_qualifications = qualifications;
    p
}

fn placements_with_teacher(teacher: TeacherId) -> Vec<Placement> {
    vec![
        Placement { lesson_id: LessonId(score_uuid(60)), time_block_id: TimeBlockId(score_uuid(10)), room_id: RoomId(score_uuid(30)), teacher_id: teacher },
        Placement { lesson_id: LessonId(score_uuid(60)), time_block_id: TimeBlockId(score_uuid(11)), room_id: RoomId(score_uuid(30)), teacher_id: teacher },
    ]
}

#[test]
fn score_solution_includes_prefer_class_teacher_when_klt_qualified_and_mismatched() {
    let t1 = TeacherId(score_uuid(20));
    let t2 = TeacherId(score_uuid(21));
    let problem = prefer_class_teacher_test_problem(true, Some(t1));
    let weights = ConstraintWeights { prefer_class_teacher: 5, ..ConstraintWeights::default() };
    assert_eq!(score_solution(&problem, &placements_with_teacher(t2), &weights, &no_soft()), 5);
}

#[test]
fn score_solution_zero_prefer_class_teacher_when_klt_assigned_matches() {
    let t1 = TeacherId(score_uuid(20));
    let problem = prefer_class_teacher_test_problem(true, Some(t1));
    let placements = placements_with_teacher(t1);
    let on = ConstraintWeights { prefer_class_teacher: 5, ..ConstraintWeights::default() };
    let off = ConstraintWeights { prefer_class_teacher: 0, ..ConstraintWeights::default() };
    assert_eq!(score_solution(&problem, &placements, &on, &no_soft()), score_solution(&problem, &placements, &off, &no_soft()));
}

#[test]
fn score_solution_zero_prefer_class_teacher_when_klt_not_qualified() {
    let t1 = TeacherId(score_uuid(20));
    let t2 = TeacherId(score_uuid(21));
    let problem = prefer_class_teacher_test_problem(false, Some(t1));
    let placements = placements_with_teacher(t2);
    let on = ConstraintWeights { prefer_class_teacher: 5, ..ConstraintWeights::default() };
    let off = ConstraintWeights { prefer_class_teacher: 0, ..ConstraintWeights::default() };
    assert_eq!(score_solution(&problem, &placements, &on, &no_soft()), score_solution(&problem, &placements, &off, &no_soft()));
}

fn synthetic_two_class_five_day_problem(width: u8) -> Problem {
    let class_a = SchoolClassId(score_uuid(50));
    let class_b = SchoolClassId(score_uuid(51));
    let teacher_a = TeacherId(score_uuid(20));
    let teacher_b = TeacherId(score_uuid(21));
    let subject_id = SubjectId(score_uuid(40));
    let mut time_blocks: Vec<TimeBlock> = Vec::new();
    for day in 0u8..5 {
        for pos in 0u8..width {
            time_blocks.push(tb(100 + day * 10 + pos, day, pos));
        }
    }
    let mut la = lesson(score_uuid(60), vec![class_a], subject_id.0, teacher_a.0, u8::max(1, width * 5));
    la.teacher_candidates = vec![teacher_a];
    let lb = lesson(score_uuid(61), vec![class_b], subject_id.0, teacher_b.0, u8::max(1, width * 5));
    Problem {
        time_blocks,
        teachers: vec![
            Teacher { id: teacher_a, max_hours_per_week: 50, reserve_hours_per_week: 0 },
            Teacher { id: teacher_b, max_hours_per_week: 50, reserve_hours_per_week: 0 },
        ],
        rooms: vec![Room { id: RoomId(score_uuid(30)) }],
        subjects: vec![plain_subject(subject_id.0)],
        school_classes: vec![plain_class(class_a.0, None), plain_class(class_b.0, None)],
        lessons: vec![la, lb],
        teacher_qualifications: vec![
            TeacherQualification { teacher_id: teacher_a, subject_id },
            TeacherQualification { teacher_id: teacher_b, subject_id },
        ],
        teacher_blocked_times: vec![],
        room_blocked_times: vec![],
        room_subject_suitabilities: vec![],
        pinned_placements: vec![],
    }
}

fn synthetic_place_class_a(day: u8, position: u8) -> Placement {
    Placement {
        lesson_id: LessonId(score_uuid(60)),
        time_block_id: TimeBlockId(score_uuid(100 + day * 10 + position)),
        room_id: RoomId(score_uuid(30)),
        teacher_id: TeacherId(score_uuid(20)),
    }
}

fn synthetic_place_class_b(day: u8, position: u8) -> Placement {
    Placement {
        lesson_id: LessonId(score_uuid(61)),
        time_block_id: TimeBlockId(score_uuid(100 + day * 10 + position)),
        room_id: RoomId(score_uuid(30)),
        teacher_id: TeacherId(score_uuid(21)),
    }
}

fn synthetic_placements_balanced_two_class() -> Vec<Placement> {
    let mut out = Vec::new();
    for day in 0u8..5 {
        out.push(synthetic_place_class_a(day, 0));
        out.push(synthetic_place_class_b(day, 0));
    }
    out
}

fn synthetic_placements_unbalanced_two_class() -> Vec<Placement> {
    let mut out = Vec::new();
    for pos in 0u8..4 {
        out.push(synthetic_place_class_a(0, pos));
    }
    for day in 0u8..5 {
        out.push(synthetic_place_class_b(day, 0));
    }
    out
}

fn synthetic_placements_class_a_gaps_one_day() -> Vec<Placement> {
    vec![synthetic_place_class_a(0, 0), synthetic_place_class_a(0, 3), synthetic_place_class_b(0, 0), synthetic_place_class_b(0, 1)]
}

fn synthetic_placements_contiguous_one_day() -> Vec<Placement> {
    vec![synthetic_place_class_a(0, 0), synthetic_place_class_a(0, 1), synthetic_place_class_b(0, 0), synthetic_place_class_b(0, 1)]
}

#[test]
fn worst_class_spread_returns_zero_on_balanced_two_class_problem() {
    let problem = synthetic_two_class_five_day_problem(4);
    assert_eq!(worst_class_spread(&problem, &synthetic_placements_balanced_two_class()), 0);
}

#[test]
fn worst_class_spread_returns_four_on_unbalanced_two_class_problem() {
    let problem = synthetic_two_class_five_day_problem(4);
    assert_eq!(worst_class_spread(&problem, &synthetic_placements_unbalanced_two_class()), 4);
}

#[test]
fn worst_class_interior_gaps_returns_zero_when_every_class_day_is_contiguous() {
    let problem = synthetic_two_class_five_day_problem(4);
    assert_eq!(worst_class_interior_gaps(&problem, &synthetic_placements_contiguous_one_day()), 0);
}

#[test]
fn worst_class_interior_gaps_returns_two_when_one_class_has_two_gap_hours() {
    let problem = synthetic_two_class_five_day_problem(4);
    assert_eq!(worst_class_interior_gaps(&problem, &synthetic_placements_class_a_gaps_one_day()), 2);
}

#[test]
fn score_solution_increases_when_worst_class_spread_grows() {
    let problem = synthetic_two_class_five_day_problem(4);
    let weights = production_active_weights();
    assert!(
        score_solution(&problem, &synthetic_placements_unbalanced_two_class(), &weights, &no_soft())
            > score_solution(&problem, &synthetic_placements_balanced_two_class(), &weights, &no_soft())
    );
}

#[test]
fn score_solution_increases_when_worst_class_interior_gaps_grows() {
    let problem = synthetic_two_class_five_day_problem(4);
    let weights = production_active_weights();
    assert!(
        score_solution(&problem, &synthetic_placements_class_a_gaps_one_day(), &weights, &no_soft())
            > score_solution(&problem, &synthetic_placements_contiguous_one_day(), &weights, &no_soft())
    );
}

#[test]
fn slice_recompute_matches_score_solution_slice_component() {
    let p = three_block_one_class_problem();
    let placements = vec![place(60, 10), place(60, 12)];
    let weights = ConstraintWeights {
        class_gap: 5,
        teacher_gap: 7,
        prefer_early_period: 3,
        avoid_first_period: 0,
        avoid_last_period: 0,
        prefer_late_period: 0,
        prefer_home_room: 0,
        class_day_balance: 0,
        prefer_class_teacher: 0,
        max_per_class_spread: 0,
        max_per_class_interior_gaps: 0,
        soft_pin_miss: 0,
    };
    let canonical = score_solution(&p, &placements, &weights, &no_soft());
    let slice = slice_recompute(&p, &placements, &weights);
    assert_eq!(slice, canonical);
    assert_eq!(slice, 12);
}

#[test]
fn score_solution_counts_soft_pin_misses() {
    let p = three_block_one_class_problem();
    let placements = [place(60, 10), place(60, 11)];
    let weights = ConstraintWeights { soft_pin_miss: 4, ..ConstraintWeights::default() };
    // One soft pin honoured, one missed.
    let soft = vec![
        (LessonId(score_uuid(60)), TimeBlockId(score_uuid(10))),
        (LessonId(score_uuid(60)), TimeBlockId(score_uuid(12))),
    ];
    assert_eq!(score_solution(&p, &placements, &weights, &soft), 4);
}

#[test]
fn worst_class_spread_counts_a_shared_slot_once() {
    let mut problem = three_block_one_class_problem();
    problem.lessons.push(lesson(score_uuid(61), vec![SchoolClassId(score_uuid(50))], score_uuid(40), score_uuid(20), 1));
    let placements = vec![
        Placement {
            lesson_id: LessonId(score_uuid(60)),
            time_block_id: TimeBlockId(score_uuid(10)),
            room_id: RoomId(score_uuid(30)),
            teacher_id: TeacherId(score_uuid(20)),
        },
        Placement {
            lesson_id: LessonId(score_uuid(61)),
            time_block_id: TimeBlockId(score_uuid(10)),
            room_id: RoomId(score_uuid(30)),
            teacher_id: TeacherId(score_uuid(20)),
        },
    ];
    assert_eq!(worst_class_spread(&problem, &placements), 1);
}

#[test]
fn doubling_every_weight_doubles_the_score() {
    let p = three_block_one_class_problem();
    let placements = vec![place(60, 10), place(60, 12)];
    let w = ConstraintWeights { class_gap: 1, teacher_gap: 2, avoid_first_period: 3, ..ConstraintWeights::default() };
    let w2 = ConstraintWeights { class_gap: 2, teacher_gap: 4, avoid_first_period: 6, ..ConstraintWeights::default() };
    let one = score_solution(&p, &placements, &w, &no_soft());
    let two = score_solution(&p, &placements, &w2, &no_soft());
    assert!(one > 0);
    assert_eq!(two, 2 * one);
}
