use solver_core::quality::{backend_objective, build_backend_objectives, quality_report, QualityComponent, QualityReport};
use solver_core::score::{score_solution, worst_class_interior_gaps, worst_class_spread};
use solver_core::types::{
    production_active_weights, ConstraintWeights, Lesson, LessonId, Placement, Problem, Room, RoomId, SchoolClass,
    SchoolClassId, Subject, SubjectId, Teacher, TeacherId, TeacherQualification, TimeBlock, TimeBlockId,
    TimeBlockKind, Violation, ViolationKind,
};
use std::collections::BTreeSet;
use uuid::Uuid;

fn quality_uuid(n: u8) -> u128 {
    Uuid::from_bytes([n; 16]).as_u128()
}

fn tb(id: u8, day: u8, position: u8) -> TimeBlock {
    TimeBlock { id: TimeBlockId(quality_uuid(id)), day_of_week: day, position, kind: TimeBlockKind::Lesson }
}

fn quality_three_block_one_class_problem() -> Problem {
    Problem {
        time_blocks: vec![tb(10, 0, 0), tb(11, 0, 1), tb(12, 0, 2)],
        teachers: vec![Teacher { id: TeacherId(quality_uuid(20)), max_hours_per_week: 10, reserve_hours_per_week: 0 }],
        rooms: vec![Room { id: RoomId(quality_uuid(30)) }],
        subjects: vec![Subject {
            id: SubjectId(quality_uuid(40)),
            prefer_early_period: 0,
            avoid_first_period: 0,
            avoid_last_period: 0,
            prefer_late_period: 0,
            max_hours_per_day: 8,
        }],
        school_classes: vec![SchoolClass {
            id: SchoolClassId(quality_uuid(50)),
            home_room_id: None,
            max_lessons_per_day: None,
            class_teacher_id: None,
        }],
        lessons: vec![Lesson {
            id: LessonId(quality_uuid(60)),
            school_class_ids: vec![SchoolClassId(quality_uuid(50))],
            subject_id: SubjectId(quality_uuid(40)),
            teacher_candidates: vec![TeacherId(quality_uuid(20))],
            teacher_pin: Some(TeacherId(quality_uuid(20))),
            hours_per_week: 2,
            preferred_block_size: 1,
            pre_buffer_minutes: 0,
            post_buffer_minutes: 0,
            lesson_group_id: None,
        }],
        teacher_qualifications: vec![TeacherQualification {
            teacher_id: TeacherId(quality_uuid(20)),
            subject_id: SubjectId(quality_uuid(40)),
        }],
        teacher_blocked_times: vec![],
        room_blocked_times: vec![],
        room_subject_suitabilities: vec![],
        pinned_placements: vec![],
    }
}

fn place_in(lesson_id: u8, tb_id: u8, room_id: u8) -> Placement {
    Placement {
        lesson_id: LessonId(quality_uuid(lesson_id)),
        time_block_id: TimeBlockId(quality_uuid(tb_id)),
        room_id: RoomId(quality_uuid(room_id)),
        teacher_id: TeacherId(quality_uuid(20)),
    }
}

#[test]
fn quality_report_default_returns_zeros() {
    let report = QualityReport::default();
    assert_eq!(report, QualityReport::default());
    assert_eq!(report.weighted_score, 0);
    assert_eq!(report.hard_violations, 0);
    assert_eq!(report.worst_per_class_interior_gaps, 0);
}

#[test]
fn quality_report_hard_violations_equals_violation_count() {
    let problem = quality_three_block_one_class_problem();
    let violations = vec![
        Violation { kind: ViolationKind::NoFreeTimeBlock, lesson_id: LessonId(quality_uuid(60)), hour_index: 0, reason: None },
        Violation { kind: ViolationKind::NoSuitableRoom, lesson_id: LessonId(quality_uuid(60)), hour_index: 1, reason: None },
    ];
    let report = quality_report(&problem, &[], &violations, &ConstraintWeights::default());
    assert_eq!(report.hard_violations, 2);
}

#[test]
fn quality_report_unplaced_hours_equals_expected_minus_placed() {
    let problem = quality_three_block_one_class_problem();
    let placements = vec![place_in(60, 10, 30)];
    let report = quality_report(&problem, &placements, &[], &ConstraintWeights::default());
    assert_eq!(report.unplaced_hours, 1);
}

#[test]
fn quality_report_unplaced_hours_never_negative() {
    let problem = quality_three_block_one_class_problem();
    let placements = vec![place_in(60, 10, 30), place_in(60, 11, 30), place_in(60, 12, 30)];
    let report = quality_report(&problem, &placements, &[], &ConstraintWeights::default());
    assert_eq!(report.unplaced_hours, 0);
}

#[test]
fn quality_report_class_gap_hours_matches_score_helper() {
    let problem = quality_three_block_one_class_problem();
    let placements = vec![place_in(60, 10, 30), place_in(60, 12, 30)];
    let report = quality_report(&problem, &placements, &[], &ConstraintWeights::default());
    assert_eq!(report.class_gap_hours, 1);
    assert_eq!(report.teacher_gap_hours, 1);
}

#[test]
fn quality_report_class_day_balance_matches_score_helper() {
    let mut problem = quality_three_block_one_class_problem();
    for day in 1..=3u8 {
        problem.time_blocks.push(tb(20 + day, day, 0));
    }
    problem.time_blocks.push(tb(13, 0, 3));
    problem.time_blocks.push(tb(14, 0, 4));
    let placements = vec![place_in(60, 10, 30), place_in(60, 11, 30), place_in(60, 12, 30), place_in(60, 13, 30)];
    let report = quality_report(&problem, &placements, &[], &ConstraintWeights::default());
    assert_eq!(report.class_day_balance_cost, 6);
}

#[test]
fn quality_report_home_room_misses_counts_per_member_class() {
    let mut problem = quality_three_block_one_class_problem();
    problem.school_classes[0].home_room_id = Some(RoomId(quality_uuid(30)));
    problem.rooms.push(Room { id: RoomId(quality_uuid(31)) });
    let placements = vec![place_in(60, 10, 30), place_in(60, 11, 31), place_in(60, 12, 31)];
    let report = quality_report(&problem, &placements, &[], &ConstraintWeights::default());
    assert_eq!(report.home_room_misses, 2);
}

#[test]
fn quality_report_prefer_early_units_match_score_helper() {
    let mut problem = quality_three_block_one_class_problem();
    problem.subjects[0].prefer_early_period = 2;
    let placements = vec![place_in(60, 10, 30), place_in(60, 12, 30)];
    let report = quality_report(&problem, &placements, &[], &ConstraintWeights::default());
    assert_eq!(report.prefer_early_units, 4);
}

#[test]
fn quality_report_avoid_first_units_match_score_helper() {
    let mut problem = quality_three_block_one_class_problem();
    problem.subjects[0].avoid_first_period = 3;
    let placements = vec![place_in(60, 10, 30)];
    let report = quality_report(&problem, &placements, &[], &ConstraintWeights::default());
    assert_eq!(report.avoid_first_units, 3);
}

#[test]
fn quality_report_avoid_last_units_match_score_helper() {
    let mut problem = quality_three_block_one_class_problem();
    problem.subjects[0].avoid_last_period = 5;
    let placements = vec![place_in(60, 12, 30)];
    let report = quality_report(&problem, &placements, &[], &ConstraintWeights::default());
    assert_eq!(report.avoid_last_units, 5);
}

#[test]
fn quality_report_prefer_late_units_match_score_helper() {
    let mut problem = quality_three_block_one_class_problem();
    problem.subjects[0].prefer_late_period = 2;
    let placements = vec![place_in(60, 10, 30), place_in(60, 12, 30)];
    let report = quality_report(&problem, &placements, &[], &ConstraintWeights::default());
    assert_eq!(report.prefer_late_units, 4);
}

#[test]
fn quality_report_prefer_class_teacher_misses_counts_pairs() {
    let mut problem = quality_three_block_one_class_problem();
    let t2 = TeacherId(quality_uuid(21));
    problem.teachers.push(Teacher { id: t2, max_hours_per_week: 10, reserve_hours_per_week: 0 });
    problem.school_classes[0].class_teacher_id = Some(TeacherId(quality_uuid(20)));
    let mut p1 = place_in(60, 10, 30);
    p1.teacher_id = t2;
    let report = quality_report(&problem, &[p1], &[], &ConstraintWeights::default());
    assert_eq!(report.prefer_class_teacher_misses, 1);
}

#[test]
fn backend_objective_returns_some_for_every_known_backend() {
    for name in ["lahc", "lahc_rr", "lahc_kempe", "lahc_rr_kempe", "cpsat"] {
        assert!(backend_objective(name).is_some(), "backend_objective({name:?}) should return Some");
    }
}

#[test]
fn backend_objective_returns_none_for_unknown_name() {
    assert!(backend_objective("timefold").is_none());
    assert!(backend_objective("").is_none());
}

#[test]
fn backend_objective_lahc_family_partitions_quality_components() {
    let all: BTreeSet<QualityComponent> = QualityComponent::all().into_iter().collect();
    for name in ["lahc", "lahc_rr", "lahc_kempe", "lahc_rr_kempe"] {
        let bo = backend_objective(name).expect("registered");
        let optimised: BTreeSet<QualityComponent> = bo.optimised.iter().copied().collect();
        let skipped: BTreeSet<QualityComponent> = bo.declared_skipped.iter().copied().collect();
        let union: BTreeSet<QualityComponent> = optimised.union(&skipped).copied().collect();
        assert_eq!(union, all, "{name}: optimised and declared_skipped must cover every component");
        assert!(optimised.intersection(&skipped).next().is_none(), "{name}: no component may be in both");
    }
}

#[test]
fn backend_objective_cpsat_partitions_quality_components() {
    let bo = backend_objective("cpsat").expect("registered");
    assert_eq!(bo.optimised.len(), QualityComponent::all().len());
    assert!(bo.declared_skipped.is_empty());
}

#[test]
fn backend_objective_carries_name_and_notes() {
    let bo = backend_objective("lahc_rr").expect("registered");
    assert_eq!(bo.name, "lahc_rr");
    assert!(bo.notes.starts_with("Inherits LAHC"));
    let cp = backend_objective("cpsat").expect("registered");
    assert!(cp.notes.starts_with("CP-SAT"));
    assert_eq!(build_backend_objectives().len(), 5);
}

#[test]
fn component_labels_are_lower_snake_case_and_distinct() {
    let labels: Vec<&str> = QualityComponent::all().into_iter().map(|c| c.component_label()).collect();
    assert_eq!(
        labels,
        vec![
            "class_gap",
            "teacher_gap",
            "class_day_balance",
            "home_room",
            "prefer_early",
            "avoid_first",
            "avoid_last",
            "prefer_late",
            "prefer_class_teacher"
        ]
    );
}

fn quality_synthetic_two_class_five_day_problem(width: u8) -> Problem {
    let class_a = SchoolClassId(quality_uuid(150));
    let class_b = SchoolClassId(quality_uuid(151));
    let teacher_a = TeacherId(quality_uuid(120));
    let teacher_b = TeacherId(quality_uuid(121));
    let subject_id = SubjectId(quality_uuid(140));
    let mut time_blocks = Vec::new();
    for day in 0u8..5 {
        for pos in 0u8..width {
            time_blocks.push(tb(100 + day * 10 + pos, day, pos));
        }
    }
    let mk_lesson = |id: u8, class: SchoolClassId, teacher: TeacherId| Lesson {
        id: LessonId(quality_uuid(id)),
        school_class_ids: vec![class],
        subject_id,
        teacher_candidates: vec![teacher],
        teacher_pin: Some(teacher),
        hours_per_week: u8::max(1, width * 5),
        preferred_block_size: 1,
        pre_buffer_minutes: 0,
        post_buffer_minutes: 0,
        lesson_group_id: None,
    };
    let mk_class = |id: SchoolClassId| SchoolClass { id, home_room_id: None, max_lessons_per_day: None, class_teacher_id: None };
    Problem {
        time_blocks,
        teachers: vec![
            Teacher { id: teacher_a, max_hours_per_week: 50, reserve_hours_per_week: 0 },
            Teacher { id: teacher_b, max_hours_per_week: 50, reserve_hours_per_week: 0 },
        ],
        rooms: vec![Room { id: RoomId(quality_uuid(130)) }],
        subjects: vec![Subject {
            id: subject_id,
            prefer_early_period: 0,
            avoid_first_period: 0,
            avoid_last_period: 0,
            prefer_late_period: 0,
            max_hours_per_day: 8,
        }],
        school_classes: vec![mk_class(class_a), mk_class(class_b)],
        lessons: vec![mk_lesson(160, class_a, teacher_a), mk_lesson(161, class_b, teacher_b)],
        teacher_qualifications: vec![
            TeacherQualification { teacher_id: teacher_a, subject_id },
            TeacherQualification { teacher_id: teacher_b, subject_id },
        ],
        teacher_blocked_times: vec![],
        room_blocked_times: vec![],
        room_subject_suitabilities: vec![],
        pinned_placements: vec![],
    }
}

fn quality_synthetic_place_class_a(day: u8, position: u8) -> Placement {
    Placement {
        lesson_id: LessonId(quality_uuid(160)),
        time_block_id: TimeBlockId(quality_uuid(100 + day * 10 + position)),
        room_id: RoomId(quality_uuid(130)),
        teacher_id: TeacherId(quality_uuid(120)),
    }
}

fn quality_synthetic_place_class_b(day: u8, position: u8) -> Placement {
    Placement {
        lesson_id: LessonId(quality_uuid(161)),
        time_block_id: TimeBlockId(quality_uuid(100 + day * 10 + position)),
        room_id: RoomId(quality_uuid(130)),
        teacher_id: TeacherId(quality_uuid(121)),
    }
}

fn quality_synthetic_two_class_unbalanced() -> (Problem, Vec<Placement>) {
    let problem = quality_synthetic_two_class_five_day_problem(4);
    let mut placements = Vec::new();
    for pos in 0u8..4 {
        placements.push(quality_synthetic_place_class_a(0, pos));
    }
    for day in 0u8..5 {
        placements.push(quality_synthetic_place_class_b(day, 0));
    }
    (problem, placements)
}

fn quality_synthetic_one_class_gappy() -> (Problem, Vec<Placement>) {
    let problem = quality_synthetic_two_class_five_day_problem(4);
    let placements = vec![
        quality_synthetic_place_class_a(0, 0),
        quality_synthetic_place_class_a(0, 3),
        quality_synthetic_place_class_b(0, 0),
        quality_synthetic_place_class_b(0, 1),
    ];
    (problem, placements)
}

#[test]
fn quality_report_worst_per_class_spread_matches_score_helper() {
    let (problem, placements) = quality_synthetic_two_class_unbalanced();
    let report = quality_report(&problem, &placements, &[], &ConstraintWeights::default());
    assert_eq!(report.worst_per_class_spread, worst_class_spread(&problem, &placements));
    assert_eq!(report.worst_per_class_spread, 4);
}

#[test]
fn quality_report_worst_per_class_interior_gaps_matches_score_helper() {
    let (problem, placements) = quality_synthetic_one_class_gappy();
    let report = quality_report(&problem, &placements, &[], &ConstraintWeights::default());
    assert_eq!(report.worst_per_class_interior_gaps, worst_class_interior_gaps(&problem, &placements));
    assert_eq!(report.worst_per_class_interior_gaps, 2);
}

#[test]
fn quality_report_weighted_score_matches_score_solution_under_widened_axes() {
    let (problem, placements) = quality_synthetic_two_class_unbalanced();
    let weights = production_active_weights();
    let report = quality_report(&problem, &placements, &[], &weights);
    assert_eq!(report.weighted_score, score_solution(&problem, &placements, &weights, &[]));
}

#[test]
fn quality_report_weighted_score_matches_score_solution_on_gappy_placements() {
    let (problem, placements) = quality_synthetic_one_class_gappy();
    let weights = ConstraintWeights {
        class_gap: 3,
        teacher_gap: 2,
        class_day_balance: 1,
        max_per_class_spread: 4,
        max_per_class_interior_gaps: 5,
        ..ConstraintWeights::default()
    };
    let report = quality_report(&problem, &placements, &[], &weights);
    assert_eq!(report.weighted_score, score_solution(&problem, &placements, &weights, &[]));
    assert!(report.weighted_score > 0);
}
