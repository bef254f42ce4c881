use solver_core::index::Indexed;
use solver_core::kempe_move::kempe_attempt;
use solver_core::state::{replay_placement, GreedyState};
use solver_core::types::{
    ConstraintWeights, Lesson, LessonId, Placement, Problem, Room, RoomId, SchoolClass, SchoolClassId, Subject,
    SubjectId, Teacher, TeacherId, TeacherQualification, TimeBlock, TimeBlockId, TimeBlockKind,
};
use uuid::Uuid;

fn uid(n: u8) -> u128 {
    Uuid::from_bytes([n; 16]).as_u128()
}

fn lesson(id: u8, teacher: u8) -> Lesson {
    Lesson {
        id: LessonId(uid(id)),
        school_class_ids: vec![SchoolClassId(uid(50))],
        subject_id: SubjectId(uid(40)),
        teacher_candidates: vec![TeacherId(uid(teacher))],
        teacher_pin: Some(TeacherId(uid(teacher))),
        hours_per_week: 1,
        preferred_block_size: 1,
        pre_buffer_minutes: 0,
        post_buffer_minutes: 0,
        lesson_group_id: None,
    }
}

fn tb(id: u8, day: u8) -> TimeBlock {
    TimeBlock { id: TimeBlockId(uid(id)), day_of_week: day, position: 0, kind: TimeBlockKind::Lesson }
}

/// Two one-hour lessons of one class, the first on day 0, the second on
/// day 1, both at position 0 in the same room.
fn fixture() -> (Problem, Vec<Placement>, GreedyState) {
    let problem = Problem {
        time_blocks: vec![tb(100, 0), tb(101, 1)],
        teachers: vec![
            Teacher { id: TeacherId(uid(20)), max_hours_per_week: 10, reserve_hours_per_week: 0 },
            Teacher { id: TeacherId(uid(21)), max_hours_per_week: 10, reserve_hours_per_week: 0 },
        ],
        rooms: vec![Room { id: RoomId(uid(30)) }],
        subjects: vec![Subject {
            id: SubjectId(uid(40)),
            prefer_early_period: 0,
            avoid_first_period: 0,
            avoid_last_period: 0,
            prefer_late_period: 0,
            max_hours_per_day: 8,
        }],
        school_classes: vec![SchoolClass {
            id: SchoolClassId(uid(50)),
            home_room_id: None,
            max_lessons_per_day: None,
            class_teacher_id: None,
        }],
        lessons: vec![lesson(60, 20), lesson(61, 21)],
        teacher_qualifications: vec![
            TeacherQualification { teacher_id: TeacherId(uid(20)), subject_id: SubjectId(uid(40)) },
            TeacherQualification { teacher_id: TeacherId(uid(21)), subject_id: SubjectId(uid(40)) },
        ],
        teacher_blocked_times: vec![],
        room_blocked_times: vec![],
        room_subject_suitabilities: vec![],
        pinned_placements: vec![],
    };
    let rows = vec![
        Placement {
            lesson_id: LessonId(uid(60)),
            time_block_id: TimeBlockId(uid(100)),
            room_id: RoomId(uid(30)),
            teacher_id: TeacherId(uid(20)),
        },
        Placement {
            lesson_id: LessonId(uid(61)),
            time_block_id: TimeBlockId(uid(101)),
            room_id: RoomId(uid(30)),
            teacher_id: TeacherId(uid(21)),
        },
    ];
    let mut placements = Vec::new();
    let mut state = GreedyState::new();
    for (i, row) in rows.iter().enumerate() {
        replay_placement(&problem.lessons[i], row, &problem.time_blocks, &mut placements, &mut state);
    }
    (problem, placements, state)
}

fn slots(problem: &Problem) -> Vec<((u8, u8), TimeBlockId)> {
    problem.time_blocks.iter().map(|t| ((t.day_of_week, t.position), t.id)).collect()
}

fn attempt(travel: &Vec<(LessonId, bool)>) -> (bool, Vec<Placement>, Vec<Placement>, u32) {
    let (problem, mut placements, mut state) = fixture();
    let before = placements.clone();
    let idx = Indexed::new(&problem);
    let lahc_list = vec![0u32; 500];
    let accepted = kempe_attempt(
        &problem,
        &idx,
        &ConstraintWeights::default(),
        0,
        0,
        travel,
        &slots(&problem),
        &vec![],
        &mut placements,
        &mut state,
        &vec![0],
        &vec![],
        &lahc_list,
        0,
        8,
    );
    (accepted, before, placements, state.canonical_score)
}

#[test]
fn kempe_attempt_swaps_two_single_hours_between_days() {
    let travel = vec![(LessonId(uid(60)), true), (LessonId(uid(61)), true)];
    let (accepted, _, after, canonical) = attempt(&travel);
    assert!(accepted);
    assert_eq!(canonical, 0);
    let block_of = |id: u8| after.iter().find(|p| p.lesson_id == LessonId(uid(id))).unwrap().time_block_id;
    assert_eq!(block_of(60), TimeBlockId(uid(101)));
    assert_eq!(block_of(61), TimeBlockId(uid(100)));
    assert_eq!(after.len(), 2);
}

#[test]
fn kempe_attempt_blocked_by_travel_verdict_changes_nothing() {
    let travel = vec![(LessonId(uid(60)), true), (LessonId(uid(61)), false)];
    let (accepted, before, after, _) = attempt(&travel);
    assert!(!accepted);
    assert_eq!(after, before);
}

#[test]
fn kempe_attempt_rejects_an_out_of_range_anchor_draw() {
    let (problem, mut placements, mut state) = fixture();
    let before = placements.clone();
    let idx = Indexed::new(&problem);
    let lahc_list = vec![0u32; 500];
    let travel = vec![(LessonId(uid(60)), true), (LessonId(uid(61)), true)];
    let accepted = kempe_attempt(
        &problem,
        &idx,
        &ConstraintWeights::default(),
        9,
        0,
        &travel,
        &slots(&problem),
        &vec![],
        &mut placements,
        &mut state,
        &vec![0],
        &vec![],
        &lahc_list,
        0,
        8,
    );
    assert!(!accepted);
    assert_eq!(placements, before);
}
