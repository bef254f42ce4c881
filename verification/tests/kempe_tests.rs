use solver_core::kempe::{kempe_build_chain, ChainBuild};
use solver_core::types::{
    Lesson, LessonGroupId, LessonId, Placement, RoomId, SchoolClassId, SubjectId, TeacherId, TimeBlock, TimeBlockId,
    TimeBlockKind,
};
use uuid::Uuid;

fn lahc_uuid(n: u8) -> u128 {
    Uuid::from_bytes([n; 16]).as_u128()
}

fn nil_teacher() -> TeacherId {
    TeacherId(Uuid::nil().as_u128())
}

fn lesson(id: u8, classes: Vec<SchoolClassId>, subject: SubjectId, teacher: TeacherId, block: u8) -> Lesson {
    Lesson {
        id: LessonId(lahc_uuid(id)),
        school_class_ids: classes,
        subject_id: subject,
        teacher_candidates: vec![teacher],
        teacher_pin: Some(teacher),
        hours_per_week: block,
        preferred_block_size: block,
        pre_buffer_minutes: 0,
        post_buffer_minutes: 0,
        lesson_group_id: None,
    }
}

fn lesson_block(id: TimeBlockId, day: u8, pos: u8) -> TimeBlock {
    TimeBlock { id, day_of_week: day, position: pos, kind: TimeBlockKind::Lesson }
}

fn place(lesson: LessonId, tb: TimeBlockId, room: RoomId) -> Placement {
    Placement { lesson_id: lesson, time_block_id: tb, room_id: room, teacher_id: nil_teacher() }
}

fn slot_table(tbs: &[TimeBlock]) -> Vec<((u8, u8), TimeBlockId)> {
    tbs.iter().map(|tb| ((tb.day_of_week, tb.position), tb.id)).collect()
}

/// `n_lessons` one-hour lessons of one class, each with its own subject and
/// pinned teacher, over two days of `slots_per_day` lesson slots.
fn kempe_one_class_fixture(n_lessons: u8, slots_per_day: u8) -> (Vec<Lesson>, Vec<TimeBlock>, RoomId) {
    let class = SchoolClassId(lahc_uuid(50));
    let room = RoomId(lahc_uuid(30));
    let lessons: Vec<Lesson> = (0..n_lessons)
        .map(|i| lesson(60 + i, vec![class], SubjectId(lahc_uuid(40 + i)), TeacherId(lahc_uuid(20 + i)), 1))
        .collect();
    let mut tbs = Vec::new();
    let mut next: u8 = 0;
    for d in 0..2u8 {
        for p in 0..slots_per_day {
            tbs.push(lesson_block(TimeBlockId(lahc_uuid(100 + next)), d, p));
            next += 1;
        }
    }
    (lessons, tbs, room)
}

fn tb_at(tbs: &[TimeBlock], day: u8, pos: u8) -> TimeBlockId {
    tbs.iter().find(|tb| tb.day_of_week == day && tb.position == pos).unwrap().id
}

fn built(outcome: ChainBuild) -> Vec<(LessonId, u8)> {
    match outcome {
        ChainBuild::Built(c) => c,
        ChainBuild::Aborted => panic!("chain build aborted unexpectedly"),
    }
}

fn dest_of(chain: &[(LessonId, u8)], id: LessonId) -> Option<u8> {
    chain.iter().find(|(l, _)| *l == id).map(|(_, d)| *d)
}

#[test]
fn kempe_chain_extends_through_class_conflict() {
    let (lessons, tbs, room) = kempe_one_class_fixture(3, 3);
    let placements = vec![
        place(lessons[0].id, tb_at(&tbs, 0, 0), room),
        place(lessons[1].id, tb_at(&tbs, 1, 0), room),
        place(lessons[2].id, tb_at(&tbs, 0, 1), room),
    ];
    let chain = built(kempe_build_chain(
        &vec![],
        lessons[0].id,
        0,
        1,
        0,
        &placements,
        &lessons,
        &tbs,
        &slot_table(&tbs),
        &vec![],
        8,
    ));
    assert_eq!(chain.len(), 2);
    assert_eq!(dest_of(&chain, lessons[0].id), Some(1));
    assert_eq!(dest_of(&chain, lessons[1].id), Some(0));
    assert_eq!(dest_of(&chain, lessons[2].id), None);
}

#[test]
fn kempe_chain_aborts_on_pin() {
    let (lessons, tbs, room) = kempe_one_class_fixture(2, 2);
    let placements =
        vec![place(lessons[0].id, tb_at(&tbs, 0, 0), room), place(lessons[1].id, tb_at(&tbs, 1, 0), room)];
    let outcome = kempe_build_chain(
        &vec![],
        lessons[0].id,
        0,
        1,
        0,
        &placements,
        &lessons,
        &tbs,
        &slot_table(&tbs),
        &vec![lessons[1].id],
        8,
    );
    assert!(matches!(outcome, ChainBuild::Aborted));
}

#[test]
fn kempe_chain_aborts_on_lesson_group() {
    let (mut lessons, tbs, room) = kempe_one_class_fixture(2, 2);
    lessons[1].lesson_group_id = Some(LessonGroupId(lahc_uuid(80)));
    let placements =
        vec![place(lessons[0].id, tb_at(&tbs, 0, 0), room), place(lessons[1].id, tb_at(&tbs, 1, 0), room)];
    let outcome = kempe_build_chain(
        &vec![],
        lessons[0].id,
        0,
        1,
        0,
        &placements,
        &lessons,
        &tbs,
        &slot_table(&tbs),
        &vec![],
        8,
    );
    assert!(matches!(outcome, ChainBuild::Aborted));
}

#[test]
fn kempe_chain_aborts_when_two_same_iteration_neighbours_share_class() {
    let class_a = SchoolClassId(lahc_uuid(50));
    let subject = SubjectId(lahc_uuid(40));
    let room = RoomId(lahc_uuid(30));
    let lessons = vec![
        lesson(60, vec![class_a], subject, TeacherId(lahc_uuid(20)), 2),
        lesson(61, vec![class_a], subject, TeacherId(lahc_uuid(21)), 1),
        lesson(62, vec![class_a], subject, TeacherId(lahc_uuid(22)), 1),
    ];
    let tbs = vec![
        lesson_block(TimeBlockId(lahc_uuid(100)), 0, 0),
        lesson_block(TimeBlockId(lahc_uuid(101)), 0, 1),
        lesson_block(TimeBlockId(lahc_uuid(102)), 1, 0),
        lesson_block(TimeBlockId(lahc_uuid(103)), 1, 1),
    ];
    let placements = vec![
        place(lessons[0].id, tbs[0].id, room),
        place(lessons[0].id, tbs[1].id, room),
        place(lessons[1].id, tbs[2].id, room),
        place(lessons[2].id, tbs[3].id, room),
    ];
    let outcome = kempe_build_chain(
        &vec![],
        lessons[0].id,
        0,
        1,
        0,
        &placements,
        &lessons,
        &tbs,
        &slot_table(&tbs),
        &vec![],
        8,
    );
    assert!(
        matches!(outcome, ChainBuild::Aborted),
        "chain must abort when two same-iteration neighbours both go to source_day and share class A",
    );
}

#[test]
fn kempe_chain_aborts_on_max_length_bound() {
    const N: u8 = 10;
    let subject = SubjectId(lahc_uuid(40));
    let room = RoomId(lahc_uuid(30));
    let classes: Vec<SchoolClassId> = (0..N).map(|i| SchoolClassId(lahc_uuid(50 + i))).collect();
    let lessons: Vec<Lesson> = (0..N)
        .map(|i| {
            lesson(
                60 + i,
                vec![classes[i as usize], classes[((i + 1) % N) as usize]],
                subject,
                TeacherId(lahc_uuid(20 + i)),
                1,
            )
        })
        .collect();
    let tb_d0 = TimeBlockId(lahc_uuid(100));
    let tb_d1 = TimeBlockId(lahc_uuid(101));
    let tbs = vec![lesson_block(tb_d0, 0, 0), lesson_block(tb_d1, 1, 0)];
    let placements: Vec<Placement> =
        (0..N).map(|i| place(lessons[i as usize].id, if i % 2 == 0 { tb_d0 } else { tb_d1 }, room)).collect();
    let outcome = kempe_build_chain(
        &vec![],
        lessons[0].id,
        0,
        1,
        0,
        &placements,
        &lessons,
        &tbs,
        &slot_table(&tbs),
        &vec![],
        8,
    );
    assert!(matches!(outcome, ChainBuild::Aborted));
}

#[test]
fn kempe_chain_aborts_on_window_position_missing_on_target_day() {
    let class = SchoolClassId(lahc_uuid(50));
    let subject = SubjectId(lahc_uuid(40));
    let room = RoomId(lahc_uuid(30));
    let teacher = TeacherId(lahc_uuid(20));
    let lessons = vec![lesson(60, vec![class], subject, teacher, 1)];
    let mut tbs: Vec<TimeBlock> = (0..6u8).map(|p| lesson_block(TimeBlockId(lahc_uuid(100 + p)), 0, p)).collect();
    tbs.push(lesson_block(TimeBlockId(lahc_uuid(200)), 1, 0));
    let placements = vec![place(lessons[0].id, TimeBlockId(lahc_uuid(104)), room)];
    let outcome = kempe_build_chain(
        &vec![],
        lessons[0].id,
        0,
        1,
        4,
        &placements,
        &lessons,
        &tbs,
        &slot_table(&tbs),
        &vec![],
        8,
    );
    assert!(matches!(outcome, ChainBuild::Aborted));
}

#[test]
fn kempe_build_chain_uses_lock_map_teacher_for_bfs_conflict_detection() {
    let class_a = SchoolClassId(lahc_uuid(50));
    let class_b = SchoolClassId(lahc_uuid(51));
    let subject = SubjectId(lahc_uuid(40));
    let room = RoomId(lahc_uuid(30));
    let t1 = TeacherId(lahc_uuid(21));
    let t2 = TeacherId(lahc_uuid(22));
    let t3 = TeacherId(lahc_uuid(23));
    let l0 = LessonId(lahc_uuid(60));
    let l1 = LessonId(lahc_uuid(61));
    let tb_d0_p0 = TimeBlockId(lahc_uuid(100));
    let tb_d1_p0 = TimeBlockId(lahc_uuid(101));
    let lessons = vec![
        Lesson {
            id: l0,
            school_class_ids: vec![class_a],
            subject_id: subject,
            teacher_candidates: vec![t1, t2],
            teacher_pin: None,
            hours_per_week: 1,
            preferred_block_size: 1,
            pre_buffer_minutes: 0,
            post_buffer_minutes: 0,
            lesson_group_id: None,
        },
        Lesson {
            id: l1,
            school_class_ids: vec![class_b],
            subject_id: subject,
            teacher_candidates: vec![t3, t2],
            teacher_pin: None,
            hours_per_week: 1,
            preferred_block_size: 1,
            pre_buffer_minutes: 0,
            post_buffer_minutes: 0,
            lesson_group_id: None,
        },
    ];
    let tbs = vec![lesson_block(tb_d0_p0, 0, 0), lesson_block(tb_d1_p0, 1, 0)];
    let placements = vec![place(l0, tb_d0_p0, room), place(l1, tb_d1_p0, room)];

    assert_eq!(lessons[0].assigned_teacher_id(), t1);
    assert_eq!(lessons[1].assigned_teacher_id(), t3);

    let chain_pre = match kempe_build_chain(
        &vec![],
        l0,
        0,
        1,
        0,
        &placements,
        &lessons,
        &tbs,
        &slot_table(&tbs),
        &vec![],
        8,
    ) {
        ChainBuild::Built(c) => c,
        ChainBuild::Aborted => panic!("empty-state chain build aborted unexpectedly"),
    };
    assert_eq!(
        chain_pre.len(),
        1,
        "without lock map, BFS sees no teacher conflict (T1 != T3) and chain stays a singleton",
    );
    assert_eq!(dest_of(&chain_pre, l1), None);

    let locks = vec![((class_a, subject), t2), ((class_b, subject), t2)];
    let chain_post = match kempe_build_chain(
        &locks,
        l0,
        0,
        1,
        0,
        &placements,
        &lessons,
        &tbs,
        &slot_table(&tbs),
        &vec![],
        8,
    ) {
        ChainBuild::Built(c) => c,
        ChainBuild::Aborted => panic!("lock-map chain build aborted unexpectedly"),
    };
    assert_eq!(
        chain_post.len(),
        2,
        "with lock map binding both lessons to T2, BFS detects teacher conflict and adds L1",
    );
    assert_eq!(dest_of(&chain_post, l0), Some(1));
    assert_eq!(dest_of(&chain_post, l1), Some(0));
}

#[test]
fn kempe_chain_aborts_when_neighbour_block_is_split_on_the_day() {
    // L1 has a two-hour block but only one of its hours sits on day 1, so
    // moving its day-1 hours would not move a whole block.
    let class = SchoolClassId(lahc_uuid(50));
    let room = RoomId(lahc_uuid(30));
    let lessons = vec![
        lesson(60, vec![class], SubjectId(lahc_uuid(40)), TeacherId(lahc_uuid(20)), 1),
        lesson(61, vec![class], SubjectId(lahc_uuid(41)), TeacherId(lahc_uuid(21)), 2),
    ];
    let tbs = vec![
        lesson_block(TimeBlockId(lahc_uuid(100)), 0, 0),
        lesson_block(TimeBlockId(lahc_uuid(101)), 0, 1),
        lesson_block(TimeBlockId(lahc_uuid(102)), 1, 0),
        lesson_block(TimeBlockId(lahc_uuid(103)), 1, 1),
    ];
    let placements = vec![
        place(lessons[0].id, tbs[0].id, room),
        place(lessons[1].id, tbs[2].id, room),
        place(lessons[1].id, tbs[1].id, room),
    ];
    let outcome = kempe_build_chain(
        &vec![],
        lessons[0].id,
        0,
        1,
        0,
        &placements,
        &lessons,
        &tbs,
        &slot_table(&tbs),
        &vec![],
        8,
    );
    assert!(matches!(outcome, ChainBuild::Aborted));
}

#[test]
fn kempe_chain_swaps_a_double_period_with_two_single_hours_of_other_classes() {
    // Seed L0 (class A, two hours) at day 0 positions 0..1. On day 1 the
    // window holds L1 (class A) at position 0 and L2 (class B, same teacher
    // as L0) at position 1: both join, bound for day 0, and their own
    // day-0 windows hold only L0, which is already in the chain.
    let class_a = SchoolClassId(lahc_uuid(50));
    let class_b = SchoolClassId(lahc_uuid(51));
    let room = RoomId(lahc_uuid(30));
    let shared_teacher = TeacherId(lahc_uuid(20));
    let lessons = vec![
        lesson(60, vec![class_a], SubjectId(lahc_uuid(40)), shared_teacher, 2),
        lesson(61, vec![class_a], SubjectId(lahc_uuid(41)), TeacherId(lahc_uuid(21)), 1),
        lesson(62, vec![class_b], SubjectId(lahc_uuid(42)), shared_teacher, 1),
    ];
    let tbs = vec![
        lesson_block(TimeBlockId(lahc_uuid(100)), 0, 0),
        lesson_block(TimeBlockId(lahc_uuid(101)), 0, 1),
        lesson_block(TimeBlockId(lahc_uuid(102)), 1, 0),
        lesson_block(TimeBlockId(lahc_uuid(103)), 1, 1),
    ];
    let placements = vec![
        place(lessons[0].id, tbs[0].id, room),
        place(lessons[0].id, tbs[1].id, room),
        place(lessons[1].id, tbs[2].id, room),
        place(lessons[2].id, tbs[3].id, room),
    ];
    let chain = built(kempe_build_chain(
        &vec![],
        lessons[0].id,
        0,
        1,
        0,
        &placements,
        &lessons,
        &tbs,
        &slot_table(&tbs),
        &vec![],
        8,
    ));
    assert_eq!(chain.len(), 3);
    assert_eq!(chain[0], (lessons[0].id, 1));
    assert_eq!(dest_of(&chain, lessons[1].id), Some(0));
    assert_eq!(dest_of(&chain, lessons[2].id), Some(0));
}

#[test]
fn kempe_chain_aborts_when_seed_lesson_is_unknown() {
    let (lessons, tbs, room) = kempe_one_class_fixture(1, 1);
    let placements = vec![place(lessons[0].id, tb_at(&tbs, 0, 0), room)];
    let outcome = kempe_build_chain(
        &vec![],
        LessonId(lahc_uuid(99)),
        0,
        1,
        0,
        &placements,
        &lessons,
        &tbs,
        &slot_table(&tbs),
        &vec![],
        8,
    );
    assert!(matches!(outcome, ChainBuild::Aborted));
}

#[test]
fn kempe_chain_lone_seed_fits_any_bound() {
    let (lessons, tbs, room) = kempe_one_class_fixture(1, 1);
    let placements = vec![place(lessons[0].id, tb_at(&tbs, 0, 0), room)];
    let chain = built(kempe_build_chain(
        &vec![],
        lessons[0].id,
        0,
        1,
        0,
        &placements,
        &lessons,
        &tbs,
        &slot_table(&tbs),
        &vec![],
        0,
    ));
    assert_eq!(chain, vec![(lessons[0].id, 1)]);
}
