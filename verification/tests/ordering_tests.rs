use solver_core::index::Indexed;
use solver_core::ordering::{
    blocks_by_day_table, ffd_order, home_room_pairs, home_rooms_contains, lesson_home_rooms, same_room_eligibility,
    same_room_eligibility_no_blocks,
};
use solver_core::types::{
    Lesson, LessonId, Problem, Room, RoomId, SchoolClass, SchoolClassId, Subject, SubjectId, Teacher,
    TeacherBlockedTime, TeacherId, TeacherQualification, TimeBlock, TimeBlockId, TimeBlockKind,
};
use uuid::Uuid;

fn ord_uuid(n: u8) -> u128 {
    Uuid::from_bytes([n; 16]).as_u128()
}

fn tb(id: u8, day: u8, position: u8) -> TimeBlock {
    TimeBlock { id: TimeBlockId(ord_uuid(id)), day_of_week: day, position, kind: TimeBlockKind::Lesson }
}

fn subject(id: u8) -> Subject {
    Subject {
        id: SubjectId(ord_uuid(id)),
        prefer_early_period: 0,
        avoid_first_period: 0,
        avoid_last_period: 0,
        prefer_late_period: 0,
        max_hours_per_day: 8,
    }
}

fn class(id: u8) -> SchoolClass {
    SchoolClass { id: SchoolClassId(ord_uuid(id)), home_room_id: None, max_lessons_per_day: None, class_teacher_id: None }
}

fn two_blocks_two_rooms() -> Problem {
    Problem {
        time_blocks: vec![tb(10, 0, 0), tb(11, 0, 1)],
        teachers: vec![
            Teacher { id: TeacherId(ord_uuid(20)), max_hours_per_week: 5, reserve_hours_per_week: 0 },
            Teacher { id: TeacherId(ord_uuid(21)), max_hours_per_week: 5, reserve_hours_per_week: 0 },
        ],
        rooms: vec![Room { id: RoomId(ord_uuid(30)) }, Room { id: RoomId(ord_uuid(31)) }],
        subjects: vec![subject(40), subject(41)],
        school_classes: vec![class(50), class(51)],
        lessons: vec![],
        teacher_qualifications: vec![
            TeacherQualification { teacher_id: TeacherId(ord_uuid(20)), subject_id: SubjectId(ord_uuid(40)) },
            TeacherQualification { teacher_id: TeacherId(ord_uuid(21)), subject_id: SubjectId(ord_uuid(41)) },
        ],
        teacher_blocked_times: vec![],
        room_blocked_times: vec![],
        room_subject_suitabilities: vec![],
        pinned_placements: vec![],
    }
}

fn lesson(id: u8, class_id: u8, subject_id: u8, candidates: Vec<u8>, pin: Option<u8>, hours: u8, block: u8) -> Lesson {
    Lesson {
        id: LessonId(ord_uuid(id)),
        school_class_ids: vec![SchoolClassId(ord_uuid(class_id))],
        subject_id: SubjectId(ord_uuid(subject_id)),
        teacher_candidates: candidates.into_iter().map(|t| TeacherId(ord_uuid(t))).collect(),
        teacher_pin: pin.map(|t| TeacherId(ord_uuid(t))),
        hours_per_week: hours,
        preferred_block_size: block,
        pre_buffer_minutes: 0,
        post_buffer_minutes: 0,
        lesson_group_id: None,
    }
}

#[test]
fn ffd_order_places_low_eligibility_lesson_first() {
    let mut problem = two_blocks_two_rooms();
    problem.teacher_blocked_times.push(TeacherBlockedTime {
        teacher_id: TeacherId(ord_uuid(20)),
        time_block_id: TimeBlockId(ord_uuid(10)),
    });
    problem.lessons.push(lesson(70, 50, 40, vec![20], Some(20), 1, 1));
    problem.lessons.push(lesson(71, 51, 41, vec![21], Some(21), 1, 1));
    let idx = Indexed::new(&problem);
    assert_eq!(ffd_order(&problem, &idx), vec![0, 1]);
    problem.lessons.swap(0, 1);
    let idx = Indexed::new(&problem);
    assert_eq!(ffd_order(&problem, &idx), vec![1, 0]);
}

#[test]
fn ffd_order_tiebreaks_on_lesson_id_when_eligibility_ties() {
    let mut problem = two_blocks_two_rooms();
    problem.lessons.push(lesson(81, 50, 40, vec![20], Some(20), 1, 1));
    problem.lessons.push(lesson(80, 51, 41, vec![21], Some(21), 1, 1));
    let idx = Indexed::new(&problem);
    assert_eq!(ffd_order(&problem, &idx), vec![1, 0]);
}

#[test]
fn ffd_order_returns_every_index_exactly_once() {
    let mut problem = two_blocks_two_rooms();
    for k in 0..6u8 {
        problem.lessons.push(lesson(90 + k, 50, 40, vec![20], Some(20), 1, 1));
    }
    let idx = Indexed::new(&problem);
    let order = ffd_order(&problem, &idx);
    assert_eq!(order.len(), 6);
    let mut sorted = order.clone();
    sorted.sort_unstable();
    sorted.dedup();
    assert_eq!(sorted, vec![0, 1, 2, 3, 4, 5]);
    assert!(order.iter().all(|&i| i < 6));
}

#[test]
fn ffd_order_lifts_unqualified_lesson_to_the_front() {
    let mut problem = two_blocks_two_rooms();
    problem.lessons.push(lesson(95, 50, 41, vec![20], Some(20), 1, 1));
    let idx = Indexed::new(&problem);
    assert_eq!(ffd_order(&problem, &idx), vec![0]);
}

#[test]
fn ffd_order_scarcer_teacher_pool_sorts_first() {
    let mut problem = two_blocks_two_rooms();
    problem.teacher_qualifications.push(TeacherQualification {
        teacher_id: TeacherId(ord_uuid(21)),
        subject_id: SubjectId(ord_uuid(40)),
    });
    problem.lessons.push(lesson(70, 50, 40, vec![20, 21], None, 1, 1));
    problem.lessons.push(lesson(71, 51, 40, vec![20], None, 1, 1));
    let idx = Indexed::new(&problem);
    assert_eq!(ffd_order(&problem, &idx), vec![1, 0]);
}

#[test]
fn ffd_order_doppelstunde_with_one_viable_window_sorts_first() {
    let mut problem = two_blocks_two_rooms();
    problem.time_blocks.push(tb(12, 0, 2));
    problem.time_blocks.push(tb(13, 1, 0));
    problem.time_blocks.push(tb(14, 1, 1));
    problem.time_blocks.push(tb(15, 1, 2));
    for (t, b) in [(20u8, 11u8), (20, 14), (21, 10), (21, 13)] {
        problem.teacher_blocked_times.push(TeacherBlockedTime {
            teacher_id: TeacherId(ord_uuid(t)),
            time_block_id: TimeBlockId(ord_uuid(b)),
        });
    }
    problem.lessons.push(lesson(71, 50, 40, vec![20], Some(20), 2, 2));
    problem.lessons.push(lesson(70, 51, 41, vec![21], Some(21), 2, 2));
    let idx = Indexed::new(&problem);
    assert_eq!(ffd_order(&problem, &idx), vec![0, 1]);
}

#[test]
fn blocks_by_day_table_groups_sorts_and_skips_breaks() {
    let mut tbs = vec![tb(1, 1, 2), tb(2, 0, 1), tb(3, 1, 0), tb(4, 0, 0)];
    tbs.push(TimeBlock { id: TimeBlockId(ord_uuid(5)), day_of_week: 0, position: 2, kind: TimeBlockKind::Break });
    let table = blocks_by_day_table(&tbs);
    assert_eq!(table.len(), 2);
    assert_eq!(table[0].0, 1);
    assert_eq!(table[0].1.iter().map(|t| t.position).collect::<Vec<_>>(), vec![0, 2]);
    assert_eq!(table[1].0, 0);
    assert_eq!(table[1].1.iter().map(|t| t.position).collect::<Vec<_>>(), vec![0, 1]);
}

#[test]
fn lesson_home_rooms_takes_first_home_room_per_class() {
    let mut classes = vec![class(50), class(51), class(52)];
    classes[0].home_room_id = Some(RoomId(ord_uuid(30)));
    classes[2].home_room_id = Some(RoomId(ord_uuid(32)));
    let pairs = home_room_pairs(&classes);
    assert_eq!(pairs.len(), 2);
    let mut l = lesson(70, 50, 40, vec![20], Some(20), 1, 1);
    l.school_class_ids = vec![SchoolClassId(ord_uuid(52)), SchoolClassId(ord_uuid(51)), SchoolClassId(ord_uuid(50))];
    let (rooms, count) = lesson_home_rooms(&l, &pairs);
    assert_eq!(count, 2);
    assert_eq!(rooms, [Some(RoomId(ord_uuid(32))), Some(RoomId(ord_uuid(30))), None, None]);
    assert!(home_rooms_contains(&rooms, count, RoomId(ord_uuid(30))));
    assert!(!home_rooms_contains(&rooms, 1, RoomId(ord_uuid(30))));
    assert!(!home_rooms_contains(&rooms, count, RoomId(ord_uuid(31))));
}

#[test]
fn same_room_eligibility_counts_windows_and_home_pairs() {
    let mut problem = two_blocks_two_rooms();
    problem.time_blocks.push(tb(12, 0, 2));
    problem.school_classes[0].home_room_id = Some(RoomId(ord_uuid(31)));
    let l = lesson(70, 50, 40, vec![20], Some(20), 2, 2);
    let table = blocks_by_day_table(&problem.time_blocks);
    let pairs = home_room_pairs(&problem.school_classes);
    let idx = Indexed::new(&problem);
    // One day with three blocks, two rooms, nothing blocked.
    assert_eq!(same_room_eligibility(&l, &problem, &idx, &table, &pairs), (2, 1));
    assert_eq!(same_room_eligibility_no_blocks(&l, &problem, &idx, &table, &pairs), (2, 1));
    // Blocking the teacher in the middle leaves no window of two.
    problem.teacher_blocked_times.push(TeacherBlockedTime {
        teacher_id: TeacherId(ord_uuid(20)),
        time_block_id: TimeBlockId(ord_uuid(11)),
    });
    let idx = Indexed::new(&problem);
    assert_eq!(same_room_eligibility(&l, &problem, &idx, &table, &pairs), (0, 0));
    let zero_block = lesson(71, 50, 40, vec![20], Some(20), 1, 0);
    assert_eq!(same_room_eligibility(&zero_block, &problem, &idx, &table, &pairs), (0, 0));
}
