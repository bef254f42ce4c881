use solver_core::index::Indexed;
use solver_core::types::{
    Lesson, LessonId, Problem, Room, RoomBlockedTime, RoomId, RoomSubjectSuitability, SchoolClass, SchoolClassId,
    Subject, SubjectId, Teacher, TeacherBlockedTime, TeacherId, TeacherQualification, TimeBlock, TimeBlockId,
    TimeBlockKind,
};
use uuid::Uuid;

fn u(n: u8) -> u128 {
    Uuid::from_bytes([n; 16]).as_u128()
}

fn subject(id: u128) -> Subject {
    Subject {
        id: SubjectId(id),
        prefer_early_period: 0,
        avoid_first_period: 0,
        avoid_last_period: 0,
        prefer_late_period: 0,
        max_hours_per_day: 8,
    }
}

fn problem() -> Problem {
    Problem {
        time_blocks: vec![TimeBlock { id: TimeBlockId(u(1)), day_of_week: 0, position: 0, kind: TimeBlockKind::Lesson }],
        teachers: vec![Teacher { id: TeacherId(u(2)), max_hours_per_week: 10, reserve_hours_per_week: 0 }],
        rooms: vec![Room { id: RoomId(u(3)) }, Room { id: RoomId(u(4)) }],
        subjects: vec![subject(u(5)), subject(u(6))],
        school_classes: vec![SchoolClass {
            id: SchoolClassId(u(7)),
            home_room_id: None,
            max_lessons_per_day: None,
            class_teacher_id: None,
        }],
        lessons: vec![Lesson {
            id: LessonId(u(8)),
            school_class_ids: vec![SchoolClassId(u(7))],
            subject_id: SubjectId(u(5)),
            teacher_candidates: vec![TeacherId(u(2))],
            teacher_pin: Some(TeacherId(u(2))),
            hours_per_week: 1,
            preferred_block_size: 1,
            pre_buffer_minutes: 0,
            post_buffer_minutes: 0,
            lesson_group_id: None,
        }],
        teacher_qualifications: vec![TeacherQualification { teacher_id: TeacherId(u(2)), subject_id: SubjectId(u(5)) }],
        teacher_blocked_times: vec![TeacherBlockedTime { teacher_id: TeacherId(u(2)), time_block_id: TimeBlockId(u(1)) }],
        room_blocked_times: vec![RoomBlockedTime { room_id: RoomId(u(3)), time_block_id: TimeBlockId(u(1)) }],
        room_subject_suitabilities: vec![RoomSubjectSuitability { room_id: RoomId(u(3)), subject_id: SubjectId(u(5)) }],
        pinned_placements: vec![],
    }
}

#[test]
fn teacher_qualified_hits_and_misses() {
    let idx = Indexed::new(&problem());
    assert!(idx.teacher_qualified(TeacherId(u(2)), SubjectId(u(5))));
    assert!(!idx.teacher_qualified(TeacherId(u(2)), SubjectId(u(6))));
    assert!(!idx.teacher_qualified(TeacherId(u(99)), SubjectId(u(5))));
}

#[test]
fn teacher_blocked_matches_pair() {
    let idx = Indexed::new(&problem());
    assert!(idx.teacher_blocked(TeacherId(u(2)), TimeBlockId(u(1))));
    assert!(!idx.teacher_blocked(TeacherId(u(2)), TimeBlockId(u(99))));
}

#[test]
fn room_with_entries_suits_only_listed_subjects() {
    let idx = Indexed::new(&problem());
    assert!(idx.room_suits_subject(RoomId(u(3)), SubjectId(u(5))));
    assert!(!idx.room_suits_subject(RoomId(u(3)), SubjectId(u(6))));
}

#[test]
fn room_with_no_entries_suits_all_subjects() {
    let idx = Indexed::new(&problem());
    assert!(idx.room_suits_subject(RoomId(u(4)), SubjectId(u(5))));
    assert!(idx.room_suits_subject(RoomId(u(4)), SubjectId(u(6))));
}

#[test]
fn room_blocked_matches_pair() {
    let idx = Indexed::new(&problem());
    assert!(idx.room_blocked(RoomId(u(3)), TimeBlockId(u(1))));
    assert!(!idx.room_blocked(RoomId(u(4)), TimeBlockId(u(1))));
}

#[test]
fn index_keeps_every_relation_in_input_order() {
    let idx = Indexed::new(&problem());
    assert_eq!(idx.teacher_subject, vec![(u(2), u(5))]);
    assert_eq!(idx.teacher_blocked, vec![(u(2), u(1))]);
    assert_eq!(idx.room_subject, vec![(u(3), u(5))]);
    assert_eq!(idx.room_blocked, vec![(u(3), u(1))]);
}

fn takes_lesson_id(_: solver_core::types::LessonId) {}

fn takes_teacher_id(_: solver_core::types::TeacherId) {}

#[test]
fn id_categories_are_distinct_types() {
    // Compiles only while lesson and teacher identifiers are distinct types.
    takes_lesson_id(solver_core::types::LessonId(0));
    takes_teacher_id(solver_core::types::TeacherId(0));
}
