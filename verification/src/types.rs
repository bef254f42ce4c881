//! Domain types of the timetabling problem: identifiers, the problem
//! description, placements, violations and the soft-constraint weights.
//!
//! Identifiers carry the 128-bit value of the entity's UUID. Ordering two
//! identifiers by their `u128` value is the same as ordering the UUIDs by
//! their big-endian byte sequence.

use vstd::prelude::*;

verus! {

/// Identifier for a lesson entity.
#[derive(Clone, Copy, Debug, PartialEq, Eq, Structural, Hash, PartialOrd, Ord)]
pub struct LessonId(pub u128);

/// Identifier for a teacher entity.
#[derive(Clone, Copy, Debug, PartialEq, Eq, Structural, Hash, PartialOrd, Ord)]
pub struct TeacherId(pub u128);

/// Identifier for a room entity.
#[derive(Clone, Copy, Debug, PartialEq, Eq, Structural, Hash, PartialOrd, Ord)]
pub struct RoomId(pub u128);

/// Identifier for a time-block entity.
#[derive(Clone, Copy, Debug, PartialEq, Eq, Structural, Hash, PartialOrd, Ord)]
pub struct TimeBlockId(pub u128);

/// Identifier for a subject entity.
#[derive(Clone, Copy, Debug, PartialEq, Eq, Structural, Hash, PartialOrd, Ord)]
pub struct SubjectId(pub u128);

/// Identifier for a school-class entity.
#[derive(Clone, Copy, Debug, PartialEq, Eq, Structural, Hash, PartialOrd, Ord)]
pub struct SchoolClassId(pub u128);

/// Stable identifier for a lesson group (set of co-placed lessons).
#[derive(Clone, Copy, Debug, PartialEq, Eq, Structural, Hash, PartialOrd, Ord)]
pub struct LessonGroupId(pub u128);

/// Whether a time block can host a lesson or is a break slot.
#[derive(Clone, Copy, Debug, PartialEq, Eq, Structural, Hash)]
pub enum TimeBlockKind {
    /// A regular teaching period.
    Lesson,
    /// A break slot; lessons never land here.
    Break,
}

/// One slot of the weekly grid.
#[derive(Clone, Copy, Debug, PartialEq, Eq, Structural)]
pub struct TimeBlock {
    /// Identifier.
    pub id: TimeBlockId,
    /// Day of the week, 0 = Monday.
    pub day_of_week: u8,
    /// Ordinal position inside the day.
    pub position: u8,
    /// Lesson slot or break slot.
    pub kind: TimeBlockKind,
}

/// A teacher and their weekly capacity.
#[derive(Clone, Copy, Debug, PartialEq, Eq, Structural)]
pub struct Teacher {
    /// Identifier.
    pub id: TeacherId,
    /// Contractual weekly hours.
    pub max_hours_per_week: u8,
    /// Hours held back from scheduling.
    pub reserve_hours_per_week: u8,
}

/// A room.
#[derive(Clone, Copy, Debug, PartialEq, Eq, Structural)]
pub struct Room {
    /// Identifier.
    pub id: RoomId,
}

/// A subject with its per-subject soft-preference weights.
#[derive(Clone, Copy, Debug, PartialEq, Eq, Structural)]
pub struct Subject {
    /// Identifier.
    pub id: SubjectId,
    /// Weight of the linear "earlier is better" axis.
    pub prefer_early_period: u32,
    /// Weight of the "not in the first period" axis.
    pub avoid_first_period: u32,
    /// Weight of the "not in the last period" axis.
    pub avoid_last_period: u32,
    /// Weight of the linear "later is better" axis.
    pub prefer_late_period: u32,
    /// Daily cap of hours of this subject per class.
    pub max_hours_per_day: u8,
}

/// A school class.
#[derive(Clone, Copy, Debug, PartialEq, Eq, Structural)]
pub struct SchoolClass {
    /// Identifier.
    pub id: SchoolClassId,
    /// The class's home room, if any.
    pub home_room_id: Option<RoomId>,
    /// Daily cap of lessons, if any.
    pub max_lessons_per_day: Option<u8>,
    /// The class teacher, if any.
    pub class_teacher_id: Option<TeacherId>,
}

/// A lesson: a subject taught to one or more classes for a number of hours
/// per week.
#[derive(Clone, Debug, PartialEq, Eq)]
pub struct Lesson {
    /// Identifier.
    pub id: LessonId,
    /// Member classes.
    pub school_class_ids: Vec<SchoolClassId>,
    /// Subject taught.
    pub subject_id: SubjectId,
    /// Teachers that may teach the lesson, in preference order.
    pub teacher_candidates: Vec<TeacherId>,
    /// Teacher fixed by the user, if any.
    pub teacher_pin: Option<TeacherId>,
    /// Weekly hours.
    pub hours_per_week: u8,
    /// Length of one block (2 = double period).
    pub preferred_block_size: u8,
    /// Travel time the lesson needs free before it, in minutes.
    pub pre_buffer_minutes: u16,
    /// Travel time the lesson needs free after it, in minutes.
    pub post_buffer_minutes: u16,
    /// Lesson group the lesson is co-placed with, if any.
    pub lesson_group_id: Option<LessonGroupId>,
}

/// Whether the lesson has a teacher to fall back to: a pin or a candidate.
pub open spec fn has_assigned_teacher(lesson: Lesson) -> bool {
    lesson.teacher_pin.is_some() || lesson.teacher_candidates@.len() > 0
}

/// The lesson's teacher when no solver choice is known: the pin, else the
/// first candidate.
pub open spec fn assigned_teacher_spec(lesson: Lesson) -> TeacherId
    recommends
        has_assigned_teacher(lesson),
{
    match lesson.teacher_pin {
        Some(t) => t,
        None => lesson.teacher_candidates@[0],
    }
}

impl Lesson {
    /// The pin shorthand: the pinned teacher, else the first candidate.
    pub fn assigned_teacher_id(&self) -> (t: TeacherId)
        requires
            has_assigned_teacher(*self),
        ensures
            t == assigned_teacher_spec(*self),
    {
        match self.teacher_pin {
            Some(t) => t,
            None => self.teacher_candidates[0],
        }
    }
}

/// Teacher is qualified to teach a subject.
#[derive(Clone, Copy, Debug, PartialEq, Eq, Structural)]
pub struct TeacherQualification {
    /// Teacher.
    pub teacher_id: TeacherId,
    /// Subject.
    pub subject_id: SubjectId,
}

/// Teacher is unavailable in a time block.
#[derive(Clone, Copy, Debug, PartialEq, Eq, Structural)]
pub struct TeacherBlockedTime {
    /// Teacher.
    pub teacher_id: TeacherId,
    /// Time block.
    pub time_block_id: TimeBlockId,
}

/// Room is unavailable in a time block.
#[derive(Clone, Copy, Debug, PartialEq, Eq, Structural)]
pub struct RoomBlockedTime {
    /// Room.
    pub room_id: RoomId,
    /// Time block.
    pub time_block_id: TimeBlockId,
}

/// Room suits a subject. A room with no entries suits every subject.
#[derive(Clone, Copy, Debug, PartialEq, Eq, Structural)]
pub struct RoomSubjectSuitability {
    /// Room.
    pub room_id: RoomId,
    /// Subject.
    pub subject_id: SubjectId,
}

/// A placement fixed by the user.
#[derive(Clone, Copy, Debug, PartialEq, Eq, Structural)]
pub struct PinnedPlacement {
    /// Lesson.
    pub lesson_id: LessonId,
    /// Time block.
    pub time_block_id: TimeBlockId,
    /// Room.
    pub room_id: RoomId,
}

/// The full timetabling problem.
#[derive(Clone, Debug, PartialEq, Eq)]
pub struct Problem {
    /// Weekly grid.
    pub time_blocks: Vec<TimeBlock>,
    /// Teachers.
    pub teachers: Vec<Teacher>,
    /// Rooms.
    pub rooms: Vec<Room>,
    /// Subjects.
    pub subjects: Vec<Subject>,
    /// Classes.
    pub school_classes: Vec<SchoolClass>,
    /// Lessons.
    pub lessons: Vec<Lesson>,
    /// Teacher/subject qualifications.
    pub teacher_qualifications: Vec<TeacherQualification>,
    /// Teacher unavailabilities.
    pub teacher_blocked_times: Vec<TeacherBlockedTime>,
    /// Room unavailabilities.
    pub room_blocked_times: Vec<RoomBlockedTime>,
    /// Room/subject suitabilities.
    pub room_subject_suitabilities: Vec<RoomSubjectSuitability>,
    /// User-pinned placements.
    pub pinned_placements: Vec<PinnedPlacement>,
}

/// One scheduled lesson-hour.
#[derive(Clone, Copy, Debug, PartialEq, Eq, Structural)]
pub struct Placement {
    /// Lesson.
    pub lesson_id: LessonId,
    /// Time block.
    pub time_block_id: TimeBlockId,
    /// Room.
    pub room_id: RoomId,
    /// Teacher who teaches this hour.
    pub teacher_id: TeacherId,
}

/// Why a lesson-hour could not be placed.
#[derive(Clone, Copy, Debug, PartialEq, Eq, Structural)]
pub enum ViolationKind {
    /// No qualified teacher for the lesson.
    NoQualifiedTeacher,
    /// Teacher has no capacity left.
    TeacherOverCapacity,
    /// No free time block.
    NoFreeTimeBlock,
    /// No suitable room.
    NoSuitableRoom,
    /// A pin could not be honoured.
    PinnedConflict,
}

/// One hard-constraint violation.
#[derive(Clone, Debug, PartialEq, Eq)]
pub struct Violation {
    /// Kind.
    pub kind: ViolationKind,
    /// Lesson concerned.
    pub lesson_id: LessonId,
    /// Which hour of the lesson.
    pub hour_index: u32,
    /// Optional explanation.
    pub reason: Option<String>,
}

/// Weights of the soft-constraint axes. Zero disables an axis.
#[derive(Clone, Copy, Debug, PartialEq, Eq, Structural)]
pub struct ConstraintWeights {
    /// Per gap-hour in a class's day.
    pub class_gap: u32,
    /// Per gap-hour in a teacher's day.
    pub teacher_gap: u32,
    /// Multiplier of the subject's prefer-early axis.
    pub prefer_early_period: u32,
    /// Multiplier of the subject's avoid-first axis.
    pub avoid_first_period: u32,
    /// Per member class placed outside its home room.
    pub prefer_home_room: u32,
    /// Multiplier of the subject's avoid-last axis.
    pub avoid_last_period: u32,
    /// Multiplier of the subject's prefer-late axis.
    pub prefer_late_period: u32,
    /// Per unit of the class day-balance cost.
    pub class_day_balance: u32,
    /// Per (class, subject) pair not taught by the qualified class teacher.
    pub prefer_class_teacher: u32,
    /// Per unit of the worst per-class daily-load spread.
    pub max_per_class_spread: u32,
    /// Per unit of the worst per-class interior gaps.
    pub max_per_class_interior_gaps: u32,
    /// Per soft-pinned (lesson, time block) pair the solution misses.
    pub soft_pin_miss: u32,
}

/// All weights zero.
pub open spec fn zero_weights() -> ConstraintWeights {
    ConstraintWeights {
        class_gap: 0,
        teacher_gap: 0,
        prefer_early_period: 0,
        avoid_first_period: 0,
        prefer_home_room: 0,
        avoid_last_period: 0,
        prefer_late_period: 0,
        class_day_balance: 0,
        prefer_class_teacher: 0,
        max_per_class_spread: 0,
        max_per_class_interior_gaps: 0,
        soft_pin_miss: 0,
    }
}

impl Default for ConstraintWeights {
    fn default() -> (w: Self)
        ensures
            w == zero_weights(),
    {
        ConstraintWeights {
            class_gap: 0,
            teacher_gap: 0,
            prefer_early_period: 0,
            avoid_first_period: 0,
            prefer_home_room: 0,
            avoid_last_period: 0,
            prefer_late_period: 0,
            class_day_balance: 0,
            prefer_class_teacher: 0,
            max_per_class_spread: 0,
            max_per_class_interior_gaps: 0,
            soft_pin_miss: 0,
        }
    }
}

/// The weights used in production.
pub open spec fn production_weights_spec() -> ConstraintWeights {
    ConstraintWeights {
        class_gap: 1,
        teacher_gap: 1,
        prefer_early_period: 1,
        avoid_first_period: 1,
        prefer_home_room: 1,
        avoid_last_period: 1,
        prefer_late_period: 0,
        class_day_balance: 1,
        prefer_class_teacher: 1,
        max_per_class_spread: 1,
        max_per_class_interior_gaps: 1,
        soft_pin_miss: 1,
    }
}

/// The production weights: every axis on at weight one except the
/// prefer-late axis.
pub fn production_active_weights() -> (w: ConstraintWeights)
    ensures
        w == production_weights_spec(),
{
    ConstraintWeights {
        class_gap: 1,
        teacher_gap: 1,
        prefer_early_period: 1,
        avoid_first_period: 1,
        prefer_home_room: 1,
        avoid_last_period: 1,
        prefer_late_period: 0,
        class_day_balance: 1,
        prefer_class_teacher: 1,
        max_per_class_spread: 1,
        max_per_class_interior_gaps: 1,
        soft_pin_miss: 1,
    }
}

} // verus!
