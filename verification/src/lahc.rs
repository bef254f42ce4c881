//! Pure helpers of the late-acceptance hill-climbing moves: gap deltas of a
//! moved position, the weighted slice delta of a Change move, the room pick
//! of a move's destination, the teacher a lesson runs under, and the
//! saturating application of a signed score delta.

use vstd::prelude::*;

use crate::arith::sat;
use crate::index::{suits, Indexed};
use crate::partition::Partition;
use crate::positions::{
    gap_spec, lemma_sorted_insert, lemma_sorted_remove, lemma_sorted_span, lower_bound, sorted_insert,
    sorted_remove, strictly_sorted,
};
use crate::score::{gap_count, gap_count_after_insert, gap_count_after_remove, subject_pref_spec, subject_preference_score};
use crate::lookup::{find_lesson, find_subject, find_tb, lesson_index, subject_index, tb_index};
use crate::types::{
    assigned_teacher_spec, has_assigned_teacher, ConstraintWeights, Lesson, LessonId, Placement, Problem, Room,
    RoomId, SchoolClassId, Subject, SubjectId, TeacherId, TimeBlock, TimeBlockId,
};

verus! {

/// The positions after moving `old_pos` to `new_pos` within one sorted
/// partition: unchanged when the two are equal or `old_pos` is absent.
pub open spec fn swap_spec(s: Seq<u8>, old_pos: u8, new_pos: u8) -> Seq<u8> {
    if old_pos == new_pos || !s.contains(old_pos) {
        s
    } else {
        sorted_insert(sorted_remove(s, old_pos), new_pos)
    }
}

/// Gap-hours after removing `old_pos` from and inserting `new_pos` into the
/// same sorted, duplicate-free positions.
pub fn gap_count_after_swap(positions: &[u8], old_pos: u8, new_pos: u8) -> (g: u32)
    requires
        strictly_sorted(positions@),
    ensures
        g == gap_spec(swap_spec(positions@, old_pos, new_pos)),
{
    proof {
        if positions@.len() >= 1 {
            lemma_sorted_span(positions@);
        }
    }
    if old_pos == new_pos {
        return gap_count(positions);
    }
    let removed_at = lower_bound(positions, old_pos);
    if !(removed_at < positions.len() && positions[removed_at] == old_pos) {
        return gap_count(positions);
    }
    let np = lower_bound(positions, new_pos);
    let already_present = np < positions.len() && positions[np] == new_pos;
    let len_after = if already_present {
        positions.len() - 1
    } else {
        positions.len()
    };
    let ghost s = positions@;
    let ghost r = sorted_remove(s, old_pos);
    proof {
        lemma_sorted_remove(s, old_pos);
        lemma_sorted_insert(r, new_pos);
        assert(r.contains(new_pos) == already_present);
    }
    if len_after < 2 {
        return 0;
    }
    let post_remove_first = if removed_at == 0 {
        positions[1]
    } else {
        positions[0]
    };
    let post_remove_last = if removed_at == positions.len() - 1 {
        positions[positions.len() - 2]
    } else {
        positions[positions.len() - 1]
    };
    let new_first = if post_remove_first < new_pos {
        post_remove_first
    } else {
        new_pos
    };
    let new_last = if post_remove_last > new_pos {
        post_remove_last
    } else {
        new_pos
    };
    proof {
        assert(s[0] == old_pos <==> removed_at == 0) by {
            if s[0] == old_pos && removed_at != 0 {
                assert(s[0] < s[removed_at as int]);
            }
        }
        assert(s.last() == old_pos <==> removed_at == s.len() - 1) by {
            if s.last() == old_pos && removed_at != s.len() - 1 {
                assert(s[removed_at as int] < s[s.len() - 1]);
            }
        }
        lemma_sorted_span(sorted_insert(r, new_pos));
    }
    let span = (new_last - new_first) as u32;
    let count = len_after as u32;
    span + 1 - count
}

/// The positions of an optional partition entry (none when it is absent).
pub open spec fn part_seq(p: Option<&Vec<u8>>) -> Seq<u8> {
    match p {
        Some(v) => v@,
        None => Seq::empty(),
    }
}

/// Gap-count delta of one (entity, day) pair when a position moves from
/// `(old_day, old_pos)` to `(new_day, new_pos)`: within one partition for a
/// same-day move, else the old day loses the position and the new day gains
/// it.
pub open spec fn partition_delta_spec(
    old_part: Seq<u8>,
    new_part: Seq<u8>,
    old_day: u8,
    new_day: u8,
    old_pos: u8,
    new_pos: u8,
) -> int {
    if old_day == new_day {
        gap_spec(swap_spec(old_part, old_pos, new_pos)) - gap_spec(old_part)
    } else {
        (gap_spec(sorted_remove(old_part, old_pos)) - gap_spec(old_part)) + (gap_spec(
            sorted_insert(new_part, new_pos),
        ) - gap_spec(new_part))
    }
}

proof fn lemma_gap_bounds(s: Seq<u8>)
    requires
        strictly_sorted(s),
    ensures
        0 <= gap_spec(s) <= 255,
{
    if s.len() >= 1 {
        lemma_sorted_span(s);
    }
}

proof fn lemma_partition_delta_bounds(
    old_part: Seq<u8>,
    new_part: Seq<u8>,
    old_day: u8,
    new_day: u8,
    old_pos: u8,
    new_pos: u8,
)
    requires
        strictly_sorted(old_part),
        strictly_sorted(new_part),
    ensures
        -510 <= partition_delta_spec(old_part, new_part, old_day, new_day, old_pos, new_pos) <= 510,
{
    lemma_gap_bounds(old_part);
    lemma_gap_bounds(new_part);
    lemma_sorted_remove(old_part, old_pos);
    lemma_gap_bounds(sorted_remove(old_part, old_pos));
    lemma_sorted_insert(new_part, new_pos);
    lemma_gap_bounds(sorted_insert(new_part, new_pos));
    if old_part.contains(old_pos) && old_pos != new_pos {
        lemma_sorted_insert(sorted_remove(old_part, old_pos), new_pos);
        lemma_gap_bounds(sorted_insert(sorted_remove(old_part, old_pos), new_pos));
    }
}

/// Gap-count delta of one (entity, day) pair for a moved position; an
/// absent partition counts as empty.
pub fn partition_delta(
    old_part: Option<&Vec<u8>>,
    new_part: Option<&Vec<u8>>,
    old_day: u8,
    new_day: u8,
    old_pos: u8,
    new_pos: u8,
) -> (d: i64)
    requires
        strictly_sorted(part_seq(old_part)),
        strictly_sorted(part_seq(new_part)),
    ensures
        d == partition_delta_spec(part_seq(old_part), part_seq(new_part), old_day, new_day, old_pos, new_pos),
{
    proof {
        lemma_gap_bounds(part_seq(old_part));
        lemma_gap_bounds(part_seq(new_part));
    }
    if old_day == new_day {
        match old_part {
            None => {
                proof {
                    assert(swap_spec(Seq::<u8>::empty(), old_pos, new_pos) == Seq::<u8>::empty());
                }
                0
            },
            Some(part) => {
                let before = gap_count(part.as_slice());
                let after = gap_count_after_swap(part.as_slice(), old_pos, new_pos);
                after as i64 - before as i64
            },
        }
    } else {
        let (old_before, old_after): (u32, u32) = match old_part {
            Some(v) => (gap_count(v.as_slice()), gap_count_after_remove(v.as_slice(), old_pos)),
            None => (0, 0),
        };
        let new_before: u32 = match new_part {
            Some(v) => gap_count(v.as_slice()),
            None => 0,
        };
        let new_after = gap_count_after_insert(new_part, new_pos);
        proof {
            if new_part is None {
                assert(sorted_insert(Seq::<u8>::empty(), new_pos) == seq![new_pos]);
            }
        }
        (old_after as i64 - old_before as i64) + (new_after as i64 - new_before as i64)
    }
}

/// Sum over `class_ids` of the partition delta of each class's partitions
/// of the old and the new day.
pub open spec fn class_delta_spec(
    class_ids: Seq<SchoolClassId>,
    old_day: u8,
    new_day: u8,
    old_pos: u8,
    new_pos: u8,
    class_positions: Partition,
) -> int
    decreases class_ids.len(),
{
    if class_ids.len() == 0 {
        0
    } else {
        let c = class_ids.last().0;
        class_delta_spec(class_ids.drop_last(), old_day, new_day, old_pos, new_pos, class_positions)
            + partition_delta_spec(
            class_positions.lookup((c, old_day)),
            class_positions.lookup((c, new_day)),
            old_day,
            new_day,
            old_pos,
            new_pos,
        )
    }
}

proof fn lemma_class_delta_bounds(
    class_ids: Seq<SchoolClassId>,
    old_day: u8,
    new_day: u8,
    old_pos: u8,
    new_pos: u8,
    class_positions: Partition,
)
    requires
        class_positions.wf(),
    ensures
        -510 * class_ids.len() <= class_delta_spec(class_ids, old_day, new_day, old_pos, new_pos, class_positions)
            <= 510 * class_ids.len(),
    decreases class_ids.len(),
{
    if class_ids.len() > 0 {
        let c = class_ids.last().0;
        lemma_class_delta_bounds(class_ids.drop_last(), old_day, new_day, old_pos, new_pos, class_positions);
        crate::partition::lemma_lookup_in_entries(class_positions.entries@, (c, old_day));
        crate::partition::lemma_lookup_in_entries(class_positions.entries@, (c, new_day));
        lemma_partition_delta_bounds(
            class_positions.lookup((c, old_day)),
            class_positions.lookup((c, new_day)),
            old_day,
            new_day,
            old_pos,
            new_pos,
        );
    }
}

/// Sum of `partition_delta` across every member class.
pub fn class_partitions_delta_sum(
    class_ids: &[SchoolClassId],
    old_day: u8,
    new_day: u8,
    old_pos: u8,
    new_pos: u8,
    class_positions: &Partition,
) -> (sum: i64)
    requires
        class_positions.wf(),
        class_ids@.len() <= 0x10_0000_0000_0000,
    ensures
        sum == class_delta_spec(class_ids@, old_day, new_day, old_pos, new_pos, *class_positions),
{
    let mut sum: i64 = 0;
    let mut i: usize = 0;
    while i < class_ids.len()
        invariant
            i <= class_ids@.len() <= 0x10_0000_0000_0000,
            class_positions.wf(),
            sum == class_delta_spec(class_ids@.take(i as int), old_day, new_day, old_pos, new_pos, *class_positions),
        decreases class_ids@.len() - i,
    {
        let c = class_ids[i];
        proof {
            assert(class_ids@.take(i + 1).drop_last() =~= class_ids@.take(i as int));
            assert(class_ids@.take(i + 1).last() == c);
            lemma_class_delta_bounds(class_ids@.take(i as int), old_day, new_day, old_pos, new_pos, *class_positions);
            crate::partition::lemma_lookup_in_entries(class_positions.entries@, (c.0, old_day));
            crate::partition::lemma_lookup_in_entries(class_positions.entries@, (c.0, new_day));
            lemma_partition_delta_bounds(
                class_positions.lookup((c.0, old_day)),
                class_positions.lookup((c.0, new_day)),
                old_day,
                new_day,
                old_pos,
                new_pos,
            );
        }
        let old_part = class_positions.get(c.0, old_day);
        let new_part = class_positions.get(c.0, new_day);
        let d = partition_delta(old_part, new_part, old_day, new_day, old_pos, new_pos);
        sum = sum + d;
        i = i + 1;
    }
    proof {
        assert(class_ids@.take(i as int) =~= class_ids@);
    }
    sum
}

/// Weighted class-gap plus teacher-gap delta of a Change move.
pub open spec fn change_move_delta_spec(
    class_ids: Seq<SchoolClassId>,
    teacher: TeacherId,
    old_day: u8,
    old_pos: u8,
    new_day: u8,
    new_pos: u8,
    class_positions: Partition,
    teacher_positions: Partition,
    weights: ConstraintWeights,
) -> int {
    weights.class_gap * class_delta_spec(class_ids, old_day, new_day, old_pos, new_pos, class_positions)
        + weights.teacher_gap * partition_delta_spec(
        teacher_positions.lookup((teacher.0, old_day)),
        teacher_positions.lookup((teacher.0, new_day)),
        old_day,
        new_day,
        old_pos,
        new_pos,
    )
}

/// Soft-score delta of moving a placement from `(old_day, old_pos)` to
/// `(new_day, new_pos)` for its member classes and teacher: the weighted
/// sum of the class partitions' gap deltas and the teacher partition's.
/// The weighted class part and the total are computed in `i64` and must fit
/// there.
pub fn score_after_change_move(
    class_ids: &[SchoolClassId],
    teacher: TeacherId,
    old_day: u8,
    old_pos: u8,
    new_day: u8,
    new_pos: u8,
    class_positions: &Partition,
    teacher_positions: &Partition,
    weights: &ConstraintWeights,
) -> (d: i64)
    requires
        class_positions.wf(),
        teacher_positions.wf(),
        class_ids@.len() <= 0x10_0000_0000_0000,
        i64::MIN <= weights.class_gap * class_delta_spec(class_ids@, old_day, new_day, old_pos, new_pos, *class_positions)
            <= i64::MAX,
        i64::MIN <= change_move_delta_spec(
            class_ids@,
            teacher,
            old_day,
            old_pos,
            new_day,
            new_pos,
            *class_positions,
            *teacher_positions,
            *weights,
        ) <= i64::MAX,
    ensures
        d == change_move_delta_spec(
            class_ids@,
            teacher,
            old_day,
            old_pos,
            new_day,
            new_pos,
            *class_positions,
            *teacher_positions,
            *weights,
        ),
{
    let class_delta = class_partitions_delta_sum(class_ids, old_day, new_day, old_pos, new_pos, class_positions);
    proof {
        crate::partition::lemma_lookup_in_entries(teacher_positions.entries@, (teacher.0, old_day));
        crate::partition::lemma_lookup_in_entries(teacher_positions.entries@, (teacher.0, new_day));
        lemma_partition_delta_bounds(
            teacher_positions.lookup((teacher.0, old_day)),
            teacher_positions.lookup((teacher.0, new_day)),
            old_day,
            new_day,
            old_pos,
            new_pos,
        );
    }
    let teacher_delta = partition_delta(
        teacher_positions.get(teacher.0, old_day),
        teacher_positions.get(teacher.0, new_day),
        old_day,
        new_day,
        old_pos,
        new_pos,
    );
    let wc = weights.class_gap as i64;
    let wt = weights.teacher_gap as i64;
    proof {
        assert(-510 * (u32::MAX as int) <= wt * teacher_delta <= 510 * (u32::MAX as int)) by (nonlinear_arith)
            requires
                -510 <= teacher_delta <= 510,
                0 <= wt <= u32::MAX,
        ;
    }
    wc * class_delta + wt * teacher_delta
}

/// The room passes every hard room check for a lesson of `subject` at
/// block `tb`: it suits the subject, is not blocked and not yet used then.
pub open spec fn room_feasible(
    idx: Indexed,
    subject: SubjectId,
    tb: TimeBlockId,
    used_room: Seq<(u128, u128)>,
    room: RoomId,
) -> bool {
    &&& suits(idx.room_subject@, room.0, subject.0)
    &&& !idx.room_blocked@.contains((room.0, tb.0))
    &&& !used_room.contains((room.0, tb.0))
}

/// The feasible room of lowest id among `rooms` (the first of them on a
/// tie), if any.
pub open spec fn lowest_feasible(
    rooms: Seq<Room>,
    idx: Indexed,
    subject: SubjectId,
    tb: TimeBlockId,
    used_room: Seq<(u128, u128)>,
) -> Option<RoomId>
    decreases rooms.len(),
{
    if rooms.len() == 0 {
        None
    } else {
        let best = lowest_feasible(rooms.drop_last(), idx, subject, tb, used_room);
        let r = rooms.last().id;
        if room_feasible(idx, subject, tb, used_room, r) && (best is None || r.0 < best.unwrap().0) {
            Some(r)
        } else {
            best
        }
    }
}

/// The room `pick_room` chooses.
pub open spec fn pick_room_spec(
    rooms: Seq<Room>,
    idx: Indexed,
    subject: SubjectId,
    old_room: RoomId,
    tb: TimeBlockId,
    used_room: Seq<(u128, u128)>,
    lock: Option<RoomId>,
) -> Option<RoomId> {
    match lock {
        Some(l) => if room_feasible(idx, subject, tb, used_room, l) {
            Some(l)
        } else {
            None
        },
        None => if room_feasible(idx, subject, tb, used_room, old_room) {
            Some(old_room)
        } else {
            lowest_feasible(rooms, idx, subject, tb, used_room)
        },
    }
}

/// Whether the room passes every hard room check at the block.
fn room_feasible_at(
    idx: &Indexed,
    subject: SubjectId,
    tb: TimeBlockId,
    used_room: &Vec<(u128, u128)>,
    room: RoomId,
) -> (r: bool)
    ensures
        r == room_feasible(*idx, subject, tb, used_room@, room),
{
    if !idx.room_suits_subject(room, subject) || idx.room_blocked(room, tb) {
        return false;
    }
    let mut k: usize = 0;
    while k < used_room.len()
        invariant
            k <= used_room@.len(),
            forall|m: int| 0 <= m < k ==> used_room@[m] != (room.0, tb.0),
        decreases used_room@.len() - k,
    {
        if used_room[k].0 == room.0 && used_room[k].1 == tb.0 {
            assert(used_room@[k as int] == (room.0, tb.0));
            return false;
        }
        k = k + 1;
    }
    true
}

/// Room for a move's destination block: the lock when there is one (or
/// none when it is infeasible), else the old room when it is still
/// feasible, else the feasible room of lowest id. `used_room` holds the
/// (room, block) pairs already booked.
pub fn pick_room(
    problem: &Problem,
    idx: &Indexed,
    subject_id: SubjectId,
    old_room_id: RoomId,
    new_tb_id: TimeBlockId,
    used_room: &Vec<(u128, u128)>,
    lock: Option<RoomId>,
) -> (r: Option<RoomId>)
    ensures
        r == pick_room_spec(problem.rooms@, *idx, subject_id, old_room_id, new_tb_id, used_room@, lock),
        r matches Some(room) ==> suits(idx.room_subject@, room.0, subject_id.0) && !idx.room_blocked@.contains(
            (room.0, new_tb_id.0),
        ) && !used_room@.contains((room.0, new_tb_id.0)),
        lock matches Some(l) ==> r is None || r == Some(l),
{
    if let Some(locked) = lock {
        return if room_feasible_at(idx, subject_id, new_tb_id, used_room, locked) {
            Some(locked)
        } else {
            None
        };
    }
    if room_feasible_at(idx, subject_id, new_tb_id, used_room, old_room_id) {
        return Some(old_room_id);
    }
    let rooms = &problem.rooms;
    let mut best: Option<RoomId> = None;
    let mut i: usize = 0;
    while i < rooms.len()
        invariant
            i <= rooms@.len(),
            rooms == &problem.rooms,
            best == lowest_feasible(rooms@.take(i as int), *idx, subject_id, new_tb_id, used_room@),
        decreases rooms@.len() - i,
    {
        let room = rooms[i];
        proof {
            assert(rooms@.take(i + 1).drop_last() =~= rooms@.take(i as int));
            assert(rooms@.take(i + 1).last() == room);
        }
        if room_feasible_at(idx, subject_id, new_tb_id, used_room, room.id) {
            match best {
                None => best = Some(room.id),
                Some(current) => {
                    if room.id.0 < current.0 {
                        best = Some(room.id);
                    }
                },
            }
        }
        i = i + 1;
    }
    proof {
        assert(rooms@.take(i as int) =~= rooms@);
        lemma_lowest_feasible_is_feasible(rooms@, *idx, subject_id, new_tb_id, used_room@);
    }
    best
}

/// The room `lowest_feasible` finds passes every hard room check.
pub proof fn lemma_lowest_feasible_is_feasible(
    rooms: Seq<Room>,
    idx: Indexed,
    subject: SubjectId,
    tb: TimeBlockId,
    used_room: Seq<(u128, u128)>,
)
    ensures
        lowest_feasible(rooms, idx, subject, tb, used_room) matches Some(r) ==> room_feasible(
            idx,
            subject,
            tb,
            used_room,
            r,
        ),
    decreases rooms.len(),
{
    if rooms.len() > 0 {
        lemma_lowest_feasible_is_feasible(rooms.drop_last(), idx, subject, tb, used_room);
    }
}

/// `score` moved by `delta`, clamped at zero below and at `u32::MAX` above;
/// the magnitude of `delta` is taken modulo 2^32, as a cast to `u32` does.
pub open spec fn apply_delta_spec(score: u32, delta: i64) -> int {
    if delta >= 0 {
        sat(score + delta % 0x1_0000_0000)
    } else {
        let abs = (-delta) % 0x1_0000_0000;
        if score >= abs {
            score - abs
        } else {
            0
        }
    }
}

/// Saturating application of a signed delta to an unsigned score.
pub fn saturating_apply_delta(score: u32, delta: i64) -> (r: u32)
    requires
        delta > i64::MIN,
    ensures
        r == apply_delta_spec(score, delta),
{
    if delta >= 0 {
        let d = delta as u32;
        assert(d == delta % 0x1_0000_0000) by (bit_vector)
            requires
                d == delta as u32,
                delta >= 0,
        ;
        score.saturating_add(d)
    } else {
        let m = -delta;
        let abs = m as u32;
        assert(abs == m % 0x1_0000_0000) by (bit_vector)
            requires
                abs == m as u32,
                m > 0,
        ;
        score.saturating_sub(abs)
    }
}

/// The teacher recorded for `(class, subject)` in a lock table, if any: the
/// first entry with that key.
pub open spec fn locked_teacher(
    locks: Seq<((SchoolClassId, SubjectId), TeacherId)>,
    class: SchoolClassId,
    subject: SubjectId,
) -> Option<TeacherId>
    decreases locks.len(),
{
    if locks.len() == 0 {
        None
    } else if locks[0].0 == (class, subject) {
        Some(locks[0].1)
    } else {
        locked_teacher(locks.drop_first(), class, subject)
    }
}

/// The lock of the first member class that has one for the subject.
pub open spec fn first_lock(
    locks: Seq<((SchoolClassId, SubjectId), TeacherId)>,
    classes: Seq<SchoolClassId>,
    subject: SubjectId,
) -> Option<TeacherId>
    decreases classes.len(),
{
    if classes.len() == 0 {
        None
    } else {
        match locked_teacher(locks, classes[0], subject) {
            Some(t) => Some(t),
            None => first_lock(locks, classes.drop_first(), subject),
        }
    }
}

proof fn lemma_locked_teacher_scan(
    locks: Seq<((SchoolClassId, SubjectId), TeacherId)>,
    class: SchoolClassId,
    subject: SubjectId,
    j: int,
)
    requires
        0 <= j <= locks.len(),
        forall|k: int| 0 <= k < j ==> locks[k].0 != (class, subject),
    ensures
        locked_teacher(locks, class, subject) == locked_teacher(locks.subrange(j, locks.len() as int), class, subject),
    decreases j,
{
    if j > 0 {
        let t = locks.drop_first();
        assert forall|k: int| 0 <= k < j - 1 implies t[k].0 != (class, subject) by {
            assert(t[k] == locks[k + 1]);
        }
        lemma_locked_teacher_scan(t, class, subject, j - 1);
        assert(t.subrange(j - 1, t.len() as int) =~= locks.subrange(j, locks.len() as int));
    } else {
        assert(locks.subrange(0, locks.len() as int) =~= locks);
    }
}

/// The teacher a lesson currently runs under: the lock recorded for the
/// first member class that has one for the lesson's subject, else the
/// lesson's pinned or first candidate teacher. `class_subject_teacher` is
/// the lock table, keyed by (class, subject).
pub fn lesson_teacher_in_state(
    class_subject_teacher: &Vec<((SchoolClassId, SubjectId), TeacherId)>,
    lesson: &Lesson,
) -> (t: TeacherId)
    requires
        first_lock(class_subject_teacher@, lesson.school_class_ids@, lesson.subject_id) is None
            ==> has_assigned_teacher(*lesson),
    ensures
        t == match first_lock(class_subject_teacher@, lesson.school_class_ids@, lesson.subject_id) {
            Some(locked) => locked,
            None => assigned_teacher_spec(*lesson),
        },
{
    let classes = &lesson.school_class_ids;
    let ghost locks = class_subject_teacher@;
    let mut i: usize = 0;
    proof {
        assert(classes@.subrange(0, classes@.len() as int) =~= classes@);
    }
    while i < classes.len()
        invariant
            i <= classes@.len(),
            classes == &lesson.school_class_ids,
            locks == class_subject_teacher@,
            first_lock(locks, classes@, lesson.subject_id) == first_lock(
                locks,
                classes@.subrange(i as int, classes@.len() as int),
                lesson.subject_id,
            ),
        decreases classes@.len() - i,
    {
        let class = classes[i];
        let mut j: usize = 0;
        while j < class_subject_teacher.len()
            invariant
                j <= class_subject_teacher@.len(),
                i < classes@.len(),
                classes == &lesson.school_class_ids,
                class == classes@[i as int],
                locks == class_subject_teacher@,
                first_lock(locks, classes@, lesson.subject_id) == first_lock(
                    locks,
                    classes@.subrange(i as int, classes@.len() as int),
                    lesson.subject_id,
                ),
                forall|k: int| 0 <= k < j ==> locks[k].0 != (class, lesson.subject_id),
            decreases class_subject_teacher@.len() - j,
        {
            let entry = class_subject_teacher[j];
            if entry.0.0.0 == class.0 && entry.0.1.0 == lesson.subject_id.0 {
                proof {
                    assert(entry.0 == (class, lesson.subject_id));
                    lemma_locked_teacher_scan(locks, class, lesson.subject_id, j as int);
                    let rest = classes@.subrange(i as int, classes@.len() as int);
                    assert(rest[0] == class);
                    assert(locks.subrange(j as int, locks.len() as int)[0] == entry);
                }
                return entry.1;
            }
            proof {
                if entry.0 == (class, lesson.subject_id) {
                    assert(entry.0.0.0 == class.0 && entry.0.1.0 == lesson.subject_id.0);
                }
            }
            j = j + 1;
        }
        proof {
            lemma_locked_teacher_scan(locks, class, lesson.subject_id, j as int);
            let rest = classes@.subrange(i as int, classes@.len() as int);
            assert(rest[0] == class);
            assert(rest.drop_first() =~= classes@.subrange(i + 1, classes@.len() as int));
        }
        i = i + 1;
    }
    proof {
        assert(classes@.subrange(i as int, classes@.len() as int).len() == 0);
    }
    lesson.assigned_teacher_id()
}

/// The (lesson, day) key a placement counts toward when collecting ruin
/// anchors: none when its lesson or block does not resolve, the lesson is
/// pinned, or the lesson belongs to a group.
pub open spec fn anchor_key(lessons: Seq<Lesson>, tbs: Seq<TimeBlock>, pinned: Seq<LessonId>, p: Placement) -> Option<
    (u128, u8),
> {
    let li = lesson_index(lessons, p.lesson_id);
    let ti = tb_index(tbs, p.time_block_id);
    if li < 0 || pinned.contains(p.lesson_id) || lessons[li].lesson_group_id is Some || ti < 0 {
        None
    } else {
        Some((p.lesson_id.0, tbs[ti].day_of_week))
    }
}

/// Number of placements of `ps` that count toward `key`.
pub open spec fn anchor_count(
    lessons: Seq<Lesson>,
    tbs: Seq<TimeBlock>,
    pinned: Seq<LessonId>,
    ps: Seq<Placement>,
    key: (u128, u8),
) -> int
    decreases ps.len(),
{
    if ps.len() == 0 {
        0
    } else {
        anchor_count(lessons, tbs, pinned, ps.drop_last(), key) + (if anchor_key(lessons, tbs, pinned, ps.last())
            == Some(key) {
            1int
        } else {
            0
        })
    }
}

/// `(lesson, day)` is a ruin anchor: some placement counts toward it and
/// no more than the lesson's block size do, so it is exactly one block.
pub open spec fn is_anchor(
    lessons: Seq<Lesson>,
    tbs: Seq<TimeBlock>,
    pinned: Seq<LessonId>,
    ps: Seq<Placement>,
    key: (u128, u8),
) -> bool {
    let c = anchor_count(lessons, tbs, pinned, ps, key);
    let li = lesson_index(lessons, LessonId(key.0));
    c >= 1 && li >= 0 && c <= lessons[li].preferred_block_size
}

/// Some entry among the first `k` of `counts` has key `key`.
pub open spec fn counted_before(counts: Seq<(u128, u8, u32)>, k: int, key: (u128, u8)) -> bool {
    exists|m: int| 0 <= m < k && (#[trigger] counts[m].0, counts[m].1) == key
}

/// Order of anchors: by lesson id, then by day.
pub open spec fn anchor_before(a: (LessonId, u8), b: (LessonId, u8)) -> bool {
    a.0.0 < b.0.0 || (a.0.0 == b.0.0 && a.1 < b.1)
}

proof fn lemma_anchor_count_bounds(
    lessons: Seq<Lesson>,
    tbs: Seq<TimeBlock>,
    pinned: Seq<LessonId>,
    ps: Seq<Placement>,
    key: (u128, u8),
)
    ensures
        0 <= anchor_count(lessons, tbs, pinned, ps, key) <= ps.len(),
    decreases ps.len(),
{
    if ps.len() > 0 {
        lemma_anchor_count_bounds(lessons, tbs, pinned, ps.drop_last(), key);
    }
}

proof fn lemma_anchor_count_from_lesson(
    lessons: Seq<Lesson>,
    tbs: Seq<TimeBlock>,
    pinned: Seq<LessonId>,
    ps: Seq<Placement>,
    key: (u128, u8),
)
    requires
        anchor_count(lessons, tbs, pinned, ps, key) >= 1,
    ensures
        lesson_index(lessons, LessonId(key.0)) >= 0,
    decreases ps.len(),
{
    if anchor_count(lessons, tbs, pinned, ps.drop_last(), key) >= 1 {
        lemma_anchor_count_from_lesson(lessons, tbs, pinned, ps.drop_last(), key);
    } else {
        let p = ps.last();
        assert(anchor_key(lessons, tbs, pinned, p) == Some(key));
        assert(p.lesson_id == LessonId(key.0));
    }
}

/// Whether the lesson is among the pinned ones.
fn is_pinned(pinned: &Vec<LessonId>, id: LessonId) -> (r: bool)
    ensures
        r == pinned@.contains(id),
{
    let mut k: usize = 0;
    while k < pinned.len()
        invariant
            k <= pinned@.len(),
            forall|m: int| 0 <= m < k ==> pinned@[m] != id,
        decreases pinned@.len() - k,
    {
        if pinned[k].0 == id.0 {
            assert(pinned@[k as int] == id);
            return true;
        }
        k = k + 1;
    }
    false
}

/// Per-(lesson, day) counts of the placements that count toward an anchor,
/// one entry per key with a count of at least one.
fn anchor_counts(
    placements: &[Placement],
    lessons: &Vec<Lesson>,
    tbs: &Vec<TimeBlock>,
    pinned: &Vec<LessonId>,
) -> (counts: Vec<(u128, u8, u32)>)
    requires
        placements@.len() <= u32::MAX,
    ensures
        forall|a: int, b: int|
            0 <= a < b < counts@.len() ==> (#[trigger] counts@[a].0, counts@[a].1) != (#[trigger] counts@[b].0,
            counts@[b].1),
        forall|k: int|
            0 <= k < counts@.len() ==> #[trigger] counts@[k].2 == anchor_count(
                lessons@,
                tbs@,
                pinned@,
                placements@,
                (counts@[k].0, counts@[k].1),
            ) && counts@[k].2 >= 1,
        forall|key: (u128, u8)|
            anchor_count(lessons@, tbs@, pinned@, placements@, key) >= 1 ==> exists|k: int|
                0 <= k < counts@.len() && (#[trigger] counts@[k].0, counts@[k].1) == key,
{
    let ghost ls = lessons@;
    let ghost ts = tbs@;
    let ghost pins = pinned@;
    let mut counts: Vec<(u128, u8, u32)> = Vec::new();
    let mut i: usize = 0;
    while i < placements.len()
        invariant
            i <= placements@.len() <= u32::MAX,
            ls == lessons@,
            ts == tbs@,
            pins == pinned@,
            forall|a: int, b: int|
                0 <= a < b < counts@.len() ==> (#[trigger] counts@[a].0, counts@[a].1) != (#[trigger] counts@[b].0,
                counts@[b].1),
            forall|k: int|
                0 <= k < counts@.len() ==> #[trigger] counts@[k].2 == anchor_count(
                    ls,
                    ts,
                    pins,
                    placements@.take(i as int),
                    (counts@[k].0, counts@[k].1),
                ) && counts@[k].2 >= 1,
            forall|key: (u128, u8)|
                anchor_count(ls, ts, pins, placements@.take(i as int), key) >= 1 ==> exists|k: int|
                    0 <= k < counts@.len() && (#[trigger] counts@[k].0, counts@[k].1) == key,
        decreases placements@.len() - i,
    {
        let p = placements[i];
        let ghost prefix = placements@.take(i as int);
        let ghost next = placements@.take(i + 1);
        proof {
            assert(next.drop_last() =~= prefix);
            assert(next.last() == p);
            assert forall|key: (u128, u8)| #[trigger] anchor_count(ls, ts, pins, prefix, key) <= i by {
                lemma_anchor_count_bounds(ls, ts, pins, prefix, key);
            }
        }
        let li = find_lesson(lessons, p.lesson_id);
        let ti = find_tb(tbs, p.time_block_id);
        let mut key: Option<(u128, u8)> = None;
        if let Some(li) = li {
            if !is_pinned(pinned, p.lesson_id) && lessons[li].lesson_group_id.is_none() {
                if let Some(ti) = ti {
                    key = Some((p.lesson_id.0, tbs[ti].day_of_week));
                }
            }
        }
        proof {
            assert(key == anchor_key(ls, ts, pins, p));
        }
        if let Some(kk) = key {
            let mut j: usize = 0;
            while j < counts.len()
                invariant
                    j <= counts@.len(),
                    forall|m: int| 0 <= m < j ==> (#[trigger] counts@[m].0, counts@[m].1) != kk,
                ensures
                    j <= counts@.len(),
                    forall|m: int| 0 <= m < j ==> (#[trigger] counts@[m].0, counts@[m].1) != kk,
                    j < counts@.len() ==> (counts@[j as int].0, counts@[j as int].1) == kk,
                decreases counts@.len() - j,
            {
                if counts[j].0 == kk.0 && counts[j].1 == kk.1 {
                    break;
                }
                j = j + 1;
            }
            let ghost before = counts@;
            if j < counts.len() {
                let e = counts[j];
                proof {
                    assert(e.2 == anchor_count(ls, ts, pins, prefix, kk));
                }
                counts.set(j, (e.0, e.1, e.2 + 1));
                proof {
                    assert forall|a: int, b: int|
                        0 <= a < b < counts@.len() implies (#[trigger] counts@[a].0, counts@[a].1) != (
                        #[trigger] counts@[b].0,
                        counts@[b].1,
                    ) by {
                        assert((counts@[a].0, counts@[a].1) == (before[a].0, before[a].1));
                        assert((counts@[b].0, counts@[b].1) == (before[b].0, before[b].1));
                    }
                    assert forall|k: int| 0 <= k < counts@.len() implies #[trigger] counts@[k].2 == anchor_count(
                        ls,
                        ts,
                        pins,
                        next,
                        (counts@[k].0, counts@[k].1),
                    ) && counts@[k].2 >= 1 by {
                        if k != j {
                            assert(counts@[k] == before[k]);
                            assert((before[k].0, before[k].1) != kk);
                        }
                    }
                    assert forall|key2: (u128, u8)|
                        anchor_count(ls, ts, pins, next, key2) >= 1 implies exists|k: int|
                        0 <= k < counts@.len() && (#[trigger] counts@[k].0, counts@[k].1) == key2 by {
                        if key2 == kk {
                            assert((counts@[j as int].0, counts@[j as int].1) == key2);
                        } else {
                            assert(anchor_count(ls, ts, pins, prefix, key2) >= 1);
                            let k = choose|k: int| 0 <= k < before.len() && (#[trigger] before[k].0, before[k].1) == key2;
                            assert((counts@[k].0, counts@[k].1) == key2);
                        }
                    }
                }
            } else {
                proof {
                    assert(anchor_count(ls, ts, pins, prefix, kk) == 0) by {
                        if anchor_count(ls, ts, pins, prefix, kk) >= 1 {
                            let k = choose|k: int| 0 <= k < before.len() && (#[trigger] before[k].0, before[k].1) == kk;
                        }
                        lemma_anchor_count_bounds(ls, ts, pins, prefix, kk);
                    }
                }
                counts.push((kk.0, kk.1, 1));
                proof {
                    assert forall|a: int, b: int|
                        0 <= a < b < counts@.len() implies (#[trigger] counts@[a].0, counts@[a].1) != (
                        #[trigger] counts@[b].0,
                        counts@[b].1,
                    ) by {
                        assert(counts@[a] == before[a]);
                        if b < before.len() {
                            assert(counts@[b] == before[b]);
                        }
                    }
                    assert forall|k: int| 0 <= k < counts@.len() implies #[trigger] counts@[k].2 == anchor_count(
                        ls,
                        ts,
                        pins,
                        next,
                        (counts@[k].0, counts@[k].1),
                    ) && counts@[k].2 >= 1 by {
                        if k < before.len() {
                            assert(counts@[k] == before[k]);
                            assert((before[k].0, before[k].1) != kk);
                        }
                    }
                    assert forall|key2: (u128, u8)|
                        anchor_count(ls, ts, pins, next, key2) >= 1 implies exists|k: int|
                        0 <= k < counts@.len() && (#[trigger] counts@[k].0, counts@[k].1) == key2 by {
                        if key2 == kk {
                            assert((counts@[before.len() as int].0, counts@[before.len() as int].1) == key2);
                        } else {
                            assert(anchor_count(ls, ts, pins, prefix, key2) >= 1);
                            let k = choose|k: int| 0 <= k < before.len() && (#[trigger] before[k].0, before[k].1) == key2;
                            assert(counts@[k] == before[k]);
                        }
                    }
                }
            }
        } else {
            proof {
                assert forall|key2: (u128, u8)| #[trigger] anchor_count(ls, ts, pins, next, key2) == anchor_count(
                    ls,
                    ts,
                    pins,
                    prefix,
                    key2,
                ) by {}
            }
        }
        i = i + 1;
    }
    proof {
        assert(placements@.take(i as int) =~= placements@);
    }
    counts
}

/// Insert an anchor into a strictly ordered anchor list that lacks it.
fn insert_anchor(anchors: &mut Vec<(LessonId, u8)>, a: (LessonId, u8))
    requires
        forall|x: int, y: int| 0 <= x < y < old(anchors)@.len() ==> anchor_before(#[trigger] old(anchors)@[x], #[trigger] old(anchors)@[y]),
        !old(anchors)@.contains(a),
    ensures
        forall|x: int, y: int| 0 <= x < y < final(anchors)@.len() ==> anchor_before(#[trigger] final(anchors)@[x], #[trigger] final(anchors)@[y]),
        forall|b: (LessonId, u8)| final(anchors)@.contains(b) <==> (old(anchors)@.contains(b) || b == a),
{
    let mut j: usize = 0;
    while j < anchors.len() && !(a.0.0 < anchors[j].0.0 || (a.0.0 == anchors[j].0.0 && a.1 < anchors[j].1))
        invariant
            j <= anchors@.len(),
            forall|m: int| 0 <= m < j ==> !anchor_before(a, #[trigger] anchors@[m]),
        decreases anchors@.len() - j,
    {
        j = j + 1;
    }
    let ghost before = anchors@;
    proof {
        assert forall|m: int| 0 <= m < j implies anchor_before(#[trigger] before[m], a) by {
            assert(before[m] != a);
            assert(!anchor_before(a, before[m]));
        }
    }
    anchors.insert(j, a);
    proof {
        assert(anchors@ == before.insert(j as int, a));
        assert forall|x: int, y: int| 0 <= x < y < anchors@.len() implies anchor_before(
            #[trigger] anchors@[x],
            #[trigger] anchors@[y],
        ) by {
            if y < j {
                assert(anchors@[x] == before[x] && anchors@[y] == before[y]);
            } else if y == j {
                assert(anchors@[x] == before[x]);
            } else if x < j {
                assert(anchors@[x] == before[x] && anchors@[y] == before[y - 1]);
                assert(anchor_before(before[x], a));
                assert(anchor_before(a, before[j as int]));
                if y - 1 > j {
                    assert(anchor_before(before[j as int], before[y - 1]));
                }
            } else if x == j {
                assert(anchors@[y] == before[y - 1]);
                assert(anchor_before(a, before[j as int]));
                if y - 1 > j {
                    assert(anchor_before(before[j as int], before[y - 1]));
                }
            } else {
                assert(anchors@[x] == before[x - 1] && anchors@[y] == before[y - 1]);
            }
        }
        assert forall|b: (LessonId, u8)| anchors@.contains(b) <==> (before.contains(b) || b == a) by {
            if anchors@.contains(b) {
                let k = choose|k: int| 0 <= k < anchors@.len() && anchors@[k] == b;
                if k < j {
                    assert(before[k] == b);
                } else if k > j {
                    assert(before[k - 1] == b);
                }
            }
            if before.contains(b) {
                let k = choose|k: int| 0 <= k < before.len() && before[k] == b;
                if k < j {
                    assert(anchors@[k] == b);
                } else {
                    assert(anchors@[k + 1] == b);
                }
            }
            if b == a {
                assert(anchors@[j as int] == a);
            }
        }
    }
}

/// The ruin anchors of a placement set: one `(lesson, day)` per block of an
/// unpinned, ungrouped lesson whose day holds at most one block of it,
/// ordered by lesson id then day. `lessons` and `tbs` resolve identifiers
/// (the last entry with an identifier wins); `pinned` lists the pinned
/// lessons.
pub fn rr_collect_anchors(
    placements: &[Placement],
    lessons: &Vec<Lesson>,
    tbs: &Vec<TimeBlock>,
    pinned: &Vec<LessonId>,
) -> (anchors: Vec<(LessonId, u8)>)
    requires
        placements@.len() <= u32::MAX,
    ensures
        forall|x: int, y: int| 0 <= x < y < anchors@.len() ==> anchor_before(#[trigger] anchors@[x], #[trigger] anchors@[y]),
        forall|key: (u128, u8)|
            anchors@.contains((LessonId(key.0), key.1)) <==> is_anchor(lessons@, tbs@, pinned@, placements@, key),
{
    let counts = anchor_counts(placements, lessons, tbs, pinned);
    let ghost ls = lessons@;
    let ghost ts = tbs@;
    let ghost pins = pinned@;
    let ghost ps = placements@;
    let mut anchors: Vec<(LessonId, u8)> = Vec::new();
    let mut k: usize = 0;
    while k < counts.len()
        invariant
            k <= counts@.len(),
            ls == lessons@,
            ts == tbs@,
            pins == pinned@,
            ps == placements@,
            forall|a: int, b: int|
                0 <= a < b < counts@.len() ==> (#[trigger] counts@[a].0, counts@[a].1) != (#[trigger] counts@[b].0,
                counts@[b].1),
            forall|m: int|
                0 <= m < counts@.len() ==> #[trigger] counts@[m].2 == anchor_count(ls, ts, pins, ps, (counts@[m].0, counts@[m].1))
                    && counts@[m].2 >= 1,
            forall|key: (u128, u8)|
                anchor_count(ls, ts, pins, ps, key) >= 1 ==> exists|m: int|
                    0 <= m < counts@.len() && (#[trigger] counts@[m].0, counts@[m].1) == key,
            forall|x: int, y: int| 0 <= x < y < anchors@.len() ==> anchor_before(#[trigger] anchors@[x], #[trigger] anchors@[y]),
            forall|b: (LessonId, u8)|
                #[trigger] anchors@.contains(b) <==> (is_anchor(ls, ts, pins, ps, (b.0.0, b.1))
                    && counted_before(counts@, k as int, (b.0.0, b.1))),
        decreases counts@.len() - k,
    {
        let e = counts[k];
        let ekey: (u128, u8) = (e.0, e.1);
        let li = find_lesson(lessons, LessonId(e.0));
        let mut take = false;
        if let Some(li) = li {
            if e.2 <= lessons[li].preferred_block_size as u32 {
                take = true;
            }
        }
        proof {
            lemma_anchor_count_bounds(ls, ts, pins, ps, ekey);
            if e.2 >= 1 {
                lemma_anchor_count_from_lesson(ls, ts, pins, ps, ekey);
            }
            assert(take == is_anchor(ls, ts, pins, ps, ekey)) by {
                assert(e.2 == anchor_count(ls, ts, pins, ps, ekey));
            }
        }
        let ghost before = anchors@;
        if take {
            proof {
                assert(before.contains((LessonId(e.0), e.1)) <==> (is_anchor(ls, ts, pins, ps, ekey)
                    && counted_before(counts@, k as int, ekey)));
                if before.contains((LessonId(e.0), e.1)) {
                    let m = choose|m: int| 0 <= m < k && (#[trigger] counts@[m].0, counts@[m].1) == ekey;
                    assert((counts@[m].0, counts@[m].1) != (counts@[k as int].0, counts@[k as int].1));
                }
            }
            insert_anchor(&mut anchors, (LessonId(e.0), e.1));
        }
        proof {
            assert forall|b: (LessonId, u8)|
                #[trigger] anchors@.contains(b) <==> (is_anchor(ls, ts, pins, ps, (b.0.0, b.1))
                    && counted_before(counts@, k + 1, (b.0.0, b.1))) by {
                let key = (b.0.0, b.1);
                assert(b == (LessonId(key.0), key.1));
                assert(before.contains(b) <==> (is_anchor(ls, ts, pins, ps, key) && counted_before(counts@, k as int, key)));
                if key == ekey {
                    assert((counts@[k as int].0, counts@[k as int].1) == key);
                    assert(counted_before(counts@, k + 1, key));
                    assert(!before.contains(b)) by {
                        if before.contains(b) {
                            let m = choose|m: int| 0 <= m < k && (#[trigger] counts@[m].0, counts@[m].1) == key;
                            assert((counts@[m].0, counts@[m].1) != (counts@[k as int].0, counts@[k as int].1));
                        }
                    }
                    if take {
                        assert(anchors@.contains(b));
                    } else {
                        assert(anchors@ == before);
                    }
                } else {
                    assert(b != (LessonId(e.0), e.1));
                    assert(anchors@.contains(b) == before.contains(b));
                    if counted_before(counts@, k + 1, key) {
                        let m = choose|m: int| 0 <= m < k + 1 && (#[trigger] counts@[m].0, counts@[m].1) == key;
                        assert(m < k);
                    }
                    if counted_before(counts@, k as int, key) {
                        let m = choose|m: int| 0 <= m < k && (#[trigger] counts@[m].0, counts@[m].1) == key;
                        assert(0 <= m < k + 1);
                    }
                }
            }
        }
        k = k + 1;
    }
    proof {
        assert forall|key: (u128, u8)|
            anchors@.contains((LessonId(key.0), key.1)) <==> is_anchor(ls, ts, pins, ps, key) by {
            let b = (LessonId(key.0), key.1);
            assert(anchors@.contains(b) <==> (is_anchor(ls, ts, pins, ps, (b.0.0, b.1))
                && counted_before(counts@, k as int, (b.0.0, b.1))));
            if is_anchor(ls, ts, pins, ps, key) {
                let m = choose|m: int| 0 <= m < counts@.len() && (#[trigger] counts@[m].0, counts@[m].1) == key;
                assert(counted_before(counts@, k as int, key));
            }
        }
    }
    anchors
}

/// The value of the first entry with key `k` in a `u8 -> u8` table.
pub open spec fn day_table_get(m: Seq<(u8, u8)>, k: u8) -> Option<u8>
    decreases m.len(),
{
    if m.len() == 0 {
        None
    } else if m[0].0 == k {
        Some(m[0].1)
    } else {
        day_table_get(m.drop_first(), k)
    }
}

/// The block of the first entry with key `k` in a `(day, position) ->
/// block` table.
pub open spec fn slot_table_get(m: Seq<((u8, u8), TimeBlockId)>, k: (u8, u8)) -> Option<TimeBlockId>
    decreases m.len(),
{
    if m.len() == 0 {
        None
    } else if m[0].0 == k {
        Some(m[0].1)
    } else {
        slot_table_get(m.drop_first(), k)
    }
}

/// Index of the first time block with identifier `id`, or -1.
pub open spec fn first_tb_index(tbs: Seq<TimeBlock>, id: TimeBlockId) -> int
    decreases tbs.len(),
{
    if tbs.len() == 0 {
        -1
    } else if tbs[0].id == id {
        0
    } else {
        let r = first_tb_index(tbs.drop_first(), id);
        if r < 0 {
            -1
        } else {
            r + 1
        }
    }
}

/// The time block at `(day, pos)` through the slot table, when both steps
/// resolve.
pub open spec fn slot_block(tbs: Seq<TimeBlock>, slots: Seq<((u8, u8), TimeBlockId)>, day: u8, pos: int) -> Option<
    TimeBlock,
> {
    match slot_table_get(slots, (day, pos as u8)) {
        Some(id) => {
            let i = first_tb_index(tbs, id);
            if i < 0 {
                None
            } else {
                Some(tbs[i])
            }
        },
        None => None,
    }
}

/// Every position `start .. start + n` of `day` has a slot whose block
/// exists.
pub open spec fn window_resolves(tbs: Seq<TimeBlock>, slots: Seq<((u8, u8), TimeBlockId)>, day: u8, start: u8, n: u8) -> bool {
    forall|k: int| 0 <= k < n ==> (#[trigger] slot_block(tbs, slots, day, start + k)) is Some
}

/// Sum of the subject preference of the first `k` blocks of a window.
pub open spec fn window_pref_sum(
    tbs: Seq<TimeBlock>,
    slots: Seq<((u8, u8), TimeBlockId)>,
    subject: Subject,
    day: u8,
    start: u8,
    k: int,
    max_pos: u8,
    w: ConstraintWeights,
) -> int
    decreases k,
{
    if k <= 0 {
        0
    } else {
        window_pref_sum(tbs, slots, subject, day, start, k - 1, max_pos, w) + match slot_block(
            tbs,
            slots,
            day,
            start + k - 1,
        ) {
            Some(tb) => subject_pref_spec(subject, tb.position, max_pos, w),
            None => 0,
        }
    }
}

/// The last position of `day` used for the window: the table's entry, else
/// the window's own last position.
pub open spec fn window_max_pos(max_position_per_day: Seq<(u8, u8)>, day: u8, start: u8, n: u8) -> u8 {
    match day_table_get(max_position_per_day, day) {
        Some(m) => m,
        None => (start + n - 1) as u8,
    }
}

pub(crate) fn lookup_day(m: &Vec<(u8, u8)>, k: u8) -> (r: Option<u8>)
    ensures
        r == day_table_get(m@, k),
{
    proof {
        assert(m@.subrange(0, m@.len() as int) =~= m@);
    }
    let mut j: usize = 0;
    while j < m.len()
        invariant
            j <= m@.len(),
            day_table_get(m@, k) == day_table_get(m@.subrange(j as int, m@.len() as int), k),
        decreases m@.len() - j,
    {
        proof {
            let rest = m@.subrange(j as int, m@.len() as int);
            assert(rest[0] == m@[j as int]);
            assert(rest.drop_first() =~= m@.subrange(j + 1, m@.len() as int));
        }
        if m[j].0 == k {
            return Some(m[j].1);
        }
        j = j + 1;
    }
    None
}

pub(crate) fn lookup_slot(m: &Vec<((u8, u8), TimeBlockId)>, k: (u8, u8)) -> (r: Option<TimeBlockId>)
    ensures
        r == slot_table_get(m@, k),
{
    proof {
        assert(m@.subrange(0, m@.len() as int) =~= m@);
    }
    let mut j: usize = 0;
    while j < m.len()
        invariant
            j <= m@.len(),
            slot_table_get(m@, k) == slot_table_get(m@.subrange(j as int, m@.len() as int), k),
        decreases m@.len() - j,
    {
        proof {
            let rest = m@.subrange(j as int, m@.len() as int);
            assert(rest[0] == m@[j as int]);
            assert(rest.drop_first() =~= m@.subrange(j + 1, m@.len() as int));
        }
        let e = m[j];
        if e.0.0 == k.0 && e.0.1 == k.1 {
            return Some(e.1);
        }
        j = j + 1;
    }
    None
}

fn find_first_tb(tbs: &Vec<TimeBlock>, id: TimeBlockId) -> (r: Option<usize>)
    ensures
        match r {
            Some(i) => i as int == first_tb_index(tbs@, id) && i < tbs@.len(),
            None => first_tb_index(tbs@, id) < 0,
        },
{
    proof {
        assert(tbs@.subrange(0, tbs@.len() as int) =~= tbs@);
    }
    let mut j: usize = 0;
    while j < tbs.len()
        invariant
            j <= tbs@.len(),
            first_tb_index(tbs@, id) == (if first_tb_index(tbs@.subrange(j as int, tbs@.len() as int), id) < 0 {
                -1
            } else {
                first_tb_index(tbs@.subrange(j as int, tbs@.len() as int), id) + j
            }),
        decreases tbs@.len() - j,
    {
        proof {
            let rest = tbs@.subrange(j as int, tbs@.len() as int);
            assert(rest[0] == tbs@[j as int]);
            assert(rest.drop_first() =~= tbs@.subrange(j + 1, tbs@.len() as int));
        }
        if tbs[j].id.0 == id.0 {
            return Some(j);
        }
        j = j + 1;
    }
    proof {
        assert(tbs@.subrange(j as int, tbs@.len() as int).len() == 0);
    }
    None
}

proof fn lemma_window_pref_sum_nonneg(
    tbs: Seq<TimeBlock>,
    slots: Seq<((u8, u8), TimeBlockId)>,
    subject: Subject,
    day: u8,
    start: u8,
    k: int,
    max_pos: u8,
    w: ConstraintWeights,
)
    ensures
        window_pref_sum(tbs, slots, subject, day, start, k, max_pos, w) >= 0,
    decreases k,
{
    if k > 0 {
        lemma_window_pref_sum_nonneg(tbs, slots, subject, day, start, k - 1, max_pos, w);
    }
}

/// Subject preference of a block-sized window of a lesson moved to
/// `(dest_day, start_pos ..)`, summed saturating over the window's blocks.
/// `max_position_per_day` gives each day's last position (the window's
/// last position when the day is absent); `tb_by_day_pos` maps a
/// `(day, position)` slot to its block.
pub fn kempe_apply_subject_pref(
    problem: &Problem,
    lesson: &Lesson,
    subject: &Subject,
    dest_day: u8,
    start_pos: u8,
    weights: &ConstraintWeights,
    max_position_per_day: &Vec<(u8, u8)>,
    tb_by_day_pos: &Vec<((u8, u8), TimeBlockId)>,
) -> (total: u32)
    requires
        1 <= start_pos + lesson.preferred_block_size <= 255,
        window_resolves(problem.time_blocks@, tb_by_day_pos@, dest_day, start_pos, lesson.preferred_block_size),
    ensures
        total == sat(
            window_pref_sum(
                problem.time_blocks@,
                tb_by_day_pos@,
                *subject,
                dest_day,
                start_pos,
                lesson.preferred_block_size as int,
                window_max_pos(max_position_per_day@, dest_day, start_pos, lesson.preferred_block_size),
                *weights,
            ),
        ),
{
    let n = lesson.preferred_block_size;
    let fallback: u8 = start_pos + n - 1;
    let max_pos = match lookup_day(max_position_per_day, dest_day) {
        Some(m) => m,
        None => fallback,
    };
    let ghost tbs = problem.time_blocks@;
    let ghost slots = tb_by_day_pos@;
    let mut total: u32 = 0;
    let mut k: u8 = 0;
    while k < n
        invariant
            n == lesson.preferred_block_size,
            k <= n,
            1 <= start_pos + n <= 255,
            tbs == problem.time_blocks@,
            slots == tb_by_day_pos@,
            window_resolves(tbs, slots, dest_day, start_pos, n),
            total == sat(window_pref_sum(tbs, slots, *subject, dest_day, start_pos, k as int, max_pos, *weights)),
        decreases n - k,
    {
        let pos: u8 = start_pos + k;
        proof {
            assert(slot_block(tbs, slots, dest_day, start_pos + k) is Some);
            lemma_window_pref_sum_nonneg(tbs, slots, *subject, dest_day, start_pos, k as int, max_pos, *weights);
        }
        let tb_id = lookup_slot(tb_by_day_pos, (dest_day, pos)).unwrap();
        let ti = find_first_tb(&problem.time_blocks, tb_id).unwrap();
        let tb = problem.time_blocks[ti];
        let here = subject_preference_score(subject, &tb, max_pos, weights);
        total = crate::arith::sat_add(total, here);
        k = k + 1;
    }
    total
}

/// The placement's block, lesson and the lesson's subject all resolve.
pub open spec fn fully_resolves(problem: Problem, p: Placement) -> bool {
    &&& crate::score::placement_tb(problem, p) is Some
    &&& crate::score::placement_lesson(problem, p) is Some
    &&& subject_index(problem.subjects@, crate::score::placement_lesson(problem, p)->0.subject_id) >= 0
}

/// The placements of `ps` that fully resolve, in order.
pub open spec fn resolved_only(problem: Problem, ps: Seq<Placement>) -> Seq<Placement>
    decreases ps.len(),
{
    if ps.len() == 0 {
        seq![]
    } else {
        let rest = resolved_only(problem, ps.drop_last());
        if fully_resolves(problem, ps.last()) {
            rest.push(ps.last())
        } else {
            rest
        }
    }
}

/// Subject preference of a resolving placement, with the day's last
/// position taken from `max_position_per_day` (the block's own position
/// when the day is absent).
pub open spec fn running_pref(problem: Problem, p: Placement, max_position_per_day: Seq<(u8, u8)>, w: ConstraintWeights) -> int {
    let tb = crate::score::placement_tb(problem, p)->0;
    let l = crate::score::placement_lesson(problem, p)->0;
    let subject = problem.subjects@[subject_index(problem.subjects@, l.subject_id)];
    let max_pos = match day_table_get(max_position_per_day, tb.day_of_week) {
        Some(m) => m,
        None => tb.position,
    };
    subject_pref_spec(subject, tb.position, max_pos, w)
}

/// Sum of `running_pref` over `ps`.
pub open spec fn running_pref_sum(
    problem: Problem,
    ps: Seq<Placement>,
    max_position_per_day: Seq<(u8, u8)>,
    w: ConstraintWeights,
) -> int
    decreases ps.len(),
{
    if ps.len() == 0 {
        0
    } else {
        running_pref_sum(problem, ps.drop_last(), max_position_per_day, w) + running_pref(
            problem,
            ps.last(),
            max_position_per_day,
            w,
        )
    }
}

/// The running slice of `ps`: weighted class and teacher gap-hours of the
/// resolving placements plus their subject preference, each step
/// saturating.
pub open spec fn running_slice_spec(
    problem: Problem,
    ps: Seq<Placement>,
    max_position_per_day: Seq<(u8, u8)>,
    w: ConstraintWeights,
) -> int {
    let kept = resolved_only(problem, ps);
    sat(sat(sat(w.class_gap * crate::partition::total_gaps(crate::score::class_cells(problem, kept))) + sat(
        w.teacher_gap * crate::partition::total_gaps(crate::score::teacher_cells(problem, kept)),
    )) + sat(running_pref_sum(problem, kept, max_position_per_day, w)))
}

proof fn lemma_running_pref_sum_nonneg(
    problem: Problem,
    ps: Seq<Placement>,
    max_position_per_day: Seq<(u8, u8)>,
    w: ConstraintWeights,
)
    ensures
        running_pref_sum(problem, ps, max_position_per_day, w) >= 0,
    decreases ps.len(),
{
    if ps.len() > 0 {
        lemma_running_pref_sum_nonneg(problem, ps.drop_last(), max_position_per_day, w);
    }
}

/// Recompute the running slice (class gaps, teacher gaps, subject
/// preference) from the placements. Placements whose lesson, block or
/// subject does not resolve are skipped; `max_position_per_day` gives each
/// day's last position.
pub fn running_slice_from_placements(
    problem: &Problem,
    placements: &[Placement],
    weights: &ConstraintWeights,
    max_position_per_day: &Vec<(u8, u8)>,
) -> (score: u32)
    requires
        crate::partition::total_gaps(crate::score::class_cells(*problem, resolved_only(*problem, placements@)))
            <= u32::MAX,
        crate::partition::total_gaps(crate::score::teacher_cells(*problem, resolved_only(*problem, placements@)))
            <= u32::MAX,
    ensures
        score == running_slice_spec(*problem, placements@, max_position_per_day@, *weights),
{
    let mut kept: Vec<Placement> = Vec::new();
    let mut pref: u32 = 0;
    let mut i: usize = 0;
    while i < placements.len()
        invariant
            i <= placements@.len(),
            kept@ == resolved_only(*problem, placements@.take(i as int)),
            pref == sat(running_pref_sum(*problem, kept@, max_position_per_day@, *weights)),
        decreases placements@.len() - i,
    {
        let p = placements[i];
        proof {
            assert(placements@.take(i + 1).drop_last() =~= placements@.take(i as int));
            assert(placements@.take(i + 1).last() == p);
            lemma_running_pref_sum_nonneg(*problem, kept@, max_position_per_day@, *weights);
        }
        let li = find_lesson(&problem.lessons, p.lesson_id);
        let ti = find_tb(&problem.time_blocks, p.time_block_id);
        if let (Some(li), Some(ti)) = (li, ti) {
            let si = find_subject(&problem.subjects, problem.lessons[li].subject_id);
            if let Some(si) = si {
                let tb = problem.time_blocks[ti];
                let max_pos = match lookup_day(max_position_per_day, tb.day_of_week) {
                    Some(m) => m,
                    None => tb.position,
                };
                let here = subject_preference_score(&problem.subjects[si], &tb, max_pos, weights);
                let ghost before = kept@;
                kept.push(p);
                proof {
                    assert(kept@.drop_last() =~= before);
                }
                pref = crate::arith::sat_add(pref, here);
            }
        }
        i = i + 1;
    }
    proof {
        assert(placements@.take(i as int) =~= placements@);
    }
    let class_cells_v = crate::score::collect_class_cells(problem, kept.as_slice());
    let teacher_cells_v = crate::score::collect_teacher_cells(problem, kept.as_slice());
    let by_class_day = crate::partition::build_partition(&class_cells_v);
    let by_teacher_day = crate::partition::build_partition(&teacher_cells_v);
    proof {
        crate::partition::lemma_built_gap_sum(&by_class_day, class_cells_v@);
        crate::partition::lemma_built_gap_sum(&by_teacher_day, teacher_cells_v@);
    }
    let class_gap_total = crate::partition::partition_gap_total(&by_class_day);
    let teacher_gap_total = crate::partition::partition_gap_total(&by_teacher_day);
    crate::arith::sat_add(
        crate::arith::sat_add(
            crate::arith::sat_mul(weights.class_gap, class_gap_total),
            crate::arith::sat_mul(weights.teacher_gap, teacher_gap_total),
        ),
        pref,
    )
}

/// The same-room lock recorded for `(class, day, subject)`, if any: the
/// first entry with that key.
pub open spec fn lock_of(
    locks: Seq<((SchoolClassId, u8, SubjectId), (RoomId, u32))>,
    key: (SchoolClassId, u8, SubjectId),
) -> Option<(RoomId, u32)>
    decreases locks.len(),
{
    if locks.len() == 0 {
        None
    } else if locks[0].0 == key {
        Some(locks[0].1)
    } else {
        lock_of(locks.drop_first(), key)
    }
}

/// The lock the member classes share at `(day, subject)`: `Some(None)` when
/// none has one, `Some(Some(room))` when every lock present names `room`,
/// `None` when two locks disagree.
pub open spec fn shared_lock(
    locks: Seq<((SchoolClassId, u8, SubjectId), (RoomId, u32))>,
    cids: Seq<SchoolClassId>,
    day: u8,
    subject: SubjectId,
) -> Option<Option<RoomId>>
    decreases cids.len(),
{
    if cids.len() == 0 {
        Some(None)
    } else {
        match shared_lock(locks, cids.drop_last(), day, subject) {
            None => None,
            Some(acc) => match lock_of(locks, (cids.last(), day, subject)) {
                None => Some(acc),
                Some(entry) => match acc {
                    None => Some(Some(entry.0)),
                    Some(prev) => if prev == entry.0 {
                        Some(Some(prev))
                    } else {
                        None
                    },
                },
            },
        }
    }
}

/// The room suits the lesson's subject and is neither blocked nor used at
/// any block of the destination window.
pub open spec fn window_room_feasible(
    idx: Indexed,
    subject: SubjectId,
    slots: Seq<((u8, u8), TimeBlockId)>,
    used_room: Seq<(u128, u128)>,
    day: u8,
    start: u8,
    n: u8,
    room: RoomId,
) -> bool {
    &&& suits(idx.room_subject@, room.0, subject.0)
    &&& forall|k: int|
        0 <= k < n ==> {
            let tb = (#[trigger] slot_table_get(slots, (day, (start + k) as u8)))->0;
            &&& !idx.room_blocked@.contains((room.0, tb.0))
            &&& !used_room.contains((room.0, tb.0))
        }
}

/// The first room, in `order`, that is feasible for the window.
pub open spec fn first_feasible_in_order(
    rooms: Seq<Room>,
    order: Seq<usize>,
    idx: Indexed,
    subject: SubjectId,
    slots: Seq<((u8, u8), TimeBlockId)>,
    used_room: Seq<(u128, u128)>,
    day: u8,
    start: u8,
    n: u8,
) -> Option<RoomId>
    decreases order.len(),
{
    if order.len() == 0 {
        None
    } else {
        let r = rooms[order[0] as int].id;
        if window_room_feasible(idx, subject, slots, used_room, day, start, n, r) {
            Some(r)
        } else {
            first_feasible_in_order(rooms, order.drop_first(), idx, subject, slots, used_room, day, start, n)
        }
    }
}

/// The room `first_feasible_in_order` finds is feasible for the window.
pub proof fn lemma_first_feasible_is_feasible(
    rooms: Seq<Room>,
    order: Seq<usize>,
    idx: Indexed,
    subject: SubjectId,
    slots: Seq<((u8, u8), TimeBlockId)>,
    used_room: Seq<(u128, u128)>,
    day: u8,
    start: u8,
    n: u8,
)
    ensures
        first_feasible_in_order(rooms, order, idx, subject, slots, used_room, day, start, n) matches Some(r)
            ==> window_room_feasible(idx, subject, slots, used_room, day, start, n, r),
    decreases order.len(),
{
    if order.len() > 0 {
        lemma_first_feasible_is_feasible(rooms, order.drop_first(), idx, subject, slots, used_room, day, start, n);
    }
}

/// The room `kempe_pick_room` chooses.
pub open spec fn kempe_room_spec(
    problem: Problem,
    idx: Indexed,
    lesson: Lesson,
    original_room: RoomId,
    day: u8,
    start: u8,
    slots: Seq<((u8, u8), TimeBlockId)>,
    locks: Seq<((SchoolClassId, u8, SubjectId), (RoomId, u32))>,
    used_room: Seq<(u128, u128)>,
    order: Seq<usize>,
) -> Option<RoomId> {
    let n = lesson.preferred_block_size;
    let s = lesson.subject_id;
    match shared_lock(locks, lesson.school_class_ids@, day, s) {
        None => None,
        Some(Some(l)) => if window_room_feasible(idx, s, slots, used_room, day, start, n, l) {
            Some(l)
        } else {
            None
        },
        Some(None) => if window_room_feasible(idx, s, slots, used_room, day, start, n, original_room) {
            Some(original_room)
        } else {
            first_feasible_in_order(problem.rooms@, order, idx, s, slots, used_room, day, start, n)
        },
    }
}

fn lookup_lock(
    locks: &Vec<((SchoolClassId, u8, SubjectId), (RoomId, u32))>,
    key: (SchoolClassId, u8, SubjectId),
) -> (r: Option<(RoomId, u32)>)
    ensures
        r == lock_of(locks@, key),
{
    proof {
        assert(locks@.subrange(0, locks@.len() as int) =~= locks@);
    }
    let mut j: usize = 0;
    while j < locks.len()
        invariant
            j <= locks@.len(),
            lock_of(locks@, key) == lock_of(locks@.subrange(j as int, locks@.len() as int), key),
        decreases locks@.len() - j,
    {
        proof {
            let rest = locks@.subrange(j as int, locks@.len() as int);
            assert(rest[0] == locks@[j as int]);
            assert(rest.drop_first() =~= locks@.subrange(j + 1, locks@.len() as int));
        }
        let e = locks[j];
        if e.0.0.0 == key.0.0 && e.0.1 == key.1 && e.0.2.0 == key.2.0 {
            proof {
                assert(e.0 == key);
            }
            return Some(e.1);
        }
        proof {
            if e.0 == key {
                assert(e.0.0.0 == key.0.0 && e.0.2.0 == key.2.0);
            }
        }
        j = j + 1;
    }
    None
}

/// Whether the room is feasible at every block of the window.
fn window_room_ok(
    idx: &Indexed,
    subject: SubjectId,
    dest_tb_ids: &Vec<TimeBlockId>,
    used_room: &Vec<(u128, u128)>,
    room: RoomId,
) -> (r: bool)
    ensures
        r == (suits(idx.room_subject@, room.0, subject.0) && forall|k: int|
            0 <= k < dest_tb_ids@.len() ==> !idx.room_blocked@.contains((room.0, (#[trigger] dest_tb_ids@[k]).0))
                && !used_room@.contains((room.0, dest_tb_ids@[k].0))),
{
    if !idx.room_suits_subject(room, subject) {
        return false;
    }
    let mut k: usize = 0;
    while k < dest_tb_ids.len()
        invariant
            k <= dest_tb_ids@.len(),
            forall|m: int|
                0 <= m < k ==> !idx.room_blocked@.contains((room.0, (#[trigger] dest_tb_ids@[m]).0))
                    && !used_room@.contains((room.0, dest_tb_ids@[m].0)),
        decreases dest_tb_ids@.len() - k,
    {
        let tb = dest_tb_ids[k];
        if idx.room_blocked(room, tb) {
            assert(idx.room_blocked@.contains((room.0, dest_tb_ids@[k as int].0)));
            return false;
        }
        let mut j: usize = 0;
        while j < used_room.len()
            invariant
                j <= used_room@.len(),
                k < dest_tb_ids@.len(),
                tb == dest_tb_ids@[k as int],
                forall|m: int| 0 <= m < j ==> used_room@[m] != (room.0, tb.0),
            decreases used_room@.len() - j,
        {
            if used_room[j].0 == room.0 && used_room[j].1 == tb.0 {
                assert(used_room@[j as int] == (room.0, tb.0));
                assert(used_room@.contains((room.0, dest_tb_ids@[k as int].0)));
                return false;
            }
            j = j + 1;
        }
        k = k + 1;
    }
    true
}

/// Destination room of one chain member moved to the window
/// `(dest_day, start_pos ..)`: the lock all member classes share there (or
/// none when their locks disagree or the lock is infeasible), else the
/// member's original room when feasible, else the first feasible room in
/// `room_order` (indices into the problem's rooms). `tb_by_day_pos` maps a
/// slot to its block, `locked_room` holds the same-room locks and
/// `used_room` the booked (room, block) pairs.
pub fn kempe_pick_room(
    problem: &Problem,
    idx: &Indexed,
    lesson: &Lesson,
    original_room_id: RoomId,
    dest_day: u8,
    start_pos: u8,
    tb_by_day_pos: &Vec<((u8, u8), TimeBlockId)>,
    locked_room: &Vec<((SchoolClassId, u8, SubjectId), (RoomId, u32))>,
    used_room: &Vec<(u128, u128)>,
    room_order: &[usize],
) -> (r: Option<RoomId>)
    requires
        lesson.preferred_block_size == 0 || start_pos + lesson.preferred_block_size <= 256,
        forall|k: int|
            0 <= k < lesson.preferred_block_size ==> (#[trigger] slot_table_get(
                tb_by_day_pos@,
                (dest_day, (start_pos + k) as u8),
            )) is Some,
        forall|i: int| 0 <= i < room_order@.len() ==> #[trigger] room_order@[i] < problem.rooms@.len(),
    ensures
        r == kempe_room_spec(
            *problem,
            *idx,
            *lesson,
            original_room_id,
            dest_day,
            start_pos,
            tb_by_day_pos@,
            locked_room@,
            used_room@,
            room_order@,
        ),
        r matches Some(room) ==> suits(idx.room_subject@, room.0, lesson.subject_id.0) && forall|k: int|
            0 <= k < lesson.preferred_block_size ==> {
                let tb = (#[trigger] slot_table_get(tb_by_day_pos@, (dest_day, (start_pos + k) as u8)))->0;
                &&& !idx.room_blocked@.contains((room.0, tb.0))
                &&& !used_room@.contains((room.0, tb.0))
            },
{
    proof {
        lemma_first_feasible_is_feasible(
            problem.rooms@,
            room_order@,
            *idx,
            lesson.subject_id,
            tb_by_day_pos@,
            used_room@,
            dest_day,
            start_pos,
            lesson.preferred_block_size,
        );
    }
    let n = lesson.preferred_block_size;
    let ghost slots = tb_by_day_pos@;
    let mut dest_tb_ids: Vec<TimeBlockId> = Vec::new();
    let mut k: u8 = 0;
    while k < n
        invariant
            k <= n,
            n == lesson.preferred_block_size,
            n == 0 || start_pos + n <= 256,
            slots == tb_by_day_pos@,
            forall|m: int| 0 <= m < n ==> (#[trigger] slot_table_get(slots, (dest_day, (start_pos + m) as u8))) is Some,
            dest_tb_ids@.len() == k,
            forall|m: int|
                0 <= m < k ==> #[trigger] dest_tb_ids@[m] == slot_table_get(slots, (dest_day, (start_pos + m) as u8))->0,
        decreases n - k,
    {
        let pos: u8 = start_pos + k;
        proof {
            assert(slot_table_get(slots, (dest_day, (start_pos + k) as u8)) is Some);
        }
        let id = lookup_slot(tb_by_day_pos, (dest_day, pos)).unwrap();
        dest_tb_ids.push(id);
        k = k + 1;
    }
    let ghost s = lesson.subject_id;
    proof {
        assert forall|room: RoomId|
            window_room_feasible(*idx, s, slots, used_room@, dest_day, start_pos, n, room) == (suits(
                idx.room_subject@,
                room.0,
                s.0,
            ) && forall|m: int|
                0 <= m < dest_tb_ids@.len() ==> !idx.room_blocked@.contains((room.0, (#[trigger] dest_tb_ids@[m]).0))
                    && !used_room@.contains((room.0, dest_tb_ids@[m].0))) by {
            let lhs = window_room_feasible(*idx, s, slots, used_room@, dest_day, start_pos, n, room);
            let rhs_all = forall|m: int|
                0 <= m < dest_tb_ids@.len() ==> !idx.room_blocked@.contains((room.0, (#[trigger] dest_tb_ids@[m]).0))
                    && !used_room@.contains((room.0, dest_tb_ids@[m].0));
            if lhs {
                assert forall|m: int| 0 <= m < dest_tb_ids@.len() implies !idx.room_blocked@.contains(
                    (room.0, (#[trigger] dest_tb_ids@[m]).0),
                ) && !used_room@.contains((room.0, dest_tb_ids@[m].0)) by {
                    assert(dest_tb_ids@[m] == slot_table_get(slots, (dest_day, (start_pos + m) as u8))->0);
                }
            }
            if suits(idx.room_subject@, room.0, s.0) && rhs_all {
                assert forall|k2: int| 0 <= k2 < n implies {
                    let tb = (#[trigger] slot_table_get(slots, (dest_day, (start_pos + k2) as u8)))->0;
                    &&& !idx.room_blocked@.contains((room.0, tb.0))
                    &&& !used_room@.contains((room.0, tb.0))
                } by {
                    assert(dest_tb_ids@[k2] == slot_table_get(slots, (dest_day, (start_pos + k2) as u8))->0);
                }
            }
        }
    }
    let cids = &lesson.school_class_ids;
    let mut shared: Option<RoomId> = None;
    let mut i: usize = 0;
    while i < cids.len()
        invariant
            i <= cids@.len(),
            cids == &lesson.school_class_ids,
            shared_lock(locked_room@, cids@.take(i as int), dest_day, lesson.subject_id) == Some(shared),
        decreases cids@.len() - i,
    {
        let class = cids[i];
        proof {
            assert(cids@.take(i + 1).drop_last() =~= cids@.take(i as int));
            assert(cids@.take(i + 1).last() == class);
        }
        match lookup_lock(locked_room, (class, dest_day, lesson.subject_id)) {
            None => {},
            Some(entry) => {
                match shared {
                    None => shared = Some(entry.0),
                    Some(prev) => {
                        if prev.0 != entry.0.0 {
                            proof {
                                assert(prev != entry.0);
                                let t = cids@.take(i + 1);
                                assert(shared_lock(locked_room@, t, dest_day, lesson.subject_id) is None);
                                assert forall|j: int| i + 1 <= j <= cids@.len() implies #[trigger] shared_lock(
                                    locked_room@,
                                    cids@.take(j),
                                    dest_day,
                                    lesson.subject_id,
                                ) is None by {
                                    lemma_shared_lock_stays_none(locked_room@, cids@, dest_day, lesson.subject_id, i + 1, j);
                                }
                                assert(cids@.take(cids@.len() as int) =~= cids@);
                            }
                            return None;
                        }
                    },
                }
            },
        }
        i = i + 1;
    }
    proof {
        assert(cids@.take(i as int) =~= cids@);
    }
    if let Some(locked) = shared {
        return if window_room_ok(idx, lesson.subject_id, &dest_tb_ids, used_room, locked) {
            Some(locked)
        } else {
            None
        };
    }
    if window_room_ok(idx, lesson.subject_id, &dest_tb_ids, used_room, original_room_id) {
        return Some(original_room_id);
    }
    let mut j: usize = 0;
    proof {
        assert(room_order@.subrange(0, room_order@.len() as int) =~= room_order@);
    }
    while j < room_order.len()
        invariant
            j <= room_order@.len(),
            forall|q: int| 0 <= q < room_order@.len() ==> #[trigger] room_order@[q] < problem.rooms@.len(),
            forall|room: RoomId|
                window_room_feasible(*idx, s, slots, used_room@, dest_day, start_pos, n, room) == (suits(
                    idx.room_subject@,
                    room.0,
                    s.0,
                ) && forall|m: int|
                    0 <= m < dest_tb_ids@.len() ==> !idx.room_blocked@.contains(
                        (room.0, (#[trigger] dest_tb_ids@[m]).0),
                    ) && !used_room@.contains((room.0, dest_tb_ids@[m].0))),
            s == lesson.subject_id,
            n == lesson.preferred_block_size,
            slots == tb_by_day_pos@,
            shared_lock(locked_room@, lesson.school_class_ids@, dest_day, lesson.subject_id) == Some(None::<RoomId>),
            !window_room_feasible(*idx, s, slots, used_room@, dest_day, start_pos, n, original_room_id),
            first_feasible_in_order(problem.rooms@, room_order@, *idx, s, slots, used_room@, dest_day, start_pos, n)
                == first_feasible_in_order(
                problem.rooms@,
                room_order@.subrange(j as int, room_order@.len() as int),
                *idx,
                s,
                slots,
                used_room@,
                dest_day,
                start_pos,
                n,
            ),
        decreases room_order@.len() - j,
    {
        let candidate = problem.rooms[room_order[j]].id;
        proof {
            let rest = room_order@.subrange(j as int, room_order@.len() as int);
            assert(rest[0] == room_order@[j as int]);
            assert(rest.drop_first() =~= room_order@.subrange(j + 1, room_order@.len() as int));
        }
        let ok = window_room_ok(idx, lesson.subject_id, &dest_tb_ids, used_room, candidate);
        proof {
            let rest = room_order@.subrange(j as int, room_order@.len() as int);
            assert(problem.rooms@[rest[0] as int].id == candidate);
            assert(ok == window_room_feasible(*idx, s, slots, used_room@, dest_day, start_pos, n, candidate));
        }
        if ok {
            return Some(candidate);
        }
        j = j + 1;
    }
    None
}

proof fn lemma_shared_lock_stays_none(
    locks: Seq<((SchoolClassId, u8, SubjectId), (RoomId, u32))>,
    cids: Seq<SchoolClassId>,
    day: u8,
    subject: SubjectId,
    i: int,
    j: int,
)
    requires
        0 <= i <= j <= cids.len(),
        shared_lock(locks, cids.take(i), day, subject) is None,
    ensures
        shared_lock(locks, cids.take(j), day, subject) is None,
    decreases j - i,
{
    if j > i {
        lemma_shared_lock_stays_none(locks, cids, day, subject, i, j - 1);
        assert(cids.take(j).drop_last() =~= cids.take(j - 1));
    }
}

/// Pre-move gap counts of every (class, day) and (teacher, day) partition a
/// Kempe chain touches; each key occurs once.
pub struct KempePartitionSnapshot {
    /// `((class, day), gap count)` entries.
    pub class_pre: Vec<((u128, u8), u32)>,
    /// `((teacher, day), gap count)` entries.
    pub teacher_pre: Vec<((u128, u8), u32)>,
}

/// The chain member's lesson, resolved by identifier.
pub open spec fn member_lesson(lessons: Seq<Lesson>, member: (LessonId, u8)) -> Lesson {
    lessons[lesson_index(lessons, member.0)]
}

/// Day `d` holds a placement of lesson `lid` whose block resolves.
pub open spec fn is_source_day(tbs: Seq<TimeBlock>, placements: Seq<Placement>, lid: LessonId, d: u8) -> bool {
    exists|i: int|
        0 <= i < placements.len() && (#[trigger] placements[i]).lesson_id == lid && tb_index(tbs, placements[i].time_block_id)
            >= 0 && tbs[tb_index(tbs, placements[i].time_block_id)].day_of_week == d
}

/// The chain touches partition `(class, d)`: some member's lesson has the
/// class, and `d` is the member's destination day or a day it occupies.
pub open spec fn touches_class(
    chain: Seq<(LessonId, u8)>,
    lessons: Seq<Lesson>,
    tbs: Seq<TimeBlock>,
    placements: Seq<Placement>,
    key: (u128, u8),
) -> bool {
    exists|m: int|
        0 <= m < chain.len() && member_lesson(lessons, #[trigger] chain[m]).school_class_ids@.contains(
            SchoolClassId(key.0),
        ) && (key.1 == chain[m].1 || is_source_day(tbs, placements, chain[m].0, key.1))
}

/// The teacher a member's lesson runs under.
pub open spec fn member_teacher(
    locks: Seq<((SchoolClassId, SubjectId), TeacherId)>,
    lessons: Seq<Lesson>,
    member: (LessonId, u8),
) -> TeacherId {
    let l = member_lesson(lessons, member);
    match first_lock(locks, l.school_class_ids@, l.subject_id) {
        Some(t) => t,
        None => assigned_teacher_spec(l),
    }
}

/// The chain touches partition `(teacher, d)`: some member runs under the
/// teacher, and `d` is its destination day or a day it occupies.
pub open spec fn touches_teacher(
    chain: Seq<(LessonId, u8)>,
    lessons: Seq<Lesson>,
    tbs: Seq<TimeBlock>,
    placements: Seq<Placement>,
    locks: Seq<((SchoolClassId, SubjectId), TeacherId)>,
    key: (u128, u8),
) -> bool {
    exists|m: int|
        0 <= m < chain.len() && member_teacher(locks, lessons, #[trigger] chain[m]).0 == key.0 && (key.1 == chain[m].1
            || is_source_day(tbs, placements, chain[m].0, key.1))
}

/// Some entry of `entries` has key `key`.
pub open spec fn has_entry(entries: Seq<((u128, u8), u32)>, key: (u128, u8)) -> bool {
    exists|k: int| 0 <= k < entries.len() && (#[trigger] entries[k]).0 == key
}

/// `entries` holds each key of `touched` once, with the gap count of its
/// partition in `p`.
pub open spec fn snapshot_of(entries: Seq<((u128, u8), u32)>, p: Partition, touched: spec_fn((u128, u8)) -> bool) -> bool {
    &&& forall|a: int, b: int| 0 <= a < b < entries.len() ==> (#[trigger] entries[a]).0 != (#[trigger] entries[b]).0
    &&& forall|k: int| 0 <= k < entries.len() ==> (#[trigger] entries[k]).1 == gap_spec(p.lookup(entries[k].0))
    &&& forall|k: int| 0 <= k < entries.len() ==> touched((#[trigger] entries[k]).0)
    &&& forall|key: (u128, u8)| #[trigger] touched(key) ==> has_entry(entries, key)
}

/// Record `key`'s gap count in `p` unless the key is already recorded.
fn snapshot_add(entries: &mut Vec<((u128, u8), u32)>, p: &Partition, key: (u128, u8))
    requires
        p.wf(),
        forall|a: int, b: int| 0 <= a < b < old(entries)@.len() ==> (#[trigger] old(entries)@[a]).0 != (#[trigger] old(entries)@[b]).0,
        forall|k: int| 0 <= k < old(entries)@.len() ==> (#[trigger] old(entries)@[k]).1 == gap_spec(p.lookup(old(entries)@[k].0)),
    ensures
        forall|a: int, b: int| 0 <= a < b < final(entries)@.len() ==> (#[trigger] final(entries)@[a]).0 != (#[trigger] final(entries)@[b]).0,
        forall|k: int| 0 <= k < final(entries)@.len() ==> (#[trigger] final(entries)@[k]).1 == gap_spec(p.lookup(final(entries)@[k].0)),
        forall|k2: (u128, u8)| #[trigger] has_entry(final(entries)@, k2) <==> (k2 == key || has_entry(old(entries)@, k2)),
{
    let mut j: usize = 0;
    while j < entries.len()
        invariant
            j <= entries@.len(),
            entries@ == old(entries)@,
            p.wf(),
            forall|a: int, b: int| 0 <= a < b < entries@.len() ==> (#[trigger] entries@[a]).0 != (#[trigger] entries@[b]).0,
            forall|k: int| 0 <= k < entries@.len() ==> (#[trigger] entries@[k]).1 == gap_spec(p.lookup(entries@[k].0)),
            forall|m: int| 0 <= m < j ==> (#[trigger] entries@[m]).0 != key,
        decreases entries@.len() - j,
    {
        if entries[j].0.0 == key.0 && entries[j].0.1 == key.1 {
            proof {
                assert(entries@[j as int].0 == key);
                assert(has_entry(entries@, key));
            }
            return;
        }
        j = j + 1;
    }
    proof {
        crate::partition::lemma_lookup_in_entries(p.entries@, key);
        let s = p.lookup(key);
        if s.len() >= 1 {
            let q = choose|q: int| 0 <= q < p.entries@.len() && p.entries@[q].positions@ == s;
            lemma_sorted_span(s);
        }
    }
    let g: u32 = match p.get(key.0, key.1) {
        Some(v) => gap_count(v.as_slice()),
        None => 0,
    };
    let ghost before = entries@;
    entries.push((key, g));
    proof {
        assert forall|k2: (u128, u8)| #[trigger] has_entry(entries@, k2) <==> (k2 == key || has_entry(before, k2)) by {
            if has_entry(entries@, k2) {
                let k = choose|k: int| 0 <= k < entries@.len() && (#[trigger] entries@[k]).0 == k2;
                if k < before.len() {
                    assert(before[k] == entries@[k]);
                }
            }
            if k2 == key {
                assert(entries@[before.len() as int].0 == k2);
            }
            if has_entry(before, k2) {
                let k = choose|k: int| 0 <= k < before.len() && (#[trigger] before[k]).0 == k2;
                assert(entries@[k] == before[k]);
            }
        }
    }
}

/// Placement `q` of `ps` belongs to lesson `lid` and its block, which
/// resolves, lies on day `d`.
pub open spec fn places_on(tbs: Seq<TimeBlock>, ps: Seq<Placement>, lid: LessonId, q: int, d: u8) -> bool {
    &&& ps[q].lesson_id == lid
    &&& tb_index(tbs, ps[q].time_block_id) >= 0
    &&& tbs[tb_index(tbs, ps[q].time_block_id)].day_of_week == d
}

/// The destination day of a chain member and every day its lesson
/// occupies.
fn member_days(tbs: &Vec<TimeBlock>, placements: &[Placement], lid: LessonId, dest: u8) -> (days: Vec<u8>)
    ensures
        forall|d: u8| days@.contains(d) <==> (d == dest || is_source_day(tbs@, placements@, lid, d)),
{
    let mut days: Vec<u8> = Vec::new();
    days.push(dest);
    proof {
        assert forall|d: u8| days@.contains(d) <==> d == dest by {
            if d == dest {
                assert(days@[0] == dest);
            }
        }
    }
    let mut i: usize = 0;
    while i < placements.len()
        invariant
            i <= placements@.len(),
            forall|d: u8|
                days@.contains(d) <==> (d == dest || exists|q: int|
                    0 <= q < i && #[trigger] places_on(tbs@, placements@, lid, q, d)),
        decreases placements@.len() - i,
    {
        let p = placements[i];
        let ghost before = days@;
        let mut added: Option<u8> = None;
        if p.lesson_id.0 == lesson_id_value(lid) {
            if let Some(ti) = find_tb(tbs, p.time_block_id) {
                let d = tbs[ti].day_of_week;
                days.push(d);
                added = Some(d);
                proof {
                    assert(p.lesson_id == lid);
                    assert(places_on(tbs@, placements@, lid, i as int, d));
                }
            }
        }
        proof {
            assert forall|d2: u8| days@.contains(d2) <==> (before.contains(d2) || added == Some(d2)) by {
                if days@.contains(d2) {
                    let k = choose|k: int| 0 <= k < days@.len() && days@[k] == d2;
                    if k < before.len() {
                        assert(before[k] == d2);
                    }
                }
                if before.contains(d2) {
                    let k = choose|k: int| 0 <= k < before.len() && before[k] == d2;
                    assert(days@[k] == d2);
                }
                if added == Some(d2) {
                    assert(days@[before.len() as int] == d2);
                }
            }
            assert forall|d: u8|
                (exists|q: int| 0 <= q < i + 1 && #[trigger] places_on(tbs@, placements@, lid, q, d)) <==> ((exists|q: int|
                    0 <= q < i && #[trigger] places_on(tbs@, placements@, lid, q, d)) || added == Some(d)) by {
                if exists|q: int| 0 <= q < i + 1 && #[trigger] places_on(tbs@, placements@, lid, q, d) {
                    let q = choose|q: int| 0 <= q < i + 1 && #[trigger] places_on(tbs@, placements@, lid, q, d);
                    if q == i {
                        assert(p.lesson_id.0 == lid.0);
                    }
                }
            }
            assert forall|d: u8|
                days@.contains(d) <==> (d == dest || exists|q: int|
                    0 <= q < i + 1 && #[trigger] places_on(tbs@, placements@, lid, q, d)) by {
                assert(before.contains(d) <==> (d == dest || exists|q: int|
                    0 <= q < i && #[trigger] places_on(tbs@, placements@, lid, q, d)));
            }
        }
        i = i + 1;
    }
    proof {
        assert forall|d: u8|
            (exists|q: int| 0 <= q < i && #[trigger] places_on(tbs@, placements@, lid, q, d)) <==> is_source_day(
                tbs@,
                placements@,
                lid,
                d,
            ) by {
            if is_source_day(tbs@, placements@, lid, d) {
                let q = choose|q: int|
                    0 <= q < placements@.len() && (#[trigger] placements@[q]).lesson_id == lid && tb_index(
                        tbs@,
                        placements@[q].time_block_id,
                    ) >= 0 && tbs@[tb_index(tbs@, placements@[q].time_block_id)].day_of_week == d;
                assert(places_on(tbs@, placements@, lid, q, d));
            }
        }
    }
    days
}

/// The numeric value of a lesson identifier.
fn lesson_id_value(lid: LessonId) -> (v: u128)
    ensures
        v == lid.0,
{
    lid.0
}

/// Record the partitions of every `(class, day)` and `(teacher, day)` with
/// a day of `days`.
fn add_member_keys(
    class_entries: &mut Vec<((u128, u8), u32)>,
    teacher_entries: &mut Vec<((u128, u8), u32)>,
    class_positions: &Partition,
    teacher_positions: &Partition,
    classes: &Vec<SchoolClassId>,
    teacher: TeacherId,
    days: &Vec<u8>,
)
    requires
        class_positions.wf(),
        teacher_positions.wf(),
        forall|a: int, b: int|
            0 <= a < b < old(class_entries)@.len() ==> (#[trigger] old(class_entries)@[a]).0 != (#[trigger] old(class_entries)@[b]).0,
        forall|k: int|
            0 <= k < old(class_entries)@.len() ==> (#[trigger] old(class_entries)@[k]).1 == gap_spec(
                class_positions.lookup(old(class_entries)@[k].0),
            ),
        forall|a: int, b: int|
            0 <= a < b < old(teacher_entries)@.len() ==> (#[trigger] old(teacher_entries)@[a]).0 != (
            #[trigger] old(teacher_entries)@[b]).0,
        forall|k: int|
            0 <= k < old(teacher_entries)@.len() ==> (#[trigger] old(teacher_entries)@[k]).1 == gap_spec(
                teacher_positions.lookup(old(teacher_entries)@[k].0),
            ),
    ensures
        forall|a: int, b: int|
            0 <= a < b < final(class_entries)@.len() ==> (#[trigger] final(class_entries)@[a]).0 != (
            #[trigger] final(class_entries)@[b]).0,
        forall|k: int|
            0 <= k < final(class_entries)@.len() ==> (#[trigger] final(class_entries)@[k]).1 == gap_spec(
                class_positions.lookup(final(class_entries)@[k].0),
            ),
        forall|a: int, b: int|
            0 <= a < b < final(teacher_entries)@.len() ==> (#[trigger] final(teacher_entries)@[a]).0 != (
            #[trigger] final(teacher_entries)@[b]).0,
        forall|k: int|
            0 <= k < final(teacher_entries)@.len() ==> (#[trigger] final(teacher_entries)@[k]).1 == gap_spec(
                teacher_positions.lookup(final(teacher_entries)@[k].0),
            ),
        forall|key: (u128, u8)|
            #[trigger] has_entry(final(class_entries)@, key) <==> (has_entry(old(class_entries)@, key) || (
            classes@.contains(SchoolClassId(key.0)) && days@.contains(key.1))),
        forall|key: (u128, u8)|
            #[trigger] has_entry(final(teacher_entries)@, key) <==> (has_entry(old(teacher_entries)@, key) || (key.0
                == teacher.0 && days@.contains(key.1))),
{
    let ghost c0 = class_entries@;
    let ghost t0 = teacher_entries@;
    let mut i: usize = 0;
    while i < days.len()
        invariant
            i <= days@.len(),
            class_positions.wf(),
            teacher_positions.wf(),
            forall|a: int, b: int|
                0 <= a < b < class_entries@.len() ==> (#[trigger] class_entries@[a]).0 != (#[trigger] class_entries@[b]).0,
            forall|k: int|
                0 <= k < class_entries@.len() ==> (#[trigger] class_entries@[k]).1 == gap_spec(
                    class_positions.lookup(class_entries@[k].0),
                ),
            forall|a: int, b: int|
                0 <= a < b < teacher_entries@.len() ==> (#[trigger] teacher_entries@[a]).0 != (
                #[trigger] teacher_entries@[b]).0,
            forall|k: int|
                0 <= k < teacher_entries@.len() ==> (#[trigger] teacher_entries@[k]).1 == gap_spec(
                    teacher_positions.lookup(teacher_entries@[k].0),
                ),
            forall|key: (u128, u8)|
                #[trigger] has_entry(class_entries@, key) <==> (has_entry(c0, key) || (classes@.contains(
                    SchoolClassId(key.0),
                ) && days@.take(i as int).contains(key.1))),
            forall|key: (u128, u8)|
                #[trigger] has_entry(teacher_entries@, key) <==> (has_entry(t0, key) || (key.0 == teacher.0
                    && days@.take(i as int).contains(key.1))),
        decreases days@.len() - i,
    {
        let d = days[i];
        let ghost cb = class_entries@;
        let mut j: usize = 0;
        while j < classes.len()
            invariant
                j <= classes@.len(),
                class_positions.wf(),
                forall|a: int, b: int|
                    0 <= a < b < class_entries@.len() ==> (#[trigger] class_entries@[a]).0 != (
                    #[trigger] class_entries@[b]).0,
                forall|k: int|
                    0 <= k < class_entries@.len() ==> (#[trigger] class_entries@[k]).1 == gap_spec(
                        class_positions.lookup(class_entries@[k].0),
                    ),
                forall|key: (u128, u8)|
                    #[trigger] has_entry(class_entries@, key) <==> (has_entry(cb, key) || (classes@.take(
                        j as int,
                    ).contains(SchoolClassId(key.0)) && key.1 == d)),
            decreases classes@.len() - j,
        {
            let c = classes[j];
            let ghost ce = class_entries@;
            snapshot_add(class_entries, class_positions, (c.0, d));
            proof {
                assert forall|key: (u128, u8)|
                    #[trigger] has_entry(class_entries@, key) <==> (has_entry(cb, key) || (classes@.take(
                        j + 1,
                    ).contains(SchoolClassId(key.0)) && key.1 == d)) by {
                    let t = classes@.take(j as int);
                    let t1 = classes@.take(j + 1);
                    assert(t1 =~= t.push(c));
                    if t1.contains(SchoolClassId(key.0)) {
                        let q = choose|q: int| 0 <= q < t1.len() && t1[q] == SchoolClassId(key.0);
                        if q < t.len() {
                            assert(t[q] == SchoolClassId(key.0));
                        } else {
                            assert(c == SchoolClassId(key.0));
                        }
                    }
                    if t.contains(SchoolClassId(key.0)) {
                        let q = choose|q: int| 0 <= q < t.len() && t[q] == SchoolClassId(key.0);
                        assert(t1[q] == SchoolClassId(key.0));
                    }
                    if key == (c.0, d) {
                        assert(t1[j as int] == c);
                        assert(SchoolClassId(key.0) == c);
                    }
                }
            }
            j = j + 1;
        }
        snapshot_add(teacher_entries, teacher_positions, (teacher.0, d));
        proof {
            assert(classes@.take(j as int) =~= classes@);
            let t = days@.take(i as int);
            let t1 = days@.take(i + 1);
            assert(t1 =~= t.push(d));
            assert forall|x: u8| t1.contains(x) <==> (t.contains(x) || x == d) by {
                if t1.contains(x) {
                    let q = choose|q: int| 0 <= q < t1.len() && t1[q] == x;
                    if q < t.len() {
                        assert(t[q] == x);
                    }
                }
                if t.contains(x) {
                    let q = choose|q: int| 0 <= q < t.len() && t[q] == x;
                    assert(t1[q] == x);
                }
                if x == d {
                    assert(t1[i as int] == d);
                }
            }
        }
        i = i + 1;
    }
    proof {
        assert(days@.take(i as int) =~= days@);
    }
}

/// Snapshot the gap counts of every (class, day) and (teacher, day)
/// partition a Kempe chain touches: for each member `(lesson, dest_day)`,
/// its lesson's classes and teacher on the destination day and on every day
/// the lesson occupies. `class_subject_teacher` is the lock table the
/// teacher is read from.
pub fn kempe_snapshot_pre_score(
    chain_members: &[(LessonId, u8)],
    lessons: &Vec<Lesson>,
    tbs: &Vec<TimeBlock>,
    placements: &[Placement],
    class_subject_teacher: &Vec<((SchoolClassId, SubjectId), TeacherId)>,
    class_positions: &Partition,
    teacher_positions: &Partition,
) -> (snap: KempePartitionSnapshot)
    requires
        class_positions.wf(),
        teacher_positions.wf(),
        forall|m: int|
            0 <= m < chain_members@.len() ==> lesson_index(lessons@, (#[trigger] chain_members@[m]).0) >= 0,
        forall|m: int|
            0 <= m < chain_members@.len() && first_lock(
                class_subject_teacher@,
                member_lesson(lessons@, #[trigger] chain_members@[m]).school_class_ids@,
                member_lesson(lessons@, chain_members@[m]).subject_id,
            ) is None ==> has_assigned_teacher(member_lesson(lessons@, chain_members@[m])),
    ensures
        snapshot_of(
            snap.class_pre@,
            *class_positions,
            |key: (u128, u8)| touches_class(chain_members@, lessons@, tbs@, placements@, key),
        ),
        snapshot_of(
            snap.teacher_pre@,
            *teacher_positions,
            |key: (u128, u8)|
                touches_teacher(chain_members@, lessons@, tbs@, placements@, class_subject_teacher@, key),
        ),
{
    let ghost chain = chain_members@;
    let ghost ls = lessons@;
    let ghost ts = tbs@;
    let ghost ps = placements@;
    let ghost locks = class_subject_teacher@;
    let mut class_pre: Vec<((u128, u8), u32)> = Vec::new();
    let mut teacher_pre: Vec<((u128, u8), u32)> = Vec::new();
    let mut i: usize = 0;
    while i < chain_members.len()
        invariant
            i <= chain.len(),
            chain == chain_members@,
            ls == lessons@,
            ts == tbs@,
            ps == placements@,
            locks == class_subject_teacher@,
            class_positions.wf(),
            teacher_positions.wf(),
            forall|m: int| 0 <= m < chain.len() ==> lesson_index(ls, (#[trigger] chain[m]).0) >= 0,
            forall|m: int|
                0 <= m < chain.len() && first_lock(
                    locks,
                    member_lesson(ls, #[trigger] chain[m]).school_class_ids@,
                    member_lesson(ls, chain[m]).subject_id,
                ) is None ==> has_assigned_teacher(member_lesson(ls, chain[m])),
            forall|a: int, b: int| 0 <= a < b < class_pre@.len() ==> (#[trigger] class_pre@[a]).0 != (#[trigger] class_pre@[b]).0,
            forall|k: int| 0 <= k < class_pre@.len() ==> (#[trigger] class_pre@[k]).1 == gap_spec(class_positions.lookup(class_pre@[k].0)),
            forall|a: int, b: int|
                0 <= a < b < teacher_pre@.len() ==> (#[trigger] teacher_pre@[a]).0 != (#[trigger] teacher_pre@[b]).0,
            forall|k: int|
                0 <= k < teacher_pre@.len() ==> (#[trigger] teacher_pre@[k]).1 == gap_spec(teacher_positions.lookup(teacher_pre@[k].0)),
            forall|key: (u128, u8)| #[trigger] has_entry(class_pre@, key) <==> touches_class(chain.take(i as int), ls, ts, ps, key),
            forall|key: (u128, u8)|
                #[trigger] has_entry(teacher_pre@, key) <==> touches_teacher(chain.take(i as int), ls, ts, ps, locks, key),
        decreases chain.len() - i,
    {
        let member = chain_members[i];
        let li = find_lesson(lessons, member.0);
        proof {
            assert(lesson_index(ls, chain[i as int].0) >= 0);
        }
        let li = li.unwrap();
        let lesson = &lessons[li];
        proof {
            assert(*lesson == member_lesson(ls, member));
        }
        let teacher = lesson_teacher_in_state(class_subject_teacher, lesson);
        let days = member_days(tbs, placements, member.0, member.1);
        let ghost c_before = class_pre@;
        let ghost t_before = teacher_pre@;
        add_member_keys(
            &mut class_pre,
            &mut teacher_pre,
            class_positions,
            teacher_positions,
            &lesson.school_class_ids,
            teacher,
            &days,
        );
        proof {
            let t = chain.take(i as int);
            let t1 = chain.take(i + 1);
            assert(t1 =~= t.push(member));
            assert(teacher == member_teacher(locks, ls, member));
            assert forall|key: (u128, u8)| #[trigger] has_entry(class_pre@, key) <==> touches_class(t1, ls, ts, ps, key) by {
                if touches_class(t1, ls, ts, ps, key) {
                    let m = choose|m: int|
                        0 <= m < t1.len() && member_lesson(ls, #[trigger] t1[m]).school_class_ids@.contains(
                            SchoolClassId(key.0),
                        ) && (key.1 == t1[m].1 || is_source_day(ts, ps, t1[m].0, key.1));
                    if m < t.len() {
                        assert(t[m] == t1[m]);
                        assert(touches_class(t, ls, ts, ps, key));
                    } else {
                        assert(t1[m] == member);
                        assert(days@.contains(key.1));
                    }
                }
                if touches_class(t, ls, ts, ps, key) {
                    let m = choose|m: int|
                        0 <= m < t.len() && member_lesson(ls, #[trigger] t[m]).school_class_ids@.contains(
                            SchoolClassId(key.0),
                        ) && (key.1 == t[m].1 || is_source_day(ts, ps, t[m].0, key.1));
                    assert(t1[m] == t[m]);
                }
                if lesson.school_class_ids@.contains(SchoolClassId(key.0)) && days@.contains(key.1) {
                    assert(t1[i as int] == member);
                }
            }
            assert forall|key: (u128, u8)|
                #[trigger] has_entry(teacher_pre@, key) <==> touches_teacher(t1, ls, ts, ps, locks, key) by {
                if touches_teacher(t1, ls, ts, ps, locks, key) {
                    let m = choose|m: int|
                        0 <= m < t1.len() && member_teacher(locks, ls, #[trigger] t1[m]).0 == key.0 && (key.1
                            == t1[m].1 || is_source_day(ts, ps, t1[m].0, key.1));
                    if m < t.len() {
                        assert(t[m] == t1[m]);
                        assert(touches_teacher(t, ls, ts, ps, locks, key));
                    } else {
                        assert(t1[m] == member);
                        assert(days@.contains(key.1));
                    }
                }
                if touches_teacher(t, ls, ts, ps, locks, key) {
                    let m = choose|m: int|
                        0 <= m < t.len() && member_teacher(locks, ls, #[trigger] t[m]).0 == key.0 && (key.1 == t[m].1
                            || is_source_day(ts, ps, t[m].0, key.1));
                    assert(t1[m] == t[m]);
                }
                if key.0 == teacher.0 && days@.contains(key.1) {
                    assert(t1[i as int] == member);
                }
            }
        }
        i = i + 1;
    }
    proof {
        assert(chain.take(i as int) =~= chain);
        assert forall|k: int| 0 <= k < class_pre@.len() implies touches_class(chain, ls, ts, ps, (#[trigger] class_pre@[k]).0) by {
            assert(has_entry(class_pre@, class_pre@[k].0));
        }
        assert forall|k: int| 0 <= k < teacher_pre@.len() implies touches_teacher(
            chain,
            ls,
            ts,
            ps,
            locks,
            (#[trigger] teacher_pre@[k]).0,
        ) by {
            assert(has_entry(teacher_pre@, teacher_pre@[k].0));
        }
    }
    KempePartitionSnapshot { class_pre, teacher_pre }
}

/// Sum over snapshot entries of the partition's gap count now minus the
/// recorded one.
pub open spec fn entries_delta(entries: Seq<((u128, u8), u32)>, p: Partition) -> int
    decreases entries.len(),
{
    if entries.len() == 0 {
        0
    } else {
        entries_delta(entries.drop_last(), p) + gap_spec(p.lookup(entries.last().0)) - entries.last().1
    }
}

/// Every partial sum of `entries_delta` fits in an `i64`.
pub open spec fn delta_sums_fit(entries: Seq<((u128, u8), u32)>, p: Partition) -> bool {
    forall|k: int| 0 <= k <= entries.len() ==> i64::MIN <= #[trigger] entries_delta(entries.take(k), p) <= i64::MAX
}

/// Weighted class plus teacher gap delta against a snapshot.
pub open spec fn post_delta_spec(
    snapshot: KempePartitionSnapshot,
    class_positions: Partition,
    teacher_positions: Partition,
    w: ConstraintWeights,
) -> int {
    w.class_gap * entries_delta(snapshot.class_pre@, class_positions) + w.teacher_gap * entries_delta(
        snapshot.teacher_pre@,
        teacher_positions,
    )
}

/// The signed gap change of the snapshot's partitions since the snapshot.
fn snapshot_delta(entries: &Vec<((u128, u8), u32)>, p: &Partition) -> (d: i64)
    requires
        p.wf(),
        delta_sums_fit(entries@, *p),
    ensures
        d == entries_delta(entries@, *p),
{
    let mut d: i64 = 0;
    let mut k: usize = 0;
    while k < entries.len()
        invariant
            k <= entries@.len(),
            p.wf(),
            delta_sums_fit(entries@, *p),
            d == entries_delta(entries@.take(k as int), *p),
        decreases entries@.len() - k,
    {
        let e = entries[k];
        proof {
            assert(entries@.take(k + 1).drop_last() =~= entries@.take(k as int));
            assert(entries@.take(k + 1).last() == e);
            assert(i64::MIN <= entries_delta(entries@.take(k + 1), *p) <= i64::MAX);
            crate::partition::lemma_lookup_in_entries(p.entries@, e.0);
            let s = p.lookup(e.0);
            if s.len() >= 1 {
                let q = choose|q: int| 0 <= q < p.entries@.len() && p.entries@[q].positions@ == s;
                lemma_sorted_span(s);
            }
        }
        let post: u32 = match p.get(e.0.0, e.0.1) {
            Some(v) => gap_count(v.as_slice()),
            None => 0,
        };
        d = d + (post as i64 - e.1 as i64);
        k = k + 1;
    }
    proof {
        assert(entries@.take(k as int) =~= entries@);
    }
    d
}

/// Post-move gap delta of every partition a Kempe chain touched: the
/// class-gap weight times the class partitions' change plus the
/// teacher-gap weight times the teacher partitions' change, each change
/// being the current gap count minus the snapshot's.
pub fn kempe_post_score_delta(
    snapshot: &KempePartitionSnapshot,
    class_positions: &Partition,
    teacher_positions: &Partition,
    weights: &ConstraintWeights,
) -> (d: i64)
    requires
        class_positions.wf(),
        teacher_positions.wf(),
        delta_sums_fit(snapshot.class_pre@, *class_positions),
        delta_sums_fit(snapshot.teacher_pre@, *teacher_positions),
        i64::MIN <= weights.class_gap * entries_delta(snapshot.class_pre@, *class_positions) <= i64::MAX,
        i64::MIN <= weights.teacher_gap * entries_delta(snapshot.teacher_pre@, *teacher_positions) <= i64::MAX,
        i64::MIN <= post_delta_spec(*snapshot, *class_positions, *teacher_positions, *weights) <= i64::MAX,
    ensures
        d == post_delta_spec(*snapshot, *class_positions, *teacher_positions, *weights),
{
    let class_delta = snapshot_delta(&snapshot.class_pre, class_positions);
    let teacher_delta = snapshot_delta(&snapshot.teacher_pre, teacher_positions);
    proof {
        assert(snapshot.class_pre@.take(snapshot.class_pre@.len() as int) =~= snapshot.class_pre@);
    }
    (weights.class_gap as i64) * class_delta + (weights.teacher_gap as i64) * teacher_delta
}

proof fn lemma_entries_delta_unchanged(entries: Seq<((u128, u8), u32)>, p: Partition)
    requires
        forall|k: int| 0 <= k < entries.len() ==> (#[trigger] entries[k]).1 == gap_spec(p.lookup(entries[k].0)),
    ensures
        entries_delta(entries, p) == 0,
    decreases entries.len(),
{
    if entries.len() > 0 {
        let t = entries.drop_last();
        assert forall|k: int| 0 <= k < t.len() implies (#[trigger] t[k]).1 == gap_spec(p.lookup(t[k].0)) by {
            assert(t[k] == entries[k]);
        }
        lemma_entries_delta_unchanged(t, p);
        assert(entries[entries.len() - 1] == entries.last());
    }
}

/// A snapshot read back against the partitions it was taken from gives no
/// delta: nothing moved, nothing changed.
pub proof fn lemma_post_delta_zero_without_move(
    snapshot: KempePartitionSnapshot,
    class_positions: Partition,
    teacher_positions: Partition,
    w: ConstraintWeights,
    class_touched: spec_fn((u128, u8)) -> bool,
    teacher_touched: spec_fn((u128, u8)) -> bool,
)
    requires
        snapshot_of(snapshot.class_pre@, class_positions, class_touched),
        snapshot_of(snapshot.teacher_pre@, teacher_positions, teacher_touched),
    ensures
        post_delta_spec(snapshot, class_positions, teacher_positions, w) == 0,
{
    lemma_entries_delta_unchanged(snapshot.class_pre@, class_positions);
    lemma_entries_delta_unchanged(snapshot.teacher_pre@, teacher_positions);
    assert(w.class_gap * 0 == 0);
    assert(w.teacher_gap * 0 == 0);
}

} // verus!
