//! First Fit Decreasing lesson ordering.
//!
//! `ffd_order` returns a permutation of the lesson indices in placement
//! order. Lessons are sorted by their teacher-candidate count, then by a
//! same-room-aware eligibility metric (lower = more constrained = placed
//! first), then by lesson id, then by input index. The metric counts the
//! (day, room) pairs where at least `preferred_block_size` consecutive
//! teacher-unblocked, room-unblocked lesson blocks exist on the day for a
//! room that suits the lesson's subject, and the subset of those pairs whose
//! room is a home room of one of the lesson's classes.

use vstd::prelude::*;

use crate::arith::sat;
use crate::index::{suits, Indexed};
use crate::types::{
    assigned_teacher_spec, has_assigned_teacher, Lesson, Problem, Room, RoomId, SchoolClass, SchoolClassId,
    TimeBlock, TimeBlockKind,
};

verus! {

/// A block that can host a lesson (not a break).
pub open spec fn is_lesson_block(tb: TimeBlock) -> bool {
    tb.kind == TimeBlockKind::Lesson
}

/// Insert `tb` into `s` before the first block at a later position: a
/// position-sorted `s` stays sorted, and blocks at equal positions keep
/// their insertion order.
pub open spec fn insert_by_position(s: Seq<TimeBlock>, tb: TimeBlock) -> Seq<TimeBlock>
    decreases s.len(),
{
    if s.len() == 0 {
        seq![tb]
    } else if tb.position < s[0].position {
        seq![tb] + s
    } else {
        seq![s[0]] + insert_by_position(s.drop_first(), tb)
    }
}

/// The lesson blocks of day `d` among `tbs`, sorted by position.
pub open spec fn day_blocks(tbs: Seq<TimeBlock>, d: u8) -> Seq<TimeBlock>
    decreases tbs.len(),
{
    if tbs.len() == 0 {
        seq![]
    } else {
        let prev = day_blocks(tbs.drop_last(), d);
        let tb = tbs.last();
        if is_lesson_block(tb) && tb.day_of_week == d {
            insert_by_position(prev, tb)
        } else {
            prev
        }
    }
}

/// The days that hold a lesson block, in order of first appearance.
pub open spec fn lesson_days(tbs: Seq<TimeBlock>) -> Seq<u8>
    decreases tbs.len(),
{
    if tbs.len() == 0 {
        seq![]
    } else {
        let prev = lesson_days(tbs.drop_last());
        let tb = tbs.last();
        if is_lesson_block(tb) && !prev.contains(tb.day_of_week) {
            prev.push(tb.day_of_week)
        } else {
            prev
        }
    }
}

/// Each lesson day with its position-sorted lesson blocks.
pub open spec fn blocks_by_day(tbs: Seq<TimeBlock>) -> Seq<(u8, Seq<TimeBlock>)> {
    lesson_days(tbs).map_values(|d: u8| (d, day_blocks(tbs, d)))
}

/// The mathematical value of a per-day block table.
pub open spec fn day_table_view(v: Seq<(u8, Vec<TimeBlock>)>) -> Seq<(u8, Seq<TimeBlock>)> {
    v.map_values(|e: (u8, Vec<TimeBlock>)| (e.0, e.1@))
}

proof fn lemma_insert_by_position_at(s: Seq<TimeBlock>, tb: TimeBlock, j: int)
    requires
        0 <= j <= s.len(),
        forall|k: int| 0 <= k < j ==> s[k].position <= tb.position,
        j < s.len() ==> s[j].position > tb.position,
    ensures
        insert_by_position(s, tb) == s.insert(j, tb),
    decreases s.len(),
{
    if s.len() == 0 {
        assert(insert_by_position(s, tb) =~= s.insert(j, tb));
    } else if tb.position < s[0].position {
        assert(j == 0);
        assert(insert_by_position(s, tb) =~= s.insert(j, tb));
    } else {
        assert(j >= 1);
        let t = s.drop_first();
        assert forall|k: int| 0 <= k < j - 1 implies t[k].position <= tb.position by {
            assert(t[k] == s[k + 1]);
        }
        lemma_insert_by_position_at(t, tb, j - 1);
        assert(insert_by_position(s, tb) =~= s.insert(j, tb));
    }
}

/// Insert `tb` into `list` before the first block at a later position.
fn insert_block(list: &mut Vec<TimeBlock>, tb: TimeBlock)
    ensures
        final(list)@ == insert_by_position(old(list)@, tb),
{
    let mut j: usize = 0;
    while j < list.len() && list[j].position <= tb.position
        invariant
            j <= list@.len(),
            forall|k: int| 0 <= k < j ==> list@[k].position <= tb.position,
        decreases list@.len() - j,
    {
        j = j + 1;
    }
    proof {
        lemma_insert_by_position_at(list@, tb, j as int);
    }
    list.insert(j, tb);
}

/// The lesson days of `tbs`, in order of first appearance.
fn collect_lesson_days(tbs: &Vec<TimeBlock>) -> (days: Vec<u8>)
    ensures
        days@ == lesson_days(tbs@),
{
    let mut days: Vec<u8> = Vec::new();
    let mut i: usize = 0;
    while i < tbs.len()
        invariant
            i <= tbs@.len(),
            days@ == lesson_days(tbs@.take(i as int)),
        decreases tbs@.len() - i,
    {
        let tb = tbs[i];
        proof {
            assert(tbs@.take(i + 1).drop_last() =~= tbs@.take(i as int));
            assert(tbs@.take(i + 1).last() == tb);
        }
        if tb.kind == TimeBlockKind::Lesson {
            let mut seen = false;
            let mut k: usize = 0;
            while k < days.len()
                invariant
                    k <= days@.len(),
                    seen == days@.take(k as int).contains(tb.day_of_week),
                decreases days@.len() - k,
            {
                proof {
                    let a = days@.take(k as int);
                    let b = days@.take(k + 1);
                    assert(b =~= a.push(days@[k as int]));
                    assert(b[k as int] == days@[k as int]);
                    if a.contains(tb.day_of_week) {
                        let j = choose|j: int| 0 <= j < a.len() && a[j] == tb.day_of_week;
                        assert(b[j] == tb.day_of_week);
                    }
                    if b.contains(tb.day_of_week) && days@[k as int] != tb.day_of_week {
                        let j = choose|j: int| 0 <= j < b.len() && b[j] == tb.day_of_week;
                        assert(a[j] == tb.day_of_week);
                    }
                }
                if days[k] == tb.day_of_week {
                    seen = true;
                }
                k = k + 1;
            }
            proof {
                assert(days@.take(k as int) =~= days@);
            }
            if !seen {
                days.push(tb.day_of_week);
            }
        }
        i = i + 1;
    }
    proof {
        assert(tbs@.take(i as int) =~= tbs@);
    }
    days
}

/// The lesson blocks of day `d`, sorted by position.
fn collect_day_blocks(tbs: &Vec<TimeBlock>, d: u8) -> (list: Vec<TimeBlock>)
    ensures
        list@ == day_blocks(tbs@, d),
{
    let mut list: Vec<TimeBlock> = Vec::new();
    let mut i: usize = 0;
    while i < tbs.len()
        invariant
            i <= tbs@.len(),
            list@ == day_blocks(tbs@.take(i as int), d),
        decreases tbs@.len() - i,
    {
        let tb = tbs[i];
        proof {
            assert(tbs@.take(i + 1).drop_last() =~= tbs@.take(i as int));
            assert(tbs@.take(i + 1).last() == tb);
        }
        if tb.kind == TimeBlockKind::Lesson && tb.day_of_week == d {
            insert_block(&mut list, tb);
        }
        i = i + 1;
    }
    proof {
        assert(tbs@.take(i as int) =~= tbs@);
    }
    list
}

/// Each lesson day with its position-sorted lesson blocks.
pub fn blocks_by_day_table(tbs: &Vec<TimeBlock>) -> (table: Vec<(u8, Vec<TimeBlock>)>)
    ensures
        day_table_view(table@) == blocks_by_day(tbs@),
{
    let days = collect_lesson_days(tbs);
    let mut table: Vec<(u8, Vec<TimeBlock>)> = Vec::new();
    let mut i: usize = 0;
    while i < days.len()
        invariant
            i <= days@.len(),
            days@ == lesson_days(tbs@),
            table@.len() == i,
            blocks_by_day(tbs@).len() == days@.len(),
            day_table_view(table@) == blocks_by_day(tbs@).take(i as int),
        decreases days@.len() - i,
    {
        let d = days[i];
        let list = collect_day_blocks(tbs, d);
        let ghost before = table@;
        let ghost entry = (d, list@);
        let ghost listv = list;
        table.push((d, list));
        proof {
            assert(before.len() == i);
            assert(table@ == before.push((d, listv)));
            assert(table@.len() == i + 1);
            assert forall|k: int| 0 <= k < i + 1 implies #[trigger] day_table_view(table@)[k] == blocks_by_day(tbs@)[k] by {
                if k < i {
                    assert(table@[k] == before[k]);
                    assert(day_table_view(before)[k] == blocks_by_day(tbs@).take(i as int)[k]);
                } else {
                    assert(table@[k] == (d, listv));
                }
            }
        }
        i = i + 1;
        assert(day_table_view(table@) =~= blocks_by_day(tbs@).take(i as int));
    }
    assert(day_table_view(table@) =~= blocks_by_day(tbs@));
    table
}

/// (class, home room) of every class that has a home room, in class order.
pub open spec fn home_room_pairs_spec(classes: Seq<SchoolClass>) -> Seq<(SchoolClassId, RoomId)>
    decreases classes.len(),
{
    if classes.len() == 0 {
        seq![]
    } else {
        let prev = home_room_pairs_spec(classes.drop_last());
        match classes.last().home_room_id {
            Some(r) => prev.push((classes.last().id, r)),
            None => prev,
        }
    }
}

/// The room of the first pair for class `cid`, if any.
pub open spec fn first_home(cid: SchoolClassId, pairs: Seq<(SchoolClassId, RoomId)>) -> Option<RoomId>
    decreases pairs.len(),
{
    if pairs.len() == 0 {
        None
    } else if pairs[0].0 == cid {
        Some(pairs[0].1)
    } else {
        first_home(cid, pairs.drop_first())
    }
}

/// The home rooms of the classes `cids`, one per class that has one, in
/// class order.
pub open spec fn home_list(cids: Seq<SchoolClassId>, pairs: Seq<(SchoolClassId, RoomId)>) -> Seq<RoomId>
    decreases cids.len(),
{
    if cids.len() == 0 {
        seq![]
    } else {
        let prev = home_list(cids.drop_last(), pairs);
        match first_home(cids.last(), pairs) {
            Some(r) => prev.push(r),
            None => prev,
        }
    }
}

/// The home rooms a lesson considers: the first four of `home_list`.
pub open spec fn capped_homes(lesson: Lesson, pairs: Seq<(SchoolClassId, RoomId)>) -> Seq<RoomId> {
    let l = home_list(lesson.school_class_ids@, pairs);
    if l.len() <= 4 {
        l
    } else {
        l.take(4)
    }
}

/// The (class, home room) pairs of `classes`.
pub fn home_room_pairs(classes: &Vec<SchoolClass>) -> (pairs: Vec<(SchoolClassId, RoomId)>)
    ensures
        pairs@ == home_room_pairs_spec(classes@),
{
    let mut pairs: Vec<(SchoolClassId, RoomId)> = Vec::new();
    let mut i: usize = 0;
    while i < classes.len()
        invariant
            i <= classes@.len(),
            pairs@ == home_room_pairs_spec(classes@.take(i as int)),
        decreases classes@.len() - i,
    {
        proof {
            assert(classes@.take(i + 1).drop_last() =~= classes@.take(i as int));
            assert(classes@.take(i + 1).last() == classes@[i as int]);
        }
        if let Some(r) = classes[i].home_room_id {
            pairs.push((classes[i].id, r));
        }
        i = i + 1;
    }
    proof {
        assert(classes@.take(i as int) =~= classes@);
    }
    pairs
}

proof fn lemma_first_home_scan(cid: SchoolClassId, pairs: Seq<(SchoolClassId, RoomId)>, j: int)
    requires
        0 <= j <= pairs.len(),
        forall|k: int| 0 <= k < j ==> pairs[k].0 != cid,
    ensures
        first_home(cid, pairs) == first_home(cid, pairs.subrange(j, pairs.len() as int)),
    decreases j,
{
    if j > 0 {
        let t = pairs.drop_first();
        assert forall|k: int| 0 <= k < j - 1 implies t[k].0 != cid by {
            assert(t[k] == pairs[k + 1]);
        }
        lemma_first_home_scan(cid, t, j - 1);
        assert(t.subrange(j - 1, t.len() as int) =~= pairs.subrange(j, pairs.len() as int));
    } else {
        assert(pairs.subrange(0, pairs.len() as int) =~= pairs);
    }
}

/// The home rooms of the lesson's classes, at most four, in class order,
/// and how many there are.
pub fn lesson_home_rooms(lesson: &Lesson, home_room_pairs: &Vec<(SchoolClassId, RoomId)>) -> (r: ([Option<RoomId>; 4], usize))
    ensures
        r.1 == capped_homes(*lesson, home_room_pairs@).len(),
        r.1 <= 4,
        forall|k: int| 0 <= k < 4 ==> #[trigger] r.0@[k] == (if k < r.1 { Some(capped_homes(*lesson, home_room_pairs@)[k]) } else { None }),
{
    let mut home_rooms: [Option<RoomId>; 4] = [None, None, None, None];
    let mut home_count: usize = 0;
    let cids = &lesson.school_class_ids;
    let ghost pairs = home_room_pairs@;
    let mut i: usize = 0;
    while i < cids.len()
        invariant
            i <= cids@.len(),
            cids == &lesson.school_class_ids,
            pairs == home_room_pairs@,
            home_count <= 4,
            home_count == (if home_list(cids@.take(i as int), pairs).len() <= 4 {
                home_list(cids@.take(i as int), pairs).len() as int
            } else {
                4
            }),
            forall|k: int| 0 <= k < 4 ==> #[trigger] home_rooms@[k] == (if k < home_count {
                Some(home_list(cids@.take(i as int), pairs)[k])
            } else {
                None
            }),
        decreases cids@.len() - i,
    {
        let cid = cids[i];
        let ghost prev = home_list(cids@.take(i as int), pairs);
        proof {
            assert(cids@.take(i + 1).drop_last() =~= cids@.take(i as int));
            assert(cids@.take(i + 1).last() == cid);
        }
        let mut j: usize = 0;
        while j < home_room_pairs.len()
            invariant
                j <= home_room_pairs@.len(),
                pairs == home_room_pairs@,
                forall|k: int| 0 <= k < j ==> pairs[k].0 != cid,
            ensures
                j <= home_room_pairs@.len(),
                forall|k: int| 0 <= k < j ==> pairs[k].0 != cid,
                j < home_room_pairs@.len() ==> pairs[j as int].0 == cid,
            decreases home_room_pairs@.len() - j,
        {
            if home_room_pairs[j].0 == cid {
                break;
            }
            j = j + 1;
        }
        proof {
            lemma_first_home_scan(cid, pairs, j as int);
            let rest = pairs.subrange(j as int, pairs.len() as int);
            if j < pairs.len() {
                assert(rest[0] == pairs[j as int]);
                assert(first_home(cid, rest) == Some(pairs[j as int].1));
            } else {
                assert(rest.len() == 0);
                assert(first_home(cid, rest).is_none());
            }
            assert(home_list(cids@.take(i + 1), pairs) == match first_home(cid, pairs) {
                Some(r) => prev.push(r),
                None => prev,
            });
        }
        if j < home_room_pairs.len() {
            let room = home_room_pairs[j].1;
            if home_count < 4 {
                home_rooms[home_count] = Some(room);
                home_count = home_count + 1;
            }
        }
        i = i + 1;
    }
    proof {
        assert(cids@.take(i as int) =~= cids@);
    }
    (home_rooms, home_count)
}

/// Whether `room` is among the first `count` home rooms.
pub fn home_rooms_contains(home_rooms: &[Option<RoomId>; 4], count: usize, room: RoomId) -> (r: bool)
    requires
        count <= 4,
    ensures
        r == exists|k: int| 0 <= k < count && home_rooms@[k] == Some(room),
{
    let mut k: usize = 0;
    while k < count
        invariant
            k <= count <= 4,
            forall|m: int| 0 <= m < k ==> home_rooms@[m] != Some(room),
        decreases count - k,
    {
        let hr = home_rooms[k];
        match hr {
            Some(r) => {
                if r.0 == room.0 {
                    assert(home_rooms@[k as int] == Some(room));
                    return true;
                }
            },
            None => {},
        }
        k = k + 1;
    }
    false
}

/// The block is free for the teacher and for the room.
pub open spec fn unblocked(idx: Indexed, teacher: u128, room: u128, tb: TimeBlock) -> bool {
    !idx.teacher_blocked@.contains((teacher, tb.id.0)) && !idx.room_blocked@.contains((room, tb.id.0))
}

/// Blocks `j .. j + n` of `tbs` are all free for the teacher and the room.
pub open spec fn free_window(idx: Indexed, teacher: u128, room: u128, tbs: Seq<TimeBlock>, j: int, n: int) -> bool {
    forall|k: int| j <= k < j + n ==> #[trigger] unblocked(idx, teacher, room, tbs[k])
}

/// Some `n` consecutive blocks of `tbs` are free for the teacher and the
/// room.
pub open spec fn has_window(idx: Indexed, teacher: u128, room: u128, tbs: Seq<TimeBlock>, n: int) -> bool {
    exists|j: int| 0 <= j && j + n <= tbs.len() && free_window(idx, teacher, room, tbs, j, n)
}

/// The room suits the lesson's subject and, when `home_only`, is one of
/// `homes`.
pub open spec fn room_counts(idx: Indexed, lesson: Lesson, room: Room, homes: Seq<RoomId>, home_only: bool) -> bool {
    suits(idx.room_subject@, room.id.0, lesson.subject_id.0) && (!home_only || homes.contains(room.id))
}

/// Number of rooms among `rooms` that count and have a free window of the
/// lesson's block size among the day's blocks `tbs`.
pub open spec fn day_room_count(
    idx: Indexed,
    lesson: Lesson,
    teacher: u128,
    tbs: Seq<TimeBlock>,
    rooms: Seq<Room>,
    homes: Seq<RoomId>,
    home_only: bool,
) -> int
    decreases rooms.len(),
{
    if rooms.len() == 0 {
        0
    } else {
        day_room_count(idx, lesson, teacher, tbs, rooms.drop_last(), homes, home_only) + (if room_counts(
            idx,
            lesson,
            rooms.last(),
            homes,
            home_only,
        ) && has_window(idx, teacher, rooms.last().id.0, tbs, lesson.preferred_block_size as int) {
            1int
        } else {
            0
        })
    }
}

/// Number of viable (day, room) pairs over `days`.
pub open spec fn pair_count(
    idx: Indexed,
    lesson: Lesson,
    teacher: u128,
    days: Seq<(u8, Seq<TimeBlock>)>,
    rooms: Seq<Room>,
    homes: Seq<RoomId>,
    home_only: bool,
) -> int
    decreases days.len(),
{
    if days.len() == 0 {
        0
    } else {
        pair_count(idx, lesson, teacher, days.drop_last(), rooms, homes, home_only) + day_room_count(
            idx,
            lesson,
            teacher,
            days.last().1,
            rooms,
            homes,
            home_only,
        )
    }
}

/// `(viable_pairs, home_pairs)` of a lesson, each saturating.
pub open spec fn eligibility_spec(
    lesson: Lesson,
    rooms: Seq<Room>,
    idx: Indexed,
    days: Seq<(u8, Seq<TimeBlock>)>,
    pairs: Seq<(SchoolClassId, RoomId)>,
) -> (int, int) {
    if lesson.preferred_block_size == 0 {
        (0, 0)
    } else {
        let homes = capped_homes(lesson, pairs);
        let t = assigned_teacher_spec(lesson).0;
        (
            sat(pair_count(idx, lesson, t, days, rooms, homes, false)),
            sat(pair_count(idx, lesson, t, days, rooms, homes, true)),
        )
    }
}

/// Number of days with at least `n` blocks.
pub open spec fn long_day_count(days: Seq<(u8, Seq<TimeBlock>)>, n: int) -> int
    decreases days.len(),
{
    if days.len() == 0 {
        0
    } else {
        long_day_count(days.drop_last(), n) + (if days.last().1.len() >= n { 1int } else { 0 })
    }
}

/// Number of rooms that count.
pub open spec fn room_count(idx: Indexed, lesson: Lesson, rooms: Seq<Room>, homes: Seq<RoomId>, home_only: bool) -> int
    decreases rooms.len(),
{
    if rooms.len() == 0 {
        0
    } else {
        room_count(idx, lesson, rooms.drop_last(), homes, home_only) + (if room_counts(
            idx,
            lesson,
            rooms.last(),
            homes,
            home_only,
        ) {
            1int
        } else {
            0
        })
    }
}

/// The eligibility of a lesson when nothing is blocked: long days times
/// suitable rooms, each factor and the product saturating.
pub open spec fn eligibility_no_blocks_spec(
    lesson: Lesson,
    rooms: Seq<Room>,
    idx: Indexed,
    days: Seq<(u8, Seq<TimeBlock>)>,
    pairs: Seq<(SchoolClassId, RoomId)>,
) -> (int, int) {
    if lesson.preferred_block_size == 0 {
        (0, 0)
    } else {
        let homes = capped_homes(lesson, pairs);
        let vd = long_day_count(days, lesson.preferred_block_size as int);
        (
            sat(vd * sat(room_count(idx, lesson, rooms, homes, false))),
            sat(vd * sat(room_count(idx, lesson, rooms, homes, true))),
        )
    }
}

/// The eligibility scan reads the lesson's teacher: the block size is
/// positive, some day is long enough and some room suits the subject.
pub open spec fn teacher_consulted(lesson: Lesson, idx: Indexed, days: Seq<(u8, Seq<TimeBlock>)>, rooms: Seq<Room>) -> bool {
    &&& lesson.preferred_block_size > 0
    &&& exists|d: int| 0 <= d < days.len() && #[trigger] days[d].1.len() >= lesson.preferred_block_size
    &&& exists|r: int| 0 <= r < rooms.len() && suits(idx.room_subject@, #[trigger] rooms[r].id.0, lesson.subject_id.0)
}

proof fn lemma_day_room_count_bounds(
    idx: Indexed,
    lesson: Lesson,
    teacher: u128,
    tbs: Seq<TimeBlock>,
    rooms: Seq<Room>,
    homes: Seq<RoomId>,
    home_only: bool,
)
    ensures
        0 <= day_room_count(idx, lesson, teacher, tbs, rooms, homes, home_only) <= rooms.len(),
        tbs.len() < lesson.preferred_block_size ==> day_room_count(idx, lesson, teacher, tbs, rooms, homes, home_only)
            == 0,
    decreases rooms.len(),
{
    if rooms.len() > 0 {
        lemma_day_room_count_bounds(idx, lesson, teacher, tbs, rooms.drop_last(), homes, home_only);
    }
}

proof fn lemma_pair_count_nonneg(
    idx: Indexed,
    lesson: Lesson,
    teacher: u128,
    days: Seq<(u8, Seq<TimeBlock>)>,
    rooms: Seq<Room>,
    homes: Seq<RoomId>,
    home_only: bool,
)
    ensures
        0 <= pair_count(idx, lesson, teacher, days, rooms, homes, home_only),
    decreases days.len(),
{
    if days.len() > 0 {
        lemma_pair_count_nonneg(idx, lesson, teacher, days.drop_last(), rooms, homes, home_only);
        lemma_day_room_count_bounds(idx, lesson, teacher, days.last().1, rooms, homes, home_only);
    }
}

/// Whether some `n` consecutive blocks of `tbs` are free for the teacher
/// and the room: a run-length scan.
fn window_fits(idx: &Indexed, teacher: u128, room: u128, tbs: &Vec<TimeBlock>, n: usize) -> (r: bool)
    requires
        n > 0,
    ensures
        r == has_window(*idx, teacher, room, tbs@, n as int),
{
    let mut run: usize = 0;
    let mut k: usize = 0;
    while k < tbs.len()
        invariant
            n > 0,
            k <= tbs@.len(),
            run <= k,
            run < n,
            forall|m: int| k - run <= m < k ==> #[trigger] unblocked(*idx, teacher, room, tbs@[m]),
            run < k ==> !unblocked(*idx, teacher, room, tbs@[k - run - 1]),
            forall|j: int| 0 <= j && j + n <= k ==> !#[trigger] free_window(*idx, teacher, room, tbs@, j, n as int),
        decreases tbs@.len() - k,
    {
        let tb = tbs[k];
        let free = !idx.teacher_blocked(crate::types::TeacherId(teacher), tb.id) && !idx.room_blocked(
            RoomId(room),
            tb.id,
        );
        if free {
            if run + 1 >= n {
                proof {
                    let j = k + 1 - n;
                    assert forall|m: int| j <= m < j + n implies #[trigger] unblocked(*idx, teacher, room, tbs@[m]) by {
                        if m < k {
                            assert(k - run <= m);
                        }
                    }
                    assert(free_window(*idx, teacher, room, tbs@, j, n as int));
                }
                return true;
            }
            proof {
                assert forall|j: int| 0 <= j && j + n <= k + 1 implies !#[trigger] free_window(
                    *idx,
                    teacher,
                    room,
                    tbs@,
                    j,
                    n as int,
                ) by {
                    if j + n == k + 1 {
                        let b = k - run - 1;
                        assert(j <= b < j + n);
                        assert(!unblocked(*idx, teacher, room, tbs@[b]));
                    }
                }
            }
            run = run + 1;
        } else {
            proof {
                assert forall|j: int| 0 <= j && j + n <= k + 1 implies !#[trigger] free_window(
                    *idx,
                    teacher,
                    room,
                    tbs@,
                    j,
                    n as int,
                ) by {
                    if j + n == k + 1 {
                        assert(!unblocked(*idx, teacher, room, tbs@[k as int]));
                    }
                }
            }
            run = 0;
        }
        k = k + 1;
    }
    false
}

/// `(viable_pairs, home_pairs)` of the lesson: the (day, room) pairs whose
/// room suits the subject and whose day has `preferred_block_size`
/// consecutive blocks free for the lesson's teacher and the room, and the
/// subset of those whose room is a home room of the lesson's classes. Each
/// count saturates.
pub fn same_room_eligibility(
    lesson: &Lesson,
    problem: &Problem,
    idx: &Indexed,
    tbs_by_day: &Vec<(u8, Vec<TimeBlock>)>,
    home_room_pairs: &Vec<(SchoolClassId, RoomId)>,
) -> (r: (u32, u32))
    requires
        teacher_consulted(*lesson, *idx, day_table_view(tbs_by_day@), problem.rooms@) ==> has_assigned_teacher(
            *lesson,
        ),
    ensures
        (r.0 as int, r.1 as int) == eligibility_spec(
            *lesson,
            problem.rooms@,
            *idx,
            day_table_view(tbs_by_day@),
            home_room_pairs@,
        ),
{
    let n = lesson.preferred_block_size as usize;
    if n == 0 {
        return (0, 0);
    }
    let (home_rooms, home_count) = lesson_home_rooms(lesson, home_room_pairs);
    let ghost days = day_table_view(tbs_by_day@);
    let ghost homes = capped_homes(*lesson, home_room_pairs@);
    let ghost t = assigned_teacher_spec(*lesson).0;
    let rooms = &problem.rooms;
    let mut viable_pairs: u32 = 0;
    let mut home_pairs: u32 = 0;
    let mut i: usize = 0;
    while i < tbs_by_day.len()
        invariant
            n == lesson.preferred_block_size,
            n > 0,
            i <= tbs_by_day@.len(),
            days == day_table_view(tbs_by_day@),
            homes == capped_homes(*lesson, home_room_pairs@),
            t == assigned_teacher_spec(*lesson).0,
            rooms == &problem.rooms,
            home_count == homes.len(),
            home_count <= 4,
            forall|k: int| 0 <= k < 4 ==> #[trigger] home_rooms@[k] == (if k < home_count { Some(homes[k]) } else { None }),
            teacher_consulted(*lesson, *idx, days, rooms@) ==> has_assigned_teacher(*lesson),
            viable_pairs == sat(pair_count(*idx, *lesson, t, days.take(i as int), rooms@, homes, false)),
            home_pairs == sat(pair_count(*idx, *lesson, t, days.take(i as int), rooms@, homes, true)),
        decreases tbs_by_day@.len() - i,
    {
        let day_tbs = &tbs_by_day[i].1;
        proof {
            assert(days.take(i + 1).drop_last() =~= days.take(i as int));
            assert(days.take(i + 1).last() == days[i as int]);
            assert(days[i as int].1 == day_tbs@);
            lemma_pair_count_nonneg(*idx, *lesson, t, days.take(i as int), rooms@, homes, false);
            lemma_pair_count_nonneg(*idx, *lesson, t, days.take(i as int), rooms@, homes, true);
        }
        if day_tbs.len() < n {
            proof {
                lemma_day_room_count_bounds(*idx, *lesson, t, day_tbs@, rooms@, homes, false);
                lemma_day_room_count_bounds(*idx, *lesson, t, day_tbs@, rooms@, homes, true);
            }
            i = i + 1;
            continue;
        }
        let ghost base_v = pair_count(*idx, *lesson, t, days.take(i as int), rooms@, homes, false);
        let ghost base_h = pair_count(*idx, *lesson, t, days.take(i as int), rooms@, homes, true);
        let mut k: usize = 0;
        while k < rooms.len()
            invariant
                n == lesson.preferred_block_size,
                n > 0,
                i < tbs_by_day@.len(),
                k <= rooms@.len(),
                days == day_table_view(tbs_by_day@),
                day_tbs@ == days[i as int].1,
                day_tbs@.len() >= n,
                homes == capped_homes(*lesson, home_room_pairs@),
                t == assigned_teacher_spec(*lesson).0,
                rooms == &problem.rooms,
                home_count == homes.len(),
                home_count <= 4,
                forall|m: int| 0 <= m < 4 ==> #[trigger] home_rooms@[m] == (if m < home_count { Some(homes[m]) } else { None }),
                teacher_consulted(*lesson, *idx, days, rooms@) ==> has_assigned_teacher(*lesson),
                base_v >= 0,
                base_h >= 0,
                viable_pairs == sat(base_v + day_room_count(*idx, *lesson, t, day_tbs@, rooms@.take(k as int), homes, false)),
                home_pairs == sat(base_h + day_room_count(*idx, *lesson, t, day_tbs@, rooms@.take(k as int), homes, true)),
            decreases rooms@.len() - k,
        {
            let room = rooms[k];
            proof {
                assert(rooms@.take(k + 1).drop_last() =~= rooms@.take(k as int));
                assert(rooms@.take(k + 1).last() == room);
                lemma_day_room_count_bounds(*idx, *lesson, t, day_tbs@, rooms@.take(k as int), homes, false);
                lemma_day_room_count_bounds(*idx, *lesson, t, day_tbs@, rooms@.take(k as int), homes, true);
            }
            if idx.room_suits_subject(room.id, lesson.subject_id) {
                proof {
                    assert(days[i as int].1.len() >= lesson.preferred_block_size);
                    assert(suits(idx.room_subject@, rooms@[k as int].id.0, lesson.subject_id.0));
                    assert(teacher_consulted(*lesson, *idx, days, rooms@));
                }
                let teacher = lesson.assigned_teacher_id();
                let fits = window_fits(idx, teacher.0, room.id.0, day_tbs, n);
                if fits {
                    viable_pairs = viable_pairs.saturating_add(1);
                    let home = home_rooms_contains(&home_rooms, home_count, room.id);
                    proof {
                        if homes.contains(room.id) {
                            let m = choose|m: int| 0 <= m < homes.len() && homes[m] == room.id;
                            assert(home_rooms@[m] == Some(room.id));
                        }
                        if home {
                            let m = choose|m: int| 0 <= m < home_count && home_rooms@[m] == Some(room.id);
                            assert(homes[m] == room.id);
                        }
                    }
                    if home {
                        home_pairs = home_pairs.saturating_add(1);
                    }
                }
            }
            k = k + 1;
        }
        proof {
            assert(rooms@.take(k as int) =~= rooms@);
        }
        i = i + 1;
    }
    proof {
        assert(days.take(i as int) =~= days);
    }
    (viable_pairs, home_pairs)
}

proof fn lemma_room_count_bounds(idx: Indexed, lesson: Lesson, rooms: Seq<Room>, homes: Seq<RoomId>, home_only: bool)
    ensures
        0 <= room_count(idx, lesson, rooms, homes, home_only) <= rooms.len(),
    decreases rooms.len(),
{
    if rooms.len() > 0 {
        lemma_room_count_bounds(idx, lesson, rooms.drop_last(), homes, home_only);
    }
}

proof fn lemma_long_day_count_bounds(days: Seq<(u8, Seq<TimeBlock>)>, n: int)
    ensures
        0 <= long_day_count(days, n) <= days.len(),
    decreases days.len(),
{
    if days.len() > 0 {
        lemma_long_day_count_bounds(days.drop_last(), n);
    }
}

/// `(viable_pairs, home_pairs)` of the lesson when no teacher or room is
/// blocked anywhere: (days with at least `preferred_block_size` blocks) times
/// (rooms suiting the subject), and times (such rooms that are home rooms of
/// the lesson's classes), each factor and product saturating.
pub fn same_room_eligibility_no_blocks(
    lesson: &Lesson,
    problem: &Problem,
    idx: &Indexed,
    tbs_by_day: &Vec<(u8, Vec<TimeBlock>)>,
    home_room_pairs: &Vec<(SchoolClassId, RoomId)>,
) -> (r: (u32, u32))
    requires
        tbs_by_day@.len() <= u32::MAX,
    ensures
        (r.0 as int, r.1 as int) == eligibility_no_blocks_spec(
            *lesson,
            problem.rooms@,
            *idx,
            day_table_view(tbs_by_day@),
            home_room_pairs@,
        ),
{
    let n = lesson.preferred_block_size as usize;
    if n == 0 {
        return (0, 0);
    }
    let ghost days = day_table_view(tbs_by_day@);
    let mut viable_days: u32 = 0;
    let mut i: usize = 0;
    while i < tbs_by_day.len()
        invariant
            n == lesson.preferred_block_size,
            i <= tbs_by_day@.len() <= u32::MAX,
            days == day_table_view(tbs_by_day@),
            viable_days == long_day_count(days.take(i as int), n as int),
        decreases tbs_by_day@.len() - i,
    {
        proof {
            assert(days.take(i + 1).drop_last() =~= days.take(i as int));
            assert(days.take(i + 1).last() == days[i as int]);
            lemma_long_day_count_bounds(days.take(i as int), n as int);
        }
        if tbs_by_day[i].1.len() >= n {
            viable_days = viable_days + 1;
        }
        i = i + 1;
    }
    proof {
        assert(days.take(i as int) =~= days);
    }
    let (home_rooms, home_count) = lesson_home_rooms(lesson, home_room_pairs);
    let ghost homes = capped_homes(*lesson, home_room_pairs@);
    let rooms = &problem.rooms;
    let mut suitable_rooms: u32 = 0;
    let mut suitable_home_rooms: u32 = 0;
    let mut k: usize = 0;
    while k < rooms.len()
        invariant
            k <= rooms@.len(),
            rooms == &problem.rooms,
            homes == capped_homes(*lesson, home_room_pairs@),
            home_count == homes.len(),
            home_count <= 4,
            forall|m: int| 0 <= m < 4 ==> #[trigger] home_rooms@[m] == (if m < home_count { Some(homes[m]) } else { None }),
            suitable_rooms == sat(room_count(*idx, *lesson, rooms@.take(k as int), homes, false)),
            suitable_home_rooms == sat(room_count(*idx, *lesson, rooms@.take(k as int), homes, true)),
        decreases rooms@.len() - k,
    {
        let room = rooms[k];
        proof {
            assert(rooms@.take(k + 1).drop_last() =~= rooms@.take(k as int));
            assert(rooms@.take(k + 1).last() == room);
            lemma_room_count_bounds(*idx, *lesson, rooms@.take(k as int), homes, false);
            lemma_room_count_bounds(*idx, *lesson, rooms@.take(k as int), homes, true);
        }
        if idx.room_suits_subject(room.id, lesson.subject_id) {
            suitable_rooms = suitable_rooms.saturating_add(1);
            let home = home_rooms_contains(&home_rooms, home_count, room.id);
            proof {
                if homes.contains(room.id) {
                    let m = choose|m: int| 0 <= m < homes.len() && homes[m] == room.id;
                    assert(home_rooms@[m] == Some(room.id));
                }
                if home {
                    let m = choose|m: int| 0 <= m < home_count && home_rooms@[m] == Some(room.id);
                    assert(homes[m] == room.id);
                }
            }
            if home {
                suitable_home_rooms = suitable_home_rooms.saturating_add(1);
            }
        }
        k = k + 1;
    }
    proof {
        assert(rooms@.take(k as int) =~= rooms@);
    }
    (crate::arith::sat_mul(viable_days, suitable_rooms), crate::arith::sat_mul(viable_days, suitable_home_rooms))
}

proof fn lemma_day_room_count_unblocked(
    idx: Indexed,
    lesson: Lesson,
    teacher: u128,
    tbs: Seq<TimeBlock>,
    rooms: Seq<Room>,
    homes: Seq<RoomId>,
    home_only: bool,
)
    requires
        idx.teacher_blocked@.len() == 0,
        idx.room_blocked@.len() == 0,
        lesson.preferred_block_size > 0,
    ensures
        day_room_count(idx, lesson, teacher, tbs, rooms, homes, home_only) == (if tbs.len()
            >= lesson.preferred_block_size {
            room_count(idx, lesson, rooms, homes, home_only)
        } else {
            0
        }),
    decreases rooms.len(),
{
    if rooms.len() > 0 {
        lemma_day_room_count_unblocked(idx, lesson, teacher, tbs, rooms.drop_last(), homes, home_only);
        let room = rooms.last().id.0;
        let n = lesson.preferred_block_size as int;
        if tbs.len() >= n {
            assert forall|k: int| 0 <= k < n implies #[trigger] unblocked(idx, teacher, room, tbs[k]) by {
                assert(!idx.teacher_blocked@.contains((teacher, tbs[k].id.0)));
                assert(!idx.room_blocked@.contains((room, tbs[k].id.0)));
            }
            assert(free_window(idx, teacher, room, tbs, 0, n));
            assert(has_window(idx, teacher, room, tbs, n));
        }
    }
}

proof fn lemma_pair_count_unblocked(
    idx: Indexed,
    lesson: Lesson,
    teacher: u128,
    days: Seq<(u8, Seq<TimeBlock>)>,
    rooms: Seq<Room>,
    homes: Seq<RoomId>,
    home_only: bool,
)
    requires
        idx.teacher_blocked@.len() == 0,
        idx.room_blocked@.len() == 0,
        lesson.preferred_block_size > 0,
    ensures
        pair_count(idx, lesson, teacher, days, rooms, homes, home_only) == long_day_count(
            days,
            lesson.preferred_block_size as int,
        ) * room_count(idx, lesson, rooms, homes, home_only),
    decreases days.len(),
{
    if days.len() > 0 {
        lemma_pair_count_unblocked(idx, lesson, teacher, days.drop_last(), rooms, homes, home_only);
        lemma_day_room_count_unblocked(idx, lesson, teacher, days.last().1, rooms, homes, home_only);
        let a = long_day_count(days.drop_last(), lesson.preferred_block_size as int);
        let rc = room_count(idx, lesson, rooms, homes, home_only);
        assert((a + 1) * rc == a * rc + rc) by (nonlinear_arith);
    }
}

proof fn lemma_sat_product(vd: int, rc: int)
    requires
        vd >= 0,
        rc >= 0,
    ensures
        sat(vd * sat(rc)) == sat(vd * rc),
{
    if rc > u32::MAX && vd >= 1 {
        assert(vd * rc >= rc) by (nonlinear_arith)
            requires
                vd >= 1,
                rc >= 0,
        ;
        assert(vd * (u32::MAX as int) >= u32::MAX) by (nonlinear_arith)
            requires
                vd >= 1,
        ;
    }
    if vd == 0 {
        assert(vd * rc == 0);
        assert(vd * sat(rc) == 0);
    }
}

/// When the index lists no teacher block and no room block, the
/// no-blocks eligibility formula equals the window scan, for every lesson,
/// room list, day table and home-room table.
pub proof fn lemma_no_blocks_eligibility_agrees(
    lesson: Lesson,
    rooms: Seq<Room>,
    idx: Indexed,
    days: Seq<(u8, Seq<TimeBlock>)>,
    pairs: Seq<(SchoolClassId, RoomId)>,
)
    requires
        idx.teacher_blocked@.len() == 0,
        idx.room_blocked@.len() == 0,
    ensures
        eligibility_no_blocks_spec(lesson, rooms, idx, days, pairs) == eligibility_spec(lesson, rooms, idx, days, pairs),
{
    if lesson.preferred_block_size > 0 {
        let homes = capped_homes(lesson, pairs);
        let t = assigned_teacher_spec(lesson).0;
        let n = lesson.preferred_block_size as int;
        lemma_pair_count_unblocked(idx, lesson, t, days, rooms, homes, false);
        lemma_pair_count_unblocked(idx, lesson, t, days, rooms, homes, true);
        lemma_long_day_count_bounds(days, n);
        lemma_room_count_bounds(idx, lesson, rooms, homes, false);
        lemma_room_count_bounds(idx, lesson, rooms, homes, true);
        lemma_sat_product(long_day_count(days, n), room_count(idx, lesson, rooms, homes, false));
        lemma_sat_product(long_day_count(days, n), room_count(idx, lesson, rooms, homes, true));
    }
}

/// The problem lists no teacher block and no room block.
pub open spec fn no_blocks(problem: Problem) -> bool {
    problem.teacher_blocked_times@.len() == 0 && problem.room_blocked_times@.len() == 0
}

/// `(viable_pairs, home_pairs)` of lesson `i` as `ffd_order` computes it.
pub open spec fn lesson_eligibility(problem: Problem, idx: Indexed, i: int) -> (int, int) {
    let days = blocks_by_day(problem.time_blocks@);
    let pairs = home_room_pairs_spec(problem.school_classes@);
    if no_blocks(problem) {
        eligibility_no_blocks_spec(problem.lessons@[i], problem.rooms@, idx, days, pairs)
    } else {
        eligibility_spec(problem.lessons@[i], problem.rooms@, idx, days, pairs)
    }
}

/// The sort key of lesson `i`: candidate count (as a `u32`), viable pairs,
/// home pairs, lesson id, input index.
pub open spec fn ffd_key(problem: Problem, idx: Indexed, i: int) -> (int, int, int, int, int) {
    let l = problem.lessons@[i];
    let e = lesson_eligibility(problem, idx, i);
    ((l.teacher_candidates@.len() as u32) as int, e.0, e.1, l.id.0 as int, i)
}

/// Lexicographic order on keys.
pub open spec fn key_lt(x: (int, int, int, int, int), y: (int, int, int, int, int)) -> bool {
    x.0 < y.0 || (x.0 == y.0 && (x.1 < y.1 || (x.1 == y.1 && (x.2 < y.2 || (x.2 == y.2 && (x.3 < y.3 || (x.3
        == y.3 && x.4 < y.4)))))))
}

/// Lesson `a` is placed before lesson `b`.
pub open spec fn ffd_before(problem: Problem, idx: Indexed, a: int, b: int) -> bool {
    key_lt(ffd_key(problem, idx, a), ffd_key(problem, idx, b))
}

/// What `ffd_order` asks of its inputs: wherever the window scan reads a
/// lesson's teacher, the lesson has one (a pin or a candidate).
pub open spec fn ffd_inputs_ok(problem: Problem, idx: Indexed) -> bool {
    !no_blocks(problem) ==> forall|i: int|
        0 <= i < problem.lessons@.len() && teacher_consulted(
            problem.lessons@[i],
            idx,
            blocks_by_day(problem.time_blocks@),
            problem.rooms@,
        ) ==> has_assigned_teacher(#[trigger] problem.lessons@[i])
}

proof fn lemma_lesson_days_distinct(tbs: Seq<TimeBlock>)
    ensures
        lesson_days(tbs).no_duplicates(),
    decreases tbs.len(),
{
    if tbs.len() > 0 {
        lemma_lesson_days_distinct(tbs.drop_last());
    }
}

proof fn lemma_distinct_days_bounded(s: Seq<u8>)
    requires
        s.no_duplicates(),
    ensures
        s.len() <= 256,
{
    let f = |x: u8| x as int;
    assert(vstd::relations::injective(f));
    s.lemma_no_duplicates_injective(f);
    let m = s.map_values(f);
    m.unique_seq_to_set();
    vstd::set_lib::lemma_int_range(0, 256);
    assert(m.to_set().subset_of(vstd::set_lib::set_int_range(0, 256)));
    vstd::set_lib::lemma_len_subset(m.to_set(), vstd::set_lib::set_int_range(0, 256));
}

/// The stored scores of lessons `0..upto` are their keys' first three parts.
pub open spec fn scores_match(problem: Problem, idx: Indexed, scores: Seq<(u32, u32, u32)>, upto: int) -> bool {
    forall|k: int| 0 <= k < upto ==> {
        let key = ffd_key(problem, idx, k);
        &&& #[trigger] scores[k].0 == key.0
        &&& scores[k].1 == key.1
        &&& scores[k].2 == key.2
    }
}

/// The key of two lessons, as stored scores and ids.
fn key_before(scores: &Vec<(u32, u32, u32)>, problem: &Problem, a: usize, b: usize) -> (r: bool)
    requires
        a < scores@.len(),
        b < scores@.len(),
        scores@.len() == problem.lessons@.len(),
    ensures
        r == key_lt(
            (scores@[a as int].0 as int, scores@[a as int].1 as int, scores@[a as int].2 as int, problem.lessons@[a as int].id.0 as int, a as int),
            (scores@[b as int].0 as int, scores@[b as int].1 as int, scores@[b as int].2 as int, problem.lessons@[b as int].id.0 as int, b as int),
        ),
{
    let sa = scores[a];
    let sb = scores[b];
    let ia = problem.lessons[a].id.0;
    let ib = problem.lessons[b].id.0;
    if sa.0 != sb.0 {
        sa.0 < sb.0
    } else if sa.1 != sb.1 {
        sa.1 < sb.1
    } else if sa.2 != sb.2 {
        sa.2 < sb.2
    } else if ia != ib {
        ia < ib
    } else {
        a < b
    }
}

/// Placement order under First Fit Decreasing: every lesson index exactly
/// once, sorted by candidate count, viable (day, room) pairs, home pairs,
/// lesson id and input index.
pub fn ffd_order(problem: &Problem, idx: &Indexed) -> (order: Vec<usize>)
    requires
        ffd_inputs_ok(*problem, *idx),
    ensures
        order@.len() == problem.lessons@.len(),
        forall|k: int| 0 <= k < order@.len() ==> order@[k] < problem.lessons@.len(),
        order@.no_duplicates(),
        forall|a: int, b: int|
            0 <= a < b < order@.len() ==> ffd_before(*problem, *idx, #[trigger] order@[a] as int, #[trigger] order@[b] as int),
{
    let tbs_by_day = blocks_by_day_table(&problem.time_blocks);
    let pairs = home_room_pairs(&problem.school_classes);
    let no_blocks_here = problem.teacher_blocked_times.len() == 0 && problem.room_blocked_times.len() == 0;
    proof {
        lemma_lesson_days_distinct(problem.time_blocks@);
        lemma_distinct_days_bounded(lesson_days(problem.time_blocks@));
        assert(day_table_view(tbs_by_day@).len() == tbs_by_day@.len());
        assert(blocks_by_day(problem.time_blocks@).len() == lesson_days(problem.time_blocks@).len());
    }
    let lessons = &problem.lessons;
    let mut scores: Vec<(u32, u32, u32)> = Vec::new();
    let mut i: usize = 0;
    while i < lessons.len()
        invariant
            i <= lessons@.len(),
            lessons == &problem.lessons,
            ffd_inputs_ok(*problem, *idx),
            no_blocks_here == no_blocks(*problem),
            day_table_view(tbs_by_day@) == blocks_by_day(problem.time_blocks@),
            tbs_by_day@.len() <= 256,
            pairs@ == home_room_pairs_spec(problem.school_classes@),
            scores@.len() == i,
            scores_match(*problem, *idx, scores@, i as int),
        decreases lessons@.len() - i,
    {
        let l = &lessons[i];
        let e = if no_blocks_here {
            same_room_eligibility_no_blocks(l, problem, idx, &tbs_by_day, &pairs)
        } else {
            proof {
                if teacher_consulted(*l, *idx, day_table_view(tbs_by_day@), problem.rooms@) {
                    assert(has_assigned_teacher(problem.lessons@[i as int]));
                }
            }
            same_room_eligibility(l, problem, idx, &tbs_by_day, &pairs)
        };
        let c = l.teacher_candidates.len() as u32;
        let ghost before = scores@;
        scores.push((c, e.0, e.1));
        proof {
            assert forall|k: int| 0 <= k < i + 1 implies {
                let key = ffd_key(*problem, *idx, k);
                &&& #[trigger] scores@[k].0 == key.0
                &&& scores@[k].1 == key.1
                &&& scores@[k].2 == key.2
            } by {
                if k < i {
                    assert(scores@[k] == before[k]);
                } else {
                    assert(*l == problem.lessons@[i as int]);
                    assert((e.0 as int, e.1 as int) == lesson_eligibility(*problem, *idx, i as int));
                }
            }
            assert(scores_match(*problem, *idx, scores@, i + 1));
        }
        i = i + 1;
    }
    let ghost n = lessons@.len();
    let mut order: Vec<usize> = Vec::new();
    let mut i: usize = 0;
    while i < lessons.len()
        invariant
            i <= lessons@.len(),
            n == lessons@.len(),
            lessons == &problem.lessons,
            scores@.len() == n,
            scores_match(*problem, *idx, scores@, n as int),
            order@.len() == i,
            forall|k: int| 0 <= k < i ==> order@[k] < i,
            order@.no_duplicates(),
            forall|a: int, b: int|
                0 <= a < b < order@.len() ==> ffd_before(*problem, *idx, #[trigger] order@[a] as int, #[trigger] order@[b] as int),
        decreases n - i,
    {
        let mut j: usize = 0;
        while j < order.len() && !key_before(&scores, problem, i, order[j])
            invariant
                i < n,
                n == lessons@.len(),
                scores@.len() == n,
                scores_match(*problem, *idx, scores@, n as int),
                lessons == &problem.lessons,
                j <= order@.len(),
                order@.len() == i,
                forall|k: int| 0 <= k < i ==> order@[k] < i,
                forall|k: int| 0 <= k < j ==> !ffd_before(*problem, *idx, i as int, #[trigger] order@[k] as int),
            decreases order@.len() - j,
        {
            j = j + 1;
        }
        let ghost old_order = order@;
        proof {
            if j < order@.len() {
                let oj = order@[j as int] as int;
                assert(scores@[oj].0 == ffd_key(*problem, *idx, oj).0);
                assert(scores@[i as int].0 == ffd_key(*problem, *idx, i as int).0);
                assert(ffd_before(*problem, *idx, i as int, oj));
            }
        }
        order.insert(j, i);
        proof {
            assert(order@ == old_order.insert(j as int, i));
            assert forall|k: int| 0 <= k < i + 1 implies order@[k] < i + 1 by {
                if k < j {
                    assert(order@[k] == old_order[k]);
                } else if k > j {
                    assert(order@[k] == old_order[k - 1]);
                }
            }
            assert forall|a: int, b: int| 0 <= a < b < order@.len() implies order@[a] != order@[b] by {
                if a < j && b < j {
                    assert(order@[a] == old_order[a] && order@[b] == old_order[b]);
                } else if a < j && b == j {
                    assert(order@[a] == old_order[a]);
                } else if a < j && b > j {
                    assert(order@[a] == old_order[a] && order@[b] == old_order[b - 1]);
                } else if a == j {
                    assert(order@[b] == old_order[b - 1]);
                } else {
                    assert(order@[a] == old_order[a - 1] && order@[b] == old_order[b - 1]);
                }
            }
            assert forall|a: int, b: int| 0 <= a < b < order@.len() implies ffd_before(
                *problem,
                *idx,
                #[trigger] order@[a] as int,
                #[trigger] order@[b] as int,
            ) by {
                let ka = ffd_key(*problem, *idx, order@[a] as int);
                let kb = ffd_key(*problem, *idx, order@[b] as int);
                let ki = ffd_key(*problem, *idx, i as int);
                if a < j && b < j {
                    assert(order@[a] == old_order[a] && order@[b] == old_order[b]);
                } else if a < j && b == j {
                    assert(order@[a] == old_order[a]);
                    assert(!ffd_before(*problem, *idx, i as int, old_order[a] as int));
                    assert(old_order[a] < i);
                } else if a < j && b > j {
                    assert(order@[a] == old_order[a] && order@[b] == old_order[b - 1]);
                    if a < b - 1 {
                        assert(ffd_before(*problem, *idx, old_order[a] as int, old_order[b - 1] as int));
                    }
                } else if a == j {
                    assert(order@[b] == old_order[b - 1]);
                    if b - 1 > j {
                        assert(ffd_before(*problem, *idx, old_order[j as int] as int, old_order[b - 1] as int));
                    }
                    assert(ffd_before(*problem, *idx, i as int, old_order[j as int] as int));
                } else {
                    assert(order@[a] == old_order[a - 1] && order@[b] == old_order[b - 1]);
                }
            }
        }
        i = i + 1;
    }
    order
}

/// The FFD order of two lessons does not depend on where they stand in the
/// input: in two problems that differ only in their lesson lists, lessons
/// with different ids that are equal across the two problems are ordered
/// the same way.
pub proof fn lemma_ffd_before_ignores_input_position(
    p1: Problem,
    p2: Problem,
    idx: Indexed,
    a: int,
    b: int,
    a2: int,
    b2: int,
)
    requires
        p2 == (Problem { lessons: p2.lessons, ..p1 }),
        0 <= a < p1.lessons@.len(),
        0 <= b < p1.lessons@.len(),
        0 <= a2 < p2.lessons@.len(),
        0 <= b2 < p2.lessons@.len(),
        p2.lessons@[a2] == p1.lessons@[a],
        p2.lessons@[b2] == p1.lessons@[b],
        p1.lessons@[a].id != p1.lessons@[b].id,
    ensures
        ffd_before(p1, idx, a, b) == ffd_before(p2, idx, a2, b2),
{
    assert(p2.time_blocks == p1.time_blocks);
    assert(p2.rooms == p1.rooms);
    assert(p2.school_classes == p1.school_classes);
    assert(no_blocks(p2) == no_blocks(p1));
    assert(lesson_eligibility(p2, idx, a2) == lesson_eligibility(p1, idx, a));
    assert(lesson_eligibility(p2, idx, b2) == lesson_eligibility(p1, idx, b));
    assert(p1.lessons@[a].id.0 != p1.lessons@[b].id.0);
}

} // verus!
