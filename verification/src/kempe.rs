//! The chain of a Kempe move: starting from one lesson that is to move from
//! a source day to a destination day at a fixed window, every lesson that
//! sits in a member's destination window and shares its teacher or a class
//! must move the other way, and so on, until the chain closes.
//!
//! A chain is characterised by `valid_kempe_chain`; `kempe_build_chain`
//! returns one exactly when one exists, and the chain is then unique up to
//! the order of its members (`lemma_kempe_chain_unique`).

use vstd::prelude::*;

use crate::lahc::{first_lock, lesson_teacher_in_state, lookup_slot, member_lesson, slot_table_get};
use crate::lookup::{find_lesson, find_tb, lesson_index, tb_index};
use crate::types::{
    assigned_teacher_spec, has_assigned_teacher, Lesson, LessonId, Placement, SchoolClassId, SubjectId, TeacherId,
    TimeBlock, TimeBlockId,
};

verus! {

/// Outcome of building a Kempe chain.
pub enum ChainBuild {
    /// The chain: each member's lesson and destination day, the seed first.
    Built(Vec<(LessonId, u8)>),
    /// No chain exists for the request.
    Aborted,
}

/// The day a member that conflicts with a member bound for `d` is bound for.
pub open spec fn other_day(d: u8, source_day: u8, dest_day: u8) -> u8 {
    if d == dest_day {
        source_day
    } else {
        dest_day
    }
}

/// The teacher a lesson runs under, given the lock table.
pub open spec fn state_teacher(locks: Seq<((SchoolClassId, SubjectId), TeacherId)>, l: Lesson) -> TeacherId {
    match first_lock(locks, l.school_class_ids@, l.subject_id) {
        Some(t) => t,
        None => assigned_teacher_spec(l),
    }
}

/// Some class of `a` is a class of `b`.
pub open spec fn share_class(a: Lesson, b: Lesson) -> bool {
    exists|i: int|
        0 <= i < a.school_class_ids@.len() && b.school_class_ids@.contains(#[trigger] a.school_class_ids@[i])
}

/// Two lessons cannot sit in the same block: same teacher or a shared class.
pub open spec fn kconflict(locks: Seq<((SchoolClassId, SubjectId), TeacherId)>, a: Lesson, b: Lesson) -> bool {
    state_teacher(locks, a) == state_teacher(locks, b) || share_class(a, b)
}

/// The lesson has a teacher to run under: a lock or a fallback teacher.
pub open spec fn teacher_known(locks: Seq<((SchoolClassId, SubjectId), TeacherId)>, l: Lesson) -> bool {
    first_lock(locks, l.school_class_ids@, l.subject_id) is None ==> has_assigned_teacher(l)
}

/// The block at offset `k` of the window starting at `start` on day `d`.
pub open spec fn window_slot(slots: Seq<((u8, u8), TimeBlockId)>, d: u8, start: u8, k: int) -> Option<TimeBlockId> {
    slot_table_get(slots, (d, (start + k) as u8))
}

/// Every offset `0 .. n` of the window has a block.
pub open spec fn window_ok(slots: Seq<((u8, u8), TimeBlockId)>, d: u8, start: u8, n: u8) -> bool {
    forall|k: int| 0 <= k < n ==> (#[trigger] window_slot(slots, d, start, k)) is Some
}

/// Some member of the chain is lesson `id`.
pub open spec fn chain_has(c: Seq<(LessonId, u8)>, id: LessonId) -> bool {
    exists|i: int| 0 <= i < c.len() && (#[trigger] c[i]).0 == id
}

/// Number of hours of lesson `lid` placed on `day` (blocks resolved through
/// `tbs`).
pub open spec fn hours_on(ps: Seq<Placement>, tbs: Seq<TimeBlock>, lid: LessonId, day: u8) -> nat
    decreases ps.len(),
{
    if ps.len() == 0 {
        0
    } else {
        hours_on(ps.drop_last(), tbs, lid, day) + if ps.last().lesson_id == lid && tb_index(
            tbs,
            ps.last().time_block_id,
        ) >= 0 && tbs[tb_index(tbs, ps.last().time_block_id)].day_of_week == day {
            1nat
        } else {
            0nat
        }
    }
}

/// Member `i`'s destination window holds no placement of a lesson outside
/// the chain that conflicts with it (and no placement of an unknown lesson
/// outside the chain).
pub open spec fn member_closed(
    locks: Seq<((SchoolClassId, SubjectId), TeacherId)>,
    ls: Seq<Lesson>,
    ps: Seq<Placement>,
    slots: Seq<((u8, u8), TimeBlockId)>,
    start: u8,
    c: Seq<(LessonId, u8)>,
    i: int,
) -> bool {
    forall|k: int, q: int|
        #![trigger window_slot(slots, c[i].1, start, k), ps[q]]
        0 <= k < member_lesson(ls, c[i]).preferred_block_size && 0 <= q < ps.len() && window_slot(
            slots,
            c[i].1,
            start,
            k,
        ) == Some(ps[q].time_block_id) ==> chain_has(c, ps[q].lesson_id) || (lesson_index(ls, ps[q].lesson_id) >= 0
            && !kconflict(locks, ls[lesson_index(ls, ps[q].lesson_id)], member_lesson(ls, c[i])))
}

/// Member `j` was reached from an earlier member `i`: it has a placement in
/// `i`'s destination window, conflicts with `i`, and moves the other way.
pub open spec fn member_derived(
    locks: Seq<((SchoolClassId, SubjectId), TeacherId)>,
    ls: Seq<Lesson>,
    ps: Seq<Placement>,
    slots: Seq<((u8, u8), TimeBlockId)>,
    source_day: u8,
    dest_day: u8,
    start: u8,
    c: Seq<(LessonId, u8)>,
    j: int,
) -> bool {
    exists|i: int, k: int, q: int|
        #![trigger c[i], window_slot(slots, c[i].1, start, k), ps[q]]
        0 <= i < j && 0 <= k < member_lesson(ls, c[i]).preferred_block_size && 0 <= q < ps.len() && window_slot(
            slots,
            c[i].1,
            start,
            k,
        ) == Some(ps[q].time_block_id) && ps[q].lesson_id == c[j].0 && kconflict(
            locks,
            member_lesson(ls, c[j]),
            member_lesson(ls, c[i]),
        ) && c[j].1 == other_day(c[i].1, source_day, dest_day)
}

/// Member `j` may be moved: not pinned, not grouped, and all of its block
/// sits on the day it leaves.
pub open spec fn member_eligible(
    ls: Seq<Lesson>,
    tbs: Seq<TimeBlock>,
    ps: Seq<Placement>,
    pinned: Seq<LessonId>,
    source_day: u8,
    dest_day: u8,
    c: Seq<(LessonId, u8)>,
    j: int,
) -> bool {
    let l = member_lesson(ls, c[j]);
    &&& !pinned.contains(c[j].0)
    &&& l.lesson_group_id is None
    &&& hours_on(ps, tbs, c[j].0, other_day(c[j].1, source_day, dest_day)) == l.preferred_block_size
}

/// `c` is a Kempe chain for moving `seed` from `source_day` to `dest_day`
/// at the window starting at `start`: it starts with the seed, holds each
/// lesson once, stays within `max_chain` members (a lone seed always fits),
/// every member's lesson exists and its destination window exists, every
/// member's window is closed, every later member is reached from an
/// earlier one and may be moved, and no two members bound for the same day
/// conflict.
pub open spec fn valid_kempe_chain(
    locks: Seq<((SchoolClassId, SubjectId), TeacherId)>,
    ls: Seq<Lesson>,
    tbs: Seq<TimeBlock>,
    ps: Seq<Placement>,
    slots: Seq<((u8, u8), TimeBlockId)>,
    pinned: Seq<LessonId>,
    seed: LessonId,
    source_day: u8,
    dest_day: u8,
    start: u8,
    max_chain: usize,
    c: Seq<(LessonId, u8)>,
) -> bool {
    &&& c.len() >= 1
    &&& c[0] == (seed, dest_day)
    &&& c.len() == 1 || c.len() <= max_chain
    &&& forall|a: int, b: int| 0 <= a < b < c.len() ==> (#[trigger] c[a]).0 != (#[trigger] c[b]).0
    &&& forall|i: int| 0 <= i < c.len() ==> (#[trigger] c[i]).1 == source_day || c[i].1 == dest_day
    &&& forall|i: int| 0 <= i < c.len() ==> lesson_index(ls, (#[trigger] c[i]).0) >= 0
    &&& forall|i: int|
        0 <= i < c.len() ==> window_ok(slots, (#[trigger] c[i]).1, start, member_lesson(ls, c[i]).preferred_block_size)
    &&& forall|i: int| 0 <= i < c.len() ==> #[trigger] member_closed(locks, ls, ps, slots, start, c, i)
    &&& forall|j: int|
        1 <= j < c.len() ==> #[trigger] member_derived(locks, ls, ps, slots, source_day, dest_day, start, c, j)
    &&& forall|j: int| 1 <= j < c.len() ==> #[trigger] member_eligible(ls, tbs, ps, pinned, source_day, dest_day, c, j)
    &&& forall|a: int, b: int|
        0 <= a < c.len() && 0 <= b < c.len() && a != b && (#[trigger] c[a]).1 == (#[trigger] c[b]).1 ==> !kconflict(
            locks,
            member_lesson(ls, c[a]),
            member_lesson(ls, c[b]),
        )
}

proof fn lemma_share_class_sym(a: Lesson, b: Lesson)
    ensures
        share_class(a, b) == share_class(b, a),
{
    if share_class(a, b) {
        let i = choose|i: int|
            0 <= i < a.school_class_ids@.len() && b.school_class_ids@.contains(#[trigger] a.school_class_ids@[i]);
        let j = choose|j: int| 0 <= j < b.school_class_ids@.len() && b.school_class_ids@[j] == a.school_class_ids@[i];
        assert(a.school_class_ids@.contains(b.school_class_ids@[j]));
    }
    if share_class(b, a) {
        let i = choose|i: int|
            0 <= i < b.school_class_ids@.len() && a.school_class_ids@.contains(#[trigger] b.school_class_ids@[i]);
        let j = choose|j: int| 0 <= j < a.school_class_ids@.len() && a.school_class_ids@[j] == b.school_class_ids@[i];
        assert(b.school_class_ids@.contains(a.school_class_ids@[j]));
    }
}

proof fn lemma_kconflict_sym(locks: Seq<((SchoolClassId, SubjectId), TeacherId)>, a: Lesson, b: Lesson)
    ensures
        kconflict(locks, a, b) == kconflict(locks, b, a),
{
    lemma_share_class_sym(a, b);
}

proof fn lemma_other_day_back(d: u8, source_day: u8, dest_day: u8)
    requires
        d == source_day || d == dest_day,
    ensures
        other_day(other_day(d, source_day, dest_day), source_day, dest_day) == d,
{
}

fn chain_has_exec(c: &Vec<(LessonId, u8)>, id: LessonId) -> (b: bool)
    ensures
        b == chain_has(c@, id),
{
    let mut i: usize = 0;
    while i < c.len()
        invariant
            i <= c@.len(),
            forall|j: int| 0 <= j < i ==> (#[trigger] c@[j]).0 != id,
        decreases c@.len() - i,
    {
        if c[i].0 == id {
            return true;
        }
        i = i + 1;
    }
    false
}

pub(crate) fn contains_lesson(v: &Vec<LessonId>, id: LessonId) -> (b: bool)
    ensures
        b == v@.contains(id),
{
    let mut i: usize = 0;
    while i < v.len()
        invariant
            i <= v@.len(),
            forall|j: int| 0 <= j < i ==> v@[j] != id,
        decreases v@.len() - i,
    {
        if v[i] == id {
            return true;
        }
        i = i + 1;
    }
    false
}

fn contains_class(v: &Vec<SchoolClassId>, c: SchoolClassId) -> (b: bool)
    ensures
        b == v@.contains(c),
{
    let mut i: usize = 0;
    while i < v.len()
        invariant
            i <= v@.len(),
            forall|j: int| 0 <= j < i ==> v@[j] != c,
        decreases v@.len() - i,
    {
        if v[i] == c {
            return true;
        }
        i = i + 1;
    }
    false
}

fn share_class_exec(a: &Lesson, b: &Lesson) -> (r: bool)
    ensures
        r == share_class(*a, *b),
{
    let mut i: usize = 0;
    while i < a.school_class_ids.len()
        invariant
            i <= a.school_class_ids@.len(),
            forall|j: int| 0 <= j < i ==> !b.school_class_ids@.contains(#[trigger] a.school_class_ids@[j]),
        decreases a.school_class_ids@.len() - i,
    {
        if contains_class(&b.school_class_ids, a.school_class_ids[i]) {
            return true;
        }
        i = i + 1;
    }
    false
}

fn kconflict_exec(locks: &Vec<((SchoolClassId, SubjectId), TeacherId)>, a: &Lesson, b: &Lesson) -> (r: bool)
    requires
        teacher_known(locks@, *a),
        teacher_known(locks@, *b),
    ensures
        r == kconflict(locks@, *a, *b),
{
    let ta = lesson_teacher_in_state(locks, a);
    let tb = lesson_teacher_in_state(locks, b);
    ta == tb || share_class_exec(a, b)
}

fn hours_on_exec(ps: &[Placement], tbs: &Vec<TimeBlock>, lid: LessonId, day: u8) -> (n: usize)
    ensures
        n == hours_on(ps@, tbs@, lid, day),
{
    let mut n: usize = 0;
    let mut i: usize = 0;
    while i < ps.len()
        invariant
            i <= ps@.len(),
            n <= i,
            n == hours_on(ps@.take(i as int), tbs@, lid, day),
        decreases ps@.len() - i,
    {
        proof {
            assert(ps@.take(i + 1).drop_last() =~= ps@.take(i as int));
            assert(ps@.take(i + 1).last() == ps@[i as int]);
        }
        let p = ps[i];
        if p.lesson_id == lid {
            match find_tb(tbs, p.time_block_id) {
                Some(t) => {
                    if tbs[t].day_of_week == day {
                        n = n + 1;
                    }
                },
                None => {},
            }
        }
        i = i + 1;
    }
    proof {
        assert(ps@.take(ps@.len() as int) =~= ps@);
    }
    n
}


fn same_color_conflict(
    c: &Vec<(LessonId, u8)>,
    lessons: &Vec<Lesson>,
    locks: &Vec<((SchoolClassId, SubjectId), TeacherId)>,
    other: &Lesson,
    nd: u8,
) -> (r: bool)
    requires
        forall|i: int| 0 <= i < c@.len() ==> lesson_index(lessons@, (#[trigger] c@[i]).0) >= 0,
        forall|i: int| 0 <= i < lessons@.len() ==> teacher_known(locks@, #[trigger] lessons@[i]),
        teacher_known(locks@, *other),
    ensures
        r == exists|i: int|
            0 <= i < c@.len() && (#[trigger] c@[i]).1 == nd && kconflict(locks@, member_lesson(lessons@, c@[i]), *other),
{
    let mut i: usize = 0;
    while i < c.len()
        invariant
            i <= c@.len(),
            forall|j: int| 0 <= j < c@.len() ==> lesson_index(lessons@, (#[trigger] c@[j]).0) >= 0,
            forall|j: int| 0 <= j < lessons@.len() ==> teacher_known(locks@, #[trigger] lessons@[j]),
            teacher_known(locks@, *other),
            forall|j: int|
                0 <= j < i ==> !((#[trigger] c@[j]).1 == nd && kconflict(
                    locks@,
                    member_lesson(lessons@, c@[j]),
                    *other,
                )),
        decreases c@.len() - i,
    {
        let m = c[i];
        if m.1 == nd {
            match find_lesson(lessons, m.0) {
                Some(li) => {
                    assert(lesson_index(lessons@, c@[i as int].0) >= 0);
                    if kconflict_exec(locks, &lessons[li], other) {
                        return true;
                    }
                },
                None => {
                    assert(lesson_index(lessons@, c@[i as int].0) >= 0);
                    assert(false);
                },
            }
        }
        i = i + 1;
    }
    false
}

/// The part of member `i`'s window scanned so far (offsets before `kk`,
/// and the first `qq` placements at offset `kk`) is closed.
spec fn scanned_closed(
    locks: Seq<((SchoolClassId, SubjectId), TeacherId)>,
    ls: Seq<Lesson>,
    ps: Seq<Placement>,
    slots: Seq<((u8, u8), TimeBlockId)>,
    start: u8,
    c: Seq<(LessonId, u8)>,
    i: int,
    kk: int,
    qq: int,
) -> bool {
    forall|k: int, q: int|
        #![trigger window_slot(slots, c[i].1, start, k), ps[q]]
        0 <= k < member_lesson(ls, c[i]).preferred_block_size && 0 <= q < ps.len() && (k < kk || (k == kk && q < qq))
            && window_slot(slots, c[i].1, start, k) == Some(ps[q].time_block_id) ==> chain_has(c, ps[q].lesson_id) || (
        lesson_index(ls, ps[q].lesson_id) >= 0 && !kconflict(
            locks,
            ls[lesson_index(ls, ps[q].lesson_id)],
            member_lesson(ls, c[i]),
        ))
}

/// Every member of `c` is a member of `cc`.
pub open spec fn chain_within(c: Seq<(LessonId, u8)>, cc: Seq<(LessonId, u8)>) -> bool {
    forall|i: int| 0 <= i < c.len() ==> cc.contains(#[trigger] c[i])
}

/// What holds of the chain while the members before `head` have been
/// processed.
spec fn build_inv(
    locks: Seq<((SchoolClassId, SubjectId), TeacherId)>,
    ls: Seq<Lesson>,
    tbs: Seq<TimeBlock>,
    ps: Seq<Placement>,
    slots: Seq<((u8, u8), TimeBlockId)>,
    pinned: Seq<LessonId>,
    seed: LessonId,
    source_day: u8,
    dest_day: u8,
    start: u8,
    max_chain: usize,
    c: Seq<(LessonId, u8)>,
    head: int,
) -> bool {
    &&& c.len() >= 1
    &&& c[0] == (seed, dest_day)
    &&& 0 <= head <= c.len()
    &&& c.len() == 1 || c.len() <= max_chain
    &&& forall|a: int, b: int| 0 <= a < b < c.len() ==> (#[trigger] c[a]).0 != (#[trigger] c[b]).0
    &&& forall|i: int| 0 <= i < c.len() ==> (#[trigger] c[i]).1 == source_day || c[i].1 == dest_day
    &&& forall|i: int| 0 <= i < c.len() && (i >= 1 || i < head) ==> lesson_index(ls, (#[trigger] c[i]).0) >= 0
    &&& forall|i: int|
        0 <= i < head ==> window_ok(slots, (#[trigger] c[i]).1, start, member_lesson(ls, c[i]).preferred_block_size)
    &&& forall|i: int| 0 <= i < head ==> #[trigger] member_closed(locks, ls, ps, slots, start, c, i)
    &&& forall|j: int|
        1 <= j < c.len() ==> #[trigger] member_derived(locks, ls, ps, slots, source_day, dest_day, start, c, j)
    &&& forall|j: int| 1 <= j < c.len() ==> #[trigger] member_eligible(ls, tbs, ps, pinned, source_day, dest_day, c, j)
    &&& forall|a: int, b: int|
        0 <= a < c.len() && 0 <= b < c.len() && a != b && (#[trigger] c[a]).1 == (#[trigger] c[b]).1 ==> !kconflict(
            locks,
            member_lesson(ls, c[a]),
            member_lesson(ls, c[b]),
        )
}


proof fn lemma_candidate_in_valid(
    locks: Seq<((SchoolClassId, SubjectId), TeacherId)>,
    ls: Seq<Lesson>,
    tbs: Seq<TimeBlock>,
    ps: Seq<Placement>,
    slots: Seq<((u8, u8), TimeBlockId)>,
    pinned: Seq<LessonId>,
    seed: LessonId,
    source_day: u8,
    dest_day: u8,
    start: u8,
    max_chain: usize,
    c: Seq<(LessonId, u8)>,
    head: int,
    k: int,
    q: int,
    cc: Seq<(LessonId, u8)>,
)
    requires
        build_inv(locks, ls, tbs, ps, slots, pinned, seed, source_day, dest_day, start, max_chain, c, head),
        0 <= head < c.len(),
        valid_kempe_chain(locks, ls, tbs, ps, slots, pinned, seed, source_day, dest_day, start, max_chain, cc),
        chain_within(c, cc),
        0 <= k < member_lesson(ls, c[head]).preferred_block_size,
        0 <= q < ps.len(),
        window_slot(slots, c[head].1, start, k) == Some(ps[q].time_block_id),
        !chain_has(c, ps[q].lesson_id),
        lesson_index(ls, ps[q].lesson_id) >= 0,
        kconflict(locks, ls[lesson_index(ls, ps[q].lesson_id)], member_lesson(ls, c[head])),
    ensures
        exists|j: int|
            1 <= j < cc.len() && #[trigger] cc[j] == (ps[q].lesson_id, other_day(c[head].1, source_day, dest_day)),
{
    let lid = ps[q].lesson_id;
    assert(cc.contains(c[head]));
    let jh = choose|jh: int| 0 <= jh < cc.len() && cc[jh] == c[head];
    assert(member_closed(locks, ls, ps, slots, start, cc, jh));
    assert(window_slot(slots, cc[jh].1, start, k) == Some(ps[q].time_block_id));
    assert(chain_has(cc, lid));
    let j = choose|j: int| 0 <= j < cc.len() && (#[trigger] cc[j]).0 == lid;
    assert(c[head].0 != lid) by {
        if c[head].0 == lid {
            assert(chain_has(c, lid));
        }
    }
    assert(c[0].0 != lid) by {
        if c[0].0 == lid {
            assert(chain_has(c, lid));
        }
    }
    assert(j != 0);
    assert(j != jh);
    assert(cc[j].1 != cc[jh].1);
    assert(c[head].1 == source_day || c[head].1 == dest_day);
    assert(cc[j].1 == source_day || cc[j].1 == dest_day);
    assert(cc[j] == (lid, other_day(c[head].1, source_day, dest_day)));
}

/// Every valid chain contains the processed chain, so any valid chain
/// would have to contain the candidate as well.
proof fn lemma_abort_popped_missing(
    locks: Seq<((SchoolClassId, SubjectId), TeacherId)>,
    ls: Seq<Lesson>,
    tbs: Seq<TimeBlock>,
    ps: Seq<Placement>,
    slots: Seq<((u8, u8), TimeBlockId)>,
    pinned: Seq<LessonId>,
    seed: LessonId,
    source_day: u8,
    dest_day: u8,
    start: u8,
    max_chain: usize,
    c: Seq<(LessonId, u8)>,
    head: int,
)
    requires
        0 <= head < c.len(),
        lesson_index(ls, c[head].0) < 0,
        forall|cc: Seq<(LessonId, u8)>|
            valid_kempe_chain(locks, ls, tbs, ps, slots, pinned, seed, source_day, dest_day, start, max_chain, cc)
                ==> chain_within(c, cc),
    ensures
        forall|cc: Seq<(LessonId, u8)>|
            !valid_kempe_chain(locks, ls, tbs, ps, slots, pinned, seed, source_day, dest_day, start, max_chain, cc),
{
    assert forall|cc: Seq<(LessonId, u8)>|
        !valid_kempe_chain(locks, ls, tbs, ps, slots, pinned, seed, source_day, dest_day, start, max_chain, cc) by {
        if valid_kempe_chain(locks, ls, tbs, ps, slots, pinned, seed, source_day, dest_day, start, max_chain, cc) {
            assert(chain_within(c, cc));
            assert(cc.contains(c[head]));
            let j = choose|j: int| 0 <= j < cc.len() && cc[j] == c[head];
            assert(lesson_index(ls, cc[j].0) >= 0);
        }
    }
}

proof fn lemma_abort_window(
    locks: Seq<((SchoolClassId, SubjectId), TeacherId)>,
    ls: Seq<Lesson>,
    tbs: Seq<TimeBlock>,
    ps: Seq<Placement>,
    slots: Seq<((u8, u8), TimeBlockId)>,
    pinned: Seq<LessonId>,
    seed: LessonId,
    source_day: u8,
    dest_day: u8,
    start: u8,
    max_chain: usize,
    c: Seq<(LessonId, u8)>,
    head: int,
    k: int,
)
    requires
        0 <= head < c.len(),
        0 <= k < member_lesson(ls, c[head]).preferred_block_size,
        window_slot(slots, c[head].1, start, k) is None,
        forall|cc: Seq<(LessonId, u8)>|
            valid_kempe_chain(locks, ls, tbs, ps, slots, pinned, seed, source_day, dest_day, start, max_chain, cc)
                ==> chain_within(c, cc),
    ensures
        forall|cc: Seq<(LessonId, u8)>|
            !valid_kempe_chain(locks, ls, tbs, ps, slots, pinned, seed, source_day, dest_day, start, max_chain, cc),
{
    assert forall|cc: Seq<(LessonId, u8)>|
        !valid_kempe_chain(locks, ls, tbs, ps, slots, pinned, seed, source_day, dest_day, start, max_chain, cc) by {
        if valid_kempe_chain(locks, ls, tbs, ps, slots, pinned, seed, source_day, dest_day, start, max_chain, cc) {
            assert(chain_within(c, cc));
            assert(cc.contains(c[head]));
            let j = choose|j: int| 0 <= j < cc.len() && cc[j] == c[head];
            assert(window_ok(slots, cc[j].1, start, member_lesson(ls, cc[j]).preferred_block_size));
            assert(window_slot(slots, cc[j].1, start, k) is Some);
        }
    }
}

proof fn lemma_abort_other_missing(
    locks: Seq<((SchoolClassId, SubjectId), TeacherId)>,
    ls: Seq<Lesson>,
    tbs: Seq<TimeBlock>,
    ps: Seq<Placement>,
    slots: Seq<((u8, u8), TimeBlockId)>,
    pinned: Seq<LessonId>,
    seed: LessonId,
    source_day: u8,
    dest_day: u8,
    start: u8,
    max_chain: usize,
    c: Seq<(LessonId, u8)>,
    head: int,
    k: int,
    q: int,
)
    requires
        0 <= head < c.len(),
        0 <= k < member_lesson(ls, c[head]).preferred_block_size,
        0 <= q < ps.len(),
        window_slot(slots, c[head].1, start, k) == Some(ps[q].time_block_id),
        lesson_index(ls, ps[q].lesson_id) < 0,
        forall|cc: Seq<(LessonId, u8)>|
            valid_kempe_chain(locks, ls, tbs, ps, slots, pinned, seed, source_day, dest_day, start, max_chain, cc)
                ==> chain_within(c, cc),
    ensures
        forall|cc: Seq<(LessonId, u8)>|
            !valid_kempe_chain(locks, ls, tbs, ps, slots, pinned, seed, source_day, dest_day, start, max_chain, cc),
{
    assert forall|cc: Seq<(LessonId, u8)>|
        !valid_kempe_chain(locks, ls, tbs, ps, slots, pinned, seed, source_day, dest_day, start, max_chain, cc) by {
        if valid_kempe_chain(locks, ls, tbs, ps, slots, pinned, seed, source_day, dest_day, start, max_chain, cc) {
            assert(chain_within(c, cc));
            assert(cc.contains(c[head]));
            let jh = choose|jh: int| 0 <= jh < cc.len() && cc[jh] == c[head];
            assert(member_closed(locks, ls, ps, slots, start, cc, jh));
            assert(window_slot(slots, cc[jh].1, start, k) == Some(ps[q].time_block_id));
            assert(chain_has(cc, ps[q].lesson_id));
            let j = choose|j: int| 0 <= j < cc.len() && (#[trigger] cc[j]).0 == ps[q].lesson_id;
            assert(lesson_index(ls, cc[j].0) >= 0);
        }
    }
}

proof fn lemma_abort_ineligible(
    locks: Seq<((SchoolClassId, SubjectId), TeacherId)>,
    ls: Seq<Lesson>,
    tbs: Seq<TimeBlock>,
    ps: Seq<Placement>,
    slots: Seq<((u8, u8), TimeBlockId)>,
    pinned: Seq<LessonId>,
    seed: LessonId,
    source_day: u8,
    dest_day: u8,
    start: u8,
    max_chain: usize,
    c: Seq<(LessonId, u8)>,
    head: int,
    k: int,
    q: int,
)
    requires
        build_inv(locks, ls, tbs, ps, slots, pinned, seed, source_day, dest_day, start, max_chain, c, head),
        0 <= head < c.len(),
        0 <= k < member_lesson(ls, c[head]).preferred_block_size,
        0 <= q < ps.len(),
        window_slot(slots, c[head].1, start, k) == Some(ps[q].time_block_id),
        !chain_has(c, ps[q].lesson_id),
        lesson_index(ls, ps[q].lesson_id) >= 0,
        kconflict(locks, ls[lesson_index(ls, ps[q].lesson_id)], member_lesson(ls, c[head])),
        pinned.contains(ps[q].lesson_id) || ls[lesson_index(ls, ps[q].lesson_id)].lesson_group_id is Some || hours_on(
            ps,
            tbs,
            ps[q].lesson_id,
            c[head].1,
        ) != ls[lesson_index(ls, ps[q].lesson_id)].preferred_block_size,
        forall|cc: Seq<(LessonId, u8)>|
            valid_kempe_chain(locks, ls, tbs, ps, slots, pinned, seed, source_day, dest_day, start, max_chain, cc)
                ==> chain_within(c, cc),
    ensures
        forall|cc: Seq<(LessonId, u8)>|
            !valid_kempe_chain(locks, ls, tbs, ps, slots, pinned, seed, source_day, dest_day, start, max_chain, cc),
{
    assert forall|cc: Seq<(LessonId, u8)>|
        !valid_kempe_chain(locks, ls, tbs, ps, slots, pinned, seed, source_day, dest_day, start, max_chain, cc) by {
        if valid_kempe_chain(locks, ls, tbs, ps, slots, pinned, seed, source_day, dest_day, start, max_chain, cc) {
            lemma_candidate_in_valid(
                locks,
                ls,
                tbs,
                ps,
                slots,
                pinned,
                seed,
                source_day,
                dest_day,
                start,
                max_chain,
                c,
                head,
                k,
                q,
                cc,
            );
            let nd = other_day(c[head].1, source_day, dest_day);
            let j = choose|j: int| 1 <= j < cc.len() && #[trigger] cc[j] == (ps[q].lesson_id, nd);
            assert(member_eligible(ls, tbs, ps, pinned, source_day, dest_day, cc, j));
            lemma_other_day_back(c[head].1, source_day, dest_day);
        }
    }
}

proof fn lemma_abort_same_color(
    locks: Seq<((SchoolClassId, SubjectId), TeacherId)>,
    ls: Seq<Lesson>,
    tbs: Seq<TimeBlock>,
    ps: Seq<Placement>,
    slots: Seq<((u8, u8), TimeBlockId)>,
    pinned: Seq<LessonId>,
    seed: LessonId,
    source_day: u8,
    dest_day: u8,
    start: u8,
    max_chain: usize,
    c: Seq<(LessonId, u8)>,
    head: int,
    k: int,
    q: int,
)
    requires
        build_inv(locks, ls, tbs, ps, slots, pinned, seed, source_day, dest_day, start, max_chain, c, head),
        0 <= head < c.len(),
        0 <= k < member_lesson(ls, c[head]).preferred_block_size,
        0 <= q < ps.len(),
        window_slot(slots, c[head].1, start, k) == Some(ps[q].time_block_id),
        !chain_has(c, ps[q].lesson_id),
        lesson_index(ls, ps[q].lesson_id) >= 0,
        kconflict(locks, ls[lesson_index(ls, ps[q].lesson_id)], member_lesson(ls, c[head])),
        exists|i: int|
            0 <= i < c.len() && (#[trigger] c[i]).1 == other_day(c[head].1, source_day, dest_day) && kconflict(
                locks,
                member_lesson(ls, c[i]),
                ls[lesson_index(ls, ps[q].lesson_id)],
            ),
        forall|cc: Seq<(LessonId, u8)>|
            valid_kempe_chain(locks, ls, tbs, ps, slots, pinned, seed, source_day, dest_day, start, max_chain, cc)
                ==> chain_within(c, cc),
    ensures
        forall|cc: Seq<(LessonId, u8)>|
            !valid_kempe_chain(locks, ls, tbs, ps, slots, pinned, seed, source_day, dest_day, start, max_chain, cc),
{
    let nd = other_day(c[head].1, source_day, dest_day);
    let i = choose|i: int|
        0 <= i < c.len() && (#[trigger] c[i]).1 == nd && kconflict(
            locks,
            member_lesson(ls, c[i]),
            ls[lesson_index(ls, ps[q].lesson_id)],
        );
    assert forall|cc: Seq<(LessonId, u8)>|
        !valid_kempe_chain(locks, ls, tbs, ps, slots, pinned, seed, source_day, dest_day, start, max_chain, cc) by {
        if valid_kempe_chain(locks, ls, tbs, ps, slots, pinned, seed, source_day, dest_day, start, max_chain, cc) {
            lemma_candidate_in_valid(
                locks,
                ls,
                tbs,
                ps,
                slots,
                pinned,
                seed,
                source_day,
                dest_day,
                start,
                max_chain,
                c,
                head,
                k,
                q,
                cc,
            );
            let j = choose|j: int| 1 <= j < cc.len() && #[trigger] cc[j] == (ps[q].lesson_id, nd);
            assert(chain_within(c, cc));
            assert(cc.contains(c[i]));
            let ji = choose|ji: int| 0 <= ji < cc.len() && cc[ji] == c[i];
            assert(c[i].0 != ps[q].lesson_id) by {
                if c[i].0 == ps[q].lesson_id {
                    assert(chain_has(c, ps[q].lesson_id));
                }
            }
            assert(ji != j);
            assert(cc[ji].1 == cc[j].1);
            assert(!kconflict(locks, member_lesson(ls, cc[ji]), member_lesson(ls, cc[j])));
        }
    }
}


proof fn lemma_push_inv(
    locks: Seq<((SchoolClassId, SubjectId), TeacherId)>,
    ls: Seq<Lesson>,
    tbs: Seq<TimeBlock>,
    ps: Seq<Placement>,
    slots: Seq<((u8, u8), TimeBlockId)>,
    pinned: Seq<LessonId>,
    seed: LessonId,
    source_day: u8,
    dest_day: u8,
    start: u8,
    max_chain: usize,
    c: Seq<(LessonId, u8)>,
    head: int,
    k: int,
    q: int,
)
    requires
        build_inv(locks, ls, tbs, ps, slots, pinned, seed, source_day, dest_day, start, max_chain, c, head),
        0 <= head < c.len(),
        0 <= k < member_lesson(ls, c[head]).preferred_block_size,
        0 <= q < ps.len(),
        window_slot(slots, c[head].1, start, k) == Some(ps[q].time_block_id),
        !chain_has(c, ps[q].lesson_id),
        lesson_index(ls, ps[q].lesson_id) >= 0,
        kconflict(locks, ls[lesson_index(ls, ps[q].lesson_id)], member_lesson(ls, c[head])),
        !pinned.contains(ps[q].lesson_id),
        ls[lesson_index(ls, ps[q].lesson_id)].lesson_group_id is None,
        hours_on(ps, tbs, ps[q].lesson_id, c[head].1) == ls[lesson_index(ls, ps[q].lesson_id)].preferred_block_size,
        forall|i: int|
            0 <= i < c.len() && (#[trigger] c[i]).1 == other_day(c[head].1, source_day, dest_day) ==> !kconflict(
                locks,
                member_lesson(ls, c[i]),
                ls[lesson_index(ls, ps[q].lesson_id)],
            ),
        c.len() + 1 <= max_chain,
    ensures
        build_inv(
            locks,
            ls,
            tbs,
            ps,
            slots,
            pinned,
            seed,
            source_day,
            dest_day,
            start,
            max_chain,
            c.push((ps[q].lesson_id, other_day(c[head].1, source_day, dest_day))),
            head,
        ),
        forall|id: LessonId|
            chain_has(c, id) ==> #[trigger] chain_has(
                c.push((ps[q].lesson_id, other_day(c[head].1, source_day, dest_day))),
                id,
            ),
        chain_has(c.push((ps[q].lesson_id, other_day(c[head].1, source_day, dest_day))), ps[q].lesson_id),
{
    let lid = ps[q].lesson_id;
    let nd = other_day(c[head].1, source_day, dest_day);
    let x = (lid, nd);
    let c2 = c.push(x);
    let n = c.len() as int;
    let other = ls[lesson_index(ls, lid)];
    assert(c2[n] == x);
    assert forall|id: LessonId| chain_has(c, id) implies #[trigger] chain_has(c2, id) by {
        let i = choose|i: int| 0 <= i < c.len() && (#[trigger] c[i]).0 == id;
        assert(c2[i] == c[i]);
    }
    assert(chain_has(c2, lid));
    assert forall|a: int, b: int| 0 <= a < b < c2.len() implies (#[trigger] c2[a]).0 != (#[trigger] c2[b]).0 by {
        assert(c2[a] == c[a]);
        if b < n {
            assert(c2[b] == c[b]);
        } else {
            if c[a].0 == lid {
                assert(chain_has(c, lid));
            }
        }
    }
    assert forall|i: int| 0 <= i < c2.len() implies (#[trigger] c2[i]).1 == source_day || c2[i].1 == dest_day by {
        if i < n {
            assert(c2[i] == c[i]);
        }
    }
    assert forall|i: int| 0 <= i < c2.len() && (i >= 1 || i < head) implies lesson_index(ls, (#[trigger] c2[i]).0) >= 0 by {
        if i < n {
            assert(c2[i] == c[i]);
        }
    }
    assert forall|i: int| 0 <= i < head implies window_ok(
        slots,
        (#[trigger] c2[i]).1,
        start,
        member_lesson(ls, c2[i]).preferred_block_size,
    ) by {
        assert(c2[i] == c[i]);
    }
    assert forall|i: int| 0 <= i < head implies #[trigger] member_closed(locks, ls, ps, slots, start, c2, i) by {
        assert(c2[i] == c[i]);
        assert(member_closed(locks, ls, ps, slots, start, c, i));
        assert forall|kk: int, qq: int|
            #![trigger window_slot(slots, c2[i].1, start, kk), ps[qq]]
            0 <= kk < member_lesson(ls, c2[i]).preferred_block_size && 0 <= qq < ps.len() && window_slot(
                slots,
                c2[i].1,
                start,
                kk,
            ) == Some(ps[qq].time_block_id) implies chain_has(c2, ps[qq].lesson_id) || (lesson_index(
            ls,
            ps[qq].lesson_id,
        ) >= 0 && !kconflict(locks, ls[lesson_index(ls, ps[qq].lesson_id)], member_lesson(ls, c2[i]))) by {
            assert(window_slot(slots, c[i].1, start, kk) == Some(ps[qq].time_block_id));
            if chain_has(c, ps[qq].lesson_id) {
                assert(chain_has(c2, ps[qq].lesson_id));
            }
        }
    }
    assert forall|j: int| 1 <= j < c2.len() implies #[trigger] member_derived(
        locks,
        ls,
        ps,
        slots,
        source_day,
        dest_day,
        start,
        c2,
        j,
    ) by {
        if j < n {
            assert(member_derived(locks, ls, ps, slots, source_day, dest_day, start, c, j));
            let (i, kk, qq) = choose|i: int, kk: int, qq: int|
                #![trigger c[i], window_slot(slots, c[i].1, start, kk), ps[qq]]
                0 <= i < j && 0 <= kk < member_lesson(ls, c[i]).preferred_block_size && 0 <= qq < ps.len()
                    && window_slot(slots, c[i].1, start, kk) == Some(ps[qq].time_block_id) && ps[qq].lesson_id
                    == c[j].0 && kconflict(locks, member_lesson(ls, c[j]), member_lesson(ls, c[i])) && c[j].1
                    == other_day(c[i].1, source_day, dest_day);
            assert(c2[i] == c[i]);
            assert(c2[j] == c[j]);
            assert(window_slot(slots, c2[i].1, start, kk) == Some(ps[qq].time_block_id));
        } else {
            assert(c2[head] == c[head]);
            assert(window_slot(slots, c2[head].1, start, k) == Some(ps[q].time_block_id));
            assert(member_lesson(ls, c2[j]) == other);
        }
    }
    lemma_other_day_back(c[head].1, source_day, dest_day);
    assert forall|j: int| 1 <= j < c2.len() implies #[trigger] member_eligible(
        ls,
        tbs,
        ps,
        pinned,
        source_day,
        dest_day,
        c2,
        j,
    ) by {
        if j < n {
            assert(c2[j] == c[j]);
            assert(member_eligible(ls, tbs, ps, pinned, source_day, dest_day, c, j));
        }
    }
    assert forall|a: int, b: int|
        0 <= a < c2.len() && 0 <= b < c2.len() && a != b && (#[trigger] c2[a]).1 == (#[trigger] c2[b]).1 implies !kconflict(
        locks,
        member_lesson(ls, c2[a]),
        member_lesson(ls, c2[b]),
    ) by {
        if a < n && b < n {
            assert(c2[a] == c[a]);
            assert(c2[b] == c[b]);
        } else if a == n {
            assert(c2[b] == c[b]);
            assert(c[b].1 == nd);
            lemma_kconflict_sym(locks, member_lesson(ls, c[b]), other);
        } else {
            assert(c2[a] == c[a]);
            assert(c[a].1 == nd);
        }
    }
}

proof fn lemma_abort_too_long(
    locks: Seq<((SchoolClassId, SubjectId), TeacherId)>,
    ls: Seq<Lesson>,
    tbs: Seq<TimeBlock>,
    ps: Seq<Placement>,
    slots: Seq<((u8, u8), TimeBlockId)>,
    pinned: Seq<LessonId>,
    seed: LessonId,
    source_day: u8,
    dest_day: u8,
    start: u8,
    max_chain: usize,
    c: Seq<(LessonId, u8)>,
    head: int,
    k: int,
    q: int,
)
    requires
        build_inv(locks, ls, tbs, ps, slots, pinned, seed, source_day, dest_day, start, max_chain, c, head),
        0 <= head < c.len(),
        0 <= k < member_lesson(ls, c[head]).preferred_block_size,
        0 <= q < ps.len(),
        window_slot(slots, c[head].1, start, k) == Some(ps[q].time_block_id),
        !chain_has(c, ps[q].lesson_id),
        lesson_index(ls, ps[q].lesson_id) >= 0,
        kconflict(locks, ls[lesson_index(ls, ps[q].lesson_id)], member_lesson(ls, c[head])),
        c.len() + 1 > max_chain,
        forall|cc: Seq<(LessonId, u8)>|
            valid_kempe_chain(locks, ls, tbs, ps, slots, pinned, seed, source_day, dest_day, start, max_chain, cc)
                ==> chain_within(c, cc),
    ensures
        forall|cc: Seq<(LessonId, u8)>|
            !valid_kempe_chain(locks, ls, tbs, ps, slots, pinned, seed, source_day, dest_day, start, max_chain, cc),
{
    broadcast use vstd::seq_lib::seq_to_set_is_finite;

    let lid = ps[q].lesson_id;
    let nd = other_day(c[head].1, source_day, dest_day);
    let c2 = c.push((lid, nd));
    let n = c.len() as int;
    assert(c2.no_duplicates()) by {
        assert forall|a: int, b: int| 0 <= a < c2.len() && 0 <= b < c2.len() && a != b implies c2[a] != c2[b] by {
            if a < n && b < n {
                assert(c2[a] == c[a]);
                assert(c2[b] == c[b]);
                if a < b {
                    assert(c[a].0 != c[b].0);
                } else {
                    assert(c[b].0 != c[a].0);
                }
            } else if a == n {
                assert(c2[b] == c[b]);
                if c[b].0 == lid {
                    assert(chain_has(c, lid));
                }
            } else {
                assert(c2[a] == c[a]);
                if c[a].0 == lid {
                    assert(chain_has(c, lid));
                }
            }
        }
    }
    c2.unique_seq_to_set();
    assert forall|cc: Seq<(LessonId, u8)>|
        !valid_kempe_chain(locks, ls, tbs, ps, slots, pinned, seed, source_day, dest_day, start, max_chain, cc) by {
        if valid_kempe_chain(locks, ls, tbs, ps, slots, pinned, seed, source_day, dest_day, start, max_chain, cc) {
            assert(chain_within(c, cc));
            lemma_candidate_in_valid(
                locks,
                ls,
                tbs,
                ps,
                slots,
                pinned,
                seed,
                source_day,
                dest_day,
                start,
                max_chain,
                c,
                head,
                k,
                q,
                cc,
            );
            let j = choose|j: int| 1 <= j < cc.len() && #[trigger] cc[j] == (lid, nd);
            assert(c2.to_set().subset_of(cc.to_set())) by {
                assert forall|x: (LessonId, u8)| c2.to_set().contains(x) implies cc.to_set().contains(x) by {
                    let i = choose|i: int| 0 <= i < c2.len() && c2[i] == x;
                    if i < n {
                        assert(c2[i] == c[i]);
                        assert(cc.contains(c[i]));
                    } else {
                        assert(cc[j] == x);
                    }
                }
            }
            vstd::set_lib::lemma_len_subset(c2.to_set(), cc.to_set());
            cc.lemma_cardinality_of_set();
        }
    }
}


proof fn lemma_scanned_push(
    locks: Seq<((SchoolClassId, SubjectId), TeacherId)>,
    ls: Seq<Lesson>,
    ps: Seq<Placement>,
    slots: Seq<((u8, u8), TimeBlockId)>,
    start: u8,
    c: Seq<(LessonId, u8)>,
    x: (LessonId, u8),
    head: int,
    kk: int,
    qq: int,
)
    requires
        0 <= head < c.len(),
        scanned_closed(locks, ls, ps, slots, start, c, head, kk, qq),
    ensures
        scanned_closed(locks, ls, ps, slots, start, c.push(x), head, kk, qq),
{
    let c2 = c.push(x);
    assert(c2[head] == c[head]);
    assert forall|k: int, q: int|
        #![trigger window_slot(slots, c2[head].1, start, k), ps[q]]
        0 <= k < member_lesson(ls, c2[head]).preferred_block_size && 0 <= q < ps.len() && (k < kk || (k == kk && q
            < qq)) && window_slot(slots, c2[head].1, start, k) == Some(ps[q].time_block_id) implies chain_has(
        c2,
        ps[q].lesson_id,
    ) || (lesson_index(ls, ps[q].lesson_id) >= 0 && !kconflict(
        locks,
        ls[lesson_index(ls, ps[q].lesson_id)],
        member_lesson(ls, c2[head]),
    )) by {
        assert(window_slot(slots, c[head].1, start, k) == Some(ps[q].time_block_id));
        if chain_has(c, ps[q].lesson_id) {
            let i = choose|i: int| 0 <= i < c.len() && (#[trigger] c[i]).0 == ps[q].lesson_id;
            assert(c2[i] == c[i]);
        }
    }
}

proof fn lemma_scanned_step(
    locks: Seq<((SchoolClassId, SubjectId), TeacherId)>,
    ls: Seq<Lesson>,
    ps: Seq<Placement>,
    slots: Seq<((u8, u8), TimeBlockId)>,
    start: u8,
    c: Seq<(LessonId, u8)>,
    head: int,
    kk: int,
    qq: int,
)
    requires
        0 <= head < c.len(),
        0 <= qq < ps.len(),
        scanned_closed(locks, ls, ps, slots, start, c, head, kk, qq),
        window_slot(slots, c[head].1, start, kk) == Some(ps[qq].time_block_id) ==> chain_has(c, ps[qq].lesson_id) || (
        lesson_index(ls, ps[qq].lesson_id) >= 0 && !kconflict(
            locks,
            ls[lesson_index(ls, ps[qq].lesson_id)],
            member_lesson(ls, c[head]),
        )),
    ensures
        scanned_closed(locks, ls, ps, slots, start, c, head, kk, qq + 1),
{
}

proof fn lemma_scanned_next(
    locks: Seq<((SchoolClassId, SubjectId), TeacherId)>,
    ls: Seq<Lesson>,
    ps: Seq<Placement>,
    slots: Seq<((u8, u8), TimeBlockId)>,
    start: u8,
    c: Seq<(LessonId, u8)>,
    head: int,
    kk: int,
)
    requires
        0 <= head < c.len(),
        scanned_closed(locks, ls, ps, slots, start, c, head, kk, ps.len() as int),
    ensures
        scanned_closed(locks, ls, ps, slots, start, c, head, kk + 1, 0),
        kk + 1 >= member_lesson(ls, c[head]).preferred_block_size ==> member_closed(
            locks,
            ls,
            ps,
            slots,
            start,
            c,
            head,
        ),
{
}

/// Build the Kempe chain that moves `seed_lesson` from `source_day` to
/// `dest_day` at the window starting at `start_pos`: a breadth-first walk
/// over the teacher and class conflicts found in each member's destination
/// window, each new member bound for the other day. `class_subject_teacher`
/// is the teacher lock table, `tb_by_day_pos` maps `(day, position)` to a
/// block, `pinned` lists the pinned lessons and `max_chain` bounds the
/// number of members. Returns `Built` with a valid chain when one exists,
/// `Aborted` otherwise (a pinned, grouped or split member, a missing
/// window, two members bound for the same day that conflict, or too many
/// members).
#[verifier::loop_isolation(false)]
pub fn kempe_build_chain(
    class_subject_teacher: &Vec<((SchoolClassId, SubjectId), TeacherId)>,
    seed_lesson: LessonId,
    source_day: u8,
    dest_day: u8,
    start_pos: u8,
    placements: &[Placement],
    lessons: &Vec<Lesson>,
    tbs: &Vec<TimeBlock>,
    tb_by_day_pos: &Vec<((u8, u8), TimeBlockId)>,
    pinned: &Vec<LessonId>,
    max_chain: usize,
) -> (r: ChainBuild)
    requires
        forall|i: int| 0 <= i < lessons@.len() ==> teacher_known(class_subject_teacher@, #[trigger] lessons@[i]),
        forall|i: int| 0 <= i < lessons@.len() ==> start_pos + (#[trigger] lessons@[i]).preferred_block_size <= 256,
    ensures
        match r {
            ChainBuild::Built(c) => valid_kempe_chain(
                class_subject_teacher@,
                lessons@,
                tbs@,
                placements@,
                tb_by_day_pos@,
                pinned@,
                seed_lesson,
                source_day,
                dest_day,
                start_pos,
                max_chain,
                c@,
            ),
            ChainBuild::Aborted => forall|c: Seq<(LessonId, u8)>|
                !valid_kempe_chain(
                    class_subject_teacher@,
                    lessons@,
                    tbs@,
                    placements@,
                    tb_by_day_pos@,
                    pinned@,
                    seed_lesson,
                    source_day,
                    dest_day,
                    start_pos,
                    max_chain,
                    c,
                ),
        },
{
    let ghost locks = class_subject_teacher@;
    let ghost ls = lessons@;
    let ghost tv = tbs@;
    let ghost ps = placements@;
    let ghost slots = tb_by_day_pos@;
    let ghost pins = pinned@;
    let mut chain: Vec<(LessonId, u8)> = Vec::new();
    chain.push((seed_lesson, dest_day));
    proof {
        assert forall|cc: Seq<(LessonId, u8)>|
            valid_kempe_chain(locks, ls, tv, ps, slots, pins, seed_lesson, source_day, dest_day, start_pos, max_chain, cc) implies chain_within(chain@, cc) by {
            assert(cc[0] == chain@[0]);
            assert forall|i: int| 0 <= i < chain@.len() implies cc.contains(#[trigger] chain@[i]) by {
                assert(i == 0);
            }
        }
    }
    let ghost bound: int = if max_chain > 1 {
        max_chain as int
    } else {
        1
    };
    let mut head: usize = 0;
    while head < chain.len()
        invariant
            build_inv(locks, ls, tv, ps, slots, pins, seed_lesson, source_day, dest_day, start_pos, max_chain, chain@, head as int),
            forall|cc: Seq<(LessonId, u8)>|
                valid_kempe_chain(locks, ls, tv, ps, slots, pins, seed_lesson, source_day, dest_day, start_pos, max_chain, cc) ==> chain_within(chain@, cc),
            chain@.len() <= bound,
        decreases bound - head,
    {
        let member = chain[head];
        let li = match find_lesson(lessons, member.0) {
            Some(i) => i,
            None => {
                proof {
                    lemma_abort_popped_missing(locks, ls, tv, ps, slots, pins, seed_lesson, source_day, dest_day, start_pos, max_chain, chain@, head as int);
                }
                return ChainBuild::Aborted;
            },
        };
        let popped = &lessons[li];
        assert(member_lesson(ls, chain@[head as int]) == *popped);
        let n = popped.preferred_block_size;
        let nd: u8 = if member.1 == dest_day {
            source_day
        } else {
            dest_day
        };
        assert(start_pos + n <= 256);
        let mut k: u8 = 0;
        while k < n
            invariant
                k <= n,
                forall|kk: int| 0 <= kk < k ==> (#[trigger] window_slot(slots, member.1, start_pos, kk)) is Some,
            decreases n - k,
        {
            if lookup_slot(tb_by_day_pos, (member.1, start_pos + k)).is_none() {
                proof {
                    lemma_abort_window(locks, ls, tv, ps, slots, pins, seed_lesson, source_day, dest_day, start_pos, max_chain, chain@, head as int, k as int);
                }
                return ChainBuild::Aborted;
            }
            k = k + 1;
        }
        let mut k: u8 = 0;
        while k < n
            invariant
                k <= n,
                build_inv(locks, ls, tv, ps, slots, pins, seed_lesson, source_day, dest_day, start_pos, max_chain, chain@, head as int),
                head < chain@.len(),
                chain@[head as int] == member,
                forall|cc: Seq<(LessonId, u8)>|
                    valid_kempe_chain(locks, ls, tv, ps, slots, pins, seed_lesson, source_day, dest_day, start_pos, max_chain, cc) ==> chain_within(chain@, cc),
                chain@.len() <= bound,
                scanned_closed(locks, ls, ps, slots, start_pos, chain@, head as int, k as int, 0),
            decreases n - k,
        {
            let tb = match lookup_slot(tb_by_day_pos, (member.1, start_pos + k)) {
                Some(t) => t,
                None => {
                    assert(window_slot(slots, member.1, start_pos, k as int) is Some);
                    return ChainBuild::Aborted;
                },
            };
            let mut q: usize = 0;
            while q < placements.len()
                invariant
                    q <= ps.len(),
                    k < n,
                    build_inv(locks, ls, tv, ps, slots, pins, seed_lesson, source_day, dest_day, start_pos, max_chain, chain@, head as int),
                    head < chain@.len(),
                    chain@[head as int] == member,
                    forall|cc: Seq<(LessonId, u8)>|
                        valid_kempe_chain(locks, ls, tv, ps, slots, pins, seed_lesson, source_day, dest_day, start_pos, max_chain, cc) ==> chain_within(chain@, cc),
                    chain@.len() <= bound,
                    scanned_closed(locks, ls, ps, slots, start_pos, chain@, head as int, k as int, q as int),
                    window_slot(slots, member.1, start_pos, k as int) == Some(tb),
                decreases ps.len() - q,
            {
                let p = placements[q];
                if p.time_block_id == tb && !chain_has_exec(&chain, p.lesson_id) {
                    match find_lesson(lessons, p.lesson_id) {
                        None => {
                            proof {
                                lemma_abort_other_missing(locks, ls, tv, ps, slots, pins, seed_lesson, source_day, dest_day, start_pos, max_chain, chain@, head as int, k as int, q as int);
                            }
                            return ChainBuild::Aborted;
                        },
                        Some(oi) => {
                            let other = &lessons[oi];
                            if kconflict_exec(class_subject_teacher, other, popped) {
                                if contains_lesson(pinned, p.lesson_id) || other.lesson_group_id.is_some()
                                    || hours_on_exec(placements, tbs, p.lesson_id, member.1)
                                    != other.preferred_block_size as usize {
                                    proof {
                                        lemma_abort_ineligible(locks, ls, tv, ps, slots, pins, seed_lesson, source_day, dest_day, start_pos, max_chain, chain@, head as int, k as int, q as int);
                                    }
                                    return ChainBuild::Aborted;
                                }
                                proof {
                                    assert forall|i: int| 0 <= i < chain@.len() implies lesson_index(
                                        ls,
                                        (#[trigger] chain@[i]).0,
                                    ) >= 0 by {
                                        if i == 0 && head == 0 {
                                            assert(chain@[i] == member);
                                        }
                                    }
                                }
                                if same_color_conflict(&chain, lessons, class_subject_teacher, other, nd) {
                                    proof {
                                        lemma_abort_same_color(locks, ls, tv, ps, slots, pins, seed_lesson, source_day, dest_day, start_pos, max_chain, chain@, head as int, k as int, q as int);
                                    }
                                    return ChainBuild::Aborted;
                                }
                                if chain.len() >= max_chain {
                                    proof {
                                        lemma_abort_too_long(locks, ls, tv, ps, slots, pins, seed_lesson, source_day, dest_day, start_pos, max_chain, chain@, head as int, k as int, q as int);
                                    }
                                    return ChainBuild::Aborted;
                                }
                                let ghost old_chain = chain@;
                                proof {
                                    lemma_push_inv(locks, ls, tv, ps, slots, pins, seed_lesson, source_day, dest_day, start_pos, max_chain, old_chain, head as int, k as int, q as int);
                                    lemma_scanned_push(
                                        locks,
                                        ls,
                                        ps,
                                        slots,
                                        start_pos,
                                        old_chain,
                                        (p.lesson_id, nd),
                                        head as int,
                                        k as int,
                                        q as int,
                                    );
                                }
                                chain.push((p.lesson_id, nd));
                                proof {
                                    assert(chain@ == old_chain.push((p.lesson_id, nd)));
                                    assert forall|cc: Seq<(LessonId, u8)>|
                                        valid_kempe_chain(locks, ls, tv, ps, slots, pins, seed_lesson, source_day, dest_day, start_pos, max_chain, cc) implies chain_within(chain@, cc) by {
                                        assert(chain_within(old_chain, cc));
                                        lemma_candidate_in_valid(locks, ls, tv, ps, slots, pins, seed_lesson, source_day, dest_day, start_pos, max_chain, old_chain, head as int, k as int, q as int, cc);
                                        let j = choose|j: int|
                                            1 <= j < cc.len() && #[trigger] cc[j] == (p.lesson_id, nd);
                                        assert forall|i: int| 0 <= i < chain@.len() implies cc.contains(
                                            #[trigger] chain@[i],
                                        ) by {
                                            if i < old_chain.len() {
                                                assert(chain@[i] == old_chain[i]);
                                                assert(cc.contains(old_chain[i]));
                                            } else {
                                                assert(cc[j] == chain@[i]);
                                            }
                                        }
                                    }
                                }
                            }
                        },
                    }
                }
                proof {
                    lemma_scanned_step(locks, ls, ps, slots, start_pos, chain@, head as int, k as int, q as int);
                }
                q = q + 1;
            }
            proof {
                lemma_scanned_next(locks, ls, ps, slots, start_pos, chain@, head as int, k as int);
            }
            k = k + 1;
        }
        proof {
            if n == 0 {
                lemma_scanned_next(locks, ls, ps, slots, start_pos, chain@, head as int, -1);
            }
            assert(member_closed(locks, ls, ps, slots, start_pos, chain@, head as int));
            assert(window_ok(slots, chain@[head as int].1, start_pos, member_lesson(ls, chain@[head as int]).preferred_block_size));
        }
        head = head + 1;
    }
    ChainBuild::Built(chain)
}


proof fn lemma_valid_member_in(
    locks: Seq<((SchoolClassId, SubjectId), TeacherId)>,
    ls: Seq<Lesson>,
    tbs: Seq<TimeBlock>,
    ps: Seq<Placement>,
    slots: Seq<((u8, u8), TimeBlockId)>,
    pinned: Seq<LessonId>,
    seed: LessonId,
    source_day: u8,
    dest_day: u8,
    start: u8,
    max_chain: usize,
    c1: Seq<(LessonId, u8)>,
    c2: Seq<(LessonId, u8)>,
    j: int,
)
    requires
        valid_kempe_chain(locks, ls, tbs, ps, slots, pinned, seed, source_day, dest_day, start, max_chain, c1),
        valid_kempe_chain(locks, ls, tbs, ps, slots, pinned, seed, source_day, dest_day, start, max_chain, c2),
        0 <= j < c1.len(),
    ensures
        c2.contains(c1[j]),
    decreases j,
{
    if j == 0 {
        assert(c2[0] == c1[0]);
    } else {
        assert(member_derived(locks, ls, ps, slots, source_day, dest_day, start, c1, j));
        let (i, k, q) = choose|i: int, k: int, q: int|
            #![trigger c1[i], window_slot(slots, c1[i].1, start, k), ps[q]]
            0 <= i < j && 0 <= k < member_lesson(ls, c1[i]).preferred_block_size && 0 <= q < ps.len()
                && window_slot(slots, c1[i].1, start, k) == Some(ps[q].time_block_id) && ps[q].lesson_id == c1[j].0
                && kconflict(locks, member_lesson(ls, c1[j]), member_lesson(ls, c1[i])) && c1[j].1 == other_day(
                c1[i].1,
                source_day,
                dest_day,
            );
        lemma_valid_member_in(locks, ls, tbs, ps, slots, pinned, seed, source_day, dest_day, start, max_chain, c1, c2, i);
        let m = choose|m: int| 0 <= m < c2.len() && c2[m] == c1[i];
        assert(member_closed(locks, ls, ps, slots, start, c2, m));
        assert(window_slot(slots, c2[m].1, start, k) == Some(ps[q].time_block_id));
        assert(lesson_index(ls, c1[j].0) >= 0);
        assert(chain_has(c2, c1[j].0));
        let t = choose|t: int| 0 <= t < c2.len() && (#[trigger] c2[t]).0 == c1[j].0;
        assert(c1[i].0 != c1[j].0);
        assert(t != m);
        assert(c2[t].1 != c2[m].1);
        assert(c2[t].1 == source_day || c2[t].1 == dest_day);
        assert(c1[i].1 == source_day || c1[i].1 == dest_day);
        assert(c2[t] == c1[j]);
    }
}

proof fn lemma_valid_no_duplicates(
    locks: Seq<((SchoolClassId, SubjectId), TeacherId)>,
    ls: Seq<Lesson>,
    tbs: Seq<TimeBlock>,
    ps: Seq<Placement>,
    slots: Seq<((u8, u8), TimeBlockId)>,
    pinned: Seq<LessonId>,
    seed: LessonId,
    source_day: u8,
    dest_day: u8,
    start: u8,
    max_chain: usize,
    c: Seq<(LessonId, u8)>,
)
    requires
        valid_kempe_chain(locks, ls, tbs, ps, slots, pinned, seed, source_day, dest_day, start, max_chain, c),
    ensures
        c.no_duplicates(),
{
    assert forall|a: int, b: int| 0 <= a < c.len() && 0 <= b < c.len() && a != b implies c[a] != c[b] by {
        if a < b {
            assert(c[a].0 != c[b].0);
        } else {
            assert(c[b].0 != c[a].0);
        }
    }
}

/// A Kempe chain is determined by its request: two valid chains for the
/// same request hold the same members, each bound for the same day, and
/// differ at most in the order of the members.
pub proof fn lemma_kempe_chain_unique(
    locks: Seq<((SchoolClassId, SubjectId), TeacherId)>,
    ls: Seq<Lesson>,
    tbs: Seq<TimeBlock>,
    ps: Seq<Placement>,
    slots: Seq<((u8, u8), TimeBlockId)>,
    pinned: Seq<LessonId>,
    seed: LessonId,
    source_day: u8,
    dest_day: u8,
    start: u8,
    max_chain: usize,
    c1: Seq<(LessonId, u8)>,
    c2: Seq<(LessonId, u8)>,
)
    requires
        valid_kempe_chain(locks, ls, tbs, ps, slots, pinned, seed, source_day, dest_day, start, max_chain, c1),
        valid_kempe_chain(locks, ls, tbs, ps, slots, pinned, seed, source_day, dest_day, start, max_chain, c2),
    ensures
        c1.to_set() == c2.to_set(),
        c1.len() == c2.len(),
{
    assert forall|x: (LessonId, u8)| c1.to_set().contains(x) <==> c2.to_set().contains(x) by {
        if c1.contains(x) {
            let j = choose|j: int| 0 <= j < c1.len() && c1[j] == x;
            lemma_valid_member_in(locks, ls, tbs, ps, slots, pinned, seed, source_day, dest_day, start, max_chain, c1, c2, j);
        }
        if c2.contains(x) {
            let j = choose|j: int| 0 <= j < c2.len() && c2[j] == x;
            lemma_valid_member_in(locks, ls, tbs, ps, slots, pinned, seed, source_day, dest_day, start, max_chain, c2, c1, j);
        }
    }
    assert(c1.to_set() =~= c2.to_set());
    lemma_valid_no_duplicates(locks, ls, tbs, ps, slots, pinned, seed, source_day, dest_day, start, max_chain, c1);
    lemma_valid_no_duplicates(locks, ls, tbs, ps, slots, pinned, seed, source_day, dest_day, start, max_chain, c2);
    c1.unique_seq_to_set();
    c2.unique_seq_to_set();
}

} // verus!
