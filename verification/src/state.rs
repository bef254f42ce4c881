//! The search's bookkeeping: which (teacher, block), (class, block) and
//! (room, block) pairs are booked, the occupied positions of every class and
//! teacher day, hours per teacher, the same-room locks of (class, day,
//! subject) triples with their placement counts, the hours of a subject per
//! class day and the blocks per class day, and the teacher locked to each
//! (class, subject) pair. The functions here add and remove placement rows
//! and keep all of it in step.

use vstd::prelude::*;

use crate::kempe::window_slot;
use crate::lahc::lookup_slot;
use crate::lookup::{find_tb, tb_index};
use crate::partition::{lemma_lookup_bounded, Partition};
use crate::positions::{lemma_sorted_insert, lemma_sorted_remove, sorted_insert, sorted_remove, strictly_sorted};
use crate::types::{Lesson, Placement, RoomId, SchoolClassId, SubjectId, TeacherId, TimeBlock, TimeBlockId};
use crate::vecmap::{
    dec_keep_u32, dec_lock, dec_remove_u8, inc_lock, inc_u32, inc_u8, keys_unique, map_get,
};

verus! {

/// The bookkeeping of the local search over a set of placements.
pub struct GreedyState {
    /// Booked `(teacher, block)` pairs.
    pub used_teacher: Vec<(u128, u128)>,
    /// Booked `(class, block)` pairs.
    pub used_class: Vec<(u128, u128)>,
    /// Booked `(room, block)` pairs.
    pub used_room: Vec<(u128, u128)>,
    /// Occupied positions per (class, day).
    pub class_positions: Partition,
    /// Occupied positions per (teacher, day).
    pub teacher_positions: Partition,
    /// Placed hours per teacher.
    pub hours_by_teacher: Vec<(TeacherId, u32)>,
    /// Same-room lock of a (class, day, subject) triple: the room and the
    /// number of placements under it.
    pub locked_room: Vec<((SchoolClassId, u8, SubjectId), (RoomId, u32))>,
    /// Hours of a subject per (class, day).
    pub subject_hours_by_class_day: Vec<((SchoolClassId, u8, SubjectId), u8)>,
    /// Blocks per (class, day).
    pub lessons_by_class_day: Vec<((SchoolClassId, u8), u8)>,
    /// Teacher locked to a (class, subject) pair.
    pub class_subject_teacher: Vec<((SchoolClassId, SubjectId), TeacherId)>,
    /// Running gap-and-preference part of the score.
    pub search_score_slice: u32,
    /// Running canonical score of the placements.
    pub canonical_score: u32,
    /// Soft-pinned (lesson, block) pairs the score counts misses of.
    pub soft_pinned_blocks: Vec<(crate::types::LessonId, TimeBlockId)>,
}

impl GreedyState {
    /// Partitions well formed, every counter table keyed once.
    pub open spec fn wf(&self) -> bool {
        &&& self.class_positions.wf()
        &&& self.teacher_positions.wf()
        &&& keys_unique(self.hours_by_teacher@)
        &&& keys_unique(self.locked_room@)
        &&& keys_unique(self.subject_hours_by_class_day@)
        &&& keys_unique(self.lessons_by_class_day@)
    }

    /// The empty bookkeeping.
    pub fn new() -> (s: Self)
        ensures
            s.wf(),
            s.used_teacher@.len() == 0,
            s.used_class@.len() == 0,
            s.used_room@.len() == 0,
            s.class_positions.entries@.len() == 0,
            s.teacher_positions.entries@.len() == 0,
            s.hours_by_teacher@.len() == 0,
            s.locked_room@.len() == 0,
            s.subject_hours_by_class_day@.len() == 0,
            s.lessons_by_class_day@.len() == 0,
            s.class_subject_teacher@.len() == 0,
            s.search_score_slice == 0,
            s.canonical_score == 0,
            s.soft_pinned_blocks@.len() == 0,
    {
        GreedyState {
            used_teacher: Vec::new(),
            used_class: Vec::new(),
            used_room: Vec::new(),
            class_positions: Partition::new(),
            teacher_positions: Partition::new(),
            hours_by_teacher: Vec::new(),
            locked_room: Vec::new(),
            subject_hours_by_class_day: Vec::new(),
            lessons_by_class_day: Vec::new(),
            class_subject_teacher: Vec::new(),
            search_score_slice: 0,
            canonical_score: 0,
            soft_pinned_blocks: Vec::new(),
        }
    }
}

/// Number of occurrences of class `c` in `cs`.
pub open spec fn occ(cs: Seq<SchoolClassId>, c: SchoolClassId) -> nat
    decreases cs.len(),
{
    if cs.len() == 0 {
        0
    } else {
        occ(cs.drop_last(), c) + if cs.last() == c {
            1nat
        } else {
            0nat
        }
    }
}

/// A counter after `n` saturating decrements, each dropping it at zero.
pub open spec fn count_dec_n(o: Option<u8>, n: nat) -> Option<u8> {
    if n == 0 {
        o
    } else {
        match o {
            Some(v) => if v <= n {
                None
            } else {
                Some((v - n) as u8)
            },
            None => None,
        }
    }
}

/// A counter after `n` increments from its value (zero when absent).
pub open spec fn count_inc_n(o: Option<u8>, n: nat) -> Option<u8> {
    if n == 0 {
        o
    } else {
        Some(
            (match o {
                Some(v) => v + n,
                None => n as int,
            }) as u8,
        )
    }
}

/// A lock after `n` saturating decrements of its count, each dropping it at
/// zero.
pub open spec fn lock_dec_n(o: Option<(RoomId, u32)>, n: nat) -> Option<(RoomId, u32)> {
    if n == 0 {
        o
    } else {
        match o {
            Some(v) => if v.1 <= n {
                None
            } else {
                Some((v.0, (v.1 - n) as u32))
            },
            None => None,
        }
    }
}

/// A lock after `n` increments of its count; a new lock takes `room`.
pub open spec fn lock_inc_n(o: Option<(RoomId, u32)>, n: nat, room: RoomId) -> Option<(RoomId, u32)> {
    if n == 0 {
        o
    } else {
        match o {
            Some(v) => Some((v.0, (v.1 + n) as u32)),
            None => Some((room, n as u32)),
        }
    }
}

/// Hours after one saturating decrement (the entry stays).
pub open spec fn hours_dec(o: Option<u32>) -> Option<u32> {
    match o {
        Some(v) => Some(
            if v == 0 {
                0u32
            } else {
                (v - 1) as u32
            },
        ),
        None => None,
    }
}

/// Hours after `n` increments from the value (zero when absent).
pub open spec fn hours_inc_n(o: Option<u32>, n: nat) -> Option<u32> {
    if n == 0 {
        o
    } else {
        Some(
            (match o {
                Some(v) => v + n,
                None => n as int,
            }) as u32,
        )
    }
}

/// The `(class, block)` pairs of the classes `cs` at block `tb`.
pub open spec fn class_cells(cs: Seq<SchoolClassId>, tb: u128) -> Set<(u128, u128)> {
    Set::new(|x: (u128, u128)| x.1 == tb && cs.contains(SchoolClassId(x.0)))
}

pub(crate) proof fn lemma_occ_push(cs: Seq<SchoolClassId>, i: int, c: SchoolClassId)
    requires
        0 <= i < cs.len(),
    ensures
        occ(cs.take(i + 1), c) == occ(cs.take(i), c) + if cs[i] == c {
            1nat
        } else {
            0nat
        },
{
    assert(cs.take(i + 1).drop_last() =~= cs.take(i));
}

pub(crate) proof fn lemma_occ_contains(cs: Seq<SchoolClassId>, c: SchoolClassId)
    ensures
        occ(cs, c) > 0 <==> cs.contains(c),
        occ(cs, c) <= cs.len(),
    decreases cs.len(),
{
    if cs.len() > 0 {
        lemma_occ_contains(cs.drop_last(), c);
        if cs.drop_last().contains(c) {
            let j = choose|j: int| 0 <= j < cs.drop_last().len() && cs.drop_last()[j] == c;
            assert(cs[j] == c);
        }
        if cs.contains(c) {
            let j = choose|j: int| 0 <= j < cs.len() && cs[j] == c;
            if j < cs.len() - 1 {
                assert(cs.drop_last()[j] == c);
            }
        }
    }
}

/// Add `x` to the set held by `v`.
pub fn set_insert(v: &mut Vec<(u128, u128)>, x: (u128, u128))
    ensures
        final(v)@.to_set() == old(v)@.to_set().insert(x),
{
    let mut i: usize = 0;
    while i < v.len()
        invariant
            i <= v@.len(),
            forall|j: int| 0 <= j < i ==> v@[j] != x,
        decreases v@.len() - i,
    {
        if v[i].0 == x.0 && v[i].1 == x.1 {
            proof {
                assert(v@.to_set().insert(x) =~= v@.to_set()) by {
                    assert(v@.contains(x));
                }
            }
            return;
        }
        i = i + 1;
    }
    let ghost before = v@;
    v.push(x);
    proof {
        assert forall|y: (u128, u128)| v@.to_set().contains(y) <==> before.to_set().insert(x).contains(y) by {
            if v@.contains(y) {
                let j = choose|j: int| 0 <= j < v@.len() && v@[j] == y;
                if j < before.len() {
                    assert(before[j] == y);
                }
            }
            if before.contains(y) {
                let j = choose|j: int| 0 <= j < before.len() && before[j] == y;
                assert(v@[j] == y);
            }
            if y == x {
                assert(v@[before.len() as int] == x);
            }
        }
        assert(v@.to_set() =~= before.to_set().insert(x));
    }
}

/// Whether the set held by `v` contains `x`.
pub fn set_contains(v: &Vec<(u128, u128)>, x: (u128, u128)) -> (b: bool)
    ensures
        b == v@.contains(x),
{
    let mut i: usize = 0;
    while i < v.len()
        invariant
            i <= v@.len(),
            forall|j: int| 0 <= j < i ==> v@[j] != x,
        decreases v@.len() - i,
    {
        if v[i].0 == x.0 && v[i].1 == x.1 {
            return true;
        }
        i = i + 1;
    }
    false
}

/// Remove `x` from the set held by `v`.
pub fn set_remove(v: &mut Vec<(u128, u128)>, x: (u128, u128))
    ensures
        final(v)@.to_set() == old(v)@.to_set().remove(x),
{
    let mut out: Vec<(u128, u128)> = Vec::new();
    let mut i: usize = 0;
    while i < v.len()
        invariant
            i <= v@.len(),
            forall|y: (u128, u128)|
                out@.contains(y) <==> (y != x && exists|j: int| 0 <= j < i && #[trigger] v@[j] == y),
        decreases v@.len() - i,
    {
        let y = v[i];
        let ghost before = out@;
        if !(y.0 == x.0 && y.1 == x.1) {
            out.push(y);
        }
        proof {
            assert forall|z: (u128, u128)|
                out@.contains(z) <==> (z != x && exists|j: int| 0 <= j < i + 1 && #[trigger] v@[j] == z) by {
                if out@.contains(z) {
                    let k = choose|k: int| 0 <= k < out@.len() && out@[k] == z;
                    if k < before.len() {
                        assert(before.contains(z));
                    } else {
                        assert(v@[i as int] == z);
                    }
                }
                if z != x && exists|j: int| 0 <= j < i + 1 && #[trigger] v@[j] == z {
                    let j = choose|j: int| 0 <= j < i + 1 && #[trigger] v@[j] == z;
                    if j < i {
                        assert(before.contains(z));
                        let k = choose|k: int| 0 <= k < before.len() && before[k] == z;
                        assert(out@[k] == z);
                    } else {
                        assert(out@[out@.len() - 1] == z);
                    }
                }
            }
        }
        i = i + 1;
    }
    proof {
        assert forall|y: (u128, u128)| out@.to_set().contains(y) <==> old(v)@.to_set().remove(x).contains(y) by {
            if old(v)@.contains(y) {
                let j = choose|j: int| 0 <= j < old(v)@.len() && old(v)@[j] == y;
                assert(v@[j] == y);
            }
            if y != x && exists|j: int| 0 <= j < v@.len() && #[trigger] v@[j] == y {
                let j = choose|j: int| 0 <= j < v@.len() && #[trigger] v@[j] == y;
                assert(old(v)@.contains(y));
            }
        }
        assert(out@.to_set() =~= old(v)@.to_set().remove(x));
    }
    *v = out;
}


proof fn lemma_remove_idem(s: Seq<u8>, p: u8)
    requires
        strictly_sorted(s),
    ensures
        sorted_remove(sorted_remove(s, p), p) == sorted_remove(s, p),
        strictly_sorted(sorted_remove(s, p)),
{
    lemma_sorted_remove(s, p);
    lemma_sorted_remove(sorted_remove(s, p), p);
}

proof fn lemma_insert_present(s: Seq<u8>, p: u8)
    requires
        strictly_sorted(s),
        s.contains(p),
    ensures
        sorted_insert(s, p) == s,
    decreases s.len(),
{
    let j = choose|j: int| 0 <= j < s.len() && s[j] == p;
    if s[0] != p {
        assert(j > 0);
        assert(s[0] < s[j]);
        let t = s.drop_first();
        assert(strictly_sorted(t)) by {
            assert forall|a: int, b: int| 0 <= a < b < t.len() implies t[a] < t[b] by {
                assert(t[a] == s[a + 1] && t[b] == s[b + 1]);
            }
        }
        assert(t[j - 1] == p);
        lemma_insert_present(t, p);
        assert(seq![s[0]] + t =~= s);
    }
}

proof fn lemma_insert_idem(s: Seq<u8>, p: u8)
    requires
        strictly_sorted(s),
    ensures
        sorted_insert(sorted_insert(s, p), p) == sorted_insert(s, p),
        strictly_sorted(sorted_insert(s, p)),
{
    lemma_sorted_insert(s, p);
    lemma_insert_present(sorted_insert(s, p), p);
}

/// For each class of `classes`: unbook `(class, tb)` and free position
/// `pos` of `(class, day)`.
fn remove_class_cells(
    used_class: &mut Vec<(u128, u128)>,
    class_positions: &mut Partition,
    classes: &Vec<SchoolClassId>,
    tb: TimeBlockId,
    day: u8,
    pos: u8,
)
    requires
        old(class_positions).wf(),
    ensures
        final(class_positions).wf(),
        old(class_positions).dense() ==> final(class_positions).dense(),
        final(used_class)@.to_set() == old(used_class)@.to_set().difference(class_cells(classes@, tb.0)),
        forall|key: (u128, u8)|
            #[trigger] final(class_positions).lookup(key) == if key.1 == day && classes@.contains(SchoolClassId(key.0)) {
                sorted_remove(old(class_positions).lookup(key), pos)
            } else {
                old(class_positions).lookup(key)
            },
{
    let ghost cs = classes@;
    let ghost uc0 = used_class@;
    let ghost cp0 = *class_positions;
    let mut i: usize = 0;
    while i < classes.len()
        invariant
            i <= cs.len(),
            cs == classes@,
            class_positions.wf(),
            cp0.wf(),
            cp0.dense() ==> class_positions.dense(),
            used_class@.to_set() == uc0.to_set().difference(class_cells(cs.take(i as int), tb.0)),
            forall|key: (u128, u8)|
                #[trigger] class_positions.lookup(key) == if key.1 == day && cs.take(i as int).contains(
                    SchoolClassId(key.0),
                ) {
                    sorted_remove(cp0.lookup(key), pos)
                } else {
                    cp0.lookup(key)
                },
        decreases cs.len() - i,
    {
        let c = classes[i];
        let ghost before = *class_positions;
        set_remove(used_class, (c.0, tb.0));
        class_positions.remove_position(c.0, day, pos);
        proof {
            let t = cs.take(i as int);
            let t1 = cs.take(i + 1);
            assert(t1 =~= t.push(c));
            assert forall|x: SchoolClassId| t1.contains(x) <==> t.contains(x) || x == c by {
                if t1.contains(x) {
                    let j = choose|j: int| 0 <= j < t1.len() && t1[j] == x;
                    if j < t.len() {
                        assert(t[j] == x);
                    }
                }
                if t.contains(x) {
                    let j = choose|j: int| 0 <= j < t.len() && t[j] == x;
                    assert(t1[j] == x);
                }
                if x == c {
                    assert(t1[i as int] == c);
                }
            }
            assert(used_class@.to_set() =~= uc0.to_set().difference(class_cells(t1, tb.0)));
            assert forall|key: (u128, u8)|
                #[trigger] class_positions.lookup(key) == if key.1 == day && t1.contains(SchoolClassId(key.0)) {
                    sorted_remove(cp0.lookup(key), pos)
                } else {
                    cp0.lookup(key)
                } by {
                lemma_lookup_bounded(&cp0, key);
                lemma_remove_idem(cp0.lookup(key), pos);
                if key == (c.0, day) {
                    assert(SchoolClassId(key.0) == c);
                }
            }
        }
        i = i + 1;
    }
    proof {
        assert(cs.take(cs.len() as int) =~= cs);
    }
}

/// For each class of `classes`: book `(class, tb)` and occupy position
/// `pos` of `(class, day)`.
fn insert_class_cells(
    used_class: &mut Vec<(u128, u128)>,
    class_positions: &mut Partition,
    classes: &Vec<SchoolClassId>,
    tb: TimeBlockId,
    day: u8,
    pos: u8,
)
    requires
        old(class_positions).wf(),
    ensures
        final(class_positions).wf(),
        final(used_class)@.to_set() == old(used_class)@.to_set().union(class_cells(classes@, tb.0)),
        forall|key: (u128, u8)|
            #[trigger] final(class_positions).lookup(key) == if key.1 == day && classes@.contains(SchoolClassId(key.0)) {
                sorted_insert(old(class_positions).lookup(key), pos)
            } else {
                old(class_positions).lookup(key)
            },
{
    let ghost cs = classes@;
    let ghost uc0 = used_class@;
    let ghost cp0 = *class_positions;
    let mut i: usize = 0;
    while i < classes.len()
        invariant
            i <= cs.len(),
            cs == classes@,
            class_positions.wf(),
            cp0.wf(),
            used_class@.to_set() == uc0.to_set().union(class_cells(cs.take(i as int), tb.0)),
            forall|key: (u128, u8)|
                #[trigger] class_positions.lookup(key) == if key.1 == day && cs.take(i as int).contains(
                    SchoolClassId(key.0),
                ) {
                    sorted_insert(cp0.lookup(key), pos)
                } else {
                    cp0.lookup(key)
                },
        decreases cs.len() - i,
    {
        let c = classes[i];
        set_insert(used_class, (c.0, tb.0));
        class_positions.insert_position(c.0, day, pos);
        proof {
            let t = cs.take(i as int);
            let t1 = cs.take(i + 1);
            assert forall|x: SchoolClassId| t1.contains(x) <==> t.contains(x) || x == c by {
                if t1.contains(x) {
                    let j = choose|j: int| 0 <= j < t1.len() && t1[j] == x;
                    if j < t.len() {
                        assert(t[j] == x);
                    }
                }
                if t.contains(x) {
                    let j = choose|j: int| 0 <= j < t.len() && t[j] == x;
                    assert(t1[j] == x);
                }
                if x == c {
                    assert(t1[i as int] == c);
                }
            }
            assert(used_class@.to_set() =~= uc0.to_set().union(class_cells(t1, tb.0)));
            assert forall|key: (u128, u8)|
                #[trigger] class_positions.lookup(key) == if key.1 == day && t1.contains(SchoolClassId(key.0)) {
                    sorted_insert(cp0.lookup(key), pos)
                } else {
                    cp0.lookup(key)
                } by {
                lemma_lookup_bounded(&cp0, key);
                lemma_insert_idem(cp0.lookup(key), pos);
                if key == (c.0, day) {
                    assert(SchoolClassId(key.0) == c);
                }
            }
        }
        i = i + 1;
    }
    proof {
        assert(cs.take(cs.len() as int) =~= cs);
    }
}


/// Room for `n` more placements under a lock.
pub open spec fn fits_lock(o: Option<(RoomId, u32)>, n: nat) -> bool {
    (match o {
        Some(v) => v.1 as int,
        None => 0,
    }) + n <= u32::MAX
}

/// Room for `n` more hours on a `u8` counter.
pub open spec fn fits_u8(o: Option<u8>, n: nat) -> bool {
    (match o {
        Some(v) => v as int,
        None => 0,
    }) + n <= u8::MAX
}

pub(crate) proof fn lemma_occ_prefix(cs: Seq<SchoolClassId>, i: int, c: SchoolClassId)
    requires
        0 <= i <= cs.len(),
    ensures
        occ(cs.take(i), c) <= occ(cs, c),
    decreases cs.len() - i,
{
    if i < cs.len() {
        lemma_occ_push(cs, i, c);
        lemma_occ_prefix(cs, i + 1, c);
    } else {
        assert(cs.take(i) =~= cs);
    }
}

/// For each class of `classes`: one placement fewer under the lock of
/// `(class, day, subject)` and one hour fewer of the subject that day.
fn dec_class_triples(
    locked_room: &mut Vec<((SchoolClassId, u8, SubjectId), (RoomId, u32))>,
    subject_hours: &mut Vec<((SchoolClassId, u8, SubjectId), u8)>,
    classes: &Vec<SchoolClassId>,
    day: u8,
    subject: SubjectId,
)
    requires
        keys_unique(old(locked_room)@),
        keys_unique(old(subject_hours)@),
    ensures
        keys_unique(final(locked_room)@),
        keys_unique(final(subject_hours)@),
        forall|k: (SchoolClassId, u8, SubjectId)|
            #[trigger] map_get(final(locked_room)@, k) == if k.1 == day && k.2 == subject {
                lock_dec_n(map_get(old(locked_room)@, k), occ(classes@, k.0))
            } else {
                map_get(old(locked_room)@, k)
            },
        forall|k: (SchoolClassId, u8, SubjectId)|
            #[trigger] map_get(final(subject_hours)@, k) == if k.1 == day && k.2 == subject {
                count_dec_n(map_get(old(subject_hours)@, k), occ(classes@, k.0))
            } else {
                map_get(old(subject_hours)@, k)
            },
{
    let ghost cs = classes@;
    let ghost l0 = locked_room@;
    let ghost h0 = subject_hours@;
    let mut i: usize = 0;
    while i < classes.len()
        invariant
            i <= cs.len(),
            cs == classes@,
            keys_unique(locked_room@),
            keys_unique(subject_hours@),
            forall|k: (SchoolClassId, u8, SubjectId)|
                #[trigger] map_get(locked_room@, k) == if k.1 == day && k.2 == subject {
                    lock_dec_n(map_get(l0, k), occ(cs.take(i as int), k.0))
                } else {
                    map_get(l0, k)
                },
            forall|k: (SchoolClassId, u8, SubjectId)|
                #[trigger] map_get(subject_hours@, k) == if k.1 == day && k.2 == subject {
                    count_dec_n(map_get(h0, k), occ(cs.take(i as int), k.0))
                } else {
                    map_get(h0, k)
                },
        decreases cs.len() - i,
    {
        let c = classes[i];
        let key = (c, day, subject);
        dec_lock(locked_room, key);
        dec_remove_u8(subject_hours, key);
        proof {
            assert forall|k: (SchoolClassId, u8, SubjectId)| #[trigger] map_get(locked_room@, k) == if k.1 == day && k.2
                == subject {
                lock_dec_n(map_get(l0, k), occ(cs.take(i + 1), k.0))
            } else {
                map_get(l0, k)
            } by {
                lemma_occ_push(cs, i as int, k.0);
            }
            assert forall|k: (SchoolClassId, u8, SubjectId)| #[trigger] map_get(subject_hours@, k) == if k.1 == day
                && k.2 == subject {
                count_dec_n(map_get(h0, k), occ(cs.take(i + 1), k.0))
            } else {
                map_get(h0, k)
            } by {
                lemma_occ_push(cs, i as int, k.0);
            }
        }
        i = i + 1;
    }
    proof {
        assert(cs.take(cs.len() as int) =~= cs);
    }
}

/// For each class of `classes`: one more placement under the lock of
/// `(class, day, subject)` (a new lock takes `room`) and one more hour of
/// the subject that day.
fn inc_class_triples(
    locked_room: &mut Vec<((SchoolClassId, u8, SubjectId), (RoomId, u32))>,
    subject_hours: &mut Vec<((SchoolClassId, u8, SubjectId), u8)>,
    classes: &Vec<SchoolClassId>,
    day: u8,
    subject: SubjectId,
    room: RoomId,
)
    requires
        keys_unique(old(locked_room)@),
        keys_unique(old(subject_hours)@),
        forall|c: SchoolClassId|
            #[trigger] classes@.contains(c) ==> fits_lock(map_get(old(locked_room)@, (c, day, subject)), occ(classes@, c))
                && fits_u8(map_get(old(subject_hours)@, (c, day, subject)), occ(classes@, c)),
    ensures
        keys_unique(final(locked_room)@),
        keys_unique(final(subject_hours)@),
        forall|k: (SchoolClassId, u8, SubjectId)|
            #[trigger] map_get(final(locked_room)@, k) == if k.1 == day && k.2 == subject {
                lock_inc_n(map_get(old(locked_room)@, k), occ(classes@, k.0), room)
            } else {
                map_get(old(locked_room)@, k)
            },
        forall|k: (SchoolClassId, u8, SubjectId)|
            #[trigger] map_get(final(subject_hours)@, k) == if k.1 == day && k.2 == subject {
                count_inc_n(map_get(old(subject_hours)@, k), occ(classes@, k.0))
            } else {
                map_get(old(subject_hours)@, k)
            },
{
    let ghost cs = classes@;
    let ghost l0 = locked_room@;
    let ghost h0 = subject_hours@;
    let mut i: usize = 0;
    while i < classes.len()
        invariant
            i <= cs.len(),
            cs == classes@,
            keys_unique(locked_room@),
            keys_unique(subject_hours@),
            forall|c: SchoolClassId|
                #[trigger] cs.contains(c) ==> fits_lock(map_get(l0, (c, day, subject)), occ(cs, c)) && fits_u8(
                    map_get(h0, (c, day, subject)),
                    occ(cs, c),
                ),
            forall|k: (SchoolClassId, u8, SubjectId)|
                #[trigger] map_get(locked_room@, k) == if k.1 == day && k.2 == subject {
                    lock_inc_n(map_get(l0, k), occ(cs.take(i as int), k.0), room)
                } else {
                    map_get(l0, k)
                },
            forall|k: (SchoolClassId, u8, SubjectId)|
                #[trigger] map_get(subject_hours@, k) == if k.1 == day && k.2 == subject {
                    count_inc_n(map_get(h0, k), occ(cs.take(i as int), k.0))
                } else {
                    map_get(h0, k)
                },
        decreases cs.len() - i,
    {
        let c = classes[i];
        let key = (c, day, subject);
        proof {
            assert(cs.contains(c)) by {
                assert(cs[i as int] == c);
            }
            lemma_occ_push(cs, i as int, c);
            lemma_occ_prefix(cs, i + 1, c);
        }
        inc_lock(locked_room, key, room);
        inc_u8(subject_hours, key);
        proof {
            assert forall|k: (SchoolClassId, u8, SubjectId)| #[trigger] map_get(locked_room@, k) == if k.1 == day && k.2
                == subject {
                lock_inc_n(map_get(l0, k), occ(cs.take(i + 1), k.0), room)
            } else {
                map_get(l0, k)
            } by {
                lemma_occ_push(cs, i as int, k.0);
            }
            assert forall|k: (SchoolClassId, u8, SubjectId)| #[trigger] map_get(subject_hours@, k) == if k.1 == day
                && k.2 == subject {
                count_inc_n(map_get(h0, k), occ(cs.take(i + 1), k.0))
            } else {
                map_get(h0, k)
            } by {
                lemma_occ_push(cs, i as int, k.0);
            }
        }
        i = i + 1;
    }
    proof {
        assert(cs.take(cs.len() as int) =~= cs);
    }
}


/// The block a row sits in, resolved through `tbs`.
pub open spec fn row_block(tbs: Seq<TimeBlock>, row: Placement) -> TimeBlock {
    tbs[tb_index(tbs, row.time_block_id)]
}

/// `new` is `old` with the bookkeeping of one row of `lesson` taken out:
/// its teacher, class and room bookings and its position in each class and
/// teacher day are freed, the teacher's hours drop by one (not below zero),
/// and each member class's lock and subject-hour counter of the row's day
/// drop by one per occurrence of the class (a counter reaching zero is
/// dropped). The block counters and the teacher locks stay.
pub open spec fn row_removed(
    old: GreedyState,
    new: GreedyState,
    lesson: Lesson,
    row: Placement,
    tbs: Seq<TimeBlock>,
) -> bool {
    let tb = row_block(tbs, row);
    let day = tb.day_of_week;
    let pos = tb.position;
    let t = row.teacher_id;
    let cs = lesson.school_class_ids@;
    &&& new.used_teacher@.to_set() == old.used_teacher@.to_set().remove((t.0, row.time_block_id.0))
    &&& new.used_class@.to_set() == old.used_class@.to_set().difference(class_cells(cs, row.time_block_id.0))
    &&& new.used_room@.to_set() == old.used_room@.to_set().remove((row.room_id.0, row.time_block_id.0))
    &&& forall|key: (u128, u8)|
        #[trigger] new.class_positions.lookup(key) == if key.1 == day && cs.contains(SchoolClassId(key.0)) {
            sorted_remove(old.class_positions.lookup(key), pos)
        } else {
            old.class_positions.lookup(key)
        }
    &&& forall|key: (u128, u8)|
        #[trigger] new.teacher_positions.lookup(key) == if key == (t.0, day) {
            sorted_remove(old.teacher_positions.lookup(key), pos)
        } else {
            old.teacher_positions.lookup(key)
        }
    &&& forall|k: TeacherId|
        #[trigger] map_get(new.hours_by_teacher@, k) == if k == t {
            hours_dec(map_get(old.hours_by_teacher@, k))
        } else {
            map_get(old.hours_by_teacher@, k)
        }
    &&& forall|k: (SchoolClassId, u8, SubjectId)|
        #[trigger] map_get(new.locked_room@, k) == if k.1 == day && k.2 == lesson.subject_id {
            lock_dec_n(map_get(old.locked_room@, k), occ(cs, k.0))
        } else {
            map_get(old.locked_room@, k)
        }
    &&& forall|k: (SchoolClassId, u8, SubjectId)|
        #[trigger] map_get(new.subject_hours_by_class_day@, k) == if k.1 == day && k.2 == lesson.subject_id {
            count_dec_n(map_get(old.subject_hours_by_class_day@, k), occ(cs, k.0))
        } else {
            map_get(old.subject_hours_by_class_day@, k)
        }
    &&& new.lessons_by_class_day@ == old.lessons_by_class_day@
    &&& new.class_subject_teacher@ == old.class_subject_teacher@
    &&& new.search_score_slice == old.search_score_slice
    &&& new.canonical_score == old.canonical_score
    &&& new.soft_pinned_blocks@ == old.soft_pinned_blocks@
}

/// `new` is `old` with the bookkeeping of one row of `lesson` added: the
/// mirror of `row_removed`, where a new lock takes the row's room.
pub open spec fn row_added(old: GreedyState, new: GreedyState, lesson: Lesson, row: Placement, tbs: Seq<TimeBlock>) -> bool {
    let tb = row_block(tbs, row);
    let day = tb.day_of_week;
    let pos = tb.position;
    let t = row.teacher_id;
    let cs = lesson.school_class_ids@;
    &&& new.used_teacher@.to_set() == old.used_teacher@.to_set().insert((t.0, row.time_block_id.0))
    &&& new.used_class@.to_set() == old.used_class@.to_set().union(class_cells(cs, row.time_block_id.0))
    &&& new.used_room@.to_set() == old.used_room@.to_set().insert((row.room_id.0, row.time_block_id.0))
    &&& forall|key: (u128, u8)|
        #[trigger] new.class_positions.lookup(key) == if key.1 == day && cs.contains(SchoolClassId(key.0)) {
            sorted_insert(old.class_positions.lookup(key), pos)
        } else {
            old.class_positions.lookup(key)
        }
    &&& forall|key: (u128, u8)|
        #[trigger] new.teacher_positions.lookup(key) == if key == (t.0, day) {
            sorted_insert(old.teacher_positions.lookup(key), pos)
        } else {
            old.teacher_positions.lookup(key)
        }
    &&& forall|k: TeacherId|
        #[trigger] map_get(new.hours_by_teacher@, k) == if k == t {
            hours_inc_n(map_get(old.hours_by_teacher@, k), 1)
        } else {
            map_get(old.hours_by_teacher@, k)
        }
    &&& forall|k: (SchoolClassId, u8, SubjectId)|
        #[trigger] map_get(new.locked_room@, k) == if k.1 == day && k.2 == lesson.subject_id {
            lock_inc_n(map_get(old.locked_room@, k), occ(cs, k.0), row.room_id)
        } else {
            map_get(old.locked_room@, k)
        }
    &&& forall|k: (SchoolClassId, u8, SubjectId)|
        #[trigger] map_get(new.subject_hours_by_class_day@, k) == if k.1 == day && k.2 == lesson.subject_id {
            count_inc_n(map_get(old.subject_hours_by_class_day@, k), occ(cs, k.0))
        } else {
            map_get(old.subject_hours_by_class_day@, k)
        }
    &&& new.lessons_by_class_day@ == old.lessons_by_class_day@
    &&& new.class_subject_teacher@ == old.class_subject_teacher@
    &&& new.search_score_slice == old.search_score_slice
    &&& new.canonical_score == old.canonical_score
    &&& new.soft_pinned_blocks@ == old.soft_pinned_blocks@
}

/// Adding the row overflows no counter.
pub open spec fn row_fits(s: GreedyState, lesson: Lesson, row: Placement, tbs: Seq<TimeBlock>) -> bool {
    let day = row_block(tbs, row).day_of_week;
    let cs = lesson.school_class_ids@;
    &&& match map_get(s.hours_by_teacher@, row.teacher_id) {
        Some(v) => v < u32::MAX,
        None => true,
    }
    &&& forall|c: SchoolClassId|
        #[trigger] cs.contains(c) ==> fits_lock(map_get(s.locked_room@, (c, day, lesson.subject_id)), occ(cs, c))
            && fits_u8(map_get(s.subject_hours_by_class_day@, (c, day, lesson.subject_id)), occ(cs, c))
}

/// Take the bookkeeping of one removed row out of `state`. The teacher is
/// read from the row, the row's block resolves through `tbs`.
pub fn rr_remove_row_bookkeeping(lesson: &Lesson, row: &Placement, tbs: &Vec<TimeBlock>, state: &mut GreedyState)
    requires
        old(state).wf(),
        tb_index(tbs@, row.time_block_id) >= 0,
    ensures
        final(state).wf(),
        row_removed(*old(state), *final(state), *lesson, *row, tbs@),
        old(state).class_positions.dense() ==> final(state).class_positions.dense(),
        old(state).teacher_positions.dense() ==> final(state).teacher_positions.dense(),
{
    let ti = match find_tb(tbs, row.time_block_id) {
        Some(i) => i,
        None => {
            return;
        },
    };
    let day = tbs[ti].day_of_week;
    let position = tbs[ti].position;
    let teacher = row.teacher_id;
    set_remove(&mut state.used_teacher, (teacher.0, row.time_block_id.0));
    remove_class_cells(
        &mut state.used_class,
        &mut state.class_positions,
        &lesson.school_class_ids,
        row.time_block_id,
        day,
        position,
    );
    set_remove(&mut state.used_room, (row.room_id.0, row.time_block_id.0));
    state.teacher_positions.remove_position(teacher.0, day, position);
    dec_keep_u32(&mut state.hours_by_teacher, teacher);
    dec_class_triples(
        &mut state.locked_room,
        &mut state.subject_hours_by_class_day,
        &lesson.school_class_ids,
        day,
        lesson.subject_id,
    );
}

/// Re-add one previously removed row to `placements` and its bookkeeping to
/// `state`: the mirror of one row's removal. The teacher is read from the
/// row, the row's block resolves through `tbs`.
pub fn replay_placement(
    lesson: &Lesson,
    row: &Placement,
    tbs: &Vec<TimeBlock>,
    placements: &mut Vec<Placement>,
    state: &mut GreedyState,
)
    requires
        old(state).wf(),
        tb_index(tbs@, row.time_block_id) >= 0,
        row_fits(*old(state), *lesson, *row, tbs@),
    ensures
        final(state).wf(),
        final(placements)@ == old(placements)@.push(*row),
        row_added(*old(state), *final(state), *lesson, *row, tbs@),
{
    let ti = match find_tb(tbs, row.time_block_id) {
        Some(i) => i,
        None => {
            return;
        },
    };
    let day = tbs[ti].day_of_week;
    let position = tbs[ti].position;
    let teacher = row.teacher_id;
    placements.push(*row);
    set_insert(&mut state.used_teacher, (teacher.0, row.time_block_id.0));
    insert_class_cells(
        &mut state.used_class,
        &mut state.class_positions,
        &lesson.school_class_ids,
        row.time_block_id,
        day,
        position,
    );
    set_insert(&mut state.used_room, (row.room_id.0, row.time_block_id.0));
    state.teacher_positions.insert_position(teacher.0, day, position);
    inc_u32(&mut state.hours_by_teacher, teacher);
    inc_class_triples(
        &mut state.locked_room,
        &mut state.subject_hours_by_class_day,
        &lesson.school_class_ids,
        day,
        lesson.subject_id,
        row.room_id,
    );
}


/// Two bookkeepings hold the same bookings, positions and counters.
pub open spec fn same_state(a: GreedyState, b: GreedyState) -> bool {
    &&& a.used_teacher@.to_set() == b.used_teacher@.to_set()
    &&& a.used_class@.to_set() == b.used_class@.to_set()
    &&& a.used_room@.to_set() == b.used_room@.to_set()
    &&& forall|key: (u128, u8)| #[trigger] a.class_positions.lookup(key) == b.class_positions.lookup(key)
    &&& forall|key: (u128, u8)| #[trigger] a.teacher_positions.lookup(key) == b.teacher_positions.lookup(key)
    &&& forall|k: TeacherId| #[trigger] map_get(a.hours_by_teacher@, k) == map_get(b.hours_by_teacher@, k)
    &&& forall|k: (SchoolClassId, u8, SubjectId)| #[trigger] map_get(a.locked_room@, k) == map_get(b.locked_room@, k)
    &&& forall|k: (SchoolClassId, u8, SubjectId)|
        #[trigger] map_get(a.subject_hours_by_class_day@, k) == map_get(b.subject_hours_by_class_day@, k)
    &&& a.lessons_by_class_day@ == b.lessons_by_class_day@
    &&& a.class_subject_teacher@ == b.class_subject_teacher@
    &&& a.search_score_slice == b.search_score_slice
    &&& a.canonical_score == b.canonical_score
    &&& a.soft_pinned_blocks@ == b.soft_pinned_blocks@
}

/// Everything the row books is present in `s`: its bookings, its position
/// in each class and teacher day, an hour of its teacher, and a lock and a
/// subject hour for each member class on its day, where a lock holding
/// this row alone is on the row's room.
pub open spec fn row_booked(s: GreedyState, lesson: Lesson, row: Placement, tbs: Seq<TimeBlock>) -> bool {
    let tb = row_block(tbs, row);
    let day = tb.day_of_week;
    let pos = tb.position;
    let t = row.teacher_id;
    let cs = lesson.school_class_ids@;
    &&& s.used_teacher@.contains((t.0, row.time_block_id.0))
    &&& s.used_room@.contains((row.room_id.0, row.time_block_id.0))
    &&& forall|c: SchoolClassId| #[trigger] cs.contains(c) ==> s.used_class@.contains((c.0, row.time_block_id.0))
    &&& forall|c: SchoolClassId| #[trigger] cs.contains(c) ==> s.class_positions.lookup((c.0, day)).contains(pos)
    &&& s.teacher_positions.lookup((t.0, day)).contains(pos)
    &&& match map_get(s.hours_by_teacher@, t) {
        Some(v) => v >= 1,
        None => false,
    }
    &&& forall|c: SchoolClassId|
        #[trigger] cs.contains(c) ==> match map_get(s.locked_room@, (c, day, lesson.subject_id)) {
            Some(v) => v.1 >= 1 && (v.1 == 1 ==> v.0 == row.room_id),
            None => false,
        }
    &&& forall|c: SchoolClassId|
        #[trigger] cs.contains(c) ==> match map_get(s.subject_hours_by_class_day@, (c, day, lesson.subject_id)) {
            Some(v) => v >= 1,
            None => false,
        }
}

pub(crate) proof fn lemma_occ_nodup(cs: Seq<SchoolClassId>, c: SchoolClassId)
    requires
        cs.no_duplicates(),
    ensures
        occ(cs, c) == if cs.contains(c) {
            1nat
        } else {
            0nat
        },
    decreases cs.len(),
{
    if cs.len() > 0 {
        let t = cs.drop_last();
        assert(t.no_duplicates()) by {
            assert forall|i: int, j: int| 0 <= i < t.len() && 0 <= j < t.len() && i != j implies t[i] != t[j] by {
                assert(t[i] == cs[i] && t[j] == cs[j]);
            }
        }
        lemma_occ_nodup(t, c);
        if cs.last() == c {
            assert(!t.contains(c)) by {
                if t.contains(c) {
                    let j = choose|j: int| 0 <= j < t.len() && t[j] == c;
                    assert(cs[j] == cs[cs.len() - 1]);
                }
            }
            assert(cs[cs.len() - 1] == c);
        } else {
            if cs.contains(c) {
                let j = choose|j: int| 0 <= j < cs.len() && cs[j] == c;
                assert(t[j] == c);
            }
            if t.contains(c) {
                let j = choose|j: int| 0 <= j < t.len() && t[j] == c;
                assert(cs[j] == c);
            }
        }
    }
}

proof fn lemma_insert_remove(s: Seq<u8>, p: u8)
    requires
        strictly_sorted(s),
        s.contains(p),
    ensures
        sorted_insert(sorted_remove(s, p), p) == s,
    decreases s.len(),
{
    let t = s.drop_first();
    assert(strictly_sorted(t)) by {
        assert forall|a: int, b: int| 0 <= a < b < t.len() implies t[a] < t[b] by {
            assert(t[a] == s[a + 1] && t[b] == s[b + 1]);
        }
    }
    if s[0] == p {
        if t.len() > 0 {
            assert(s[0] < s[1]);
            assert(t[0] == s[1]);
            assert(seq![p] + t =~= s);
        } else {
            assert(s =~= seq![p]);
        }
    } else {
        let j = choose|j: int| 0 <= j < s.len() && s[j] == p;
        assert(j > 0);
        assert(s[0] < s[j]);
        assert(t[j - 1] == p);
        lemma_insert_present(t, p);
        lemma_insert_remove(t, p);
        let r = sorted_remove(t, p);
        let x = seq![s[0]] + r;
        assert(sorted_remove(s, p) == x);
        assert(x[0] == s[0]);
        assert(x.drop_first() =~= r);
        assert(seq![s[0]] + t =~= s);
    }
}

/// Replaying a removed row restores the bookkeeping: taking one booked row
/// (of a lesson that lists each class once) out of the bookkeeping and
/// replaying it gives back the same bookings, positions and counters.
pub proof fn lemma_replay_undoes_remove(
    s0: GreedyState,
    s1: GreedyState,
    s2: GreedyState,
    lesson: Lesson,
    row: Placement,
    tbs: Seq<TimeBlock>,
)
    requires
        s0.wf(),
        lesson.school_class_ids@.no_duplicates(),
        row_booked(s0, lesson, row, tbs),
        row_removed(s0, s1, lesson, row, tbs),
        row_added(s1, s2, lesson, row, tbs),
    ensures
        same_state(s2, s0),
{
    let tb = row_block(tbs, row);
    let day = tb.day_of_week;
    let pos = tb.position;
    let t = row.teacher_id;
    let cs = lesson.school_class_ids@;
    let x = (t.0, row.time_block_id.0);
    assert(s2.used_teacher@.to_set() =~= s0.used_teacher@.to_set()) by {
        assert(s0.used_teacher@.to_set().contains(x));
    }
    assert(s2.used_room@.to_set() =~= s0.used_room@.to_set()) by {
        assert(s0.used_room@.to_set().contains((row.room_id.0, row.time_block_id.0)));
    }
    assert(s2.used_class@.to_set() =~= s0.used_class@.to_set()) by {
        assert forall|y: (u128, u128)| #[trigger] class_cells(cs, row.time_block_id.0).contains(y) implies s0.used_class@.to_set().contains(y) by {
            assert(cs.contains(SchoolClassId(y.0)));
            assert(s0.used_class@.contains((SchoolClassId(y.0).0, row.time_block_id.0)));
        }
    }
    assert forall|key: (u128, u8)| #[trigger] s2.class_positions.lookup(key) == s0.class_positions.lookup(key) by {
        if key.1 == day && cs.contains(SchoolClassId(key.0)) {
            lemma_lookup_bounded(&s0.class_positions, key);
            assert(s0.class_positions.lookup((SchoolClassId(key.0).0, day)).contains(pos));
            lemma_insert_remove(s0.class_positions.lookup(key), pos);
        }
    }
    assert forall|key: (u128, u8)| #[trigger] s2.teacher_positions.lookup(key) == s0.teacher_positions.lookup(key) by {
        if key == (t.0, day) {
            lemma_lookup_bounded(&s0.teacher_positions, key);
            lemma_insert_remove(s0.teacher_positions.lookup(key), pos);
        }
    }
    assert forall|k: TeacherId| #[trigger] map_get(s2.hours_by_teacher@, k) == map_get(s0.hours_by_teacher@, k) by {
    }
    assert forall|k: (SchoolClassId, u8, SubjectId)| #[trigger] map_get(s2.locked_room@, k) == map_get(s0.locked_room@, k) by {
        lemma_occ_nodup(cs, k.0);
        if k.1 == day && k.2 == lesson.subject_id && cs.contains(k.0) {
            assert(k == (k.0, day, lesson.subject_id));
        }
    }
    assert forall|k: (SchoolClassId, u8, SubjectId)|
        #[trigger] map_get(s2.subject_hours_by_class_day@, k) == map_get(s0.subject_hours_by_class_day@, k) by {
        lemma_occ_nodup(cs, k.0);
        if k.1 == day && k.2 == lesson.subject_id && cs.contains(k.0) {
            assert(k == (k.0, day, lesson.subject_id));
        }
    }
}


/// Positions of a class day after its class moved a placement from
/// `(od, op)` to `(nd, np)`.
pub open spec fn move_pos(l: Seq<u8>, d: u8, od: u8, op: u8, nd: u8, np: u8) -> Seq<u8> {
    let r = if d == od {
        sorted_remove(l, op)
    } else {
        l
    };
    if d == nd {
        sorted_insert(r, np)
    } else {
        r
    }
}

proof fn lemma_remove_insert_absent(s: Seq<u8>, p: u8)
    requires
        strictly_sorted(s),
        !s.contains(p),
    ensures
        sorted_remove(sorted_insert(s, p), p) == s,
{
    lemma_sorted_insert(s, p);
    let t = sorted_insert(s, p);
    lemma_insert_remove_eq(t, s, p);
}

proof fn lemma_insert_remove_eq(t: Seq<u8>, s: Seq<u8>, p: u8)
    requires
        strictly_sorted(s),
        strictly_sorted(t),
        !s.contains(p),
        forall|x: u8| t.contains(x) <==> (s.contains(x) || x == p),
    ensures
        sorted_remove(t, p) == s,
{
    lemma_sorted_remove(t, p);
    lemma_sorted_eq(sorted_remove(t, p), s);
}

/// Two strictly sorted sequences with the same elements are equal.
proof fn lemma_sorted_eq(a: Seq<u8>, b: Seq<u8>)
    requires
        strictly_sorted(a),
        strictly_sorted(b),
        forall|x: u8| a.contains(x) <==> b.contains(x),
    ensures
        a == b,
    decreases a.len(),
{
    if a.len() == 0 {
        if b.len() > 0 {
            assert(b.contains(b[0]));
        }
        assert(a =~= b);
    } else {
        assert(a.contains(a[0]));
        assert(b.len() > 0);
        assert(b.contains(b[0]));
        let i = choose|i: int| 0 <= i < b.len() && b[i] == a[0];
        let j = choose|j: int| 0 <= j < a.len() && a[j] == b[0];
        if i > 0 {
            assert(b[0] < b[i]);
            if j > 0 {
                assert(a[0] < a[j]);
            }
        }
        assert(a[0] == b[0]);
        let ta = a.drop_first();
        let tb = b.drop_first();
        assert(strictly_sorted(ta)) by {
            assert forall|x: int, y: int| 0 <= x < y < ta.len() implies ta[x] < ta[y] by {
                assert(ta[x] == a[x + 1] && ta[y] == a[y + 1]);
            }
        }
        assert(strictly_sorted(tb)) by {
            assert forall|x: int, y: int| 0 <= x < y < tb.len() implies tb[x] < tb[y] by {
                assert(tb[x] == b[x + 1] && tb[y] == b[y + 1]);
            }
        }
        assert forall|x: u8| ta.contains(x) <==> tb.contains(x) by {
            if ta.contains(x) {
                let k = choose|k: int| 0 <= k < ta.len() && ta[k] == x;
                assert(a[k + 1] == x);
                assert(a[0] < a[k + 1]);
                assert(b.contains(x));
                let m = choose|m: int| 0 <= m < b.len() && b[m] == x;
                assert(m != 0);
                assert(tb[m - 1] == x);
            }
            if tb.contains(x) {
                let k = choose|k: int| 0 <= k < tb.len() && tb[k] == x;
                assert(b[k + 1] == x);
                assert(b[0] < b[k + 1]);
                assert(a.contains(x));
                let m = choose|m: int| 0 <= m < a.len() && a[m] == x;
                assert(m != 0);
                assert(ta[m - 1] == x);
            }
        }
        lemma_sorted_eq(ta, tb);
        assert(a =~= seq![a[0]] + ta);
        assert(b =~= seq![b[0]] + tb);
    }
}

/// Applying the move twice to a class day is applying it once.
proof fn lemma_move_pos_idem(l: Seq<u8>, d: u8, od: u8, op: u8, nd: u8, np: u8)
    requires
        strictly_sorted(l),
    ensures
        strictly_sorted(move_pos(l, d, od, op, nd, np)),
        move_pos(move_pos(l, d, od, op, nd, np), d, od, op, nd, np) == move_pos(l, d, od, op, nd, np),
{
    lemma_sorted_remove(l, op);
    let r = if d == od {
        sorted_remove(l, op)
    } else {
        l
    };
    lemma_sorted_insert(r, np);
    lemma_remove_idem(l, op);
    lemma_insert_idem(r, np);
    if d == od && d == nd {
        let x = sorted_remove(l, op);
        let y = sorted_insert(x, np);
        if op == np {
            lemma_remove_insert_absent(x, np);
        } else {
            lemma_sorted_remove(y, op);
            assert(!y.contains(op));
            lemma_sorted_remove(y, op);
            lemma_insert_idem(x, np);
        }
    }
}

proof fn lemma_take_push_contains(cs: Seq<SchoolClassId>, i: int)
    requires
        0 <= i < cs.len(),
    ensures
        forall|x: SchoolClassId| cs.take(i + 1).contains(x) <==> cs.take(i).contains(x) || x == cs[i],
{
    let t = cs.take(i);
    let t1 = cs.take(i + 1);
    assert forall|x: SchoolClassId| t1.contains(x) <==> t.contains(x) || x == cs[i] by {
        if t1.contains(x) {
            let j = choose|j: int| 0 <= j < t1.len() && t1[j] == x;
            if j < t.len() {
                assert(t[j] == x);
            }
        }
        if t.contains(x) {
            let j = choose|j: int| 0 <= j < t.len() && t[j] == x;
            assert(t1[j] == x);
        }
        if x == cs[i] {
            assert(t1[i] == x);
        }
    }
}

/// For each class: free `(class, od)` position `op` and occupy `(class, nd)`
/// position `np`.
fn move_class_positions(class_positions: &mut Partition, classes: &Vec<SchoolClassId>, od: u8, op: u8, nd: u8, np: u8)
    requires
        old(class_positions).wf(),
    ensures
        final(class_positions).wf(),
        forall|key: (u128, u8)|
            #[trigger] final(class_positions).lookup(key) == if classes@.contains(SchoolClassId(key.0)) {
                move_pos(old(class_positions).lookup(key), key.1, od, op, nd, np)
            } else {
                old(class_positions).lookup(key)
            },
{
    let ghost cs = classes@;
    let ghost cp0 = *class_positions;
    let mut i: usize = 0;
    while i < classes.len()
        invariant
            i <= cs.len(),
            cs == classes@,
            class_positions.wf(),
            cp0.wf(),
            forall|key: (u128, u8)|
                #[trigger] class_positions.lookup(key) == if cs.take(i as int).contains(SchoolClassId(key.0)) {
                    move_pos(cp0.lookup(key), key.1, od, op, nd, np)
                } else {
                    cp0.lookup(key)
                },
        decreases cs.len() - i,
    {
        let c = classes[i];
        let ghost before = *class_positions;
        class_positions.remove_position(c.0, od, op);
        class_positions.insert_position(c.0, nd, np);
        proof {
            lemma_take_push_contains(cs, i as int);
            assert forall|key: (u128, u8)|
                #[trigger] class_positions.lookup(key) == if cs.take(i + 1).contains(SchoolClassId(key.0)) {
                    move_pos(cp0.lookup(key), key.1, od, op, nd, np)
                } else {
                    cp0.lookup(key)
                } by {
                lemma_lookup_bounded(&cp0, key);
                lemma_move_pos_idem(cp0.lookup(key), key.1, od, op, nd, np);
                if key.0 == c.0 {
                    assert(SchoolClassId(key.0) == c);
                    assert(before.lookup(key) == before.lookup((c.0, key.1)));
                }
            }
        }
        i = i + 1;
    }
    proof {
        assert(cs.take(cs.len() as int) =~= cs);
    }
}


/// A lock of a day after `n` occurrences of its class each moved one
/// placement from day `od` to day `nd` (a new lock takes `room`).
pub open spec fn lock_move(o: Option<(RoomId, u32)>, d: u8, od: u8, nd: u8, n: nat, room: RoomId) -> Option<
    (RoomId, u32),
> {
    if n == 0 {
        o
    } else if od == nd {
        if d == od {
            lock_inc_n(lock_dec_n(o, 1), 1, room)
        } else {
            o
        }
    } else if d == od {
        lock_dec_n(o, n)
    } else if d == nd {
        lock_inc_n(o, n, room)
    } else {
        o
    }
}

/// A counter of a day after `n` occurrences of its class each moved one
/// placement from day `od` to day `nd`.
pub open spec fn count_move(o: Option<u8>, d: u8, od: u8, nd: u8, n: nat) -> Option<u8> {
    if n == 0 {
        o
    } else if od == nd {
        if d == od {
            count_inc_n(count_dec_n(o, 1), 1)
        } else {
            o
        }
    } else if d == od {
        count_dec_n(o, n)
    } else if d == nd {
        count_inc_n(o, n)
    } else {
        o
    }
}

/// For each class: unbook `(class, old_tb)` and book `(class, new_tb)`.
fn move_class_cells(used_class: &mut Vec<(u128, u128)>, classes: &Vec<SchoolClassId>, old_tb: TimeBlockId, new_tb: TimeBlockId)
    ensures
        final(used_class)@.to_set() == old(used_class)@.to_set().difference(class_cells(classes@, old_tb.0)).union(
            class_cells(classes@, new_tb.0),
        ),
{
    let ghost cs = classes@;
    let ghost u0 = used_class@;
    let mut i: usize = 0;
    while i < classes.len()
        invariant
            i <= cs.len(),
            cs == classes@,
            used_class@.to_set() == u0.to_set().difference(class_cells(cs.take(i as int), old_tb.0)).union(
                class_cells(cs.take(i as int), new_tb.0),
            ),
        decreases cs.len() - i,
    {
        let c = classes[i];
        let ghost before = used_class@.to_set();
        set_remove(used_class, (c.0, old_tb.0));
        set_insert(used_class, (c.0, new_tb.0));
        proof {
            lemma_take_push_contains(cs, i as int);
            let t1 = cs.take(i + 1);
            assert(used_class@.to_set() =~= u0.to_set().difference(class_cells(t1, old_tb.0)).union(
                class_cells(t1, new_tb.0),
            )) by {
                let t = cs.take(i as int);
                assert forall|y: (u128, u128)| used_class@.to_set().contains(y) <==> u0.to_set().difference(
                    class_cells(t1, old_tb.0),
                ).union(class_cells(t1, new_tb.0)).contains(y) by {
                    assert(used_class@.to_set().contains(y) == (before.remove((c.0, old_tb.0)).insert(
                        (c.0, new_tb.0),
                    ).contains(y)));
                    if y.0 == c.0 {
                        assert(SchoolClassId(y.0) == c);
                    } else {
                        assert(SchoolClassId(y.0) != c);
                    }
                    assert(class_cells(t1, old_tb.0).contains(y) == (class_cells(t, old_tb.0).contains(y) || y == (
                    c.0, old_tb.0)));
                    assert(class_cells(t1, new_tb.0).contains(y) == (class_cells(t, new_tb.0).contains(y) || y == (
                    c.0, new_tb.0)));
                }
            }
        }
        i = i + 1;
    }
    proof {
        assert(cs.take(cs.len() as int) =~= cs);
    }
}

/// For each class: one placement fewer under the lock of `(class, od,
/// subject)` and one more under that of `(class, nd, subject)`.
fn move_class_locks(
    locked_room: &mut Vec<((SchoolClassId, u8, SubjectId), (RoomId, u32))>,
    classes: &Vec<SchoolClassId>,
    od: u8,
    nd: u8,
    subject: SubjectId,
    room: RoomId,
)
    requires
        keys_unique(old(locked_room)@),
        od != nd ==> forall|c: SchoolClassId|
            #[trigger] classes@.contains(c) ==> fits_lock(map_get(old(locked_room)@, (c, nd, subject)), occ(classes@, c)),
    ensures
        keys_unique(final(locked_room)@),
        forall|k: (SchoolClassId, u8, SubjectId)|
            #[trigger] map_get(final(locked_room)@, k) == if k.2 == subject {
                lock_move(map_get(old(locked_room)@, k), k.1, od, nd, occ(classes@, k.0), room)
            } else {
                map_get(old(locked_room)@, k)
            },
{
    let ghost cs = classes@;
    let ghost l0 = locked_room@;
    let mut i: usize = 0;
    while i < classes.len()
        invariant
            i <= cs.len(),
            cs == classes@,
            keys_unique(locked_room@),
            od != nd ==> forall|c: SchoolClassId|
                #[trigger] cs.contains(c) ==> fits_lock(map_get(l0, (c, nd, subject)), occ(cs, c)),
            forall|k: (SchoolClassId, u8, SubjectId)|
                #[trigger] map_get(locked_room@, k) == if k.2 == subject {
                    lock_move(map_get(l0, k), k.1, od, nd, occ(cs.take(i as int), k.0), room)
                } else {
                    map_get(l0, k)
                },
        decreases cs.len() - i,
    {
        let c = classes[i];
        proof {
            assert(cs.contains(c)) by {
                assert(cs[i as int] == c);
            }
            lemma_occ_push(cs, i as int, c);
            lemma_occ_prefix(cs, i + 1, c);
        }
        dec_lock(locked_room, (c, od, subject));
        inc_lock(locked_room, (c, nd, subject), room);
        proof {
            assert forall|k: (SchoolClassId, u8, SubjectId)| #[trigger] map_get(locked_room@, k) == if k.2 == subject {
                lock_move(map_get(l0, k), k.1, od, nd, occ(cs.take(i + 1), k.0), room)
            } else {
                map_get(l0, k)
            } by {
                lemma_occ_push(cs, i as int, k.0);
            }
        }
        i = i + 1;
    }
    proof {
        assert(cs.take(cs.len() as int) =~= cs);
    }
}

/// For each class: one hour of the subject and one block fewer on `od`, one
/// more of each on `nd`.
fn move_class_counters(
    subject_hours: &mut Vec<((SchoolClassId, u8, SubjectId), u8)>,
    lessons_by_class_day: &mut Vec<((SchoolClassId, u8), u8)>,
    classes: &Vec<SchoolClassId>,
    od: u8,
    nd: u8,
    subject: SubjectId,
)
    requires
        keys_unique(old(subject_hours)@),
        keys_unique(old(lessons_by_class_day)@),
        od != nd ==> forall|c: SchoolClassId|
            #[trigger] classes@.contains(c) ==> fits_u8(map_get(old(subject_hours)@, (c, nd, subject)), occ(classes@, c))
                && fits_u8(map_get(old(lessons_by_class_day)@, (c, nd)), occ(classes@, c)),
    ensures
        keys_unique(final(subject_hours)@),
        keys_unique(final(lessons_by_class_day)@),
        forall|k: (SchoolClassId, u8, SubjectId)|
            #[trigger] map_get(final(subject_hours)@, k) == if k.2 == subject {
                count_move(map_get(old(subject_hours)@, k), k.1, od, nd, occ(classes@, k.0))
            } else {
                map_get(old(subject_hours)@, k)
            },
        forall|k: (SchoolClassId, u8)|
            #[trigger] map_get(final(lessons_by_class_day)@, k) == count_move(
                map_get(old(lessons_by_class_day)@, k),
                k.1,
                od,
                nd,
                occ(classes@, k.0),
            ),
{
    let ghost cs = classes@;
    let ghost h0 = subject_hours@;
    let ghost b0 = lessons_by_class_day@;
    let mut i: usize = 0;
    while i < classes.len()
        invariant
            i <= cs.len(),
            cs == classes@,
            keys_unique(subject_hours@),
            keys_unique(lessons_by_class_day@),
            od != nd ==> forall|c: SchoolClassId|
                #[trigger] cs.contains(c) ==> fits_u8(map_get(h0, (c, nd, subject)), occ(cs, c)) && fits_u8(
                    map_get(b0, (c, nd)),
                    occ(cs, c),
                ),
            forall|k: (SchoolClassId, u8, SubjectId)|
                #[trigger] map_get(subject_hours@, k) == if k.2 == subject {
                    count_move(map_get(h0, k), k.1, od, nd, occ(cs.take(i as int), k.0))
                } else {
                    map_get(h0, k)
                },
            forall|k: (SchoolClassId, u8)|
                #[trigger] map_get(lessons_by_class_day@, k) == count_move(
                    map_get(b0, k),
                    k.1,
                    od,
                    nd,
                    occ(cs.take(i as int), k.0),
                ),
        decreases cs.len() - i,
    {
        let c = classes[i];
        proof {
            assert(cs.contains(c)) by {
                assert(cs[i as int] == c);
            }
            lemma_occ_push(cs, i as int, c);
            lemma_occ_prefix(cs, i + 1, c);
        }
        dec_remove_u8(subject_hours, (c, od, subject));
        dec_remove_u8(lessons_by_class_day, (c, od));
        inc_u8(subject_hours, (c, nd, subject));
        inc_u8(lessons_by_class_day, (c, nd));
        proof {
            assert forall|k: (SchoolClassId, u8, SubjectId)| #[trigger] map_get(subject_hours@, k) == if k.2 == subject {
                count_move(map_get(h0, k), k.1, od, nd, occ(cs.take(i + 1), k.0))
            } else {
                map_get(h0, k)
            } by {
                lemma_occ_push(cs, i as int, k.0);
            }
            assert forall|k: (SchoolClassId, u8)| #[trigger] map_get(lessons_by_class_day@, k) == count_move(
                map_get(b0, k),
                k.1,
                od,
                nd,
                occ(cs.take(i + 1), k.0),
            ) by {
                lemma_occ_push(cs, i as int, k.0);
            }
        }
        i = i + 1;
    }
    proof {
        assert(cs.take(cs.len() as int) =~= cs);
    }
}


/// Apply an accepted Change move: rewrite placement `placement_idx` to the
/// new block, room and teacher, move the positions of the lesson's classes
/// and of the teacher from `old_tb` to `new_tb`, swap the bookings, and move
/// each member class's same-room lock and subject-hour and block counters
/// from the old day's triple to the new day's (a new lock takes the new
/// room).
/// The placements and bookkeeping after a Change move of row `placement_idx`
/// of the lesson's classes `class_ids` from `old_tb` to `new_tb`, into room
/// `new_room_id` with `teacher`: the row is rewritten, positions and
/// bookings move, locks and counters move from the old day's triples to the
/// new day's, and the hours and teacher locks stay.
pub open spec fn change_applied(
    ops: Seq<Placement>,
    nps: Seq<Placement>,
    os: GreedyState,
    ns: GreedyState,
    placement_idx: usize,
    old_p: Placement,
    old_tb: TimeBlock,
    new_tb: TimeBlock,
    new_room_id: RoomId,
    class_ids: Seq<SchoolClassId>,
    teacher: TeacherId,
    subject_id: SubjectId,
) -> bool {
    &&& nps == ops.update(
        placement_idx as int,
        Placement { lesson_id: old_p.lesson_id, time_block_id: new_tb.id, room_id: new_room_id, teacher_id: teacher },
    )
    &&& ns.used_teacher@.to_set() == os.used_teacher@.to_set().remove((teacher.0, old_tb.id.0)).insert(
        (teacher.0, new_tb.id.0),
    )
    &&& ns.used_class@.to_set() == os.used_class@.to_set().difference(class_cells(class_ids, old_tb.id.0)).union(
        class_cells(class_ids, new_tb.id.0),
    )
    &&& ns.used_room@.to_set() == os.used_room@.to_set().remove((old_p.room_id.0, old_tb.id.0)).insert(
        (new_room_id.0, new_tb.id.0),
    )
    &&& forall|key: (u128, u8)|
        #[trigger] ns.class_positions.lookup(key) == if class_ids.contains(SchoolClassId(key.0)) {
            move_pos(
                os.class_positions.lookup(key),
                key.1,
                old_tb.day_of_week,
                old_tb.position,
                new_tb.day_of_week,
                new_tb.position,
            )
        } else {
            os.class_positions.lookup(key)
        }
    &&& forall|key: (u128, u8)|
        #[trigger] ns.teacher_positions.lookup(key) == if key.0 == teacher.0 {
            move_pos(
                os.teacher_positions.lookup(key),
                key.1,
                old_tb.day_of_week,
                old_tb.position,
                new_tb.day_of_week,
                new_tb.position,
            )
        } else {
            os.teacher_positions.lookup(key)
        }
    &&& forall|k: (SchoolClassId, u8, SubjectId)|
        #[trigger] map_get(ns.locked_room@, k) == if k.2 == subject_id {
            lock_move(
                map_get(os.locked_room@, k),
                k.1,
                old_tb.day_of_week,
                new_tb.day_of_week,
                occ(class_ids, k.0),
                new_room_id,
            )
        } else {
            map_get(os.locked_room@, k)
        }
    &&& forall|k: (SchoolClassId, u8, SubjectId)|
        #[trigger] map_get(ns.subject_hours_by_class_day@, k) == if k.2 == subject_id {
            count_move(
                map_get(os.subject_hours_by_class_day@, k),
                k.1,
                old_tb.day_of_week,
                new_tb.day_of_week,
                occ(class_ids, k.0),
            )
        } else {
            map_get(os.subject_hours_by_class_day@, k)
        }
    &&& forall|k: (SchoolClassId, u8)|
        #[trigger] map_get(ns.lessons_by_class_day@, k) == count_move(
            map_get(os.lessons_by_class_day@, k),
            k.1,
            old_tb.day_of_week,
            new_tb.day_of_week,
            occ(class_ids, k.0),
        )
    &&& ns.hours_by_teacher@ == os.hours_by_teacher@
    &&& ns.class_subject_teacher@ == os.class_subject_teacher@
    &&& ns.soft_pinned_blocks@ == os.soft_pinned_blocks@
}

pub fn apply_change_move(
    placement_idx: usize,
    old_p: &Placement,
    old_tb: TimeBlock,
    new_tb: TimeBlock,
    new_room_id: RoomId,
    class_ids: &Vec<SchoolClassId>,
    teacher: TeacherId,
    subject_id: SubjectId,
    placements: &mut Vec<Placement>,
    state: &mut GreedyState,
)
    requires
        placement_idx < old(placements)@.len(),
        old(state).wf(),
        old_tb.day_of_week != new_tb.day_of_week ==> forall|c: SchoolClassId|
            #[trigger] class_ids@.contains(c) ==> fits_lock(
                map_get(old(state).locked_room@, (c, new_tb.day_of_week, subject_id)),
                occ(class_ids@, c),
            ) && fits_u8(
                map_get(old(state).subject_hours_by_class_day@, (c, new_tb.day_of_week, subject_id)),
                occ(class_ids@, c),
            ) && fits_u8(map_get(old(state).lessons_by_class_day@, (c, new_tb.day_of_week)), occ(class_ids@, c)),
    ensures
        final(state).wf(),
        change_applied(
            old(placements)@,
            final(placements)@,
            *old(state),
            *final(state),
            placement_idx,
            *old_p,
            old_tb,
            new_tb,
            new_room_id,
            class_ids@,
            teacher,
            subject_id,
        ),
        final(state).search_score_slice == old(state).search_score_slice,
        final(state).canonical_score == old(state).canonical_score,
        final(state).soft_pinned_blocks@ == old(state).soft_pinned_blocks@,
{
    placements.set(
        placement_idx,
        Placement { lesson_id: old_p.lesson_id, time_block_id: new_tb.id, room_id: new_room_id, teacher_id: teacher },
    );
    move_class_positions(
        &mut state.class_positions,
        class_ids,
        old_tb.day_of_week,
        old_tb.position,
        new_tb.day_of_week,
        new_tb.position,
    );
    let ghost tp0 = state.teacher_positions;
    state.teacher_positions.remove_position(teacher.0, old_tb.day_of_week, old_tb.position);
    state.teacher_positions.insert_position(teacher.0, new_tb.day_of_week, new_tb.position);
    proof {
        assert forall|key: (u128, u8)|
            #[trigger] state.teacher_positions.lookup(key) == if key.0 == teacher.0 {
                move_pos(
                    tp0.lookup(key),
                    key.1,
                    old_tb.day_of_week,
                    old_tb.position,
                    new_tb.day_of_week,
                    new_tb.position,
                )
            } else {
                tp0.lookup(key)
            } by {
        }
    }
    set_remove(&mut state.used_teacher, (teacher.0, old_tb.id.0));
    set_insert(&mut state.used_teacher, (teacher.0, new_tb.id.0));
    move_class_cells(&mut state.used_class, class_ids, old_tb.id, new_tb.id);
    set_remove(&mut state.used_room, (old_p.room_id.0, old_tb.id.0));
    set_insert(&mut state.used_room, (new_room_id.0, new_tb.id.0));
    move_class_locks(
        &mut state.locked_room,
        class_ids,
        old_tb.day_of_week,
        new_tb.day_of_week,
        subject_id,
        new_room_id,
    );
    move_class_counters(
        &mut state.subject_hours_by_class_day,
        &mut state.lessons_by_class_day,
        class_ids,
        old_tb.day_of_week,
        new_tb.day_of_week,
        subject_id,
    );
}


/// Positions `start, start + 1, .., start + k - 1` inserted into `l`.
pub open spec fn insert_run(l: Seq<u8>, start: u8, k: nat) -> Seq<u8>
    decreases k,
{
    if k == 0 {
        l
    } else {
        sorted_insert(insert_run(l, start, (k - 1) as nat), (start + k - 1) as u8)
    }
}

/// The blocks of the first `k` slots of the window at `start` on day `d`.
pub open spec fn window_blocks(slots: Seq<((u8, u8), TimeBlockId)>, d: u8, start: u8, k: nat) -> Set<u128> {
    Set::new(|b: u128| exists|j: int| 0 <= j < k && #[trigger] window_slot(slots, d, start, j) == Some(TimeBlockId(b)))
}

/// The pairs `(owner, block)` of one owner over a set of blocks.
pub open spec fn owner_cells(owner: u128, blocks: Set<u128>) -> Set<(u128, u128)> {
    Set::new(|x: (u128, u128)| x.0 == owner && blocks.contains(x.1))
}

/// The pairs `(class, block)` of the classes over a set of blocks.
pub open spec fn classes_cells(cs: Seq<SchoolClassId>, blocks: Set<u128>) -> Set<(u128, u128)> {
    Set::new(|x: (u128, u128)| cs.contains(SchoolClassId(x.0)) && blocks.contains(x.1))
}

/// The rows of one block placed at the window: one per slot, in order.
pub open spec fn block_rows(
    lesson_id: crate::types::LessonId,
    slots: Seq<((u8, u8), TimeBlockId)>,
    d: u8,
    start: u8,
    n: nat,
    room: RoomId,
    teacher: TeacherId,
) -> Seq<Placement> {
    Seq::new(
        n,
        |k: int| Placement { lesson_id, time_block_id: window_slot(slots, d, start, k)->0, room_id: room, teacher_id: teacher },
    )
}

/// For each class: one more block on `(class, day)`.
pub(crate) fn inc_class_days(lessons_by_class_day: &mut Vec<((SchoolClassId, u8), u8)>, classes: &Vec<SchoolClassId>, day: u8)
    requires
        keys_unique(old(lessons_by_class_day)@),
        forall|c: SchoolClassId|
            #[trigger] classes@.contains(c) ==> fits_u8(map_get(old(lessons_by_class_day)@, (c, day)), occ(classes@, c)),
    ensures
        keys_unique(final(lessons_by_class_day)@),
        forall|k: (SchoolClassId, u8)|
            #[trigger] map_get(final(lessons_by_class_day)@, k) == if k.1 == day {
                count_inc_n(map_get(old(lessons_by_class_day)@, k), occ(classes@, k.0))
            } else {
                map_get(old(lessons_by_class_day)@, k)
            },
{
    let ghost cs = classes@;
    let ghost b0 = lessons_by_class_day@;
    let mut i: usize = 0;
    while i < classes.len()
        invariant
            i <= cs.len(),
            cs == classes@,
            keys_unique(lessons_by_class_day@),
            forall|c: SchoolClassId| #[trigger] cs.contains(c) ==> fits_u8(map_get(b0, (c, day)), occ(cs, c)),
            forall|k: (SchoolClassId, u8)|
                #[trigger] map_get(lessons_by_class_day@, k) == if k.1 == day {
                    count_inc_n(map_get(b0, k), occ(cs.take(i as int), k.0))
                } else {
                    map_get(b0, k)
                },
        decreases cs.len() - i,
    {
        let c = classes[i];
        proof {
            assert(cs.contains(c)) by {
                assert(cs[i as int] == c);
            }
            lemma_occ_push(cs, i as int, c);
            lemma_occ_prefix(cs, i + 1, c);
        }
        inc_u8(lessons_by_class_day, (c, day));
        proof {
            assert forall|k: (SchoolClassId, u8)| #[trigger] map_get(lessons_by_class_day@, k) == if k.1 == day {
                count_inc_n(map_get(b0, k), occ(cs.take(i + 1), k.0))
            } else {
                map_get(b0, k)
            } by {
                lemma_occ_push(cs, i as int, k.0);
            }
        }
        i = i + 1;
    }
    proof {
        assert(cs.take(cs.len() as int) =~= cs);
    }
}


proof fn lemma_lock_inc_add(o: Option<(RoomId, u32)>, a: nat, b: nat, r: RoomId)
    requires
        fits_lock(o, a + b),
    ensures
        lock_inc_n(lock_inc_n(o, a, r), b, r) == lock_inc_n(o, a + b, r),
{
}

proof fn lemma_count_inc_add(o: Option<u8>, a: nat, b: nat)
    requires
        fits_u8(o, a + b),
    ensures
        count_inc_n(count_inc_n(o, a), b) == count_inc_n(o, a + b),
{
}

/// Placing the block at the window overflows no counter.
pub open spec fn block_fits(s: GreedyState, lesson: Lesson, dest_day: u8, teacher: TeacherId) -> bool {
    let n = lesson.preferred_block_size as nat;
    let cs = lesson.school_class_ids@;
    &&& (match map_get(s.hours_by_teacher@, teacher) {
        Some(v) => v as int,
        None => 0,
    }) + n <= u32::MAX
    &&& forall|c: SchoolClassId|
        #[trigger] cs.contains(c) ==> fits_lock(map_get(s.locked_room@, (c, dest_day, lesson.subject_id)), n * occ(cs, c))
            && fits_u8(map_get(s.subject_hours_by_class_day@, (c, dest_day, lesson.subject_id)), n * occ(cs, c))
            && fits_u8(map_get(s.lessons_by_class_day@, (c, dest_day)), occ(cs, c))
}

pub(crate) proof fn lemma_mul_step(k: nat, n: nat, x: nat)
    requires
        k < n,
    ensures
        (k + 1) * x == k * x + x,
        (k + 1) * x <= n * x,
{
    assert((k + 1) * x == k * x + x) by (nonlinear_arith);
    assert((k + 1) * x <= n * x) by (nonlinear_arith)
        requires
            k + 1 <= n,
    ;
}

proof fn lemma_window_blocks_step(slots: Seq<((u8, u8), TimeBlockId)>, d: u8, start: u8, k: nat, tb: TimeBlockId)
    requires
        window_slot(slots, d, start, k as int) == Some(tb),
    ensures
        forall|b: u128|
            #[trigger] window_blocks(slots, d, start, k + 1).contains(b) <==> window_blocks(slots, d, start, k).contains(b)
                || b == tb.0,
{
    assert forall|b: u128|
        #[trigger] window_blocks(slots, d, start, k + 1).contains(b) <==> window_blocks(slots, d, start, k).contains(b)
            || b == tb.0 by {
        if window_blocks(slots, d, start, k + 1).contains(b) {
            let j = choose|j: int| 0 <= j < k + 1 && #[trigger] window_slot(slots, d, start, j) == Some(TimeBlockId(b));
            if j == k {
                assert(TimeBlockId(b) == tb);
            }
        }
        if b == tb.0 {
            assert(window_slot(slots, d, start, k as int) == Some(TimeBlockId(b)));
        }
    }
}

/// Place one chain member's block at the window `(dest_day, start_pos ..)`:
/// one row per slot with `room_id` and `teacher`, each booked for the
/// teacher, the lesson's classes and the room, its position occupied in
/// each class and teacher day, an hour of the teacher, and per member class
/// one more placement under the day's lock (a new lock takes `room_id`) and
/// one more subject hour; then one more block per member class on the day.
pub fn kempe_apply_block(
    lesson: &Lesson,
    dest_day: u8,
    start_pos: u8,
    room_id: RoomId,
    teacher: TeacherId,
    tb_by_day_pos: &Vec<((u8, u8), TimeBlockId)>,
    placements: &mut Vec<Placement>,
    state: &mut GreedyState,
)
    requires
        old(state).wf(),
        start_pos + lesson.preferred_block_size <= 256,
        forall|k: int|
            0 <= k < lesson.preferred_block_size ==> (#[trigger] window_slot(tb_by_day_pos@, dest_day, start_pos, k)) is Some,
        block_fits(*old(state), *lesson, dest_day, teacher),
    ensures
        final(state).wf(),
        final(placements)@ == old(placements)@ + block_rows(
            lesson.id,
            tb_by_day_pos@,
            dest_day,
            start_pos,
            lesson.preferred_block_size as nat,
            room_id,
            teacher,
        ),
        final(state).used_teacher@.to_set() == old(state).used_teacher@.to_set().union(
            owner_cells(teacher.0, window_blocks(tb_by_day_pos@, dest_day, start_pos, lesson.preferred_block_size as nat)),
        ),
        final(state).used_class@.to_set() == old(state).used_class@.to_set().union(
            classes_cells(
                lesson.school_class_ids@,
                window_blocks(tb_by_day_pos@, dest_day, start_pos, lesson.preferred_block_size as nat),
            ),
        ),
        final(state).used_room@.to_set() == old(state).used_room@.to_set().union(
            owner_cells(room_id.0, window_blocks(tb_by_day_pos@, dest_day, start_pos, lesson.preferred_block_size as nat)),
        ),
        forall|key: (u128, u8)|
            #[trigger] final(state).class_positions.lookup(key) == if key.1 == dest_day
                && lesson.school_class_ids@.contains(SchoolClassId(key.0)) {
                insert_run(old(state).class_positions.lookup(key), start_pos, lesson.preferred_block_size as nat)
            } else {
                old(state).class_positions.lookup(key)
            },
        forall|key: (u128, u8)|
            #[trigger] final(state).teacher_positions.lookup(key) == if key == (teacher.0, dest_day) {
                insert_run(old(state).teacher_positions.lookup(key), start_pos, lesson.preferred_block_size as nat)
            } else {
                old(state).teacher_positions.lookup(key)
            },
        forall|k: TeacherId|
            #[trigger] map_get(final(state).hours_by_teacher@, k) == if k == teacher {
                hours_inc_n(map_get(old(state).hours_by_teacher@, k), lesson.preferred_block_size as nat)
            } else {
                map_get(old(state).hours_by_teacher@, k)
            },
        forall|k: (SchoolClassId, u8, SubjectId)|
            #[trigger] map_get(final(state).locked_room@, k) == if k.1 == dest_day && k.2 == lesson.subject_id {
                lock_inc_n(
                    map_get(old(state).locked_room@, k),
                    lesson.preferred_block_size as nat * occ(lesson.school_class_ids@, k.0),
                    room_id,
                )
            } else {
                map_get(old(state).locked_room@, k)
            },
        forall|k: (SchoolClassId, u8, SubjectId)|
            #[trigger] map_get(final(state).subject_hours_by_class_day@, k) == if k.1 == dest_day && k.2
                == lesson.subject_id {
                count_inc_n(
                    map_get(old(state).subject_hours_by_class_day@, k),
                    lesson.preferred_block_size as nat * occ(lesson.school_class_ids@, k.0),
                )
            } else {
                map_get(old(state).subject_hours_by_class_day@, k)
            },
        forall|k: (SchoolClassId, u8)|
            #[trigger] map_get(final(state).lessons_by_class_day@, k) == if k.1 == dest_day {
                count_inc_n(map_get(old(state).lessons_by_class_day@, k), occ(lesson.school_class_ids@, k.0))
            } else {
                map_get(old(state).lessons_by_class_day@, k)
            },
        final(state).class_subject_teacher@ == old(state).class_subject_teacher@,
        final(state).search_score_slice == old(state).search_score_slice,
        final(state).canonical_score == old(state).canonical_score,
        final(state).soft_pinned_blocks@ == old(state).soft_pinned_blocks@,
{
    let ghost s0 = *state;
    let ghost p0 = placements@;
    let ghost slots = tb_by_day_pos@;
    let ghost cs = lesson.school_class_ids@;
    let n = lesson.preferred_block_size;
    let ghost nn = n as nat;
    let ghost rows = block_rows(lesson.id, slots, dest_day, start_pos, nn, room_id, teacher);
    let mut k: u8 = 0;
    while k < n
        invariant
            k <= n,
            n == lesson.preferred_block_size,
            nn == n as nat,
            s0.wf(),
            state.wf(),
            start_pos + n <= 256,
            forall|j: int| 0 <= j < n ==> (#[trigger] window_slot(slots, dest_day, start_pos, j)) is Some,
            block_fits(s0, *lesson, dest_day, teacher),
            slots == tb_by_day_pos@,
            cs == lesson.school_class_ids@,
            rows == block_rows(lesson.id, slots, dest_day, start_pos, nn, room_id, teacher),
            placements@ == p0 + rows.take(k as int),
            state.used_teacher@.to_set() == s0.used_teacher@.to_set().union(
                owner_cells(teacher.0, window_blocks(slots, dest_day, start_pos, k as nat)),
            ),
            state.used_class@.to_set() == s0.used_class@.to_set().union(
                classes_cells(cs, window_blocks(slots, dest_day, start_pos, k as nat)),
            ),
            state.used_room@.to_set() == s0.used_room@.to_set().union(
                owner_cells(room_id.0, window_blocks(slots, dest_day, start_pos, k as nat)),
            ),
            forall|key: (u128, u8)|
                #[trigger] state.class_positions.lookup(key) == if key.1 == dest_day && cs.contains(SchoolClassId(key.0)) {
                    insert_run(s0.class_positions.lookup(key), start_pos, k as nat)
                } else {
                    s0.class_positions.lookup(key)
                },
            forall|key: (u128, u8)|
                #[trigger] state.teacher_positions.lookup(key) == if key == (teacher.0, dest_day) {
                    insert_run(s0.teacher_positions.lookup(key), start_pos, k as nat)
                } else {
                    s0.teacher_positions.lookup(key)
                },
            forall|t: TeacherId|
                #[trigger] map_get(state.hours_by_teacher@, t) == if t == teacher {
                    hours_inc_n(map_get(s0.hours_by_teacher@, t), k as nat)
                } else {
                    map_get(s0.hours_by_teacher@, t)
                },
            forall|q: (SchoolClassId, u8, SubjectId)|
                #[trigger] map_get(state.locked_room@, q) == if q.1 == dest_day && q.2 == lesson.subject_id {
                    lock_inc_n(map_get(s0.locked_room@, q), k as nat * occ(cs, q.0), room_id)
                } else {
                    map_get(s0.locked_room@, q)
                },
            forall|q: (SchoolClassId, u8, SubjectId)|
                #[trigger] map_get(state.subject_hours_by_class_day@, q) == if q.1 == dest_day && q.2
                    == lesson.subject_id {
                    count_inc_n(map_get(s0.subject_hours_by_class_day@, q), k as nat * occ(cs, q.0))
                } else {
                    map_get(s0.subject_hours_by_class_day@, q)
                },
            state.lessons_by_class_day@ == s0.lessons_by_class_day@,
            state.class_subject_teacher@ == s0.class_subject_teacher@,
            state.search_score_slice == s0.search_score_slice,
            state.canonical_score == s0.canonical_score,
            state.soft_pinned_blocks@ == s0.soft_pinned_blocks@,
        decreases n - k,
    {
        let pos = start_pos + k;
        let tb_id = match lookup_slot(tb_by_day_pos, (dest_day, pos)) {
            Some(t) => t,
            None => {
                assert(window_slot(slots, dest_day, start_pos, k as int) is Some);
                return;
            },
        };
        proof {
            assert(window_slot(slots, dest_day, start_pos, k as int) == Some(tb_id));
            lemma_window_blocks_step(slots, dest_day, start_pos, k as nat, tb_id);
            assert forall|c: SchoolClassId| #[trigger] cs.contains(c) implies fits_lock(
                map_get(state.locked_room@, (c, dest_day, lesson.subject_id)),
                occ(cs, c),
            ) && fits_u8(map_get(state.subject_hours_by_class_day@, (c, dest_day, lesson.subject_id)), occ(cs, c)) by {
                lemma_mul_step(k as nat, nn, occ(cs, c));
            }
        }
        let ghost before = *state;
        placements.push(Placement { lesson_id: lesson.id, time_block_id: tb_id, room_id, teacher_id: teacher });
        set_insert(&mut state.used_teacher, (teacher.0, tb_id.0));
        insert_class_cells(
            &mut state.used_class,
            &mut state.class_positions,
            &lesson.school_class_ids,
            tb_id,
            dest_day,
            pos,
        );
        set_insert(&mut state.used_room, (room_id.0, tb_id.0));
        state.teacher_positions.insert_position(teacher.0, dest_day, pos);
        inc_u32(&mut state.hours_by_teacher, teacher);
        inc_class_triples(
            &mut state.locked_room,
            &mut state.subject_hours_by_class_day,
            &lesson.school_class_ids,
            dest_day,
            lesson.subject_id,
            room_id,
        );
        proof {
            let k1 = (k + 1) as nat;
            assert(rows.take(k1 as int) =~= rows.take(k as int).push(rows[k as int]));
            assert(placements@ =~= p0 + rows.take(k1 as int));
            let wb1 = window_blocks(slots, dest_day, start_pos, k1);
            assert(state.used_teacher@.to_set() =~= s0.used_teacher@.to_set().union(owner_cells(teacher.0, wb1)));
            assert(state.used_room@.to_set() =~= s0.used_room@.to_set().union(owner_cells(room_id.0, wb1)));
            assert(state.used_class@.to_set() =~= s0.used_class@.to_set().union(classes_cells(cs, wb1)));
            assert forall|q: (SchoolClassId, u8, SubjectId)|
                #[trigger] map_get(state.locked_room@, q) == if q.1 == dest_day && q.2 == lesson.subject_id {
                    lock_inc_n(map_get(s0.locked_room@, q), k1 * occ(cs, q.0), room_id)
                } else {
                    map_get(s0.locked_room@, q)
                } by {
                lemma_mul_step(k as nat, nn, occ(cs, q.0));
                if q.1 == dest_day && q.2 == lesson.subject_id {
                    lemma_occ_contains(cs, q.0);
                    if cs.contains(q.0) {
                        assert(q == (q.0, dest_day, lesson.subject_id));
                        lemma_lock_inc_add(map_get(s0.locked_room@, q), k as nat * occ(cs, q.0), occ(cs, q.0), room_id);
                    }
                }
            }
            assert forall|q: (SchoolClassId, u8, SubjectId)|
                #[trigger] map_get(state.subject_hours_by_class_day@, q) == if q.1 == dest_day && q.2
                    == lesson.subject_id {
                    count_inc_n(map_get(s0.subject_hours_by_class_day@, q), k1 * occ(cs, q.0))
                } else {
                    map_get(s0.subject_hours_by_class_day@, q)
                } by {
                lemma_mul_step(k as nat, nn, occ(cs, q.0));
                if q.1 == dest_day && q.2 == lesson.subject_id {
                    lemma_occ_contains(cs, q.0);
                    if cs.contains(q.0) {
                        assert(q == (q.0, dest_day, lesson.subject_id));
                        lemma_count_inc_add(
                            map_get(s0.subject_hours_by_class_day@, q),
                            k as nat * occ(cs, q.0),
                            occ(cs, q.0),
                        );
                    }
                }
            }
        }
        k = k + 1;
    }
    proof {
        assert(rows.take(n as int) =~= rows);
    }
    inc_class_days(&mut state.lessons_by_class_day, &lesson.school_class_ids, dest_day);
}


/// The rows of one block taken out of the placements, to be replayed when
/// the move that ruined it is rolled back.
pub struct BlockSnapshot {
    /// The removed rows, in the order they were removed.
    pub rows: Vec<Placement>,
}

/// The row is a placement of lesson `lid` whose block resolves to day `day`.
pub open spec fn on_day(tbs: Seq<TimeBlock>, lid: crate::types::LessonId, day: u8, p: Placement) -> bool {
    p.lesson_id == lid && tb_index(tbs, p.time_block_id) >= 0 && row_block(tbs, p).day_of_week == day
}

/// The rows of `ps` that are not on the day, in order.
pub open spec fn kept_rows(ps: Seq<Placement>, tbs: Seq<TimeBlock>, lid: crate::types::LessonId, day: u8) -> Seq<Placement>
    decreases ps.len(),
{
    if ps.len() == 0 {
        ps
    } else {
        (if on_day(tbs, lid, day, ps[0]) {
            Seq::<Placement>::empty()
        } else {
            seq![ps[0]]
        }) + kept_rows(ps.drop_first(), tbs, lid, day)
    }
}

/// The rows of `ps` that are on the day, last first.
pub open spec fn ruined_rows(ps: Seq<Placement>, tbs: Seq<TimeBlock>, lid: crate::types::LessonId, day: u8) -> Seq<Placement>
    decreases ps.len(),
{
    if ps.len() == 0 {
        ps
    } else {
        ruined_rows(ps.drop_first(), tbs, lid, day) + (if on_day(tbs, lid, day, ps[0]) {
            seq![ps[0]]
        } else {
            Seq::<Placement>::empty()
        })
    }
}

/// `(teacher, block)` pairs of the rows.
pub open spec fn rows_teacher_cells(rows: Seq<Placement>) -> Set<(u128, u128)> {
    Set::new(|x: (u128, u128)| exists|i: int| 0 <= i < rows.len() && #[trigger] rows[i].teacher_id.0 == x.0 && rows[i].time_block_id.0 == x.1)
}

/// `(room, block)` pairs of the rows.
pub open spec fn rows_room_cells(rows: Seq<Placement>) -> Set<(u128, u128)> {
    Set::new(|x: (u128, u128)| exists|i: int| 0 <= i < rows.len() && #[trigger] rows[i].room_id.0 == x.0 && rows[i].time_block_id.0 == x.1)
}

/// Blocks of the rows.
pub open spec fn rows_blocks(rows: Seq<Placement>) -> Set<u128> {
    Set::new(|b: u128| exists|i: int| 0 <= i < rows.len() && #[trigger] rows[i].time_block_id.0 == b)
}

/// Positions of the rows (resolved through `tbs`) removed from `l`, in row
/// order.
pub open spec fn remove_rows_positions(l: Seq<u8>, rows: Seq<Placement>, tbs: Seq<TimeBlock>) -> Seq<u8>
    decreases rows.len(),
{
    if rows.len() == 0 {
        l
    } else {
        sorted_remove(remove_rows_positions(l, rows.drop_last(), tbs), row_block(tbs, rows.last()).position)
    }
}

/// Positions of the rows taught by `owner` removed from `l`, in row order.
pub open spec fn remove_teacher_positions(l: Seq<u8>, owner: u128, rows: Seq<Placement>, tbs: Seq<TimeBlock>) -> Seq<u8>
    decreases rows.len(),
{
    if rows.len() == 0 {
        l
    } else {
        let r = remove_teacher_positions(l, owner, rows.drop_last(), tbs);
        if rows.last().teacher_id.0 == owner {
            sorted_remove(r, row_block(tbs, rows.last()).position)
        } else {
            r
        }
    }
}

/// Hours of teacher `t` after one saturating decrement per row it teaches.
pub open spec fn hours_after_rows(o: Option<u32>, t: TeacherId, rows: Seq<Placement>) -> Option<u32>
    decreases rows.len(),
{
    if rows.len() == 0 {
        o
    } else {
        let r = hours_after_rows(o, t, rows.drop_last());
        if rows.last().teacher_id == t {
            hours_dec(r)
        } else {
            r
        }
    }
}

proof fn lemma_lock_dec_add(o: Option<(RoomId, u32)>, a: nat, b: nat)
    ensures
        lock_dec_n(lock_dec_n(o, a), b) == lock_dec_n(o, a + b),
{
}

proof fn lemma_count_dec_add(o: Option<u8>, a: nat, b: nat)
    ensures
        count_dec_n(count_dec_n(o, a), b) == count_dec_n(o, a + b),
{
}

/// For each class: one block fewer on `(class, day)` (a counter reaching
/// zero is dropped).
pub(crate) fn dec_class_days(lessons_by_class_day: &mut Vec<((SchoolClassId, u8), u8)>, classes: &Vec<SchoolClassId>, day: u8)
    requires
        keys_unique(old(lessons_by_class_day)@),
    ensures
        keys_unique(final(lessons_by_class_day)@),
        forall|k: (SchoolClassId, u8)|
            #[trigger] map_get(final(lessons_by_class_day)@, k) == if k.1 == day {
                count_dec_n(map_get(old(lessons_by_class_day)@, k), occ(classes@, k.0))
            } else {
                map_get(old(lessons_by_class_day)@, k)
            },
{
    let ghost cs = classes@;
    let ghost b0 = lessons_by_class_day@;
    let mut i: usize = 0;
    while i < classes.len()
        invariant
            i <= cs.len(),
            cs == classes@,
            keys_unique(lessons_by_class_day@),
            forall|k: (SchoolClassId, u8)|
                #[trigger] map_get(lessons_by_class_day@, k) == if k.1 == day {
                    count_dec_n(map_get(b0, k), occ(cs.take(i as int), k.0))
                } else {
                    map_get(b0, k)
                },
        decreases cs.len() - i,
    {
        let c = classes[i];
        dec_remove_u8(lessons_by_class_day, (c, day));
        proof {
            assert forall|k: (SchoolClassId, u8)| #[trigger] map_get(lessons_by_class_day@, k) == if k.1 == day {
                count_dec_n(map_get(b0, k), occ(cs.take(i + 1), k.0))
            } else {
                map_get(b0, k)
            } by {
                lemma_occ_push(cs, i as int, k.0);
            }
        }
        i = i + 1;
    }
    proof {
        assert(cs.take(cs.len() as int) =~= cs);
    }
}


/// The day of the block the anchor row sits in.
pub open spec fn ruin_day(tbs: Seq<TimeBlock>, ps: Seq<Placement>, anchor_idx: int) -> u8 {
    row_block(tbs, ps[anchor_idx]).day_of_week
}

proof fn lemma_mul_succ(m: nat, x: nat)
    ensures
        m * x + x == (m + 1) * x,
{
    assert(m * x + x == (m + 1) * x) by (nonlinear_arith);
}

/// Remove the block anchored at row `anchor_idx`: every row of `lesson`
/// whose block falls on the anchor's day leaves `placements` (scanning from
/// the last row down) and its bookkeeping leaves `state`; the removed rows
/// are returned in removal order. When any row was removed, each member
/// class counts one block fewer on the day.
pub fn rr_ruin_block(
    anchor_idx: usize,
    lesson: &Lesson,
    tbs: &Vec<TimeBlock>,
    placements: &mut Vec<Placement>,
    state: &mut GreedyState,
) -> (snap: BlockSnapshot)
    requires
        anchor_idx < old(placements)@.len(),
        tb_index(tbs@, old(placements)@[anchor_idx as int].time_block_id) >= 0,
        old(state).wf(),
    ensures
        final(state).wf(),
        final(placements)@ == kept_rows(
            old(placements)@,
            tbs@,
            lesson.id,
            ruin_day(tbs@, old(placements)@, anchor_idx as int),
        ),
        snap.rows@ == ruined_rows(old(placements)@, tbs@, lesson.id, ruin_day(tbs@, old(placements)@, anchor_idx as int)),
        final(state).used_teacher@.to_set() == old(state).used_teacher@.to_set().difference(
            rows_teacher_cells(snap.rows@),
        ),
        final(state).used_class@.to_set() == old(state).used_class@.to_set().difference(
            classes_cells(lesson.school_class_ids@, rows_blocks(snap.rows@)),
        ),
        final(state).used_room@.to_set() == old(state).used_room@.to_set().difference(rows_room_cells(snap.rows@)),
        forall|key: (u128, u8)|
            #[trigger] final(state).class_positions.lookup(key) == if key.1 == ruin_day(
                tbs@,
                old(placements)@,
                anchor_idx as int,
            ) && lesson.school_class_ids@.contains(SchoolClassId(key.0)) {
                remove_rows_positions(old(state).class_positions.lookup(key), snap.rows@, tbs@)
            } else {
                old(state).class_positions.lookup(key)
            },
        forall|key: (u128, u8)|
            #[trigger] final(state).teacher_positions.lookup(key) == if key.1 == ruin_day(
                tbs@,
                old(placements)@,
                anchor_idx as int,
            ) {
                remove_teacher_positions(old(state).teacher_positions.lookup(key), key.0, snap.rows@, tbs@)
            } else {
                old(state).teacher_positions.lookup(key)
            },
        forall|t: TeacherId|
            #[trigger] map_get(final(state).hours_by_teacher@, t) == hours_after_rows(
                map_get(old(state).hours_by_teacher@, t),
                t,
                snap.rows@,
            ),
        forall|k: (SchoolClassId, u8, SubjectId)|
            #[trigger] map_get(final(state).locked_room@, k) == if k.1 == ruin_day(
                tbs@,
                old(placements)@,
                anchor_idx as int,
            ) && k.2 == lesson.subject_id {
                lock_dec_n(map_get(old(state).locked_room@, k), snap.rows@.len() * occ(lesson.school_class_ids@, k.0))
            } else {
                map_get(old(state).locked_room@, k)
            },
        forall|k: (SchoolClassId, u8, SubjectId)|
            #[trigger] map_get(final(state).subject_hours_by_class_day@, k) == if k.1 == ruin_day(
                tbs@,
                old(placements)@,
                anchor_idx as int,
            ) && k.2 == lesson.subject_id {
                count_dec_n(
                    map_get(old(state).subject_hours_by_class_day@, k),
                    snap.rows@.len() * occ(lesson.school_class_ids@, k.0),
                )
            } else {
                map_get(old(state).subject_hours_by_class_day@, k)
            },
        forall|k: (SchoolClassId, u8)|
            #[trigger] map_get(final(state).lessons_by_class_day@, k) == if snap.rows@.len() > 0 && k.1 == ruin_day(
                tbs@,
                old(placements)@,
                anchor_idx as int,
            ) {
                count_dec_n(map_get(old(state).lessons_by_class_day@, k), occ(lesson.school_class_ids@, k.0))
            } else {
                map_get(old(state).lessons_by_class_day@, k)
            },
        final(state).class_subject_teacher@ == old(state).class_subject_teacher@,
        final(state).search_score_slice == old(state).search_score_slice,
        final(state).canonical_score == old(state).canonical_score,
        final(state).soft_pinned_blocks@ == old(state).soft_pinned_blocks@,
        old(state).class_positions.dense() ==> final(state).class_positions.dense(),
        old(state).class_positions.dense() ==> (forall|key: (u128, u8)|
            #[trigger] final(state).class_positions.lookup(key).len() == 0 ==> !final(state).class_positions.keys().contains(key)),
        old(state).teacher_positions.dense() ==> final(state).teacher_positions.dense(),
        old(state).teacher_positions.dense() ==> (forall|key: (u128, u8)|
            #[trigger] final(state).teacher_positions.lookup(key).len() == 0 ==> !final(state).teacher_positions.keys().contains(key)),
{
    let ghost ps0 = placements@;
    let ghost s0 = *state;
    let ghost ts = tbs@;
    let ghost cs = lesson.school_class_ids@;
    let anchor_tb = placements[anchor_idx].time_block_id;
    let day = match find_tb(tbs, anchor_tb) {
        Some(j) => tbs[j].day_of_week,
        None => 0,
    };
    assert(day == ruin_day(ts, ps0, anchor_idx as int));
    let mut rows: Vec<Placement> = Vec::new();
    let mut i = placements.len();
    proof {
        assert(ps0.take(ps0.len() as int) =~= ps0);
        assert(ps0.skip(ps0.len() as int) =~= Seq::<Placement>::empty());
    }
    while i > 0
        invariant
            i <= ps0.len(),
            ts == tbs@,
            cs == lesson.school_class_ids@,
            s0.wf(),
            state.wf(),
            s0.class_positions.dense() ==> state.class_positions.dense(),
            s0.teacher_positions.dense() ==> state.teacher_positions.dense(),
            placements@ == ps0.take(i as int) + kept_rows(ps0.skip(i as int), ts, lesson.id, day),
            rows@ == ruined_rows(ps0.skip(i as int), ts, lesson.id, day),
            forall|r: int| 0 <= r < rows@.len() ==> on_day(ts, lesson.id, day, #[trigger] rows@[r]),
            state.used_teacher@.to_set() == s0.used_teacher@.to_set().difference(rows_teacher_cells(rows@)),
            state.used_class@.to_set() == s0.used_class@.to_set().difference(classes_cells(cs, rows_blocks(rows@))),
            state.used_room@.to_set() == s0.used_room@.to_set().difference(rows_room_cells(rows@)),
            forall|key: (u128, u8)|
                #[trigger] state.class_positions.lookup(key) == if key.1 == day && cs.contains(SchoolClassId(key.0)) {
                    remove_rows_positions(s0.class_positions.lookup(key), rows@, ts)
                } else {
                    s0.class_positions.lookup(key)
                },
            forall|key: (u128, u8)|
                #[trigger] state.teacher_positions.lookup(key) == if key.1 == day {
                    remove_teacher_positions(s0.teacher_positions.lookup(key), key.0, rows@, ts)
                } else {
                    s0.teacher_positions.lookup(key)
                },
            forall|t: TeacherId|
                #[trigger] map_get(state.hours_by_teacher@, t) == hours_after_rows(
                    map_get(s0.hours_by_teacher@, t),
                    t,
                    rows@,
                ),
            forall|k: (SchoolClassId, u8, SubjectId)|
                #[trigger] map_get(state.locked_room@, k) == if k.1 == day && k.2 == lesson.subject_id {
                    lock_dec_n(map_get(s0.locked_room@, k), rows@.len() * occ(cs, k.0))
                } else {
                    map_get(s0.locked_room@, k)
                },
            forall|k: (SchoolClassId, u8, SubjectId)|
                #[trigger] map_get(state.subject_hours_by_class_day@, k) == if k.1 == day && k.2 == lesson.subject_id {
                    count_dec_n(map_get(s0.subject_hours_by_class_day@, k), rows@.len() * occ(cs, k.0))
                } else {
                    map_get(s0.subject_hours_by_class_day@, k)
                },
            state.lessons_by_class_day@ == s0.lessons_by_class_day@,
            state.class_subject_teacher@ == s0.class_subject_teacher@,
            state.search_score_slice == s0.search_score_slice,
            state.canonical_score == s0.canonical_score,
            state.soft_pinned_blocks@ == s0.soft_pinned_blocks@,
        decreases i,
    {
        i = i - 1;
        proof {
            assert(ps0.skip(i as int).drop_first() =~= ps0.skip(i + 1));
            assert(ps0.skip(i as int)[0] == ps0[i as int]);
            assert(placements@[i as int] == ps0[i as int]);
        }
        let p = placements[i];
        let sel = if p.lesson_id == lesson.id {
            match find_tb(tbs, p.time_block_id) {
                Some(j) => tbs[j].day_of_week == day,
                None => false,
            }
        } else {
            false
        };
        assert(sel == on_day(ts, lesson.id, day, p));
        if sel {
            let ghost before = *state;
            let ghost rows_before = rows@;
            placements.remove(i);
            rr_remove_row_bookkeeping(lesson, &p, tbs, state);
            rows.push(p);
            proof {
                assert(placements@ =~= ps0.take(i as int) + kept_rows(ps0.skip(i as int), ts, lesson.id, day));
                assert(rows@ =~= ruined_rows(ps0.skip(i as int), ts, lesson.id, day));
                assert(rows@.drop_last() =~= rows_before);
                assert(rows@.last() == p);
                let n = rows@.len();
                assert(state.used_teacher@.to_set() =~= s0.used_teacher@.to_set().difference(rows_teacher_cells(rows@))) by {
                    assert forall|x: (u128, u128)| #[trigger] rows_teacher_cells(rows@).contains(x) <==> rows_teacher_cells(
                        rows_before,
                    ).contains(x) || x == (p.teacher_id.0, p.time_block_id.0) by {
                        if rows_teacher_cells(rows@).contains(x) {
                            let r = choose|r: int|
                                0 <= r < rows@.len() && #[trigger] rows@[r].teacher_id.0 == x.0 && rows@[r].time_block_id.0
                                    == x.1;
                            if r < rows_before.len() {
                                assert(rows_before[r] == rows@[r]);
                            }
                        }
                        if rows_teacher_cells(rows_before).contains(x) {
                            let r = choose|r: int|
                                0 <= r < rows_before.len() && #[trigger] rows_before[r].teacher_id.0 == x.0
                                    && rows_before[r].time_block_id.0 == x.1;
                            assert(rows@[r] == rows_before[r]);
                        }
                        if x == (p.teacher_id.0, p.time_block_id.0) {
                            assert(rows@[rows_before.len() as int] == p);
                        }
                    }
                }
                assert(state.used_room@.to_set() =~= s0.used_room@.to_set().difference(rows_room_cells(rows@))) by {
                    assert forall|x: (u128, u128)| #[trigger] rows_room_cells(rows@).contains(x) <==> rows_room_cells(
                        rows_before,
                    ).contains(x) || x == (p.room_id.0, p.time_block_id.0) by {
                        if rows_room_cells(rows@).contains(x) {
                            let r = choose|r: int|
                                0 <= r < rows@.len() && #[trigger] rows@[r].room_id.0 == x.0 && rows@[r].time_block_id.0
                                    == x.1;
                            if r < rows_before.len() {
                                assert(rows_before[r] == rows@[r]);
                            }
                        }
                        if rows_room_cells(rows_before).contains(x) {
                            let r = choose|r: int|
                                0 <= r < rows_before.len() && #[trigger] rows_before[r].room_id.0 == x.0
                                    && rows_before[r].time_block_id.0 == x.1;
                            assert(rows@[r] == rows_before[r]);
                        }
                        if x == (p.room_id.0, p.time_block_id.0) {
                            assert(rows@[rows_before.len() as int] == p);
                        }
                    }
                }
                assert(state.used_class@.to_set() =~= s0.used_class@.to_set().difference(
                    classes_cells(cs, rows_blocks(rows@)),
                )) by {
                    assert forall|b: u128| #[trigger] rows_blocks(rows@).contains(b) <==> rows_blocks(rows_before).contains(
                        b,
                    ) || b == p.time_block_id.0 by {
                        if rows_blocks(rows@).contains(b) {
                            let r = choose|r: int| 0 <= r < rows@.len() && #[trigger] rows@[r].time_block_id.0 == b;
                            if r < rows_before.len() {
                                assert(rows_before[r] == rows@[r]);
                            }
                        }
                        if rows_blocks(rows_before).contains(b) {
                            let r = choose|r: int| 0 <= r < rows_before.len() && #[trigger] rows_before[r].time_block_id.0 == b;
                            assert(rows@[r] == rows_before[r]);
                        }
                        if b == p.time_block_id.0 {
                            assert(rows@[rows_before.len() as int] == p);
                        }
                    }
                }
                assert forall|r: int| 0 <= r < rows@.len() implies on_day(ts, lesson.id, day, #[trigger] rows@[r]) by {
                    if r < rows_before.len() {
                        assert(rows_before[r] == rows@[r]);
                    }
                }
                assert forall|key: (u128, u8)|
                    #[trigger] state.class_positions.lookup(key) == if key.1 == day && cs.contains(SchoolClassId(key.0)) {
                        remove_rows_positions(s0.class_positions.lookup(key), rows@, ts)
                    } else {
                        s0.class_positions.lookup(key)
                    } by {
                    assert(before.class_positions.lookup(key) == (if key.1 == day && cs.contains(SchoolClassId(key.0)) {
                        remove_rows_positions(s0.class_positions.lookup(key), rows_before, ts)
                    } else {
                        s0.class_positions.lookup(key)
                    }));
                }
                assert forall|key: (u128, u8)|
                    #[trigger] state.teacher_positions.lookup(key) == if key.1 == day {
                        remove_teacher_positions(s0.teacher_positions.lookup(key), key.0, rows@, ts)
                    } else {
                        s0.teacher_positions.lookup(key)
                    } by {
                    assert(before.teacher_positions.lookup(key) == (if key.1 == day {
                        remove_teacher_positions(s0.teacher_positions.lookup(key), key.0, rows_before, ts)
                    } else {
                        s0.teacher_positions.lookup(key)
                    }));
                }
                assert forall|t: TeacherId|
                    #[trigger] map_get(state.hours_by_teacher@, t) == hours_after_rows(
                        map_get(s0.hours_by_teacher@, t),
                        t,
                        rows@,
                    ) by {
                    assert(map_get(before.hours_by_teacher@, t) == hours_after_rows(
                        map_get(s0.hours_by_teacher@, t),
                        t,
                        rows_before,
                    ));
                }
                assert forall|k: (SchoolClassId, u8, SubjectId)|
                    #[trigger] map_get(state.locked_room@, k) == if k.1 == day && k.2 == lesson.subject_id {
                        lock_dec_n(map_get(s0.locked_room@, k), rows@.len() * occ(cs, k.0))
                    } else {
                        map_get(s0.locked_room@, k)
                    } by {
                    assert(map_get(before.locked_room@, k) == if k.1 == day && k.2 == lesson.subject_id {
                        lock_dec_n(map_get(s0.locked_room@, k), rows_before.len() * occ(cs, k.0))
                    } else {
                        map_get(s0.locked_room@, k)
                    });
                    lemma_mul_succ(rows_before.len(), occ(cs, k.0));
                    lemma_lock_dec_add(map_get(s0.locked_room@, k), rows_before.len() * occ(cs, k.0), occ(cs, k.0));
                }
                assert forall|k: (SchoolClassId, u8, SubjectId)|
                    #[trigger] map_get(state.subject_hours_by_class_day@, k) == if k.1 == day && k.2 == lesson.subject_id {
                        count_dec_n(map_get(s0.subject_hours_by_class_day@, k), rows@.len() * occ(cs, k.0))
                    } else {
                        map_get(s0.subject_hours_by_class_day@, k)
                    } by {
                    assert(map_get(before.subject_hours_by_class_day@, k) == if k.1 == day && k.2 == lesson.subject_id {
                        count_dec_n(map_get(s0.subject_hours_by_class_day@, k), rows_before.len() * occ(cs, k.0))
                    } else {
                        map_get(s0.subject_hours_by_class_day@, k)
                    });
                    lemma_mul_succ(rows_before.len(), occ(cs, k.0));
                    lemma_count_dec_add(
                        map_get(s0.subject_hours_by_class_day@, k),
                        rows_before.len() * occ(cs, k.0),
                        occ(cs, k.0),
                    );
                }
            }
        } else {
            proof {
                assert(placements@ =~= ps0.take(i as int) + kept_rows(ps0.skip(i as int), ts, lesson.id, day));
                assert(rows@ =~= ruined_rows(ps0.skip(i as int), ts, lesson.id, day));
            }
        }
    }
    proof {
        assert(ps0.skip(0) =~= ps0);
        assert(ps0.take(0) =~= Seq::<Placement>::empty());
        assert(placements@ =~= kept_rows(ps0, ts, lesson.id, day));
    }
    if rows.len() > 0 {
        dec_class_days(&mut state.lessons_by_class_day, &lesson.school_class_ids, day);
    }
    proof {
        if s0.class_positions.dense() {
            assert forall|key: (u128, u8)| #[trigger] state.class_positions.lookup(key).len() == 0 implies !state.class_positions.keys().contains(key) by {
                crate::partition::lemma_dense_lookup(state.class_positions, key);
            }
        }
        if s0.teacher_positions.dense() {
            assert forall|key: (u128, u8)| #[trigger] state.teacher_positions.lookup(key).len() == 0 implies !state.teacher_positions.keys().contains(key) by {
                crate::partition::lemma_dense_lookup(state.teacher_positions, key);
            }
        }
    }
    BlockSnapshot { rows }
}

} // verus!
