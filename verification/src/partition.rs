//! Partitions of occupied positions by (owner, day), where the owner is a
//! class or a teacher identifier.
//!
//! A cell `(owner, day, position)` records that the owner is busy at that
//! position of that day. The partition of a cell sequence maps every
//! (owner, day) key that occurs to the sorted, duplicate-free sequence of its
//! positions; keys are listed in order of first occurrence.

use vstd::prelude::*;

use crate::positions::{
    gap_spec, insert_sorted, lemma_sorted_insert, lemma_sorted_remove, lemma_sorted_span, remove_sorted,
    sorted_insert, sorted_remove, strictly_sorted,
};

verus! {

/// The (owner, day) keys of `cells`, without repetition, in order of first
/// occurrence.
pub open spec fn cell_keys(cells: Seq<(u128, u8, u8)>) -> Seq<(u128, u8)>
    decreases cells.len(),
{
    if cells.len() == 0 {
        seq![]
    } else {
        let k = cell_keys(cells.drop_last());
        let c = cells.last();
        if k.contains((c.0, c.1)) {
            k
        } else {
            k.push((c.0, c.1))
        }
    }
}

/// The sorted, duplicate-free positions of key `key` in `cells`.
pub open spec fn cell_positions(cells: Seq<(u128, u8, u8)>, key: (u128, u8)) -> Seq<u8>
    decreases cells.len(),
{
    if cells.len() == 0 {
        seq![]
    } else {
        let prev = cell_positions(cells.drop_last(), key);
        let c = cells.last();
        if (c.0, c.1) == key {
            sorted_insert(prev, c.2)
        } else {
            prev
        }
    }
}

/// Some cell carries key `key`.
pub open spec fn has_key(cells: Seq<(u128, u8, u8)>, key: (u128, u8)) -> bool {
    exists|i: int| 0 <= i < cells.len() && (#[trigger] cells[i]).0 == key.0 && cells[i].1 == key.1
}

pub proof fn lemma_cell_positions(cells: Seq<(u128, u8, u8)>, key: (u128, u8))
    ensures
        strictly_sorted(cell_positions(cells, key)),
        !has_key(cells, key) ==> cell_positions(cells, key).len() == 0,
        forall|p: u8| cell_positions(cells, key).contains(p) <==> cells.contains((key.0, key.1, p)),
    decreases cells.len(),
{
    if cells.len() > 0 {
        let t = cells.drop_last();
        lemma_cell_positions(t, key);
        let prev = cell_positions(t, key);
        let c = cells.last();
        assert(cells =~= t.push(c));
        if (c.0, c.1) == key {
            lemma_sorted_insert(prev, c.2);
        }
        if !has_key(cells, key) {
            assert(!has_key(t, key)) by {
                if has_key(t, key) {
                    let i = choose|i: int| 0 <= i < t.len() && (#[trigger] t[i]).0 == key.0 && t[i].1 == key.1;
                    assert(cells[i] == t[i]);
                }
            }
            assert(cells[cells.len() - 1] == c);
        }
        assert forall|p: u8| cell_positions(cells, key).contains(p) <==> cells.contains((key.0, key.1, p)) by {
            let x = (key.0, key.1, p);
            assert(cells.contains(x) <==> (t.contains(x) || c == x)) by {
                if cells.contains(x) {
                    let i = choose|i: int| 0 <= i < cells.len() && cells[i] == x;
                    if i < cells.len() - 1 {
                        assert(t[i] == cells[i]);
                    }
                }
                if t.contains(x) {
                    let i = choose|i: int| 0 <= i < t.len() && t[i] == x;
                    assert(cells[i] == t[i]);
                }
                if c == x {
                    assert(cells[cells.len() - 1] == x);
                }
            }
            assert(prev.contains(p) <==> t.contains(x));
            if (c.0, c.1) == key {
                assert(c == x <==> p == c.2);
                assert(cell_positions(cells, key) == sorted_insert(prev, c.2));
                assert(sorted_insert(prev, c.2).contains(p) <==> (prev.contains(p) || p == c.2));
            } else {
                assert(c != x);
                assert(cell_positions(cells, key) == prev);
            }
        }
    }
}

pub proof fn lemma_cell_keys(cells: Seq<(u128, u8, u8)>)
    ensures
        cell_keys(cells).no_duplicates(),
        forall|k: (u128, u8)| cell_keys(cells).contains(k) <==> has_key(cells, k),
    decreases cells.len(),
{
    if cells.len() > 0 {
        let t = cells.drop_last();
        lemma_cell_keys(t);
        let c = cells.last();
        let kt = cell_keys(t);
        let kc = cell_keys(cells);
        assert forall|k: (u128, u8)| has_key(cells, k) <==> (has_key(t, k) || k == (c.0, c.1)) by {
            if has_key(cells, k) {
                let i = choose|i: int| 0 <= i < cells.len() && (#[trigger] cells[i]).0 == k.0 && cells[i].1 == k.1;
                if i < cells.len() - 1 {
                    assert(t[i] == cells[i]);
                    assert(has_key(t, k));
                }
            }
            if has_key(t, k) {
                let i = choose|i: int| 0 <= i < t.len() && (#[trigger] t[i]).0 == k.0 && t[i].1 == k.1;
                assert(cells[i] == t[i]);
            }
            if k == (c.0, c.1) {
                assert(cells[cells.len() - 1] == c);
            }
        }
        if !kt.contains((c.0, c.1)) {
            assert(kc == kt.push((c.0, c.1)));
            assert forall|k: (u128, u8)| kc.contains(k) <==> (kt.contains(k) || k == (c.0, c.1)) by {
                if kc.contains(k) {
                    let j = choose|j: int| 0 <= j < kc.len() && kc[j] == k;
                    if j < kt.len() {
                        assert(kt[j] == k);
                    }
                }
                if kt.contains(k) {
                    let j = choose|j: int| 0 <= j < kt.len() && kt[j] == k;
                    assert(kc[j] == k);
                }
                if k == (c.0, c.1) {
                    assert(kc[kt.len() as int] == k);
                }
            }
            assert forall|a: int, b: int| 0 <= a < kc.len() && 0 <= b < kc.len() && a != b implies kc[a] != kc[b] by {
                if a < kt.len() && b < kt.len() {
                } else if a < kt.len() {
                    assert(kt.contains(kc[a]));
                } else {
                    assert(kt.contains(kc[b]));
                }
            }
        }
    }
}

/// The key of a partition entry.
pub open spec fn key_of(e: PartEntry) -> (u128, u8) {
    (e.owner, e.day)
}

/// Positions of `key` in a list of partition entries: those of the first
/// entry with that key, or none.
pub open spec fn entries_lookup(entries: Seq<PartEntry>, key: (u128, u8)) -> Seq<u8>
    decreases entries.len(),
{
    if entries.len() == 0 {
        seq![]
    } else if key_of(entries[0]) == key {
        entries[0].positions@
    } else {
        entries_lookup(entries.drop_first(), key)
    }
}

/// The positions one owner occupies on one day.
pub struct PartEntry {
    /// Class or teacher identifier.
    pub owner: u128,
    /// Day of week.
    pub day: u8,
    /// Occupied positions, sorted and duplicate-free.
    pub positions: Vec<u8>,
}

/// A partition of occupied positions by (owner, day).
pub struct Partition {
    /// One entry per key.
    pub entries: Vec<PartEntry>,
}

impl Partition {
    /// The entry keys, in order.
    pub open spec fn keys(&self) -> Seq<(u128, u8)> {
        self.entries@.map_values(|e: PartEntry| key_of(e))
    }

    /// Keys occur once; every position list is sorted and duplicate-free.
    pub open spec fn wf(&self) -> bool {
        &&& self.keys().no_duplicates()
        &&& forall|i: int| 0 <= i < self.entries@.len() ==> strictly_sorted(#[trigger] self.entries@[i].positions@)
    }

    /// No key is kept with an empty position list.
    pub open spec fn dense(&self) -> bool {
        forall|i: int| 0 <= i < self.entries@.len() ==> (#[trigger] self.entries@[i]).positions@.len() > 0
    }

    /// Positions recorded under `key`; empty when the key is absent.
    pub open spec fn lookup(&self, key: (u128, u8)) -> Seq<u8> {
        entries_lookup(self.entries@, key)
    }

    /// Number of positions recorded under `key`.
    pub open spec fn count(&self, key: (u128, u8)) -> int {
        self.lookup(key).len() as int
    }

    /// The empty partition.
    pub fn new() -> (p: Self)
        ensures
            p.wf(),
            p.entries@.len() == 0,
    {
        let p = Partition { entries: Vec::new() };
        proof {
            assert(p.keys() =~= Seq::<(u128, u8)>::empty());
        }
        p
    }

    /// Index of the first entry with key `(owner, day)`.
    pub fn find(&self, owner: u128, day: u8) -> (r: Option<usize>)
        ensures
            match r {
                None => forall|k: int| 0 <= k < self.entries@.len() ==> key_of(#[trigger] self.entries@[k]) != (owner, day),
                Some(j) => j < self.entries@.len() && key_of(self.entries@[j as int]) == (owner, day)
                    && forall|k: int| 0 <= k < j ==> key_of(#[trigger] self.entries@[k]) != (owner, day),
            },
    {
        let mut j: usize = 0;
        while j < self.entries.len()
            invariant
                j <= self.entries@.len(),
                forall|k: int| 0 <= k < j ==> key_of(#[trigger] self.entries@[k]) != (owner, day),
            decreases self.entries@.len() - j,
        {
            if self.entries[j].owner == owner && self.entries[j].day == day {
                return Some(j);
            }
            j = j + 1;
        }
        None
    }

    /// Positions recorded under `(owner, day)`, if the key is present.
    pub fn get(&self, owner: u128, day: u8) -> (r: Option<&Vec<u8>>)
        ensures
            match r {
                None => self.lookup((owner, day)).len() == 0,
                Some(v) => v@ == self.lookup((owner, day)),
            },
    {
        let found = self.find(owner, day);
        match found {
            None => {
                proof {
                    lemma_lookup_absent(self.entries@, (owner, day));
                }
                None
            },
            Some(j) => {
                proof {
                    lemma_lookup_at(self.entries@, (owner, day), j as int);
                }
                Some(&self.entries[j].positions)
            },
        }
    }

    /// Number of positions recorded under `(owner, day)`.
    pub fn count_of(&self, owner: u128, day: u8) -> (c: u32)
        requires
            self.wf(),
        ensures
            c == self.count((owner, day)),
    {
        proof {
            lemma_lookup_bounded(self, (owner, day));
        }
        match self.get(owner, day) {
            None => 0,
            Some(v) => v.len() as u32,
        }
    }

    /// Record `positions` under `(owner, day)`, replacing what was there.
    pub fn set_entry(&mut self, owner: u128, day: u8, positions: Vec<u8>)
        requires
            old(self).wf(),
            strictly_sorted(positions@),
        ensures
            final(self).wf(),
            final(self).lookup((owner, day)) == positions@,
            forall|k: (u128, u8)| k != (owner, day) ==> final(self).lookup(k) == old(self).lookup(k),
    {
        let found = self.find(owner, day);
        let ghost a = self.entries@;
        let e = PartEntry { owner, day, positions };
        match found {
            Some(j) => {
                self.entries.set(j, e);
                proof {
                    assert(self.keys() =~= old(self).keys());
                    lemma_lookup_frame(a, self.entries@, j as int);
                    lemma_lookup_at(self.entries@, (owner, day), j as int);
                }
            },
            None => {
                self.entries.push(e);
                proof {
                    assert(self.keys() =~= old(self).keys().push((owner, day)));
                    lemma_lookup_push(a, e);
                    assert(self.entries@ == a.push(e));
                }
            },
        }
    }

    /// Drop the key `(owner, day)` and its positions.
    pub fn remove_key(&mut self, owner: u128, day: u8)
        requires
            old(self).wf(),
        ensures
            final(self).wf(),
            final(self).lookup((owner, day)) == Seq::<u8>::empty(),
            forall|k: (u128, u8)| k != (owner, day) ==> final(self).lookup(k) == old(self).lookup(k),
    {
        let found = self.find(owner, day);
        let ghost a = self.entries@;
        match found {
            Some(j) => {
                proof {
                    assert forall|k: int| 0 <= k < a.len() && k != j implies key_of(#[trigger] a[k]) != key_of(
                        a[j as int],
                    ) by {
                        assert(old(self).keys()[k] == key_of(a[k]));
                        assert(old(self).keys()[j as int] == key_of(a[j as int]));
                    }
                    lemma_lookup_remove(a, j as int);
                }
                self.entries.remove(j);
                proof {
                    assert(self.keys() =~= old(self).keys().remove(j as int));
                    assert(self.keys().no_duplicates()) by {
                        let ks = old(self).keys();
                        assert forall|x: int, y: int|
                            0 <= x < self.keys().len() && 0 <= y < self.keys().len() && x != y implies self.keys()[x]
                            != self.keys()[y] by {
                            let xx = if x < j { x } else { x + 1 };
                            let yy = if y < j { y } else { y + 1 };
                            assert(self.keys()[x] == ks[xx]);
                            assert(self.keys()[y] == ks[yy]);
                        }
                    }
                    assert forall|i: int| 0 <= i < self.entries@.len() implies strictly_sorted(
                        #[trigger] self.entries@[i].positions@,
                    ) by {
                        if i < j {
                            assert(self.entries@[i] == a[i]);
                        } else {
                            assert(self.entries@[i] == a[i + 1]);
                        }
                    }
                }
            },
            None => {
                proof {
                    lemma_lookup_absent(a, (owner, day));
                }
            },
        }
    }

    /// Remove `pos` from the positions of `(owner, day)`, dropping the key
    /// when no position is left.
    pub fn remove_position(&mut self, owner: u128, day: u8, pos: u8)
        requires
            old(self).wf(),
        ensures
            final(self).wf(),
            old(self).dense() ==> final(self).dense(),
            final(self).lookup((owner, day)) == sorted_remove(old(self).lookup((owner, day)), pos),
            forall|k: (u128, u8)| k != (owner, day) ==> final(self).lookup(k) == old(self).lookup(k),
    {
        let found = self.find(owner, day);
        let ghost a = self.entries@;
        match found {
            Some(j) => {
                proof {
                    lemma_lookup_at(a, (owner, day), j as int);
                }
                let mut v = self.entries[j].positions.clone();
                proof {
                    assert(v@ =~= a[j as int].positions@);
                }
                remove_sorted(&mut v, pos);
                if v.len() == 0 {
                    self.entries.remove(j);
                    proof {
                        assert forall|k: int| 0 <= k < a.len() && k != j implies key_of(#[trigger] a[k]) != key_of(
                            a[j as int],
                        ) by {
                            assert(old(self).keys()[k] == key_of(a[k]));
                            assert(old(self).keys()[j as int] == key_of(a[j as int]));
                        }
                        lemma_lookup_remove(a, j as int);
                        assert(self.keys() =~= old(self).keys().remove(j as int));
                        assert(self.keys().no_duplicates()) by {
                            let ks = old(self).keys();
                            assert forall|x: int, y: int|
                                0 <= x < self.keys().len() && 0 <= y < self.keys().len() && x != y implies self.keys()[x]
                                != self.keys()[y] by {
                                let xx = if x < j { x } else { x + 1 };
                                let yy = if y < j { y } else { y + 1 };
                                assert(self.keys()[x] == ks[xx]);
                                assert(self.keys()[y] == ks[yy]);
                            }
                        }
                        assert forall|i: int| 0 <= i < self.entries@.len() implies strictly_sorted(
                            #[trigger] self.entries@[i].positions@,
                        ) by {
                            if i < j {
                                assert(self.entries@[i] == a[i]);
                            } else {
                                assert(self.entries@[i] == a[i + 1]);
                            }
                        }
                        assert(v@ =~= Seq::<u8>::empty());
                        assert forall|i: int| 0 <= i < self.entries@.len() && old(self).dense() implies (
                        #[trigger] self.entries@[i]).positions@.len() > 0 by {
                            if i < j {
                                assert(self.entries@[i] == a[i]);
                            } else {
                                assert(self.entries@[i] == a[i + 1]);
                            }
                        }
                    }
                } else {
                    let e = PartEntry { owner, day, positions: v };
                    self.entries.set(j, e);
                    proof {
                        assert forall|i: int| 0 <= i < self.entries@.len() && old(self).dense() implies (
                        #[trigger] self.entries@[i]).positions@.len() > 0 by {
                            if i != j {
                                assert(self.entries@[i] == a[i]);
                            }
                        }
                        assert(self.keys() =~= old(self).keys());
                        lemma_lookup_frame(a, self.entries@, j as int);
                        lemma_lookup_at(self.entries@, (owner, day), j as int);
                    }
                }
            },
            None => {
                proof {
                    lemma_lookup_absent(a, (owner, day));
                }
            },
        }
    }

    /// Add `pos` to the positions of `(owner, day)`, creating the key when
    /// absent.
    pub fn insert_position(&mut self, owner: u128, day: u8, pos: u8)
        requires
            old(self).wf(),
        ensures
            final(self).wf(),
            final(self).lookup((owner, day)) == sorted_insert(old(self).lookup((owner, day)), pos),
            forall|k: (u128, u8)| k != (owner, day) ==> final(self).lookup(k) == old(self).lookup(k),
            final(self).keys() == (if old(self).keys().contains((owner, day)) {
                old(self).keys()
            } else {
                old(self).keys().push((owner, day))
            }),
    {
        let found = self.find(owner, day);
        let ghost a = self.entries@;
        match found {
            Some(j) => {
                proof {
                    lemma_lookup_at(a, (owner, day), j as int);
                    assert(self.keys()[j as int] == (owner, day));
                }
                let mut v = self.entries[j].positions.clone();
                proof {
                    assert(v@ =~= a[j as int].positions@);
                }
                insert_sorted(&mut v, pos);
                let e = PartEntry { owner, day, positions: v };
                self.entries.set(j, e);
                proof {
                    assert(self.keys() =~= old(self).keys());
                    lemma_lookup_frame(a, self.entries@, j as int);
                    lemma_lookup_at(self.entries@, (owner, day), j as int);
                }
            },
            None => {
                proof {
                    lemma_lookup_absent(a, (owner, day));
                    assert(!old(self).keys().contains((owner, day))) by {
                        if old(self).keys().contains((owner, day)) {
                            let k = choose|k: int| 0 <= k < old(self).keys().len() && old(self).keys()[k] == (owner, day);
                            assert(key_of(a[k]) == (owner, day));
                        }
                    }
                }
                let mut v: Vec<u8> = Vec::new();
                proof {
                    assert(strictly_sorted(v@));
                    assert(v@ =~= Seq::<u8>::empty());
                }
                insert_sorted(&mut v, pos);
                let e = PartEntry { owner, day, positions: v };
                self.entries.push(e);
                proof {
                    assert(self.keys() =~= old(self).keys().push((owner, day)));
                    lemma_lookup_push(a, e);
                    assert(self.entries@ == a.push(e));
                }
            },
        }
    }
}

pub proof fn lemma_lookup_at(entries: Seq<PartEntry>, key: (u128, u8), j: int)
    requires
        0 <= j < entries.len(),
        key_of(entries[j]) == key,
        forall|k: int| 0 <= k < j ==> key_of(#[trigger] entries[k]) != key,
    ensures
        entries_lookup(entries, key) == entries[j].positions@,
    decreases j,
{
    if j > 0 {
        let t = entries.drop_first();
        assert(key_of(entries[0]) != key);
        assert forall|k: int| 0 <= k < j - 1 implies key_of(#[trigger] t[k]) != key by {
            assert(t[k] == entries[k + 1]);
        }
        lemma_lookup_at(t, key, j - 1);
    }
}

pub proof fn lemma_lookup_absent(entries: Seq<PartEntry>, key: (u128, u8))
    requires
        forall|k: int| 0 <= k < entries.len() ==> key_of(#[trigger] entries[k]) != key,
    ensures
        entries_lookup(entries, key) == Seq::<u8>::empty(),
    decreases entries.len(),
{
    if entries.len() > 0 {
        let t = entries.drop_first();
        assert(key_of(entries[0]) != key);
        assert forall|k: int| 0 <= k < t.len() implies key_of(#[trigger] t[k]) != key by {
            assert(t[k] == entries[k + 1]);
        }
        lemma_lookup_absent(t, key);
    }
}

pub proof fn lemma_lookup_frame(a: Seq<PartEntry>, b: Seq<PartEntry>, j: int)
    requires
        a.len() == b.len(),
        0 <= j < a.len(),
        forall|k: int| 0 <= k < a.len() && k != j ==> a[k] == b[k],
        key_of(a[j]) == key_of(b[j]),
    ensures
        forall|key: (u128, u8)| key != key_of(a[j]) ==> entries_lookup(b, key) == entries_lookup(a, key),
    decreases a.len(),
{
    if j > 0 {
        lemma_lookup_frame(a.drop_first(), b.drop_first(), j - 1);
    }
    assert forall|key: (u128, u8)| key != key_of(a[j]) implies entries_lookup(b, key) == entries_lookup(a, key) by {
        if j == 0 {
            assert(a.drop_first() =~= b.drop_first());
            assert(key_of(b[0]) != key);
            assert(entries_lookup(b, key) == entries_lookup(b.drop_first(), key));
            assert(entries_lookup(a, key) == entries_lookup(a.drop_first(), key));
        } else {
            assert(a[0] == b[0]);
            assert(a.drop_first()[j - 1] == a[j]);
            if key_of(a[0]) != key {
                assert(entries_lookup(b, key) == entries_lookup(b.drop_first(), key));
                assert(entries_lookup(a, key) == entries_lookup(a.drop_first(), key));
            }
        }
    }
}

pub proof fn lemma_lookup_push(a: Seq<PartEntry>, e: PartEntry)
    ensures
        forall|key: (u128, u8)| key != key_of(e) ==> entries_lookup(a.push(e), key) == entries_lookup(a, key),
        (forall|k: int| 0 <= k < a.len() ==> key_of(#[trigger] a[k]) != key_of(e)) ==> entries_lookup(a.push(e), key_of(e)) == e.positions@,
    decreases a.len(),
{
    let b = a.push(e);
    if a.len() == 0 {
        assert(b.drop_first() =~= Seq::<PartEntry>::empty());
        assert forall|key: (u128, u8)| key != key_of(e) implies entries_lookup(a.push(e), key) == entries_lookup(a, key) by {
            assert(b[0] == e);
            assert(entries_lookup(b, key) == entries_lookup(b.drop_first(), key));
        }
    } else {
        lemma_lookup_push(a.drop_first(), e);
        assert(b.drop_first() =~= a.drop_first().push(e));
        assert(b[0] == a[0]);
        assert forall|key: (u128, u8)| key != key_of(e) implies entries_lookup(a.push(e), key) == entries_lookup(a, key) by {
            if key_of(a[0]) != key {
                assert(entries_lookup(b, key) == entries_lookup(b.drop_first(), key));
                assert(entries_lookup(a, key) == entries_lookup(a.drop_first(), key));
            }
        }
        if forall|k: int| 0 <= k < a.len() ==> key_of(#[trigger] a[k]) != key_of(e) {
            assert forall|k: int| 0 <= k < a.drop_first().len() implies key_of(#[trigger] a.drop_first()[k]) != key_of(e) by {
                assert(a.drop_first()[k] == a[k + 1]);
            }
            assert(key_of(a[0]) != key_of(e));
        }
    }
}

pub proof fn lemma_lookup_bounded(p: &Partition, key: (u128, u8))
    requires
        p.wf(),
    ensures
        strictly_sorted(p.lookup(key)),
        p.lookup(key).len() <= 256,
{
    lemma_lookup_in_entries(p.entries@, key);
    if p.lookup(key).len() > 0 {
        let j = choose|j: int| 0 <= j < p.entries@.len() && p.entries@[j].positions@ == p.lookup(key);
        assert(strictly_sorted(p.entries@[j].positions@));
        crate::positions::lemma_sorted_span(p.lookup(key));
    }
}

pub proof fn lemma_lookup_in_entries(entries: Seq<PartEntry>, key: (u128, u8))
    ensures
        entries_lookup(entries, key).len() == 0 || exists|j: int|
            0 <= j < entries.len() && entries[j].positions@ == entries_lookup(entries, key),
    decreases entries.len(),
{
    if entries.len() > 0 {
        let t = entries.drop_first();
        lemma_lookup_in_entries(t, key);
        if key_of(entries[0]) != key && entries_lookup(t, key).len() > 0 {
            let j = choose|j: int| 0 <= j < t.len() && t[j].positions@ == entries_lookup(t, key);
            assert(entries[j + 1] == t[j]);
        }
    }
}

/// Sum of the gap-hours of every entry.
pub open spec fn entries_gap_sum(entries: Seq<PartEntry>) -> int
    decreases entries.len(),
{
    if entries.len() == 0 {
        0
    } else {
        entries_gap_sum(entries.drop_last()) + gap_spec(entries.last().positions@)
    }
}

/// Sum of the gap-hours of the keys `keys` in the partition of `cells`.
pub open spec fn cells_gap_sum(cells: Seq<(u128, u8, u8)>, keys: Seq<(u128, u8)>) -> int
    decreases keys.len(),
{
    if keys.len() == 0 {
        0
    } else {
        cells_gap_sum(cells, keys.drop_last()) + gap_spec(cell_positions(cells, keys.last()))
    }
}

/// Total gap-hours over every (owner, day) key of `cells`.
pub open spec fn total_gaps(cells: Seq<(u128, u8, u8)>) -> int {
    cells_gap_sum(cells, cell_keys(cells))
}

pub proof fn lemma_entries_gap_sum_nonneg(entries: Seq<PartEntry>)
    requires
        forall|i: int| 0 <= i < entries.len() ==> strictly_sorted(#[trigger] entries[i].positions@),
    ensures
        entries_gap_sum(entries) >= 0,
        forall|k: int| 0 <= k <= entries.len() ==> entries_gap_sum(#[trigger] entries.take(k)) <= entries_gap_sum(entries),
    decreases entries.len(),
{
    if entries.len() > 0 {
        let t = entries.drop_last();
        assert forall|i: int| 0 <= i < t.len() implies strictly_sorted(#[trigger] t[i].positions@) by {
            assert(t[i] == entries[i]);
        }
        lemma_entries_gap_sum_nonneg(t);
        let last = entries.last().positions@;
        assert(strictly_sorted(entries[entries.len() - 1].positions@));
        if last.len() >= 1 {
            lemma_sorted_span(last);
        }
        assert forall|k: int| 0 <= k <= entries.len() implies entries_gap_sum(#[trigger] entries.take(k)) <= entries_gap_sum(entries) by {
            if k < entries.len() {
                assert(entries.take(k) =~= t.take(k));
            } else {
                assert(entries.take(k) =~= entries);
            }
        }
    }
}

/// Sum of gap-hours over every entry of `p`.
pub fn partition_gap_total(p: &Partition) -> (g: u32)
    requires
        p.wf(),
        entries_gap_sum(p.entries@) <= u32::MAX,
    ensures
        g == entries_gap_sum(p.entries@),
{
    proof {
        lemma_entries_gap_sum_nonneg(p.entries@);
    }
    let mut total: u32 = 0;
    let mut j: usize = 0;
    while j < p.entries.len()
        invariant
            j <= p.entries@.len(),
            p.wf(),
            total == entries_gap_sum(p.entries@.take(j as int)),
            forall|k: int| 0 <= k <= p.entries@.len() ==> entries_gap_sum(#[trigger] p.entries@.take(k)) <= entries_gap_sum(p.entries@),
            entries_gap_sum(p.entries@) <= u32::MAX,
        decreases p.entries@.len() - j,
    {
        let v = &p.entries[j].positions;
        proof {
            assert(strictly_sorted(p.entries@[j as int].positions@));
            if v@.len() >= 1 {
                lemma_sorted_span(v@);
            }
            assert(p.entries@.take(j + 1).drop_last() =~= p.entries@.take(j as int));
            assert(p.entries@.take(j + 1).last() == p.entries@[j as int]);
        }
        let g = gap_count_of(v.as_slice());
        total = total + g;
        j = j + 1;
    }
    proof {
        assert(p.entries@.take(p.entries@.len() as int) =~= p.entries@);
    }
    total
}

/// Whether the gap sum of a partition fits in a `u32`.
pub fn partition_gap_total_fits(p: &Partition) -> (b: bool)
    requires
        p.wf(),
    ensures
        b == (entries_gap_sum(p.entries@) <= u32::MAX),
{
    proof {
        lemma_entries_gap_sum_nonneg(p.entries@);
    }
    let mut total: u64 = 0;
    let mut j: usize = 0;
    while j < p.entries.len()
        invariant
            j <= p.entries@.len(),
            p.wf(),
            total == entries_gap_sum(p.entries@.take(j as int)),
            total <= u32::MAX,
            forall|k: int| 0 <= k <= p.entries@.len() ==> entries_gap_sum(#[trigger] p.entries@.take(k)) <= entries_gap_sum(p.entries@),
        decreases p.entries@.len() - j,
    {
        let v = &p.entries[j].positions;
        proof {
            assert(strictly_sorted(p.entries@[j as int].positions@));
            assert(p.entries@.take(j + 1).drop_last() =~= p.entries@.take(j as int));
            assert(p.entries@.take(j + 1).last() == p.entries@[j as int]);
        }
        let g = gap_count_of(v.as_slice());
        total = total + g as u64;
        if total > 0xffff_ffff {
            return false;
        }
        j = j + 1;
    }
    proof {
        assert(p.entries@.take(p.entries@.len() as int) =~= p.entries@);
    }
    true
}

/// Gap-hours of one sorted, duplicate-free position list.
fn gap_count_of(v: &[u8]) -> (g: u32)
    requires
        strictly_sorted(v@),
    ensures
        g == gap_spec(v@),
{
    proof {
        if v@.len() >= 1 {
            lemma_sorted_span(v@);
        }
    }
    crate::score::gap_count(v)
}

/// The gap sum of a partition built from `cells` is the total gap-hours of
/// `cells`.
pub proof fn lemma_built_gap_sum(p: &Partition, cells: Seq<(u128, u8, u8)>)
    requires
        p.wf(),
        p.keys() == cell_keys(cells),
        forall|k: (u128, u8)| #[trigger] p.lookup(k) == cell_positions(cells, k),
    ensures
        entries_gap_sum(p.entries@) == total_gaps(cells),
{
    lemma_prefix_gap_sum(p, cells, p.entries@.len() as int);
    assert(p.entries@.take(p.entries@.len() as int) =~= p.entries@);
    assert(p.keys().take(p.entries@.len() as int) =~= p.keys());
}

proof fn lemma_prefix_gap_sum(p: &Partition, cells: Seq<(u128, u8, u8)>, j: int)
    requires
        p.wf(),
        0 <= j <= p.entries@.len(),
        forall|k: (u128, u8)| #[trigger] p.lookup(k) == cell_positions(cells, k),
    ensures
        entries_gap_sum(p.entries@.take(j)) == cells_gap_sum(cells, p.keys().take(j)),
    decreases j,
{
    if j > 0 {
        lemma_prefix_gap_sum(p, cells, j - 1);
        assert(p.entries@.take(j).drop_last() =~= p.entries@.take(j - 1));
        assert(p.keys().take(j).drop_last() =~= p.keys().take(j - 1));
        let key = p.keys()[j - 1];
        assert(key == key_of(p.entries@[j - 1]));
        assert forall|k: int| 0 <= k < j - 1 implies key_of(#[trigger] p.entries@[k]) != key by {
            assert(p.keys()[k] == key_of(p.entries@[k]));
        }
        lemma_lookup_at(p.entries@, key, j - 1);
        assert(p.lookup(key) == cell_positions(cells, key));
    }
}

/// Partition of `cells`.
pub fn build_partition(cells: &Vec<(u128, u8, u8)>) -> (p: Partition)
    ensures
        p.wf(),
        p.keys() == cell_keys(cells@),
        forall|k: (u128, u8)| #[trigger] p.lookup(k) == cell_positions(cells@, k),
{
    let mut p = Partition::new();
    let mut i: usize = 0;
    while i < cells.len()
        invariant
            i <= cells@.len(),
            p.wf(),
            p.keys() == cell_keys(cells@.take(i as int)),
            forall|k: (u128, u8)| #[trigger] p.lookup(k) == cell_positions(cells@.take(i as int), k),
        decreases cells@.len() - i,
    {
        let c = cells[i];
        proof {
            assert(cells@.take(i + 1).drop_last() =~= cells@.take(i as int));
            assert(cells@.take(i + 1).last() == c);
        }
        p.insert_position(c.0, c.1, c.2);
        i = i + 1;
    }
    proof {
        assert(cells@.take(cells@.len() as int) =~= cells@);
    }
    p
}


/// Dropping the entry at `j` empties its key and keeps the other keys'
/// positions, provided no other entry carries its key.
pub proof fn lemma_lookup_remove(a: Seq<PartEntry>, j: int)
    requires
        0 <= j < a.len(),
        forall|k: int| 0 <= k < a.len() && k != j ==> key_of(#[trigger] a[k]) != key_of(a[j]),
    ensures
        entries_lookup(a.remove(j), key_of(a[j])) == Seq::<u8>::empty(),
        forall|key: (u128, u8)| key != key_of(a[j]) ==> #[trigger] entries_lookup(a.remove(j), key) == entries_lookup(a, key),
    decreases a.len(),
{
    let b = a.remove(j);
    assert forall|k: int| 0 <= k < b.len() implies key_of(#[trigger] b[k]) != key_of(a[j]) by {
        if k < j {
            assert(b[k] == a[k]);
        } else {
            assert(b[k] == a[k + 1]);
        }
    }
    lemma_lookup_absent(b, key_of(a[j]));
    assert forall|key: (u128, u8)| key != key_of(a[j]) implies #[trigger] entries_lookup(b, key) == entries_lookup(a, key) by {
        lemma_lookup_remove_other(a, j, key);
    }
}

proof fn lemma_lookup_remove_other(a: Seq<PartEntry>, j: int, key: (u128, u8))
    requires
        0 <= j < a.len(),
        key != key_of(a[j]),
    ensures
        entries_lookup(a.remove(j), key) == entries_lookup(a, key),
    decreases a.len(),
{
    let b = a.remove(j);
    if j == 0 {
        assert(b =~= a.drop_first());
    } else {
        assert(b[0] == a[0]);
        if key_of(a[0]) != key {
            assert(b.drop_first() =~= a.drop_first().remove(j - 1));
            lemma_lookup_remove_other(a.drop_first(), j - 1, key);
        }
    }
}

/// In a dense partition a key is present exactly when it holds a position.
pub proof fn lemma_dense_lookup(p: Partition, key: (u128, u8))
    requires
        p.wf(),
        p.dense(),
    ensures
        p.lookup(key).len() == 0 <==> !p.keys().contains(key),
{
    if p.keys().contains(key) {
        let j = choose|j: int| 0 <= j < p.keys().len() && p.keys()[j] == key;
        assert(key_of(p.entries@[j]) == key);
        assert forall|k: int| 0 <= k < j implies key_of(#[trigger] p.entries@[k]) != key by {
            assert(p.keys()[k] == key_of(p.entries@[k]));
        }
        lemma_lookup_at(p.entries@, key, j);
    } else {
        assert forall|k: int| 0 <= k < p.entries@.len() implies key_of(#[trigger] p.entries@[k]) != key by {
            assert(p.keys()[k] == key_of(p.entries@[k]));
        }
        lemma_lookup_absent(p.entries@, key);
    }
}

} // verus!
