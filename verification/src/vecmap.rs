//! Small association lists `Vec<(K, V)>` with unique keys, used for the
//! search's counters: lookup, update in place, removal and insertion, each
//! specified over `map_get`, the value of a key.

use vstd::prelude::*;

use crate::types::{RoomId, SchoolClassId, SubjectId, TeacherId};

verus! {

/// A key whose executable equality is spec equality.
pub trait MapKey: Sized {
    /// `self == other`.
    fn key_eq(&self, other: &Self) -> (b: bool)
        ensures
            b == (*self == *other),
    ;
}

impl MapKey for TeacherId {
    fn key_eq(&self, other: &Self) -> (b: bool) {
        self.0 == other.0
    }
}

impl MapKey for SchoolClassId {
    fn key_eq(&self, other: &Self) -> (b: bool) {
        self.0 == other.0
    }
}

impl MapKey for (SchoolClassId, u8) {
    fn key_eq(&self, other: &Self) -> (b: bool) {
        self.0.0 == other.0.0 && self.1 == other.1
    }
}

impl MapKey for (SchoolClassId, u8, SubjectId) {
    fn key_eq(&self, other: &Self) -> (b: bool) {
        self.0.0 == other.0.0 && self.1 == other.1 && self.2.0 == other.2.0
    }
}

/// The value of the first entry with key `k`, if any.
pub open spec fn map_get<K, V>(s: Seq<(K, V)>, k: K) -> Option<V>
    decreases s.len(),
{
    if s.len() == 0 {
        None
    } else if s[0].0 == k {
        Some(s[0].1)
    } else {
        map_get(s.drop_first(), k)
    }
}

/// No key occurs twice.
pub open spec fn keys_unique<K, V>(s: Seq<(K, V)>) -> bool {
    forall|i: int, j: int| 0 <= i < j < s.len() ==> (#[trigger] s[i]).0 != (#[trigger] s[j]).0
}

pub proof fn lemma_map_get_at<K, V>(s: Seq<(K, V)>, i: int)
    requires
        keys_unique(s),
        0 <= i < s.len(),
    ensures
        map_get(s, s[i].0) == Some(s[i].1),
    decreases s.len(),
{
    if i > 0 {
        let t = s.drop_first();
        assert(s[0].0 != s[i].0);
        assert(t[i - 1] == s[i]);
        assert forall|a: int, b: int| 0 <= a < b < t.len() implies (#[trigger] t[a]).0 != (#[trigger] t[b]).0 by {
            assert(t[a] == s[a + 1]);
            assert(t[b] == s[b + 1]);
        }
        lemma_map_get_at(t, i - 1);
    }
}

pub proof fn lemma_map_get_absent<K, V>(s: Seq<(K, V)>, k: K)
    requires
        forall|i: int| 0 <= i < s.len() ==> (#[trigger] s[i]).0 != k,
    ensures
        map_get(s, k) is None,
    decreases s.len(),
{
    if s.len() > 0 {
        let t = s.drop_first();
        assert forall|i: int| 0 <= i < t.len() implies (#[trigger] t[i]).0 != k by {
            assert(t[i] == s[i + 1]);
        }
        lemma_map_get_absent(t, k);
    }
}

/// With unique keys, the value of `k` is that of the entry holding it.
pub proof fn lemma_map_get_unique<K, V>(s: Seq<(K, V)>, k: K)
    requires
        keys_unique(s),
    ensures
        map_get(s, k) is Some <==> exists|i: int| 0 <= i < s.len() && (#[trigger] s[i]).0 == k,
        forall|i: int| 0 <= i < s.len() && (#[trigger] s[i]).0 == k ==> map_get(s, k) == Some(s[i].1),
{
    if exists|i: int| 0 <= i < s.len() && (#[trigger] s[i]).0 == k {
        let i = choose|i: int| 0 <= i < s.len() && (#[trigger] s[i]).0 == k;
        lemma_map_get_at(s, i);
    } else {
        lemma_map_get_absent(s, k);
    }
    assert forall|i: int| 0 <= i < s.len() && (#[trigger] s[i]).0 == k implies map_get(s, k) == Some(s[i].1) by {
        lemma_map_get_at(s, i);
    }
}

/// Replacing the value at an entry changes only that key's value.
pub proof fn lemma_map_update<K, V>(s: Seq<(K, V)>, j: int, v: V)
    requires
        keys_unique(s),
        0 <= j < s.len(),
    ensures
        keys_unique(s.update(j, (s[j].0, v))),
        map_get(s.update(j, (s[j].0, v)), s[j].0) == Some(v),
        forall|k: K| k != s[j].0 ==> #[trigger] map_get(s.update(j, (s[j].0, v)), k) == map_get(s, k),
{
    let t = s.update(j, (s[j].0, v));
    assert forall|a: int, b: int| 0 <= a < b < t.len() implies (#[trigger] t[a]).0 != (#[trigger] t[b]).0 by {
        assert(t[a].0 == s[a].0);
        assert(t[b].0 == s[b].0);
    }
    lemma_map_get_at(t, j);
    assert forall|k: K| k != s[j].0 implies #[trigger] map_get(t, k) == map_get(s, k) by {
        lemma_map_get_unique(s, k);
        lemma_map_get_unique(t, k);
        if exists|i: int| 0 <= i < s.len() && (#[trigger] s[i]).0 == k {
            let i = choose|i: int| 0 <= i < s.len() && (#[trigger] s[i]).0 == k;
            assert(t[i] == s[i]);
        }
        if exists|i: int| 0 <= i < t.len() && (#[trigger] t[i]).0 == k {
            let i = choose|i: int| 0 <= i < t.len() && (#[trigger] t[i]).0 == k;
            assert(t[i] == s[i]);
        }
    }
}

/// Dropping an entry removes its key and keeps every other.
pub proof fn lemma_map_remove<K, V>(s: Seq<(K, V)>, j: int)
    requires
        keys_unique(s),
        0 <= j < s.len(),
    ensures
        keys_unique(s.remove(j)),
        map_get(s.remove(j), s[j].0) is None,
        forall|k: K| k != s[j].0 ==> #[trigger] map_get(s.remove(j), k) == map_get(s, k),
{
    let t = s.remove(j);
    assert forall|a: int, b: int| 0 <= a < b < t.len() implies (#[trigger] t[a]).0 != (#[trigger] t[b]).0 by {
        if a < j {
            assert(t[a] == s[a]);
        } else {
            assert(t[a] == s[a + 1]);
        }
        if b < j {
            assert(t[b] == s[b]);
        } else {
            assert(t[b] == s[b + 1]);
        }
    }
    assert forall|i: int| 0 <= i < t.len() implies (#[trigger] t[i]).0 != s[j].0 by {
        if i < j {
            assert(t[i] == s[i]);
        } else {
            assert(t[i] == s[i + 1]);
        }
    }
    lemma_map_get_absent(t, s[j].0);
    assert forall|k: K| k != s[j].0 implies #[trigger] map_get(t, k) == map_get(s, k) by {
        lemma_map_get_unique(s, k);
        lemma_map_get_unique(t, k);
        if exists|i: int| 0 <= i < s.len() && (#[trigger] s[i]).0 == k {
            let i = choose|i: int| 0 <= i < s.len() && (#[trigger] s[i]).0 == k;
            if i < j {
                assert(t[i] == s[i]);
            } else {
                assert(i != j);
                assert(t[i - 1] == s[i]);
            }
        }
        if exists|i: int| 0 <= i < t.len() && (#[trigger] t[i]).0 == k {
            let i = choose|i: int| 0 <= i < t.len() && (#[trigger] t[i]).0 == k;
            if i < j {
                assert(t[i] == s[i]);
            } else {
                assert(t[i] == s[i + 1]);
            }
        }
    }
}

/// Appending an absent key adds it and keeps every other.
pub proof fn lemma_map_push<K, V>(s: Seq<(K, V)>, k: K, v: V)
    requires
        keys_unique(s),
        map_get(s, k) is None,
    ensures
        keys_unique(s.push((k, v))),
        map_get(s.push((k, v)), k) == Some(v),
        forall|k2: K| k2 != k ==> #[trigger] map_get(s.push((k, v)), k2) == map_get(s, k2),
{
    let t = s.push((k, v));
    lemma_map_get_unique(s, k);
    assert forall|a: int, b: int| 0 <= a < b < t.len() implies (#[trigger] t[a]).0 != (#[trigger] t[b]).0 by {
        assert(t[a] == s[a]);
        if b < s.len() {
            assert(t[b] == s[b]);
        } else {
            assert(t[b] == (k, v));
            if s[a].0 == k {
                assert(exists|i: int| 0 <= i < s.len() && (#[trigger] s[i]).0 == k);
            }
        }
    }
    lemma_map_get_at(t, s.len() as int);
    assert forall|k2: K| k2 != k implies #[trigger] map_get(t, k2) == map_get(s, k2) by {
        lemma_map_get_unique(s, k2);
        lemma_map_get_unique(t, k2);
        if exists|i: int| 0 <= i < s.len() && (#[trigger] s[i]).0 == k2 {
            let i = choose|i: int| 0 <= i < s.len() && (#[trigger] s[i]).0 == k2;
            assert(t[i] == s[i]);
        }
        if exists|i: int| 0 <= i < t.len() && (#[trigger] t[i]).0 == k2 {
            let i = choose|i: int| 0 <= i < t.len() && (#[trigger] t[i]).0 == k2;
            assert(i < s.len());
            assert(t[i] == s[i]);
        }
    }
}

/// Index of the entry with key `k`.
pub fn map_find<K: MapKey, V>(m: &Vec<(K, V)>, k: &K) -> (r: Option<usize>)
    requires
        keys_unique(m@),
    ensures
        match r {
            None => map_get(m@, *k) is None,
            Some(j) => j < m@.len() && m@[j as int].0 == *k && map_get(m@, *k) == Some(m@[j as int].1),
        },
{
    let mut i: usize = 0;
    while i < m.len()
        invariant
            i <= m@.len(),
            keys_unique(m@),
            forall|j: int| 0 <= j < i ==> (#[trigger] m@[j]).0 != *k,
        decreases m@.len() - i,
    {
        if m[i].0.key_eq(k) {
            proof {
                lemma_map_get_at(m@, i as int);
            }
            return Some(i);
        }
        i = i + 1;
    }
    proof {
        lemma_map_get_absent(m@, *k);
    }
    None
}

/// Add one to the counter of `k`, starting from zero when absent.
pub fn inc_u8<K: MapKey>(m: &mut Vec<(K, u8)>, k: K)
    requires
        keys_unique(old(m)@),
        match map_get(old(m)@, k) {
            Some(v) => v < 255,
            None => true,
        },
    ensures
        keys_unique(final(m)@),
        map_get(final(m)@, k) == Some(
            match map_get(old(m)@, k) {
                Some(v) => (v + 1) as u8,
                None => 1u8,
            },
        ),
        forall|k2: K| k2 != k ==> #[trigger] map_get(final(m)@, k2) == map_get(old(m)@, k2),
{
    match map_find(m, &k) {
        Some(j) => {
            let v = m[j].1;
            proof {
                lemma_map_update(m@, j as int, (v + 1) as u8);
            }
            m.set(j, (k, v + 1));
        },
        None => {
            proof {
                lemma_map_push(m@, k, 1u8);
            }
            m.push((k, 1));
        },
    }
}

/// Subtract one from the counter of `k` (saturating), dropping the entry
/// when it reaches zero.
pub fn dec_remove_u8<K: MapKey>(m: &mut Vec<(K, u8)>, k: K)
    requires
        keys_unique(old(m)@),
    ensures
        keys_unique(final(m)@),
        map_get(final(m)@, k) == match map_get(old(m)@, k) {
            Some(v) => if v <= 1 {
                None
            } else {
                Some((v - 1) as u8)
            },
            None => None,
        },
        forall|k2: K| k2 != k ==> #[trigger] map_get(final(m)@, k2) == map_get(old(m)@, k2),
{
    match map_find(m, &k) {
        Some(j) => {
            let v = m[j].1;
            if v <= 1 {
                proof {
                    lemma_map_remove(m@, j as int);
                }
                m.remove(j);
            } else {
                proof {
                    lemma_map_update(m@, j as int, (v - 1) as u8);
                }
                m.set(j, (k, v - 1));
            }
        },
        None => {},
    }
}

/// Add one to the counter of `k`, starting from zero when absent.
pub fn inc_u32<K: MapKey>(m: &mut Vec<(K, u32)>, k: K)
    requires
        keys_unique(old(m)@),
        match map_get(old(m)@, k) {
            Some(v) => v < u32::MAX,
            None => true,
        },
    ensures
        keys_unique(final(m)@),
        map_get(final(m)@, k) == Some(
            match map_get(old(m)@, k) {
                Some(v) => (v + 1) as u32,
                None => 1u32,
            },
        ),
        forall|k2: K| k2 != k ==> #[trigger] map_get(final(m)@, k2) == map_get(old(m)@, k2),
{
    match map_find(m, &k) {
        Some(j) => {
            let v = m[j].1;
            proof {
                lemma_map_update(m@, j as int, (v + 1) as u32);
            }
            m.set(j, (k, v + 1));
        },
        None => {
            proof {
                lemma_map_push(m@, k, 1u32);
            }
            m.push((k, 1));
        },
    }
}

/// Subtract one from the counter of `k` when present (saturating), keeping
/// the entry.
pub fn dec_keep_u32<K: MapKey>(m: &mut Vec<(K, u32)>, k: K)
    requires
        keys_unique(old(m)@),
    ensures
        keys_unique(final(m)@),
        map_get(final(m)@, k) == match map_get(old(m)@, k) {
            Some(v) => Some(if v == 0 {
                0u32
            } else {
                (v - 1) as u32
            }),
            None => None,
        },
        forall|k2: K| k2 != k ==> #[trigger] map_get(final(m)@, k2) == map_get(old(m)@, k2),
{
    match map_find(m, &k) {
        Some(j) => {
            let v = m[j].1;
            let nv = v.saturating_sub(1);
            proof {
                lemma_map_update(m@, j as int, nv);
            }
            m.set(j, (k, nv));
        },
        None => {},
    }
}

/// Count one more placement under the lock of `k`, recording `room` as the
/// locked room when there is no lock yet.
pub fn inc_lock<K: MapKey>(m: &mut Vec<(K, (RoomId, u32))>, k: K, room: RoomId)
    requires
        keys_unique(old(m)@),
        match map_get(old(m)@, k) {
            Some(v) => v.1 < u32::MAX,
            None => true,
        },
    ensures
        keys_unique(final(m)@),
        map_get(final(m)@, k) == Some(
            match map_get(old(m)@, k) {
                Some(v) => (v.0, (v.1 + 1) as u32),
                None => (room, 1u32),
            },
        ),
        forall|k2: K| k2 != k ==> #[trigger] map_get(final(m)@, k2) == map_get(old(m)@, k2),
{
    match map_find(m, &k) {
        Some(j) => {
            let v = m[j].1;
            proof {
                lemma_map_update(m@, j as int, (v.0, (v.1 + 1) as u32));
            }
            m.set(j, (k, (v.0, v.1 + 1)));
        },
        None => {
            proof {
                lemma_map_push(m@, k, (room, 1u32));
            }
            m.push((k, (room, 1)));
        },
    }
}

/// Count one placement fewer under the lock of `k` (saturating), dropping
/// the lock when the count reaches zero.
pub fn dec_lock<K: MapKey>(m: &mut Vec<(K, (RoomId, u32))>, k: K)
    requires
        keys_unique(old(m)@),
    ensures
        keys_unique(final(m)@),
        map_get(final(m)@, k) == match map_get(old(m)@, k) {
            Some(v) => if v.1 <= 1 {
                None
            } else {
                Some((v.0, (v.1 - 1) as u32))
            },
            None => None,
        },
        forall|k2: K| k2 != k ==> #[trigger] map_get(final(m)@, k2) == map_get(old(m)@, k2),
{
    match map_find(m, &k) {
        Some(j) => {
            let v = m[j].1;
            if v.1 <= 1 {
                proof {
                    lemma_map_remove(m@, j as int);
                }
                m.remove(j);
            } else {
                proof {
                    lemma_map_update(m@, j as int, (v.0, (v.1 - 1) as u32));
                }
                m.set(j, (k, (v.0, v.1 - 1)));
            }
        },
        None => {},
    }
}

/// Add `n` to the counter of `k`, starting from zero when absent.
pub fn add_u8<K: MapKey>(m: &mut Vec<(K, u8)>, k: K, n: u8)
    requires
        keys_unique(old(m)@),
        match map_get(old(m)@, k) {
            Some(v) => v + n <= 255,
            None => true,
        },
    ensures
        keys_unique(final(m)@),
        map_get(final(m)@, k) == Some(
            match map_get(old(m)@, k) {
                Some(v) => (v + n) as u8,
                None => n,
            },
        ),
        forall|k2: K| k2 != k ==> #[trigger] map_get(final(m)@, k2) == map_get(old(m)@, k2),
{
    match map_find(m, &k) {
        Some(j) => {
            let v = m[j].1;
            proof {
                lemma_map_update(m@, j as int, (v + n) as u8);
            }
            m.set(j, (k, v + n));
        },
        None => {
            proof {
                lemma_map_push(m@, k, n);
            }
            m.push((k, n));
        },
    }
}

/// Subtract `n` from the counter of `k` (saturating), dropping the entry
/// when it reaches zero.
pub fn sub_remove_u8<K: MapKey>(m: &mut Vec<(K, u8)>, k: K, n: u8)
    requires
        keys_unique(old(m)@),
    ensures
        keys_unique(final(m)@),
        map_get(final(m)@, k) == match map_get(old(m)@, k) {
            Some(v) => if v <= n {
                None
            } else {
                Some((v - n) as u8)
            },
            None => None,
        },
        forall|k2: K| k2 != k ==> #[trigger] map_get(final(m)@, k2) == map_get(old(m)@, k2),
{
    match map_find(m, &k) {
        Some(j) => {
            let v = m[j].1;
            if v <= n {
                proof {
                    lemma_map_remove(m@, j as int);
                }
                m.remove(j);
            } else {
                proof {
                    lemma_map_update(m@, j as int, (v - n) as u8);
                }
                m.set(j, (k, v - n));
            }
        },
        None => {},
    }
}

/// Count `n` placements fewer under the lock of `k` (saturating), dropping
/// the lock when the count reaches zero.
pub fn sub_lock<K: MapKey>(m: &mut Vec<(K, (RoomId, u32))>, k: K, n: u32)
    requires
        keys_unique(old(m)@),
    ensures
        keys_unique(final(m)@),
        map_get(final(m)@, k) == match map_get(old(m)@, k) {
            Some(v) => if v.1 <= n {
                None
            } else {
                Some((v.0, (v.1 - n) as u32))
            },
            None => None,
        },
        forall|k2: K| k2 != k ==> #[trigger] map_get(final(m)@, k2) == map_get(old(m)@, k2),
{
    match map_find(m, &k) {
        Some(j) => {
            let v = m[j].1;
            if v.1 <= n {
                proof {
                    lemma_map_remove(m@, j as int);
                }
                m.remove(j);
            } else {
                proof {
                    lemma_map_update(m@, j as int, (v.0, (v.1 - n) as u32));
                }
                m.set(j, (k, (v.0, v.1 - n)));
            }
        },
        None => {},
    }
}

/// Lock `k` to `room` and count `n` more placements under it (from zero
/// when there is no lock yet).
pub fn relock_add<K: MapKey>(m: &mut Vec<(K, (RoomId, u32))>, k: K, room: RoomId, n: u32)
    requires
        keys_unique(old(m)@),
        match map_get(old(m)@, k) {
            Some(v) => v.1 + n <= u32::MAX,
            None => true,
        },
    ensures
        keys_unique(final(m)@),
        map_get(final(m)@, k) == Some(
            (
                room,
                match map_get(old(m)@, k) {
                    Some(v) => (v.1 + n) as u32,
                    None => n,
                },
            ),
        ),
        forall|k2: K| k2 != k ==> #[trigger] map_get(final(m)@, k2) == map_get(old(m)@, k2),
{
    match map_find(m, &k) {
        Some(j) => {
            let v = m[j].1;
            proof {
                lemma_map_update(m@, j as int, (room, (v.1 + n) as u32));
            }
            m.set(j, (k, (room, v.1 + n)));
        },
        None => {
            proof {
                lemma_map_push(m@, k, (room, n));
            }
            m.push((k, (room, n)));
        },
    }
}

} // verus!
