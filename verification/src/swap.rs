//! The Swap move of the local search: two one-hour rows of different
//! lessons exchange their blocks, each keeping its teacher and room, and
//! the exchange is accepted under the late-acceptance gate on the canonical
//! score.

use vstd::prelude::*;

use crate::block::{
    block_accepts,
    book_pairs, class_day_set, class_ids, class_in, class_rows_resolve, count_block, lemma_pairs_classes, lock_block,
    pairs, put_positions, rebuild_class_days, sorted_positions, teacher_day_positions, teacher_day_set,
    teacher_rows_resolve, unbook_pairs, block_move_counters, block_move_locks,
};
use crate::change::{count_or_zero, first_subject_cap, first_subject_cap_exec, lock_get, n1_prior, table_get_u8};
use crate::index::Indexed;
use crate::kempe::contains_lesson;
use crate::lookup::{find_lesson, find_tb, lesson_index, tb_index};
use crate::repair::row_lesson;
use crate::score::{score_inputs_ok, score_solution, score_spec, slice_recompute, slice_spec, slice_sums_fit};
use crate::state::{
    classes_cells, fits_lock, fits_u8, lemma_occ_prefix, lemma_occ_push, occ, row_block, set_contains, set_insert,
    set_remove, GreedyState,
};
use crate::types::{
    ConstraintWeights, LessonId, Placement, Problem, RoomId, SchoolClassId, SubjectId, TeacherId,
    TimeBlockId,
};
use crate::vecmap::map_get;

verus! {

/// Row `p` moved to block `tb`, keeping its lesson, room and teacher.
pub open spec fn with_block(p: Placement, tb: TimeBlockId) -> Placement {
    Placement { lesson_id: p.lesson_id, time_block_id: tb, room_id: p.room_id, teacher_id: p.teacher_id }
}

/// The placements with rows `a` and `b` exchanging their blocks.
pub open spec fn swapped(ps: Seq<Placement>, a: int, b: int) -> Seq<Placement> {
    ps.update(a, with_block(ps[a], ps[b].time_block_id)).update(b, with_block(ps[b], ps[a].time_block_id))
}

/// Rows `a` and `b` may be swapped at all: two different rows of different
/// lessons, each of one hour, neither lesson grouped nor pinned.
pub open spec fn swap_eligible(problem: Problem, a: int, b: int, ps: Seq<Placement>, pinned: Seq<LessonId>) -> bool {
    let la = row_lesson(problem.lessons@, ps[a]);
    let lb = row_lesson(problem.lessons@, ps[b]);
    &&& a != b
    &&& 0 <= a < ps.len()
    &&& 0 <= b < ps.len()
    &&& ps[a].lesson_id != ps[b].lesson_id
    &&& la.preferred_block_size <= 1
    &&& lb.preferred_block_size <= 1
    &&& la.lesson_group_id is None
    &&& lb.lesson_group_id is None
    &&& !pinned.contains(ps[a].lesson_id)
    &&& !pinned.contains(ps[b].lesson_id)
}

/// Teachers, classes and rooms are free at the exchanged blocks once the
/// two rows themselves are left out: row `pa` (classes `csa`) moves to
/// block `bb`, row `pb` (classes `csb`) to block `ba`.
pub open spec fn swap_free(
    idx: Indexed,
    s: GreedyState,
    pa: Placement,
    pb: Placement,
    csa: Seq<SchoolClassId>,
    csb: Seq<SchoolClassId>,
    ba: u128,
    bb: u128,
) -> bool {
    &&& !(s.used_teacher@.contains((pa.teacher_id.0, bb)) && pa.teacher_id != pb.teacher_id)
    &&& !(s.used_teacher@.contains((pb.teacher_id.0, ba)) && pa.teacher_id != pb.teacher_id)
    &&& !idx.teacher_blocked@.contains((pa.teacher_id.0, bb))
    &&& !idx.teacher_blocked@.contains((pb.teacher_id.0, ba))
    &&& forall|i: int| 0 <= i < csa.len() ==> !(s.used_class@.contains(((#[trigger] csa[i]).0, bb)) && !csb.contains(csa[i]))
    &&& forall|i: int| 0 <= i < csb.len() ==> !(s.used_class@.contains(((#[trigger] csb[i]).0, ba)) && !csa.contains(csb[i]))
    &&& !idx.room_blocked@.contains((pa.room_id.0, bb))
    &&& !idx.room_blocked@.contains((pb.room_id.0, ba))
    &&& !(s.used_room@.contains((pa.room_id.0, bb)) && pa.room_id != pb.room_id)
    &&& !(s.used_room@.contains((pb.room_id.0, ba)) && pa.room_id != pb.room_id)
}

/// The change of a class's blocks on day `d` when it has `oa` occurrences
/// among the classes moving from day `da` to `db` and `ob` among those
/// moving back.
pub open spec fn swap_day_delta(oa: int, ob: int, d: u8, da: u8, db: u8) -> int {
    if d == da {
        ob - oa
    } else if d == db {
        oa - ob
    } else {
        0
    }
}

/// The change of a class's hours of subject `s2` on day `d` under the swap
/// of a lesson of subject `sa` from `da` to `db` with one of subject `sb`.
pub open spec fn swap_hours_delta(oa: int, ob: int, d: u8, s2: SubjectId, da: u8, db: u8, sa: SubjectId, sb: SubjectId) -> int {
    (if s2 == sa {
        if d == db {
            oa
        } else if d == da {
            -oa
        } else {
            0
        }
    } else {
        0
    }) + (if s2 == sb {
        if d == da {
            ob
        } else if d == db {
            -ob
        } else {
            0
        }
    } else {
        0
    })
}

/// A gain of `dl` blocks on `(c, d)` stays within the class's daily cap.
pub open spec fn lessons_fit(s: GreedyState, caps: Seq<(SchoolClassId, u8)>, c: SchoolClassId, d: u8, dl: int) -> bool {
    dl > 0 ==> match map_get(caps, c) {
        Some(cap) => count_or_zero(map_get(s.lessons_by_class_day@, (c, d))) + dl <= cap,
        None => true,
    }
}

/// A gain of `dh` hours of subject `s2` on `(c, d)` stays within the
/// subject's daily cap.
pub open spec fn hours_fit(problem: Problem, s: GreedyState, c: SchoolClassId, d: u8, s2: SubjectId, dh: int) -> bool {
    dh > 0 ==> count_or_zero(map_get(s.subject_hours_by_class_day@, (c, d, s2))) + dh <= first_subject_cap(
        problem.subjects@,
        s2,
    )
}

/// Class `c` keeps its caps on both days under the swap.
pub open spec fn class_swap_caps(
    problem: Problem,
    s: GreedyState,
    caps: Seq<(SchoolClassId, u8)>,
    csa: Seq<SchoolClassId>,
    csb: Seq<SchoolClassId>,
    c: SchoolClassId,
    da: u8,
    db: u8,
    sa: SubjectId,
    sb: SubjectId,
) -> bool {
    let oa = occ(csa, c) as int;
    let ob = occ(csb, c) as int;
    &&& lessons_fit(s, caps, c, da, swap_day_delta(oa, ob, da, da, db))
    &&& lessons_fit(s, caps, c, db, swap_day_delta(oa, ob, db, da, db))
    &&& hours_fit(problem, s, c, da, sa, swap_hours_delta(oa, ob, da, sa, da, db, sa, sb))
    &&& hours_fit(problem, s, c, db, sa, swap_hours_delta(oa, ob, db, sa, da, db, sa, sb))
    &&& hours_fit(problem, s, c, da, sb, swap_hours_delta(oa, ob, da, sb, da, db, sa, sb))
    &&& hours_fit(problem, s, c, db, sb, swap_hours_delta(oa, ob, db, sb, da, db, sa, sb))
}

/// A swap across days keeps every member class of either lesson within its
/// caps.
pub open spec fn swap_caps(
    problem: Problem,
    s: GreedyState,
    caps: Seq<(SchoolClassId, u8)>,
    csa: Seq<SchoolClassId>,
    csb: Seq<SchoolClassId>,
    da: u8,
    db: u8,
    sa: SubjectId,
    sb: SubjectId,
) -> bool {
    da == db || {
        &&& forall|i: int|
            0 <= i < csa.len() ==> class_swap_caps(problem, s, caps, csa, csb, #[trigger] csa[i], da, db, sa, sb)
        &&& forall|i: int|
            0 <= i < csb.len() ==> class_swap_caps(problem, s, caps, csa, csb, #[trigger] csb[i], da, db, sa, sb)
    }
}

/// A swap across days meets the same-room locks of the destination: a lock
/// of a class of the first lesson on the new day holds its room, and
/// likewise for the second.
pub open spec fn swap_locks(
    s: GreedyState,
    csa: Seq<SchoolClassId>,
    csb: Seq<SchoolClassId>,
    da: u8,
    db: u8,
    sa: SubjectId,
    sb: SubjectId,
    ra: RoomId,
    rb: RoomId,
) -> bool {
    da == db || {
        &&& forall|i: int|
            0 <= i < csa.len() ==> match map_get(s.locked_room@, (#[trigger] csa[i], db, sa)) {
                Some(v) => v.0 == ra,
                None => true,
            }
        &&& forall|i: int|
            0 <= i < csb.len() ==> match map_get(s.locked_room@, (#[trigger] csb[i], da, sb)) {
                Some(v) => v.0 == rb,
                None => true,
            }
    }
}

/// The swap of rows `a` and `b` is feasible.
pub open spec fn swap_ok(
    problem: Problem,
    idx: Indexed,
    a: int,
    b: int,
    ps: Seq<Placement>,
    s: GreedyState,
    pinned: Seq<LessonId>,
    caps: Seq<(SchoolClassId, u8)>,
) -> bool {
    let tbs = problem.time_blocks@;
    let la = row_lesson(problem.lessons@, ps[a]);
    let lb = row_lesson(problem.lessons@, ps[b]);
    let da = row_block(tbs, ps[a]).day_of_week;
    let db = row_block(tbs, ps[b]).day_of_week;
    &&& swap_eligible(problem, a, b, ps, pinned)
    &&& swap_free(
        idx,
        s,
        ps[a],
        ps[b],
        la.school_class_ids@,
        lb.school_class_ids@,
        ps[a].time_block_id.0,
        ps[b].time_block_id.0,
    )
    &&& swap_caps(problem, s, caps, la.school_class_ids@, lb.school_class_ids@, da, db, la.subject_id, lb.subject_id)
    &&& swap_locks(
        s,
        la.school_class_ids@,
        lb.school_class_ids@,
        da,
        db,
        la.subject_id,
        lb.subject_id,
        ps[a].room_id,
        ps[b].room_id,
    )
}

/// A lock after the first lesson's classes moved a placement each from day
/// `da` to `db` (into room `ra`).
pub open spec fn lock_after_first(
    o: Seq<((SchoolClassId, u8, SubjectId), (RoomId, u32))>,
    k: (SchoolClassId, u8, SubjectId),
    csa: Seq<SchoolClassId>,
    da: u8,
    db: u8,
    sa: SubjectId,
    ra: RoomId,
) -> Option<(RoomId, u32)> {
    if k.2 == sa {
        lock_block(map_get(o, k), k.1, da, db, occ(csa, k.0), 1, ra)
    } else {
        map_get(o, k)
    }
}

/// An hour counter after the first lesson's classes moved.
pub open spec fn hours_after_first(
    o: Seq<((SchoolClassId, u8, SubjectId), u8)>,
    k: (SchoolClassId, u8, SubjectId),
    csa: Seq<SchoolClassId>,
    da: u8,
    db: u8,
    sa: SubjectId,
) -> Option<u8> {
    if k.2 == sa {
        count_block(map_get(o, k), k.1, da, db, occ(csa, k.0), 1)
    } else {
        map_get(o, k)
    }
}

/// A block counter after the first lesson's classes moved.
pub open spec fn lessons_after_first(
    o: Seq<((SchoolClassId, u8), u8)>,
    k: (SchoolClassId, u8),
    csa: Seq<SchoolClassId>,
    da: u8,
    db: u8,
) -> Option<u8> {
    count_block(map_get(o, k), k.1, da, db, occ(csa, k.0), 1)
}

/// The bookkeeping after the swap: row `pa` (classes `csa`, subject `sa`)
/// moved from block `ba` on day `da` to block `bb` on day `db`, row `pb`
/// (classes `csb`, subject `sb`) the other way, the placements now being
/// `moved`. Bookings move with the rows; the positions of both lessons'
/// classes and of both teachers on both days are read afresh from `moved`;
/// locks and counters move one per class occurrence, first for the first
/// lesson, then for the second.
pub open spec fn swap_applied(
    os: GreedyState,
    ns: GreedyState,
    problem: Problem,
    moved: Seq<Placement>,
    pa: Placement,
    pb: Placement,
    csa: Seq<SchoolClassId>,
    csb: Seq<SchoolClassId>,
    da: u8,
    db: u8,
    sa: SubjectId,
    sb: SubjectId,
) -> bool {
    let ba = pa.time_block_id.0;
    let bb = pb.time_block_id.0;
    let ta = pa.teacher_id;
    let tb = pb.teacher_id;
    &&& ns.used_teacher@.to_set() == os.used_teacher@.to_set().remove((ta.0, ba)).remove((tb.0, bb)).insert(
        (ta.0, bb),
    ).insert((tb.0, ba))
    &&& ns.used_class@.to_set() == os.used_class@.to_set().difference(classes_cells(csa, set![ba])).difference(
        classes_cells(csb, set![bb]),
    ).union(classes_cells(csa, set![bb])).union(classes_cells(csb, set![ba]))
    &&& ns.used_room@.to_set() == os.used_room@.to_set().remove((pa.room_id.0, ba)).remove((pb.room_id.0, bb)).insert(
        (pa.room_id.0, bb),
    ).insert((pb.room_id.0, ba))
    &&& forall|key: (u128, u8)|
        #[trigger] ns.class_positions.lookup(key) == if (csa.contains(SchoolClassId(key.0)) || csb.contains(
            SchoolClassId(key.0),
        )) && (key.1 == da || key.1 == db) {
            sorted_positions(class_day_set(problem.lessons@, problem.time_blocks@, moved, SchoolClassId(key.0), key.1))
        } else {
            os.class_positions.lookup(key)
        }
    &&& forall|key: (u128, u8)|
        #[trigger] ns.teacher_positions.lookup(key) == if (key.0 == ta.0 || key.0 == tb.0) && (key.1 == da || key.1
            == db) {
            sorted_positions(teacher_day_set(problem.time_blocks@, moved, TeacherId(key.0), key.1))
        } else {
            os.teacher_positions.lookup(key)
        }
    &&& forall|k: (SchoolClassId, u8, SubjectId)|
        #[trigger] map_get(ns.locked_room@, k) == if k.2 == sb {
            lock_block(lock_after_first(os.locked_room@, k, csa, da, db, sa, pa.room_id), k.1, db, da, occ(csb, k.0), 1, pb.room_id)
        } else {
            lock_after_first(os.locked_room@, k, csa, da, db, sa, pa.room_id)
        }
    &&& forall|k: (SchoolClassId, u8, SubjectId)|
        #[trigger] map_get(ns.subject_hours_by_class_day@, k) == if k.2 == sb {
            count_block(hours_after_first(os.subject_hours_by_class_day@, k, csa, da, db, sa), k.1, db, da, occ(csb, k.0), 1)
        } else {
            hours_after_first(os.subject_hours_by_class_day@, k, csa, da, db, sa)
        }
    &&& forall|k: (SchoolClassId, u8)|
        #[trigger] map_get(ns.lessons_by_class_day@, k) == count_block(
            lessons_after_first(os.lessons_by_class_day@, k, csa, da, db),
            k.1,
            db,
            da,
            occ(csb, k.0),
            1,
        )
    &&& ns.hours_by_teacher@ == os.hours_by_teacher@
    &&& ns.class_subject_teacher@ == os.class_subject_teacher@
    &&& ns.soft_pinned_blocks@ == os.soft_pinned_blocks@
}

/// What the swap needs: once the rows are eligible up to their lessons, the
/// lessons resolve; once the lessons pass their checks, both blocks
/// resolve; a swap across days keeps the class lists short enough for the
/// caps arithmetic; and in a feasible swap both lessons need no travel time
/// around them, and the swap fits every lock and counter it
/// moves, resolves for the position rebuild, can be scored, and finds the
/// iteration's entry in the list.
pub open spec fn swap_ready(
    problem: Problem,
    idx: Indexed,
    a: int,
    b: int,
    ps: Seq<Placement>,
    s: GreedyState,
    pinned: Seq<LessonId>,
    caps: Seq<(SchoolClassId, u8)>,
    w: ConstraintWeights,
    lahc_list: Seq<u32>,
    iter: u64,
    travel_clear: bool,
) -> bool {
    let ls = problem.lessons@;
    let tbs = problem.time_blocks@;
    let la = row_lesson(ls, ps[a]);
    let lb = row_lesson(ls, ps[b]);
    let csa = la.school_class_ids@;
    let csb = lb.school_class_ids@;
    let da = row_block(tbs, ps[a]).day_of_week;
    let db = row_block(tbs, ps[b]).day_of_week;
    let moved = swapped(ps, a, b);
    &&& (a != b && 0 <= a < ps.len() && 0 <= b < ps.len() && ps[a].lesson_id != ps[b].lesson_id) ==> {
        &&& lesson_index(ls, ps[a].lesson_id) >= 0
        &&& lesson_index(ls, ps[b].lesson_id) >= 0
    }
    &&& swap_eligible(problem, a, b, ps, pinned) ==> {
        &&& tb_index(tbs, ps[a].time_block_id) >= 0
        &&& tb_index(tbs, ps[b].time_block_id) >= 0
        &&& da != db ==> csa.len() + csb.len() + 255 <= i32::MAX
    }
    &&& swap_ok(problem, idx, a, b, ps, s, pinned, caps) && travel_clear ==> {
        &&& da != db ==> forall|c: SchoolClassId|
            #[trigger] csa.contains(c) ==> fits_lock(map_get(s.locked_room@, (c, db, la.subject_id)), occ(csa, c))
                && fits_u8(map_get(s.subject_hours_by_class_day@, (c, db, la.subject_id)), occ(csa, c)) && fits_u8(
                map_get(s.lessons_by_class_day@, (c, db)),
                occ(csa, c),
            )
        &&& da != db ==> forall|c: SchoolClassId|
            #[trigger] csb.contains(c) ==> fits_lock(
                lock_after_first(s.locked_room@, (c, da, lb.subject_id), csa, da, db, la.subject_id, ps[a].room_id),
                occ(csb, c),
            ) && fits_u8(
                hours_after_first(s.subject_hours_by_class_day@, (c, da, lb.subject_id), csa, da, db, la.subject_id),
                occ(csb, c),
            ) && fits_u8(lessons_after_first(s.lessons_by_class_day@, (c, da), csa, da, db), occ(csb, c))
        &&& forall|c: SchoolClassId| #[trigger] csa.contains(c) ==> class_rows_resolve(ls, tbs, moved, c)
        &&& forall|c: SchoolClassId| #[trigger] csb.contains(c) ==> class_rows_resolve(ls, tbs, moved, c)
        &&& teacher_rows_resolve(tbs, moved, ps[a].teacher_id)
        &&& teacher_rows_resolve(tbs, moved, ps[b].teacher_id)
        &&& w != crate::types::zero_weights() ==> score_inputs_ok(problem, moved, w, s.soft_pinned_blocks@)
        &&& slice_sums_fit(problem, moved, w)
        &&& (iter as usize) as int % 500 < lahc_list.len()
    }
}

/// Number of occurrences of class `c` in `cs`.
pub(crate) fn count_class(cs: &Vec<SchoolClassId>, c: SchoolClassId) -> (r: u64)
    requires
        cs@.len() <= i32::MAX,
    ensures
        r == occ(cs@, c),
{
    let mut r: u64 = 0;
    let mut i: usize = 0;
    while i < cs.len()
        invariant
            i <= cs@.len(),
            cs@.len() <= i32::MAX,
            r == occ(cs@.take(i as int), c),
            r <= i,
        decreases cs@.len() - i,
    {
        proof {
            lemma_occ_push(cs@, i as int, c);
        }
        if cs[i] == c {
            r = r + 1;
        }
        i = i + 1;
    }
    proof {
        assert(cs@.take(cs@.len() as int) =~= cs@);
    }
    r
}

fn hours_delta_exec(oa: i64, ob: i64, d: u8, s2: SubjectId, da: u8, db: u8, sa: SubjectId, sb: SubjectId) -> (r: i64)
    requires
        0 <= oa <= i32::MAX,
        0 <= ob <= i32::MAX,
    ensures
        r == swap_hours_delta(oa as int, ob as int, d, s2, da, db, sa, sb),
{
    let x: i64 = if s2 == sa {
        if d == db {
            oa
        } else if d == da {
            -oa
        } else {
            0
        }
    } else {
        0
    };
    let y: i64 = if s2 == sb {
        if d == da {
            ob
        } else if d == db {
            -ob
        } else {
            0
        }
    } else {
        0
    };
    x + y
}

fn lessons_fit_exec(state: &GreedyState, caps: &Vec<(SchoolClassId, u8)>, c: SchoolClassId, d: u8, dl: i64) -> (b: bool)
    requires
        dl <= i32::MAX,
    ensures
        b == lessons_fit(*state, caps@, c, d, dl as int),
{
    if dl <= 0 {
        return true;
    }
    match table_get_u8(caps, &c) {
        Some(cap) => {
            let cur: i64 = match table_get_u8(&state.lessons_by_class_day, &(c, d)) {
                Some(v) => v as i64,
                None => 0,
            };
            cur + dl <= cap as i64
        },
        None => true,
    }
}

fn hours_fit_exec(problem: &Problem, state: &GreedyState, c: SchoolClassId, d: u8, s2: SubjectId, dh: i64, cap: u8) -> (b: bool)
    requires
        dh <= i32::MAX,
        cap == first_subject_cap(problem.subjects@, s2),
    ensures
        b == hours_fit(*problem, *state, c, d, s2, dh as int),
{
    if dh <= 0 {
        return true;
    }
    let cur: i64 = match table_get_u8(&state.subject_hours_by_class_day, &(c, d, s2)) {
        Some(v) => v as i64,
        None => 0,
    };
    cur + dh <= cap as i64
}

fn class_swap_caps_exec(
    problem: &Problem,
    state: &GreedyState,
    caps: &Vec<(SchoolClassId, u8)>,
    csa: &Vec<SchoolClassId>,
    csb: &Vec<SchoolClassId>,
    c: SchoolClassId,
    da: u8,
    db: u8,
    sa: SubjectId,
    sb: SubjectId,
    cap_a: u8,
    cap_b: u8,
) -> (b: bool)
    requires
        csa@.len() + csb@.len() + 255 <= i32::MAX,
        cap_a == first_subject_cap(problem.subjects@, sa),
        cap_b == first_subject_cap(problem.subjects@, sb),
    ensures
        b == class_swap_caps(*problem, *state, caps@, csa@, csb@, c, da, db, sa, sb),
{
    let oa = count_class(csa, c) as i64;
    let ob = count_class(csb, c) as i64;
    proof {
        crate::state::lemma_occ_contains(csa@, c);
        crate::state::lemma_occ_contains(csb@, c);
    }
    let dl_a: i64 = ob - oa;
    let dl_b: i64 = if db == da { ob - oa } else { oa - ob };
    if !lessons_fit_exec(state, caps, c, da, dl_a) {
        return false;
    }
    if !lessons_fit_exec(state, caps, c, db, dl_b) {
        return false;
    }
    let h1 = hours_delta_exec(oa, ob, da, sa, da, db, sa, sb);
    if !hours_fit_exec(problem, state, c, da, sa, h1, cap_a) {
        return false;
    }
    let h2 = hours_delta_exec(oa, ob, db, sa, da, db, sa, sb);
    if !hours_fit_exec(problem, state, c, db, sa, h2, cap_a) {
        return false;
    }
    let h3 = hours_delta_exec(oa, ob, da, sb, da, db, sa, sb);
    if !hours_fit_exec(problem, state, c, da, sb, h3, cap_b) {
        return false;
    }
    let h4 = hours_delta_exec(oa, ob, db, sb, da, db, sa, sb);
    if !hours_fit_exec(problem, state, c, db, sb, h4, cap_b) {
        return false;
    }
    true
}

fn swap_caps_exec(
    problem: &Problem,
    state: &GreedyState,
    caps: &Vec<(SchoolClassId, u8)>,
    csa: &Vec<SchoolClassId>,
    csb: &Vec<SchoolClassId>,
    da: u8,
    db: u8,
    sa: SubjectId,
    sb: SubjectId,
) -> (b: bool)
    requires
        da != db ==> csa@.len() + csb@.len() + 255 <= i32::MAX,
    ensures
        b == swap_caps(*problem, *state, caps@, csa@, csb@, da, db, sa, sb),
{
    if da == db {
        return true;
    }
    let cap_a = first_subject_cap_exec(&problem.subjects, sa);
    let cap_b = first_subject_cap_exec(&problem.subjects, sb);
    let mut i: usize = 0;
    while i < csa.len()
        invariant
            i <= csa@.len(),
            da != db,
            csa@.len() + csb@.len() + 255 <= i32::MAX,
            cap_a == first_subject_cap(problem.subjects@, sa),
            cap_b == first_subject_cap(problem.subjects@, sb),
            forall|j: int| 0 <= j < i ==> class_swap_caps(*problem, *state, caps@, csa@, csb@, #[trigger] csa@[j], da, db, sa, sb),
        decreases csa@.len() - i,
    {
        if !class_swap_caps_exec(problem, state, caps, csa, csb, csa[i], da, db, sa, sb, cap_a, cap_b) {
            assert(!class_swap_caps(*problem, *state, caps@, csa@, csb@, csa@[i as int], da, db, sa, sb));
            return false;
        }
        i = i + 1;
    }
    let mut j: usize = 0;
    while j < csb.len()
        invariant
            j <= csb@.len(),
            da != db,
            csa@.len() + csb@.len() + 255 <= i32::MAX,
            cap_a == first_subject_cap(problem.subjects@, sa),
            cap_b == first_subject_cap(problem.subjects@, sb),
            forall|k: int| 0 <= k < csa@.len() ==> class_swap_caps(*problem, *state, caps@, csa@, csb@, #[trigger] csa@[k], da, db, sa, sb),
            forall|k: int| 0 <= k < j ==> class_swap_caps(*problem, *state, caps@, csa@, csb@, #[trigger] csb@[k], da, db, sa, sb),
        decreases csb@.len() - j,
    {
        if !class_swap_caps_exec(problem, state, caps, csa, csb, csb[j], da, db, sa, sb, cap_a, cap_b) {
            assert(!class_swap_caps(*problem, *state, caps@, csa@, csb@, csb@[j as int], da, db, sa, sb));
            return false;
        }
        j = j + 1;
    }
    true
}

/// Every lock of `(class, day, subject)` over the classes holds `room`.
fn locks_hold(
    locked: &Vec<((SchoolClassId, u8, SubjectId), (RoomId, u32))>,
    cs: &Vec<SchoolClassId>,
    day: u8,
    subject: SubjectId,
    room: RoomId,
) -> (b: bool)
    ensures
        b == forall|i: int|
            0 <= i < cs@.len() ==> match map_get(locked@, (#[trigger] cs@[i], day, subject)) {
                Some(v) => v.0 == room,
                None => true,
            },
{
    let mut i: usize = 0;
    while i < cs.len()
        invariant
            i <= cs@.len(),
            forall|j: int|
                0 <= j < i ==> match map_get(locked@, (#[trigger] cs@[j], day, subject)) {
                    Some(v) => v.0 == room,
                    None => true,
                },
        decreases cs@.len() - i,
    {
        match lock_get(locked, &(cs[i], day, subject)) {
            Some(v) => {
                if v.0 != room {
                    return false;
                }
            },
            None => {},
        }
        i = i + 1;
    }
    true
}

/// No class of `csa` outside `csb` is booked at block `blk`.
fn classes_clear(used_class: &Vec<(u128, u128)>, csa: &Vec<SchoolClassId>, csb: &Vec<SchoolClassId>, blk: u128) -> (b: bool)
    ensures
        b == forall|i: int|
            0 <= i < csa@.len() ==> !(used_class@.contains(((#[trigger] csa@[i]).0, blk)) && !csb@.contains(csa@[i])),
{
    let mut i: usize = 0;
    while i < csa.len()
        invariant
            i <= csa@.len(),
            forall|j: int|
                0 <= j < i ==> !(used_class@.contains(((#[trigger] csa@[j]).0, blk)) && !csb@.contains(csa@[j])),
        decreases csa@.len() - i,
    {
        if set_contains(used_class, (csa[i].0, blk)) && !class_in(csb, csa[i]) {
            return false;
        }
        i = i + 1;
    }
    true
}

/// A copy of the rows.
pub(crate) fn copy_rows(ps: &Vec<Placement>) -> (v: Vec<Placement>)
    ensures
        v@ == ps@,
{
    let mut v: Vec<Placement> = Vec::new();
    let mut j: usize = 0;
    while j < ps.len()
        invariant
            j <= ps@.len(),
            v@ == ps@.take(j as int),
        decreases ps@.len() - j,
    {
        v.push(ps[j]);
        proof {
            assert(ps@.take(j + 1) =~= ps@.take(j as int).push(ps@[j as int]));
        }
        j = j + 1;
    }
    proof {
        assert(ps@.take(ps@.len() as int) =~= ps@);
    }
    v
}

/// What `try_swap_move` leaves, from `(ps0, s0)` to `(ps1, s1)`, answering
/// `accepted`: its postcondition.
pub open spec fn swap_move_post(
    problem: Problem,
    idx: Indexed,
    placement_idx: usize,
    partner_idx: usize,
    travel_clear: bool,
    weights: ConstraintWeights,
    pinned: Seq<LessonId>,
    class_max_lessons_per_day: Seq<(SchoolClassId, u8)>,
    lahc_list: Seq<u32>,
    iter: u64,
    ps0: Seq<Placement>,
    s0: GreedyState,
    ps1: Seq<Placement>,
    s1: GreedyState,
    accepted: bool,
) -> bool {
    &&& (s1.wf())
    &&& (accepted == (travel_clear && swap_ok(
            problem,
            idx,
            placement_idx as int,
            partner_idx as int,
            ps0,
            s0,
            pinned,
            class_max_lessons_per_day,
        ) && block_accepts(
            problem,
            weights,
            s0,
            swapped(ps0, placement_idx as int, partner_idx as int),
            lahc_list,
            iter,
        )))
    &&& (!accepted ==> ps1 == ps0 && s1 == s0)
    &&& (accepted ==> {
            let ps0 = ps0;
            let moved = swapped(ps0, placement_idx as int, partner_idx as int);
            let pa = ps0[placement_idx as int];
            let pb = ps0[partner_idx as int];
            let la = row_lesson(problem.lessons@, pa);
            let lb = row_lesson(problem.lessons@, pb);
            &&& ps1 == moved
            &&& swap_applied(
                s0,
                s1,
                problem,
                moved,
                pa,
                pb,
                la.school_class_ids@,
                lb.school_class_ids@,
                row_block(problem.time_blocks@, pa).day_of_week,
                row_block(problem.time_blocks@, pb).day_of_week,
                la.subject_id,
                lb.subject_id,
            )
            &&& s1.canonical_score == score_spec(problem, moved, weights, s0.soft_pinned_blocks@)
            &&& s1.search_score_slice == slice_spec(problem, moved, weights)
        })
}

/// What `try_swap_move` needs of `(ps0, s0)`: its precondition.
pub open spec fn swap_move_ready(
    problem: Problem,
    idx: Indexed,
    placement_idx: usize,
    partner_idx: usize,
    travel_clear: bool,
    weights: ConstraintWeights,
    pinned: Seq<LessonId>,
    class_max_lessons_per_day: Seq<(SchoolClassId, u8)>,
    lahc_list: Seq<u32>,
    iter: u64,
    ps0: Seq<Placement>,
    s0: GreedyState,
) -> bool {
    &&& (s0.wf())
    &&& (s0.soft_pinned_blocks@.no_duplicates())
    &&& (swap_ready(
            problem,
            idx,
            placement_idx as int,
            partner_idx as int,
            ps0,
            s0,
            pinned,
            class_max_lessons_per_day,
            weights,
            lahc_list,
            iter,
            travel_clear,
        ))
}

/// Try the Swap move of rows `placement_idx` and `partner_idx`: feasible as
/// `swap_ok` says, the two rows exchange their blocks (`swapped`), the
/// result is scored afresh and accepted when its canonical score does not
/// exceed the current one or the late-acceptance entry of iteration `iter`.
/// An accepted swap leaves the swapped placements, the bookkeeping that
/// `swap_applied` describes and the new canonical score and slice; a
/// rejected one changes nothing. Lessons and blocks resolve through the
/// problem; `class_max_lessons_per_day` is a lookup table (first entry per
/// key). `travel_clear` is the travel-buffer verdict for both sides (each
/// lesson with its teacher at the other row's block, its own block
/// leaving): false when either side would leave too little travel time
/// around its lesson, which rejects the swap.
pub fn try_swap_move(
    problem: &Problem,
    idx: &Indexed,
    placement_idx: usize,
    partner_idx: usize,
    travel_clear: bool,
    weights: &ConstraintWeights,
    placements: &mut Vec<Placement>,
    state: &mut GreedyState,
    pinned: &Vec<LessonId>,
    class_max_lessons_per_day: &Vec<(SchoolClassId, u8)>,
    lahc_list: &[u32],
    iter: u64,
) -> (accepted: bool)
    requires
        old(state).wf(),
        old(state).soft_pinned_blocks@.no_duplicates(),
        swap_ready(
            *problem,
            *idx,
            placement_idx as int,
            partner_idx as int,
            old(placements)@,
            *old(state),
            pinned@,
            class_max_lessons_per_day@,
            *weights,
            lahc_list@,
            iter,
            travel_clear,
        ),
    ensures
        final(state).wf(),
        accepted == (travel_clear && swap_ok(
            *problem,
            *idx,
            placement_idx as int,
            partner_idx as int,
            old(placements)@,
            *old(state),
            pinned@,
            class_max_lessons_per_day@,
        ) && block_accepts(
            *problem,
            *weights,
            *old(state),
            swapped(old(placements)@, placement_idx as int, partner_idx as int),
            lahc_list@,
            iter,
        )),
        !accepted ==> final(placements)@ == old(placements)@ && *final(state) == *old(state),
        accepted ==> {
            let ps0 = old(placements)@;
            let moved = swapped(ps0, placement_idx as int, partner_idx as int);
            let pa = ps0[placement_idx as int];
            let pb = ps0[partner_idx as int];
            let la = row_lesson(problem.lessons@, pa);
            let lb = row_lesson(problem.lessons@, pb);
            &&& final(placements)@ == moved
            &&& swap_applied(
                *old(state),
                *final(state),
                *problem,
                moved,
                pa,
                pb,
                la.school_class_ids@,
                lb.school_class_ids@,
                row_block(problem.time_blocks@, pa).day_of_week,
                row_block(problem.time_blocks@, pb).day_of_week,
                la.subject_id,
                lb.subject_id,
            )
            &&& final(state).canonical_score == score_spec(*problem, moved, *weights, old(state).soft_pinned_blocks@)
            &&& final(state).search_score_slice == slice_spec(*problem, moved, *weights)
        },
        swap_move_post(*problem, *idx, placement_idx, partner_idx, travel_clear, *weights, pinned@, class_max_lessons_per_day@, lahc_list@, iter, old(placements)@, *old(state), final(placements)@, *final(state), accepted),
        accepted ==> !idx.teacher_blocked@.contains(
            (old(placements)@[placement_idx as int].teacher_id.0, old(placements)@[partner_idx as int].time_block_id.0),
        ) && !idx.teacher_blocked@.contains(
            (old(placements)@[partner_idx as int].teacher_id.0, old(placements)@[placement_idx as int].time_block_id.0),
        ),
        accepted ==> {
            let pa = old(placements)@[placement_idx as int];
            let pb = old(placements)@[partner_idx as int];
            let la = row_lesson(problem.lessons@, pa);
            let lb = row_lesson(problem.lessons@, pb);
            let csa = la.school_class_ids@;
            let csb = lb.school_class_ids@;
            &&& placement_idx != partner_idx && pa.lesson_id != pb.lesson_id
            &&& la.preferred_block_size <= 1 && lb.preferred_block_size <= 1
            &&& la.lesson_group_id is None && lb.lesson_group_id is None
            &&& !pinned@.contains(pa.lesson_id) && !pinned@.contains(pb.lesson_id)
            &&& pa.teacher_id != pb.teacher_id ==> !old(state).used_teacher@.contains(
                (pa.teacher_id.0, pb.time_block_id.0),
            ) && !old(state).used_teacher@.contains((pb.teacher_id.0, pa.time_block_id.0))
            &&& forall|c: SchoolClassId|
                #[trigger] csa.contains(c) && !csb.contains(c) ==> !old(state).used_class@.contains(
                    (c.0, pb.time_block_id.0),
                )
            &&& forall|c: SchoolClassId|
                #[trigger] csb.contains(c) && !csa.contains(c) ==> !old(state).used_class@.contains(
                    (c.0, pa.time_block_id.0),
                )
            &&& !idx.room_blocked@.contains((pa.room_id.0, pb.time_block_id.0))
            &&& !idx.room_blocked@.contains((pb.room_id.0, pa.time_block_id.0))
            &&& pa.room_id != pb.room_id ==> !old(state).used_room@.contains((pa.room_id.0, pb.time_block_id.0))
                && !old(state).used_room@.contains((pb.room_id.0, pa.time_block_id.0))
            &&& row_block(problem.time_blocks@, pa).day_of_week != row_block(problem.time_blocks@, pb).day_of_week ==> {
                &&& forall|c: SchoolClassId|
                    #[trigger] csa.contains(c) ==> {
                        let v = map_get(old(state).locked_room@, (c, row_block(problem.time_blocks@, pb).day_of_week, la.subject_id));
                        v is Some ==> v.unwrap().0 == pa.room_id
                    }
                &&& forall|c: SchoolClassId|
                    #[trigger] csb.contains(c) ==> {
                        let v = map_get(old(state).locked_room@, (c, row_block(problem.time_blocks@, pa).day_of_week, lb.subject_id));
                        v is Some ==> v.unwrap().0 == pb.room_id
                    }
            }
        },
{
    let ghost ps0 = placements@;
    let ghost s0 = *state;
    let ghost ls = problem.lessons@;
    let ghost tbs = problem.time_blocks@;
    let ghost a = placement_idx as int;
    let ghost b = partner_idx as int;
    if placement_idx == partner_idx {
        return false;
    }
    if placement_idx >= placements.len() || partner_idx >= placements.len() {
        return false;
    }
    let pa = placements[placement_idx];
    let pb = placements[partner_idx];
    if pa.lesson_id == pb.lesson_id {
        return false;
    }
    let lai = match find_lesson(&problem.lessons, pa.lesson_id) {
        Some(k) => k,
        None => {
            return false;
        },
    };
    let lbi = match find_lesson(&problem.lessons, pb.lesson_id) {
        Some(k) => k,
        None => {
            return false;
        },
    };
    let la = &problem.lessons[lai];
    let lb = &problem.lessons[lbi];
    if la.preferred_block_size > 1 || lb.preferred_block_size > 1 {
        return false;
    }
    if la.lesson_group_id.is_some() || lb.lesson_group_id.is_some() {
        return false;
    }
    if contains_lesson(pinned, pa.lesson_id) || contains_lesson(pinned, pb.lesson_id) {
        return false;
    }
    assert(swap_eligible(*problem, a, b, ps0, pinned@));
    let tai = match find_tb(&problem.time_blocks, pa.time_block_id) {
        Some(k) => k,
        None => {
            return false;
        },
    };
    let tbi = match find_tb(&problem.time_blocks, pb.time_block_id) {
        Some(k) => k,
        None => {
            return false;
        },
    };
    let da = problem.time_blocks[tai].day_of_week;
    let db = problem.time_blocks[tbi].day_of_week;
    let ba = pa.time_block_id;
    let bb = pb.time_block_id;
    let ta = pa.teacher_id;
    let tb = pb.teacher_id;
    let ra = pa.room_id;
    let rb = pb.room_id;
    let csa = &la.school_class_ids;
    let csb = &lb.school_class_ids;
    if set_contains(&state.used_teacher, (ta.0, bb.0)) && ta != tb {
        return false;
    }
    if set_contains(&state.used_teacher, (tb.0, ba.0)) && ta != tb {
        return false;
    }
    if idx.teacher_blocked(ta, bb) || idx.teacher_blocked(tb, ba) {
        return false;
    }
    if !classes_clear(&state.used_class, csa, csb, bb.0) {
        return false;
    }
    if !classes_clear(&state.used_class, csb, csa, ba.0) {
        return false;
    }
    if idx.room_blocked(ra, bb) || idx.room_blocked(rb, ba) {
        return false;
    }
    if set_contains(&state.used_room, (ra.0, bb.0)) && ra != rb {
        return false;
    }
    if set_contains(&state.used_room, (rb.0, ba.0)) && ra != rb {
        return false;
    }
    if !swap_caps_exec(problem, state, class_max_lessons_per_day, csa, csb, da, db, la.subject_id, lb.subject_id) {
        return false;
    }
    if da != db {
        if !locks_hold(&state.locked_room, csa, db, la.subject_id, ra) {
            return false;
        }
        if !locks_hold(&state.locked_room, csb, da, lb.subject_id, rb) {
            return false;
        }
    }
    assert(swap_ok(*problem, *idx, a, b, ps0, s0, pinned@, class_max_lessons_per_day@));
    if !travel_clear {
        return false;
    }
    let mut moved = copy_rows(placements);
    moved.set(placement_idx, Placement { lesson_id: pa.lesson_id, time_block_id: bb, room_id: ra, teacher_id: ta });
    moved.set(partner_idx, Placement { lesson_id: pb.lesson_id, time_block_id: ba, room_id: rb, teacher_id: tb });
    assert(moved@ =~= swapped(ps0, a, b));
    let nc = score_solution(problem, moved.as_slice(), weights, state.soft_pinned_blocks.as_slice());
    let nslice = slice_recompute(problem, moved.as_slice(), weights);
    let prior = lahc_list[(iter as usize) % 500];
    if !(nc <= state.canonical_score || nc <= prior) {
        return false;
    }
    rebuild_class_days(&mut state.class_positions, problem, &moved, csa, da, db);
    rebuild_class_days(&mut state.class_positions, problem, &moved, csb, da, db);
    let v1 = teacher_day_positions(&problem.time_blocks, &moved, ta, da);
    put_positions(&mut state.teacher_positions, ta.0, da, v1, Ghost(teacher_day_set(tbs, moved@, ta, da)));
    let v2 = teacher_day_positions(&problem.time_blocks, &moved, ta, db);
    put_positions(&mut state.teacher_positions, ta.0, db, v2, Ghost(teacher_day_set(tbs, moved@, ta, db)));
    let v3 = teacher_day_positions(&problem.time_blocks, &moved, tb, da);
    put_positions(&mut state.teacher_positions, tb.0, da, v3, Ghost(teacher_day_set(tbs, moved@, tb, da)));
    let v4 = teacher_day_positions(&problem.time_blocks, &moved, tb, db);
    put_positions(&mut state.teacher_positions, tb.0, db, v4, Ghost(teacher_day_set(tbs, moved@, tb, db)));
    set_remove(&mut state.used_teacher, (ta.0, ba.0));
    set_remove(&mut state.used_teacher, (tb.0, bb.0));
    set_insert(&mut state.used_teacher, (ta.0, bb.0));
    set_insert(&mut state.used_teacher, (tb.0, ba.0));
    let cva = class_ids(csa);
    let cvb = class_ids(csb);
    let mut va: Vec<u128> = Vec::new();
    va.push(ba.0);
    let mut vb: Vec<u128> = Vec::new();
    vb.push(bb.0);
    proof {
        assert(va@ =~= seq![ba.0]);
        assert(vb@ =~= seq![bb.0]);
        assert forall|x: u128| va@.contains(x) <==> set![ba.0].contains(x) by {
            if x == ba.0 {
                assert(va@[0] == x);
            }
        }
        assert forall|x: u128| vb@.contains(x) <==> set![bb.0].contains(x) by {
            if x == bb.0 {
                assert(vb@[0] == x);
            }
        }
        lemma_pairs_classes(csa@, cva@, va@, set![ba.0]);
        lemma_pairs_classes(csa@, cva@, vb@, set![bb.0]);
        lemma_pairs_classes(csb@, cvb@, va@, set![ba.0]);
        lemma_pairs_classes(csb@, cvb@, vb@, set![bb.0]);
    }
    unbook_pairs(&mut state.used_class, &cva, &va);
    unbook_pairs(&mut state.used_class, &cvb, &vb);
    book_pairs(&mut state.used_class, &cva, &vb);
    book_pairs(&mut state.used_class, &cvb, &va);
    set_remove(&mut state.used_room, (ra.0, ba.0));
    set_remove(&mut state.used_room, (rb.0, bb.0));
    set_insert(&mut state.used_room, (ra.0, bb.0));
    set_insert(&mut state.used_room, (rb.0, ba.0));
    block_move_locks(&mut state.locked_room, csa, da, db, la.subject_id, ra, 1);
    block_move_locks(&mut state.locked_room, csb, db, da, lb.subject_id, rb, 1);
    block_move_counters(&mut state.subject_hours_by_class_day, &mut state.lessons_by_class_day, csa, da, db, la.subject_id, 1);
    block_move_counters(&mut state.subject_hours_by_class_day, &mut state.lessons_by_class_day, csb, db, da, lb.subject_id, 1);
    state.canonical_score = nc;
    state.search_score_slice = nslice;
    *placements = moved;
    true
}

/// A swap moves only blocks: the two rows exchange their blocks and keep
/// their lessons, teachers and rooms, every other row stays, swapping the
/// rows the other way round is the same swap, and swapping again restores
/// the placements.
pub proof fn lemma_swap_moves_only_blocks(ps: Seq<Placement>, a: int, b: int)
    requires
        0 <= a < ps.len(),
        0 <= b < ps.len(),
        a != b,
    ensures
        swapped(ps, a, b).len() == ps.len(),
        swapped(ps, a, b)[a] == with_block(ps[a], ps[b].time_block_id),
        swapped(ps, a, b)[b] == with_block(ps[b], ps[a].time_block_id),
        forall|j: int| 0 <= j < ps.len() && j != a && j != b ==> #[trigger] swapped(ps, a, b)[j] == ps[j],
        swapped(ps, a, b) == swapped(ps, b, a),
        swapped(swapped(ps, a, b), a, b) == ps,
{
    assert(swapped(ps, a, b) =~= swapped(ps, b, a));
    assert(swapped(swapped(ps, a, b), a, b) =~= ps);
}

/// Which row of the two is named first does not matter: the swap of `a`
/// with `b` is feasible exactly when that of `b` with `a` is.
pub proof fn lemma_swap_ok_symmetric(
    problem: Problem,
    idx: Indexed,
    a: int,
    b: int,
    ps: Seq<Placement>,
    s: GreedyState,
    pinned: Seq<LessonId>,
    caps: Seq<(SchoolClassId, u8)>,
)
    ensures
        swap_ok(problem, idx, a, b, ps, s, pinned, caps) == swap_ok(problem, idx, b, a, ps, s, pinned, caps),
{
    let tbs = problem.time_blocks@;
    let la = row_lesson(problem.lessons@, ps[a]);
    let lb = row_lesson(problem.lessons@, ps[b]);
    let csa = la.school_class_ids@;
    let csb = lb.school_class_ids@;
    let da = row_block(tbs, ps[a]).day_of_week;
    let db = row_block(tbs, ps[b]).day_of_week;
    let sa = la.subject_id;
    let sb = lb.subject_id;
    assert forall|c: SchoolClassId| da != db implies class_swap_caps(problem, s, caps, csa, csb, c, da, db, sa, sb)
        == class_swap_caps(problem, s, caps, csb, csa, c, db, da, sb, sa) by {
    }
    if da != db {
        assert(swap_caps(problem, s, caps, csa, csb, da, db, sa, sb) == swap_caps(problem, s, caps, csb, csa, db, da, sb, sa)) by {
            if swap_caps(problem, s, caps, csa, csb, da, db, sa, sb) {
                assert forall|i: int| 0 <= i < csb.len() implies class_swap_caps(problem, s, caps, csb, csa, #[trigger] csb[i], db, da, sb, sa) by {
                    assert(class_swap_caps(problem, s, caps, csa, csb, csb[i], da, db, sa, sb));
                }
                assert forall|i: int| 0 <= i < csa.len() implies class_swap_caps(problem, s, caps, csb, csa, #[trigger] csa[i], db, da, sb, sa) by {
                    assert(class_swap_caps(problem, s, caps, csa, csb, csa[i], da, db, sa, sb));
                }
            }
            if swap_caps(problem, s, caps, csb, csa, db, da, sb, sa) {
                assert forall|i: int| 0 <= i < csa.len() implies class_swap_caps(problem, s, caps, csa, csb, #[trigger] csa[i], da, db, sa, sb) by {
                    assert(class_swap_caps(problem, s, caps, csb, csa, csa[i], db, da, sb, sa));
                }
                assert forall|i: int| 0 <= i < csb.len() implies class_swap_caps(problem, s, caps, csa, csb, #[trigger] csb[i], da, db, sa, sb) by {
                    assert(class_swap_caps(problem, s, caps, csb, csa, csb[i], db, da, sb, sa));
                }
            }
        }
    }
}

/// A swap never double-books a class and never breaks a class's daily
/// block cap: when a class of either lesson that the other lesson lacks is
/// already booked at the block its row would move to, or, across days, a
/// class of either lesson would gain blocks on one of the two days beyond
/// its cap, the swap is not feasible, so `try_swap_move` rejects it and
/// changes nothing.
pub proof fn lemma_swap_never_double_books_or_breaks_caps(
    problem: Problem,
    idx: Indexed,
    a: int,
    b: int,
    ps: Seq<Placement>,
    s: GreedyState,
    pinned: Seq<LessonId>,
    caps: Seq<(SchoolClassId, u8)>,
    c: SchoolClassId,
)
    requires
        0 <= a < ps.len(),
        0 <= b < ps.len(),
        ({
            let tbs = problem.time_blocks@;
            let csa = row_lesson(problem.lessons@, ps[a]).school_class_ids@;
            let csb = row_lesson(problem.lessons@, ps[b]).school_class_ids@;
            let da = row_block(tbs, ps[a]).day_of_week;
            let db = row_block(tbs, ps[b]).day_of_week;
            let oa = occ(csa, c) as int;
            let ob = occ(csb, c) as int;
            ||| csa.contains(c) && !csb.contains(c) && s.used_class@.contains((c.0, ps[b].time_block_id.0))
            ||| csb.contains(c) && !csa.contains(c) && s.used_class@.contains((c.0, ps[a].time_block_id.0))
            ||| da != db && (csa.contains(c) || csb.contains(c)) && !(lessons_fit(s, caps, c, da, swap_day_delta(oa, ob, da, da, db))
                && lessons_fit(s, caps, c, db, swap_day_delta(oa, ob, db, da, db)))
        }),
    ensures
        !swap_ok(problem, idx, a, b, ps, s, pinned, caps),
{
    let tbs = problem.time_blocks@;
    let la = row_lesson(problem.lessons@, ps[a]);
    let lb = row_lesson(problem.lessons@, ps[b]);
    let csa = la.school_class_ids@;
    let csb = lb.school_class_ids@;
    let da = row_block(tbs, ps[a]).day_of_week;
    let db = row_block(tbs, ps[b]).day_of_week;
    if swap_ok(problem, idx, a, b, ps, s, pinned, caps) {
        if csa.contains(c) {
            let i = choose|i: int| 0 <= i < csa.len() && csa[i] == c;
            assert(!(s.used_class@.contains(((csa[i]).0, ps[b].time_block_id.0)) && !csb.contains(csa[i])));
            if da != db {
                assert(class_swap_caps(problem, s, caps, csa, csb, csa[i], da, db, la.subject_id, lb.subject_id));
            }
        }
        if csb.contains(c) {
            let i = choose|i: int| 0 <= i < csb.len() && csb[i] == c;
            assert(!(s.used_class@.contains(((csb[i]).0, ps[a].time_block_id.0)) && !csa.contains(csb[i])));
            if da != db {
                assert(class_swap_caps(problem, s, caps, csa, csb, csb[i], da, db, la.subject_id, lb.subject_id));
            }
        }
    }
}

/// A feasible swap never puts a teacher at a block in which the teacher is
/// blocked: each row's teacher is free at the other row's block.
pub proof fn lemma_swap_respects_teacher_blocks(
    problem: Problem,
    idx: Indexed,
    a: int,
    b: int,
    ps: Seq<Placement>,
    s: GreedyState,
    pinned: Seq<LessonId>,
    caps: Seq<(SchoolClassId, u8)>,
)
    requires
        swap_ok(problem, idx, a, b, ps, s, pinned, caps),
    ensures
        !idx.teacher_blocked@.contains((ps[a].teacher_id.0, ps[b].time_block_id.0)),
        !idx.teacher_blocked@.contains((ps[b].teacher_id.0, ps[a].time_block_id.0)),
{
}

/// A feasible swap exchanges two different one-hour, ungrouped, unpinned
/// lessons, and each side lands where its teacher (unless both rows share
/// one), each class not shared with the other lesson, and its room (unless
/// both rows share one) are not yet booked, and its room is not blocked.
pub proof fn lemma_swap_lands_in_free_slots(
    problem: Problem,
    idx: Indexed,
    a: int,
    b: int,
    ps: Seq<Placement>,
    s: GreedyState,
    pinned: Seq<LessonId>,
    caps: Seq<(SchoolClassId, u8)>,
)
    requires
        swap_ok(problem, idx, a, b, ps, s, pinned, caps),
    ensures
        ({
            let pa = ps[a];
            let pb = ps[b];
            let la = row_lesson(problem.lessons@, pa);
            let lb = row_lesson(problem.lessons@, pb);
            let csa = la.school_class_ids@;
            let csb = lb.school_class_ids@;
            &&& a != b && pa.lesson_id != pb.lesson_id
            &&& la.preferred_block_size <= 1 && lb.preferred_block_size <= 1
            &&& la.lesson_group_id is None && lb.lesson_group_id is None
            &&& !pinned.contains(pa.lesson_id) && !pinned.contains(pb.lesson_id)
            &&& pa.teacher_id != pb.teacher_id ==> !s.used_teacher@.contains((pa.teacher_id.0, pb.time_block_id.0))
                && !s.used_teacher@.contains((pb.teacher_id.0, pa.time_block_id.0))
            &&& forall|c: SchoolClassId|
                #[trigger] csa.contains(c) && !csb.contains(c) ==> !s.used_class@.contains((c.0, pb.time_block_id.0))
            &&& forall|c: SchoolClassId|
                #[trigger] csb.contains(c) && !csa.contains(c) ==> !s.used_class@.contains((c.0, pa.time_block_id.0))
            &&& !idx.room_blocked@.contains((pa.room_id.0, pb.time_block_id.0))
            &&& !idx.room_blocked@.contains((pb.room_id.0, pa.time_block_id.0))
            &&& pa.room_id != pb.room_id ==> !s.used_room@.contains((pa.room_id.0, pb.time_block_id.0))
                && !s.used_room@.contains((pb.room_id.0, pa.time_block_id.0))
        }),
{
}

} // verus!
