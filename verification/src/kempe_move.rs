//! The Kempe-chain move of the local search: pick an anchored block and a
//! target day, build the chain of blocks that must swap days with it, move
//! every member to its window on the other day, and keep the result only
//! when it passes the late-acceptance test.

use vstd::prelude::*;

use crate::change::{count_or_zero, lock_get, table_get_u8};
use crate::index::{suits, Indexed};
use crate::repair::row_lesson;
use crate::kempe::{kempe_build_chain, teacher_known, window_slot, ChainBuild};
use crate::lahc::{kempe_pick_room, lesson_teacher_in_state, lookup_slot, rr_collect_anchors, slot_table_get};
use crate::lookup::{find_lesson, find_subject, find_tb, subject_index, tb_index};
use crate::partition::{PartEntry, Partition};
use crate::score::{score_solution, score_spec, slice_recompute, slice_spec};
use crate::scorable::score_inputs_ok_exec;
use crate::state::{block_fits, fits_lock, fits_u8, kempe_apply_block, occ, rr_ruin_block, GreedyState};
use crate::swap::{copy_rows, count_class};
use crate::types::{ConstraintWeights, Lesson, LessonId, Placement, Problem, SchoolClassId, Subject, SubjectId, TeacherId, TimeBlockId};
use crate::vecmap::{map_find, map_get};

verus! {

proof fn lemma_count_dec_le(o: Option<u8>, n: nat)
    ensures
        count_or_zero(crate::state::count_dec_n(o, n)) <= count_or_zero(o),
{
}

proof fn lemma_occ_le(cs: Seq<SchoolClassId>, c: SchoolClassId)
    ensures
        occ(cs, c) <= cs.len(),
    decreases cs.len(),
{
    if cs.len() > 0 {
        lemma_occ_le(cs.drop_last(), c);
    }
}

fn copy_vec<T: Copy>(v: &Vec<T>) -> (r: Vec<T>)
    ensures
        r@ == v@,
{
    let mut r: Vec<T> = Vec::new();
    let mut j: usize = 0;
    while j < v.len()
        invariant
            j <= v@.len(),
            r@ == v@.take(j as int),
        decreases v@.len() - j,
    {
        r.push(v[j]);
        proof {
            assert(v@.take(j + 1) =~= v@.take(j as int).push(v@[j as int]));
        }
        j = j + 1;
    }
    proof {
        assert(v@.take(v@.len() as int) =~= v@);
    }
    r
}

fn copy_partition(p: &Partition) -> (r: Partition)
    requires
        p.wf(),
    ensures
        r.wf(),
{
    let mut entries: Vec<PartEntry> = Vec::new();
    let mut j: usize = 0;
    while j < p.entries.len()
        invariant
            j <= p.entries@.len(),
            p.wf(),
            entries@.len() == j,
            forall|i: int|
                0 <= i < j ==> (#[trigger] entries@[i]).owner == p.entries@[i].owner && entries@[i].day
                    == p.entries@[i].day && entries@[i].positions@ == p.entries@[i].positions@,
        decreases p.entries@.len() - j,
    {
        let e = &p.entries[j];
        let positions = copy_vec(&e.positions);
        entries.push(PartEntry { owner: e.owner, day: e.day, positions });
        j = j + 1;
    }
    let r = Partition { entries };
    proof {
        assert(r.keys() =~= p.keys());
        assert forall|i: int| 0 <= i < r.entries@.len() implies crate::positions::strictly_sorted(
            #[trigger] r.entries@[i].positions@,
        ) by {
            assert(crate::positions::strictly_sorted(p.entries@[i].positions@));
        }
    }
    r
}

/// A copy of the bookkeeping: every table holds the same entries.
fn copy_state(s: &GreedyState) -> (r: GreedyState)
    requires
        s.wf(),
    ensures
        r.wf(),
        r.class_subject_teacher@ == s.class_subject_teacher@,
        r.soft_pinned_blocks@ == s.soft_pinned_blocks@,
        r.lessons_by_class_day@ == s.lessons_by_class_day@,
        r.subject_hours_by_class_day@ == s.subject_hours_by_class_day@,
{
    GreedyState {
        used_teacher: copy_vec(&s.used_teacher),
        used_class: copy_vec(&s.used_class),
        used_room: copy_vec(&s.used_room),
        class_positions: copy_partition(&s.class_positions),
        teacher_positions: copy_partition(&s.teacher_positions),
        hours_by_teacher: copy_vec(&s.hours_by_teacher),
        locked_room: copy_vec(&s.locked_room),
        subject_hours_by_class_day: copy_vec(&s.subject_hours_by_class_day),
        lessons_by_class_day: copy_vec(&s.lessons_by_class_day),
        class_subject_teacher: copy_vec(&s.class_subject_teacher),
        search_score_slice: s.search_score_slice,
        canonical_score: s.canonical_score,
        soft_pinned_blocks: copy_vec(&s.soft_pinned_blocks),
    }
}

/// The chain members in ascending order of lesson id.
fn sort_members(c: &Vec<(LessonId, u8)>) -> (r: Vec<(LessonId, u8)>)
    ensures
        forall|k: int| 0 <= k < r@.len() ==> c@.contains(#[trigger] r@[k]),
{
    let mut r: Vec<(LessonId, u8)> = Vec::new();
    let mut i: usize = 0;
    while i < c.len()
        invariant
            i <= c@.len(),
            forall|k: int| 0 <= k < r@.len() ==> c@.contains(#[trigger] r@[k]),
        decreases c.len() - i,
    {
        let x = c[i];
        let mut j: usize = 0;
        while j < r.len() && r[j].0.0 <= x.0.0
            invariant
                j <= r@.len(),
            decreases r.len() - j,
        {
            j = j + 1;
        }
        let ghost before = r@;
        r.insert(j, x);
        proof {
            assert(c@[i as int] == x);
            assert forall|k: int| 0 <= k < r@.len() implies c@.contains(#[trigger] r@[k]) by {
                if k < j {
                    assert(r@[k] == before[k]);
                } else if k == j {
                    assert(r@[k] == x);
                } else {
                    assert(r@[k] == before[k - 1]);
                }
            }
        }
        i = i + 1;
    }
    r
}

/// The rows of lessons outside the chain `c` are the same before and after.
pub open spec fn others_kept(ps0: Seq<Placement>, ps1: Seq<Placement>, c: Seq<(LessonId, u8)>) -> bool {
    forall|r: Placement| !crate::kempe::chain_has(c, r.lesson_id) ==> (#[trigger] ps1.contains(r) <==> ps0.contains(r))
}

proof fn lemma_kept_rows_contains(ps: Seq<Placement>, tbs: Seq<crate::types::TimeBlock>, lid: LessonId, day: u8, r: Placement)
    ensures
        crate::state::kept_rows(ps, tbs, lid, day).contains(r) <==> ps.contains(r) && !crate::state::on_day(tbs, lid, day, r),
    decreases ps.len(),
{
    if ps.len() > 0 {
        let t = ps.drop_first();
        lemma_kept_rows_contains(t, tbs, lid, day, r);
        let head: Seq<Placement> = if crate::state::on_day(tbs, lid, day, ps[0]) {
            Seq::<Placement>::empty()
        } else {
            seq![ps[0]]
        };
        let k = crate::state::kept_rows(ps, tbs, lid, day);
        assert(k == head + crate::state::kept_rows(t, tbs, lid, day));
        assert(ps =~= seq![ps[0]] + t);
        if k.contains(r) {
            let i = choose|i: int| 0 <= i < k.len() && k[i] == r;
            if i < head.len() {
                assert(ps[0] == r);
            } else {
                assert(crate::state::kept_rows(t, tbs, lid, day)[i - head.len()] == r);
                let j = choose|j: int| 0 <= j < t.len() && t[j] == r;
                assert(ps[j + 1] == r);
            }
        }
        if ps.contains(r) && !crate::state::on_day(tbs, lid, day, r) {
            let i = choose|i: int| 0 <= i < ps.len() && ps[i] == r;
            if i == 0 {
                assert(k[0] == r);
            } else {
                assert(t[i - 1] == r);
                let j = choose|j: int| 0 <= j < crate::state::kept_rows(t, tbs, lid, day).len() && crate::state::kept_rows(t, tbs, lid, day)[j] == r;
                assert(k[head.len() + j] == r);
            }
        }
    }
}

proof fn lemma_append_block_keeps_others(
    ps: Seq<Placement>,
    rows: Seq<Placement>,
    lid: LessonId,
    r: Placement,
)
    requires
        forall|k: int| 0 <= k < rows.len() ==> (#[trigger] rows[k]).lesson_id == lid,
        r.lesson_id != lid,
    ensures
        (ps + rows).contains(r) <==> ps.contains(r),
{
    if (ps + rows).contains(r) {
        let i = choose|i: int| 0 <= i < (ps + rows).len() && (ps + rows)[i] == r;
        if i >= ps.len() {
            assert(rows[i - ps.len()] == r);
        } else {
            assert(ps[i] == r);
        }
    }
    if ps.contains(r) {
        let i = choose|i: int| 0 <= i < ps.len() && ps[i] == r;
        assert((ps + rows)[i] == r);
    }
}

/// The member's block fits every counter it adds to: the teacher's hours,
/// and per member class the day's lock, subject hours and block count.
fn block_fits_exec(st: &GreedyState, lesson: &Lesson, dest: u8, teacher: TeacherId) -> (b: bool)
    requires
        st.wf(),
        lesson.school_class_ids@.len() <= i32::MAX,
    ensures
        b == block_fits(*st, *lesson, dest, teacher),
{
    let n = lesson.preferred_block_size as u64;
    let hours: u64 = match map_find(&st.hours_by_teacher, &teacher) {
        Some(j) => st.hours_by_teacher[j].1 as u64,
        None => 0,
    };
    if hours + n > 0xffff_ffff {
        return false;
    }
    let cs = &lesson.school_class_ids;
    let mut i: usize = 0;
    while i < cs.len()
        invariant
            i <= cs@.len(),
            st.wf(),
            cs@ == lesson.school_class_ids@,
            cs@.len() <= i32::MAX,
            n == lesson.preferred_block_size,
            forall|k: int|
                0 <= k < i ==> {
                    let c = #[trigger] cs@[k];
                    let m = lesson.preferred_block_size as nat;
                    &&& fits_lock(map_get(st.locked_room@, (c, dest, lesson.subject_id)), m * occ(cs@, c))
                    &&& fits_u8(map_get(st.subject_hours_by_class_day@, (c, dest, lesson.subject_id)), m * occ(cs@, c))
                    &&& fits_u8(map_get(st.lessons_by_class_day@, (c, dest)), occ(cs@, c))
                },
        decreases cs@.len() - i,
    {
        let c = cs[i];
        let o = count_class(cs, c);
        proof {
            lemma_occ_le(cs@, c);
            assert(n * o <= 255 * 0x7fff_ffff) by (nonlinear_arith)
                requires
                    n <= 255,
                    o <= 0x7fff_ffff,
            ;
        }
        let no = n * o;
        let lock: u64 = match map_find(&st.locked_room, &(c, dest, lesson.subject_id)) {
            Some(j) => st.locked_room[j].1.1 as u64,
            None => 0,
        };
        if lock + no > 0xffff_ffff {
            proof {
                assert(cs@.contains(c));
                assert(!fits_lock(map_get(st.locked_room@, (c, dest, lesson.subject_id)), (lesson.preferred_block_size as nat) * occ(cs@, c)));
            }
            return false;
        }
        let hrs: u64 = match map_find(&st.subject_hours_by_class_day, &(c, dest, lesson.subject_id)) {
            Some(j) => st.subject_hours_by_class_day[j].1 as u64,
            None => 0,
        };
        if hrs + no > 0xff {
            proof {
                assert(cs@.contains(c));
                assert(!fits_u8(map_get(st.subject_hours_by_class_day@, (c, dest, lesson.subject_id)), (lesson.preferred_block_size as nat) * occ(cs@, c)));
            }
            return false;
        }
        let blocks: u64 = match map_find(&st.lessons_by_class_day, &(c, dest)) {
            Some(j) => st.lessons_by_class_day[j].1 as u64,
            None => 0,
        };
        if blocks + o > 0xff {
            proof {
                assert(cs@.contains(c));
            }
            return false;
        }
        i = i + 1;
    }
    proof {
        assert forall|c: SchoolClassId| #[trigger] cs@.contains(c) implies {
            let m = lesson.preferred_block_size as nat;
            &&& fits_lock(map_get(st.locked_room@, (c, dest, lesson.subject_id)), m * occ(cs@, c))
            &&& fits_u8(map_get(st.subject_hours_by_class_day@, (c, dest, lesson.subject_id)), m * occ(cs@, c))
            &&& fits_u8(map_get(st.lessons_by_class_day@, (c, dest)), occ(cs@, c))
        } by {
            let k = choose|k: int| 0 <= k < cs@.len() && cs@[k] == c;
            assert(cs@[k] == c);
        }
    }
    true
}

/// The daily caps at the destination: per member class, the subject's
/// hours stay within the subject's daily maximum and, where the class has a
/// cap, one more block stays within the cap.
fn caps_hold(
    st: &GreedyState,
    lesson: &Lesson,
    dest: u8,
    max_hours: u8,
    class_max_lessons_per_day: &Vec<(SchoolClassId, u8)>,
) -> (b: bool)
    ensures
        b ==> forall|c: SchoolClassId|
            #[trigger] lesson.school_class_ids@.contains(c) ==> match map_get(class_max_lessons_per_day@, c) {
                Some(cap) => count_or_zero(map_get(st.lessons_by_class_day@, (c, dest))) + 1 <= cap,
                None => true,
            },
        b ==> forall|c: SchoolClassId|
            #[trigger] lesson.school_class_ids@.contains(c) ==> count_or_zero(
                map_get(st.subject_hours_by_class_day@, (c, dest, lesson.subject_id)),
            ) + lesson.preferred_block_size <= max_hours,
{
    let n = lesson.preferred_block_size as u16;
    let cs = &lesson.school_class_ids;
    let mut i: usize = 0;
    while i < cs.len()
        invariant
            n <= 255,
            i <= cs@.len(),
            cs@ == lesson.school_class_ids@,
            forall|k: int|
                0 <= k < i ==> match map_get(class_max_lessons_per_day@, #[trigger] cs@[k]) {
                    Some(cap) => count_or_zero(map_get(st.lessons_by_class_day@, (cs@[k], dest))) + 1 <= cap,
                    None => true,
                },
            n == lesson.preferred_block_size,
            forall|k: int|
                0 <= k < i ==> count_or_zero(map_get(st.subject_hours_by_class_day@, (#[trigger] cs@[k], dest, lesson.subject_id)))
                    + lesson.preferred_block_size <= max_hours,
        decreases cs@.len() - i,
    {
        let c = cs[i];
        let hrs: u16 = match table_get_u8(&st.subject_hours_by_class_day, &(c, dest, lesson.subject_id)) {
            Some(h) => h as u16,
            None => 0,
        };
        if hrs + n > max_hours as u16 {
            return false;
        }
        match table_get_u8(class_max_lessons_per_day, &c) {
            Some(cap) => {
                let today: u16 = match table_get_u8(&st.lessons_by_class_day, &(c, dest)) {
                    Some(t) => t as u16,
                    None => 0,
                };
                if today + 1 > cap as u16 {
                    return false;
                }
            },
            None => {},
        }
        i = i + 1;
    }
    proof {
        assert forall|c: SchoolClassId| #[trigger] lesson.school_class_ids@.contains(c) implies match map_get(
            class_max_lessons_per_day@,
            c,
        ) {
            Some(cap) => count_or_zero(map_get(st.lessons_by_class_day@, (c, dest))) + 1 <= cap,
            None => true,
        } by {
            let k = choose|k: int| 0 <= k < cs@.len() && cs@[k] == c;
            assert(cs@[k] == c);
        }
        assert forall|c: SchoolClassId| #[trigger] lesson.school_class_ids@.contains(c) implies count_or_zero(
            map_get(st.subject_hours_by_class_day@, (c, dest, lesson.subject_id)),
        ) + lesson.preferred_block_size <= max_hours by {
            let k = choose|k: int| 0 <= k < cs@.len() && cs@[k] == c;
            assert(cs@[k] == c);
        }
    }
    true
}

/// Every class with a daily cap in `caps` that kept within it in
/// `before` keeps within it in `after` (block counts per class and day).
pub open spec fn caps_kept(
    caps: Seq<(SchoolClassId, u8)>,
    before: Seq<((SchoolClassId, u8), u8)>,
    after: Seq<((SchoolClassId, u8), u8)>,
) -> bool {
    forall|c: SchoolClassId, d: u8|
        #![trigger map_get(after, (c, d))]
        match map_get(caps, c) {
            Some(cap) => count_or_zero(map_get(before, (c, d))) <= cap ==> count_or_zero(map_get(after, (c, d))) <= cap,
            None => true,
        }
}

/// Every class that kept within a subject's daily hour cap in `before`
/// keeps within it in `after` (hours per class, day and subject; the cap is
/// the subject's `max_hours_per_day`).
pub open spec fn hours_kept(
    subjects: Seq<Subject>,
    before: Seq<((SchoolClassId, u8, SubjectId), u8)>,
    after: Seq<((SchoolClassId, u8, SubjectId), u8)>,
) -> bool {
    forall|c: SchoolClassId, d: u8, sj: SubjectId|
        #![trigger map_get(after, (c, d, sj))]
        subject_index(subjects, sj) >= 0 ==> {
            let cap = subjects[subject_index(subjects, sj)].max_hours_per_day;
            count_or_zero(map_get(before, (c, d, sj))) <= cap ==> count_or_zero(map_get(after, (c, d, sj))) <= cap
        }
}

/// No lesson lists a class twice.
pub open spec fn class_lists_distinct(problem: Problem) -> bool {
    forall|i: int| 0 <= i < problem.lessons@.len() ==> (#[trigger] problem.lessons@[i]).school_class_ids@.no_duplicates()
}

/// The caller's travel verdict for a lesson: the first entry for it, and
/// false when there is none.
fn travel_ok(travel_clear: &Vec<(LessonId, bool)>, id: LessonId) -> (b: bool)
    ensures
        b == exists|i: int|
            0 <= i < travel_clear@.len() && (#[trigger] travel_clear@[i]).0 == id && travel_clear@[i].1 && forall|j: int|
                0 <= j < i ==> (#[trigger] travel_clear@[j]).0 != id,
{
    let mut i: usize = 0;
    while i < travel_clear.len()
        invariant
            i <= travel_clear@.len(),
            forall|j: int| 0 <= j < i ==> (#[trigger] travel_clear@[j]).0 != id,
        decreases travel_clear@.len() - i,
    {
        if travel_clear[i].0.0 == id.0 {
            return travel_clear[i].1;
        }
        i = i + 1;
    }
    false
}

/// Every offset of the member's window at `(day, start ..)` has a block.
fn window_present(slots: &Vec<((u8, u8), TimeBlockId)>, day: u8, start: u8, n: u8) -> (b: bool)
    requires
        start + n <= 256,
    ensures
        b ==> forall|k: int| 0 <= k < n ==> (#[trigger] window_slot(slots@, day, start, k)) is Some,
{
    let mut k: u8 = 0;
    while k < n
        invariant
            k <= n,
            start + n <= 256,
            forall|m: int| 0 <= m < k ==> (#[trigger] window_slot(slots@, day, start, m)) is Some,
        decreases n - k,
    {
        if lookup_slot(slots, (day, start + k)).is_none() {
            return false;
        }
        k = k + 1;
    }
    true
}

/// Index of the first row of lesson `id` whose block lies on `day`.
fn first_row_on_day(problem: &Problem, ps: &Vec<Placement>, id: LessonId, day: u8) -> (r: Option<usize>)
    ensures
        match r {
            Some(i) => i < ps@.len() && tb_index(problem.time_blocks@, ps@[i as int].time_block_id) >= 0,
            None => true,
        },
{
    let mut i: usize = 0;
    while i < ps.len()
        decreases ps@.len() - i,
    {
        if ps[i].lesson_id.0 == id.0 {
            match find_tb(&problem.time_blocks, ps[i].time_block_id) {
                Some(t) => {
                    if problem.time_blocks[t].day_of_week == day {
                        return Some(i);
                    }
                },
                None => {},
            }
        }
        i = i + 1;
    }
    None
}

/// Every lesson fits its block behind every time-block position without
/// passing position 255, and every lesson's teacher is known from the lock
/// table or the lesson itself.
pub open spec fn kempe_inputs_ok(problem: Problem, s: GreedyState) -> bool {
    &&& forall|i: int, j: int|
        0 <= i < problem.lessons@.len() && 0 <= j < problem.time_blocks@.len() ==> (#[trigger] problem.time_blocks@[j]).position
            + (#[trigger] problem.lessons@[i]).preferred_block_size <= 256
    &&& forall|i: int|
        0 <= i < problem.lessons@.len() ==> teacher_known(s.class_subject_teacher@, #[trigger] problem.lessons@[i])
    &&& forall|i: int| 0 <= i < problem.lessons@.len() ==> (#[trigger] problem.lessons@[i]).school_class_ids@.len() <= i32::MAX
}

/// What `kempe_attempt` leaves, from `(ps0, s0)` to `(ps1, s1)`, answering
/// `accepted`: its postcondition.
pub open spec fn kempe_move_post(
    problem: Problem,
    idx: Indexed,
    weights: ConstraintWeights,
    anchor_draw: usize,
    day_draw: u8,
    travel_clear: Seq<(LessonId, bool)>,
    tb_by_day_pos: Seq<((u8, u8), TimeBlockId)>,
    pinned: Seq<LessonId>,
    room_order: Seq<usize>,
    class_max_lessons_per_day: Seq<(SchoolClassId, u8)>,
    lahc_list: Seq<u32>,
    iter: u64,
    max_chain: usize,
    ps0: Seq<Placement>,
    s0: GreedyState,
    ps1: Seq<Placement>,
    s1: GreedyState,
    accepted: bool,
) -> bool {
    &&& (s1.wf())
    &&& (!accepted ==> ps1 == ps0 && s1 == s0)
    &&& (accepted ==> {
            &&& s1.canonical_score == score_spec(
                problem,
                ps1,
                weights,
                s0.soft_pinned_blocks@,
            )
            &&& s1.search_score_slice == slice_spec(problem, ps1, weights)
            &&& (s1.canonical_score <= s0.canonical_score || s1.canonical_score
                <= lahc_list[(iter % 500) as int])
            &&& s1.soft_pinned_blocks@ == s0.soft_pinned_blocks@
            &&& s1.class_subject_teacher@ == s0.class_subject_teacher@
            &&& exists|c: Seq<(LessonId, u8)>, seed: LessonId, src: u8, dest: u8, start: u8|
                crate::kempe::valid_kempe_chain(
                    s0.class_subject_teacher@,
                    problem.lessons@,
                    problem.time_blocks@,
                    ps0,
                    tb_by_day_pos,
                    pinned,
                    seed,
                    src,
                    dest,
                    start,
                    max_chain,
                    c,
                ) && others_kept(ps0, ps1, c)
        })
}

/// What `kempe_attempt` needs of `(ps0, s0)`: its precondition.
pub open spec fn kempe_move_ready(
    problem: Problem,
    idx: Indexed,
    weights: ConstraintWeights,
    anchor_draw: usize,
    day_draw: u8,
    travel_clear: Seq<(LessonId, bool)>,
    tb_by_day_pos: Seq<((u8, u8), TimeBlockId)>,
    pinned: Seq<LessonId>,
    room_order: Seq<usize>,
    class_max_lessons_per_day: Seq<(SchoolClassId, u8)>,
    lahc_list: Seq<u32>,
    iter: u64,
    max_chain: usize,
    ps0: Seq<Placement>,
    s0: GreedyState,
) -> bool {
    &&& (s0.wf())
    &&& (s0.soft_pinned_blocks@.no_duplicates())
    &&& (day_draw < 7)
    &&& (ps0.len() <= u32::MAX)
    &&& (lahc_list.len() == 500)
    &&& (forall|i: int| 0 <= i < room_order.len() ==> #[trigger] room_order[i] < problem.rooms@.len())
    &&& (kempe_inputs_ok(problem, s0))
}

/// Run one Kempe-chain attempt. The anchored block is `anchor_draw` among
/// the anchors `rr_collect_anchors` lists (an out-of-range draw is
/// rejected) and the target day comes from `day_draw` in `0..7`, skipping
/// the anchor's day. The chain is built by `kempe_build_chain`; its
/// members, in ascending order of lesson id, are taken out of their days
/// and then each put at its window on the other day, in the room
/// `kempe_pick_room` picks, provided the subject's and the class's daily
/// caps hold, the caller's travel verdict for the lesson (`travel_clear`,
/// first entry per lesson; none counts as blocked) is clear and every
/// counter it adds to fits. The result is scored afresh and kept when the
/// score does not exceed the current canonical score or the
/// late-acceptance entry of iteration `iter`; a chain that aborts, a
/// member that cannot be placed, a result that cannot be scored or a
/// rejected score leaves placements and bookkeeping as they were.
pub fn kempe_attempt(
    problem: &Problem,
    idx: &Indexed,
    weights: &ConstraintWeights,
    anchor_draw: usize,
    day_draw: u8,
    travel_clear: &Vec<(LessonId, bool)>,
    tb_by_day_pos: &Vec<((u8, u8), TimeBlockId)>,
    pinned: &Vec<LessonId>,
    placements: &mut Vec<Placement>,
    state: &mut GreedyState,
    room_order: &Vec<usize>,
    class_max_lessons_per_day: &Vec<(SchoolClassId, u8)>,
    lahc_list: &[u32],
    iter: u64,
    max_chain: usize,
) -> (accepted: bool)
    requires
        old(state).wf(),
        old(state).soft_pinned_blocks@.no_duplicates(),
        day_draw < 7,
        old(placements)@.len() <= u32::MAX,
        lahc_list@.len() == 500,
        forall|i: int| 0 <= i < room_order@.len() ==> #[trigger] room_order@[i] < problem.rooms@.len(),
        kempe_inputs_ok(*problem, *old(state)),
    ensures
        final(state).wf(),
        !accepted ==> final(placements)@ == old(placements)@ && *final(state) == *old(state),
        accepted ==> {
            &&& final(state).canonical_score == score_spec(
                *problem,
                final(placements)@,
                *weights,
                old(state).soft_pinned_blocks@,
            )
            &&& final(state).search_score_slice == slice_spec(*problem, final(placements)@, *weights)
            &&& (final(state).canonical_score <= old(state).canonical_score || final(state).canonical_score
                <= lahc_list@[(iter % 500) as int])
            &&& final(state).soft_pinned_blocks@ == old(state).soft_pinned_blocks@
            &&& final(state).class_subject_teacher@ == old(state).class_subject_teacher@
            &&& class_lists_distinct(*problem) ==> caps_kept(
                class_max_lessons_per_day@,
                old(state).lessons_by_class_day@,
                final(state).lessons_by_class_day@,
            )
            &&& class_lists_distinct(*problem) ==> hours_kept(
                problem.subjects@,
                old(state).subject_hours_by_class_day@,
                final(state).subject_hours_by_class_day@,
            )
            &&& forall|r: Placement|
                #[trigger] final(placements)@.contains(r) && !old(placements)@.contains(r) ==> suits(
                    idx.room_subject@,
                    r.room_id.0,
                    row_lesson(problem.lessons@, r).subject_id.0,
                ) && !idx.room_blocked@.contains((r.room_id.0, r.time_block_id.0)) && travel_clear@.contains((r.lesson_id, true))
            &&& exists|c: Seq<(LessonId, u8)>, seed: LessonId, src: u8, dest: u8, start: u8|
                crate::kempe::valid_kempe_chain(
                    old(state).class_subject_teacher@,
                    problem.lessons@,
                    problem.time_blocks@,
                    old(placements)@,
                    tb_by_day_pos@,
                    pinned@,
                    seed,
                    src,
                    dest,
                    start,
                    max_chain,
                    c,
                ) && others_kept(old(placements)@, final(placements)@, c)
        },
        kempe_move_post(*problem, *idx, *weights, anchor_draw, day_draw, travel_clear@, tb_by_day_pos@, pinned@, room_order@, class_max_lessons_per_day@, lahc_list@, iter, max_chain, old(placements)@, *old(state), final(placements)@, *final(state), accepted),
{
    let anchors = rr_collect_anchors(placements.as_slice(), &problem.lessons, &problem.time_blocks, pinned);
    if anchors.len() == 0 || anchor_draw >= anchors.len() {
        return false;
    }
    let (seed_id, source_day) = anchors[anchor_draw];
    let dest_day: u8 = if day_draw >= source_day {
        let candidate = day_draw + 1;
        if candidate >= 7 {
            if source_day > 0 {
                source_day - 1
            } else {
                return false;
            }
        } else {
            candidate
        }
    } else {
        day_draw
    };
    if dest_day == source_day {
        return false;
    }
    let seed_li = match find_lesson(&problem.lessons, seed_id) {
        Some(li) => li,
        None => {
            return false;
        },
    };
    // Lowest position of the seed's rows on the source day.
    let mut start_ti: Option<usize> = None;
    let mut i: usize = 0;
    while i < placements.len()
        invariant
            match start_ti {
                Some(t) => t < problem.time_blocks@.len(),
                None => true,
            },
        decreases placements@.len() - i,
    {
        if placements[i].lesson_id.0 == seed_id.0 {
            match find_tb(&problem.time_blocks, placements[i].time_block_id) {
                Some(t) => {
                    if problem.time_blocks[t].day_of_week == source_day {
                        start_ti = match start_ti {
                            None => Some(t),
                            Some(prev) => if problem.time_blocks[t].position < problem.time_blocks[prev].position {
                                Some(t)
                            } else {
                                Some(prev)
                            },
                        };
                    }
                },
                None => {},
            }
        }
        i = i + 1;
    }
    let sti = match start_ti {
        Some(t) => t,
        None => {
            return false;
        },
    };
    let start_pos = problem.time_blocks[sti].position;
    proof {
        assert forall|k: int| 0 <= k < problem.lessons@.len() implies start_pos + (
        #[trigger] problem.lessons@[k]).preferred_block_size <= 256 by {
            assert(problem.time_blocks@[sti as int].position + problem.lessons@[k].preferred_block_size <= 256);
        }
    }
    let chain = match kempe_build_chain(
        &state.class_subject_teacher,
        seed_id,
        source_day,
        dest_day,
        start_pos,
        placements.as_slice(),
        &problem.lessons,
        &problem.time_blocks,
        tb_by_day_pos,
        pinned,
        max_chain,
    ) {
        ChainBuild::Built(c) => c,
        ChainBuild::Aborted => {
            return false;
        },
    };
    let order = sort_members(&chain);
    let mut ps = copy_rows(placements);
    let mut st = copy_state(state);
    let ghost s0 = *state;
    let ghost p0 = placements@;
    // Take every member out of its source day.
    let mut snaps: Vec<(LessonId, Placement)> = Vec::new();
    let mut m: usize = 0;
    while m < order.len()
        invariant
            st.wf(),
            st.soft_pinned_blocks@ == s0.soft_pinned_blocks@,
            st.class_subject_teacher@ == s0.class_subject_teacher@,
            *state == s0,
            s0.wf(),
            placements@ == p0,
            forall|k: int| 0 <= k < order@.len() ==> chain@.contains(#[trigger] order@[k]),
            others_kept(p0, ps@, chain@),
            caps_kept(class_max_lessons_per_day@, s0.lessons_by_class_day@, st.lessons_by_class_day@),
            hours_kept(problem.subjects@, s0.subject_hours_by_class_day@, st.subject_hours_by_class_day@),
            forall|r: Placement| #[trigger] ps@.contains(r) ==> p0.contains(r),
        decreases order@.len() - m,
    {
        let (lid, dest) = order[m];
        let li = match find_lesson(&problem.lessons, lid) {
            Some(li) => li,
            None => {
                return false;
            },
        };
        let ghost before = ps@;
        proof {
            assert(chain@.contains(order@[m as int]));
            let q = choose|q: int| 0 <= q < chain@.len() && chain@[q] == order@[m as int];
            assert(chain@[q].0 == lid);
            assert(crate::kempe::chain_has(chain@, lid));
        }
        let src = if dest == dest_day {
            source_day
        } else {
            dest_day
        };
        let anchor_idx = match first_row_on_day(problem, &ps, lid, src) {
            Some(a) => a,
            None => {
                return false;
            },
        };
        let ghost st_before = st;
        let snap = rr_ruin_block(anchor_idx, &problem.lessons[li], &problem.time_blocks, &mut ps, &mut st);
        proof {
            assert forall|c: SchoolClassId, d: u8| #[trigger] map_get(st.lessons_by_class_day@, (c, d)) == map_get(st.lessons_by_class_day@, (c, d)) implies match map_get(class_max_lessons_per_day@, c) {
                Some(cap) => count_or_zero(map_get(s0.lessons_by_class_day@, (c, d))) <= cap ==> count_or_zero(map_get(st.lessons_by_class_day@, (c, d))) <= cap,
                None => true,
            } by {
                assert(match map_get(class_max_lessons_per_day@, c) {
                    Some(cap) => count_or_zero(map_get(s0.lessons_by_class_day@, (c, d))) <= cap ==> count_or_zero(map_get(st_before.lessons_by_class_day@, (c, d))) <= cap,
                    None => true,
                });
                lemma_count_dec_le(map_get(st_before.lessons_by_class_day@, (c, d)), occ(problem.lessons@[li as int].school_class_ids@, c));
            }
            assert forall|c: SchoolClassId, d: u8, sj: SubjectId| #[trigger] map_get(st.subject_hours_by_class_day@, (c, d, sj))
                == map_get(st.subject_hours_by_class_day@, (c, d, sj)) implies (subject_index(problem.subjects@, sj) >= 0 ==> {
                let cap = problem.subjects@[subject_index(problem.subjects@, sj)].max_hours_per_day;
                count_or_zero(map_get(s0.subject_hours_by_class_day@, (c, d, sj))) <= cap ==> count_or_zero(
                    map_get(st.subject_hours_by_class_day@, (c, d, sj)),
                ) <= cap
            }) by {
                assert(map_get(st_before.subject_hours_by_class_day@, (c, d, sj)) == map_get(
                    st_before.subject_hours_by_class_day@,
                    (c, d, sj),
                ));
                lemma_count_dec_le(
                    map_get(st_before.subject_hours_by_class_day@, (c, d, sj)),
                    snap.rows@.len() * occ(problem.lessons@[li as int].school_class_ids@, c),
                );
            }
            assert forall|r: Placement| !crate::kempe::chain_has(chain@, r.lesson_id) implies (#[trigger] ps@.contains(r)
                <==> p0.contains(r)) by {
                lemma_kept_rows_contains(before, problem.time_blocks@, lid, crate::state::ruin_day(problem.time_blocks@, before, anchor_idx as int), r);
                assert(before.contains(r) <==> p0.contains(r));
            }
            assert forall|r: Placement| #[trigger] ps@.contains(r) implies p0.contains(r) by {
                lemma_kept_rows_contains(before, problem.time_blocks@, lid, crate::state::ruin_day(problem.time_blocks@, before, anchor_idx as int), r);
            }
        }
        if snap.rows.len() == 0 {
            return false;
        }
        snaps.push((lid, snap.rows[0]));
        m = m + 1;
    }
    // Put every member at its window on the other day.
    let mut m: usize = 0;
    while m < order.len()
        invariant
            st.wf(),
            st.soft_pinned_blocks@ == s0.soft_pinned_blocks@,
            st.class_subject_teacher@ == s0.class_subject_teacher@,
            *state == s0,
            s0.wf(),
            placements@ == p0,
            forall|k: int| 0 <= k < order@.len() ==> chain@.contains(#[trigger] order@[k]),
            others_kept(p0, ps@, chain@),
            class_lists_distinct(*problem) ==> caps_kept(class_max_lessons_per_day@, s0.lessons_by_class_day@, st.lessons_by_class_day@),
            class_lists_distinct(*problem) ==> hours_kept(problem.subjects@, s0.subject_hours_by_class_day@, st.subject_hours_by_class_day@),
            forall|r: Placement|
                #[trigger] ps@.contains(r) && !p0.contains(r) ==> suits(
                    idx.room_subject@,
                    r.room_id.0,
                    row_lesson(problem.lessons@, r).subject_id.0,
                ) && !idx.room_blocked@.contains((r.room_id.0, r.time_block_id.0)) && travel_clear@.contains((r.lesson_id, true)),
            kempe_inputs_ok(*problem, s0),
            forall|k: int| 0 <= k < problem.lessons@.len() ==> start_pos + (#[trigger] problem.lessons@[k]).preferred_block_size <= 256,
            forall|i: int| 0 <= i < room_order@.len() ==> #[trigger] room_order@[i] < problem.rooms@.len(),
        decreases order@.len() - m,
    {
        let (lid, dest) = order[m];
        let li = match find_lesson(&problem.lessons, lid) {
            Some(li) => li,
            None => {
                return false;
            },
        };
        let lesson = &problem.lessons[li];
        let mut original_room = None;
        let mut k: usize = 0;
        while k < snaps.len()
            decreases snaps@.len() - k,
        {
            if original_room.is_none() && snaps[k].0.0 == lid.0 {
                original_room = Some(snaps[k].1.room_id);
            }
            k = k + 1;
        }
        let original_room = match original_room {
            Some(r) => r,
            None => {
                return false;
            },
        };
        proof {
            assert(teacher_known(st.class_subject_teacher@, problem.lessons@[li as int]));
            assert(start_pos + problem.lessons@[li as int].preferred_block_size <= 256);
        }
        let teacher = lesson_teacher_in_state(&st.class_subject_teacher, lesson);
        let n = lesson.preferred_block_size;
        if !window_present(tb_by_day_pos, dest, start_pos, n) {
            return false;
        }
        proof {
            assert forall|kk: int| 0 <= kk < n implies (#[trigger] slot_table_get(
                tb_by_day_pos@,
                (dest, (start_pos + kk) as u8),
            )) is Some by {
                assert(window_slot(tb_by_day_pos@, dest, start_pos, kk) is Some);
            }
        }
        let room = match kempe_pick_room(
            problem,
            idx,
            lesson,
            original_room,
            dest,
            start_pos,
            tb_by_day_pos,
            &st.locked_room,
            &st.used_room,
            room_order.as_slice(),
        ) {
            Some(r) => r,
            None => {
                return false;
            },
        };
        let si = match find_subject(&problem.subjects, lesson.subject_id) {
            Some(si) => si,
            None => {
                return false;
            },
        };
        if !caps_hold(&st, lesson, dest, problem.subjects[si].max_hours_per_day, class_max_lessons_per_day) {
            return false;
        }
        if !travel_ok(travel_clear, lid) {
            return false;
        }
        proof {
            assert(problem.lessons@[li as int].school_class_ids@.len() <= i32::MAX);
        }
        if !block_fits_exec(&st, lesson, dest, teacher) {
            return false;
        }
        let ghost before = ps@;
        proof {
            assert(chain@.contains(order@[m as int]));
            let q = choose|q: int| 0 <= q < chain@.len() && chain@[q] == order@[m as int];
            assert(chain@[q].0 == lid);
            assert(crate::kempe::chain_has(chain@, lid));
        }
        let ghost st_before = st;
        kempe_apply_block(lesson, dest, start_pos, room, teacher, tb_by_day_pos, &mut ps, &mut st);
        proof {
            if class_lists_distinct(*problem) {
                assert(problem.lessons@[li as int].school_class_ids@.no_duplicates());
                assert forall|c: SchoolClassId, d: u8| #[trigger] map_get(st.lessons_by_class_day@, (c, d)) == map_get(st.lessons_by_class_day@, (c, d)) implies match map_get(class_max_lessons_per_day@, c) {
                    Some(cap) => count_or_zero(map_get(s0.lessons_by_class_day@, (c, d))) <= cap ==> count_or_zero(map_get(st.lessons_by_class_day@, (c, d))) <= cap,
                    None => true,
                } by {
                    assert(match map_get(class_max_lessons_per_day@, c) {
                        Some(cap) => count_or_zero(map_get(s0.lessons_by_class_day@, (c, d))) <= cap ==> count_or_zero(map_get(st_before.lessons_by_class_day@, (c, d))) <= cap,
                        None => true,
                    });
                    crate::state::lemma_occ_nodup(lesson.school_class_ids@, c);
                    if d == dest && lesson.school_class_ids@.contains(c) {
                        assert(fits_u8(map_get(st_before.lessons_by_class_day@, (c, dest)), occ(lesson.school_class_ids@, c)));
                    }
                }
            }
            let rows = crate::state::block_rows(lesson.id, tb_by_day_pos@, dest, start_pos, n as nat, room, teacher);
            assert forall|r: Placement| !crate::kempe::chain_has(chain@, r.lesson_id) implies (#[trigger] ps@.contains(r)
                <==> p0.contains(r)) by {
                if r.lesson_id == lid {
                    assert(crate::kempe::chain_has(chain@, r.lesson_id));
                }
                lemma_append_block_keeps_others(before, rows, lid, r);
                assert(before.contains(r) <==> p0.contains(r));
            }
            assert forall|r: Placement| #[trigger] ps@.contains(r) && !p0.contains(r) implies suits(
                idx.room_subject@,
                r.room_id.0,
                row_lesson(problem.lessons@, r).subject_id.0,
            ) && !idx.room_blocked@.contains((r.room_id.0, r.time_block_id.0)) && travel_clear@.contains((r.lesson_id, true)) by {
                assert(ps@ == before + rows);
                let t = choose|t: int|
                    0 <= t < travel_clear@.len() && (#[trigger] travel_clear@[t]).0 == lid && travel_clear@[t].1 && forall|j: int|
                        0 <= j < t ==> (#[trigger] travel_clear@[j]).0 != lid;
                assert(travel_clear@[t] == (lid, true));
                let i = choose|i: int| 0 <= i < ps@.len() && ps@[i] == r;
                if i >= before.len() {
                    let k = i - before.len();
                    assert(rows[k] == r);
                    assert(slot_table_get(tb_by_day_pos@, (dest, (start_pos + k) as u8)) == slot_table_get(tb_by_day_pos@, (dest, (start_pos + k) as u8)));
                } else {
                    assert(before[i] == r);
                    assert(before.contains(r));
                }
            }
            if class_lists_distinct(*problem) {
                assert forall|c: SchoolClassId, d: u8, sj: SubjectId| #[trigger] map_get(st.subject_hours_by_class_day@, (c, d, sj))
                    == map_get(st.subject_hours_by_class_day@, (c, d, sj)) implies (subject_index(problem.subjects@, sj) >= 0 ==> {
                    let cap = problem.subjects@[subject_index(problem.subjects@, sj)].max_hours_per_day;
                    count_or_zero(map_get(s0.subject_hours_by_class_day@, (c, d, sj))) <= cap ==> count_or_zero(
                        map_get(st.subject_hours_by_class_day@, (c, d, sj)),
                    ) <= cap
                }) by {
                    assert(map_get(st_before.subject_hours_by_class_day@, (c, d, sj)) == map_get(
                        st_before.subject_hours_by_class_day@,
                        (c, d, sj),
                    ));
                    crate::state::lemma_occ_nodup(lesson.school_class_ids@, c);
                    if d == dest && sj == lesson.subject_id && lesson.school_class_ids@.contains(c) {
                        assert(fits_u8(
                            map_get(st_before.subject_hours_by_class_day@, (c, dest, lesson.subject_id)),
                            lesson.preferred_block_size as nat * occ(lesson.school_class_ids@, c),
                        ));
                    }
                }
            }
        }
        m = m + 1;
    }
    if !score_inputs_ok_exec(problem, ps.as_slice(), weights, st.soft_pinned_blocks.as_slice()) {
        return false;
    }
    let nc = score_solution(problem, ps.as_slice(), weights, st.soft_pinned_blocks.as_slice());
    let prior = lahc_list[(iter % 500) as usize];
    if !(nc <= state.canonical_score || nc <= prior) {
        return false;
    }
    let nslice = slice_recompute(problem, ps.as_slice(), weights);
    st.canonical_score = nc;
    st.search_score_slice = nslice;
    proof {
        assert(crate::kempe::valid_kempe_chain(
            s0.class_subject_teacher@,
            problem.lessons@,
            problem.time_blocks@,
            p0,
            tb_by_day_pos@,
            pinned@,
            seed_id,
            source_day,
            dest_day,
            start_pos,
            max_chain,
            chain@,
        ));
        assert(others_kept(p0, ps@, chain@));
    }
    *placements = ps;
    *state = st;
    true
}

} // verus!
