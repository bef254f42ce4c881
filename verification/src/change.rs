//! The one-hour Change move of the local search: move one lesson-hour to
//! another block, keeping its room when feasible and else taking the
//! lowest-ordered feasible room, and accept it under the late-acceptance
//! gate on the canonical score.

use vstd::prelude::*;

use crate::index::{suits, Indexed};
use crate::kempe::contains_lesson;
use crate::lahc::{
    change_move_delta_spec, day_table_get, lookup_day, pick_room, pick_room_spec, score_after_change_move,
};
use crate::lookup::{days_spec, find_lesson, find_subject, find_tb, lesson_index, subject_index, tb_index};
use crate::partition::Partition;
use crate::repair::{home_delta, row_lesson};
use crate::score::{
    class_balance_spec, class_balance_swap_spec, class_day_balance_cost_for_class,
    class_day_balance_cost_for_class_with_swap, subject_pref_spec, subject_preference_score,
};
use crate::state::{apply_change_move, change_applied, fits_lock, fits_u8, occ, row_block, set_contains, GreedyState};
use crate::score::{worst_class_interior_gaps, worst_class_spread, worst_interior_spec, worst_spread_spec};
use crate::types::{
    ConstraintWeights, Lesson, LessonId, Placement, Problem, RoomId, SchoolClassId, Subject, SubjectId, TimeBlock,
    TimeBlockKind,
};
use crate::vecmap::map_get;

verus! {

/// The daily hour cap of a subject: that of the first subject with the
/// identifier, `u8::MAX` when there is none.
pub open spec fn first_subject_cap(ss: Seq<Subject>, id: SubjectId) -> u8
    decreases ss.len(),
{
    if ss.len() == 0 {
        u8::MAX
    } else if ss[0].id == id {
        ss[0].max_hours_per_day
    } else {
        first_subject_cap(ss.drop_first(), id)
    }
}

/// One more, saturating at `u8::MAX`.
pub open spec fn sat_inc_u8(v: u8) -> u8 {
    if v == 255 {
        255
    } else {
        (v + 1) as u8
    }
}

/// A counter's value, zero when absent.
pub open spec fn count_or_zero(o: Option<u8>) -> u8 {
    match o {
        Some(v) => v,
        None => 0,
    }
}

/// One more hour of the lesson's subject and one more lesson on `new_day`
/// stay within class `c`'s caps.
pub open spec fn class_caps_allow(
    problem: Problem,
    s: GreedyState,
    caps: Seq<(SchoolClassId, u8)>,
    l: Lesson,
    c: SchoolClassId,
    new_day: u8,
) -> bool {
    &&& sat_inc_u8(count_or_zero(map_get(s.subject_hours_by_class_day@, (c, new_day, l.subject_id))))
        <= first_subject_cap(problem.subjects@, l.subject_id)
    &&& match map_get(caps, c) {
        Some(cap) => sat_inc_u8(count_or_zero(map_get(s.lessons_by_class_day@, (c, new_day)))) <= cap,
        None => true,
    }
}

/// A move to another day keeps every member class within its caps there.
pub open spec fn caps_allow(
    problem: Problem,
    s: GreedyState,
    caps: Seq<(SchoolClassId, u8)>,
    l: Lesson,
    old_day: u8,
    new_day: u8,
) -> bool {
    old_day == new_day || forall|i: int|
        0 <= i < l.school_class_ids@.len() ==> #[trigger] class_caps_allow(
            problem,
            s,
            caps,
            l,
            l.school_class_ids@[i],
            new_day,
        )
}

/// The same-room lock the destination imposes: scanning the classes, each
/// lock of `(class, new_day, subject)` fixes the room, except a lock that
/// holds only the `own` moving rows on their own day; `None` when two
/// locks disagree.
pub open spec fn dest_lock(
    locked: Seq<((SchoolClassId, u8, SubjectId), (RoomId, u32))>,
    cs: Seq<SchoolClassId>,
    new_day: u8,
    subject: SubjectId,
    same_day: bool,
    own: u32,
) -> Option<Option<RoomId>>
    decreases cs.len(),
{
    if cs.len() == 0 {
        Some(None)
    } else {
        match dest_lock(locked, cs.drop_last(), new_day, subject, same_day, own) {
            None => None,
            Some(cur) => match map_get(locked, (cs.last(), new_day, subject)) {
                Some(v) => if same_day && v.1 == own {
                    Some(cur)
                } else {
                    match cur {
                        None => Some(Some(v.0)),
                        Some(prev) => if prev != v.0 {
                            None
                        } else {
                            Some(cur)
                        },
                    }
                },
                None => Some(cur),
            },
        }
    }
}

/// Some member class is booked at block `tb`.
pub open spec fn class_busy(used_class: Seq<(u128, u128)>, cs: Seq<SchoolClassId>, tb: u128) -> bool {
    exists|i: int| 0 <= i < cs.len() && used_class.contains(((#[trigger] cs[i]).0, tb))
}

/// The room a Change move of row `i` to block `new_tb_idx` takes, or none
/// when the move is infeasible: the lesson is grouped or pinned, the block
/// is the row's own or a break, the teacher or a member class is booked or
/// the teacher blocked there, a cap on the new day would be exceeded, the
/// destination locks disagree, or no room is feasible (a lock fixes the
/// room).
pub open spec fn n1_room(
    problem: Problem,
    idx: Indexed,
    i: int,
    new_tb_idx: int,
    ps: Seq<Placement>,
    s: GreedyState,
    pinned: Seq<LessonId>,
    caps: Seq<(SchoolClassId, u8)>,
) -> Option<RoomId> {
    let p = ps[i];
    let l = row_lesson(problem.lessons@, p);
    let cs = l.school_class_ids@;
    let old_tb = row_block(problem.time_blocks@, p);
    let new_tb = problem.time_blocks@[new_tb_idx];
    if l.lesson_group_id is Some || pinned.contains(p.lesson_id) || new_tb.id == old_tb.id || new_tb.kind
        != TimeBlockKind::Lesson || s.used_teacher@.contains((p.teacher_id.0, new_tb.id.0)) || class_busy(
        s.used_class@,
        cs,
        new_tb.id.0,
    ) || idx.teacher_blocked@.contains((p.teacher_id.0, new_tb.id.0)) || !caps_allow(
        problem,
        s,
        caps,
        l,
        old_tb.day_of_week,
        new_tb.day_of_week,
    ) {
        None
    } else {
        match dest_lock(s.locked_room@, cs, new_tb.day_of_week, l.subject_id, old_tb.day_of_week == new_tb.day_of_week, 1) {
            None => None,
            Some(lock) => match pick_room_spec(problem.rooms@, idx, l.subject_id, p.room_id, new_tb.id, s.used_room@, lock) {
                None => None,
                Some(r) => match lock {
                    Some(lr) => if r != lr {
                        None
                    } else {
                        Some(r)
                    },
                    None => Some(r),
                },
            },
        }
    }
}

pub(crate) fn first_subject_cap_exec(ss: &Vec<Subject>, id: SubjectId) -> (cap: u8)
    ensures
        cap == first_subject_cap(ss@, id),
{
    proof {
        assert(ss@.subrange(0, ss@.len() as int) =~= ss@);
    }
    let mut j: usize = 0;
    while j < ss.len()
        invariant
            j <= ss@.len(),
            first_subject_cap(ss@, id) == first_subject_cap(ss@.subrange(j as int, ss@.len() as int), id),
        decreases ss@.len() - j,
    {
        proof {
            let rest = ss@.subrange(j as int, ss@.len() as int);
            assert(rest[0] == ss@[j as int]);
            assert(rest.drop_first() =~= ss@.subrange(j + 1, ss@.len() as int));
        }
        if ss[j].id == id {
            return ss[j].max_hours_per_day;
        }
        j = j + 1;
    }
    u8::MAX
}

pub(crate) fn table_get_u8<K: crate::vecmap::MapKey>(m: &Vec<(K, u8)>, k: &K) -> (r: Option<u8>)
    ensures
        r == map_get(m@, *k),
{
    proof {
        assert(m@.subrange(0, m@.len() as int) =~= m@);
    }
    let mut j: usize = 0;
    while j < m.len()
        invariant
            j <= m@.len(),
            map_get(m@, *k) == map_get(m@.subrange(j as int, m@.len() as int), *k),
        decreases m@.len() - j,
    {
        proof {
            let rest = m@.subrange(j as int, m@.len() as int);
            assert(rest[0] == m@[j as int]);
            assert(rest.drop_first() =~= m@.subrange(j + 1, m@.len() as int));
        }
        if m[j].0.key_eq(k) {
            return Some(m[j].1);
        }
        j = j + 1;
    }
    None
}


pub(crate) fn lock_get(
    m: &Vec<((SchoolClassId, u8, SubjectId), (RoomId, u32))>,
    k: &(SchoolClassId, u8, SubjectId),
) -> (r: Option<(RoomId, u32)>)
    ensures
        r == map_get(m@, *k),
{
    proof {
        assert(m@.subrange(0, m@.len() as int) =~= m@);
    }
    let mut j: usize = 0;
    while j < m.len()
        invariant
            j <= m@.len(),
            map_get(m@, *k) == map_get(m@.subrange(j as int, m@.len() as int), *k),
        decreases m@.len() - j,
    {
        proof {
            let rest = m@.subrange(j as int, m@.len() as int);
            assert(rest[0] == m@[j as int]);
            assert(rest.drop_first() =~= m@.subrange(j + 1, m@.len() as int));
        }
        if m[j].0.0.0 == k.0.0 && m[j].0.1 == k.1 && m[j].0.2.0 == k.2.0 {
            return Some(m[j].1);
        }
        j = j + 1;
    }
    None
}


pub(crate) fn class_busy_exec(used_class: &Vec<(u128, u128)>, cs: &Vec<SchoolClassId>, tb: u128) -> (b: bool)
    ensures
        b == class_busy(used_class@, cs@, tb),
{
    let mut i: usize = 0;
    while i < cs.len()
        invariant
            i <= cs@.len(),
            forall|j: int| 0 <= j < i ==> !used_class@.contains(((#[trigger] cs@[j]).0, tb)),
        decreases cs@.len() - i,
    {
        if set_contains(used_class, (cs[i].0, tb)) {
            return true;
        }
        i = i + 1;
    }
    false
}

fn caps_allow_exec(
    problem: &Problem,
    state: &GreedyState,
    caps: &Vec<(SchoolClassId, u8)>,
    lesson: &Lesson,
    old_day: u8,
    new_day: u8,
) -> (b: bool)
    ensures
        b == caps_allow(*problem, *state, caps@, *lesson, old_day, new_day),
{
    if old_day == new_day {
        return true;
    }
    let cs = &lesson.school_class_ids;
    let subject_cap = first_subject_cap_exec(&problem.subjects, lesson.subject_id);
    let mut i: usize = 0;
    while i < cs.len()
        invariant
            i <= cs@.len(),
            cs == &lesson.school_class_ids,
            old_day != new_day,
            subject_cap == first_subject_cap(problem.subjects@, lesson.subject_id),
            forall|j: int| 0 <= j < i ==> #[trigger] class_caps_allow(*problem, *state, caps@, *lesson, cs@[j], new_day),
        decreases cs@.len() - i,
    {
        let c = cs[i];
        let hours = match table_get_u8(&state.subject_hours_by_class_day, &(c, new_day, lesson.subject_id)) {
            Some(v) => v,
            None => 0,
        };
        if hours.saturating_add(1) > subject_cap {
            assert(!class_caps_allow(*problem, *state, caps@, *lesson, lesson.school_class_ids@[i as int], new_day));
            return false;
        }
        match table_get_u8(caps, &c) {
            Some(cap) => {
                let today = match table_get_u8(&state.lessons_by_class_day, &(c, new_day)) {
                    Some(v) => v,
                    None => 0,
                };
                if today.saturating_add(1) > cap {
                    assert(!class_caps_allow(*problem, *state, caps@, *lesson, lesson.school_class_ids@[i as int], new_day));
                    return false;
                }
            },
            None => {},
        }
        assert(class_caps_allow(*problem, *state, caps@, *lesson, cs@[i as int], new_day));
        i = i + 1;
    }
    true
}

pub(crate) fn dest_lock_exec(
    locked: &Vec<((SchoolClassId, u8, SubjectId), (RoomId, u32))>,
    cs: &Vec<SchoolClassId>,
    new_day: u8,
    subject: SubjectId,
    same_day: bool,
    own: u32,
) -> (r: Option<Option<RoomId>>)
    ensures
        r == dest_lock(locked@, cs@, new_day, subject, same_day, own),
{
    let mut cur: Option<RoomId> = None;
    let mut i: usize = 0;
    while i < cs.len()
        invariant
            i <= cs@.len(),
            dest_lock(locked@, cs@.take(i as int), new_day, subject, same_day, own) == Some(cur),
        decreases cs@.len() - i,
    {
        proof {
            assert(cs@.take(i + 1).drop_last() =~= cs@.take(i as int));
            assert(cs@.take(i + 1).last() == cs@[i as int]);
        }
        let key = (cs[i], new_day, subject);
        match lock_get(locked, &key) {
            Some(v) => {
                if !(same_day && v.1 == own) {
                    match cur {
                        None => {
                            cur = Some(v.0);
                        },
                        Some(prev) => {
                            if prev != v.0 {
                                proof {
                                    let t = cs@.take(i as int);
                                    let t1 = cs@.take(i + 1);
                                    assert(dest_lock(locked@, t1, new_day, subject, same_day, own) is None);
                                    lemma_dest_lock_none_sticks(locked@, cs@, new_day, subject, same_day, own, i + 1);
                                }
                                return None;
                            }
                        },
                    }
                }
            },
            None => {},
        }
        i = i + 1;
    }
    proof {
        assert(cs@.take(cs@.len() as int) =~= cs@);
    }
    Some(cur)
}

proof fn lemma_dest_lock_none_sticks(
    locked: Seq<((SchoolClassId, u8, SubjectId), (RoomId, u32))>,
    cs: Seq<SchoolClassId>,
    new_day: u8,
    subject: SubjectId,
    same_day: bool,
    own: u32,
    k: int,
)
    requires
        0 <= k <= cs.len(),
        dest_lock(locked, cs.take(k), new_day, subject, same_day, own) is None,
    ensures
        dest_lock(locked, cs, new_day, subject, same_day, own) is None,
    decreases cs.len() - k,
{
    if k < cs.len() {
        assert(cs.take(k + 1).drop_last() =~= cs.take(k));
        lemma_dest_lock_none_sticks(locked, cs, new_day, subject, same_day, own, k + 1);
    } else {
        assert(cs.take(k) =~= cs);
    }
}


/// The last position of the block's day per the table, else the block's
/// own position.
pub open spec fn max_for(mpd: Seq<(u8, u8)>, tb: TimeBlock) -> u8 {
    match day_table_get(mpd, tb.day_of_week) {
        Some(m) => m,
        None => tb.position,
    }
}

/// Slice delta of the move: class and teacher gap change plus the change of
/// the subject preference.
pub open spec fn n1_slice_delta(
    problem: Problem,
    s: GreedyState,
    mpd: Seq<(u8, u8)>,
    w: ConstraintWeights,
    l: Lesson,
    teacher: crate::types::TeacherId,
    old_tb: TimeBlock,
    new_tb: TimeBlock,
) -> int {
    let subject = problem.subjects@[subject_index(problem.subjects@, l.subject_id)];
    change_move_delta_spec(
        l.school_class_ids@,
        teacher,
        old_tb.day_of_week,
        old_tb.position,
        new_tb.day_of_week,
        new_tb.position,
        s.class_positions,
        s.teacher_positions,
        w,
    ) + subject_pref_spec(subject, new_tb.position, max_for(mpd, new_tb), w) - subject_pref_spec(
        subject,
        old_tb.position,
        max_for(mpd, old_tb),
        w,
    )
}

/// Sum over the classes of the change of their day-balance cost.
pub open spec fn balance_sum(cp: Partition, cs: Seq<SchoolClassId>, days: u8, od: u8, nd: u8) -> int
    decreases cs.len(),
{
    if cs.len() == 0 {
        0
    } else {
        balance_sum(cp, cs.drop_last(), days, od, nd) + class_balance_swap_spec(cp, cs.last(), days, od, nd)
            - class_balance_spec(cp, cs.last(), days)
    }
}

/// Weighted day-balance delta of a move between days.
pub open spec fn n1_balance_delta(problem: Problem, s: GreedyState, w: ConstraintWeights, cs: Seq<SchoolClassId>, od: u8, nd: u8) -> int {
    if w.class_day_balance == 0 || od == nd {
        0
    } else {
        w.class_day_balance * balance_sum(s.class_positions, cs, days_spec(problem.time_blocks@), od, nd)
    }
}

/// The placements with row `i` in block `tb`.
pub open spec fn moved_tb(ps: Seq<Placement>, i: int, tb: crate::types::TimeBlockId) -> Seq<Placement> {
    ps.update(
        i,
        Placement { lesson_id: ps[i].lesson_id, time_block_id: tb, room_id: ps[i].room_id, teacher_id: ps[i].teacher_id },
    )
}

/// Weighted change of the worst per-class spread and interior gaps.
pub open spec fn n1_axes_delta(problem: Problem, w: ConstraintWeights, ps: Seq<Placement>, i: int, tb: crate::types::TimeBlockId) -> int {
    if w.max_per_class_spread == 0 && w.max_per_class_interior_gaps == 0 {
        0
    } else {
        let post = moved_tb(ps, i, tb);
        (w.max_per_class_spread * worst_spread_spec(problem, post) - w.max_per_class_spread * worst_spread_spec(
            problem,
            ps,
        )) + (w.max_per_class_interior_gaps * worst_interior_spec(problem, post) - w.max_per_class_interior_gaps
            * worst_interior_spec(problem, ps))
    }
}

/// Every product and difference of the axes delta is a value of `i64`.
pub open spec fn axes_fit(problem: Problem, w: ConstraintWeights, ps: Seq<Placement>, i: int, tb: crate::types::TimeBlockId) -> bool {
    let post = moved_tb(ps, i, tb);
    let a = w.max_per_class_spread * worst_spread_spec(problem, post);
    let b = w.max_per_class_spread * worst_spread_spec(problem, ps);
    let c = w.max_per_class_interior_gaps * worst_interior_spec(problem, post);
    let d = w.max_per_class_interior_gaps * worst_interior_spec(problem, ps);
    &&& fits_i64(a)
    &&& fits_i64(b)
    &&& fits_i64(c)
    &&& fits_i64(d)
    &&& fits_i64(a - b)
    &&& fits_i64(c - d)
    &&& fits_i64((a - b) + (c - d))
}

/// Clamped into `0 ..= u32::MAX`.
pub open spec fn clamp_u32(x: int) -> int {
    if x < 0 {
        0
    } else if x > u32::MAX {
        u32::MAX as int
    } else {
        x
    }
}

/// A value of `i64`.
pub open spec fn fits_i64(x: int) -> bool {
    i64::MIN <= x <= i64::MAX
}


/// Weighted day-balance delta of moving one lesson-hour of the classes
/// `cs` from day `od` to day `nd`.
fn balance_delta_exec(
    problem: &Problem,
    class_positions: &Partition,
    cs: &Vec<SchoolClassId>,
    od: u8,
    nd: u8,
    weights: &ConstraintWeights,
    Ghost(s): Ghost<GreedyState>,
) -> (d: i64)
    requires
        class_positions.wf(),
        s.class_positions == *class_positions,
        cs@.len() <= 0x7fff_ffff,
        fits_i64(n1_balance_delta(*problem, s, *weights, cs@, od, nd)),
    ensures
        d == n1_balance_delta(*problem, s, *weights, cs@, od, nd),
{
    if weights.class_day_balance == 0 || od == nd {
        return 0;
    }
    let days = crate::lookup::day_count(problem);
    let mut acc: i64 = 0;
    let mut i: usize = 0;
    while i < cs.len()
        invariant
            i <= cs@.len(),
            cs@.len() <= 0x7fff_ffff,
            class_positions.wf(),
            days == days_spec(problem.time_blocks@),
            acc == balance_sum(*class_positions, cs@.take(i as int), days, od, nd),
            -(i * 0x1_0000_0000) <= acc <= i * 0x1_0000_0000,
        decreases cs@.len() - i,
    {
        proof {
            assert(cs@.take(i + 1).drop_last() =~= cs@.take(i as int));
            assert(cs@.take(i + 1).last() == cs@[i as int]);
            assert(i * 0x1_0000_0000 + 0x1_0000_0000 == (i + 1) * 0x1_0000_0000) by (nonlinear_arith);
            assert((i + 1) * 0x1_0000_0000 <= 0x7fff_ffff * 0x1_0000_0000) by (nonlinear_arith)
                requires
                    i + 1 <= 0x7fff_ffff,
            ;
        }
        let pre = class_day_balance_cost_for_class(cs[i], days, class_positions);
        let post = class_day_balance_cost_for_class_with_swap(cs[i], days, class_positions, od, nd);
        acc = acc + (post as i64) - (pre as i64);
        i = i + 1;
    }
    proof {
        assert(cs@.take(cs@.len() as int) =~= cs@);
    }
    (weights.class_day_balance as i64) * acc
}

/// Weighted change of the worst per-class spread and interior gaps when
/// row `i` moves to block `tb`; the row is moved for the measurement and
/// put back.
fn axes_delta_exec(
    problem: &Problem,
    placements: &mut Vec<Placement>,
    i: usize,
    tb: crate::types::TimeBlockId,
    weights: &ConstraintWeights,
) -> (d: i64)
    requires
        i < old(placements)@.len(),
        weights.max_per_class_spread != 0 || weights.max_per_class_interior_gaps != 0 ==> {
            &&& crate::score::interior_spans_fit(*problem, old(placements)@)
            &&& crate::score::interior_spans_fit(*problem, moved_tb(old(placements)@, i as int, tb))
            &&& axes_fit(*problem, *weights, old(placements)@, i as int, tb)
        },
    ensures
        final(placements)@ == old(placements)@,
        d == n1_axes_delta(*problem, *weights, old(placements)@, i as int, tb),
{
    if weights.max_per_class_spread == 0 && weights.max_per_class_interior_gaps == 0 {
        return 0;
    }
    let ws = weights.max_per_class_spread as i64;
    let wg = weights.max_per_class_interior_gaps as i64;
    let pre_spread_raw = worst_class_spread(problem, placements.as_slice());
    let pre_gaps_raw = worst_class_interior_gaps(problem, placements.as_slice());
    let saved = placements[i];
    placements.set(
        i,
        Placement { lesson_id: saved.lesson_id, time_block_id: tb, room_id: saved.room_id, teacher_id: saved.teacher_id },
    );
    proof {
        assert(placements@ == moved_tb(old(placements)@, i as int, tb));
    }
    let post_spread_raw = worst_class_spread(problem, placements.as_slice());
    let post_gaps_raw = worst_class_interior_gaps(problem, placements.as_slice());
    placements.set(i, saved);
    proof {
        assert(placements@ =~= old(placements)@);
    }
    let pre_spread = ws * (pre_spread_raw as i64);
    let pre_gaps = wg * (pre_gaps_raw as i64);
    let post_spread = ws * (post_spread_raw as i64);
    let post_gaps = wg * (post_gaps_raw as i64);
    (post_spread - pre_spread) + (post_gaps - pre_gaps)
}


/// The canonical-score delta of the move into `room`: slice, home-room,
/// day-balance and worst-axes deltas.
pub open spec fn n1_canonical_delta(
    problem: Problem,
    s: GreedyState,
    mpd: Seq<(u8, u8)>,
    w: ConstraintWeights,
    ps: Seq<Placement>,
    i: int,
    new_tb_idx: int,
    room: RoomId,
) -> int {
    let p = ps[i];
    let l = row_lesson(problem.lessons@, p);
    let old_tb = row_block(problem.time_blocks@, p);
    let new_tb = problem.time_blocks@[new_tb_idx];
    n1_slice_delta(problem, s, mpd, w, l, p.teacher_id, old_tb, new_tb) + home_delta(
        problem.school_classes@,
        l.school_class_ids@,
        p.room_id,
        room,
        w,
    ) + n1_balance_delta(problem, s, w, l.school_class_ids@, old_tb.day_of_week, new_tb.day_of_week) + n1_axes_delta(
        problem,
        w,
        ps,
        i,
        new_tb.id,
    )
}

/// The late-acceptance entry of iteration `iter` in a list of the fixed
/// length 500.
pub open spec fn n1_prior(lahc_list: Seq<u32>, iter: u64) -> u32 {
    lahc_list[(iter as usize) as int % 500]
}

/// The move into `room` is accepted: the new canonical score does not
/// exceed the current one or the late-acceptance entry.
pub open spec fn n1_accepts(
    problem: Problem,
    s: GreedyState,
    mpd: Seq<(u8, u8)>,
    w: ConstraintWeights,
    ps: Seq<Placement>,
    i: int,
    new_tb_idx: int,
    room: RoomId,
    lahc_list: Seq<u32>,
    iter: u64,
) -> bool {
    let nc = clamp_u32(s.canonical_score + n1_canonical_delta(problem, s, mpd, w, ps, i, new_tb_idx, room));
    nc <= s.canonical_score || nc <= n1_prior(lahc_list, iter)
}

/// The placements after the move into `room`.
pub open spec fn n1_moved(ps: Seq<Placement>, i: int, tb: crate::types::TimeBlockId, room: RoomId) -> Seq<Placement> {
    ps.update(i, Placement { lesson_id: ps[i].lesson_id, time_block_id: tb, room_id: room, teacher_id: ps[i].teacher_id })
}

/// What a feasible move into `room` needs to be evaluated and applied
/// without overflow: the lesson's subject resolves, the class list and
/// every intermediate sum fit, the running slice stays non-negative, the
/// worst axes can be measured before and after, the list holds the
/// iteration's entry, and an accepted move fits every counter and can be
/// scored afresh.
pub open spec fn n1_ready(
    problem: Problem,
    s: GreedyState,
    mpd: Seq<(u8, u8)>,
    w: ConstraintWeights,
    ps: Seq<Placement>,
    i: int,
    new_tb_idx: int,
    room: RoomId,
    lahc_list: Seq<u32>,
    iter: u64,
) -> bool {
    let p = ps[i];
    let l = row_lesson(problem.lessons@, p);
    let cs = l.school_class_ids@;
    let old_tb = row_block(problem.time_blocks@, p);
    let new_tb = problem.time_blocks@[new_tb_idx];
    let sd = n1_slice_delta(problem, s, mpd, w, l, p.teacher_id, old_tb, new_tb);
    let hd = home_delta(problem.school_classes@, cs, p.room_id, room, w);
    let bd = n1_balance_delta(problem, s, w, cs, old_tb.day_of_week, new_tb.day_of_week);
    let ad = n1_axes_delta(problem, w, ps, i, new_tb.id);
    &&& subject_index(problem.subjects@, l.subject_id) >= 0
    &&& cs.len() <= 0x7fff_ffff
    &&& fits_i64(w.class_gap * crate::lahc::class_delta_spec(
        cs,
        old_tb.day_of_week,
        new_tb.day_of_week,
        old_tb.position,
        new_tb.position,
        s.class_positions,
    ))
    &&& fits_i64(change_move_delta_spec(
        cs,
        p.teacher_id,
        old_tb.day_of_week,
        old_tb.position,
        new_tb.day_of_week,
        new_tb.position,
        s.class_positions,
        s.teacher_positions,
        w,
    ))
    &&& fits_i64(sd)
    &&& fits_i64(s.search_score_slice + sd)
    &&& fits_i64(bd)
    &&& (w.max_per_class_spread != 0 || w.max_per_class_interior_gaps != 0) ==> {
        &&& crate::score::interior_spans_fit(problem, ps)
        &&& crate::score::interior_spans_fit(problem, moved_tb(ps, i, new_tb.id))
        &&& axes_fit(problem, w, ps, i, new_tb.id)
    }
    &&& s.search_score_slice + sd >= 0
    &&& fits_i64(sd + hd)
    &&& fits_i64(sd + hd + bd)
    &&& fits_i64(sd + hd + bd + ad)
    &&& fits_i64(s.canonical_score + sd + hd + bd + ad)
    &&& (iter as usize) as int % 500 < lahc_list.len()
    &&& n1_accepts(problem, s, mpd, w, ps, i, new_tb_idx, room, lahc_list, iter) ==> {
        &&& old_tb.day_of_week != new_tb.day_of_week ==> forall|c: SchoolClassId|
            #[trigger] cs.contains(c) ==> fits_lock(map_get(s.locked_room@, (c, new_tb.day_of_week, l.subject_id)), occ(cs, c))
                && fits_u8(map_get(s.subject_hours_by_class_day@, (c, new_tb.day_of_week, l.subject_id)), occ(cs, c))
                && fits_u8(map_get(s.lessons_by_class_day@, (c, new_tb.day_of_week)), occ(cs, c))
        &&& w != crate::types::zero_weights() ==> crate::score::score_inputs_ok(
            problem,
            n1_moved(ps, i, new_tb.id, room),
            w,
            s.soft_pinned_blocks@,
        )
    }
}


/// Try the Change move of the one-hour row `placement_idx` to block
/// `new_tb_idx` of the problem's grid: feasible as `n1_room` says, it is
/// evaluated by the canonical-score delta (slice, home-room, day-balance
/// and worst-axes parts) and accepted when the new canonical score does
/// not exceed the current one or the late-acceptance entry of iteration
/// `iter`. An accepted move is applied as `apply_change_move` does; the
/// running slice moves by the slice delta (clamped) and the canonical score
/// is recomputed from the moved placements. A rejected move changes
/// nothing. Lessons resolve through the problem's lessons, blocks through
/// its time blocks, subjects through its subjects and home rooms through its
/// classes; `max_position_per_day` and `class_max_lessons_per_day` are
/// lookup tables (first entry per key). `travel_clear` is the travel-buffer
/// verdict for the row's lesson and teacher at the destination block (the
/// row's own block leaving): false when the move would leave too little
/// travel time around the lesson, which rejects the move.
pub fn try_change_move_n1(
    problem: &Problem,
    idx: &Indexed,
    placement_idx: usize,
    new_tb_idx: usize,
    travel_clear: bool,
    max_position_per_day: &Vec<(u8, u8)>,
    weights: &ConstraintWeights,
    placements: &mut Vec<Placement>,
    state: &mut GreedyState,
    pinned: &Vec<LessonId>,
    class_max_lessons_per_day: &Vec<(SchoolClassId, u8)>,
    lahc_list: &[u32],
    iter: u64,
) -> (accepted: bool)
    requires
        placement_idx < old(placements)@.len(),
        lesson_index(problem.lessons@, old(placements)@[placement_idx as int].lesson_id) >= 0,
        old(state).wf(),
        old(state).soft_pinned_blocks@.no_duplicates(),
        row_lesson(problem.lessons@, old(placements)@[placement_idx as int]).lesson_group_id is None && !pinned@.contains(
            old(placements)@[placement_idx as int].lesson_id,
        ) ==> tb_index(problem.time_blocks@, old(placements)@[placement_idx as int].time_block_id) >= 0 && new_tb_idx
            < problem.time_blocks@.len(),
        n1_room(*problem, *idx, placement_idx as int, new_tb_idx as int, old(placements)@, *old(state), pinned@, class_max_lessons_per_day@) is Some && travel_clear ==> n1_ready(
            *problem,
            *old(state),
            max_position_per_day@,
            *weights,
            old(placements)@,
            placement_idx as int,
            new_tb_idx as int,
            n1_room(*problem, *idx, placement_idx as int, new_tb_idx as int, old(placements)@, *old(state), pinned@, class_max_lessons_per_day@)->0,
            lahc_list@,
            iter,
        ),
    ensures
        final(state).wf(),
        accepted == (n1_room(*problem, *idx, placement_idx as int, new_tb_idx as int, old(placements)@, *old(state), pinned@, class_max_lessons_per_day@) is Some && travel_clear && n1_accepts(
            *problem,
            *old(state),
            max_position_per_day@,
            *weights,
            old(placements)@,
            placement_idx as int,
            new_tb_idx as int,
            n1_room(*problem, *idx, placement_idx as int, new_tb_idx as int, old(placements)@, *old(state), pinned@, class_max_lessons_per_day@)->0,
            lahc_list@,
            iter,
        )),
        !accepted ==> final(placements)@ == old(placements)@ && *final(state) == *old(state),
        accepted ==> {
            let p = old(placements)@[placement_idx as int];
            let l = row_lesson(problem.lessons@, p);
            let old_tb = row_block(problem.time_blocks@, p);
            let new_tb = problem.time_blocks@[new_tb_idx as int];
            let room = n1_room(*problem, *idx, placement_idx as int, new_tb_idx as int, old(placements)@, *old(state), pinned@, class_max_lessons_per_day@)->0;
            &&& change_applied(
                old(placements)@,
                final(placements)@,
                *old(state),
                *final(state),
                placement_idx,
                p,
                old_tb,
                new_tb,
                room,
                l.school_class_ids@,
                p.teacher_id,
                l.subject_id,
            )
            &&& final(state).search_score_slice == clamp_u32(
                old(state).search_score_slice + n1_slice_delta(
                    *problem,
                    *old(state),
                    max_position_per_day@,
                    *weights,
                    l,
                    p.teacher_id,
                    old_tb,
                    new_tb,
                ),
            )
            &&& final(state).canonical_score == crate::score::score_spec(
                *problem,
                final(placements)@,
                *weights,
                old(state).soft_pinned_blocks@,
            )
            &&& final(state).soft_pinned_blocks@ == old(state).soft_pinned_blocks@
        },
        accepted ==> !idx.teacher_blocked@.contains(
            (old(placements)@[placement_idx as int].teacher_id.0, problem.time_blocks@[new_tb_idx as int].id.0),
        ),
        accepted ==> {
            let p = old(placements)@[placement_idx as int];
            let l = row_lesson(problem.lessons@, p);
            let new_tb = problem.time_blocks@[new_tb_idx as int];
            let q = final(placements)@[placement_idx as int];
            &&& l.lesson_group_id is None && !pinned@.contains(p.lesson_id)
            &&& new_tb.kind == TimeBlockKind::Lesson && new_tb.id != p.time_block_id
            &&& q.time_block_id == new_tb.id && q.lesson_id == p.lesson_id && q.teacher_id == p.teacher_id
            &&& !old(state).used_teacher@.contains((p.teacher_id.0, new_tb.id.0))
            &&& forall|c: SchoolClassId|
                #[trigger] l.school_class_ids@.contains(c) ==> !old(state).used_class@.contains((c.0, new_tb.id.0))
            &&& suits(idx.room_subject@, q.room_id.0, l.subject_id.0)
            &&& !idx.room_blocked@.contains((q.room_id.0, new_tb.id.0))
            &&& !old(state).used_room@.contains((q.room_id.0, new_tb.id.0))
            &&& forall|c: SchoolClassId|
                #[trigger] l.school_class_ids@.contains(c) ==> {
                    let v = map_get(old(state).locked_room@, (c, new_tb.day_of_week, l.subject_id));
                    v is Some && !(row_block(problem.time_blocks@, p).day_of_week == new_tb.day_of_week && v.unwrap().1 == 1)
                        ==> q.room_id == v.unwrap().0
                }
            &&& row_block(problem.time_blocks@, p).day_of_week != new_tb.day_of_week ==> forall|c: SchoolClassId|
                #[trigger] l.school_class_ids@.contains(c) ==> {
                    &&& sat_inc_u8(count_or_zero(map_get(old(state).subject_hours_by_class_day@, (c, new_tb.day_of_week, l.subject_id))))
                        <= first_subject_cap(problem.subjects@, l.subject_id)
                    &&& map_get(class_max_lessons_per_day@, c) matches Some(cap) ==> sat_inc_u8(
                        count_or_zero(map_get(old(state).lessons_by_class_day@, (c, new_tb.day_of_week))),
                    ) <= cap
                }
        },
{
    let ghost ps0 = placements@;
    let ghost s0 = *state;
    let p = placements[placement_idx];
    let li = match find_lesson(&problem.lessons, p.lesson_id) {
        Some(li) => li,
        None => {
            return false;
        },
    };
    let lesson = &problem.lessons[li];
    if lesson.lesson_group_id.is_some() {
        return false;
    }
    if contains_lesson(pinned, p.lesson_id) {
        return false;
    }
    let oti = match find_tb(&problem.time_blocks, p.time_block_id) {
        Some(t) => t,
        None => {
            return false;
        },
    };
    let old_tb = problem.time_blocks[oti];
    let new_tb = problem.time_blocks[new_tb_idx];
    if new_tb.id == old_tb.id {
        return false;
    }
    if new_tb.kind != TimeBlockKind::Lesson {
        return false;
    }
    let class_ids = &lesson.school_class_ids;
    let teacher = p.teacher_id;
    if set_contains(&state.used_teacher, (teacher.0, new_tb.id.0)) {
        return false;
    }
    if class_busy_exec(&state.used_class, class_ids, new_tb.id.0) {
        return false;
    }
    if idx.teacher_blocked(teacher, new_tb.id) {
        return false;
    }
    if !caps_allow_exec(problem, state, class_max_lessons_per_day, lesson, old_tb.day_of_week, new_tb.day_of_week) {
        return false;
    }
    let new_day_lock = match dest_lock_exec(
        &state.locked_room,
        class_ids,
        new_tb.day_of_week,
        lesson.subject_id,
        old_tb.day_of_week == new_tb.day_of_week,
        1,
    ) {
        Some(lock) => lock,
        None => {
            return false;
        },
    };
    let new_room_id = match pick_room(
        problem,
        idx,
        lesson.subject_id,
        p.room_id,
        new_tb.id,
        &state.used_room,
        new_day_lock,
    ) {
        Some(r) => r,
        None => {
            return false;
        },
    };
    match new_day_lock {
        Some(locked) => {
            if new_room_id != locked {
                return false;
            }
        },
        None => {},
    }
    assert(n1_room(*problem, *idx, placement_idx as int, new_tb_idx as int, ps0, s0, pinned@, class_max_lessons_per_day@) == Some(new_room_id));
    if !travel_clear {
        return false;
    }
    let si = match find_subject(&problem.subjects, lesson.subject_id) {
        Some(si) => si,
        None => {
            return false;
        },
    };
    let subject = &problem.subjects[si];
    let old_max = match lookup_day(max_position_per_day, old_tb.day_of_week) {
        Some(m) => m,
        None => old_tb.position,
    };
    let new_max = match lookup_day(max_position_per_day, new_tb.day_of_week) {
        Some(m) => m,
        None => new_tb.position,
    };
    let subject_pref_old = subject_preference_score(subject, &old_tb, old_max, weights);
    let subject_pref_new = subject_preference_score(subject, &new_tb, new_max, weights);
    let subject_pref_delta = (subject_pref_new as i64) - (subject_pref_old as i64);
    let gap_delta = score_after_change_move(
        class_ids.as_slice(),
        teacher,
        old_tb.day_of_week,
        old_tb.position,
        new_tb.day_of_week,
        new_tb.position,
        &state.class_positions,
        &state.teacher_positions,
        weights,
    );
    let delta = gap_delta + subject_pref_delta;
    let new_score_signed = (state.search_score_slice as i64) + delta;
    let new_score: u32 = if new_score_signed < 0 {
        0
    } else if new_score_signed > u32::MAX as i64 {
        u32::MAX
    } else {
        new_score_signed as u32
    };
    let home_room_delta: i64 = if weights.prefer_home_room == 0 {
        proof {
            lemma_home_delta_zero_weight(problem.school_classes@, class_ids@, p.room_id, new_room_id, *weights);
        }
        0
    } else {
        crate::repair::home_delta_exec(&problem.school_classes, class_ids, p.room_id, new_room_id, weights)
    };
    let class_day_balance_delta = balance_delta_exec(
        problem,
        &state.class_positions,
        class_ids,
        old_tb.day_of_week,
        new_tb.day_of_week,
        weights,
        Ghost(s0),
    );
    let new_axes_delta = axes_delta_exec(problem, placements, placement_idx, new_tb.id, weights);
    let canonical_delta = delta + home_room_delta + class_day_balance_delta + new_axes_delta;
    let new_canonical_signed = (state.canonical_score as i64) + canonical_delta;
    let new_canonical: u32 = if new_canonical_signed < 0 {
        0
    } else if new_canonical_signed > u32::MAX as i64 {
        u32::MAX
    } else {
        new_canonical_signed as u32
    };
    let prior = lahc_list[(iter as usize) % 500];
    let accept = new_canonical <= state.canonical_score || new_canonical <= prior;
    if !accept {
        return false;
    }
    apply_change_move(
        placement_idx,
        &p,
        old_tb,
        new_tb,
        new_room_id,
        class_ids,
        teacher,
        lesson.subject_id,
        placements,
        state,
    );
    state.search_score_slice = new_score;
    state.canonical_score = crate::score::score_solution(
        problem,
        placements.as_slice(),
        weights,
        state.soft_pinned_blocks.as_slice(),
    );
    proof {
        let l = problem.lessons@[li as int];
        let cs = l.school_class_ids@;
        lemma_dest_lock_binds_every_class(
            s0.locked_room@,
            cs,
            new_tb.day_of_week,
            l.subject_id,
            old_tb.day_of_week == new_tb.day_of_week,
            1,
        );
        if old_tb.day_of_week != new_tb.day_of_week {
            assert forall|c: SchoolClassId| #[trigger] cs.contains(c) implies class_caps_allow(
                *problem,
                s0,
                class_max_lessons_per_day@,
                l,
                c,
                new_tb.day_of_week,
            ) by {
                let k = choose|k: int| 0 <= k < cs.len() && cs[k] == c;
                assert(class_caps_allow(*problem, s0, class_max_lessons_per_day@, l, cs[k], new_tb.day_of_week));
            }
        }
    }
    true
}

proof fn lemma_home_delta_zero_weight(
    classes: Seq<crate::types::SchoolClass>,
    cs: Seq<SchoolClassId>,
    from: RoomId,
    to: RoomId,
    w: ConstraintWeights,
)
    requires
        w.prefer_home_room == 0,
    ensures
        home_delta(classes, cs, from, to, w) == 0,
    decreases cs.len(),
{
    if cs.len() > 0 {
        lemma_home_delta_zero_weight(classes, cs.drop_last(), from, to, w);
    }
}

/// A one-hour Change move that finds a room never puts the row's teacher
/// at a block in which the teacher is blocked.
pub proof fn lemma_change_respects_teacher_blocks(
    problem: Problem,
    idx: Indexed,
    i: int,
    new_tb_idx: int,
    ps: Seq<Placement>,
    s: GreedyState,
    pinned: Seq<LessonId>,
    caps: Seq<(SchoolClassId, u8)>,
)
    requires
        n1_room(problem, idx, i, new_tb_idx, ps, s, pinned, caps) is Some,
    ensures
        !idx.teacher_blocked@.contains((ps[i].teacher_id.0, problem.time_blocks@[new_tb_idx].id.0)),
{
}

/// The room a one-hour Change move finds lies at a block that is a lesson
/// block other than the row's own, where the teacher and every class of the
/// lesson are free; the room suits the subject, is not blocked and not
/// booked there; and the lesson is neither grouped nor pinned.
pub proof fn lemma_change_lands_in_free_slot(
    problem: Problem,
    idx: Indexed,
    i: int,
    new_tb_idx: int,
    ps: Seq<Placement>,
    s: GreedyState,
    pinned: Seq<LessonId>,
    caps: Seq<(SchoolClassId, u8)>,
)
    requires
        n1_room(problem, idx, i, new_tb_idx, ps, s, pinned, caps) is Some,
    ensures
        ({
            let p = ps[i];
            let l = row_lesson(problem.lessons@, p);
            let new_tb = problem.time_blocks@[new_tb_idx];
            let r = n1_room(problem, idx, i, new_tb_idx, ps, s, pinned, caps)->0;
            &&& l.lesson_group_id is None && !pinned.contains(p.lesson_id)
            &&& new_tb.kind == TimeBlockKind::Lesson && new_tb.id != row_block(problem.time_blocks@, p).id
            &&& !s.used_teacher@.contains((p.teacher_id.0, new_tb.id.0))
            &&& forall|c: SchoolClassId|
                #[trigger] l.school_class_ids@.contains(c) ==> !s.used_class@.contains((c.0, new_tb.id.0))
            &&& suits(idx.room_subject@, r.0, l.subject_id.0)
            &&& !idx.room_blocked@.contains((r.0, new_tb.id.0))
            &&& !s.used_room@.contains((r.0, new_tb.id.0))
        }),
{
    let l = row_lesson(problem.lessons@, ps[i]);
    let new_tb = problem.time_blocks@[new_tb_idx];
    crate::lahc::lemma_lowest_feasible_is_feasible(problem.rooms@, idx, l.subject_id, new_tb.id, s.used_room@);
}

/// The destination lock binds every member class: when a class holds a
/// same-room lock for the subject on the destination day (other than one
/// that holds only the moving rows on their own day), the lock found is
/// that room.
pub proof fn lemma_dest_lock_binds_every_class(
    locked: Seq<((SchoolClassId, u8, SubjectId), (RoomId, u32))>,
    cs: Seq<SchoolClassId>,
    new_day: u8,
    subject: SubjectId,
    same_day: bool,
    own: u32,
)
    ensures
        dest_lock(locked, cs, new_day, subject, same_day, own) matches Some(lock) ==> forall|c: SchoolClassId|
            #[trigger] cs.contains(c) ==> {
                let v = map_get(locked, (c, new_day, subject));
                v is Some && !(same_day && v.unwrap().1 == own) ==> lock == Some(v.unwrap().0)
            },
    decreases cs.len(),
{
    if cs.len() > 0 {
        lemma_dest_lock_binds_every_class(locked, cs.drop_last(), new_day, subject, same_day, own);
        if dest_lock(locked, cs, new_day, subject, same_day, own) is Some {
            assert forall|c: SchoolClassId| #[trigger] cs.contains(c) implies {
                let v = map_get(locked, (c, new_day, subject));
                v is Some && !(same_day && v.unwrap().1 == own) ==> dest_lock(locked, cs, new_day, subject, same_day, own)->0 == Some(v.unwrap().0)
            } by {
                if c != cs.last() {
                    let k = choose|k: int| 0 <= k < cs.len() && cs[k] == c;
                    assert(cs.drop_last()[k] == c);
                    assert(cs.drop_last().contains(c));
                }
            }
        }
    }
}

} // verus!
