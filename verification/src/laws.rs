//! Laws that relate several functions of the library: what the quality
//! report, the slice recompute and the incremental day-balance helpers
//! agree on with the canonical score and a full recompute.

use vstd::prelude::*;

use crate::arith::sat;
use crate::partition::Partition;
use crate::positions::{lemma_sorted_insert, lemma_sorted_remove, sorted_insert, sorted_remove, strictly_sorted};
use crate::score::{
    add_overlay, class_balance_add_spec, class_balance_spec, class_balance_swap_spec, class_balance_total,
    class_gap_total, class_teacher_misses_spec, day_counts, home_total_spec, pref_sum, score_spec, seq_sum,
    slice_spec, swap_overlay, teacher_gap_total, worst_interior_spec, worst_spread_spec,
};
use crate::types::{ConstraintWeights, LessonId, Placement, Problem, SchoolClassId, Subject, TimeBlockId};

verus! {

pub(crate) proof fn lemma_cells_gap_sum_nonneg(cells: Seq<(u128, u8, u8)>, keys: Seq<(u128, u8)>)
    ensures
        crate::partition::cells_gap_sum(cells, keys) >= 0,
    decreases keys.len(),
{
    if keys.len() > 0 {
        lemma_cells_gap_sum_nonneg(cells, keys.drop_last());
        let ps = crate::partition::cell_positions(cells, keys.last());
        crate::partition::lemma_cell_positions(cells, keys.last());
        if ps.len() >= 1 {
            crate::positions::lemma_sorted_span(ps);
        }
    }
}

pub(crate) proof fn lemma_max_spread_nonneg(cells: Seq<(u128, u8, u8)>, owners: Seq<u128>)
    ensures
        crate::score::max_spread(cells, owners) >= 0,
    decreases owners.len(),
{
    if owners.len() > 0 {
        lemma_max_spread_nonneg(cells, owners.drop_last());
    }
}

pub(crate) proof fn lemma_max_owner_gaps_nonneg(cells: Seq<(u128, u8, u8)>, owners: Seq<u128>)
    ensures
        crate::score::max_owner_gaps(cells, owners) >= 0,
    decreases owners.len(),
{
    if owners.len() > 0 {
        lemma_max_owner_gaps_nonneg(cells, owners.drop_last());
    }
}

pub(crate) proof fn lemma_cells_balance_sum_nonneg(cells: Seq<(u128, u8, u8)>, classes: Seq<crate::types::SchoolClass>, days: u8)
    ensures
        crate::score::cells_balance_sum(cells, classes, days) >= 0,
    decreases classes.len(),
{
    if classes.len() > 0 {
        lemma_cells_balance_sum_nonneg(cells, classes.drop_last(), days);
        crate::score::lemma_balance_nonneg(
            crate::score::cells_day_counts(cells, classes.last().id.0, days),
            days as int,
        );
    }
}

pub(crate) proof fn lemma_pref_sum_zero(problem: Problem, ps: Seq<Placement>)
    ensures
        pref_sum(problem, ps, crate::types::zero_weights()) == 0,
    decreases ps.len(),
{
    if ps.len() > 0 {
        lemma_pref_sum_zero(problem, ps.drop_last());
        assert forall|sub: Subject, pos: u8, maxp: u8|
            #[trigger] crate::score::subject_pref_spec(sub, pos, maxp, crate::types::zero_weights()) == 0 by {
            assert(0 * (sub.prefer_early_period as int) == 0);
            assert(0 * (sub.avoid_first_period as int) == 0);
            assert(0 * (sub.avoid_last_period as int) == 0);
            assert(0 * (pos as int) == 0);
        }
    }
}

pub(crate) proof fn lemma_home_total_zero(problem: Problem, ps: Seq<Placement>, w: ConstraintWeights)
    requires
        w.prefer_home_room == 0,
    ensures
        home_total_spec(problem, ps, w) == 0,
    decreases ps.len(),
{
    if ps.len() > 0 {
        lemma_home_total_zero(problem, ps.drop_last(), w);
    }
}

pub(crate) proof fn lemma_sat_scaled_nonneg(w: u32, x: int)
    requires
        x >= 0,
    ensures
        sat(w * x) >= 0,
        w == 0 ==> sat(w * x) == 0,
{
    assert(w * x >= 0) by (nonlinear_arith)
        requires
            x >= 0,
    ;
}


/// When every weight outside the slice (class gaps, teacher gaps, subject
/// preference) is zero, the canonical score is the slice objective, for
/// every problem, placement list and soft-pin set.
pub proof fn lemma_score_is_slice_when_other_weights_zero(
    problem: Problem,
    ps: Seq<Placement>,
    w: ConstraintWeights,
    soft: Seq<(LessonId, TimeBlockId)>,
)
    requires
        w.class_day_balance == 0,
        w.prefer_home_room == 0,
        w.prefer_class_teacher == 0,
        w.max_per_class_spread == 0,
        w.max_per_class_interior_gaps == 0,
        w.soft_pin_miss == 0,
    ensures
        score_spec(problem, ps, w, soft) == slice_spec(problem, ps, w),
{
    let cc = crate::score::class_cells(problem, ps);
    let tc = crate::score::teacher_cells(problem, ps);
    lemma_cells_gap_sum_nonneg(cc, crate::partition::cell_keys(cc));
    lemma_cells_gap_sum_nonneg(tc, crate::partition::cell_keys(tc));
    lemma_max_spread_nonneg(cc, crate::score::weekday_owners(cc));
    lemma_max_owner_gaps_nonneg(cc, crate::score::key_owners(crate::partition::cell_keys(cc)));
    let days = crate::lookup::days_spec(problem.time_blocks@);
    lemma_cells_balance_sum_nonneg(cc, problem.school_classes@, days);
    crate::score::lemma_pref_sum_mono(problem, ps, w);
    lemma_home_total_zero(problem, ps, w);
    crate::score::lemma_miss_count_nonneg(problem, crate::score::first_teachers(crate::score::class_subject_cells(problem, ps)));
    crate::score::lemma_soft_miss_count_bounds(ps, soft);
    lemma_sat_scaled_nonneg(w.class_gap, class_gap_total(problem, ps));
    lemma_sat_scaled_nonneg(w.teacher_gap, teacher_gap_total(problem, ps));
    lemma_sat_scaled_nonneg(w.class_day_balance, class_balance_total(problem, ps));
    lemma_sat_scaled_nonneg(w.max_per_class_spread, worst_spread_spec(problem, ps));
    lemma_sat_scaled_nonneg(w.max_per_class_interior_gaps, worst_interior_spec(problem, ps));
    lemma_sat_scaled_nonneg(w.prefer_class_teacher, sat(class_teacher_misses_spec(problem, ps)));
    let soft_term = if w.soft_pin_miss == 0 || soft.len() == 0 {
        0
    } else {
        crate::score::soft_miss_count(ps, soft)
    };
    lemma_sat_scaled_nonneg(w.soft_pin_miss, soft_term);
    if w == crate::types::zero_weights() {
        lemma_pref_sum_zero(problem, ps);
    }
}

proof fn lemma_seq_sum_update(s: Seq<int>, i: int, v: int)
    requires
        0 <= i < s.len(),
    ensures
        seq_sum(s.update(i, v)) == seq_sum(s) - s[i] + v,
    decreases s.len(),
{
    if i < s.len() - 1 {
        lemma_seq_sum_update(s.drop_last(), i, v);
        assert(s.update(i, v).drop_last() =~= s.drop_last().update(i, v));
    } else {
        assert(s.update(i, v).drop_last() =~= s.drop_last());
    }
}

proof fn lemma_seq_sum_bounded(s: Seq<int>)
    requires
        forall|i: int| 0 <= i < s.len() ==> 0 <= #[trigger] s[i] <= 256,
    ensures
        0 <= seq_sum(s) <= 256 * s.len(),
    decreases s.len(),
{
    if s.len() > 0 {
        lemma_seq_sum_bounded(s.drop_last());
    }
}

proof fn lemma_lookup_sorted(p: Partition, key: (u128, u8))
    requires
        p.wf(),
    ensures
        strictly_sorted(p.lookup(key)),
        p.lookup(key).len() <= 256,
{
    crate::partition::lemma_lookup_in_entries(p.entries@, key);
    crate::partition::lemma_lookup_bounded(&p, key);
}

/// The day-balance cost of a class after one placement is added on `day`
/// at a position the class does not use that day equals what
/// `class_day_balance_cost_for_class_after_add` computes before the
/// insert. `p2` is `p` with the position inserted (as
/// `Partition::insert_position` leaves it).
pub proof fn lemma_balance_after_add_matches_inserted(
    p: Partition,
    p2: Partition,
    class_id: SchoolClassId,
    days: u8,
    day: u8,
    pos: u8,
)
    requires
        p.wf(),
        p2.wf(),
        day < days,
        !p.lookup((class_id.0, day)).contains(pos),
        p2.lookup((class_id.0, day)) == sorted_insert(p.lookup((class_id.0, day)), pos),
        forall|k: (u128, u8)| k != (class_id.0, day) ==> #[trigger] p2.lookup(k) == p.lookup(k),
    ensures
        class_balance_spec(p2, class_id, days) == class_balance_add_spec(p, class_id, days, day, 1),
{
    let raw = day_counts(p, class_id.0, days);
    let raw2 = day_counts(p2, class_id.0, days);
    lemma_lookup_sorted(p, (class_id.0, day));
    lemma_sorted_insert(p.lookup((class_id.0, day)), pos);
    crate::score::lemma_counts_bounded(p, class_id.0, days);
    lemma_lookup_sorted(p2, (class_id.0, day));
    assert(raw2 =~= add_overlay(raw, day, 1));
    assert(raw2 =~= raw.update(day as int, raw[day as int] + 1));
    lemma_seq_sum_update(raw, day as int, raw[day as int] + 1);
    lemma_seq_sum_bounded(raw);
}

/// The day-balance cost of a class after one placement moves from
/// `old_day` (where it held `old_pos`) to `new_day` (at a free
/// `new_pos`) equals what `class_day_balance_cost_for_class_with_swap`
/// computes before the move. `p2` is `p` with the position moved.
pub proof fn lemma_balance_with_swap_matches_moved(
    p: Partition,
    p2: Partition,
    class_id: SchoolClassId,
    days: u8,
    old_day: u8,
    new_day: u8,
    old_pos: u8,
    new_pos: u8,
)
    requires
        p.wf(),
        p2.wf(),
        old_day < days,
        new_day < days,
        old_day != new_day,
        p.lookup((class_id.0, old_day)).contains(old_pos),
        !p.lookup((class_id.0, new_day)).contains(new_pos),
        p2.lookup((class_id.0, old_day)) == sorted_remove(p.lookup((class_id.0, old_day)), old_pos),
        p2.lookup((class_id.0, new_day)) == sorted_insert(p.lookup((class_id.0, new_day)), new_pos),
        forall|k: (u128, u8)|
            k != (class_id.0, old_day) && k != (class_id.0, new_day) ==> #[trigger] p2.lookup(k) == p.lookup(k),
    ensures
        class_balance_spec(p2, class_id, days) == class_balance_swap_spec(p, class_id, days, old_day, new_day),
{
    let raw = day_counts(p, class_id.0, days);
    let raw2 = day_counts(p2, class_id.0, days);
    lemma_lookup_sorted(p, (class_id.0, old_day));
    lemma_lookup_sorted(p, (class_id.0, new_day));
    lemma_sorted_remove(p.lookup((class_id.0, old_day)), old_pos);
    lemma_sorted_insert(p.lookup((class_id.0, new_day)), new_pos);
    crate::score::lemma_counts_bounded(p, class_id.0, days);
    let mid = raw.update(old_day as int, raw[old_day as int] - 1);
    assert(raw2 =~= swap_overlay(raw, old_day, new_day));
    assert(raw2 =~= mid.update(new_day as int, raw[new_day as int] + 1));
    lemma_seq_sum_update(raw, old_day as int, raw[old_day as int] - 1);
    lemma_seq_sum_update(mid, new_day as int, raw[new_day as int] + 1);
}

proof fn lemma_resolved_only_identity(problem: Problem, ps: Seq<Placement>)
    requires
        crate::score::resolvable(problem, ps),
    ensures
        crate::lahc::resolved_only(problem, ps) == ps,
    decreases ps.len(),
{
    if ps.len() > 0 {
        let t = ps.drop_last();
        assert forall|i: int| 0 <= i < t.len() implies {
            &&& #[trigger] crate::score::placement_tb(problem, t[i]) is Some
            &&& crate::score::placement_lesson(problem, t[i]) is Some
            &&& crate::lookup::subject_index(problem.subjects@, crate::score::placement_lesson(problem, t[i])->0.subject_id) >= 0
        } by {
            assert(t[i] == ps[i]);
        }
        lemma_resolved_only_identity(problem, t);
        assert(crate::score::placement_tb(problem, ps[ps.len() - 1]) is Some);
        assert(crate::lahc::fully_resolves(problem, ps.last()));
        assert(t.push(ps.last()) =~= ps);
    }
}

proof fn lemma_running_pref_matches(
    problem: Problem,
    ps: Seq<Placement>,
    mp: Seq<(u8, u8)>,
    w: ConstraintWeights,
)
    requires
        crate::score::resolvable(problem, ps),
        forall|d: u8| #[trigger] crate::lahc::day_table_get(mp, d) == crate::lookup::day_max_position(problem.time_blocks@, d),
    ensures
        crate::lahc::running_pref_sum(problem, ps, mp, w) == pref_sum(problem, ps, w),
    decreases ps.len(),
{
    if ps.len() > 0 {
        let t = ps.drop_last();
        assert forall|i: int| 0 <= i < t.len() implies {
            &&& #[trigger] crate::score::placement_tb(problem, t[i]) is Some
            &&& crate::score::placement_lesson(problem, t[i]) is Some
            &&& crate::lookup::subject_index(problem.subjects@, crate::score::placement_lesson(problem, t[i])->0.subject_id) >= 0
        } by {
            assert(t[i] == ps[i]);
        }
        lemma_running_pref_matches(problem, t, mp, w);
        let p = ps.last();
        assert(crate::score::placement_tb(problem, ps[ps.len() - 1]) is Some);
        let tb = crate::score::placement_tb(problem, p)->0;
        assert(crate::lahc::day_table_get(mp, tb.day_of_week) == crate::lookup::day_max_position(problem.time_blocks@, tb.day_of_week));
    }
}

/// On placements whose blocks, lessons and subjects all resolve, with a
/// per-day table that holds each day's largest position, the running slice
/// recomputed by `running_slice_from_placements` is the slice objective of
/// `slice_recompute`.
pub proof fn lemma_running_slice_matches_slice(
    problem: Problem,
    ps: Seq<Placement>,
    max_position_per_day: Seq<(u8, u8)>,
    w: ConstraintWeights,
)
    requires
        crate::score::resolvable(problem, ps),
        forall|d: u8|
            #[trigger] crate::lahc::day_table_get(max_position_per_day, d) == crate::lookup::day_max_position(
                problem.time_blocks@,
                d,
            ),
    ensures
        crate::lahc::running_slice_spec(problem, ps, max_position_per_day, w) == slice_spec(problem, ps, w),
{
    lemma_resolved_only_identity(problem, ps);
    lemma_running_pref_matches(problem, ps, max_position_per_day, w);
    crate::score::lemma_pref_sum_mono(problem, ps, w);
    let cc = crate::score::class_cells(problem, ps);
    let tc = crate::score::teacher_cells(problem, ps);
    lemma_cells_gap_sum_nonneg(cc, crate::partition::cell_keys(cc));
    lemma_cells_gap_sum_nonneg(tc, crate::partition::cell_keys(tc));
    lemma_sat_scaled_nonneg(w.class_gap, class_gap_total(problem, ps));
    lemma_sat_scaled_nonneg(w.teacher_gap, teacher_gap_total(problem, ps));
}

/// For a lesson of a single class, the per-lesson home-room penalty is the
/// per-class one: the weight when the class has a home room other than
/// `room`, else zero.
pub proof fn lemma_single_class_home_penalty(
    classes: Seq<crate::types::SchoolClass>,
    lesson: crate::types::Lesson,
    room: crate::types::RoomId,
    w: ConstraintWeights,
)
    requires
        lesson.school_class_ids@.len() == 1,
    ensures
        crate::score::home_penalty_spec(classes, lesson, room, w) == (if w.prefer_home_room != 0
            && crate::score::misses_home(classes, lesson.school_class_ids@[0], room) {
            w.prefer_home_room as int
        } else {
            0
        }),
{
    let cids = lesson.school_class_ids@;
    assert(cids.drop_last().len() == 0);
    assert(cids.last() == cids[0]);
    assert(crate::score::home_miss_count(classes, cids.drop_last(), room) == 0);
    assert(w.prefer_home_room * 1 == w.prefer_home_room);
    assert(w.prefer_home_room * 0 == 0);
}


/// The weights multiplied by `k`, field by field.
pub open spec fn scaled_weights(w: ConstraintWeights, k: u32) -> ConstraintWeights {
    ConstraintWeights {
        class_gap: (w.class_gap * k) as u32,
        teacher_gap: (w.teacher_gap * k) as u32,
        prefer_early_period: (w.prefer_early_period * k) as u32,
        avoid_first_period: (w.avoid_first_period * k) as u32,
        prefer_home_room: (w.prefer_home_room * k) as u32,
        avoid_last_period: (w.avoid_last_period * k) as u32,
        prefer_late_period: (w.prefer_late_period * k) as u32,
        class_day_balance: (w.class_day_balance * k) as u32,
        prefer_class_teacher: (w.prefer_class_teacher * k) as u32,
        max_per_class_spread: (w.max_per_class_spread * k) as u32,
        max_per_class_interior_gaps: (w.max_per_class_interior_gaps * k) as u32,
        soft_pin_miss: (w.soft_pin_miss * k) as u32,
    }
}

/// Every weight multiplied by `k` still fits in a `u32`.
pub open spec fn weights_scale_fit(w: ConstraintWeights, k: u32) -> bool {
    &&& w.class_gap * k <= u32::MAX
    &&& w.teacher_gap * k <= u32::MAX
    &&& w.prefer_early_period * k <= u32::MAX
    &&& w.avoid_first_period * k <= u32::MAX
    &&& w.prefer_home_room * k <= u32::MAX
    &&& w.avoid_last_period * k <= u32::MAX
    &&& w.prefer_late_period * k <= u32::MAX
    &&& w.class_day_balance * k <= u32::MAX
    &&& w.prefer_class_teacher * k <= u32::MAX
    &&& w.max_per_class_spread * k <= u32::MAX
    &&& w.max_per_class_interior_gaps * k <= u32::MAX
    &&& w.soft_pin_miss * k <= u32::MAX
}

/// The subject-preference score of one placement without saturation.
pub open spec fn raw_subject_pref(s: Subject, pos: u8, maxp: u8, w: ConstraintWeights) -> int {
    (if s.prefer_early_period > 0 { w.prefer_early_period * s.prefer_early_period * pos } else { 0 })
        + (if s.avoid_first_period > 0 && pos == 0 { w.avoid_first_period * s.avoid_first_period } else { 0 })
        + (if s.avoid_last_period > 0 && pos == maxp { w.avoid_last_period * s.avoid_last_period } else { 0 })
        + (if s.prefer_late_period > 0 && w.prefer_late_period > 0 {
        w.prefer_late_period * s.prefer_late_period * (if maxp > pos { maxp - pos } else { 0 })
    } else {
        0
    })
}

/// `placement_pref` without saturation.
pub open spec fn raw_placement_pref(problem: Problem, p: Placement, w: ConstraintWeights) -> int {
    match (crate::score::placement_tb(problem, p), crate::score::placement_lesson(problem, p)) {
        (Some(tb), Some(l)) => {
            let si = crate::lookup::subject_index(problem.subjects@, l.subject_id);
            if si < 0 {
                0
            } else {
                raw_subject_pref(problem.subjects@[si], tb.position, crate::lookup::max_position_for(problem.time_blocks@, tb), w)
            }
        },
        _ => 0,
    }
}

/// `pref_sum` without saturation.
pub open spec fn raw_pref_sum(problem: Problem, ps: Seq<Placement>, w: ConstraintWeights) -> int
    decreases ps.len(),
{
    if ps.len() == 0 {
        0
    } else {
        raw_pref_sum(problem, ps.drop_last(), w) + raw_placement_pref(problem, ps.last(), w)
    }
}

/// `home_total_spec` without saturation.
pub open spec fn raw_home_total(problem: Problem, ps: Seq<Placement>, w: ConstraintWeights) -> int
    decreases ps.len(),
{
    if ps.len() == 0 {
        0
    } else {
        raw_home_total(problem, ps.drop_last(), w) + match crate::score::placement_lesson(problem, ps.last()) {
            Some(l) => w.prefer_home_room * crate::score::home_miss_count(
                problem.school_classes@,
                l.school_class_ids@,
                ps.last().room_id,
            ),
            None => 0,
        }
    }
}

/// The canonical score without any saturation: each weight times its
/// count, summed.
pub open spec fn raw_score(
    problem: Problem,
    ps: Seq<Placement>,
    w: ConstraintWeights,
    soft: Seq<(LessonId, TimeBlockId)>,
) -> int {
    w.class_gap * class_gap_total(problem, ps) + w.teacher_gap * teacher_gap_total(problem, ps) + raw_pref_sum(
        problem,
        ps,
        w,
    ) + w.class_day_balance * class_balance_total(problem, ps) + w.max_per_class_spread * worst_spread_spec(problem, ps)
        + w.max_per_class_interior_gaps * worst_interior_spec(problem, ps) + raw_home_total(problem, ps, w)
        + w.soft_pin_miss * (if soft.len() == 0 { 0 } else { crate::score::soft_miss_count(ps, soft) })
        + w.prefer_class_teacher * class_teacher_misses_spec(problem, ps)
}

proof fn lemma_mul_zero(a: int, x: int)
    ensures
        a == 0 ==> a * x == 0,
        x == 0 ==> a * x == 0,
        a >= 0 && x >= 0 ==> a * x >= 0,
        a >= 0 && x >= 1 ==> a <= a * x,
{
    assert(a == 0 ==> a * x == 0) by (nonlinear_arith);
    assert(x == 0 ==> a * x == 0) by (nonlinear_arith);
    assert(a >= 0 && x >= 0 ==> a * x >= 0) by (nonlinear_arith);
    assert(a >= 0 && x >= 1 ==> a <= a * x) by (nonlinear_arith);
}

proof fn lemma_scaled_field(a: u32, k: u32, x: int)
    requires
        a * k <= u32::MAX,
        x >= 0,
    ensures
        ((a * k) as u32) * x == k * (a * x),
        a * x >= 0,
        k >= 1 ==> a * x <= k * (a * x),
{
    assert(((a * k) as u32) == a * k);
    assert((a * k) * x == k * (a * x)) by (nonlinear_arith);
    assert(a * x >= 0) by (nonlinear_arith)
        requires
            x >= 0,
    ;
    assert(k >= 1 ==> a * x <= k * (a * x)) by (nonlinear_arith)
        requires
            a * x >= 0,
    ;
}

proof fn lemma_raw_subject_pref(s: Subject, pos: u8, maxp: u8, w: ConstraintWeights, k: u32)
    requires
        weights_scale_fit(w, k),
    ensures
        raw_subject_pref(s, pos, maxp, w) >= 0,
        k > 0 ==> raw_subject_pref(s, pos, maxp, scaled_weights(w, k)) == k * raw_subject_pref(s, pos, maxp, w),
        raw_subject_pref(s, pos, maxp, w) <= u32::MAX ==> crate::score::subject_pref_spec(s, pos, maxp, w)
            == raw_subject_pref(s, pos, maxp, w),
{
    let sw = scaled_weights(w, k);
    let d: int = if maxp > pos { maxp - pos } else { 0 };
    let e1 = w.prefer_early_period * s.prefer_early_period;
    let l1 = w.prefer_late_period * s.prefer_late_period;
    lemma_mul_zero(w.prefer_early_period as int, s.prefer_early_period as int);
    lemma_mul_zero(w.prefer_late_period as int, s.prefer_late_period as int);
    lemma_mul_zero(w.avoid_first_period as int, s.avoid_first_period as int);
    lemma_mul_zero(w.avoid_last_period as int, s.avoid_last_period as int);
    lemma_mul_zero(e1, pos as int);
    lemma_mul_zero(l1, d);
    lemma_mul_zero(sat(e1), pos as int);
    lemma_mul_zero(sat(l1), d);
    assert(w.prefer_early_period * s.prefer_early_period * pos == e1 * pos);
    assert(w.prefer_late_period * s.prefer_late_period * d == l1 * d);
    assert(sw.prefer_early_period == w.prefer_early_period * k);
    assert(sw.avoid_first_period == w.avoid_first_period * k);
    assert(sw.avoid_last_period == w.avoid_last_period * k);
    assert(sw.prefer_late_period == w.prefer_late_period * k);
    if k > 0 {
        assert(sw.prefer_early_period * s.prefer_early_period * pos == k * (w.prefer_early_period * s.prefer_early_period
            * pos)) by (nonlinear_arith)
            requires
                sw.prefer_early_period == w.prefer_early_period * k,
        ;
        assert(sw.avoid_first_period * s.avoid_first_period == k * (w.avoid_first_period * s.avoid_first_period))
            by (nonlinear_arith)
            requires
                sw.avoid_first_period == w.avoid_first_period * k,
        ;
        assert(sw.avoid_last_period * s.avoid_last_period == k * (w.avoid_last_period * s.avoid_last_period))
            by (nonlinear_arith)
            requires
                sw.avoid_last_period == w.avoid_last_period * k,
        ;
        assert(sw.prefer_late_period * s.prefer_late_period * d == k * (w.prefer_late_period * s.prefer_late_period * d))
            by (nonlinear_arith)
            requires
                sw.prefer_late_period == w.prefer_late_period * k,
        ;
        assert((sw.prefer_late_period > 0) == (w.prefer_late_period > 0)) by (nonlinear_arith)
            requires
                sw.prefer_late_period == w.prefer_late_period * k,
                k > 0,
        ;
        let a1: int = if s.prefer_early_period > 0 { w.prefer_early_period * s.prefer_early_period * pos } else { 0 };
        let b1: int = if s.avoid_first_period > 0 && pos == 0 { w.avoid_first_period * s.avoid_first_period } else { 0 };
        let c1: int = if s.avoid_last_period > 0 && pos == maxp { w.avoid_last_period * s.avoid_last_period } else { 0 };
        let d1: int = if s.prefer_late_period > 0 && w.prefer_late_period > 0 {
            w.prefer_late_period * s.prefer_late_period * d
        } else {
            0
        };
        assert(raw_subject_pref(s, pos, maxp, w) == a1 + b1 + c1 + d1);
        assert(k * a1 + k * b1 + k * c1 + k * d1 == k * (a1 + b1 + c1 + d1)) by (nonlinear_arith);
        lemma_mul_zero(k as int, 0);
    }
}

proof fn lemma_raw_placement_pref(problem: Problem, p: Placement, w: ConstraintWeights, k: u32)
    requires
        weights_scale_fit(w, k),
    ensures
        raw_placement_pref(problem, p, w) >= 0,
        k > 0 ==> raw_placement_pref(problem, p, scaled_weights(w, k)) == k * raw_placement_pref(problem, p, w),
        raw_placement_pref(problem, p, w) <= u32::MAX ==> crate::score::placement_pref(problem, p, w)
            == raw_placement_pref(problem, p, w),
{
    match (crate::score::placement_tb(problem, p), crate::score::placement_lesson(problem, p)) {
        (Some(tb), Some(l)) => {
            let si = crate::lookup::subject_index(problem.subjects@, l.subject_id);
            if si >= 0 {
                lemma_raw_subject_pref(
                    problem.subjects@[si],
                    tb.position,
                    crate::lookup::max_position_for(problem.time_blocks@, tb),
                    w,
                    k,
                );
            }
        },
        _ => {},
    }
}

proof fn lemma_raw_pref_sum(problem: Problem, ps: Seq<Placement>, w: ConstraintWeights, k: u32)
    requires
        weights_scale_fit(w, k),
    ensures
        raw_pref_sum(problem, ps, w) >= 0,
        k > 0 ==> raw_pref_sum(problem, ps, scaled_weights(w, k)) == k * raw_pref_sum(problem, ps, w),
        raw_pref_sum(problem, ps, w) <= u32::MAX ==> pref_sum(problem, ps, w) == raw_pref_sum(problem, ps, w),
    decreases ps.len(),
{
    if ps.len() > 0 {
        let t = ps.drop_last();
        lemma_raw_pref_sum(problem, t, w, k);
        lemma_raw_placement_pref(problem, ps.last(), w, k);
        if k > 0 {
            assert(k * raw_pref_sum(problem, t, w) + k * raw_placement_pref(problem, ps.last(), w) == k * (raw_pref_sum(
                problem,
                t,
                w,
            ) + raw_placement_pref(problem, ps.last(), w))) by (nonlinear_arith);
        }
    }
}

proof fn lemma_raw_home_total(problem: Problem, ps: Seq<Placement>, w: ConstraintWeights, k: u32)
    requires
        weights_scale_fit(w, k),
    ensures
        raw_home_total(problem, ps, w) >= 0,
        k > 0 ==> raw_home_total(problem, ps, scaled_weights(w, k)) == k * raw_home_total(problem, ps, w),
        raw_home_total(problem, ps, w) <= u32::MAX ==> home_total_spec(problem, ps, w) == raw_home_total(problem, ps, w),
    decreases ps.len(),
{
    if ps.len() > 0 {
        let t = ps.drop_last();
        lemma_raw_home_total(problem, t, w, k);
        match crate::score::placement_lesson(problem, ps.last()) {
            Some(l) => {
                let m = crate::score::home_miss_count(problem.school_classes@, l.school_class_ids@, ps.last().room_id);
                crate::score::lemma_home_miss_count_nonneg(problem.school_classes@, l.school_class_ids@, ps.last().room_id);
                lemma_scaled_field(w.prefer_home_room, k, m);
                if k > 0 {
                    assert(k * raw_home_total(problem, t, w) + k * (w.prefer_home_room * m) == k * (raw_home_total(
                        problem,
                        t,
                        w,
                    ) + w.prefer_home_room * m)) by (nonlinear_arith);
                }
                lemma_mul_zero(w.prefer_home_room as int, m);
            },
            None => {},
        }
    }
}

proof fn lemma_raw_score(
    problem: Problem,
    ps: Seq<Placement>,
    w: ConstraintWeights,
    soft: Seq<(LessonId, TimeBlockId)>,
    k: u32,
)
    requires
        weights_scale_fit(w, k),
    ensures
        raw_score(problem, ps, w, soft) >= 0,
        k > 0 ==> raw_score(problem, ps, scaled_weights(w, k), soft) == k * raw_score(problem, ps, w, soft),
        raw_score(problem, ps, w, soft) <= u32::MAX ==> score_spec(problem, ps, w, soft) == raw_score(problem, ps, w, soft),
{
    let cc = crate::score::class_cells(problem, ps);
    let tc = crate::score::teacher_cells(problem, ps);
    lemma_cells_gap_sum_nonneg(cc, crate::partition::cell_keys(cc));
    lemma_cells_gap_sum_nonneg(tc, crate::partition::cell_keys(tc));
    lemma_max_spread_nonneg(cc, crate::score::weekday_owners(cc));
    lemma_max_owner_gaps_nonneg(cc, crate::score::key_owners(crate::partition::cell_keys(cc)));
    let days = crate::lookup::days_spec(problem.time_blocks@);
    lemma_cells_balance_sum_nonneg(cc, problem.school_classes@, days);
    crate::score::lemma_miss_count_nonneg(problem, crate::score::first_teachers(crate::score::class_subject_cells(problem, ps)));
    crate::score::lemma_soft_miss_count_bounds(ps, soft);
    lemma_raw_pref_sum(problem, ps, w, k);
    lemma_raw_home_total(problem, ps, w, k);
    let cg = class_gap_total(problem, ps);
    let tg = teacher_gap_total(problem, ps);
    let bal = class_balance_total(problem, ps);
    let sp = worst_spread_spec(problem, ps);
    let ig = worst_interior_spec(problem, ps);
    let st: int = if soft.len() == 0 { 0 } else { crate::score::soft_miss_count(ps, soft) };
    let mc = class_teacher_misses_spec(problem, ps);
    lemma_scaled_field(w.class_gap, k, cg);
    lemma_scaled_field(w.teacher_gap, k, tg);
    lemma_scaled_field(w.class_day_balance, k, bal);
    lemma_scaled_field(w.max_per_class_spread, k, sp);
    lemma_scaled_field(w.max_per_class_interior_gaps, k, ig);
    lemma_scaled_field(w.soft_pin_miss, k, st);
    lemma_scaled_field(w.prefer_class_teacher, k, mc);
    let rp = raw_pref_sum(problem, ps, w);
    let rh = raw_home_total(problem, ps, w);
    if k > 0 {
        assert(k * (w.class_gap * cg) + k * (w.teacher_gap * tg) + k * rp + k * (w.class_day_balance * bal) + k * (
        w.max_per_class_spread * sp) + k * (w.max_per_class_interior_gaps * ig) + k * rh + k * (w.soft_pin_miss * st) + k
            * (w.prefer_class_teacher * mc) == k * (w.class_gap * cg + w.teacher_gap * tg + rp + w.class_day_balance * bal
            + w.max_per_class_spread * sp + w.max_per_class_interior_gaps * ig + rh + w.soft_pin_miss * st
            + w.prefer_class_teacher * mc)) by (nonlinear_arith);
    }
    if raw_score(problem, ps, w, soft) <= u32::MAX {
        lemma_mul_zero(mc, w.prefer_class_teacher as int);
        lemma_mul_zero(w.prefer_class_teacher as int, mc);
        lemma_mul_zero(w.prefer_class_teacher as int, sat(mc));
        lemma_mul_zero(w.soft_pin_miss as int, st);
        lemma_mul_zero(w.soft_pin_miss as int, 0);
        assert(mc * w.prefer_class_teacher == w.prefer_class_teacher * mc) by (nonlinear_arith);
        if w == crate::types::zero_weights() {
            lemma_pref_sum_zero(problem, ps);
            assert(rp <= raw_score(problem, ps, w, soft));
            assert(pref_sum(problem, ps, w) == rp);
            lemma_mul_zero(w.class_gap as int, cg);
            lemma_mul_zero(w.teacher_gap as int, tg);
            lemma_mul_zero(w.class_day_balance as int, bal);
            lemma_mul_zero(w.max_per_class_spread as int, sp);
            lemma_mul_zero(w.max_per_class_interior_gaps as int, ig);
            assert(w.soft_pin_miss * st == 0 && w.prefer_class_teacher * mc == 0);
            assert(rp == 0);
            assert(rh == 0) by {
                lemma_home_total_zero(problem, ps, w);
            }
        }
    }
}

/// Scaling every weight by `k` scales the canonical score by `k`, for every
/// problem, placement list and soft-pin set on which no term saturates:
/// the scaled weights fit in `u32` and `k` times the unsaturated score
/// (`raw_score`) does too.
pub proof fn lemma_score_scales_with_weights(
    problem: Problem,
    ps: Seq<Placement>,
    w: ConstraintWeights,
    soft: Seq<(LessonId, TimeBlockId)>,
    k: u32,
)
    requires
        weights_scale_fit(w, k),
        k * raw_score(problem, ps, w, soft) <= u32::MAX,
    ensures
        score_spec(problem, ps, scaled_weights(w, k), soft) == k * score_spec(problem, ps, w, soft),
{
    lemma_raw_score(problem, ps, w, soft, k);
    let r = raw_score(problem, ps, w, soft);
    if k == 0 {
        lemma_mul_zero(w.class_gap as int, 0);
        lemma_mul_zero(w.teacher_gap as int, 0);
        lemma_mul_zero(w.prefer_early_period as int, 0);
        lemma_mul_zero(w.avoid_first_period as int, 0);
        lemma_mul_zero(w.prefer_home_room as int, 0);
        lemma_mul_zero(w.avoid_last_period as int, 0);
        lemma_mul_zero(w.prefer_late_period as int, 0);
        lemma_mul_zero(w.class_day_balance as int, 0);
        lemma_mul_zero(w.prefer_class_teacher as int, 0);
        lemma_mul_zero(w.max_per_class_spread as int, 0);
        lemma_mul_zero(w.max_per_class_interior_gaps as int, 0);
        lemma_mul_zero(w.soft_pin_miss as int, 0);
        assert(scaled_weights(w, 0) == crate::types::zero_weights());
        assert(0 * score_spec(problem, ps, w, soft) == 0);
    } else {
        assert(r <= k * r) by (nonlinear_arith)
            requires
                r >= 0,
                k >= 1,
        ;
        let sw = scaled_weights(w, k);
        assert(weights_scale_fit(sw, 1)) by {
            assert(sw.class_gap * 1 == sw.class_gap);
        }
        lemma_raw_score(problem, ps, sw, soft, 1);
    }
}

/// `ps2` is `ps` with at most the rooms of its rows changed.
pub open spec fn rooms_only(ps: Seq<Placement>, ps2: Seq<Placement>) -> bool {
    &&& ps2.len() == ps.len()
    &&& forall|k: int|
        0 <= k < ps.len() ==> (#[trigger] ps2[k]).lesson_id == ps[k].lesson_id && ps2[k].time_block_id
            == ps[k].time_block_id && ps2[k].teacher_id == ps[k].teacher_id
}

proof fn lemma_rooms_only_drop_last(ps: Seq<Placement>, ps2: Seq<Placement>)
    requires
        rooms_only(ps, ps2),
        ps.len() > 0,
    ensures
        rooms_only(ps.drop_last(), ps2.drop_last()),
        ps2.last().lesson_id == ps.last().lesson_id,
        ps2.last().time_block_id == ps.last().time_block_id,
        ps2.last().teacher_id == ps.last().teacher_id,
{
    assert forall|k: int| 0 <= k < ps.drop_last().len() implies (#[trigger] ps2.drop_last()[k]).lesson_id
        == ps.drop_last()[k].lesson_id && ps2.drop_last()[k].time_block_id == ps.drop_last()[k].time_block_id
        && ps2.drop_last()[k].teacher_id == ps.drop_last()[k].teacher_id by {
        assert(ps2.drop_last()[k] == ps2[k]);
        assert(ps.drop_last()[k] == ps[k]);
    }
    assert(ps2[ps.len() - 1] == ps2.last());
}

/// Everything the score reads of a row but its room stays when only rooms
/// change.
proof fn lemma_rooms_only_cells(problem: Problem, ps: Seq<Placement>, ps2: Seq<Placement>, w: ConstraintWeights)
    requires
        rooms_only(ps, ps2),
    ensures
        crate::score::class_cells(problem, ps2) == crate::score::class_cells(problem, ps),
        crate::score::teacher_cells(problem, ps2) == crate::score::teacher_cells(problem, ps),
        crate::score::class_subject_cells(problem, ps2) == crate::score::class_subject_cells(problem, ps),
        raw_pref_sum(problem, ps2, w) == raw_pref_sum(problem, ps, w),
    decreases ps.len(),
{
    if ps.len() > 0 {
        lemma_rooms_only_drop_last(ps, ps2);
        lemma_rooms_only_cells(problem, ps.drop_last(), ps2.drop_last(), w);
    }
}

proof fn lemma_rooms_only_soft(ps: Seq<Placement>, ps2: Seq<Placement>, soft: Seq<(LessonId, TimeBlockId)>)
    requires
        rooms_only(ps, ps2),
    ensures
        crate::score::soft_miss_count(ps2, soft) == crate::score::soft_miss_count(ps, soft),
    decreases soft.len(),
{
    if soft.len() > 0 {
        lemma_rooms_only_soft(ps, ps2, soft.drop_last());
        let l = soft.last().0;
        let t = soft.last().1;
        if crate::score::placed_key(ps, l, t) {
            let k = choose|k: int| 0 <= k < ps.len() && (#[trigger] ps[k]).lesson_id == l && ps[k].time_block_id == t;
            assert(ps2[k].lesson_id == l && ps2[k].time_block_id == t);
        }
        if crate::score::placed_key(ps2, l, t) {
            let k = choose|k: int| 0 <= k < ps2.len() && (#[trigger] ps2[k]).lesson_id == l && ps2[k].time_block_id == t;
            assert(ps[k].lesson_id == l && ps[k].time_block_id == t);
        }
    }
}

/// The unsaturated home-room term of one row.
pub open spec fn raw_row_home(problem: Problem, p: Placement, w: ConstraintWeights) -> int {
    match crate::score::placement_lesson(problem, p) {
        Some(l) => w.prefer_home_room * crate::score::home_miss_count(problem.school_classes@, l.school_class_ids@, p.room_id),
        None => 0,
    }
}

proof fn lemma_raw_home_update(problem: Problem, ps: Seq<Placement>, w: ConstraintWeights, i: int, q: Placement)
    requires
        0 <= i < ps.len(),
    ensures
        raw_home_total(problem, ps.update(i, q), w) == raw_home_total(problem, ps, w) - raw_row_home(problem, ps[i], w)
            + raw_row_home(problem, q, w),
    decreases ps.len(),
{
    let ps2 = ps.update(i, q);
    if i == ps.len() - 1 {
        assert(ps2.drop_last() =~= ps.drop_last());
        assert(ps2.last() == q);
    } else {
        assert(ps2.drop_last() =~= ps.drop_last().update(i, q));
        assert(ps2.last() == ps.last());
        lemma_raw_home_update(problem, ps.drop_last(), w, i, q);
        assert(ps.drop_last()[i] == ps[i]);
    }
}

/// The per-class home-room penalties sum to the weight times the number of
/// classes outside their home room.
proof fn lemma_home_delta_counts(
    classes: Seq<crate::types::SchoolClass>,
    cs: Seq<SchoolClassId>,
    from: crate::types::RoomId,
    to: crate::types::RoomId,
    w: ConstraintWeights,
)
    ensures
        crate::repair::home_delta(classes, cs, from, to, w) == w.prefer_home_room * crate::score::home_miss_count(
            classes,
            cs,
            to,
        ) - w.prefer_home_room * crate::score::home_miss_count(classes, cs, from),
    decreases cs.len(),
{
    if cs.len() > 0 {
        lemma_home_delta_counts(classes, cs.drop_last(), from, to, w);
        let a = crate::score::home_miss_count(classes, cs.drop_last(), to);
        let b = crate::score::home_miss_count(classes, cs.drop_last(), from);
        let x = w.prefer_home_room as int;
        assert(x * (a + 1) == x * a + x) by (nonlinear_arith);
        assert(x * (b + 1) == x * b + x) by (nonlinear_arith);
        assert(x * (a + 0) == x * a);
        assert(x * (b + 0) == x * b);
    }
}

/// Changing only rooms changes the unsaturated score by the change of the
/// home-room term.
proof fn lemma_rooms_only_raw_score(
    problem: Problem,
    ps: Seq<Placement>,
    ps2: Seq<Placement>,
    w: ConstraintWeights,
    soft: Seq<(LessonId, TimeBlockId)>,
)
    requires
        rooms_only(ps, ps2),
    ensures
        raw_score(problem, ps2, w, soft) - raw_home_total(problem, ps2, w) == raw_score(problem, ps, w, soft)
            - raw_home_total(problem, ps, w),
{
    lemma_rooms_only_cells(problem, ps, ps2, w);
    lemma_rooms_only_soft(ps, ps2, soft);
}

proof fn lemma_apply_delta_exact(score: u32, d: int)
    requires
        0 <= score + d <= u32::MAX,
        -(u32::MAX as int) <= d <= u32::MAX,
    ensures
        crate::lahc::apply_delta_spec(score, d as i64) == score + d,
{
    let x = d as i64;
    assert(x == d);
    if d >= 0 {
        vstd::arithmetic::div_mod::lemma_small_mod(d as nat, 0x1_0000_0000nat);
    } else {
        vstd::arithmetic::div_mod::lemma_small_mod((-d) as nat, 0x1_0000_0000nat);
    }
}

pub(crate) proof fn lemma_first_in_room_bound(ps: Seq<Placement>, room: crate::types::RoomId, tb: TimeBlockId)
    ensures
        crate::repair::first_in_room(ps, room, tb) < ps.len(),
    decreases ps.len(),
{
    if ps.len() > 0 {
        lemma_first_in_room_bound(ps.drop_first(), room, tb);
    }
}

/// The home-room repair keeps the canonical score exact: when the current
/// canonical score is the score of the placements and neither the
/// placements before nor those after the repair reach the saturation bound
/// (their unsaturated score, `raw_score`, fits in a `u32`), the canonical
/// score the repair computes is the score of the repaired placements.
pub proof fn lemma_repair_keeps_canonical_exact(
    problem: Problem,
    idx: crate::index::Indexed,
    i: int,
    w: ConstraintWeights,
    ps: Seq<Placement>,
    s: crate::state::GreedyState,
    pinned: Seq<LessonId>,
    threshold: u32,
)
    requires
        ps.len() <= usize::MAX,
        s.canonical_score == score_spec(problem, ps, w, s.soft_pinned_blocks@),
        raw_score(problem, ps, w, s.soft_pinned_blocks@) <= u32::MAX,
    ensures
        match crate::repair::home_repair_outcome(problem, idx, i, w, ps, s.used_room@, s.canonical_score, pinned, threshold) {
            crate::repair::RepairOutcome::MovedToFree { home, canonical } => {
                let ps2 = ps.update(i, crate::repair::with_room(ps[i], home));
                raw_score(problem, ps2, w, s.soft_pinned_blocks@) <= u32::MAX ==> canonical == score_spec(
                    problem,
                    ps2,
                    w,
                    s.soft_pinned_blocks@,
                )
            },
            crate::repair::RepairOutcome::Swapped { home, partner, canonical } => {
                let ps2 = ps.update(i, crate::repair::with_room(ps[i], home)).update(
                    partner as int,
                    crate::repair::with_room(ps[partner as int], ps[i].room_id),
                );
                raw_score(problem, ps2, w, s.soft_pinned_blocks@) <= u32::MAX ==> canonical == score_spec(
                    problem,
                    ps2,
                    w,
                    s.soft_pinned_blocks@,
                )
            },
            crate::repair::RepairOutcome::Rejected => true,
        },
{
    let soft = s.soft_pinned_blocks@;
    let outcome = crate::repair::home_repair_outcome(problem, idx, i, w, ps, s.used_room@, s.canonical_score, pinned, threshold);
    assert(weights_scale_fit(w, 1)) by {
        assert(w.class_gap * 1 == w.class_gap);
    }
    lemma_raw_score(problem, ps, w, soft, 1);
    match outcome {
        crate::repair::RepairOutcome::MovedToFree { home, canonical } => {
            let p = ps[i];
            let l = crate::repair::row_lesson(problem.lessons@, p);
            let q = crate::repair::with_room(p, home);
            let ps2 = ps.update(i, q);
            if raw_score(problem, ps2, w, soft) <= u32::MAX {
                lemma_raw_score(problem, ps2, w, soft, 1);
                assert(rooms_only(ps, ps2)) by {
                    assert forall|k: int| 0 <= k < ps.len() implies (#[trigger] ps2[k]).lesson_id == ps[k].lesson_id
                        && ps2[k].time_block_id == ps[k].time_block_id && ps2[k].teacher_id == ps[k].teacher_id by {
                    }
                }
                lemma_rooms_only_raw_score(problem, ps, ps2, w, soft);
                lemma_raw_home_update(problem, ps, w, i, q);
                lemma_home_delta_counts(problem.school_classes@, l.school_class_ids@, p.room_id, home, w);
                assert(crate::score::placement_lesson(problem, p) == Some(l));
                assert(crate::score::placement_lesson(problem, q) == Some(l));
                let d = crate::repair::home_delta(problem.school_classes@, l.school_class_ids@, p.room_id, home, w);
                assert(crate::repair::shared_home(problem.school_classes@, l.school_class_ids@) == Some(home));
                assert(canonical == crate::lahc::apply_delta_spec(s.canonical_score, d as i64) as u32);
                assert(d == raw_row_home(problem, q, w) - raw_row_home(problem, p, w));
                let r1 = raw_score(problem, ps, w, soft);
                let r2 = raw_score(problem, ps2, w, soft);
                assert(r2 == r1 + d);
                lemma_apply_delta_exact(s.canonical_score, d);
            }
        },
        crate::repair::RepairOutcome::Swapped { home, partner, canonical } => {
            let p = ps[i];
            let l = crate::repair::row_lesson(problem.lessons@, p);
            let qi = partner as int;
            let qq = ps[qi];
            let ql = crate::repair::row_lesson(problem.lessons@, qq);
            let p1 = crate::repair::with_room(p, home);
            let q1 = crate::repair::with_room(qq, p.room_id);
            let mid = ps.update(i, p1);
            let ps2 = mid.update(qi, q1);
            lemma_first_in_room_bound(ps, home, p.time_block_id);
            assert(crate::repair::shared_home(problem.school_classes@, l.school_class_ids@) == Some(home));
            let fq = crate::repair::first_in_room(ps, home, p.time_block_id);
            assert(fq < ps.len());
            assert(partner == fq as usize);
            assert(qi == fq);
            assert(qi != i && 0 <= qi);
            if raw_score(problem, ps2, w, soft) <= u32::MAX {
                lemma_raw_score(problem, ps2, w, soft, 1);
                assert(rooms_only(ps, ps2)) by {
                    assert forall|k: int| 0 <= k < ps.len() implies (#[trigger] ps2[k]).lesson_id == ps[k].lesson_id
                        && ps2[k].time_block_id == ps[k].time_block_id && ps2[k].teacher_id == ps[k].teacher_id by {
                    }
                }
                lemma_rooms_only_raw_score(problem, ps, ps2, w, soft);
                lemma_raw_home_update(problem, ps, w, i, p1);
                lemma_raw_home_update(problem, mid, w, qi, q1);
                assert(mid[qi] == qq);
                lemma_home_delta_counts(problem.school_classes@, l.school_class_ids@, p.room_id, home, w);
                lemma_home_delta_counts(problem.school_classes@, ql.school_class_ids@, qq.room_id, p.room_id, w);
                assert(crate::score::placement_lesson(problem, p) == Some(l));
                assert(crate::score::placement_lesson(problem, p1) == Some(l));
                assert(crate::score::placement_lesson(problem, qq) == Some(ql));
                assert(crate::score::placement_lesson(problem, q1) == Some(ql));
                let d = crate::repair::home_delta(problem.school_classes@, l.school_class_ids@, p.room_id, home, w)
                    + crate::repair::home_delta(problem.school_classes@, ql.school_class_ids@, qq.room_id, p.room_id, w);
                assert(canonical == crate::lahc::apply_delta_spec(s.canonical_score, d as i64) as u32);
                let r1 = raw_score(problem, ps, w, soft);
                let r2 = raw_score(problem, ps2, w, soft);
                assert(r2 == r1 + d);
                lemma_apply_delta_exact(s.canonical_score, d);
            }
        },
        crate::repair::RepairOutcome::Rejected => {},
    }
}
} // verus!
