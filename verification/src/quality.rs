//! Backend-neutral component vector exposing each cost-axis subtotal that
//! `score::score_solution` aggregates, and the per-backend objective
//! declarations.

use vstd::prelude::*;

use crate::arith::{sat, sat_add, sat_mul};
use crate::lookup::{find_lesson, find_subject, find_tb, max_position_for, max_position_of_day, subject_index};
use crate::partition::{build_partition, lemma_built_gap_sum};
use crate::score::{
    class_balance_total, class_day_balance_cost, class_gap_total, class_teacher_misses,
    class_teacher_misses_spec, collect_class_cells, collect_teacher_cells, home_room_total,
    home_total_spec, interior_spans_fit, lemma_built_balance, placement_lesson,
    placement_tb, pref_sum, resolvable, score_spec, slice_spec, slice_sums_fit, subject_pref_spec,
    teacher_gap_total, worst_class_interior_gaps, worst_class_spread,
    worst_interior_spec, worst_spread_spec,
};
use crate::types::{ConstraintWeights, Placement, Problem, Subject, Violation};

verus! {

/// Cost-vector breakdown of one solver result. Every field but
/// `weighted_score` is a raw count or unweighted unit.
#[derive(Clone, Copy, Debug, PartialEq, Eq, Structural)]
pub struct QualityReport {
    /// Number of violations.
    pub hard_violations: u32,
    /// Expected lesson-hours minus placed ones.
    pub unplaced_hours: u32,
    /// Gap-hours summed over (class, day) partitions.
    pub class_gap_hours: u32,
    /// Gap-hours summed over (teacher, day) partitions.
    pub teacher_gap_hours: u32,
    /// L1 day-balance cost over the classes.
    pub class_day_balance_cost: u32,
    /// (placement, member class) pairs outside the class's home room.
    pub home_room_misses: u32,
    /// Sum of `subject.prefer_early_period * position`.
    pub prefer_early_units: u32,
    /// Sum of `subject.avoid_first_period` at position 0.
    pub avoid_first_units: u32,
    /// Sum of `subject.avoid_last_period` at the day's last position.
    pub avoid_last_units: u32,
    /// Sum of `subject.prefer_late_period * (last position - position)`.
    pub prefer_late_units: u32,
    /// (class, subject) pairs not taught by their qualified class teacher.
    pub prefer_class_teacher_misses: u32,
    /// The weighted sum of the axes above, matching `score_solution`.
    pub weighted_score: u32,
    /// Worst per-class daily-load spread over Monday to Friday.
    pub worst_per_class_spread: u32,
    /// Worst per-class summed interior gaps.
    pub worst_per_class_interior_gaps: u32,
}

/// The all-zero report.
pub open spec fn zero_report() -> QualityReport {
    QualityReport {
        hard_violations: 0,
        unplaced_hours: 0,
        class_gap_hours: 0,
        teacher_gap_hours: 0,
        class_day_balance_cost: 0,
        home_room_misses: 0,
        prefer_early_units: 0,
        avoid_first_units: 0,
        avoid_last_units: 0,
        prefer_late_units: 0,
        prefer_class_teacher_misses: 0,
        weighted_score: 0,
        worst_per_class_spread: 0,
        worst_per_class_interior_gaps: 0,
    }
}

impl Default for QualityReport {
    fn default() -> (r: Self)
        ensures
            r == zero_report(),
    {
        QualityReport {
            hard_violations: 0,
            unplaced_hours: 0,
            class_gap_hours: 0,
            teacher_gap_hours: 0,
            class_day_balance_cost: 0,
            home_room_misses: 0,
            prefer_early_units: 0,
            avoid_first_units: 0,
            avoid_last_units: 0,
            prefer_late_units: 0,
            prefer_class_teacher_misses: 0,
            weighted_score: 0,
            worst_per_class_spread: 0,
            worst_per_class_interior_gaps: 0,
        }
    }
}

/// Weights with only the home-room axis on, at one: the home-room penalty
/// under them is the raw miss count.
pub open spec fn home_unit_weights() -> ConstraintWeights {
    ConstraintWeights { prefer_home_room: 1, ..crate::types::zero_weights() }
}

/// The subject of placement `p`'s lesson, when everything resolves.
pub open spec fn placement_subject(problem: Problem, p: Placement) -> Option<Subject> {
    match placement_lesson(problem, p) {
        Some(l) => {
            let si = subject_index(problem.subjects@, l.subject_id);
            if si < 0 {
                None
            } else {
                Some(problem.subjects@[si])
            }
        },
        None => None,
    }
}

/// Unweighted unit of one subject-preference axis for one placement:
/// axis 0 prefer-early, 1 avoid-first, 2 avoid-last, 3 prefer-late.
pub open spec fn axis_unit(problem: Problem, p: Placement, axis: int) -> int {
    match (placement_tb(problem, p), placement_subject(problem, p)) {
        (Some(tb), Some(s)) => {
            let maxp = max_position_for(problem.time_blocks@, tb);
            if axis == 0 {
                sat(s.prefer_early_period * tb.position)
            } else if axis == 1 {
                if tb.position == 0 { s.avoid_first_period as int } else { 0 }
            } else if axis == 2 {
                if tb.position == maxp { s.avoid_last_period as int } else { 0 }
            } else {
                sat(s.prefer_late_period * (if maxp > tb.position { maxp - tb.position } else { 0 }))
            }
        },
        _ => 0,
    }
}

/// Sum over placements of one axis unit.
pub open spec fn axis_total(problem: Problem, ps: Seq<Placement>, axis: int) -> int
    decreases ps.len(),
{
    if ps.len() == 0 {
        0
    } else {
        axis_total(problem, ps.drop_last(), axis) + axis_unit(problem, ps.last(), axis)
    }
}

/// Expected lesson-hours: the sum of `hours_per_week` over lessons.
pub open spec fn expected_hours(lessons: Seq<crate::types::Lesson>) -> int
    decreases lessons.len(),
{
    if lessons.len() == 0 {
        0
    } else {
        expected_hours(lessons.drop_last()) + lessons.last().hours_per_week
    }
}

/// The weighted score of a report: class gaps, teacher gaps, subject
/// preference, day balance, worst spread, worst interior gaps, home room and
/// class-teacher misses, saturating.
pub open spec fn weighted_spec(problem: Problem, ps: Seq<Placement>, w: ConstraintWeights) -> int {
    sat(sat(w.class_gap * class_gap_total(problem, ps)) + sat(w.teacher_gap * teacher_gap_total(problem, ps))
        + pref_sum(problem, ps, w) + sat(w.class_day_balance * class_balance_total(problem, ps)) + sat(
        w.max_per_class_spread * worst_spread_spec(problem, ps),
    ) + sat(w.max_per_class_interior_gaps * worst_interior_spec(problem, ps)) + home_total_spec(problem, ps, w)
        + sat(w.prefer_class_teacher * sat(class_teacher_misses_spec(problem, ps))))
}

/// What `quality_report` needs of its inputs: every lookup resolves and no
/// unsaturated sum overflows.
pub open spec fn quality_inputs_ok(problem: Problem, ps: Seq<Placement>, w: ConstraintWeights) -> bool {
    &&& resolvable(problem, ps)
    &&& slice_sums_fit(problem, ps, w)
    &&& interior_spans_fit(problem, ps)
    &&& home_total_spec(problem, ps, w) <= u32::MAX
    &&& expected_hours(problem.lessons@) <= u32::MAX
}

pub proof fn lemma_axis_total_mono(problem: Problem, ps: Seq<Placement>, axis: int)
    ensures
        axis_total(problem, ps, axis) >= 0,
    decreases ps.len(),
{
    if ps.len() > 0 {
        lemma_axis_total_mono(problem, ps.drop_last(), axis);
    }
}

pub proof fn lemma_expected_hours_prefix(lessons: Seq<crate::types::Lesson>)
    ensures
        expected_hours(lessons) >= 0,
        forall|k: int| 0 <= k <= lessons.len() ==> expected_hours(#[trigger] lessons.take(k)) <= expected_hours(lessons),
    decreases lessons.len(),
{
    if lessons.len() > 0 {
        let t = lessons.drop_last();
        lemma_expected_hours_prefix(t);
        assert forall|k: int| 0 <= k <= lessons.len() implies expected_hours(#[trigger] lessons.take(k)) <= expected_hours(lessons) by {
            if k < lessons.len() {
                assert(lessons.take(k) =~= t.take(k));
            } else {
                assert(lessons.take(k) =~= lessons);
            }
        }
    }
}

/// Sum of `hours_per_week` over the lessons.
fn expected_hours_total(problem: &Problem) -> (h: u32)
    requires
        expected_hours(problem.lessons@) <= u32::MAX,
    ensures
        h == expected_hours(problem.lessons@),
{
    let ls = &problem.lessons;
    proof {
        lemma_expected_hours_prefix(ls@);
    }
    let mut h: u32 = 0;
    let mut i: usize = 0;
    while i < ls.len()
        invariant
            i <= ls@.len(),
            ls == &problem.lessons,
            h == expected_hours(ls@.take(i as int)),
            forall|k: int| 0 <= k <= ls@.len() ==> expected_hours(#[trigger] ls@.take(k)) <= expected_hours(ls@),
            expected_hours(ls@) <= u32::MAX,
        decreases ls@.len() - i,
    {
        proof {
            assert(ls@.take(i + 1).drop_last() =~= ls@.take(i as int));
            assert(ls@.take(i + 1).last() == ls@[i as int]);
        }
        h = h + ls[i].hours_per_week as u32;
        i = i + 1;
    }
    proof {
        assert(ls@.take(ls@.len() as int) =~= ls@);
    }
    h
}

/// The four unweighted subject-preference unit totals, saturating.
fn axis_unit_totals(problem: &Problem, placements: &[Placement]) -> (r: (u32, u32, u32, u32))
    ensures
        r.0 == sat(axis_total(*problem, placements@, 0)),
        r.1 == sat(axis_total(*problem, placements@, 1)),
        r.2 == sat(axis_total(*problem, placements@, 2)),
        r.3 == sat(axis_total(*problem, placements@, 3)),
{
    let mut early: u32 = 0;
    let mut first: u32 = 0;
    let mut last: u32 = 0;
    let mut late: u32 = 0;
    let mut i: usize = 0;
    while i < placements.len()
        invariant
            i <= placements@.len(),
            early == sat(axis_total(*problem, placements@.take(i as int), 0)),
            first == sat(axis_total(*problem, placements@.take(i as int), 1)),
            last == sat(axis_total(*problem, placements@.take(i as int), 2)),
            late == sat(axis_total(*problem, placements@.take(i as int), 3)),
        decreases placements@.len() - i,
    {
        let p = placements[i];
        proof {
            assert(placements@.take(i + 1).drop_last() =~= placements@.take(i as int));
            assert(placements@.take(i + 1).last() == p);
            lemma_axis_total_mono(*problem, placements@.take(i as int), 0);
            lemma_axis_total_mono(*problem, placements@.take(i as int), 1);
            lemma_axis_total_mono(*problem, placements@.take(i as int), 2);
            lemma_axis_total_mono(*problem, placements@.take(i as int), 3);
        }
        let ti = find_tb(&problem.time_blocks, p.time_block_id);
        let li = find_lesson(&problem.lessons, p.lesson_id);
        match (ti, li) {
            (Some(ti), Some(li)) => {
                let si = find_subject(&problem.subjects, problem.lessons[li].subject_id);
                if let Some(si) = si {
                    let tb = problem.time_blocks[ti];
                    let subject = problem.subjects[si];
                    let max_pos = max_position_of_day(&problem.time_blocks, tb.day_of_week, tb.position);
                    early = sat_add(early, sat_mul(subject.prefer_early_period, tb.position as u32));
                    if tb.position == 0 {
                        first = sat_add(first, subject.avoid_first_period);
                    }
                    if tb.position == max_pos {
                        last = sat_add(last, subject.avoid_last_period);
                    }
                    let distance: u32 = if max_pos > tb.position {
                        (max_pos - tb.position) as u32
                    } else {
                        0
                    };
                    late = sat_add(late, sat_mul(subject.prefer_late_period, distance));
                }
            },
            _ => {},
        }
        i = i + 1;
    }
    proof {
        assert(placements@.take(placements@.len() as int) =~= placements@);
    }
    (early, first, last, late)
}

/// Number of (placement, member class) pairs outside the class's home room,
/// saturating.
fn home_room_miss_total(problem: &Problem, placements: &[Placement]) -> (m: u32)
    ensures
        m == sat(home_total_spec(*problem, placements@, home_unit_weights())),
{
    let unit_weights = ConstraintWeights { prefer_home_room: 1, ..ConstraintWeights::default() };
    proof {
        assert(unit_weights == home_unit_weights());
    }
    let mut m: u32 = 0;
    let mut i: usize = 0;
    while i < placements.len()
        invariant
            i <= placements@.len(),
            unit_weights == home_unit_weights(),
            m == sat(home_total_spec(*problem, placements@.take(i as int), home_unit_weights())),
        decreases placements@.len() - i,
    {
        let p = placements[i];
        proof {
            assert(placements@.take(i + 1).drop_last() =~= placements@.take(i as int));
            assert(placements@.take(i + 1).last() == p);
            crate::score::lemma_home_total_mono(*problem, placements@.take(i as int), home_unit_weights());
        }
        let li = find_lesson(&problem.lessons, p.lesson_id);
        if let Some(li) = li {
            let here = crate::score::home_room_penalty(&problem.lessons[li], &problem.school_classes, p.room_id, &unit_weights);
            m = sat_add(m, here);
        }
        i = i + 1;
    }
    proof {
        assert(placements@.take(placements@.len() as int) =~= placements@);
    }
    m
}


/// The weighted score of a quality report is the canonical score of the
/// same placements with no soft-pinned blocks: for every problem, placement
/// list and weights, `weighted_spec` equals `score_spec` with an empty soft
/// set.
pub proof fn lemma_report_weighted_matches_score(problem: Problem, ps: Seq<Placement>, w: ConstraintWeights)
    ensures
        weighted_spec(problem, ps, w) == score_spec(problem, ps, w, Seq::empty()),
{
    let cc = crate::score::class_cells(problem, ps);
    let tc = crate::score::teacher_cells(problem, ps);
    crate::laws::lemma_cells_gap_sum_nonneg(cc, crate::partition::cell_keys(cc));
    crate::laws::lemma_cells_gap_sum_nonneg(tc, crate::partition::cell_keys(tc));
    crate::laws::lemma_max_spread_nonneg(cc, crate::score::weekday_owners(cc));
    crate::laws::lemma_max_owner_gaps_nonneg(cc, crate::score::key_owners(crate::partition::cell_keys(cc)));
    let days = crate::lookup::days_spec(problem.time_blocks@);
    crate::laws::lemma_cells_balance_sum_nonneg(cc, problem.school_classes@, days);
    crate::score::lemma_pref_sum_mono(problem, ps, w);
    crate::score::lemma_home_total_mono(problem, ps, w);
    crate::score::lemma_miss_count_nonneg(problem, crate::score::first_teachers(crate::score::class_subject_cells(problem, ps)));
    let cg = class_gap_total(problem, ps);
    let tg = teacher_gap_total(problem, ps);
    let bal = class_balance_total(problem, ps);
    let spread = worst_spread_spec(problem, ps);
    let interior = worst_interior_spec(problem, ps);
    let misses = sat(class_teacher_misses_spec(problem, ps));
    crate::laws::lemma_sat_scaled_nonneg(w.class_gap, cg);
    crate::laws::lemma_sat_scaled_nonneg(w.teacher_gap, tg);
    crate::laws::lemma_sat_scaled_nonneg(w.class_day_balance, bal);
    crate::laws::lemma_sat_scaled_nonneg(w.max_per_class_spread, spread);
    crate::laws::lemma_sat_scaled_nonneg(w.max_per_class_interior_gaps, interior);
    crate::laws::lemma_sat_scaled_nonneg(w.prefer_class_teacher, misses);
    crate::laws::lemma_sat_scaled_nonneg(w.soft_pin_miss, 0);
    if w == crate::types::zero_weights() {
        crate::laws::lemma_pref_sum_zero(problem, ps);
        crate::laws::lemma_home_total_zero(problem, ps, w);
    }
}

/// Build the quality report of a solver result: every axis subtotal of the
/// canonical objective, unweighted, plus the weighted total.
pub fn quality_report(
    problem: &Problem,
    placements: &[Placement],
    violations: &[Violation],
    weights: &ConstraintWeights,
) -> (r: QualityReport)
    requires
        quality_inputs_ok(*problem, placements@, *weights),
    ensures
        r.hard_violations == sat(violations@.len() as int),
        r.unplaced_hours == (if expected_hours(problem.lessons@) >= sat(placements@.len() as int) {
            expected_hours(problem.lessons@) - sat(placements@.len() as int)
        } else {
            0
        }),
        r.class_gap_hours == class_gap_total(*problem, placements@),
        r.teacher_gap_hours == teacher_gap_total(*problem, placements@),
        r.class_day_balance_cost == class_balance_total(*problem, placements@),
        r.home_room_misses == sat(home_total_spec(*problem, placements@, home_unit_weights())),
        r.prefer_early_units == sat(axis_total(*problem, placements@, 0)),
        r.avoid_first_units == sat(axis_total(*problem, placements@, 1)),
        r.avoid_last_units == sat(axis_total(*problem, placements@, 2)),
        r.prefer_late_units == sat(axis_total(*problem, placements@, 3)),
        r.prefer_class_teacher_misses == sat(class_teacher_misses_spec(*problem, placements@)),
        r.weighted_score == weighted_spec(*problem, placements@, *weights),
        r.worst_per_class_spread == worst_spread_spec(*problem, placements@),
        r.worst_per_class_interior_gaps == worst_interior_spec(*problem, placements@),
{
    let days = crate::lookup::day_count(problem);
    let expected = expected_hours_total(problem);
    let placed: u32 = if placements.len() > u32::MAX as usize {
        u32::MAX
    } else {
        placements.len() as u32
    };
    let class_cells_v = collect_class_cells(problem, placements);
    let teacher_cells_v = collect_teacher_cells(problem, placements);
    let by_class_day = build_partition(&class_cells_v);
    let by_teacher_day = build_partition(&teacher_cells_v);
    proof {
        lemma_built_gap_sum(&by_class_day, class_cells_v@);
        lemma_built_gap_sum(&by_teacher_day, teacher_cells_v@);
        lemma_built_balance(by_class_day, class_cells_v@, problem.school_classes@, days);
    }
    let class_day_balance_cost_value = class_day_balance_cost(&by_class_day, &problem.school_classes, days);
    let class_gap_hours = crate::partition::partition_gap_total(&by_class_day);
    let teacher_gap_hours = crate::partition::partition_gap_total(&by_teacher_day);
    let units = axis_unit_totals(problem, placements);
    let home_room_misses = home_room_miss_total(problem, placements);
    let subject_preference_weighted = crate::score::subject_preference_total(problem, placements, weights);
    let home_room_weighted = home_room_total(problem, placements, weights);
    let prefer_class_teacher_misses = class_teacher_misses(problem, placements);
    let worst_per_class_spread = worst_class_spread(problem, placements);
    let worst_per_class_interior_gaps = worst_class_interior_gaps(problem, placements);
    let w1 = sat_add(sat_mul(weights.class_gap, class_gap_hours), sat_mul(weights.teacher_gap, teacher_gap_hours));
    let w2 = sat_add(w1, subject_preference_weighted);
    let w3 = sat_add(w2, sat_mul(weights.class_day_balance, class_day_balance_cost_value));
    let w4 = sat_add(w3, sat_mul(weights.max_per_class_spread, worst_per_class_spread));
    let w5 = sat_add(w4, sat_mul(weights.max_per_class_interior_gaps, worst_per_class_interior_gaps));
    let w6 = sat_add(w5, home_room_weighted);
    let weighted_score = sat_add(w6, sat_mul(weights.prefer_class_teacher, prefer_class_teacher_misses));
    let hard_violations: u32 = if violations.len() > u32::MAX as usize {
        u32::MAX
    } else {
        violations.len() as u32
    };
    QualityReport {
        hard_violations,
        unplaced_hours: expected.saturating_sub(placed),
        class_gap_hours,
        teacher_gap_hours,
        class_day_balance_cost: class_day_balance_cost_value,
        home_room_misses,
        prefer_early_units: units.0,
        avoid_first_units: units.1,
        avoid_last_units: units.2,
        prefer_late_units: units.3,
        prefer_class_teacher_misses,
        weighted_score,
        worst_per_class_spread,
        worst_per_class_interior_gaps,
    }
}

/// One canonical soft-objective axis. Hard violations and unplaced hours are
/// pruned during search rather than optimised, so they are no component.
#[derive(Clone, Copy, Debug, PartialEq, Eq, Structural, PartialOrd, Ord, Hash)]
pub enum QualityComponent {
    /// Weighted class gap-hours.
    ClassGap,
    /// Weighted teacher gap-hours.
    TeacherGap,
    /// Weighted class day-balance cost.
    ClassDayBalance,
    /// Weighted home-room misses.
    HomeRoom,
    /// Weighted prefer-early units.
    PreferEarly,
    /// Weighted avoid-first units.
    AvoidFirst,
    /// Weighted avoid-last units.
    AvoidLast,
    /// Weighted prefer-late units.
    PreferLate,
    /// Weighted class-teacher misses.
    PreferClassTeacher,
}

/// Every component, in declaration order.
pub open spec fn all_components_spec() -> Seq<QualityComponent> {
    seq![
        QualityComponent::ClassGap,
        QualityComponent::TeacherGap,
        QualityComponent::ClassDayBalance,
        QualityComponent::HomeRoom,
        QualityComponent::PreferEarly,
        QualityComponent::AvoidFirst,
        QualityComponent::AvoidLast,
        QualityComponent::PreferLate,
        QualityComponent::PreferClassTeacher,
    ]
}

/// The label of each component, as characters.
pub open spec fn component_label_spec(c: QualityComponent) -> Seq<char> {
    match c {
        QualityComponent::ClassGap => "class_gap"@,
        QualityComponent::TeacherGap => "teacher_gap"@,
        QualityComponent::ClassDayBalance => "class_day_balance"@,
        QualityComponent::HomeRoom => "home_room"@,
        QualityComponent::PreferEarly => "prefer_early"@,
        QualityComponent::AvoidFirst => "avoid_first"@,
        QualityComponent::AvoidLast => "avoid_last"@,
        QualityComponent::PreferLate => "prefer_late"@,
        QualityComponent::PreferClassTeacher => "prefer_class_teacher"@,
    }
}

impl QualityComponent {
    /// Every variant, in order.
    pub fn all() -> (v: Vec<QualityComponent>)
        ensures
            v@ == all_components_spec(),
    {
        let v = vec![
            QualityComponent::ClassGap,
            QualityComponent::TeacherGap,
            QualityComponent::ClassDayBalance,
            QualityComponent::HomeRoom,
            QualityComponent::PreferEarly,
            QualityComponent::AvoidFirst,
            QualityComponent::AvoidLast,
            QualityComponent::PreferLate,
            QualityComponent::PreferClassTeacher,
        ];
        assert(v@ =~= all_components_spec());
        v
    }

    /// Lower-snake_case label of the component.
    pub fn component_label(self) -> (l: &'static str)
        ensures
            l@ == component_label_spec(self),
    {
        match self {
            QualityComponent::ClassGap => "class_gap",
            QualityComponent::TeacherGap => "teacher_gap",
            QualityComponent::ClassDayBalance => "class_day_balance",
            QualityComponent::HomeRoom => "home_room",
            QualityComponent::PreferEarly => "prefer_early",
            QualityComponent::AvoidFirst => "avoid_first",
            QualityComponent::AvoidLast => "avoid_last",
            QualityComponent::PreferLate => "prefer_late",
            QualityComponent::PreferClassTeacher => "prefer_class_teacher",
        }
    }
}

/// Rationale shared by the LAHC backends.
pub const LAHC_NOTES: &'static str = "LAHC accepts and exits on the full canonical (see lahc::run); FFD greedy ranks windows by slice + home_room + class_day_balance (item 54).";

/// Rationale of the ruin-and-recreate LAHC backend.
pub const LAHC_RR_NOTES: &'static str = "Inherits LAHC's canonical objective; R&R recreate ranks rooms by home_room delta after item 49.";

/// Rationale of the CP-SAT backend.
pub const CPSAT_NOTES: &'static str = "CP-SAT minimises the canonical objective end-to-end (cpsat.py): subject_preference plus home_room plus class_gap plus teacher_gap plus class_day_balance, weights from PRODUCTION_ACTIVE_WEIGHTS.";

/// Per-backend objective declaration: which components the backend's
/// internal search loop or model objective optimises, and which it
/// explicitly skips. Each component occurs at most once per list.
#[derive(Debug)]
pub struct BackendObjective {
    /// Backend identifier.
    pub name: &'static str,
    /// Components the backend's internal objective steers toward.
    pub optimised: Vec<QualityComponent>,
    /// Components the backend's internal objective leaves out.
    pub declared_skipped: Vec<QualityComponent>,
    /// One-sentence rationale.
    pub notes: &'static str,
}

/// The registered backend names, in registration order.
pub open spec fn backend_names() -> Seq<Seq<char>> {
    seq!["lahc"@, "lahc_rr"@, "lahc_kempe"@, "lahc_rr_kempe"@, "cpsat"@]
}

/// The rationale registered for backend `name`.
pub open spec fn backend_notes(name: Seq<char>) -> Seq<char> {
    if name == "lahc_rr"@ {
        LAHC_RR_NOTES@
    } else if name == "cpsat"@ {
        CPSAT_NOTES@
    } else {
        LAHC_NOTES@
    }
}

/// `bo` is the declaration registered for backend `name`: every backend
/// optimises every component and skips none.
pub open spec fn registered_objective(bo: BackendObjective, name: Seq<char>) -> bool {
    &&& bo.name@ == name
    &&& bo.optimised@ == all_components_spec()
    &&& bo.declared_skipped@ == Seq::<QualityComponent>::empty()
    &&& bo.notes@ == backend_notes(name)
}

/// Every component is in exactly one of `optimised` and `declared_skipped`.
pub open spec fn partitions_components(bo: BackendObjective) -> bool {
    forall|c: QualityComponent| #[trigger] bo.optimised@.contains(c) != bo.declared_skipped@.contains(c)
}

fn objective_for(name: &'static str, notes: &'static str) -> (bo: BackendObjective)
    ensures
        bo.name == name,
        bo.notes == notes,
        bo.optimised@ == all_components_spec(),
        bo.declared_skipped@ == Seq::<QualityComponent>::empty(),
{
    BackendObjective { name, optimised: QualityComponent::all(), declared_skipped: Vec::new(), notes }
}

/// The declarations of every registered backend, in registration order.
pub fn build_backend_objectives() -> (v: Vec<BackendObjective>)
    ensures
        v@.len() == backend_names().len(),
        forall|i: int| 0 <= i < v@.len() ==> registered_objective(#[trigger] v@[i], backend_names()[i]),
{
    let mut v: Vec<BackendObjective> = Vec::new();
    v.push(objective_for("lahc", LAHC_NOTES));
    v.push(objective_for("lahc_rr", LAHC_RR_NOTES));
    v.push(objective_for("lahc_kempe", LAHC_NOTES));
    v.push(objective_for("lahc_rr_kempe", LAHC_NOTES));
    v.push(objective_for("cpsat", CPSAT_NOTES));
    proof {
        reveal_strlit("lahc");
        reveal_strlit("lahc_rr");
        reveal_strlit("lahc_kempe");
        reveal_strlit("lahc_rr_kempe");
        reveal_strlit("cpsat");
        assert("lahc"@.len() == 4 && "lahc_rr"@.len() == 7 && "lahc_kempe"@.len() == 10);
        assert("lahc_rr_kempe"@.len() == 13 && "cpsat"@.len() == 5);
        assert(registered_objective(v@[0], backend_names()[0]));
        assert(registered_objective(v@[1], backend_names()[1]));
        assert(registered_objective(v@[2], backend_names()[2]));
        assert(registered_objective(v@[3], backend_names()[3]));
        assert(registered_objective(v@[4], backend_names()[4]));
    }
    v
}

/// The declaration of backend `name`, or `None` for an unregistered name.
/// Every declaration splits the components between optimised and skipped.
pub fn backend_objective(name: &str) -> (r: Option<BackendObjective>)
    ensures
        r is Some <==> backend_names().contains(name@),
        r matches Some(bo) ==> registered_objective(bo, name@) && partitions_components(bo),
{
    let mut all = build_backend_objectives();
    let wanted = name.to_owned();
    let mut i: usize = 0;
    while i < all.len()
        invariant
            i <= all@.len(),
            all@.len() == backend_names().len(),
            wanted@ == name@,
            forall|k: int| 0 <= k < all@.len() ==> registered_objective(#[trigger] all@[k], backend_names()[k]),
            forall|k: int| 0 <= k < i ==> backend_names()[k] != name@,
        decreases all@.len() - i,
    {
        let candidate = all[i].name.to_owned();
        if candidate == wanted {
            let bo = all.swap_remove(i);
            proof {
                assert(backend_names()[i as int] == name@);
                assert(backend_names().contains(name@));
            }
            return Some(bo);
        }
        i = i + 1;
    }
    proof {
        assert forall|k: int| 0 <= k < backend_names().len() implies backend_names()[k] != name@ by {}
    }
    None
}

} // verus!
