//! Pure soft-score functions over placement sets.

use vstd::prelude::*;

use crate::arith::{abs_diff, sat, sat_add, sat_mul};
use crate::lookup::{
    class_index, find_class, find_lesson, find_subject, find_tb, lemma_class_index, lesson_index,
    max_position_for, max_position_of_day, subject_index, tb_index,
};
use crate::partition::{
    build_partition, cell_keys, cell_positions, entries_gap_sum, lemma_built_gap_sum,
    partition_gap_total, total_gaps, Partition,
};
use crate::types::{
    ConstraintWeights, Lesson, LessonId, Placement, Problem, RoomId, SchoolClass, SchoolClassId,
    Subject, TeacherId, TimeBlock, TimeBlockId,
};

use crate::positions::{
    gap_spec, lemma_sorted_insert, lemma_sorted_remove, lemma_sorted_span, lower_bound,
    sorted_insert, sorted_remove, strictly_sorted, insert_sorted,
};

verus! {

/// Count gap-hours in a sorted, deduplicated `positions` slice. A gap-hour
/// is an ordinal strictly between the first and the last position that does
/// not appear in `positions`.
pub fn gap_count(positions: &[u8]) -> (g: u32)
    requires
        positions@.len() < 2 || (positions@.first() <= positions@.last()
            && positions@.len() <= positions@.last() - positions@.first() + 1),
    ensures
        g == gap_spec(positions@),
{
    if positions.len() < 2 {
        return 0;
    }
    let span = (positions[positions.len() - 1] - positions[0]) as u32;
    let count = positions.len() as u32;
    span + 1 - count
}

/// Count gap-hours in `positions` after inserting `pos`. `None` (no
/// partition yet) counts as zero gaps. The caller passes a sorted,
/// deduplicated slice.
pub fn gap_count_after_insert(positions: Option<&Vec<u8>>, pos: u8) -> (g: u32)
    requires
        positions matches Some(v) ==> strictly_sorted(v@),
    ensures
        g == match positions {
            None => 0,
            Some(v) => gap_spec(sorted_insert(v@, pos)),
        },
{
    let positions = match positions {
        None => return 0,
        Some(v) => v,
    };
    proof {
        lemma_sorted_insert(positions@, pos);
    }
    if positions.len() == 0 {
        return 0;
    }
    proof {
        lemma_sorted_span(positions@);
    }
    let i = lower_bound(positions.as_slice(), pos);
    let already_present = i < positions.len() && positions[i] == pos;
    let len_after = if already_present {
        positions.len()
    } else {
        positions.len() + 1
    };
    if len_after < 2 {
        return 0;
    }
    let first = positions[0];
    let last = positions[positions.len() - 1];
    let new_min = if pos < first { pos } else { first };
    let new_max = if pos > last { pos } else { last };
    proof {
        let r = sorted_insert(positions@, pos);
        lemma_sorted_span(r);
    }
    let span = (new_max - new_min) as u32;
    let count = len_after as u32;
    span + 1 - count
}

/// Count gap-hours in `positions` after removing `pos`; when `pos` is
/// absent this is the gap count of `positions` itself. The caller passes a
/// sorted, deduplicated slice.
pub fn gap_count_after_remove(positions: &[u8], pos: u8) -> (g: u32)
    requires
        strictly_sorted(positions@),
    ensures
        g == gap_spec(sorted_remove(positions@, pos)),
{
    proof {
        lemma_sorted_remove(positions@, pos);
        if positions@.len() >= 1 {
            lemma_sorted_span(positions@);
        }
    }
    let i = lower_bound(positions, pos);
    if !(i < positions.len() && positions[i] == pos) {
        return gap_count(positions);
    }
    let removed_at = i;
    let len_after = positions.len() - 1;
    if len_after < 2 {
        return 0;
    }
    let new_first = if removed_at == 0 {
        positions[1]
    } else {
        positions[0]
    };
    let new_last = if removed_at == positions.len() - 1 {
        positions[positions.len() - 2]
    } else {
        positions[positions.len() - 1]
    };
    proof {
        let r = sorted_remove(positions@, pos);
        lemma_sorted_span(r);
        assert(positions@[0] == pos <==> removed_at == 0);
        assert(positions@.last() == pos <==> removed_at == positions.len() - 1);
    }
    let span = (new_last - new_first) as u32;
    let count = len_after as u32;
    span + 1 - count
}

/// Per-placement subject-preference score of a lesson of `s` at position
/// `pos` on a day whose last position is `maxp`: prefer-early grows
/// linearly with the position, avoid-first fires at position 0, avoid-last
/// fires at the day's last position, prefer-late grows linearly with the
/// distance to the day's last position. Each axis is its subject weight
/// times the global weight, saturating at `u32::MAX`.
pub open spec fn subject_pref_spec(s: Subject, pos: u8, maxp: u8, w: ConstraintWeights) -> int {
    let early = if s.prefer_early_period > 0 {
        sat(sat(w.prefer_early_period * s.prefer_early_period) * pos)
    } else {
        0
    };
    let first = if s.avoid_first_period > 0 && pos == 0 {
        sat(w.avoid_first_period * s.avoid_first_period)
    } else {
        0
    };
    let last = if s.avoid_last_period > 0 && pos == maxp {
        sat(w.avoid_last_period * s.avoid_last_period)
    } else {
        0
    };
    let late = if s.prefer_late_period > 0 && w.prefer_late_period > 0 {
        sat(sat(w.prefer_late_period * s.prefer_late_period) * (if maxp > pos { maxp - pos } else { 0 }))
    } else {
        0
    };
    sat(early + first + last + late)
}

/// Per-placement subject-preference score, see `subject_pref_spec`.
pub fn subject_preference_score(
    subject: &Subject,
    tb: &TimeBlock,
    max_position_for_day: u8,
    weights: &ConstraintWeights,
) -> (score: u32)
    ensures
        score == subject_pref_spec(*subject, tb.position, max_position_for_day, *weights),
{
    let mut score = 0u32;
    if subject.prefer_early_period > 0 {
        score = sat_add(
            score,
            sat_mul(
                sat_mul(weights.prefer_early_period, subject.prefer_early_period),
                tb.position as u32,
            ),
        );
    }
    if subject.avoid_first_period > 0 && tb.position == 0 {
        score = sat_add(score, sat_mul(weights.avoid_first_period, subject.avoid_first_period));
    }
    if subject.avoid_last_period > 0 && tb.position == max_position_for_day {
        score = sat_add(score, sat_mul(weights.avoid_last_period, subject.avoid_last_period));
    }
    if subject.prefer_late_period > 0 && weights.prefer_late_period > 0 {
        let distance: u32 = if max_position_for_day > tb.position {
            (max_position_for_day - tb.position) as u32
        } else {
            0
        };
        score = sat_add(
            score,
            sat_mul(sat_mul(weights.prefer_late_period, subject.prefer_late_period), distance),
        );
    }
    score
}

/// The home room of class `c` as a map from class identifiers collected
/// from `classes` would give it: `None` when the class is unknown.
pub open spec fn home_lookup(classes: Seq<SchoolClass>, c: SchoolClassId) -> Option<Option<RoomId>> {
    let i = class_index(classes, c);
    if i < 0 {
        None
    } else {
        Some(classes[i].home_room_id)
    }
}

/// Class `c` has a home room and `room` is not it.
pub open spec fn misses_home(classes: Seq<SchoolClass>, c: SchoolClassId, room: RoomId) -> bool {
    match home_lookup(classes, c) {
        Some(Some(h)) => h != room,
        _ => false,
    }
}

/// Number of classes in `cids` (counted with repetition) placed outside
/// their home room when the lesson sits in `room`.
pub open spec fn home_miss_count(classes: Seq<SchoolClass>, cids: Seq<SchoolClassId>, room: RoomId) -> int
    decreases cids.len(),
{
    if cids.len() == 0 {
        0
    } else {
        home_miss_count(classes, cids.drop_last(), room) + (if misses_home(classes, cids.last(), room) {
            1int
        } else {
            0
        })
    }
}

/// Home-room penalty of one placement of `lesson` in `room`: the weight once
/// per member class whose home room is another room, saturating.
pub open spec fn home_penalty_spec(
    classes: Seq<SchoolClass>,
    lesson: Lesson,
    room: RoomId,
    w: ConstraintWeights,
) -> int {
    if w.prefer_home_room == 0 {
        0
    } else {
        sat(w.prefer_home_room * home_miss_count(classes, lesson.school_class_ids@, room))
    }
}

/// Per-placement home-room penalty: `weights.prefer_home_room` once per
/// member class whose home room is set and differs from `placement_room_id`.
pub fn home_room_penalty(
    lesson: &Lesson,
    classes: &Vec<SchoolClass>,
    placement_room_id: RoomId,
    weights: &ConstraintWeights,
) -> (score: u32)
    ensures
        score == home_penalty_spec(classes@, *lesson, placement_room_id, *weights),
{
    if weights.prefer_home_room == 0 {
        return 0;
    }
    let mut score = 0u32;
    let mut i: usize = 0;
    let cids = &lesson.school_class_ids;
    while i < cids.len()
        invariant
            i <= cids@.len(),
            cids == &lesson.school_class_ids,
            weights.prefer_home_room > 0,
            score == sat(weights.prefer_home_room * home_miss_count(classes@, cids@.take(i as int), placement_room_id)),
        decreases cids@.len() - i,
    {
        let ghost k = home_miss_count(classes@, cids@.take(i as int), placement_room_id);
        proof {
            assert(cids@.take(i + 1).drop_last() =~= cids@.take(i as int));
            assert(k >= 0) by {
                lemma_home_miss_count_nonneg(classes@, cids@.take(i as int), placement_room_id);
            }
        }
        let cid = cids[i];
        let found = find_class(classes, cid);
        proof {
            lemma_class_index(classes@, cid);
            assert(cids@.take(i + 1).last() == cid);
            assert(home_miss_count(classes@, cids@.take(i + 1), placement_room_id) == k + (if misses_home(
                classes@,
                cid,
                placement_room_id,
            ) {
                1int
            } else {
                0
            }));
        }
        match found {
            Some(ci) => {
                match classes[ci].home_room_id {
                    Some(home_id) => {
                        if home_id != placement_room_id {
                            proof {
                                let w = weights.prefer_home_room as int;
                                assert(w * (k + 1) == w * k + w) by (nonlinear_arith);
                                assert(w * k >= 0) by (nonlinear_arith)
                                    requires
                                        w >= 0,
                                        k >= 0,
                                ;
                            }
                            score = sat_add(score, weights.prefer_home_room);
                        }
                    },
                    None => {},
                }
            },
            None => {},
        }
        i = i + 1;
    }
    proof {
        assert(cids@.take(cids@.len() as int) =~= cids@);
    }
    score
}

pub proof fn lemma_home_miss_count_nonneg(classes: Seq<SchoolClass>, cids: Seq<SchoolClassId>, room: RoomId)
    ensures
        0 <= home_miss_count(classes, cids, room) <= cids.len(),
    decreases cids.len(),
{
    if cids.len() > 0 {
        lemma_home_miss_count_nonneg(classes, cids.drop_last(), room);
    }
}

/// Home-room penalty of one class: the weight when the class has a home
/// room that is not `room_id`, else zero.
pub fn home_room_penalty_one_class(
    class_id: SchoolClassId,
    classes: &Vec<SchoolClass>,
    room_id: RoomId,
    weights: &ConstraintWeights,
) -> (score: u32)
    ensures
        score == (if weights.prefer_home_room != 0 && misses_home(classes@, class_id, room_id) {
            weights.prefer_home_room
        } else {
            0
        }),
{
    if weights.prefer_home_room == 0 {
        return 0;
    }
    let found = find_class(classes, class_id);
    proof {
        lemma_class_index(classes@, class_id);
    }
    if let Some(ci) = found {
        if let Some(home_id) = classes[ci].home_room_id {
            if home_id != room_id {
                return weights.prefer_home_room;
            }
        }
    }
    0
}

/// The time block of placement `p`, when its identifier resolves.
pub open spec fn placement_tb(problem: Problem, p: Placement) -> Option<TimeBlock> {
    let i = tb_index(problem.time_blocks@, p.time_block_id);
    if i < 0 {
        None
    } else {
        Some(problem.time_blocks@[i])
    }
}

/// The lesson of placement `p`, when its identifier resolves.
pub open spec fn placement_lesson(problem: Problem, p: Placement) -> Option<Lesson> {
    let i = lesson_index(problem.lessons@, p.lesson_id);
    if i < 0 {
        None
    } else {
        Some(problem.lessons@[i])
    }
}

/// Every placement's time block, lesson and the lesson's subject resolve.
pub open spec fn resolvable(problem: Problem, ps: Seq<Placement>) -> bool {
    forall|i: int|
        0 <= i < ps.len() ==> {
            &&& #[trigger] placement_tb(problem, ps[i]) is Some
            &&& placement_lesson(problem, ps[i]) is Some
            &&& subject_index(problem.subjects@, placement_lesson(problem, ps[i])->0.subject_id) >= 0
        }
}

/// One cell per member class of a lesson-hour at `(day, pos)`.
pub open spec fn lesson_class_cells(cids: Seq<SchoolClassId>, day: u8, pos: u8) -> Seq<(u128, u8, u8)> {
    cids.map_values(|c: SchoolClassId| (c.0, day, pos))
}

/// The class occupancy cells of `ps`: one cell per (placement, member
/// class); placements whose time block or lesson does not resolve are
/// skipped.
pub open spec fn class_cells(problem: Problem, ps: Seq<Placement>) -> Seq<(u128, u8, u8)>
    decreases ps.len(),
{
    if ps.len() == 0 {
        seq![]
    } else {
        let rest = class_cells(problem, ps.drop_last());
        let p = ps.last();
        match (placement_tb(problem, p), placement_lesson(problem, p)) {
            (Some(tb), Some(l)) => rest + lesson_class_cells(l.school_class_ids@, tb.day_of_week, tb.position),
            _ => rest,
        }
    }
}

/// The teacher occupancy cells of `ps`: one cell per placement, owned by
/// the placement's teacher; unresolvable placements are skipped.
pub open spec fn teacher_cells(problem: Problem, ps: Seq<Placement>) -> Seq<(u128, u8, u8)>
    decreases ps.len(),
{
    if ps.len() == 0 {
        seq![]
    } else {
        let rest = teacher_cells(problem, ps.drop_last());
        let p = ps.last();
        match (placement_tb(problem, p), placement_lesson(problem, p)) {
            (Some(tb), Some(l)) => rest.push((p.teacher_id.0, tb.day_of_week, tb.position)),
            _ => rest,
        }
    }
}

/// Subject-preference score of one placement (zero when it does not
/// resolve).
pub open spec fn placement_pref(problem: Problem, p: Placement, w: ConstraintWeights) -> int {
    match (placement_tb(problem, p), placement_lesson(problem, p)) {
        (Some(tb), Some(l)) => {
            let si = subject_index(problem.subjects@, l.subject_id);
            if si < 0 {
                0
            } else {
                subject_pref_spec(problem.subjects@[si], tb.position, max_position_for(problem.time_blocks@, tb), w)
            }
        },
        _ => 0,
    }
}

/// Sum over placements of the subject-preference score.
pub open spec fn pref_sum(problem: Problem, ps: Seq<Placement>, w: ConstraintWeights) -> int
    decreases ps.len(),
{
    if ps.len() == 0 {
        0
    } else {
        pref_sum(problem, ps.drop_last(), w) + placement_pref(problem, ps.last(), w)
    }
}

pub proof fn lemma_pref_sum_mono(problem: Problem, ps: Seq<Placement>, w: ConstraintWeights)
    ensures
        pref_sum(problem, ps, w) >= 0,
        forall|k: int| 0 <= k <= ps.len() ==> pref_sum(problem, #[trigger] ps.take(k), w) <= pref_sum(problem, ps, w),
    decreases ps.len(),
{
    if ps.len() > 0 {
        let t = ps.drop_last();
        lemma_pref_sum_mono(problem, t, w);
        assert forall|k: int| 0 <= k <= ps.len() implies pref_sum(problem, #[trigger] ps.take(k), w) <= pref_sum(problem, ps, w) by {
            if k < ps.len() {
                assert(ps.take(k) =~= t.take(k));
            } else {
                assert(ps.take(k) =~= ps);
            }
        }
    }
}

/// The class occupancy cells of `placements`.
pub fn collect_class_cells(problem: &Problem, placements: &[Placement]) -> (cells: Vec<(u128, u8, u8)>)
    ensures
        cells@ == class_cells(*problem, placements@),
{
    let mut cells: Vec<(u128, u8, u8)> = Vec::new();
    let mut i: usize = 0;
    while i < placements.len()
        invariant
            i <= placements@.len(),
            cells@ == class_cells(*problem, placements@.take(i as int)),
        decreases placements@.len() - i,
    {
        let p = placements[i];
        proof {
            assert(placements@.take(i + 1).drop_last() =~= placements@.take(i as int));
            assert(placements@.take(i + 1).last() == p);
        }
        let ti = find_tb(&problem.time_blocks, p.time_block_id);
        let li = find_lesson(&problem.lessons, p.lesson_id);
        match (ti, li) {
            (Some(ti), Some(li)) => {
                let tb = problem.time_blocks[ti];
                let cids = &problem.lessons[li].school_class_ids;
                let ghost base = cells@;
                let mut k: usize = 0;
                while k < cids.len()
                    invariant
                        k <= cids@.len(),
                        cells@ == base + lesson_class_cells(cids@.take(k as int), tb.day_of_week, tb.position),
                    decreases cids@.len() - k,
                {
                    cells.push((cids[k].0, tb.day_of_week, tb.position));
                    proof {
                        assert(lesson_class_cells(cids@.take(k + 1), tb.day_of_week, tb.position)
                            =~= lesson_class_cells(cids@.take(k as int), tb.day_of_week, tb.position).push(
                            (cids@[k as int].0, tb.day_of_week, tb.position),
                        ));
                    }
                    k = k + 1;
                }
                proof {
                    assert(cids@.take(cids@.len() as int) =~= cids@);
                }
            },
            _ => {},
        }
        i = i + 1;
    }
    proof {
        assert(placements@.take(placements@.len() as int) =~= placements@);
    }
    cells
}

/// The teacher occupancy cells of `placements`.
pub fn collect_teacher_cells(problem: &Problem, placements: &[Placement]) -> (cells: Vec<(u128, u8, u8)>)
    ensures
        cells@ == teacher_cells(*problem, placements@),
{
    let mut cells: Vec<(u128, u8, u8)> = Vec::new();
    let mut i: usize = 0;
    while i < placements.len()
        invariant
            i <= placements@.len(),
            cells@ == teacher_cells(*problem, placements@.take(i as int)),
        decreases placements@.len() - i,
    {
        let p = placements[i];
        proof {
            assert(placements@.take(i + 1).drop_last() =~= placements@.take(i as int));
            assert(placements@.take(i + 1).last() == p);
        }
        let ti = find_tb(&problem.time_blocks, p.time_block_id);
        let li = find_lesson(&problem.lessons, p.lesson_id);
        match (ti, li) {
            (Some(ti), Some(_)) => {
                let tb = problem.time_blocks[ti];
                cells.push((p.teacher_id.0, tb.day_of_week, tb.position));
            },
            _ => {},
        }
        i = i + 1;
    }
    proof {
        assert(placements@.take(placements@.len() as int) =~= placements@);
    }
    cells
}

/// Sum over placements of the subject-preference score.
pub fn subject_preference_total(problem: &Problem, placements: &[Placement], weights: &ConstraintWeights) -> (total: u32)
    requires
        pref_sum(*problem, placements@, *weights) <= u32::MAX,
    ensures
        total == pref_sum(*problem, placements@, *weights),
{
    proof {
        lemma_pref_sum_mono(*problem, placements@, *weights);
    }
    let mut total: u32 = 0;
    let mut i: usize = 0;
    while i < placements.len()
        invariant
            i <= placements@.len(),
            total == pref_sum(*problem, placements@.take(i as int), *weights),
            forall|k: int| 0 <= k <= placements@.len() ==> pref_sum(*problem, #[trigger] placements@.take(k), *weights) <= pref_sum(*problem, placements@, *weights),
            pref_sum(*problem, placements@, *weights) <= u32::MAX,
        decreases placements@.len() - i,
    {
        let p = placements[i];
        proof {
            assert(placements@.take(i + 1).drop_last() =~= placements@.take(i as int));
            assert(placements@.take(i + 1).last() == p);
        }
        let ti = find_tb(&problem.time_blocks, p.time_block_id);
        let li = find_lesson(&problem.lessons, p.lesson_id);
        let mut here: u32 = 0;
        match (ti, li) {
            (Some(ti), Some(li)) => {
                let tb = problem.time_blocks[ti];
                let si = find_subject(&problem.subjects, problem.lessons[li].subject_id);
                if let Some(si) = si {
                    let max_pos = max_position_of_day(&problem.time_blocks, tb.day_of_week, tb.position);
                    here = subject_preference_score(&problem.subjects[si], &tb, max_pos, weights);
                }
            },
            _ => {},
        }
        total = total + here;
        i = i + 1;
    }
    proof {
        assert(placements@.take(placements@.len() as int) =~= placements@);
    }
    total
}

/// Total class gap-hours of `ps`.
pub open spec fn class_gap_total(problem: Problem, ps: Seq<Placement>) -> int {
    total_gaps(class_cells(problem, ps))
}

/// Total teacher gap-hours of `ps`.
pub open spec fn teacher_gap_total(problem: Problem, ps: Seq<Placement>) -> int {
    total_gaps(teacher_cells(problem, ps))
}

/// The slice objective: weighted class gaps plus weighted teacher gaps plus
/// subject preference, each step saturating.
pub open spec fn slice_spec(problem: Problem, ps: Seq<Placement>, w: ConstraintWeights) -> int {
    sat(sat(sat(w.class_gap * class_gap_total(problem, ps)) + sat(w.teacher_gap * teacher_gap_total(problem, ps)))
        + pref_sum(problem, ps, w))
}

/// The sums that the slice objective adds up without saturation fit in a
/// `u32`.
pub open spec fn slice_sums_fit(problem: Problem, ps: Seq<Placement>, w: ConstraintWeights) -> bool {
    &&& class_gap_total(problem, ps) <= u32::MAX
    &&& teacher_gap_total(problem, ps) <= u32::MAX
    &&& pref_sum(problem, ps, w) <= u32::MAX
}

/// Weighted slice score from pre-built class and teacher partitions:
/// `class_gap * class gap-hours + teacher_gap * teacher gap-hours + subject
/// preference`, saturating.
pub fn slice_costs_inner(
    problem: &Problem,
    placements: &[Placement],
    weights: &ConstraintWeights,
    by_class_day: &Partition,
    by_teacher_day: &Partition,
) -> (score: u32)
    requires
        by_class_day.wf(),
        by_teacher_day.wf(),
        entries_gap_sum(by_class_day.entries@) <= u32::MAX,
        entries_gap_sum(by_teacher_day.entries@) <= u32::MAX,
        pref_sum(*problem, placements@, *weights) <= u32::MAX,
    ensures
        score == sat(sat(sat(weights.class_gap * entries_gap_sum(by_class_day.entries@)) + sat(
            weights.teacher_gap * entries_gap_sum(by_teacher_day.entries@),
        )) + pref_sum(*problem, placements@, *weights)),
{
    let class_gaps = partition_gap_total(by_class_day);
    let teacher_gaps = partition_gap_total(by_teacher_day);
    let subject_preference = subject_preference_total(problem, placements, weights);
    sat_add(
        sat_add(sat_mul(weights.class_gap, class_gaps), sat_mul(weights.teacher_gap, teacher_gaps)),
        subject_preference,
    )
}

/// The slice objective recomputed from scratch: class and teacher gap-hours
/// plus subject preference, see `slice_spec`.
pub fn slice_recompute(problem: &Problem, placements: &[Placement], weights: &ConstraintWeights) -> (score: u32)
    requires
        slice_sums_fit(*problem, placements@, *weights),
    ensures
        score == slice_spec(*problem, placements@, *weights),
{
    let class_cells_v = collect_class_cells(problem, placements);
    let teacher_cells_v = collect_teacher_cells(problem, placements);
    let by_class_day = build_partition(&class_cells_v);
    let by_teacher_day = build_partition(&teacher_cells_v);
    proof {
        lemma_built_gap_sum(&by_class_day, class_cells_v@);
        lemma_built_gap_sum(&by_teacher_day, teacher_cells_v@);
    }
    slice_costs_inner(problem, placements, weights, &by_class_day, &by_teacher_day)
}

/// Sum of a sequence of integers.
pub open spec fn seq_sum(s: Seq<int>) -> int
    decreases s.len(),
{
    if s.len() == 0 {
        0
    } else {
        seq_sum(s.drop_last()) + s.last()
    }
}

/// Sum over `counts` of `|min(c * d, u32::MAX) - sum|`.
pub open spec fn scaled_sum(counts: Seq<int>, d: int, sum: int) -> int
    decreases counts.len(),
{
    if counts.len() == 0 {
        0
    } else {
        let c = sat(counts.last() * d);
        scaled_sum(counts.drop_last(), d, sum) + (if c >= sum { c - sum } else { sum - c })
    }
}

/// Scaled L1 distance of `counts` from the mean `sum / d`, divided by `d`,
/// with the running sums saturating at `u32::MAX`; zero when `sum` is zero.
pub open spec fn balance_with_sum(counts: Seq<int>, d: int, sum: int) -> int {
    if sum == 0 {
        0
    } else {
        sat(scaled_sum(counts, d, sum)) / d
    }
}

/// Day-balance cost of per-day counts over `d` days:
/// `sum over days of |count * d - total| / d`, zero for no days or no
/// placements.
pub open spec fn balance_spec(counts: Seq<int>, d: int) -> int {
    if d == 0 {
        0
    } else {
        balance_with_sum(counts, d, sat(seq_sum(counts)))
    }
}

/// Per-day counts of `owner` over days `0..days` in partition `p`.
pub open spec fn day_counts(p: Partition, owner: u128, days: u8) -> Seq<int> {
    Seq::new(days as nat, |d: int| p.count((owner, d as u8)))
}

/// Day-balance cost of one class in partition `p`.
pub open spec fn class_balance_spec(p: Partition, class_id: SchoolClassId, days: u8) -> int {
    balance_spec(day_counts(p, class_id.0, days), days as int)
}

pub proof fn lemma_counts_bounded(p: Partition, owner: u128, days: u8)
    requires
        p.wf(),
    ensures
        forall|i: int| 0 <= i < days ==> 0 <= #[trigger] day_counts(p, owner, days)[i] <= 256,
{
    assert forall|i: int| 0 <= i < days implies 0 <= #[trigger] day_counts(p, owner, days)[i] <= 256 by {
        crate::partition::lemma_lookup_bounded(&p, (owner, i as u8));
    }
}

/// Sum of the per-day counts of `owner` over `0..days`, saturating.
fn saturated_day_sum(p: &Partition, owner: u128, days: u8) -> (sum: u32)
    requires
        p.wf(),
    ensures
        sum == sat(seq_sum(day_counts(*p, owner, days))),
{
    let ghost counts = day_counts(*p, owner, days);
    proof {
        lemma_counts_bounded(*p, owner, days);
        lemma_seq_sum_prefixes_nonneg(counts);
    }
    let mut sum: u32 = 0;
    let mut day: u8 = 0;
    while day < days
        invariant
            day <= days,
            p.wf(),
            counts == day_counts(*p, owner, days),
            sum == sat(seq_sum(counts.take(day as int))),
            forall|k: int| 0 <= k <= days ==> seq_sum(#[trigger] counts.take(k)) >= 0,
        decreases days - day,
    {
        proof {
            assert(counts.take(day + 1).drop_last() =~= counts.take(day as int));
        }
        let c = p.count_of(owner, day);
        sum = sat_add(sum, c);
        day = day + 1;
    }
    proof {
        assert(counts.take(days as int) =~= counts);
    }
    sum
}

pub proof fn lemma_seq_sum_prefixes_nonneg(s: Seq<int>)
    requires
        forall|i: int| 0 <= i < s.len() ==> s[i] >= 0,
    ensures
        forall|k: int| 0 <= k <= s.len() ==> seq_sum(#[trigger] s.take(k)) >= 0,
        seq_sum(s) >= 0,
    decreases s.len(),
{
    if s.len() > 0 {
        let t = s.drop_last();
        lemma_seq_sum_prefixes_nonneg(t);
        assert forall|k: int| 0 <= k <= s.len() implies seq_sum(#[trigger] s.take(k)) >= 0 by {
            if k < s.len() {
                assert(s.take(k) =~= t.take(k));
            } else {
                assert(s.take(k) =~= s);
            }
        }
    }
}

/// `balance_with_sum` of the first `n` counts over `d` days.
fn scaled_cost(counts: &[u32], n: usize, d: u32, sum: u32) -> (r: u32)
    requires
        d > 0,
        n <= counts@.len(),
    ensures
        r == balance_with_sum(counts@.take(n as int).map_values(|c: u32| c as int), d as int, sum as int),
{
    let ghost cs = counts@.take(n as int).map_values(|c: u32| c as int);
    if sum == 0 {
        return 0;
    }
    let mut scaled: u32 = 0;
    let mut i: usize = 0;
    while i < n
        invariant
            i <= n <= counts@.len(),
            cs == counts@.take(n as int).map_values(|c: u32| c as int),
            scaled == sat(scaled_sum(cs.take(i as int), d as int, sum as int)),
        decreases n - i,
    {
        proof {
            assert(cs.take(i + 1).drop_last() =~= cs.take(i as int));
            assert(cs.take(i + 1).last() == counts@[i as int] as int);
            lemma_scaled_sum_nonneg(cs.take(i as int), d as int, sum as int);
        }
        let lhs = sat_mul(counts[i], d);
        scaled = sat_add(scaled, abs_diff(lhs, sum));
        i = i + 1;
    }
    proof {
        assert(cs.take(n as int) =~= cs);
    }
    scaled / d
}

/// Saturating sum of the first `n` counts.
fn saturated_prefix_sum(counts: &[u32], n: usize) -> (sum: u32)
    requires
        n <= counts@.len(),
    ensures
        sum == sat(seq_sum(counts@.take(n as int).map_values(|c: u32| c as int))),
{
    let ghost cs = counts@.take(n as int).map_values(|c: u32| c as int);
    proof {
        lemma_seq_sum_prefixes_nonneg(cs);
    }
    let mut sum: u32 = 0;
    let mut i: usize = 0;
    while i < n
        invariant
            i <= n <= counts@.len(),
            cs == counts@.take(n as int).map_values(|c: u32| c as int),
            sum == sat(seq_sum(cs.take(i as int))),
            forall|k: int| 0 <= k <= n ==> seq_sum(#[trigger] cs.take(k)) >= 0,
        decreases n - i,
    {
        proof {
            assert(cs.take(i + 1).drop_last() =~= cs.take(i as int));
            assert(cs.take(i + 1).last() == counts@[i as int] as int);
        }
        sum = sat_add(sum, counts[i]);
        i = i + 1;
    }
    proof {
        assert(cs.take(n as int) =~= cs);
    }
    sum
}

pub proof fn lemma_scaled_sum_nonneg(counts: Seq<int>, d: int, sum: int)
    ensures
        scaled_sum(counts, d, sum) >= 0,
    decreases counts.len(),
{
    if counts.len() > 0 {
        lemma_scaled_sum_nonneg(counts.drop_last(), d, sum);
    }
}

/// The per-day counts of `owner` over `0..days`, with `overlay` applied.
fn collect_day_counts(p: &Partition, owner: u128, days: u8) -> (counts: Vec<u32>)
    requires
        p.wf(),
    ensures
        counts@.map_values(|c: u32| c as int) == day_counts(*p, owner, days),
{
    let mut counts: Vec<u32> = Vec::new();
    let mut day: u8 = 0;
    while day < days
        invariant
            day <= days,
            p.wf(),
            counts@.len() == day,
            forall|k: int| 0 <= k < day ==> counts@[k] as int == p.count((owner, k as u8)),
        decreases days - day,
    {
        let c = p.count_of(owner, day);
        counts.push(c);
        day = day + 1;
    }
    proof {
        assert(counts@.map_values(|c: u32| c as int) =~= day_counts(*p, owner, days));
    }
    counts
}

/// Per-class day-balance cost: `sum over days of |count[day] * days - total|
/// / days` for class `class_id`, where counts come from `class_positions`.
pub fn class_day_balance_cost_for_class(class_id: SchoolClassId, days: u8, class_positions: &Partition) -> (cost: u32)
    requires
        class_positions.wf(),
    ensures
        cost == class_balance_spec(*class_positions, class_id, days),
{
    if days == 0 {
        return 0;
    }
    let sum = saturated_day_sum(class_positions, class_id.0, days);
    let counts = collect_day_counts(class_positions, class_id.0, days);
    proof {
        assert(counts@.take(counts@.len() as int) =~= counts@);
    }
    scaled_cost(counts.as_slice(), counts.len(), days as u32, sum)
}

/// Day counts with one placement moved from `old_day` to `new_day`
/// (the old day's count not going below zero).
pub open spec fn swap_overlay(raw: Seq<int>, old_day: u8, new_day: u8) -> Seq<int> {
    Seq::new(
        raw.len(),
        |d: int|
            if d == old_day {
                if raw[d] > 0 {
                    raw[d] - 1
                } else {
                    0
                }
            } else if d == new_day {
                sat(raw[d] + 1)
            } else {
                raw[d]
            },
    )
}

/// Day counts with `n` placements added on `add_day`.
pub open spec fn add_overlay(raw: Seq<int>, add_day: u8, n: int) -> Seq<int> {
    Seq::new(raw.len(), |d: int| if d == add_day { sat(raw[d] + n) } else { raw[d] })
}

/// Day-balance cost of one class as if one placement had moved from
/// `old_day` to `new_day`; the total used for the mean is the unmoved one.
pub open spec fn class_balance_swap_spec(p: Partition, class_id: SchoolClassId, days: u8, old_day: u8, new_day: u8) -> int {
    if days == 0 || old_day == new_day {
        class_balance_spec(p, class_id, days)
    } else {
        let raw = day_counts(p, class_id.0, days);
        balance_with_sum(swap_overlay(raw, old_day, new_day), days as int, sat(seq_sum(raw)))
    }
}

/// Day-balance cost of one class as if `add_n` placements had been added on
/// `add_day`.
pub open spec fn class_balance_add_spec(p: Partition, class_id: SchoolClassId, days: u8, add_day: u8, add_n: u8) -> int {
    if days == 0 {
        0
    } else {
        let raw = day_counts(p, class_id.0, days);
        balance_with_sum(add_overlay(raw, add_day, add_n as int), days as int, sat(sat(seq_sum(raw)) + add_n))
    }
}

/// Per-class day-balance cost with a virtual move of one placement from
/// `old_day` to `new_day`, without changing `class_positions`.
pub fn class_day_balance_cost_for_class_with_swap(
    class_id: SchoolClassId,
    days: u8,
    class_positions: &Partition,
    old_day: u8,
    new_day: u8,
) -> (cost: u32)
    requires
        class_positions.wf(),
    ensures
        cost == class_balance_swap_spec(*class_positions, class_id, days, old_day, new_day),
{
    if days == 0 || old_day == new_day {
        return class_day_balance_cost_for_class(class_id, days, class_positions);
    }
    let sum = saturated_day_sum(class_positions, class_id.0, days);
    let raw = collect_day_counts(class_positions, class_id.0, days);
    let ghost rawc = day_counts(*class_positions, class_id.0, days);
    let mut counts: Vec<u32> = Vec::new();
    let mut day: usize = 0;
    while day < raw.len()
        invariant
            day <= raw@.len(),
            raw@.len() == days,
            raw@.map_values(|c: u32| c as int) == rawc,
            counts@.len() == day,
            forall|k: int| 0 <= k < day ==> counts@[k] as int == swap_overlay(rawc, old_day, new_day)[k],
        decreases raw@.len() - day,
    {
        let r = raw[day];
        proof {
            assert(rawc[day as int] == r as int);
        }
        let c = if day == old_day as usize {
            r.saturating_sub(1)
        } else if day == new_day as usize {
            sat_add(r, 1)
        } else {
            r
        };
        counts.push(c);
        day = day + 1;
    }
    proof {
        assert(counts@.take(counts@.len() as int).map_values(|c: u32| c as int) =~= swap_overlay(rawc, old_day, new_day));
    }
    scaled_cost(counts.as_slice(), counts.len(), days as u32, sum)
}

/// Per-class day-balance cost with a virtual addition of `add_n`
/// placements on `add_day`, without changing `class_positions`.
pub fn class_day_balance_cost_for_class_after_add(
    class_id: SchoolClassId,
    days: u8,
    class_positions: &Partition,
    add_day: u8,
    add_n: u8,
) -> (cost: u32)
    requires
        class_positions.wf(),
    ensures
        cost == class_balance_add_spec(*class_positions, class_id, days, add_day, add_n),
{
    if days == 0 {
        return 0;
    }
    let added = add_n as u32;
    let sum = sat_add(saturated_day_sum(class_positions, class_id.0, days), added);
    let raw = collect_day_counts(class_positions, class_id.0, days);
    let ghost rawc = day_counts(*class_positions, class_id.0, days);
    let mut counts: Vec<u32> = Vec::new();
    let mut day: usize = 0;
    while day < raw.len()
        invariant
            day <= raw@.len(),
            raw@.len() == days,
            raw@.map_values(|c: u32| c as int) == rawc,
            counts@.len() == day,
            forall|k: int| 0 <= k < day ==> counts@[k] as int == add_overlay(rawc, add_day, add_n as int)[k],
            added == add_n as u32,
        decreases raw@.len() - day,
    {
        let r = raw[day];
        proof {
            assert(rawc[day as int] == r as int);
        }
        let c = if day == add_day as usize {
            sat_add(r, added)
        } else {
            r
        };
        proof {
            assert(added as int == add_n as int);
            assert(rawc.len() == days);
            let ov = add_overlay(rawc, add_day, add_n as int);
            assert(ov.len() == days);
            if day == add_day as usize {
                assert(ov[day as int] == sat(rawc[day as int] + add_n as int));
            } else {
                assert(ov[day as int] == rawc[day as int]);
            }
        }
        counts.push(c);
        day = day + 1;
    }
    proof {
        assert(counts@.take(counts@.len() as int).map_values(|c: u32| c as int) =~= add_overlay(rawc, add_day, add_n as int));
    }
    scaled_cost(counts.as_slice(), counts.len(), days as u32, sum)
}

/// Day-balance cost of pre-captured counts (`counts[day]`), over the first
/// `days` entries (fewer when `counts` is shorter).
pub open spec fn balance_from_counts_spec(days: u8, counts: Seq<u32>) -> int {
    if days == 0 || counts.len() == 0 {
        0
    } else {
        let n = if counts.len() < days { counts.len() as int } else { days as int };
        let cs = counts.take(n).map_values(|c: u32| c as int);
        balance_with_sum(cs, days as int, sat(seq_sum(cs)))
    }
}

/// Per-class day-balance cost computed from a counts vector supplied by the
/// caller.
pub fn class_day_balance_cost_for_class_from_counts(_class_id: SchoolClassId, days: u8, counts: &[u32]) -> (cost: u32)
    ensures
        cost == balance_from_counts_spec(days, counts@),
{
    if days == 0 || counts.len() == 0 {
        return 0;
    }
    let n: usize = if counts.len() < days as usize {
        counts.len()
    } else {
        days as usize
    };
    let sum = saturated_prefix_sum(counts, n);
    scaled_cost(counts, n, days as u32, sum)
}

/// Sum over `classes` (with repetition) of the per-class day-balance cost.
pub open spec fn classes_balance_sum(p: Partition, classes: Seq<SchoolClass>, days: u8) -> int
    decreases classes.len(),
{
    if classes.len() == 0 {
        0
    } else {
        classes_balance_sum(p, classes.drop_last(), days) + class_balance_spec(p, classes.last().id, days)
    }
}

pub proof fn lemma_balance_nonneg(counts: Seq<int>, d: int)
    requires
        d >= 0,
    ensures
        balance_spec(counts, d) >= 0,
{
    if d > 0 {
        lemma_scaled_sum_nonneg(counts, d, sat(seq_sum(counts)));
    }
}

/// L1 day-balance cost summed over `classes`: the saturating sum of the
/// per-class cost; zero when there are no days.
pub fn class_day_balance_cost(by_class_day: &Partition, classes: &Vec<SchoolClass>, days: u8) -> (cost: u32)
    requires
        by_class_day.wf(),
    ensures
        cost == (if days == 0 { 0 } else { sat(classes_balance_sum(*by_class_day, classes@, days)) }),
{
    if days == 0 {
        return 0;
    }
    let mut total: u32 = 0;
    let mut i: usize = 0;
    while i < classes.len()
        invariant
            i <= classes@.len(),
            by_class_day.wf(),
            days > 0,
            total == sat(classes_balance_sum(*by_class_day, classes@.take(i as int), days)),
        decreases classes@.len() - i,
    {
        proof {
            assert(classes@.take(i + 1).drop_last() =~= classes@.take(i as int));
            assert(classes@.take(i + 1).last() == classes@[i as int]);
            lemma_classes_balance_nonneg(*by_class_day, classes@.take(i as int), days);
            lemma_balance_nonneg(day_counts(*by_class_day, classes@[i as int].id.0, days), days as int);
        }
        let c = class_day_balance_cost_for_class(classes[i].id, days, by_class_day);
        total = sat_add(total, c);
        i = i + 1;
    }
    proof {
        assert(classes@.take(classes@.len() as int) =~= classes@);
    }
    total
}

pub proof fn lemma_classes_balance_nonneg(p: Partition, classes: Seq<SchoolClass>, days: u8)
    ensures
        classes_balance_sum(p, classes, days) >= 0,
    decreases classes.len(),
{
    if classes.len() > 0 {
        lemma_classes_balance_nonneg(p, classes.drop_last(), days);
        lemma_balance_nonneg(day_counts(p, classes.last().id.0, days), days as int);
    }
}

/// Number of distinct slots (positions) `owner` occupies on day `d`: two
/// cells of one owner at the same position count once.
pub open spec fn cell_count(cells: Seq<(u128, u8, u8)>, owner: u128, d: u8) -> int {
    cell_positions(cells, (owner, d)).len() as int
}

/// Owners with a cell on one of the days `0..5`, without repetition, in
/// order of first occurrence.
pub open spec fn weekday_owners(cells: Seq<(u128, u8, u8)>) -> Seq<u128>
    decreases cells.len(),
{
    if cells.len() == 0 {
        seq![]
    } else {
        let o = weekday_owners(cells.drop_last());
        let c = cells.last();
        if c.1 < 5 && !o.contains(c.0) {
            o.push(c.0)
        } else {
            o
        }
    }
}

/// Largest of the weekday counts of `owner` over days `0..n`.
pub open spec fn max_weekday_count(cells: Seq<(u128, u8, u8)>, owner: u128, n: nat) -> int
    decreases n,
{
    if n == 0 {
        0
    } else {
        let m = max_weekday_count(cells, owner, (n - 1) as nat);
        let c = cell_count(cells, owner, (n - 1) as u8);
        if c > m { c } else { m }
    }
}

/// Smallest of the weekday counts of `owner` over days `0..n` (`n >= 1`).
pub open spec fn min_weekday_count(cells: Seq<(u128, u8, u8)>, owner: u128, n: nat) -> int
    decreases n,
{
    if n <= 1 {
        cell_count(cells, owner, 0)
    } else {
        let m = min_weekday_count(cells, owner, (n - 1) as nat);
        let c = cell_count(cells, owner, (n - 1) as u8);
        if c < m { c } else { m }
    }
}

/// Daily-load spread of `owner` over Monday to Friday: busiest day minus
/// quietest day, each day counting the distinct slots occupied.
pub open spec fn weekday_spread(cells: Seq<(u128, u8, u8)>, owner: u128) -> int {
    max_weekday_count(cells, owner, 5) - min_weekday_count(cells, owner, 5)
}

/// Largest spread over `owners` (zero when there are none).
pub open spec fn max_spread(cells: Seq<(u128, u8, u8)>, owners: Seq<u128>) -> int
    decreases owners.len(),
{
    if owners.len() == 0 {
        0
    } else {
        let m = max_spread(cells, owners.drop_last());
        let s = weekday_spread(cells, owners.last());
        if s > m { s } else { m }
    }
}

/// Worst per-class daily-load spread over Monday to Friday: the largest
/// `max(count) - min(count)` over classes with a weekday placement, where a
/// day's count is the number of distinct slots the class occupies that day.
pub open spec fn worst_spread_spec(problem: Problem, ps: Seq<Placement>) -> int {
    let cells = class_cells(problem, ps);
    max_spread(cells, weekday_owners(cells))
}

/// A day holds at most 256 distinct slots of an owner.
pub proof fn lemma_cell_count_small(cells: Seq<(u128, u8, u8)>, owner: u128, d: u8)
    ensures
        0 <= cell_count(cells, owner, d) <= 256,
{
    crate::partition::lemma_cell_positions(cells, (owner, d));
    if cell_positions(cells, (owner, d)).len() >= 1 {
        lemma_sorted_span(cell_positions(cells, (owner, d)));
    }
}

/// Number of distinct positions of `owner` on day `d`.
fn count_cells(cells: &Vec<(u128, u8, u8)>, owner: u128, d: u8) -> (c: u32)
    requires
        cell_count(cells@, owner, d) <= u32::MAX,
    ensures
        c == cell_count(cells@, owner, d),
{
    let mut seen: Vec<u8> = Vec::new();
    let mut i: usize = 0;
    while i < cells.len()
        invariant
            i <= cells@.len(),
            seen@ == cell_positions(cells@.take(i as int), (owner, d)),
            strictly_sorted(seen@),
        decreases cells@.len() - i,
    {
        proof {
            assert(cells@.take(i + 1).drop_last() =~= cells@.take(i as int));
            assert(cells@.take(i + 1).last() == cells@[i as int]);
        }
        if cells[i].0 == owner && cells[i].1 == d {
            insert_sorted(&mut seen, cells[i].2);
        }
        i = i + 1;
    }
    proof {
        assert(cells@.take(cells@.len() as int) =~= cells@);
    }
    seen.len() as u32
}

/// Owners with a weekday cell.
fn collect_weekday_owners(cells: &Vec<(u128, u8, u8)>) -> (owners: Vec<u128>)
    ensures
        owners@ == weekday_owners(cells@),
{
    let mut owners: Vec<u128> = Vec::new();
    let mut i: usize = 0;
    while i < cells.len()
        invariant
            i <= cells@.len(),
            owners@ == weekday_owners(cells@.take(i as int)),
        decreases cells@.len() - i,
    {
        proof {
            assert(cells@.take(i + 1).drop_last() =~= cells@.take(i as int));
            assert(cells@.take(i + 1).last() == cells@[i as int]);
        }
        let c = cells[i];
        if c.1 < 5 {
            let mut found = false;
            let mut j: usize = 0;
            while j < owners.len()
                invariant
                    j <= owners@.len(),
                    found <==> exists|k: int| 0 <= k < j && owners@[k] == c.0,
                decreases owners@.len() - j,
            {
                if owners[j] == c.0 {
                    found = true;
                }
                j = j + 1;
            }
            proof {
                if found {
                    let k = choose|k: int| 0 <= k < j && owners@[k] == c.0;
                    assert(owners@.contains(c.0));
                } else {
                    assert(!owners@.contains(c.0));
                }
            }
            if !found {
                owners.push(c.0);
            }
        }
        i = i + 1;
    }
    proof {
        assert(cells@.take(cells@.len() as int) =~= cells@);
    }
    owners
}

/// Weekday spread of one owner.
fn owner_spread(cells: &Vec<(u128, u8, u8)>, owner: u128) -> (s: u32)
    requires
        forall|d: u8| d < 5 ==> #[trigger] cell_count(cells@, owner, d) <= u32::MAX,
    ensures
        s == weekday_spread(cells@, owner),
{
    let first = count_cells(cells, owner, 0);
    let mut mx: u32 = first;
    let mut mn: u32 = first;
    proof {
        assert(max_weekday_count(cells@, owner, 1) == first) by {
            assert(max_weekday_count(cells@, owner, 0) == 0);
        }
    }
    let mut d: u8 = 1;
    while d < 5
        invariant
            1 <= d <= 5,
            forall|e: u8| e < 5 ==> #[trigger] cell_count(cells@, owner, e) <= u32::MAX,
            mx == max_weekday_count(cells@, owner, d as nat),
            mn == min_weekday_count(cells@, owner, d as nat),
            mn <= mx,
        decreases 5 - d,
    {
        let c = count_cells(cells, owner, d);
        if c > mx {
            mx = c;
        }
        if c < mn {
            mn = c;
        }
        d = d + 1;
    }
    mx - mn
}

/// Worst per-class daily-load spread over Monday to Friday, see
/// `worst_spread_spec`. Placements whose time block or lesson is unknown
/// are skipped.
pub fn worst_class_spread(problem: &Problem, placements: &[Placement]) -> (s: u32)
    ensures
        s == worst_spread_spec(*problem, placements@),
{
    let cells = collect_class_cells(problem, placements);
    let owners = collect_weekday_owners(&cells);
    let mut worst: u32 = 0;
    let mut i: usize = 0;
    while i < owners.len()
        invariant
            i <= owners@.len(),
            cells@ == class_cells(*problem, placements@),
            worst == max_spread(cells@, owners@.take(i as int)),
        decreases owners@.len() - i,
    {
        proof {
            assert(owners@.take(i + 1).drop_last() =~= owners@.take(i as int));
            assert(owners@.take(i + 1).last() == owners@[i as int]);
        }
        proof {
            assert forall|d: u8| d < 5 implies #[trigger] cell_count(cells@, owners@[i as int], d) <= u32::MAX by {
                lemma_cell_count_small(cells@, owners@[i as int], d);
            }
        }
        let s = owner_spread(&cells, owners[i]);
        if s > worst {
            worst = s;
        }
        i = i + 1;
    }
    proof {
        assert(owners@.take(owners@.len() as int) =~= owners@);
    }
    worst
}

/// Owners of `keys`, without repetition, in order of first occurrence.
pub open spec fn key_owners(keys: Seq<(u128, u8)>) -> Seq<u128>
    decreases keys.len(),
{
    if keys.len() == 0 {
        seq![]
    } else {
        let o = key_owners(keys.drop_last());
        if o.contains(keys.last().0) {
            o
        } else {
            o.push(keys.last().0)
        }
    }
}

/// Sum of the gap-hours of the keys of `owner` among `keys`.
pub open spec fn owner_gap_sum(cells: Seq<(u128, u8, u8)>, keys: Seq<(u128, u8)>, owner: u128) -> int
    decreases keys.len(),
{
    if keys.len() == 0 {
        0
    } else {
        owner_gap_sum(cells, keys.drop_last(), owner) + (if keys.last().0 == owner {
            gap_spec(cell_positions(cells, keys.last()))
        } else {
            0
        })
    }
}

/// Largest saturated per-owner gap sum over `owners`.
pub open spec fn max_owner_gaps(cells: Seq<(u128, u8, u8)>, owners: Seq<u128>) -> int
    decreases owners.len(),
{
    if owners.len() == 0 {
        0
    } else {
        let m = max_owner_gaps(cells, owners.drop_last());
        let g = sat(owner_gap_sum(cells, cell_keys(cells), owners.last()));
        if g > m { g } else { m }
    }
}

/// Worst per-class interior gaps: the largest, over classes, of the class's
/// gap-hours summed over its days.
pub open spec fn worst_interior_spec(problem: Problem, ps: Seq<Placement>) -> int {
    let cells = class_cells(problem, ps);
    max_owner_gaps(cells, key_owners(cell_keys(cells)))
}

/// No class day spans all of positions 0 to 255.
pub open spec fn interior_spans_fit(problem: Problem, ps: Seq<Placement>) -> bool {
    let cells = class_cells(problem, ps);
    forall|k: (u128, u8)|
        cell_keys(cells).contains(k) ==> !(cell_positions(cells, k)[0] == 0 && #[trigger] cell_positions(
            cells,
            k,
        ).last() == 255)
}

pub proof fn lemma_owner_gap_sum_nonneg(cells: Seq<(u128, u8, u8)>, keys: Seq<(u128, u8)>, owner: u128)
    ensures
        owner_gap_sum(cells, keys, owner) >= 0,
    decreases keys.len(),
{
    if keys.len() > 0 {
        lemma_owner_gap_sum_nonneg(cells, keys.drop_last(), owner);
        let ps = cell_positions(cells, keys.last());
        crate::partition::lemma_cell_positions(cells, keys.last());
        if ps.len() >= 1 {
            crate::positions::lemma_sorted_span(ps);
        }
    }
}

/// Owners of the keys of `p`.
fn collect_key_owners(p: &Partition) -> (owners: Vec<u128>)
    ensures
        owners@ == key_owners(p.keys()),
{
    let mut owners: Vec<u128> = Vec::new();
    let mut i: usize = 0;
    while i < p.entries.len()
        invariant
            i <= p.entries@.len(),
            owners@ == key_owners(p.keys().take(i as int)),
        decreases p.entries@.len() - i,
    {
        proof {
            assert(p.keys().take(i + 1).drop_last() =~= p.keys().take(i as int));
            assert(p.keys().take(i + 1).last() == p.keys()[i as int]);
        }
        let o = p.entries[i].owner;
        let mut found = false;
        let mut j: usize = 0;
        while j < owners.len()
            invariant
                j <= owners@.len(),
                found <==> exists|k: int| 0 <= k < j && owners@[k] == o,
            decreases owners@.len() - j,
        {
            if owners[j] == o {
                found = true;
            }
            j = j + 1;
        }
        proof {
            if found {
                let k = choose|k: int| 0 <= k < j && owners@[k] == o;
                assert(owners@.contains(o));
            } else {
                assert(!owners@.contains(o));
            }
        }
        if !found {
            owners.push(o);
        }
        i = i + 1;
    }
    proof {
        assert(p.keys().take(p.entries@.len() as int) =~= p.keys());
    }
    owners
}

/// Saturated gap-hour sum of `owner` over a partition built from `cells`.
fn owner_gap_total(p: &Partition, cells: Ghost<Seq<(u128, u8, u8)>>, owner: u128) -> (g: u32)
    requires
        p.wf(),
        p.keys() == cell_keys(cells@),
        forall|k: (u128, u8)| #[trigger] p.lookup(k) == cell_positions(cells@, k),
        forall|k: (u128, u8)|
            cell_keys(cells@).contains(k) ==> !(cell_positions(cells@, k)[0] == 0 && #[trigger] cell_positions(
                cells@,
                k,
            ).last() == 255),
    ensures
        g == sat(owner_gap_sum(cells@, cell_keys(cells@), owner)),
{
    let mut total: u32 = 0;
    let mut j: usize = 0;
    while j < p.entries.len()
        invariant
            j <= p.entries@.len(),
            p.wf(),
            p.keys() == cell_keys(cells@),
            forall|k: (u128, u8)| #[trigger] p.lookup(k) == cell_positions(cells@, k),
            forall|k: (u128, u8)|
                cell_keys(cells@).contains(k) ==> !(cell_positions(cells@, k)[0] == 0 && #[trigger] cell_positions(
                    cells@,
                    k,
                ).last() == 255),
            total == sat(owner_gap_sum(cells@, p.keys().take(j as int), owner)),
        decreases p.entries@.len() - j,
    {
        let ghost key = p.keys()[j as int];
        proof {
            assert(p.keys().take(j + 1).drop_last() =~= p.keys().take(j as int));
            assert(p.keys().take(j + 1).last() == key);
            assert(key == crate::partition::key_of(p.entries@[j as int]));
            assert forall|k: int| 0 <= k < j implies crate::partition::key_of(#[trigger] p.entries@[k]) != key by {
                assert(p.keys()[k] == crate::partition::key_of(p.entries@[k]));
            }
            crate::partition::lemma_lookup_at(p.entries@, key, j as int);
            assert(p.lookup(key) == cell_positions(cells@, key));
            assert(cell_keys(cells@).contains(key));
            lemma_owner_gap_sum_nonneg(cells@, p.keys().take(j as int), owner);
            assert(strictly_sorted(p.entries@[j as int].positions@));
        }
        if p.entries[j].owner == owner {
            let v = &p.entries[j].positions;
            if v.len() > 0 {
                proof {
                    crate::positions::lemma_sorted_span(v@);
                    assert(v@[0] == v@.first());
                }
                let first = v[0];
                let last = v[v.len() - 1];
                let span = (last - first + 1) as u32;
                let gaps = span.saturating_sub(v.len() as u32);
                total = sat_add(total, gaps);
            }
        }
        j = j + 1;
    }
    proof {
        assert(p.keys().take(p.entries@.len() as int) =~= p.keys());
    }
    total
}

/// Worst per-class interior gaps, see `worst_interior_spec`. Placements
/// whose time block or lesson is unknown are skipped.
pub fn worst_class_interior_gaps(problem: &Problem, placements: &[Placement]) -> (g: u32)
    requires
        interior_spans_fit(*problem, placements@),
    ensures
        g == worst_interior_spec(*problem, placements@),
{
    let cells = collect_class_cells(problem, placements);
    let part = build_partition(&cells);
    let owners = collect_key_owners(&part);
    let mut worst: u32 = 0;
    let mut i: usize = 0;
    while i < owners.len()
        invariant
            i <= owners@.len(),
            cells@ == class_cells(*problem, placements@),
            part.wf(),
            part.keys() == cell_keys(cells@),
            forall|k: (u128, u8)| #[trigger] part.lookup(k) == cell_positions(cells@, k),
            interior_spans_fit(*problem, placements@),
            worst == max_owner_gaps(cells@, owners@.take(i as int)),
        decreases owners@.len() - i,
    {
        proof {
            assert(owners@.take(i + 1).drop_last() =~= owners@.take(i as int));
            assert(owners@.take(i + 1).last() == owners@[i as int]);
        }
        let g = owner_gap_total(&part, Ghost(cells@), owners[i]);
        if g > worst {
            worst = g;
        }
        i = i + 1;
    }
    proof {
        assert(owners@.take(owners@.len() as int) =~= owners@);
    }
    worst
}

/// (class, subject, teacher) triples of `ps`: one per (placement, member
/// class); placements whose lesson is unknown are skipped.
pub open spec fn class_subject_cells(problem: Problem, ps: Seq<Placement>) -> Seq<(u128, u128, u128)>
    decreases ps.len(),
{
    if ps.len() == 0 {
        seq![]
    } else {
        let rest = class_subject_cells(problem, ps.drop_last());
        let p = ps.last();
        match placement_lesson(problem, p) {
            Some(l) => rest + l.school_class_ids@.map_values(
                |c: SchoolClassId| (c.0, l.subject_id.0, p.teacher_id.0),
            ),
            None => rest,
        }
    }
}

/// The first triple of every (class, subject) pair, in order of first
/// occurrence: the first-encountered teacher of each pair.
pub open spec fn first_teachers(cells: Seq<(u128, u128, u128)>) -> Seq<(u128, u128, u128)>
    decreases cells.len(),
{
    if cells.len() == 0 {
        seq![]
    } else {
        let prev = first_teachers(cells.drop_last());
        let c = cells.last();
        if exists|i: int| 0 <= i < prev.len() && prev[i].0 == c.0 && prev[i].1 == c.1 {
            prev
        } else {
            prev.push(c)
        }
    }
}

/// The class teacher of class `c`, when the class is known and has one.
pub open spec fn class_teacher_of(classes: Seq<SchoolClass>, c: u128) -> Option<TeacherId> {
    let i = class_index(classes, SchoolClassId(c));
    if i < 0 {
        None
    } else {
        classes[i].class_teacher_id
    }
}

/// Teacher `t` is qualified for subject `s`.
pub open spec fn qualified(problem: Problem, s: u128, t: TeacherId) -> bool {
    exists|i: int|
        0 <= i < problem.teacher_qualifications@.len() && (#[trigger] problem.teacher_qualifications@[i]).subject_id.0
            == s && problem.teacher_qualifications@[i].teacher_id == t
}

/// The pair's class teacher is qualified for the subject but another
/// teacher was chosen.
pub open spec fn is_class_teacher_miss(problem: Problem, e: (u128, u128, u128)) -> bool {
    match class_teacher_of(problem.school_classes@, e.0) {
        Some(klt) => qualified(problem, e.1, klt) && e.2 != klt.0,
        None => false,
    }
}

/// Number of entries that are class-teacher misses.
pub open spec fn miss_count(problem: Problem, entries: Seq<(u128, u128, u128)>) -> int
    decreases entries.len(),
{
    if entries.len() == 0 {
        0
    } else {
        miss_count(problem, entries.drop_last()) + (if is_class_teacher_miss(problem, entries.last()) {
            1int
        } else {
            0
        })
    }
}

/// Number of (class, subject) pairs whose qualified class teacher is not
/// the first-encountered teacher of the pair.
pub open spec fn class_teacher_misses_spec(problem: Problem, ps: Seq<Placement>) -> int {
    miss_count(problem, first_teachers(class_subject_cells(problem, ps)))
}

pub proof fn lemma_miss_count_nonneg(problem: Problem, entries: Seq<(u128, u128, u128)>)
    ensures
        0 <= miss_count(problem, entries) <= entries.len(),
    decreases entries.len(),
{
    if entries.len() > 0 {
        lemma_miss_count_nonneg(problem, entries.drop_last());
    }
}

/// The (class, subject, teacher) triples of `placements`.
fn collect_class_subject_cells(problem: &Problem, placements: &[Placement]) -> (cells: Vec<(u128, u128, u128)>)
    ensures
        cells@ == class_subject_cells(*problem, placements@),
{
    let mut cells: Vec<(u128, u128, u128)> = Vec::new();
    let mut i: usize = 0;
    while i < placements.len()
        invariant
            i <= placements@.len(),
            cells@ == class_subject_cells(*problem, placements@.take(i as int)),
        decreases placements@.len() - i,
    {
        let p = placements[i];
        proof {
            assert(placements@.take(i + 1).drop_last() =~= placements@.take(i as int));
            assert(placements@.take(i + 1).last() == p);
        }
        let li = find_lesson(&problem.lessons, p.lesson_id);
        if let Some(li) = li {
            let lesson = &problem.lessons[li];
            let cids = &lesson.school_class_ids;
            let ghost base = cells@;
            let mut k: usize = 0;
            while k < cids.len()
                invariant
                    k <= cids@.len(),
                    cells@ == base + cids@.take(k as int).map_values(
                        |c: SchoolClassId| (c.0, lesson.subject_id.0, p.teacher_id.0),
                    ),
                decreases cids@.len() - k,
            {
                cells.push((cids[k].0, lesson.subject_id.0, p.teacher_id.0));
                proof {
                    assert(cids@.take(k + 1).map_values(|c: SchoolClassId| (c.0, lesson.subject_id.0, p.teacher_id.0))
                        =~= cids@.take(k as int).map_values(
                        |c: SchoolClassId| (c.0, lesson.subject_id.0, p.teacher_id.0),
                    ).push((cids@[k as int].0, lesson.subject_id.0, p.teacher_id.0)));
                }
                k = k + 1;
            }
            proof {
                assert(cids@.take(cids@.len() as int) =~= cids@);
            }
        }
        i = i + 1;
    }
    proof {
        assert(placements@.take(placements@.len() as int) =~= placements@);
    }
    cells
}

/// The first-encountered teacher of each (class, subject) pair.
fn collect_first_teachers(cells: &Vec<(u128, u128, u128)>) -> (entries: Vec<(u128, u128, u128)>)
    ensures
        entries@ == first_teachers(cells@),
{
    let mut entries: Vec<(u128, u128, u128)> = Vec::new();
    let mut i: usize = 0;
    while i < cells.len()
        invariant
            i <= cells@.len(),
            entries@ == first_teachers(cells@.take(i as int)),
        decreases cells@.len() - i,
    {
        let c = cells[i];
        proof {
            assert(cells@.take(i + 1).drop_last() =~= cells@.take(i as int));
            assert(cells@.take(i + 1).last() == c);
        }
        let mut found = false;
        let mut j: usize = 0;
        while j < entries.len()
            invariant
                j <= entries@.len(),
                found <==> exists|k: int| 0 <= k < j && entries@[k].0 == c.0 && entries@[k].1 == c.1,
            decreases entries@.len() - j,
        {
            if entries[j].0 == c.0 && entries[j].1 == c.1 {
                found = true;
            }
            j = j + 1;
        }
        if !found {
            entries.push(c);
        }
        i = i + 1;
    }
    proof {
        assert(cells@.take(cells@.len() as int) =~= cells@);
    }
    entries
}

/// Whether teacher `t` is qualified for subject `s`.
fn is_qualified(problem: &Problem, s: u128, t: TeacherId) -> (b: bool)
    ensures
        b == qualified(*problem, s, t),
{
    let quals = &problem.teacher_qualifications;
    let mut i: usize = 0;
    while i < quals.len()
        invariant
            i <= quals@.len(),
            quals == &problem.teacher_qualifications,
            forall|k: int| 0 <= k < i ==> !((#[trigger] quals@[k]).subject_id.0 == s && quals@[k].teacher_id == t),
        decreases quals@.len() - i,
    {
        if quals[i].subject_id.0 == s && quals[i].teacher_id == t {
            return true;
        }
        i = i + 1;
    }
    false
}

/// Number of class-teacher misses of `placements`, saturating.
pub fn class_teacher_misses(problem: &Problem, placements: &[Placement]) -> (m: u32)
    ensures
        m == sat(class_teacher_misses_spec(*problem, placements@)),
{
    let cells = collect_class_subject_cells(problem, placements);
    let entries = collect_first_teachers(&cells);
    let mut misses: u32 = 0;
    let mut i: usize = 0;
    while i < entries.len()
        invariant
            i <= entries@.len(),
            misses == sat(miss_count(*problem, entries@.take(i as int))),
        decreases entries@.len() - i,
    {
        let e = entries[i];
        proof {
            assert(entries@.take(i + 1).drop_last() =~= entries@.take(i as int));
            assert(entries@.take(i + 1).last() == e);
            lemma_miss_count_nonneg(*problem, entries@.take(i as int));
        }
        let ci = find_class(&problem.school_classes, SchoolClassId(e.0));
        if let Some(ci) = ci {
            if let Some(klt) = problem.school_classes[ci].class_teacher_id {
                if is_qualified(problem, e.1, klt) && e.2 != klt.0 {
                    misses = sat_add(misses, 1);
                }
            }
        }
        i = i + 1;
    }
    proof {
        assert(entries@.take(entries@.len() as int) =~= entries@);
    }
    misses
}

/// Some placement has lesson `l` in time block `t`.
pub open spec fn placed_key(ps: Seq<Placement>, l: LessonId, t: TimeBlockId) -> bool {
    exists|i: int| 0 <= i < ps.len() && (#[trigger] ps[i]).lesson_id == l && ps[i].time_block_id == t
}

/// Number of soft-pinned (lesson, time block) pairs with no placement.
pub open spec fn soft_miss_count(ps: Seq<Placement>, soft: Seq<(LessonId, TimeBlockId)>) -> int
    decreases soft.len(),
{
    if soft.len() == 0 {
        0
    } else {
        soft_miss_count(ps, soft.drop_last()) + (if placed_key(ps, soft.last().0, soft.last().1) {
            0int
        } else {
            1
        })
    }
}

pub proof fn lemma_soft_miss_count_bounds(ps: Seq<Placement>, soft: Seq<(LessonId, TimeBlockId)>)
    ensures
        0 <= soft_miss_count(ps, soft) <= soft.len(),
    decreases soft.len(),
{
    if soft.len() > 0 {
        lemma_soft_miss_count_bounds(ps, soft.drop_last());
    }
}

/// Whether a placement has lesson `l` in time block `t`.
fn is_placed(placements: &[Placement], l: LessonId, t: TimeBlockId) -> (b: bool)
    ensures
        b == placed_key(placements@, l, t),
{
    let mut i: usize = 0;
    while i < placements.len()
        invariant
            i <= placements@.len(),
            forall|k: int| 0 <= k < i ==> !((#[trigger] placements@[k]).lesson_id == l && placements@[k].time_block_id == t),
        decreases placements@.len() - i,
    {
        if placements[i].lesson_id == l && placements[i].time_block_id == t {
            return true;
        }
        i = i + 1;
    }
    false
}

/// Number of soft-pinned pairs that `placements` misses.
pub fn soft_pin_misses(placements: &[Placement], soft_pinned_blocks: &[(LessonId, TimeBlockId)]) -> (m: u32)
    requires
        soft_pinned_blocks@.len() <= u32::MAX,
    ensures
        m == soft_miss_count(placements@, soft_pinned_blocks@),
{
    let mut m: u32 = 0;
    let mut i: usize = 0;
    while i < soft_pinned_blocks.len()
        invariant
            i <= soft_pinned_blocks@.len() <= u32::MAX,
            m == soft_miss_count(placements@, soft_pinned_blocks@.take(i as int)),
        decreases soft_pinned_blocks@.len() - i,
    {
        let e = soft_pinned_blocks[i];
        proof {
            assert(soft_pinned_blocks@.take(i + 1).drop_last() =~= soft_pinned_blocks@.take(i as int));
            assert(soft_pinned_blocks@.take(i + 1).last() == e);
            lemma_soft_miss_count_bounds(placements@, soft_pinned_blocks@.take(i as int));
        }
        if !is_placed(placements, e.0, e.1) {
            m = m + 1;
        }
        i = i + 1;
    }
    proof {
        assert(soft_pinned_blocks@.take(soft_pinned_blocks@.len() as int) =~= soft_pinned_blocks@);
    }
    m
}

/// Home-room penalty of one placement (zero when its lesson is unknown).
pub open spec fn placement_home_penalty(problem: Problem, p: Placement, w: ConstraintWeights) -> int {
    match placement_lesson(problem, p) {
        Some(l) => home_penalty_spec(problem.school_classes@, l, p.room_id, w),
        None => 0,
    }
}

/// Sum over placements of the home-room penalty.
pub open spec fn home_total_spec(problem: Problem, ps: Seq<Placement>, w: ConstraintWeights) -> int
    decreases ps.len(),
{
    if ps.len() == 0 {
        0
    } else {
        home_total_spec(problem, ps.drop_last(), w) + placement_home_penalty(problem, ps.last(), w)
    }
}

pub proof fn lemma_home_total_mono(problem: Problem, ps: Seq<Placement>, w: ConstraintWeights)
    ensures
        home_total_spec(problem, ps, w) >= 0,
        forall|k: int| 0 <= k <= ps.len() ==> home_total_spec(problem, #[trigger] ps.take(k), w) <= home_total_spec(problem, ps, w),
    decreases ps.len(),
{
    if ps.len() > 0 {
        let t = ps.drop_last();
        lemma_home_total_mono(problem, t, w);
        match placement_lesson(problem, ps.last()) {
            Some(l) => {
                lemma_home_miss_count_nonneg(problem.school_classes@, l.school_class_ids@, ps.last().room_id);
                let k = home_miss_count(problem.school_classes@, l.school_class_ids@, ps.last().room_id);
                assert(w.prefer_home_room * k >= 0) by (nonlinear_arith)
                    requires
                        k >= 0,
                ;
            },
            None => {},
        }
        assert forall|k: int| 0 <= k <= ps.len() implies home_total_spec(problem, #[trigger] ps.take(k), w) <= home_total_spec(problem, ps, w) by {
            if k < ps.len() {
                assert(ps.take(k) =~= t.take(k));
            } else {
                assert(ps.take(k) =~= ps);
            }
        }
    }
}

/// Sum over placements of the home-room penalty.
pub fn home_room_total(problem: &Problem, placements: &[Placement], weights: &ConstraintWeights) -> (total: u32)
    requires
        home_total_spec(*problem, placements@, *weights) <= u32::MAX,
    ensures
        total == home_total_spec(*problem, placements@, *weights),
{
    proof {
        lemma_home_total_mono(*problem, placements@, *weights);
    }
    let mut total: u32 = 0;
    let mut i: usize = 0;
    while i < placements.len()
        invariant
            i <= placements@.len(),
            total == home_total_spec(*problem, placements@.take(i as int), *weights),
            forall|k: int| 0 <= k <= placements@.len() ==> home_total_spec(*problem, #[trigger] placements@.take(k), *weights) <= home_total_spec(*problem, placements@, *weights),
            home_total_spec(*problem, placements@, *weights) <= u32::MAX,
        decreases placements@.len() - i,
    {
        let p = placements[i];
        proof {
            assert(placements@.take(i + 1).drop_last() =~= placements@.take(i as int));
            assert(placements@.take(i + 1).last() == p);
        }
        let li = find_lesson(&problem.lessons, p.lesson_id);
        let mut here: u32 = 0;
        if let Some(li) = li {
            here = home_room_penalty(&problem.lessons[li], &problem.school_classes, p.room_id, weights);
        }
        total = total + here;
        i = i + 1;
    }
    proof {
        assert(placements@.take(placements@.len() as int) =~= placements@);
    }
    total
}

/// Per-day counts of `owner` over days `0..days` in the partition of
/// `cells`.
pub open spec fn cells_day_counts(cells: Seq<(u128, u8, u8)>, owner: u128, days: u8) -> Seq<int> {
    Seq::new(days as nat, |d: int| cell_positions(cells, (owner, d as u8)).len() as int)
}

/// Sum over `classes` of the day-balance cost in the partition of `cells`.
pub open spec fn cells_balance_sum(cells: Seq<(u128, u8, u8)>, classes: Seq<SchoolClass>, days: u8) -> int
    decreases classes.len(),
{
    if classes.len() == 0 {
        0
    } else {
        cells_balance_sum(cells, classes.drop_last(), days) + balance_spec(
            cells_day_counts(cells, classes.last().id.0, days),
            days as int,
        )
    }
}

/// Day-balance cost of the classes of `problem` for placements `ps`.
pub open spec fn class_balance_total(problem: Problem, ps: Seq<Placement>) -> int {
    let days = crate::lookup::days_spec(problem.time_blocks@);
    if days == 0 {
        0
    } else {
        sat(cells_balance_sum(class_cells(problem, ps), problem.school_classes@, days))
    }
}

pub proof fn lemma_built_balance(p: Partition, cells: Seq<(u128, u8, u8)>, classes: Seq<SchoolClass>, days: u8)
    requires
        forall|k: (u128, u8)| #[trigger] p.lookup(k) == cell_positions(cells, k),
    ensures
        classes_balance_sum(p, classes, days) == cells_balance_sum(cells, classes, days),
    decreases classes.len(),
{
    if classes.len() > 0 {
        lemma_built_balance(p, cells, classes.drop_last(), days);
        let o = classes.last().id.0;
        assert(day_counts(p, o, days) =~= cells_day_counts(cells, o, days)) by {
            assert forall|d: int| 0 <= d < days implies day_counts(p, o, days)[d] == cells_day_counts(cells, o, days)[d] by {
                assert(p.lookup((o, d as u8)) == cell_positions(cells, (o, d as u8)));
            }
        }
    }
}

/// The canonical soft score: zero when every weight is zero, else the
/// saturating sum of the slice (class gaps, teacher gaps, subject
/// preference), the weighted day balance, the weighted worst per-class
/// spread and interior gaps, the home-room penalties, the weighted
/// soft-pin misses and the weighted class-teacher misses.
pub open spec fn score_spec(
    problem: Problem,
    ps: Seq<Placement>,
    w: ConstraintWeights,
    soft: Seq<(LessonId, TimeBlockId)>,
) -> int {
    if w == crate::types::zero_weights() {
        0
    } else {
        let soft_term = if w.soft_pin_miss == 0 || soft.len() == 0 {
            0
        } else {
            soft_miss_count(ps, soft)
        };
        sat(slice_spec(problem, ps, w) + sat(w.class_day_balance * class_balance_total(problem, ps)) + sat(
            w.max_per_class_spread * worst_spread_spec(problem, ps),
        ) + sat(w.max_per_class_interior_gaps * worst_interior_spec(problem, ps)) + home_total_spec(
            problem,
            ps,
            w,
        ) + sat(w.soft_pin_miss * soft_term) + sat(
            w.prefer_class_teacher * sat(class_teacher_misses_spec(problem, ps)),
        ))
    }
}

/// What `score_solution` needs of its inputs when some weight is non-zero:
/// every lookup resolves and no unsaturated sum overflows.
pub open spec fn score_inputs_ok(
    problem: Problem,
    ps: Seq<Placement>,
    w: ConstraintWeights,
    soft: Seq<(LessonId, TimeBlockId)>,
) -> bool {
    &&& resolvable(problem, ps)
    &&& slice_sums_fit(problem, ps, w)
    &&& interior_spans_fit(problem, ps)
    &&& home_total_spec(problem, ps, w) <= u32::MAX
    &&& soft.len() <= u32::MAX
}

/// Total weighted soft score of a placement set, see `score_spec`.
/// `soft_pinned_blocks` is a set: each pair occurs once.
pub fn score_solution(
    problem: &Problem,
    placements: &[Placement],
    weights: &ConstraintWeights,
    soft_pinned_blocks: &[(LessonId, TimeBlockId)],
) -> (score: u32)
    requires
        soft_pinned_blocks@.no_duplicates(),
        *weights != crate::types::zero_weights() ==> score_inputs_ok(*problem, placements@, *weights, soft_pinned_blocks@),
    ensures
        score == score_spec(*problem, placements@, *weights, soft_pinned_blocks@),
{
    if weights.class_gap == 0 && weights.teacher_gap == 0 && weights.prefer_early_period == 0
        && weights.avoid_first_period == 0 && weights.prefer_home_room == 0 && weights.avoid_last_period == 0
        && weights.prefer_late_period == 0 && weights.class_day_balance == 0 && weights.prefer_class_teacher == 0
        && weights.max_per_class_spread == 0 && weights.max_per_class_interior_gaps == 0
        && weights.soft_pin_miss == 0 {
        return 0;
    }
    let days = crate::lookup::day_count(problem);
    let class_cells_v = collect_class_cells(problem, placements);
    let teacher_cells_v = collect_teacher_cells(problem, placements);
    let by_class_day = build_partition(&class_cells_v);
    let by_teacher_day = build_partition(&teacher_cells_v);
    proof {
        lemma_built_gap_sum(&by_class_day, class_cells_v@);
        lemma_built_gap_sum(&by_teacher_day, teacher_cells_v@);
        lemma_built_balance(by_class_day, class_cells_v@, problem.school_classes@, days);
    }
    let class_balance = class_day_balance_cost(&by_class_day, &problem.school_classes, days);
    let slice = slice_costs_inner(problem, placements, weights, &by_class_day, &by_teacher_day);
    let home_room = home_room_total(problem, placements, weights);
    let misses = class_teacher_misses(problem, placements);
    let soft_count: u32 = if weights.soft_pin_miss == 0 || soft_pinned_blocks.len() == 0 {
        0
    } else {
        soft_pin_misses(placements, soft_pinned_blocks)
    };
    let spread = worst_class_spread(problem, placements);
    let interior = worst_class_interior_gaps(problem, placements);
    let r1 = sat_add(slice, sat_mul(weights.class_day_balance, class_balance));
    let r2 = sat_add(r1, sat_mul(weights.max_per_class_spread, spread));
    let r3 = sat_add(r2, sat_mul(weights.max_per_class_interior_gaps, interior));
    let r4 = sat_add(r3, home_room);
    let r5 = sat_add(r4, sat_mul(weights.soft_pin_miss, soft_count));
    sat_add(r5, sat_mul(weights.prefer_class_teacher, misses))
}

} // verus!
