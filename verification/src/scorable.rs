//! Whether a placement list can be scored: every lookup resolves and no
//! unsaturated sum of the canonical score overflows.

use vstd::prelude::*;

use crate::lookup::{find_lesson, find_subject, find_tb, max_position_of_day};
use crate::partition::{
    build_partition, cell_keys, cell_positions, has_key, lemma_built_gap_sum, lemma_cell_keys, lemma_cell_positions,
    lemma_lookup_at, partition_gap_total_fits, Partition,
};
use crate::score::{
    class_cells, collect_class_cells, collect_teacher_cells, home_room_penalty, home_total_spec,
    interior_spans_fit, lemma_home_total_mono, lemma_pref_sum_mono, pref_sum, resolvable, score_inputs_ok,
    slice_sums_fit, subject_preference_score, teacher_cells,
};
use crate::types::{ConstraintWeights, LessonId, Placement, Problem, TimeBlockId};

verus! {

fn resolvable_exec(problem: &Problem, placements: &[Placement]) -> (b: bool)
    ensures
        b == resolvable(*problem, placements@),
{
    let mut i: usize = 0;
    while i < placements.len()
        invariant
            i <= placements@.len(),
            forall|j: int|
                0 <= j < i ==> {
                    &&& #[trigger] crate::score::placement_tb(*problem, placements@[j]) is Some
                    &&& crate::score::placement_lesson(*problem, placements@[j]) is Some
                    &&& crate::lookup::subject_index(
                        problem.subjects@,
                        crate::score::placement_lesson(*problem, placements@[j])->0.subject_id,
                    ) >= 0
                },
        decreases placements@.len() - i,
    {
        let p = placements[i];
        if find_tb(&problem.time_blocks, p.time_block_id).is_none() {
            assert(crate::score::placement_tb(*problem, placements@[i as int]) is None);
            return false;
        }
        match find_lesson(&problem.lessons, p.lesson_id) {
            None => {
                assert(crate::score::placement_tb(*problem, placements@[i as int]) is Some);
                return false;
            },
            Some(li) => {
                if find_subject(&problem.subjects, problem.lessons[li].subject_id).is_none() {
                    assert(crate::score::placement_tb(*problem, placements@[i as int]) is Some);
                    return false;
                }
            },
        }
        i = i + 1;
    }
    true
}

fn pref_sum_fits(problem: &Problem, placements: &[Placement], weights: &ConstraintWeights) -> (b: bool)
    ensures
        b == (pref_sum(*problem, placements@, *weights) <= u32::MAX),
{
    proof {
        lemma_pref_sum_mono(*problem, placements@, *weights);
    }
    let mut total: u64 = 0;
    let mut i: usize = 0;
    while i < placements.len()
        invariant
            i <= placements@.len(),
            total == pref_sum(*problem, placements@.take(i as int), *weights),
            total <= u32::MAX,
            forall|k: int| 0 <= k <= placements@.len() ==> pref_sum(*problem, #[trigger] placements@.take(k), *weights) <= pref_sum(*problem, placements@, *weights),
        decreases placements@.len() - i,
    {
        let p = placements[i];
        proof {
            assert(placements@.take(i + 1).drop_last() =~= placements@.take(i as int));
            assert(placements@.take(i + 1).last() == p);
        }
        let ti = find_tb(&problem.time_blocks, p.time_block_id);
        let li = find_lesson(&problem.lessons, p.lesson_id);
        let mut here: u32 = 0;
        match (ti, li) {
            (Some(ti), Some(li)) => {
                let tb = problem.time_blocks[ti];
                let si = find_subject(&problem.subjects, problem.lessons[li].subject_id);
                if let Some(si) = si {
                    let max_pos = max_position_of_day(&problem.time_blocks, tb.day_of_week, tb.position);
                    here = subject_preference_score(&problem.subjects[si], &tb, max_pos, weights);
                }
            },
            _ => {},
        }
        total = total + here as u64;
        if total > 0xffff_ffff {
            return false;
        }
        i = i + 1;
    }
    proof {
        assert(placements@.take(placements@.len() as int) =~= placements@);
    }
    true
}

fn home_total_fits(problem: &Problem, placements: &[Placement], weights: &ConstraintWeights) -> (b: bool)
    ensures
        b == (home_total_spec(*problem, placements@, *weights) <= u32::MAX),
{
    proof {
        lemma_home_total_mono(*problem, placements@, *weights);
    }
    let mut total: u64 = 0;
    let mut i: usize = 0;
    while i < placements.len()
        invariant
            i <= placements@.len(),
            total == home_total_spec(*problem, placements@.take(i as int), *weights),
            total <= u32::MAX,
            forall|k: int| 0 <= k <= placements@.len() ==> home_total_spec(*problem, #[trigger] placements@.take(k), *weights) <= home_total_spec(*problem, placements@, *weights),
        decreases placements@.len() - i,
    {
        let p = placements[i];
        proof {
            assert(placements@.take(i + 1).drop_last() =~= placements@.take(i as int));
            assert(placements@.take(i + 1).last() == p);
        }
        let li = find_lesson(&problem.lessons, p.lesson_id);
        let mut here: u32 = 0;
        if let Some(li) = li {
            here = home_room_penalty(&problem.lessons[li], &problem.school_classes, p.room_id, weights);
        }
        total = total + here as u64;
        if total > 0xffff_ffff {
            return false;
        }
        i = i + 1;
    }
    proof {
        assert(placements@.take(placements@.len() as int) =~= placements@);
    }
    true
}

/// Whether the total gap-hours of `cells` fit in a `u32`.
fn gaps_fit(cells: &Vec<(u128, u8, u8)>) -> (b: bool)
    ensures
        b == (crate::partition::total_gaps(cells@) <= u32::MAX),
{
    let p = build_partition(cells);
    proof {
        lemma_built_gap_sum(&p, cells@);
    }
    partition_gap_total_fits(&p)
}

/// No (owner, day) of `cells` occupies both position 0 and position 255.
fn spans_fit(cells: &Vec<(u128, u8, u8)>) -> (b: bool)
    ensures
        b == (forall|k: (u128, u8)|
            cell_keys(cells@).contains(k) ==> !(cell_positions(cells@, k)[0] == 0 && #[trigger] cell_positions(
                cells@,
                k,
            ).last() == 255)),
{
    let p = build_partition(cells);
    let ghost cs = cells@;
    proof {
        lemma_cell_keys(cs);
    }
    let mut j: usize = 0;
    while j < p.entries.len()
        invariant
            j <= p.entries@.len(),
            p.wf(),
            p.keys() == cell_keys(cs),
            cs == cells@,
            forall|k: (u128, u8)| #[trigger] p.lookup(k) == cell_positions(cs, k),
            forall|k: (u128, u8)| cell_keys(cs).contains(k) <==> has_key(cs, k),
            forall|m: int|
                0 <= m < j ==> !(cell_positions(cs, p.keys()[m])[0] == 0 && #[trigger] cell_positions(
                    cs,
                    p.keys()[m],
                ).last() == 255),
        decreases p.entries@.len() - j,
    {
        let ghost key = p.keys()[j as int];
        proof {
            assert(key == crate::partition::key_of(p.entries@[j as int]));
            assert forall|k: int| 0 <= k < j implies crate::partition::key_of(#[trigger] p.entries@[k]) != key by {
                assert(p.keys()[k] == crate::partition::key_of(p.entries@[k]));
            }
            lemma_lookup_at(p.entries@, key, j as int);
            assert(p.lookup(key) == cell_positions(cs, key));
            assert(p.lookup(key) == p.entries@[j as int].positions@);
            assert(p.keys().contains(key));
        }
        let v = &p.entries[j].positions;
        if v.len() >= 1 && v[0] == 0 && v[v.len() - 1] == 255 {
            proof {
                assert(cell_keys(cs).contains(key));
                assert(cell_positions(cs, key) == v@);
                assert(cell_positions(cs, key)[0] == 0 && cell_positions(cs, key).last() == 255);
            }
            return false;
        }
        proof {
            assert(cell_keys(cs).contains(key));
            lemma_cell_positions(cs, key);
            assert(has_key(cs, key));
            let i = choose|i: int| 0 <= i < cs.len() && (#[trigger] cs[i]).0 == key.0 && cs[i].1 == key.1;
            assert(cs.contains((key.0, key.1, cs[i].2)));
            assert(cell_positions(cs, key).contains(cs[i].2));
        }
        j = j + 1;
    }
    proof {
        assert forall|k: (u128, u8)|
            cell_keys(cs).contains(k) implies !(cell_positions(cs, k)[0] == 0 && #[trigger] cell_positions(cs, k).last()
                == 255) by {
            assert(p.keys().contains(k));
            let m = choose|m: int| 0 <= m < p.keys().len() && p.keys()[m] == k;
            assert(p.keys()[m] == k);
            assert(!(cell_positions(cs, p.keys()[m])[0] == 0 && cell_positions(cs, p.keys()[m]).last() == 255));
        }
    }
    true
}

/// Whether `placements` can be scored under `weights` with the soft-pinned
/// pairs `soft`: every lookup resolves and no unsaturated sum overflows
/// (see `score_inputs_ok`).
pub fn score_inputs_ok_exec(
    problem: &Problem,
    placements: &[Placement],
    weights: &ConstraintWeights,
    soft: &[(LessonId, TimeBlockId)],
) -> (b: bool)
    ensures
        b == score_inputs_ok(*problem, placements@, *weights, soft@),
{
    if !resolvable_exec(problem, placements) {
        return false;
    }
    let cc = collect_class_cells(problem, placements);
    let tc = collect_teacher_cells(problem, placements);
    if !gaps_fit(&cc) {
        return false;
    }
    if !gaps_fit(&tc) {
        return false;
    }
    if !pref_sum_fits(problem, placements, weights) {
        return false;
    }
    if !spans_fit(&cc) {
        return false;
    }
    if !home_total_fits(problem, placements, weights) {
        return false;
    }
    soft.len() <= 0xffff_ffff
}

} // verus!
