//! Rolling back a partial ruin-and-recreate or Kempe attempt: the rows the
//! attempt added are taken out again (highest row index first, as found),
//! then the ruined rows are replayed from their snapshots, with the block
//! counters of the touched class days following along. The bookkeeping is
//! described as the sequence of single-row and per-day steps it takes.

use vstd::prelude::*;
use vstd::relations::{sorted_by, total_ordering};
use vstd::seq_lib::{group_to_multiset_ensures, lemma_multiset_commutative, lemma_sorted_unique};

use crate::lahc::{lookup_slot, slot_table_get};
use crate::lookup::{find_lesson, find_tb, lesson_index, tb_index};
use crate::repair::row_lesson;
use crate::state::{
    count_dec_n, count_inc_n, dec_class_days, fits_u8, inc_class_days, kept_rows, occ, replay_placement, row_added,
    lemma_replay_undoes_remove, row_block, row_booked, row_fits, row_removed, rr_remove_row_bookkeeping, ruined_rows,
    same_state, BlockSnapshot, GreedyState,
};
use crate::types::{Lesson, LessonId, Placement, SchoolClassId, TimeBlock, TimeBlockId};
use crate::vecmap::{keys_unique, map_get};

verus! {

/// The order of row indices.
pub open spec fn idx_leq() -> spec_fn(usize, usize) -> bool {
    |a: usize, b: usize| a <= b
}

proof fn lemma_idx_leq_total()
    ensures
        total_ordering(idx_leq()),
{
}

/// The indices in increasing order.
pub open spec fn sorted_idxs(idxs: Seq<usize>) -> Seq<usize> {
    idxs.sort_by(idx_leq())
}

/// The indices, sorted.
fn sort_indices(v: &Vec<usize>) -> (r: Vec<usize>)
    ensures
        r@ == sorted_idxs(v@),
{
    broadcast use group_to_multiset_ensures;

    let mut r: Vec<usize> = Vec::new();
    let mut i: usize = 0;
    while i < v.len()
        invariant
            i <= v@.len(),
            sorted_by(r@, idx_leq()),
            r@.to_multiset() == v@.take(i as int).to_multiset(),
        decreases v@.len() - i,
    {
        let x = v[i];
        let mut k: usize = 0;
        while k < r.len() && r[k] <= x
            invariant
                k <= r@.len(),
                forall|j: int| 0 <= j < k ==> r@[j] <= x,
            decreases r@.len() - k,
        {
            k = k + 1;
        }
        let ghost before = r@;
        r.insert(k, x);
        proof {
            assert(forall|j: int| k <= j < before.len() ==> before[j] > x) by {
                assert forall|j: int| k <= j < before.len() implies before[j] > x by {
                    if k < before.len() {
                        assert(idx_leq()(before[k as int], before[j]) || k == j);
                    }
                }
            }
            assert forall|a: int, b: int| 0 <= a < b < r@.len() implies #[trigger] idx_leq()(r@[a], r@[b]) by {
                if b < k {
                    assert(idx_leq()(before[a], before[b]));
                } else if b == k {
                } else if a < k {
                    assert(r@[b] == before[b - 1]);
                } else if a == k {
                    assert(r@[b] == before[b - 1]);
                } else {
                    assert(idx_leq()(before[a - 1], before[b - 1]));
                }
            }
            assert(v@.take(i + 1) =~= v@.take(i as int).push(x));
            assert(r@ == before.insert(k as int, x));
            vstd::seq_lib::to_multiset_insert(before, k as int, x);
            vstd::seq_lib::to_multiset_build(v@.take(i as int), x);
        }
        i = i + 1;
    }
    proof {
        assert(v@.take(v@.len() as int) =~= v@);
        lemma_idx_leq_total();
        v@.lemma_sort_by_ensures(idx_leq());
        lemma_sorted_unique(r@, v@.sort_by(idx_leq()), idx_leq());
    }
    r
}

/// The placements after removing the rows at the sorted indices, the
/// highest first.
pub open spec fn remove_from_top(ps: Seq<Placement>, sorted: Seq<usize>) -> Seq<Placement>
    decreases sorted.len(),
{
    if sorted.len() == 0 {
        ps
    } else {
        remove_from_top(ps.remove(sorted.last() as int), sorted.drop_last())
    }
}

/// The rows that removal takes out, in the order it takes them.
pub open spec fn removed_from_top(ps: Seq<Placement>, sorted: Seq<usize>) -> Seq<Placement>
    decreases sorted.len(),
{
    if sorted.len() == 0 {
        seq![]
    } else {
        seq![ps[sorted.last() as int]] + removed_from_top(ps.remove(sorted.last() as int), sorted.drop_last())
    }
}

/// Every removal of that order hits a row.
pub open spec fn top_ok(len: int, sorted: Seq<usize>) -> bool
    decreases sorted.len(),
{
    sorted.len() == 0 || (sorted.last() < len && top_ok(len - 1, sorted.drop_last()))
}

/// One step a rollback takes on the bookkeeping.
pub enum RollStep {
    /// A row of the lesson leaves (as `rr_remove_row_bookkeeping` takes
    /// it out).
    Drop(Lesson, Placement),
    /// Each member class of the lesson counts one block fewer on the day.
    DayDown(Lesson, u8),
    /// A row of the lesson comes back (as `replay_placement` adds it).
    Add(Lesson, Placement),
    /// Each member class of the lesson counts one block more on the day.
    DayUp(Lesson, u8),
}

/// `s2` is `s` with the block counters of the classes `cs` on `day` moved
/// by one per class occurrence (down or up), everything else kept.
pub open spec fn days_moved(s: GreedyState, s2: GreedyState, cs: Seq<SchoolClassId>, day: u8, up: bool) -> bool {
    &&& forall|k: (SchoolClassId, u8)|
        #[trigger] map_get(s2.lessons_by_class_day@, k) == if k.1 == day {
            if up {
                count_inc_n(map_get(s.lessons_by_class_day@, k), occ(cs, k.0))
            } else {
                count_dec_n(map_get(s.lessons_by_class_day@, k), occ(cs, k.0))
            }
        } else {
            map_get(s.lessons_by_class_day@, k)
        }
    &&& s2.used_teacher == s.used_teacher
    &&& s2.used_class == s.used_class
    &&& s2.used_room == s.used_room
    &&& s2.class_positions == s.class_positions
    &&& s2.teacher_positions == s.teacher_positions
    &&& s2.hours_by_teacher == s.hours_by_teacher
    &&& s2.locked_room == s.locked_room
    &&& s2.subject_hours_by_class_day == s.subject_hours_by_class_day
    &&& s2.class_subject_teacher == s.class_subject_teacher
    &&& s2.search_score_slice == s.search_score_slice
    &&& s2.canonical_score == s.canonical_score
    &&& s2.soft_pinned_blocks == s.soft_pinned_blocks
}

/// `s2` is `s` after the step.
pub open spec fn step_rel(s: GreedyState, s2: GreedyState, st: RollStep, tbs: Seq<TimeBlock>) -> bool {
    match st {
        RollStep::Drop(l, r) => row_removed(s, s2, l, r, tbs),
        RollStep::DayDown(l, d) => days_moved(s, s2, l.school_class_ids@, d, false),
        RollStep::Add(l, r) => row_added(s, s2, l, r, tbs),
        RollStep::DayUp(l, d) => days_moved(s, s2, l.school_class_ids@, d, true),
    }
}

/// The step can be taken from `s`: a row's block resolves, an added row
/// overflows no counter, and neither does a day's block counter.
pub open spec fn step_ok(s: GreedyState, st: RollStep, tbs: Seq<TimeBlock>) -> bool {
    match st {
        RollStep::Drop(l, r) => tb_index(tbs, r.time_block_id) >= 0,
        RollStep::DayDown(l, d) => true,
        RollStep::Add(l, r) => tb_index(tbs, r.time_block_id) >= 0 && row_fits(s, l, r, tbs),
        RollStep::DayUp(l, d) => forall|c: SchoolClassId|
            #[trigger] l.school_class_ids@.contains(c) ==> fits_u8(
                map_get(s.lessons_by_class_day@, (c, d)),
                occ(l.school_class_ids@, c),
            ),
    }
}

/// Every step can be taken, whatever state the earlier ones lead to.
pub open spec fn steps_ok(s: GreedyState, steps: Seq<RollStep>, tbs: Seq<TimeBlock>) -> bool
    decreases steps.len(),
{
    steps.len() == 0 || (step_ok(s, steps[0], tbs) && forall|s2: GreedyState|
        s2.wf() && #[trigger] step_rel(s, s2, steps[0], tbs) ==> steps_ok(s2, steps.drop_first(), tbs))
}

/// Taking the steps in order leads from `s` to `s1`.
pub open spec fn steps_reach(s: GreedyState, s1: GreedyState, steps: Seq<RollStep>, tbs: Seq<TimeBlock>) -> bool
    decreases steps.len(),
{
    if steps.len() == 0 {
        s1 == s
    } else {
        exists|s2: GreedyState|
            s2.wf() && #[trigger] step_rel(s, s2, steps[0], tbs) && steps_reach(s2, s1, steps.drop_first(), tbs)
    }
}

proof fn lemma_reach_push(s0: GreedyState, s: GreedyState, s2: GreedyState, done: Seq<RollStep>, st: RollStep, tbs: Seq<TimeBlock>)
    requires
        steps_reach(s0, s, done, tbs),
        s2.wf(),
        step_rel(s, s2, st, tbs),
    ensures
        steps_reach(s0, s2, done.push(st), tbs),
    decreases done.len(),
{
    if done.len() == 0 {
        assert(done.push(st).drop_first() =~= Seq::<RollStep>::empty());
        assert(steps_reach(s2, s2, done.push(st).drop_first(), tbs));
        assert(done.push(st)[0] == st);
    } else {
        let m = choose|m: GreedyState| m.wf() && #[trigger] step_rel(s0, m, done[0], tbs) && steps_reach(m, s, done.drop_first(), tbs);
        lemma_reach_push(m, s, s2, done.drop_first(), st, tbs);
        assert(done.push(st).drop_first() =~= done.drop_first().push(st));
        assert(done.push(st)[0] == done[0]);
    }
}

proof fn lemma_ok_step(s: GreedyState, s2: GreedyState, steps: Seq<RollStep>, tbs: Seq<TimeBlock>)
    requires
        steps.len() > 0,
        steps_ok(s, steps, tbs),
        s2.wf(),
        step_rel(s, s2, steps[0], tbs),
    ensures
        steps_ok(s2, steps.drop_first(), tbs),
{
}

/// The lesson a dropped row is booked under: the given one, or the row's
/// own.
pub open spec fn drop_lesson(ls: Seq<Lesson>, fixed: Option<Lesson>, r: Placement) -> Lesson {
    match fixed {
        Some(l) => l,
        None => row_lesson(ls, r),
    }
}

/// The steps of dropping the rows `gone`, in order.
pub open spec fn drop_steps(gone: Seq<Placement>, ls: Seq<Lesson>, fixed: Option<Lesson>) -> Seq<RollStep> {
    Seq::new(gone.len(), |k: int| RollStep::Drop(drop_lesson(ls, fixed, gone[k]), gone[k]))
}

/// The rows to be dropped resolve their lesson where they are booked under
/// their own.
pub open spec fn drops_resolve(gone: Seq<Placement>, ls: Seq<Lesson>, fixed: Option<Lesson>) -> bool {
    fixed is None ==> forall|k: int| 0 <= k < gone.len() ==> lesson_index(ls, (#[trigger] gone[k]).lesson_id) >= 0
}

/// Remove the rows at the sorted indices, the highest first, taking each
/// one's bookkeeping out under the given lesson (or the row's own).
fn drop_rows_top(
    placements: &mut Vec<Placement>,
    sorted: &Vec<usize>,
    lessons: &Vec<Lesson>,
    fixed: Option<&Lesson>,
    tbs: &Vec<TimeBlock>,
    state: &mut GreedyState,
    Ghost(rest): Ghost<Seq<RollStep>>,
)
    requires
        old(state).wf(),
        top_ok(old(placements)@.len() as int, sorted@),
        drops_resolve(
            removed_from_top(old(placements)@, sorted@),
            lessons@,
            match fixed {
                Some(l) => Some(*l),
                None => None,
            },
        ),
        steps_ok(
            *old(state),
            drop_steps(
                removed_from_top(old(placements)@, sorted@),
                lessons@,
                match fixed {
                    Some(l) => Some(*l),
                    None => None,
                },
            ) + rest,
            tbs@,
        ),
    ensures
        final(state).wf(),
        final(placements)@ == remove_from_top(old(placements)@, sorted@),
        steps_reach(
            *old(state),
            *final(state),
            drop_steps(
                removed_from_top(old(placements)@, sorted@),
                lessons@,
                match fixed {
                    Some(l) => Some(*l),
                    None => None,
                },
            ),
            tbs@,
        ),
        steps_ok(*final(state), rest, tbs@),
{
    let ghost fx: Option<Lesson> = match fixed {
        Some(l) => Some(*l),
        None => None,
    };
    let ghost ps0 = placements@;
    let ghost s0 = *state;
    let ghost ls = lessons@;
    let ghost mut done: Seq<Placement> = seq![];
    proof {
        assert(sorted@.take(sorted@.len() as int) =~= sorted@);
        assert(done + removed_from_top(ps0, sorted@) =~= removed_from_top(ps0, sorted@));
        assert(drop_steps(done, ls, fx) =~= Seq::<RollStep>::empty());
    }
    let mut m: usize = sorted.len();
    while m > 0
        invariant
            m <= sorted@.len(),
            ls == lessons@,
            fx == match fixed {
                Some(l) => Some(*l),
                None => None::<Lesson>,
            },
            state.wf(),
            top_ok(placements@.len() as int, sorted@.take(m as int)),
            remove_from_top(ps0, sorted@) == remove_from_top(placements@, sorted@.take(m as int)),
            removed_from_top(ps0, sorted@) == done + removed_from_top(placements@, sorted@.take(m as int)),
            drops_resolve(removed_from_top(placements@, sorted@.take(m as int)), ls, fx),
            steps_reach(s0, *state, drop_steps(done, ls, fx), tbs@),
            steps_ok(*state, drop_steps(removed_from_top(placements@, sorted@.take(m as int)), ls, fx) + rest, tbs@),
        decreases m,
    {
        let ghost t = sorted@.take(m as int);
        let ghost cur = placements@;
        let x = sorted[m - 1];
        proof {
            assert(t.last() == x);
            assert(t.drop_last() =~= sorted@.take(m - 1));
        }
        let p = placements.remove(x);
        let ghost g = removed_from_top(placements@, sorted@.take(m - 1));
        proof {
            assert(removed_from_top(cur, t) == seq![p] + g);
        }
        let ghost l = drop_lesson(ls, fx, p);
        let lesson: &Lesson = match fixed {
            Some(fl) => fl,
            None => {
                proof {
                    assert((seq![p] + g)[0] == p);
                }
                match find_lesson(lessons, p.lesson_id) {
                    Some(li) => &lessons[li],
                    None => {
                        return;
                    },
                }
            },
        };
        assert(*lesson == l);
        let ghost before = *state;
        proof {
            let all = drop_steps(seq![p] + g, ls, fx) + rest;
            assert(all[0] == RollStep::Drop(l, p));
            assert(step_ok(before, all[0], tbs@));
        }
        rr_remove_row_bookkeeping(lesson, &p, tbs, state);
        proof {
            let all = drop_steps(seq![p] + g, ls, fx) + rest;
            assert(step_rel(before, *state, all[0], tbs@));
            lemma_ok_step(before, *state, all, tbs@);
            assert(all.drop_first() =~= drop_steps(g, ls, fx) + rest);
            lemma_reach_push(s0, before, *state, drop_steps(done, ls, fx), RollStep::Drop(l, p), tbs@);
            assert(drop_steps(done, ls, fx).push(RollStep::Drop(l, p)) =~= drop_steps(done.push(p), ls, fx));
            assert(done + (seq![p] + g) =~= done.push(p) + g);
            assert forall|k: int| 0 <= k < g.len() implies fx is None ==> lesson_index(ls, (#[trigger] g[k]).lesson_id) >= 0 by {
                assert((seq![p] + g)[k + 1] == g[k]);
            }
            done = done.push(p);
        }
        m = m - 1;
    }
    proof {
        assert(sorted@.take(0) =~= Seq::<usize>::empty());
        assert(drop_steps(removed_from_top(placements@, sorted@.take(0)), ls, fx) + rest =~= rest);
        assert(done =~= removed_from_top(ps0, sorted@));
    }
}

/// The steps of replaying the rows of lesson `l`: the rows come back last
/// first, then the classes count one block more on the first row's day
/// when that row's block resolves.
pub open spec fn replay_steps(l: Lesson, rows: Seq<Placement>, tbs: Seq<TimeBlock>) -> Seq<RollStep> {
    Seq::new(rows.len(), |k: int| RollStep::Add(l, rows[rows.len() - 1 - k])) + if rows.len() > 0 && tb_index(
        tbs,
        rows[0].time_block_id,
    ) >= 0 {
        seq![RollStep::DayUp(l, row_block(tbs, rows[0]).day_of_week)]
    } else {
        Seq::<RollStep>::empty()
    }
}

/// Replay the rows of one snapshot of `lesson`, last first, then count one
/// block more for each member class on the first row's day.
fn replay_rows(
    lesson: &Lesson,
    rows: &Vec<Placement>,
    tbs: &Vec<TimeBlock>,
    placements: &mut Vec<Placement>,
    state: &mut GreedyState,
    Ghost(rest): Ghost<Seq<RollStep>>,
)
    requires
        old(state).wf(),
        steps_ok(*old(state), replay_steps(*lesson, rows@, tbs@) + rest, tbs@),
    ensures
        final(state).wf(),
        final(placements)@ == old(placements)@ + rows@.reverse(),
        steps_reach(*old(state), *final(state), replay_steps(*lesson, rows@, tbs@), tbs@),
        steps_ok(*final(state), rest, tbs@),
{
    let ghost ps0 = placements@;
    let ghost s0 = *state;
    let ghost adds = Seq::new(rows@.len(), |k: int| RollStep::Add(*lesson, rows@[rows@.len() - 1 - k]));
    let ghost tail = replay_steps(*lesson, rows@, tbs@).subrange(rows@.len() as int, replay_steps(*lesson, rows@, tbs@).len() as int);
    proof {
        assert(replay_steps(*lesson, rows@, tbs@) =~= adds + tail);
        assert(adds.take(0) =~= Seq::<RollStep>::empty());
        assert(rows@.reverse().take(0) =~= Seq::<Placement>::empty());
        assert(ps0 + rows@.reverse().take(0) =~= ps0);
        assert(adds.subrange(0, adds.len() as int) + tail + rest =~= replay_steps(*lesson, rows@, tbs@) + rest);
    }
    let mut j: usize = rows.len();
    while j > 0
        invariant
            j <= rows@.len(),
            adds == Seq::new(rows@.len(), |k: int| RollStep::Add(*lesson, rows@[rows@.len() - 1 - k])),
            state.wf(),
            placements@ == ps0 + rows@.reverse().take(rows@.len() - j),
            steps_reach(s0, *state, adds.take(rows@.len() - j), tbs@),
            steps_ok(*state, adds.subrange(rows@.len() - j, adds.len() as int) + tail + rest, tbs@),
        decreases j,
    {
        let ghost before = *state;
        let ghost k = rows@.len() - j;
        let ghost all = adds.subrange(k, adds.len() as int) + tail + rest;
        proof {
            assert(all[0] == RollStep::Add(*lesson, rows@[j - 1]));
        }
        replay_placement(lesson, &rows[j - 1], tbs, placements, state);
        proof {
            lemma_ok_step(before, *state, all, tbs@);
            assert(all.drop_first() =~= adds.subrange(k + 1, adds.len() as int) + tail + rest);
            lemma_reach_push(s0, before, *state, adds.take(k), RollStep::Add(*lesson, rows@[j - 1]), tbs@);
            assert(adds.take(k).push(RollStep::Add(*lesson, rows@[j - 1])) =~= adds.take(k + 1));
            assert(rows@.reverse().take(k + 1) =~= rows@.reverse().take(k).push(rows@[j - 1]));
            assert(ps0 + rows@.reverse().take(k + 1) =~= (ps0 + rows@.reverse().take(k)).push(rows@[j - 1]));
        }
        j = j - 1;
    }
    proof {
        assert(adds.take(adds.len() as int) =~= adds);
        assert(rows@.reverse().take(rows@.len() as int) =~= rows@.reverse());
        assert(adds.subrange(adds.len() as int, adds.len() as int) + tail + rest =~= tail + rest);
    }
    let ghost mid = *state;
    if rows.len() > 0 {
        match find_tb(tbs, rows[0].time_block_id) {
            Some(t) => {
                let day = tbs[t].day_of_week;
                proof {
                    assert(tail =~= seq![RollStep::DayUp(*lesson, day)]);
                    assert((tail + rest)[0] == RollStep::DayUp(*lesson, day));
                }
                inc_class_days(&mut state.lessons_by_class_day, &lesson.school_class_ids, day);
                proof {
                    assert(step_rel(mid, *state, RollStep::DayUp(*lesson, day), tbs@));
                    lemma_ok_step(mid, *state, tail + rest, tbs@);
                    assert((tail + rest).drop_first() =~= rest);
                    lemma_reach_push(s0, mid, *state, adds, RollStep::DayUp(*lesson, day), tbs@);
                    assert(adds.push(RollStep::DayUp(*lesson, day)) =~= replay_steps(*lesson, rows@, tbs@));
                }
            },
            None => {
                proof {
                    assert(tail =~= Seq::<RollStep>::empty());
                    assert(adds =~= replay_steps(*lesson, rows@, tbs@));
                    assert(tail + rest =~= rest);
                }
            },
        }
    } else {
        proof {
            assert(tail =~= Seq::<RollStep>::empty());
            assert(adds =~= replay_steps(*lesson, rows@, tbs@));
            assert(tail + rest =~= rest);
        }
    }
}

proof fn lemma_reach_concat(
    a: GreedyState,
    b: GreedyState,
    c: GreedyState,
    x: Seq<RollStep>,
    y: Seq<RollStep>,
    tbs: Seq<TimeBlock>,
)
    requires
        steps_reach(a, b, x, tbs),
        steps_reach(b, c, y, tbs),
    ensures
        steps_reach(a, c, x + y, tbs),
    decreases x.len(),
{
    if x.len() == 0 {
        assert(x + y =~= y);
    } else {
        let m = choose|m: GreedyState| m.wf() && #[trigger] step_rel(a, m, x[0], tbs) && steps_reach(m, b, x.drop_first(), tbs);
        lemma_reach_concat(m, b, c, x.drop_first(), y, tbs);
        assert((x + y).drop_first() =~= x.drop_first() + y);
        assert((x + y)[0] == x[0]);
    }
}

/// Index of the first row from `j` on that matches `row` in lesson, block
/// and room, -1 if none.
pub open spec fn first_same_row(ps: Seq<Placement>, row: Placement, j: int) -> int
    decreases ps.len() - j,
{
    if j < 0 || j >= ps.len() {
        -1
    } else if ps[j].lesson_id == row.lesson_id && ps[j].time_block_id == row.time_block_id && ps[j].room_id == row.room_id {
        j
    } else {
        first_same_row(ps, row, j + 1)
    }
}

/// The indices of the first matching row of each of `rows` that has one,
/// in the order of `rows`.
pub open spec fn rr_found(ps: Seq<Placement>, rows: Seq<Placement>) -> Seq<usize>
    decreases rows.len(),
{
    if rows.len() == 0 {
        seq![]
    } else {
        let f = rr_found(ps, rows.drop_last());
        let j = first_same_row(ps, rows.last(), 0);
        if j >= 0 {
            f.push(j as usize)
        } else {
            f
        }
    }
}

/// The block-counter step after a recreated block's rows are gone: one
/// block fewer for the classes of its first row's lesson on that row's day,
/// when both resolve.
pub open spec fn rr_day_step(rows: Seq<Placement>, ls: Seq<Lesson>, tbs: Seq<TimeBlock>) -> Seq<RollStep> {
    if rows.len() > 0 && tb_index(tbs, rows[0].time_block_id) >= 0 && lesson_index(ls, rows[0].lesson_id) >= 0 {
        seq![RollStep::DayDown(row_lesson(ls, rows[0]), row_block(tbs, rows[0]).day_of_week)]
    } else {
        seq![]
    }
}

/// Undoing the recreated blocks, the last first: each block's rows still
/// found are removed (highest index first, each under its own lesson), then
/// its day counter steps down. The placements after, and the steps.
pub open spec fn rr_undo(ps: Seq<Placement>, blocks: Seq<Seq<Placement>>, ls: Seq<Lesson>, tbs: Seq<TimeBlock>) -> (
    Seq<Placement>,
    Seq<RollStep>,
)
    decreases blocks.len(),
{
    if blocks.len() == 0 {
        (ps, seq![])
    } else {
        let rows = blocks.last();
        let sorted = sorted_idxs(rr_found(ps, rows));
        let ps1 = remove_from_top(ps, sorted);
        let rest = rr_undo(ps1, blocks.drop_last(), ls, tbs);
        (rest.0, drop_steps(removed_from_top(ps, sorted), ls, None) + rr_day_step(rows, ls, tbs) + rest.1)
    }
}

/// Undoing the recreated blocks hits a row at every removal, and every
/// removed row's lesson resolves.
pub open spec fn rr_undo_ok(ps: Seq<Placement>, blocks: Seq<Seq<Placement>>, ls: Seq<Lesson>, tbs: Seq<TimeBlock>) -> bool
    decreases blocks.len(),
{
    blocks.len() == 0 || {
        let rows = blocks.last();
        let sorted = sorted_idxs(rr_found(ps, rows));
        &&& top_ok(ps.len() as int, sorted)
        &&& drops_resolve(removed_from_top(ps, sorted), ls, None)
        &&& rr_undo_ok(remove_from_top(ps, sorted), blocks.drop_last(), ls, tbs)
    }
}

/// Replaying the snapshots, the last first: each one's rows come back last
/// first under the snapshot's lesson. The placements after, and the steps.
pub open spec fn replay_all(
    ps: Seq<Placement>,
    snaps: Seq<(LessonId, Seq<Placement>)>,
    ls: Seq<Lesson>,
    tbs: Seq<TimeBlock>,
) -> (Seq<Placement>, Seq<RollStep>)
    decreases snaps.len(),
{
    if snaps.len() == 0 {
        (ps, seq![])
    } else {
        let (lid, rows) = snaps.last();
        let l = ls[lesson_index(ls, lid)];
        let rest = replay_all(ps + rows.reverse(), snaps.drop_last(), ls, tbs);
        (rest.0, replay_steps(l, rows, tbs) + rest.1)
    }
}

/// Every snapshot's lesson resolves.
pub open spec fn snaps_resolve(snaps: Seq<(LessonId, Seq<Placement>)>, ls: Seq<Lesson>) -> bool {
    forall|q: int| 0 <= q < snaps.len() ==> lesson_index(ls, (#[trigger] snaps[q]).0) >= 0
}

/// The first row from the start that matches `row`.
fn first_same_row_exec(ps: &Vec<Placement>, row: &Placement) -> (r: Option<usize>)
    ensures
        match r {
            Some(j) => j as int == first_same_row(ps@, *row, 0),
            None => first_same_row(ps@, *row, 0) == -1,
        },
{
    let mut j: usize = 0;
    while j < ps.len()
        invariant
            j <= ps@.len(),
            first_same_row(ps@, *row, 0) == first_same_row(ps@, *row, j as int),
        decreases ps@.len() - j,
    {
        if ps[j].lesson_id == row.lesson_id && ps[j].time_block_id == row.time_block_id && ps[j].room_id == row.room_id {
            return Some(j);
        }
        j = j + 1;
    }
    None
}

/// Replay the snapshots, the last first.
fn replay_snapshots(
    snap_rows: &Vec<(LessonId, Vec<Placement>)>,
    lessons: &Vec<Lesson>,
    tbs: &Vec<TimeBlock>,
    placements: &mut Vec<Placement>,
    state: &mut GreedyState,
)
    requires
        old(state).wf(),
        snaps_resolve(snap_rows@.map_values(|e: (LessonId, Vec<Placement>)| (e.0, e.1@)), lessons@),
        steps_ok(
            *old(state),
            replay_all(old(placements)@, snap_rows@.map_values(|e: (LessonId, Vec<Placement>)| (e.0, e.1@)), lessons@, tbs@).1,
            tbs@,
        ),
    ensures
        final(state).wf(),
        final(placements)@ == replay_all(
            old(placements)@,
            snap_rows@.map_values(|e: (LessonId, Vec<Placement>)| (e.0, e.1@)),
            lessons@,
            tbs@,
        ).0,
        steps_reach(
            *old(state),
            *final(state),
            replay_all(old(placements)@, snap_rows@.map_values(|e: (LessonId, Vec<Placement>)| (e.0, e.1@)), lessons@, tbs@).1,
            tbs@,
        ),
{
    let ghost snaps = snap_rows@.map_values(|e: (LessonId, Vec<Placement>)| (e.0, e.1@));
    let ghost ls = lessons@;
    let ghost ps0 = placements@;
    let ghost s0 = *state;
    let ghost mut done: Seq<RollStep> = seq![];
    proof {
        assert(snaps.take(snaps.len() as int) =~= snaps);
        assert(done + replay_all(ps0, snaps, ls, tbs@).1 =~= replay_all(ps0, snaps, ls, tbs@).1);
    }
    let mut q: usize = snap_rows.len();
    while q > 0
        invariant
            q <= snaps.len(),
            snaps == snap_rows@.map_values(|e: (LessonId, Vec<Placement>)| (e.0, e.1@)),
            ls == lessons@,
            state.wf(),
            snaps_resolve(snaps, ls),
            replay_all(ps0, snaps, ls, tbs@).0 == replay_all(placements@, snaps.take(q as int), ls, tbs@).0,
            replay_all(ps0, snaps, ls, tbs@).1 == done + replay_all(placements@, snaps.take(q as int), ls, tbs@).1,
            steps_reach(s0, *state, done, tbs@),
            steps_ok(*state, replay_all(placements@, snaps.take(q as int), ls, tbs@).1, tbs@),
        decreases q,
    {
        let ghost t = snaps.take(q as int);
        let ghost cur = placements@;
        let ghost before = *state;
        proof {
            assert(t.last() == snaps[q - 1]);
            assert(t.drop_last() =~= snaps.take(q - 1));
            assert(snaps[q - 1] == (snap_rows@[q - 1].0, snap_rows@[q - 1].1@));
        }
        let lid = snap_rows[q - 1].0;
        let li = match find_lesson(lessons, lid) {
            Some(li) => li,
            None => {
                proof {
                    assert(lesson_index(ls, snaps[q - 1].0) >= 0);
                }
                return;
            },
        };
        let ghost rest = replay_all(cur + snap_rows@[q - 1].1@.reverse(), snaps.take(q - 1), ls, tbs@).1;
        replay_rows(&lessons[li], &snap_rows[q - 1].1, tbs, placements, state, Ghost(rest));
        proof {
            lemma_reach_concat(s0, before, *state, done, replay_steps(lessons@[li as int], snap_rows@[q - 1].1@, tbs@), tbs@);
            assert(done + replay_all(cur, t, ls, tbs@).1 =~= (done + replay_steps(lessons@[li as int], snap_rows@[q - 1].1@, tbs@))
                + rest);
            done = done + replay_steps(lessons@[li as int], snap_rows@[q - 1].1@, tbs@);
        }
        q = q - 1;
    }
    proof {
        assert(snaps.take(0) =~= Seq::<(LessonId, Seq<Placement>)>::empty());
        assert(done + Seq::<RollStep>::empty() =~= done);
    }
}

/// The recreated blocks' rows.
pub open spec fn block_rows_of(v: Seq<Vec<Placement>>) -> Seq<Seq<Placement>> {
    v.map_values(|r: Vec<Placement>| r@)
}

/// The snapshots' lessons and rows.
pub open spec fn rr_snaps(v: Seq<(LessonId, BlockSnapshot)>) -> Seq<(LessonId, Seq<Placement>)> {
    v.map_values(|e: (LessonId, BlockSnapshot)| (e.0, e.1.rows@))
}

/// A copy of the rows.
fn copy_rows(rows: &Vec<Placement>) -> (v: Vec<Placement>)
    ensures
        v@ == rows@,
{
    let mut v: Vec<Placement> = Vec::new();
    let mut j: usize = 0;
    while j < rows.len()
        invariant
            j <= rows@.len(),
            v@ == rows@.take(j as int),
        decreases rows@.len() - j,
    {
        v.push(rows[j]);
        proof {
            assert(rows@.take(j + 1) =~= rows@.take(j as int).push(rows@[j as int]));
        }
        j = j + 1;
    }
    proof {
        assert(rows@.take(rows@.len() as int) =~= rows@);
    }
    v
}

fn rr_snapshot_rows(snapshots: &Vec<(LessonId, BlockSnapshot)>) -> (v: Vec<(LessonId, Vec<Placement>)>)
    ensures
        v@.map_values(|e: (LessonId, Vec<Placement>)| (e.0, e.1@)) == rr_snaps(snapshots@),
{
    let mut v: Vec<(LessonId, Vec<Placement>)> = Vec::new();
    let mut j: usize = 0;
    while j < snapshots.len()
        invariant
            j <= snapshots@.len(),
            v@.len() == j,
            forall|k: int| 0 <= k < j ==> (#[trigger] v@[k]).0 == snapshots@[k].0 && v@[k].1@ == snapshots@[k].1.rows@,
        decreases snapshots@.len() - j,
    {
        let rows = copy_rows(&snapshots[j].1.rows);
        v.push((snapshots[j].0, rows));
        j = j + 1;
    }
    proof {
        assert(v@.map_values(|e: (LessonId, Vec<Placement>)| (e.0, e.1@)) =~= rr_snaps(snapshots@));
    }
    v
}

/// The indices of the first matching row of each row of `rows`.
fn rr_found_exec(ps: &Vec<Placement>, rows: &Vec<Placement>) -> (idxs: Vec<usize>)
    ensures
        idxs@ == rr_found(ps@, rows@),
{
    let mut idxs: Vec<usize> = Vec::new();
    let mut k: usize = 0;
    while k < rows.len()
        invariant
            k <= rows@.len(),
            idxs@ == rr_found(ps@, rows@.take(k as int)),
        decreases rows@.len() - k,
    {
        proof {
            assert(rows@.take(k + 1).drop_last() =~= rows@.take(k as int));
            assert(rows@.take(k + 1).last() == rows@[k as int]);
        }
        match first_same_row_exec(ps, &rows[k]) {
            Some(j) => {
                idxs.push(j);
            },
            None => {},
        }
        k = k + 1;
    }
    proof {
        assert(rows@.take(rows@.len() as int) =~= rows@);
    }
    idxs
}

/// Roll back a partial or complete ruin-and-recreate attempt: the blocks
/// recreated (`recreated_rows`, last first) lose the rows still found for
/// them (the first row matching each in lesson, block and room, removed
/// highest index first under the row's own lesson), each followed by one
/// block fewer for its first row's classes on that row's day; then the
/// snapshots (last first) replay their rows, last first, each followed by
/// one block more on its first row's day. The placements end as
/// `replay_all` after `rr_undo` says, and the bookkeeping goes through the
/// steps they list. Lessons and blocks resolve through `lessons` and `tbs`.
pub fn rr_rollback(
    recreated_rows: &Vec<Vec<Placement>>,
    snapshots: &Vec<(LessonId, BlockSnapshot)>,
    lessons: &Vec<Lesson>,
    tbs: &Vec<TimeBlock>,
    placements: &mut Vec<Placement>,
    state: &mut GreedyState,
)
    requires
        old(state).wf(),
        rr_undo_ok(old(placements)@, block_rows_of(recreated_rows@), lessons@, tbs@),
        snaps_resolve(rr_snaps(snapshots@), lessons@),
        steps_ok(
            *old(state),
            rr_undo(old(placements)@, block_rows_of(recreated_rows@), lessons@, tbs@).1 + replay_all(
                rr_undo(old(placements)@, block_rows_of(recreated_rows@), lessons@, tbs@).0,
                rr_snaps(snapshots@),
                lessons@,
                tbs@,
            ).1,
            tbs@,
        ),
    ensures
        final(state).wf(),
        final(placements)@ == replay_all(
            rr_undo(old(placements)@, block_rows_of(recreated_rows@), lessons@, tbs@).0,
            rr_snaps(snapshots@),
            lessons@,
            tbs@,
        ).0,
        steps_reach(
            *old(state),
            *final(state),
            rr_undo(old(placements)@, block_rows_of(recreated_rows@), lessons@, tbs@).1 + replay_all(
                rr_undo(old(placements)@, block_rows_of(recreated_rows@), lessons@, tbs@).0,
                rr_snaps(snapshots@),
                lessons@,
                tbs@,
            ).1,
            tbs@,
        ),
{
    let ghost blocks = block_rows_of(recreated_rows@);
    let ghost ls = lessons@;
    let ghost ps0 = placements@;
    let ghost s0 = *state;
    let ghost undo = rr_undo(ps0, blocks, ls, tbs@);
    let ghost p2 = replay_all(undo.0, rr_snaps(snapshots@), ls, tbs@).1;
    let ghost mut done: Seq<RollStep> = seq![];
    proof {
        assert(blocks.take(blocks.len() as int) =~= blocks);
        assert(done + undo.1 =~= undo.1);
    }
    let mut b: usize = recreated_rows.len();
    while b > 0
        invariant
            b <= blocks.len(),
            blocks == block_rows_of(recreated_rows@),
            ls == lessons@,
            state.wf(),
            undo == rr_undo(ps0, blocks, ls, tbs@),
            undo.0 == rr_undo(placements@, blocks.take(b as int), ls, tbs@).0,
            undo.1 == done + rr_undo(placements@, blocks.take(b as int), ls, tbs@).1,
            rr_undo_ok(placements@, blocks.take(b as int), ls, tbs@),
            steps_reach(s0, *state, done, tbs@),
            steps_ok(*state, rr_undo(placements@, blocks.take(b as int), ls, tbs@).1 + p2, tbs@),
        decreases b,
    {
        let ghost t = blocks.take(b as int);
        let ghost cur = placements@;
        let ghost before = *state;
        proof {
            assert(t.last() == recreated_rows@[b - 1]@);
            assert(t.drop_last() =~= blocks.take(b - 1));
        }
        let rows = &recreated_rows[b - 1];
        let idxs = rr_found_exec(placements, rows);
        let sorted = sort_indices(&idxs);
        let ghost sorted_s = sorted_idxs(rr_found(cur, rows@));
        let ghost drops = drop_steps(removed_from_top(cur, sorted_s), ls, None);
        let ghost day = rr_day_step(rows@, ls, tbs@);
        let ghost ps1 = remove_from_top(cur, sorted_s);
        let ghost later = rr_undo(ps1, blocks.take(b - 1), ls, tbs@).1;
        let mut day_lesson: Option<(LessonId, u8)> = None;
        if rows.len() > 0 {
            match find_tb(tbs, rows[0].time_block_id) {
                Some(ti) => {
                    day_lesson = Some((rows[0].lesson_id, tbs[ti].day_of_week));
                },
                None => {},
            }
        }
        proof {
            assert(rr_undo(cur, t, ls, tbs@).1 + p2 =~= drops + (day + later + p2));
        }
        drop_rows_top(placements, &sorted, lessons, None, tbs, state, Ghost(day + later + p2));
        let ghost mid = *state;
        proof {
            lemma_reach_concat(s0, before, mid, done, drops, tbs@);
        }
        let mut stepped = false;
        match day_lesson {
            Some((lid, d)) => {
                match find_lesson(lessons, lid) {
                    Some(li) => {
                        proof {
                            assert(day =~= seq![RollStep::DayDown(lessons@[li as int], d)]);
                            assert((day + later + p2)[0] == RollStep::DayDown(lessons@[li as int], d));
                        }
                        dec_class_days(&mut state.lessons_by_class_day, &lessons[li].school_class_ids, d);
                        proof {
                            assert(step_rel(mid, *state, RollStep::DayDown(lessons@[li as int], d), tbs@));
                            lemma_ok_step(mid, *state, day + later + p2, tbs@);
                            assert((day + later + p2).drop_first() =~= later + p2);
                            lemma_reach_push(s0, mid, *state, done + drops, RollStep::DayDown(lessons@[li as int], d), tbs@);
                            assert((done + drops).push(RollStep::DayDown(lessons@[li as int], d)) =~= done + drops + day);
                        }
                        stepped = true;
                    },
                    None => {},
                }
            },
            None => {},
        }
        proof {
            if !stepped {
                assert(day =~= Seq::<RollStep>::empty());
                assert(day + later + p2 =~= later + p2);
                assert(done + drops + day =~= done + drops);
            }
            assert(undo.1 =~= (done + drops + day) + later);
            done = done + drops + day;
        }
        b = b - 1;
    }
    proof {
        assert(blocks.take(0) =~= Seq::<Seq<Placement>>::empty());
        assert(done + Seq::<RollStep>::empty() =~= done);
        assert(Seq::<RollStep>::empty() + p2 =~= p2);
    }
    let ghost mid = *state;
    let snap_rows = rr_snapshot_rows(snapshots);
    replay_snapshots(&snap_rows, lessons, tbs, placements, state);
    proof {
        lemma_reach_concat(s0, mid, *state, done, p2, tbs@);
    }
}

/// Index of the first row from `j` on of lesson `lid` at block `tb`, -1 if
/// none.
pub open spec fn first_lesson_at(ps: Seq<Placement>, lid: LessonId, tb: TimeBlockId, j: int) -> int
    decreases ps.len() - j,
{
    if j < 0 || j >= ps.len() {
        -1
    } else if ps[j].lesson_id == lid && ps[j].time_block_id == tb {
        j
    } else {
        first_lesson_at(ps, lid, tb, j + 1)
    }
}

/// For the offsets `0 .. n` of the window at `start` on `day`, in order,
/// the index of the first row of lesson `lid` at the window's block there,
/// where there is one.
pub open spec fn kempe_found(
    ps: Seq<Placement>,
    lid: LessonId,
    day: u8,
    start: u8,
    n: nat,
    slots: Seq<((u8, u8), TimeBlockId)>,
) -> Seq<usize>
    decreases n,
{
    if n == 0 {
        seq![]
    } else {
        let f = kempe_found(ps, lid, day, start, (n - 1) as nat, slots);
        let tb = slot_table_get(slots, (day, (start + n - 1) as u8))->0;
        let j = first_lesson_at(ps, lid, tb, 0);
        if j >= 0 {
            f.push(j as usize)
        } else {
            f
        }
    }
}

/// Every offset `0 .. n` of the window stays within the day and has a block
/// in the slot table.
pub open spec fn window_in_table(slots: Seq<((u8, u8), TimeBlockId)>, day: u8, start: u8, n: nat) -> bool {
    forall|k: int| 0 <= k < n ==> start + k <= 255 && (#[trigger] slot_table_get(slots, (day, (start + k) as u8))) is Some
}

/// Undoing the recreated Kempe blocks, the last first: each block's rows
/// still found in its window are removed (highest index first, under the
/// block's lesson), then, when any was found, its classes count one block
/// fewer on the destination day. The placements after, and the steps.
pub open spec fn kempe_undo(
    ps: Seq<Placement>,
    rec: Seq<(LessonId, u8, u8)>,
    ls: Seq<Lesson>,
    tbs: Seq<TimeBlock>,
    slots: Seq<((u8, u8), TimeBlockId)>,
) -> (Seq<Placement>, Seq<RollStep>)
    decreases rec.len(),
{
    if rec.len() == 0 {
        (ps, seq![])
    } else {
        let (lid, d, st) = rec.last();
        let l = ls[lesson_index(ls, lid)];
        let found = kempe_found(ps, lid, d, st, l.preferred_block_size as nat, slots);
        let sorted = sorted_idxs(found);
        let down = if found.len() > 0 {
            seq![RollStep::DayDown(l, d)]
        } else {
            Seq::<RollStep>::empty()
        };
        let rest = kempe_undo(remove_from_top(ps, sorted), rec.drop_last(), ls, tbs, slots);
        (rest.0, drop_steps(removed_from_top(ps, sorted), ls, Some(l)) + down + rest.1)
    }
}

/// Undoing the recreated Kempe blocks finds each block's lesson, stays in
/// the slot table, and hits a row at every removal.
pub open spec fn kempe_undo_ok(
    ps: Seq<Placement>,
    rec: Seq<(LessonId, u8, u8)>,
    ls: Seq<Lesson>,
    tbs: Seq<TimeBlock>,
    slots: Seq<((u8, u8), TimeBlockId)>,
) -> bool
    decreases rec.len(),
{
    rec.len() == 0 || {
        let (lid, d, st) = rec.last();
        let l = ls[lesson_index(ls, lid)];
        let sorted = sorted_idxs(kempe_found(ps, lid, d, st, l.preferred_block_size as nat, slots));
        &&& lesson_index(ls, lid) >= 0
        &&& window_in_table(slots, d, st, l.preferred_block_size as nat)
        &&& top_ok(ps.len() as int, sorted)
        &&& kempe_undo_ok(remove_from_top(ps, sorted), rec.drop_last(), ls, tbs, slots)
    }
}

/// The Kempe snapshots' lessons and rows.
pub open spec fn kempe_snaps(v: Seq<(LessonId, u8, BlockSnapshot)>) -> Seq<(LessonId, Seq<Placement>)> {
    v.map_values(|e: (LessonId, u8, BlockSnapshot)| (e.0, e.2.rows@))
}

fn kempe_snapshot_rows(snapshots: &Vec<(LessonId, u8, BlockSnapshot)>) -> (v: Vec<(LessonId, Vec<Placement>)>)
    ensures
        v@.map_values(|e: (LessonId, Vec<Placement>)| (e.0, e.1@)) == kempe_snaps(snapshots@),
{
    let mut v: Vec<(LessonId, Vec<Placement>)> = Vec::new();
    let mut j: usize = 0;
    while j < snapshots.len()
        invariant
            j <= snapshots@.len(),
            v@.len() == j,
            forall|k: int| 0 <= k < j ==> (#[trigger] v@[k]).0 == snapshots@[k].0 && v@[k].1@ == snapshots@[k].2.rows@,
        decreases snapshots@.len() - j,
    {
        let rows = copy_rows(&snapshots[j].2.rows);
        v.push((snapshots[j].0, rows));
        j = j + 1;
    }
    proof {
        assert(v@.map_values(|e: (LessonId, Vec<Placement>)| (e.0, e.1@)) =~= kempe_snaps(snapshots@));
    }
    v
}

/// The first row from the start of lesson `lid` at block `tb`.
fn first_lesson_at_exec(ps: &Vec<Placement>, lid: LessonId, tb: TimeBlockId) -> (r: Option<usize>)
    ensures
        match r {
            Some(j) => j as int == first_lesson_at(ps@, lid, tb, 0),
            None => first_lesson_at(ps@, lid, tb, 0) == -1,
        },
{
    let mut j: usize = 0;
    while j < ps.len()
        invariant
            j <= ps@.len(),
            first_lesson_at(ps@, lid, tb, 0) == first_lesson_at(ps@, lid, tb, j as int),
        decreases ps@.len() - j,
    {
        if ps[j].lesson_id == lid && ps[j].time_block_id == tb {
            return Some(j);
        }
        j = j + 1;
    }
    None
}

fn kempe_found_exec(
    ps: &Vec<Placement>,
    lid: LessonId,
    day: u8,
    start: u8,
    n: u8,
    slots: &Vec<((u8, u8), TimeBlockId)>,
) -> (idxs: Vec<usize>)
    requires
        window_in_table(slots@, day, start, n as nat),
    ensures
        idxs@ == kempe_found(ps@, lid, day, start, n as nat, slots@),
{
    let mut idxs: Vec<usize> = Vec::new();
    let mut k: u8 = 0;
    while k < n
        invariant
            k <= n,
            window_in_table(slots@, day, start, n as nat),
            idxs@ == kempe_found(ps@, lid, day, start, k as nat, slots@),
        decreases n - k,
    {
        proof {
            assert(start + k <= 255 && slot_table_get(slots@, (day, (start + k) as u8)) is Some);
        }
        let pos: u8 = start + k;
        let tb = match lookup_slot(slots, (day, pos)) {
            Some(tb) => tb,
            None => {
                return idxs;
            },
        };
        match first_lesson_at_exec(ps, lid, tb) {
            Some(j) => {
                idxs.push(j);
            },
            None => {},
        }
        k = k + 1;
    }
    idxs
}

/// Roll back a partial or complete Kempe attempt: the recreated blocks
/// (`recreated`, last first, each a lesson, destination day and start
/// position) lose the rows of their lesson still found at their window's
/// blocks (the first such row per block, removed highest index first under
/// the block's lesson), each followed, when any was found, by one block
/// fewer for the lesson's classes on that day; then the snapshots (last
/// first) replay their rows, last first, each followed by one block more on
/// its first row's day. The placements end as `replay_all` after
/// `kempe_undo` says, and the bookkeeping goes through the steps they list.
/// Lessons and blocks resolve through `lessons` and `tbs`; `tb_by_day_pos`
/// maps `(day, position)` to the block there (first entry per key).
pub fn kempe_rollback(
    recreated: &Vec<(LessonId, u8, u8)>,
    snapshots: &Vec<(LessonId, u8, BlockSnapshot)>,
    lessons: &Vec<Lesson>,
    tbs: &Vec<TimeBlock>,
    tb_by_day_pos: &Vec<((u8, u8), TimeBlockId)>,
    placements: &mut Vec<Placement>,
    state: &mut GreedyState,
)
    requires
        old(state).wf(),
        kempe_undo_ok(old(placements)@, recreated@, lessons@, tbs@, tb_by_day_pos@),
        snaps_resolve(kempe_snaps(snapshots@), lessons@),
        steps_ok(
            *old(state),
            kempe_undo(old(placements)@, recreated@, lessons@, tbs@, tb_by_day_pos@).1 + replay_all(
                kempe_undo(old(placements)@, recreated@, lessons@, tbs@, tb_by_day_pos@).0,
                kempe_snaps(snapshots@),
                lessons@,
                tbs@,
            ).1,
            tbs@,
        ),
    ensures
        final(state).wf(),
        final(placements)@ == replay_all(
            kempe_undo(old(placements)@, recreated@, lessons@, tbs@, tb_by_day_pos@).0,
            kempe_snaps(snapshots@),
            lessons@,
            tbs@,
        ).0,
        steps_reach(
            *old(state),
            *final(state),
            kempe_undo(old(placements)@, recreated@, lessons@, tbs@, tb_by_day_pos@).1 + replay_all(
                kempe_undo(old(placements)@, recreated@, lessons@, tbs@, tb_by_day_pos@).0,
                kempe_snaps(snapshots@),
                lessons@,
                tbs@,
            ).1,
            tbs@,
        ),
{
    let ghost rec = recreated@;
    let ghost ls = lessons@;
    let ghost slots = tb_by_day_pos@;
    let ghost ps0 = placements@;
    let ghost s0 = *state;
    let ghost undo = kempe_undo(ps0, rec, ls, tbs@, slots);
    let ghost p2 = replay_all(undo.0, kempe_snaps(snapshots@), ls, tbs@).1;
    let ghost mut done: Seq<RollStep> = seq![];
    proof {
        assert(rec.take(rec.len() as int) =~= rec);
        assert(done + undo.1 =~= undo.1);
    }
    let mut b: usize = recreated.len();
    while b > 0
        invariant
            b <= rec.len(),
            rec == recreated@,
            ls == lessons@,
            slots == tb_by_day_pos@,
            state.wf(),
            undo == kempe_undo(ps0, rec, ls, tbs@, slots),
            undo.0 == kempe_undo(placements@, rec.take(b as int), ls, tbs@, slots).0,
            undo.1 == done + kempe_undo(placements@, rec.take(b as int), ls, tbs@, slots).1,
            kempe_undo_ok(placements@, rec.take(b as int), ls, tbs@, slots),
            steps_reach(s0, *state, done, tbs@),
            steps_ok(*state, kempe_undo(placements@, rec.take(b as int), ls, tbs@, slots).1 + p2, tbs@),
        decreases b,
    {
        let ghost t = rec.take(b as int);
        let ghost cur = placements@;
        let ghost before = *state;
        proof {
            assert(t.last() == rec[b - 1]);
            assert(t.drop_last() =~= rec.take(b - 1));
        }
        let (lid, d, st) = recreated[b - 1];
        let li = match find_lesson(lessons, lid) {
            Some(li) => li,
            None => {
                return;
            },
        };
        let lesson = &lessons[li];
        let n = lesson.preferred_block_size;
        let idxs = kempe_found_exec(placements, lid, d, st, n, tb_by_day_pos);
        let sorted = sort_indices(&idxs);
        let ghost l = lessons@[li as int];
        let ghost sorted_s = sorted_idxs(kempe_found(cur, lid, d, st, n as nat, slots));
        let ghost drops = drop_steps(removed_from_top(cur, sorted_s), ls, Some(l));
        let ghost down = if idxs@.len() > 0 {
            seq![RollStep::DayDown(l, d)]
        } else {
            Seq::<RollStep>::empty()
        };
        let ghost ps1 = remove_from_top(cur, sorted_s);
        let ghost later = kempe_undo(ps1, rec.take(b - 1), ls, tbs@, slots).1;
        proof {
            assert(kempe_undo(cur, t, ls, tbs@, slots).1 + p2 =~= drops + (down + later + p2));
        }
        drop_rows_top(placements, &sorted, lessons, Some(lesson), tbs, state, Ghost(down + later + p2));
        let ghost mid = *state;
        proof {
            lemma_reach_concat(s0, before, mid, done, drops, tbs@);
        }
        if idxs.len() > 0 {
            proof {
                assert((down + later + p2)[0] == RollStep::DayDown(l, d));
            }
            dec_class_days(&mut state.lessons_by_class_day, &lesson.school_class_ids, d);
            proof {
                assert(step_rel(mid, *state, RollStep::DayDown(l, d), tbs@));
                lemma_ok_step(mid, *state, down + later + p2, tbs@);
                assert((down + later + p2).drop_first() =~= later + p2);
                lemma_reach_push(s0, mid, *state, done + drops, RollStep::DayDown(l, d), tbs@);
                assert((done + drops).push(RollStep::DayDown(l, d)) =~= done + drops + down);
            }
        } else {
            proof {
                assert(down + later + p2 =~= later + p2);
                assert(done + drops + down =~= done + drops);
            }
        }
        proof {
            assert(undo.1 =~= (done + drops + down) + later);
            done = done + drops + down;
        }
        b = b - 1;
    }
    proof {
        assert(rec.take(0) =~= Seq::<(LessonId, u8, u8)>::empty());
        assert(done + Seq::<RollStep>::empty() =~= done);
        assert(Seq::<RollStep>::empty() + p2 =~= p2);
    }
    let ghost mid = *state;
    let snap_rows = kempe_snapshot_rows(snapshots);
    replay_snapshots(&snap_rows, lessons, tbs, placements, state);
    proof {
        lemma_reach_concat(s0, mid, *state, done, p2, tbs@);
    }
}

proof fn lemma_kept_ruined_rows(ps: Seq<Placement>, tbs: Seq<TimeBlock>, lid: LessonId, day: u8)
    ensures
        kept_rows(ps, tbs, lid, day).to_multiset().add(ruined_rows(ps, tbs, lid, day).to_multiset()) == ps.to_multiset(),
    decreases ps.len(),
{
    broadcast use group_to_multiset_ensures;
    broadcast use vstd::multiset::group_multiset_axioms;

    if ps.len() > 0 {
        let rest = ps.drop_first();
        lemma_kept_ruined_rows(rest, tbs, lid, day);
        let head = seq![ps[0]];
        let none = Seq::<Placement>::empty();
        assert(ps =~= head + rest);
        lemma_multiset_commutative(head, rest);
        if crate::state::on_day(tbs, lid, day, ps[0]) {
            lemma_multiset_commutative(none, kept_rows(rest, tbs, lid, day));
            lemma_multiset_commutative(ruined_rows(rest, tbs, lid, day), head);
        } else {
            lemma_multiset_commutative(head, kept_rows(rest, tbs, lid, day));
            lemma_multiset_commutative(ruined_rows(rest, tbs, lid, day), none);
        }
        assert(kept_rows(ps, tbs, lid, day).to_multiset().add(ruined_rows(ps, tbs, lid, day).to_multiset())
            =~= ps.to_multiset());
    }
}

/// Rolling back a ruin gives the rows back: after the block of lesson `lid`
/// on `day` was ruined (leaving `kept_rows`, its snapshot holding
/// `ruined_rows`), replaying that snapshot yields the same rows as before
/// the ruin, in another order.
pub proof fn lemma_rollback_of_ruin_restores_rows(
    ps: Seq<Placement>,
    tbs: Seq<TimeBlock>,
    lid: LessonId,
    day: u8,
    ls: Seq<Lesson>,
)
    ensures
        replay_all(kept_rows(ps, tbs, lid, day), seq![(lid, ruined_rows(ps, tbs, lid, day))], ls, tbs).0.to_multiset()
            == ps.to_multiset(),
{
    let kept = kept_rows(ps, tbs, lid, day);
    let ruined = ruined_rows(ps, tbs, lid, day);
    let snaps = seq![(lid, ruined)];
    assert(snaps.drop_last() =~= Seq::<(LessonId, Seq<Placement>)>::empty());
    assert(snaps.last() == (lid, ruined));
    assert(replay_all(kept + ruined.reverse(), snaps.drop_last(), ls, tbs).0 == kept + ruined.reverse());
    assert(replay_all(kept, snaps, ls, tbs).0 == kept + ruined.reverse());
    lemma_multiset_commutative(kept, ruined.reverse());
    ruined.lemma_reverse_to_multiset();
    lemma_kept_ruined_rows(ps, tbs, lid, day);
}

/// A dropped row that a rollback adds back leaves the bookkeeping as it
/// was: taking the steps "drop the row" and "add it back" from a state
/// that books the row (for a lesson that lists each class once) leads to
/// the same bookings, positions and counters.
pub proof fn lemma_drop_then_add_restores(s0: GreedyState, s2: GreedyState, l: Lesson, r: Placement, tbs: Seq<TimeBlock>)
    requires
        s0.wf(),
        l.school_class_ids@.no_duplicates(),
        row_booked(s0, l, r, tbs),
        steps_reach(s0, s2, seq![RollStep::Drop(l, r), RollStep::Add(l, r)], tbs),
    ensures
        same_state(s2, s0),
{
    let steps = seq![RollStep::Drop(l, r), RollStep::Add(l, r)];
    let m = choose|m: GreedyState| m.wf() && #[trigger] step_rel(s0, m, steps[0], tbs) && steps_reach(m, s2, steps.drop_first(), tbs);
    let rest = steps.drop_first();
    assert(rest[0] == RollStep::Add(l, r));
    let m2 = choose|m2: GreedyState| m2.wf() && #[trigger] step_rel(m, m2, rest[0], tbs) && steps_reach(m2, s2, rest.drop_first(), tbs);
    assert(rest.drop_first().len() == 0);
    lemma_replay_undoes_remove(s0, m, s2, l, r, tbs);
}

} // verus!
