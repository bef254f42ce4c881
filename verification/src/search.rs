//! The per-iteration decisions of the late-acceptance search: which move an
//! iteration tries, and the bookkeeping after it (history list, best
//! placements found, early exit).

use vstd::prelude::*;

use crate::block::{block_move_post, block_move_ready, try_change_block_move};
use crate::index::Indexed;
use crate::kempe_move::{kempe_attempt, kempe_move_post, kempe_move_ready};
use crate::repair::{home_repair_outcome, lahc_threshold, repair_effect, repair_ready, try_home_room_repair_move};
use crate::state::GreedyState;
use crate::swap::{copy_rows, swap_move_post, swap_move_ready, try_swap_move};
use crate::types::{ConstraintWeights, LessonId, Placement, Problem, SchoolClassId, TimeBlockId};

verus! {

/// Length of the late-acceptance history list.
pub const LAHC_LIST_LEN: usize = 500;

/// The move an iteration of the search tries.
#[derive(Clone, Copy, Debug, PartialEq, Eq, Structural)]
pub enum LahcMove {
    /// Rescue an under-placed lesson, else ruin and recreate.
    RuinRecreate,
    /// A Kempe-chain swap between two days.
    Kempe,
    /// The home-room repair move.
    HomeRoom,
    /// The Change move of a block.
    Change,
    /// The Swap move of two rows.
    Swap,
}

/// A period fires on iteration `iter` when it is set, positive and divides
/// the iteration counter taken as a `u32`.
pub open spec fn period_fires(period: Option<u32>, iter: u64) -> bool {
    match period {
        Some(n) => n > 0 && (iter as u32) % n == 0,
        None => false,
    }
}

/// Which move iteration `iter` tries: ruin-and-recreate when its period
/// fires, else Kempe when its period fires, else home-room repair when its
/// period fires, else Change for selectors `0..5` and Swap for selector `5`.
pub open spec fn lahc_pick_move_spec(
    iter: u64,
    rr_period: Option<u32>,
    kempe_period: Option<u32>,
    home_room_period: Option<u32>,
    move_selector: u32,
) -> LahcMove {
    if period_fires(rr_period, iter) {
        LahcMove::RuinRecreate
    } else if period_fires(kempe_period, iter) {
        LahcMove::Kempe
    } else if period_fires(home_room_period, iter) {
        LahcMove::HomeRoom
    } else if move_selector < 5 {
        LahcMove::Change
    } else {
        LahcMove::Swap
    }
}

fn fires(period: Option<u32>, iter: u64) -> (b: bool)
    ensures
        b == period_fires(period, iter),
{
    match period {
        Some(n) => n > 0 && (iter as u32) % n == 0,
        None => false,
    }
}

/// The move iteration `iter` tries, see `lahc_pick_move_spec`;
/// `move_selector` is the draw from `0..6` that routes between Change and
/// Swap.
pub fn lahc_pick_move(
    iter: u64,
    rr_period: Option<u32>,
    kempe_period: Option<u32>,
    home_room_period: Option<u32>,
    move_selector: u32,
) -> (m: LahcMove)
    requires
        move_selector < 6,
    ensures
        m == lahc_pick_move_spec(iter, rr_period, kempe_period, home_room_period, move_selector),
{
    if fires(rr_period, iter) {
        LahcMove::RuinRecreate
    } else if fires(kempe_period, iter) {
        LahcMove::Kempe
    } else if fires(home_room_period, iter) {
        LahcMove::HomeRoom
    } else if move_selector < 5 {
        LahcMove::Change
    } else {
        LahcMove::Swap
    }
}

/// The current placements beat the best found so far: more placements, or
/// as many with a lower canonical score.
pub open spec fn beats_best(count: nat, canonical: u32, best_count: nat, best_score: u32) -> bool {
    count > best_count || (count == best_count && canonical < best_score)
}

/// The bookkeeping at the end of iteration `iter` (counted from one, after
/// the move): the history entry `(iter - 1) % 500` takes the canonical
/// score; when the current placements beat the best found so far (more
/// placements, or as many with a lower score), they become the best, with
/// their score and count; the search stops early when every expected hour
/// is placed at score zero.
pub fn lahc_iteration_tail(
    iter: u64,
    lahc_list: &mut Vec<u32>,
    best: &mut Vec<Placement>,
    best_score: &mut u32,
    best_count: &mut usize,
    placements: &Vec<Placement>,
    canonical: u32,
    expected: usize,
) -> (stop: bool)
    requires
        old(lahc_list)@.len() == LAHC_LIST_LEN,
        iter >= 1,
    ensures
        final(lahc_list)@ == old(lahc_list)@.update(((iter - 1) % 500) as int, canonical),
        beats_best(placements@.len(), canonical, *old(best_count) as nat, *old(best_score)) ==> {
            &&& final(best)@ == placements@
            &&& *final(best_score) == canonical
            &&& *final(best_count) == placements@.len()
        },
        !beats_best(placements@.len(), canonical, *old(best_count) as nat, *old(best_score)) ==> {
            &&& final(best)@ == old(best)@
            &&& *final(best_score) == *old(best_score)
            &&& *final(best_count) == *old(best_count)
        },
        stop == (canonical == 0 && placements@.len() == expected),
{
    let slot = ((iter - 1) % 500) as usize;
    lahc_list.set(slot, canonical);
    let count = placements.len();
    if count > *best_count || (count == *best_count && canonical < *best_score) {
        *best_score = canonical;
        *best_count = count;
        *best = copy_rows(placements);
    }
    canonical == 0 && count == expected
}

/// Whether the search runs at all: only under a deadline and with at
/// least one placement to improve.
pub fn lahc_should_run(has_deadline: bool, n: usize) -> (b: bool)
    ensures
        b == (has_deadline && n > 0),
{
    has_deadline && n > 0
}

/// The fixed inputs of the search: the weights, the move periods, the
/// Kempe chain bound, the lookup tables the moves read and the number of
/// hours a complete placement has.
pub struct LahcConfig {
    pub weights: ConstraintWeights,
    pub rr_period: Option<u32>,
    pub kempe_period: Option<u32>,
    pub home_room_period: Option<u32>,
    pub kempe_max_chain: usize,
    pub max_position_per_day: Vec<(u8, u8)>,
    pub tb_by_day_pos: Vec<((u8, u8), TimeBlockId)>,
    pub room_order: Vec<usize>,
    pub pinned: Vec<LessonId>,
    pub class_max_lessons_per_day: Vec<(SchoolClassId, u8)>,
    pub expected: usize,
}

/// The running state of the search: the iteration counter, the
/// late-acceptance history and the best placements found with their score
/// and count.
pub struct LahcSearch {
    pub iter: u64,
    pub lahc_list: Vec<u32>,
    pub best: Vec<Placement>,
    pub best_score: u32,
    pub best_count: usize,
}

/// The outside values one iteration uses: the Kempe draws (anchor and day)
/// and its travel verdicts, the home-room row draw, the Change/Swap draws
/// (row, move selector, partner or block) and the travel verdict of that
/// move.
pub struct LahcDraws {
    pub kempe_anchor: usize,
    pub kempe_day: u8,
    pub kempe_travel: Vec<(LessonId, bool)>,
    pub home_room_row: usize,
    pub change_row: usize,
    pub move_selector: u32,
    pub partner_or_tb: usize,
    pub travel_clear: bool,
}

/// What the loop does after an iteration: record `record` (iteration,
/// best placement count, best score, whether the best is complete) on the
/// progress beacon and stop when `stop` says so; `accepted` is the move's
/// answer.
pub struct LahcAction {
    pub accepted: bool,
    pub record: (u64, u64, u64, bool),
    pub stop: bool,
}

/// The search starting from the current placements: the history filled
/// with the current canonical score, the best being the current placements.
pub fn lahc_start(placements: &Vec<Placement>, canonical: u32) -> (search: LahcSearch)
    ensures
        search.iter == 0,
        search.lahc_list@ == Seq::new(500, |i: int| canonical),
        search.best@ == placements@,
        search.best_score == canonical,
        search.best_count == placements@.len(),
{
    let mut lahc_list: Vec<u32> = Vec::new();
    let mut k: usize = 0;
    while k < 500
        invariant
            k <= 500,
            lahc_list@ == Seq::new(k as nat, |i: int| canonical),
        decreases 500 - k,
    {
        lahc_list.push(canonical);
        proof {
            assert(lahc_list@ =~= Seq::new((k + 1) as nat, |i: int| canonical));
        }
        k = k + 1;
    }
    LahcSearch { iter: 0, lahc_list, best: copy_rows(placements), best_score: canonical, best_count: placements.len() }
}

/// What one iteration needs: its history list, a counter that can still
/// grow, a selector draw below 6, and the precondition of the move
/// `lahc_pick_move_spec` picks.
pub open spec fn lahc_step_ready(
    search: LahcSearch,
    problem: Problem,
    idx: Indexed,
    config: LahcConfig,
    ps: Seq<Placement>,
    s: GreedyState,
    draws: LahcDraws,
) -> bool {
    &&& search.lahc_list@.len() == 500
    &&& search.iter < u64::MAX
    &&& draws.move_selector < 6
    &&& match lahc_pick_move_spec(search.iter, config.rr_period, config.kempe_period, config.home_room_period, draws.move_selector) {
        LahcMove::RuinRecreate => true,
        LahcMove::Kempe => kempe_move_ready(
            problem,
            idx,
            config.weights,
            draws.kempe_anchor,
            draws.kempe_day,
            draws.kempe_travel@,
            config.tb_by_day_pos@,
            config.pinned@,
            config.room_order@,
            config.class_max_lessons_per_day@,
            search.lahc_list@,
            search.iter,
            config.kempe_max_chain,
            ps,
            s,
        ),
        LahcMove::HomeRoom => repair_ready(problem, ps, draws.home_room_row as int, config.weights),
        LahcMove::Change => problem.time_blocks@.len() > 0 && block_move_ready(
            problem,
            idx,
            draws.change_row,
            (draws.partner_or_tb as int % problem.time_blocks@.len() as int) as usize,
            draws.travel_clear,
            config.max_position_per_day@,
            config.weights,
            config.pinned@,
            config.class_max_lessons_per_day@,
            search.lahc_list@,
            search.iter,
            config.tb_by_day_pos@,
            config.room_order@,
            ps,
            s,
        ),
        LahcMove::Swap => ps.len() > 0 && swap_move_ready(
            problem,
            idx,
            draws.change_row,
            (draws.partner_or_tb as int % ps.len() as int) as usize,
            draws.travel_clear,
            config.weights,
            config.pinned@,
            config.class_max_lessons_per_day@,
            search.lahc_list@,
            search.iter,
            ps,
            s,
        ),
    }
}

/// What the move of one iteration does, from `(ps0, s0)` to `(ps1, s1)`
/// answering `accepted`: the postcondition of the move
/// `lahc_pick_move_spec` picks; a ruin-and-recreate iteration changes
/// nothing here.
pub open spec fn lahc_move_post(
    search: LahcSearch,
    problem: Problem,
    idx: Indexed,
    config: LahcConfig,
    draws: LahcDraws,
    ps0: Seq<Placement>,
    s0: GreedyState,
    ps1: Seq<Placement>,
    s1: GreedyState,
    accepted: bool,
) -> bool {
    match lahc_pick_move_spec(search.iter, config.rr_period, config.kempe_period, config.home_room_period, draws.move_selector) {
        LahcMove::RuinRecreate => !accepted && ps1 == ps0 && s1 == s0,
        LahcMove::Kempe => kempe_move_post(
            problem,
            idx,
            config.weights,
            draws.kempe_anchor,
            draws.kempe_day,
            draws.kempe_travel@,
            config.tb_by_day_pos@,
            config.pinned@,
            config.room_order@,
            config.class_max_lessons_per_day@,
            search.lahc_list@,
            search.iter,
            config.kempe_max_chain,
            ps0,
            s0,
            ps1,
            s1,
            accepted,
        ),
        LahcMove::HomeRoom => {
            let outcome = home_repair_outcome(
                problem,
                idx,
                draws.home_room_row as int,
                config.weights,
                ps0,
                s0.used_room@,
                s0.canonical_score,
                config.pinned@,
                lahc_threshold(search.lahc_list@, search.iter),
            );
            &&& accepted == !(outcome is Rejected)
            &&& repair_effect(outcome, draws.home_room_row as int, ps0, ps1, s0, s1)
        },
        LahcMove::Change => block_move_post(
            problem,
            idx,
            draws.change_row,
            (draws.partner_or_tb as int % problem.time_blocks@.len() as int) as usize,
            draws.travel_clear,
            config.max_position_per_day@,
            config.weights,
            config.pinned@,
            config.class_max_lessons_per_day@,
            search.lahc_list@,
            search.iter,
            config.tb_by_day_pos@,
            config.room_order@,
            ps0,
            s0,
            ps1,
            s1,
            accepted,
        ),
        LahcMove::Swap => swap_move_post(
            problem,
            idx,
            draws.change_row,
            (draws.partner_or_tb as int % ps0.len() as int) as usize,
            draws.travel_clear,
            config.weights,
            config.pinned@,
            config.class_max_lessons_per_day@,
            search.lahc_list@,
            search.iter,
            ps0,
            s0,
            ps1,
            s1,
            accepted,
        ),
    }
}

/// One iteration of the late-acceptance search: the move
/// `lahc_pick_move_spec` picks is tried (a ruin-and-recreate iteration
/// makes no move here: its recreate step is not part of this library),
/// the counter advances, `lahc_iteration_tail` does the bookkeeping, and
/// the action records the counter, the best count and score and whether
/// the best is complete, and stops on a cancel request or when every
/// expected hour is placed at score zero.
pub fn lahc_step(
    search: &mut LahcSearch,
    problem: &Problem,
    idx: &Indexed,
    config: &LahcConfig,
    placements: &mut Vec<Placement>,
    state: &mut GreedyState,
    draws: &LahcDraws,
    cancel_requested: bool,
) -> (next: LahcAction)
    requires
        lahc_step_ready(*old(search), *problem, *idx, *config, old(placements)@, *old(state), *draws),
    ensures
        lahc_move_post(
            *old(search),
            *problem,
            *idx,
            *config,
            *draws,
            old(placements)@,
            *old(state),
            final(placements)@,
            *final(state),
            next.accepted,
        ),
        final(search).iter == old(search).iter + 1,
        final(search).lahc_list@ == old(search).lahc_list@.update((old(search).iter % 500) as int, final(state).canonical_score),
        beats_best(final(placements)@.len(), final(state).canonical_score, old(search).best_count as nat, old(search).best_score) ==> {
            &&& final(search).best@ == final(placements)@
            &&& final(search).best_score == final(state).canonical_score
            &&& final(search).best_count == final(placements)@.len()
        },
        !beats_best(final(placements)@.len(), final(state).canonical_score, old(search).best_count as nat, old(search).best_score) ==> {
            &&& final(search).best@ == old(search).best@
            &&& final(search).best_score == old(search).best_score
            &&& final(search).best_count == old(search).best_count
        },
        next.record == (
            final(search).iter,
            final(search).best_count as u64,
            final(search).best_score as u64,
            final(search).best_count >= config.expected,
        ),
        next.stop == (cancel_requested || (final(state).canonical_score == 0 && final(placements)@.len() == config.expected)),
{
    let mv = lahc_pick_move(search.iter, config.rr_period, config.kempe_period, config.home_room_period, draws.move_selector);
    let accepted = match mv {
        LahcMove::RuinRecreate => false,
        LahcMove::Kempe => kempe_attempt(
            problem,
            idx,
            &config.weights,
            draws.kempe_anchor,
            draws.kempe_day,
            &draws.kempe_travel,
            &config.tb_by_day_pos,
            &config.pinned,
            placements,
            state,
            &config.room_order,
            &config.class_max_lessons_per_day,
            search.lahc_list.as_slice(),
            search.iter,
            config.kempe_max_chain,
        ),
        LahcMove::HomeRoom => try_home_room_repair_move(
            problem,
            idx,
            draws.home_room_row,
            &config.weights,
            placements,
            state,
            &config.pinned,
            search.lahc_list.as_slice(),
            search.iter,
        ),
        LahcMove::Change => {
            let new_tb_idx = draws.partner_or_tb % problem.time_blocks.len();
            try_change_block_move(
                problem,
                idx,
                draws.change_row,
                new_tb_idx,
                draws.travel_clear,
                &config.max_position_per_day,
                &config.weights,
                placements,
                state,
                &config.pinned,
                &config.class_max_lessons_per_day,
                search.lahc_list.as_slice(),
                search.iter,
                &config.tb_by_day_pos,
                &config.room_order,
            )
        },
        LahcMove::Swap => {
            let partner = draws.partner_or_tb % placements.len();
            try_swap_move(
                problem,
                idx,
                draws.change_row,
                partner,
                draws.travel_clear,
                &config.weights,
                placements,
                state,
                &config.pinned,
                &config.class_max_lessons_per_day,
                search.lahc_list.as_slice(),
                search.iter,
            )
        },
    };
    search.iter = search.iter + 1;
    let early = lahc_iteration_tail(
        search.iter,
        &mut search.lahc_list,
        &mut search.best,
        &mut search.best_score,
        &mut search.best_count,
        placements,
        state.canonical_score,
        config.expected,
    );
    let record = (search.iter, search.best_count as u64, search.best_score as u64, search.best_count >= config.expected);
    LahcAction { accepted, record, stop: cancel_requested || early }
}

/// The placements the search returns: the best it found.
pub fn lahc_finish(search: &LahcSearch, placements: &mut Vec<Placement>)
    ensures
        final(placements)@ == search.best@,
{
    *placements = copy_rows(&search.best);
}

} // verus!
