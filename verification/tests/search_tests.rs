use solver_core::search::{
    lahc_finish, lahc_iteration_tail, lahc_pick_move, lahc_start, lahc_step, LahcMove, LAHC_LIST_LEN,
};
use solver_core::types::{LessonId, Placement, RoomId, TeacherId, TimeBlockId};

fn row(n: u128) -> Placement {
    Placement { lesson_id: LessonId(n), time_block_id: TimeBlockId(n + 10), room_id: RoomId(1), teacher_id: TeacherId(2) }
}

#[test]
fn pick_move_follows_the_period_ladder() {
    assert_eq!(lahc_pick_move(0, Some(10), Some(5), Some(2), 0), LahcMove::RuinRecreate);
    assert_eq!(lahc_pick_move(5, Some(10), Some(5), Some(2), 0), LahcMove::Kempe);
    assert_eq!(lahc_pick_move(4, Some(10), Some(5), Some(2), 0), LahcMove::HomeRoom);
    assert_eq!(lahc_pick_move(3, Some(10), Some(5), Some(2), 4), LahcMove::Change);
    assert_eq!(lahc_pick_move(3, Some(10), Some(5), Some(2), 5), LahcMove::Swap);
}

#[test]
fn pick_move_ignores_unset_and_zero_periods() {
    assert_eq!(lahc_pick_move(0, None, Some(0), None, 2), LahcMove::Change);
    assert_eq!(lahc_pick_move(0, None, None, None, 5), LahcMove::Swap);
}

#[test]
fn pick_move_reads_the_counter_as_u32() {
    let iter: u64 = (1u64 << 32) + 3;
    assert_eq!(lahc_pick_move(iter, Some(3), None, None, 0), LahcMove::RuinRecreate);
}

#[test]
fn iteration_tail_records_history_and_keeps_more_placements() {
    let mut list = vec![7u32; LAHC_LIST_LEN];
    let mut best = vec![row(1)];
    let mut best_score = 3u32;
    let mut best_count = 1usize;
    let placements = vec![row(1), row(2)];
    let stop = lahc_iteration_tail(501, &mut list, &mut best, &mut best_score, &mut best_count, &placements, 9, 3);
    assert!(!stop);
    assert_eq!(list[0], 9);
    assert_eq!(list[1], 7);
    assert_eq!(best, placements);
    assert_eq!(best_score, 9);
    assert_eq!(best_count, 2);
}

#[test]
fn iteration_tail_keeps_best_on_a_worse_tie_and_stops_at_zero() {
    let mut list = vec![7u32; LAHC_LIST_LEN];
    let mut best = vec![row(1)];
    let mut best_score = 0u32;
    let mut best_count = 1usize;
    let placements = vec![row(3)];
    let stop = lahc_iteration_tail(2, &mut list, &mut best, &mut best_score, &mut best_count, &placements, 0, 1);
    assert!(stop);
    assert_eq!(list[1], 0);
    assert_eq!(best, vec![row(1)]);
    assert_eq!(best_score, 0);

    let mut best_score2 = 5u32;
    let worse = lahc_iteration_tail(3, &mut list, &mut best, &mut best_score2, &mut best_count, &placements, 6, 1);
    assert!(!worse);
    assert_eq!(best, vec![row(1)]);
    assert_eq!(best_score2, 5);
}

#[test]
fn search_runs_only_with_a_deadline_and_placements() {
    assert!(solver_core::search::lahc_should_run(true, 3));
    assert!(!solver_core::search::lahc_should_run(false, 3));
    assert!(!solver_core::search::lahc_should_run(true, 0));
}

fn empty_problem() -> solver_core::types::Problem {
    solver_core::types::Problem {
        time_blocks: vec![],
        teachers: vec![],
        rooms: vec![],
        subjects: vec![],
        school_classes: vec![],
        lessons: vec![],
        teacher_qualifications: vec![],
        teacher_blocked_times: vec![],
        room_blocked_times: vec![],
        room_subject_suitabilities: vec![],
        pinned_placements: vec![],
    }
}

fn config(expected: usize) -> solver_core::search::LahcConfig {
    solver_core::search::LahcConfig {
        weights: solver_core::types::ConstraintWeights::default(),
        rr_period: Some(1),
        kempe_period: None,
        home_room_period: None,
        kempe_max_chain: 8,
        max_position_per_day: vec![],
        tb_by_day_pos: vec![],
        room_order: vec![],
        pinned: vec![],
        class_max_lessons_per_day: vec![],
        expected,
    }
}

fn draws() -> solver_core::search::LahcDraws {
    solver_core::search::LahcDraws {
        kempe_anchor: 0,
        kempe_day: 0,
        kempe_travel: vec![],
        home_room_row: 0,
        change_row: 0,
        move_selector: 0,
        partner_or_tb: 0,
        travel_clear: true,
    }
}

#[test]
fn step_records_progress_and_stops_on_cancel() {
    let problem = empty_problem();
    let idx = solver_core::index::Indexed::new(&problem);
    let mut placements = vec![row(1)];
    let mut state = solver_core::state::GreedyState::new();
    state.canonical_score = 4;
    let mut search = lahc_start(&placements, 4);
    let first = lahc_step(&mut search, &problem, &idx, &config(2), &mut placements, &mut state, &draws(), false);
    assert!(!first.accepted);
    assert!(!first.stop);
    assert_eq!(first.record, (1, 1, 4, false));
    assert_eq!(search.lahc_list[0], 4);
    let second = lahc_step(&mut search, &problem, &idx, &config(2), &mut placements, &mut state, &draws(), true);
    assert!(second.stop);
    assert_eq!(second.record.0, 2);
    let mut out = vec![];
    lahc_finish(&search, &mut out);
    assert_eq!(out, vec![row(1)]);
}

#[test]
fn step_stops_early_when_complete_at_score_zero() {
    let problem = empty_problem();
    let idx = solver_core::index::Indexed::new(&problem);
    let mut placements = vec![row(1)];
    let mut state = solver_core::state::GreedyState::new();
    let mut search = lahc_start(&placements, 0);
    let action = lahc_step(&mut search, &problem, &idx, &config(1), &mut placements, &mut state, &draws(), false);
    assert!(action.stop);
    assert_eq!(action.record, (1, 1, 0, true));
}
