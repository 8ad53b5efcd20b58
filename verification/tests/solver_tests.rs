//! End-to-end tests of the cutting-stock solver. All lengths are in
//! micro-units: one length unit is 1_000_000.

use cut_buddy_exact::clock::ManualClock;
use cut_buddy_exact::heuristic::evaluate_heuristic;
use cut_buddy_exact::model::{Bin, Cmp, PackedSolution, compare_solution, summarize_bins};
use cut_buddy_exact::normalize::{normalize_stock_lengths, sort_cuts_descending};
use cut_buddy_exact::output::set_output_bytes;
use cut_buddy_exact::search::{exact_solve, SolveInput};
use cut_buddy_exact::SolveError;
use cut_buddy_exact::clock::{Clock, SystemClock};

const U: u64 = 1_000_000;
const KERF_EIGHTH: u64 = 125_000;

fn scenario_a_input(budget: u64) -> SolveInput {
    SolveInput {
        cuts: vec![52 * U, 48 * U, 48 * U, 45 * U, 36 * U, 24 * U, 24 * U],
        stock_lengths: vec![96 * U, 120 * U],
        kerf: KERF_EIGHTH,
        time_budget_ms: budget,
    }
}

fn scenario_b_input() -> SolveInput {
    SolveInput {
        cuts: vec![
            84 * U,
            84 * U,
            84 * U,
            84 * U,
            72 * U,
            72 * U,
            72 * U,
            72 * U,
            66 * U,
            66 * U,
        ],
        stock_lengths: vec![96 * U, 120 * U, 144 * U],
        kerf: KERF_EIGHTH,
        time_budget_ms: 0,
    }
}

#[test]
fn fixture_proven_optimal_and_not_worse_than_heuristic() {
    let input = scenario_a_input(3000);
    let heuristic = evaluate_heuristic(&input.cuts, &input.stock_lengths, input.kerf).unwrap();
    let mut clock = ManualClock::new(vec![0]);
    let exact = exact_solve(&input, &mut clock).unwrap();

    assert_eq!(exact.termination.as_text(), "completed");
    assert_eq!(exact.optimality.as_text(), "proven_optimal");
    assert!(exact.explored_nodes > 0);

    let heuristic_objective = heuristic.total_stock_length + input.kerf * heuristic.bin_count as u64;
    let exact_objective = exact.total_stock_length + input.kerf * exact.bin_count as u64;
    assert!(exact_objective <= heuristic_objective);
}

#[test]
fn fixture_zero_budget_forces_timed_out_status() {
    let input = scenario_b_input();
    let mut clock = ManualClock::new(vec![0]);
    let exact = exact_solve(&input, &mut clock).unwrap();
    assert_eq!(exact.termination.as_text(), "timed_out");
    assert_eq!(exact.optimality.as_text(), "not_proven");
}

#[test]
fn empty_input_gives_empty_certified_result() {
    let input = SolveInput {
        cuts: vec![],
        stock_lengths: vec![96 * U],
        kerf: KERF_EIGHTH,
        time_budget_ms: 1000,
    };
    let mut clock = ManualClock::new(vec![0]);
    let out = exact_solve(&input, &mut clock).unwrap();
    assert_eq!(out.bin_count, 0);
    assert!(out.bins.is_empty());
    assert_eq!(out.total_used, 0);
    assert_eq!(out.total_waste, 0);
    assert_eq!(out.total_stock_length, 0);
    assert_eq!(out.total_kerf_loss, 0);
    assert_eq!(out.utilization, 0);
    assert_eq!(out.explored_nodes, 0);
    assert_eq!(out.termination.as_text(), "completed");
    assert_eq!(out.optimality.as_text(), "proven_optimal");
}

#[test]
fn zero_budget_returns_the_heuristic_bins() {
    let input = scenario_b_input();
    let sorted = sort_cuts_descending(&input.cuts);
    let stock = normalize_stock_lengths(&input.stock_lengths);
    let heuristic = evaluate_heuristic(&sorted, &stock, input.kerf).unwrap();
    let mut clock = ManualClock::new(vec![0]);
    let out = exact_solve(&input, &mut clock).unwrap();
    assert_eq!(out.explored_nodes, 0);
    assert_eq!(out.bin_count, heuristic.bin_count);
    assert_eq!(out.total_used, heuristic.total_used);
    assert_eq!(out.total_waste, heuristic.total_waste);
    assert_eq!(out.total_stock_length, heuristic.total_stock_length);
    assert_eq!(out.total_kerf_loss, heuristic.total_kerf_loss);
    assert_eq!(out.utilization, heuristic.utilization);
    assert_eq!(out.bins.len(), heuristic.bins.len());
    for (a, b) in out.bins.iter().zip(heuristic.bins.iter()) {
        assert_eq!(a.stock_length, b.stock_length);
        assert_eq!(a.cuts, b.cuts);
        assert_eq!(a.used, b.used);
        assert_eq!(a.remaining, b.remaining);
    }
}

#[test]
fn infeasible_cut_yields_failure_and_no_partial_result() {
    let input = SolveInput {
        cuts: vec![200 * U, 48 * U],
        stock_lengths: vec![96 * U, 120 * U],
        kerf: KERF_EIGHTH,
        time_budget_ms: 1000,
    };
    let mut clock = ManualClock::new(vec![0]);
    let result = exact_solve(&input, &mut clock);
    assert_eq!(result.unwrap_err(), SolveError::CutExceedsStock(200 * U));
}

#[test]
fn no_usable_stock_yields_validation_error() {
    let input = SolveInput {
        cuts: vec![48 * U],
        stock_lengths: vec![0, 0],
        kerf: 0,
        time_budget_ms: 1000,
    };
    let mut clock = ManualClock::new(vec![0]);
    let result = exact_solve(&input, &mut clock);
    assert_eq!(result.unwrap_err(), SolveError::NoUsableStock);
}

#[test]
fn heuristic_reports_the_unplaceable_cut() {
    let cuts: Vec<u64> = vec![48 * U, 200 * U];
    let stock: Vec<u64> = vec![96 * U];
    let result = evaluate_heuristic(&cuts, &stock, KERF_EIGHTH);
    assert_eq!(result.unwrap_err(), SolveError::CutExceedsStock(200 * U));
}

#[test]
fn every_returned_bin_is_feasible() {
    let input = scenario_a_input(3000);
    let mut clock = ManualClock::new(vec![0]);
    let out = exact_solve(&input, &mut clock).unwrap();
    assert!(out.bin_count > 0);
    let mut placed: u64 = 0;
    for bin in &out.bins {
        let mut used: u64 = 0;
        for c in &bin.cuts {
            used += c;
        }
        if bin.cuts.len() > 1 {
            used += (bin.cuts.len() as u64 - 1) * input.kerf;
        }
        assert_eq!(bin.used, used);
        assert_eq!(bin.remaining, bin.stock_length - bin.used);
        placed += bin.cuts.len() as u64;
    }
    assert_eq!(placed, input.cuts.len() as u64);
}

#[test]
fn repeated_solves_agree() {
    let input = scenario_a_input(3000);
    let mut clock1 = ManualClock::new(vec![0]);
    let first = exact_solve(&input, &mut clock1).unwrap();
    let mut clock2 = ManualClock::new(vec![0]);
    let second = exact_solve(&input, &mut clock2).unwrap();
    assert_eq!(first.total_stock_length, second.total_stock_length);
    assert_eq!(first.bin_count, second.bin_count);
    assert_eq!(first.total_waste, second.total_waste);
    assert_eq!(first.bins.len(), second.bins.len());
    for (a, b) in first.bins.iter().zip(second.bins.iter()) {
        assert_eq!(a.stock_length, b.stock_length);
        assert_eq!(a.cuts, b.cuts);
    }
}

#[test]
fn deadline_in_the_past_times_out_with_the_incumbent() {
    let input = scenario_a_input(100);
    let heuristic = evaluate_heuristic(&input.cuts, &input.stock_lengths, input.kerf).unwrap();
    // the clock jumps past the deadline before the first node finishes
    let mut clock = ManualClock::new(vec![0, 5000]);
    let out = exact_solve(&input, &mut clock).unwrap();
    assert_eq!(out.termination.as_text(), "timed_out");
    assert_eq!(out.optimality.as_text(), "not_proven");
    let heuristic_objective = heuristic.total_stock_length + input.kerf * heuristic.bin_count as u64;
    let objective = out.total_stock_length + input.kerf * out.bin_count as u64;
    assert!(objective <= heuristic_objective);
}

#[test]
fn summarizer_reports_exact_totals() {
    let bin = Bin {
        stock_length: 96 * U,
        cuts: vec![40 * U, 40 * U],
        used: 80 * U + KERF_EIGHTH,
        remaining: 16 * U - KERF_EIGHTH,
    };
    let summary = summarize_bins(vec![bin], KERF_EIGHTH);
    assert_eq!(summary.bin_count, 1);
    assert_eq!(summary.total_used, 80_125_000);
    assert_eq!(summary.total_waste, 15_875_000);
    assert_eq!(summary.total_stock_length, 96 * U);
    assert_eq!(summary.total_kerf_loss, 125_000);
    // 80.125 / 96 = 0.834635416..., reported in parts per million
    assert_eq!(summary.utilization, 834_635);
}

#[test]
fn comparator_orders_by_objective_then_waste_then_count() {
    let small = PackedSolution {
        bins: vec![],
        bin_count: 1,
        total_used: 90 * U,
        total_waste: 6 * U,
        total_stock_length: 96 * U,
        total_kerf_loss: 0,
        utilization: 937_500,
    };
    let large = PackedSolution {
        bins: vec![],
        bin_count: 1,
        total_used: 90 * U,
        total_waste: 30 * U,
        total_stock_length: 120 * U,
        total_kerf_loss: 0,
        utilization: 750_000,
    };
    assert_eq!(compare_solution(&small, &large, KERF_EIGHTH), Cmp::Less);
    assert_eq!(compare_solution(&large, &small, KERF_EIGHTH), Cmp::Greater);
    assert_eq!(compare_solution(&small, &small, KERF_EIGHTH), Cmp::Equal);

    let wasteful = PackedSolution {
        bins: vec![],
        bin_count: 1,
        total_used: 86 * U,
        total_waste: 10 * U,
        total_stock_length: 96 * U,
        total_kerf_loss: 0,
        utilization: 895_833,
    };
    assert_eq!(compare_solution(&small, &wasteful, KERF_EIGHTH), Cmp::Less);
}

#[test]
fn stock_lengths_are_filtered_sorted_and_deduplicated() {
    let stock: Vec<u64> = vec![120 * U, 96 * U, 96 * U, 0, 144 * U];
    let normalized = normalize_stock_lengths(&stock);
    assert_eq!(normalized, vec![96 * U, 120 * U, 144 * U]);
}

#[test]
fn cuts_sort_descending() {
    let cuts: Vec<u64> = vec![24 * U, 52 * U, 48 * U, 48 * U];
    let sorted = sort_cuts_descending(&cuts);
    assert_eq!(sorted, vec![52 * U, 48 * U, 48 * U, 24 * U]);
}

#[test]
fn output_buffer_holds_the_latest_bytes() {
    let mut buffer: Vec<u8> = Vec::new();
    set_output_bytes(&mut buffer, b"first".to_vec());
    assert_eq!(buffer, b"first".to_vec());
    set_output_bytes(&mut buffer, b"second".to_vec());
    assert_eq!(buffer, b"second".to_vec());
}

#[test]
fn manual_clock_replays_its_instants() {
    let mut clock = ManualClock::new(vec![5, 9]);
    assert_eq!(clock.now_ms(), 5);
    assert_eq!(clock.now_ms(), 9);
    assert_eq!(clock.now_ms(), 9);
    let mut empty = ManualClock::new(vec![]);
    assert_eq!(empty.now_ms(), 0);
}

#[test]
fn system_clock_drives_a_real_timed_solve() {
    let input = scenario_a_input(30_000);
    let mut clock = SystemClock;
    let out = exact_solve(&input, &mut clock).unwrap();
    assert_eq!(out.termination.as_text(), "completed");
    assert_eq!(out.optimality.as_text(), "proven_optimal");
    assert!(out.explored_nodes > 0);
}
