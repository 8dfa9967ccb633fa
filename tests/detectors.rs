use aml_graph::{
    analyze_stub, detect_cycles, detect_fan_in, detect_fan_out, detect_shell_chains, SENTINEL,
};

const BIG: u32 = 1000;

fn times(ts: &[i64]) -> Vec<Option<i64>> {
    ts.iter().map(|t| Some(*t)).collect()
}

#[test]
fn stub_hands_back_count() {
    assert_eq!(analyze_stub(0), 0);
    assert_eq!(analyze_stub(17), 17);
}

#[test]
fn fan_in_three_senders_in_window() {
    let r = detect_fan_in(4, &[0, 1, 2], &[3, 3, 3], &times(&[0, 5, 10]), &[1, 1, 1], 0, 10, 3);
    assert_eq!(r, vec![3, 0, 3, 1, 3, 2]);
}

#[test]
fn fan_in_window_one_short() {
    let r = detect_fan_in(4, &[0, 1, 2], &[3, 3, 3], &times(&[0, 5, 10]), &[1, 1, 1], 0, 9, 3);
    assert_eq!(r, Vec::<u32>::new());
}

#[test]
fn fan_in_reports_senders_in_time_order() {
    let r = detect_fan_in(4, &[2, 0, 1], &[3, 3, 3], &times(&[10, 0, 5]), &[1, 1, 1], 0, 10, 3);
    assert_eq!(r, vec![3, 0, 3, 1, 3, 2]);
}

#[test]
fn fan_in_repeated_sender_counts_once() {
    let r = detect_fan_in(4, &[0, 0, 1], &[3, 3, 3], &times(&[0, 1, 2]), &[1, 1, 1], 0, 10, 2);
    assert_eq!(r, vec![3, 0, 3, 1]);
    let r = detect_fan_in(4, &[0, 0, 0], &[3, 3, 3], &times(&[0, 1, 2]), &[1, 1, 1], 0, 10, 2);
    assert_eq!(r, Vec::<u32>::new());
}

#[test]
fn fan_in_first_window_only() {
    // Senders 0,1 close together, then 2,3 much later: the first window that
    // reaches two distinct senders is reported.
    let r = detect_fan_in(
        5,
        &[0, 1, 2, 3],
        &[4, 4, 4, 4],
        &times(&[0, 1, 100, 101]),
        &[1, 1, 1, 1],
        0,
        5,
        2,
    );
    assert_eq!(r, vec![4, 0, 4, 1]);
}

#[test]
fn fan_in_window_slides() {
    // 0 at t=0, 1 at t=20, 2 at t=25: with window 10 only {1,2} fit.
    let r = detect_fan_in(4, &[0, 1, 2], &[3, 3, 3], &times(&[0, 20, 25]), &[1, 1, 1], 0, 10, 2);
    assert_eq!(r, vec![3, 1, 3, 2]);
}

#[test]
fn fan_out_three_receivers_in_window() {
    let r = detect_fan_out(4, &[3, 3, 3], &[0, 1, 2], &times(&[0, 5, 10]), &[1, 1, 1], 0, 10, 3);
    assert_eq!(r, vec![3, 0, 3, 1, 3, 2]);
    let r = detect_fan_out(4, &[3, 3, 3], &[0, 1, 2], &times(&[0, 5, 10]), &[1, 1, 1], 0, 9, 3);
    assert_eq!(r, Vec::<u32>::new());
}

#[test]
fn fan_threshold_excludes_large_edge() {
    let r = detect_fan_in(4, &[0, 1, 2], &[3, 3, 3], &times(&[0, 5, 10]), &[50, 50, 500], 100, 10, 3);
    assert_eq!(r, Vec::<u32>::new());
    let r = detect_fan_in(4, &[0, 1, 2], &[3, 3, 3], &times(&[0, 5, 10]), &[50, 50, 100], 100, 10, 3);
    assert_eq!(r, vec![3, 0, 3, 1, 3, 2]);
    // a non-positive threshold filters nothing
    let r = detect_fan_in(4, &[0, 1, 2], &[3, 3, 3], &times(&[0, 5, 10]), &[50, 50, 500], 0, 10, 3);
    assert_eq!(r, vec![3, 0, 3, 1, 3, 2]);
}

#[test]
fn fan_unknown_time_is_excluded() {
    let ts = vec![Some(0), None, Some(10)];
    let r = detect_fan_in(4, &[0, 1, 2], &[3, 3, 3], &ts, &[1, 1, 1], 0, 10, 3);
    assert_eq!(r, Vec::<u32>::new());
    let r = detect_fan_in(4, &[0, 1, 2], &[3, 3, 3], &ts, &[1, 1, 1], 0, 10, 2);
    assert_eq!(r, vec![3, 0, 3, 2]);
}

#[test]
fn fan_negative_window_matches_nothing() {
    let r = detect_fan_in(4, &[0, 1, 2], &[3, 3, 3], &times(&[0, 0, 0]), &[1, 1, 1], 0, -1, 1);
    assert_eq!(r, Vec::<u32>::new());
}

#[test]
fn fan_out_of_range_edges_dropped() {
    let base = detect_fan_in(4, &[0, 1, 2], &[3, 3, 3], &times(&[0, 5, 10]), &[1, 1, 1], 0, 10, 3);
    let r = detect_fan_in(
        4,
        &[0, 9, 1, 2, 3],
        &[3, 3, 3, 3, 7],
        &times(&[0, 1, 5, 10, 2]),
        &[1, 1, 1, 1, 1],
        0,
        10,
        3,
    );
    assert_eq!(r, base);
}

#[test]
fn fan_deterministic() {
    let run = || {
        detect_fan_out(
            5,
            &[0, 0, 0, 0, 1, 1],
            &[1, 2, 3, 4, 2, 3],
            &times(&[3, 1, 2, 2, 0, 0]),
            &[1, 1, 1, 1, 1, 1],
            0,
            2,
            3,
        )
    };
    assert_eq!(run(), run());
    assert_eq!(run(), vec![0, 2, 0, 3, 0, 4]);
}

#[test]
fn cycle_three_reported_once() {
    let r = detect_cycles(3, &[0, 1, 2], &[1, 2, 0], 3, 3, BIG, BIG);
    assert_eq!(r, vec![0, 1, 2, SENTINEL]);
    let r = detect_cycles(3, &[2, 0, 1], &[0, 1, 2], 3, 3, BIG, BIG);
    assert_eq!(r, vec![0, 1, 2, SENTINEL]);
}

#[test]
fn cycle_reported_in_least_rotation() {
    let r = detect_cycles(3, &[0, 2, 1], &[2, 1, 0], 3, 3, BIG, BIG);
    assert_eq!(r, vec![0, 2, 1, SENTINEL]);
    let r = detect_cycles(4, &[3, 1, 2], &[1, 2, 3], 3, 3, BIG, BIG);
    assert_eq!(r, vec![1, 2, 3, SENTINEL]);
}

#[test]
fn cycle_length_bounds() {
    let r = detect_cycles(2, &[0, 1], &[1, 0], 3, 3, BIG, BIG);
    assert_eq!(r, Vec::<u32>::new());
    let r = detect_cycles(2, &[0, 1], &[1, 0], 2, 2, BIG, BIG);
    assert_eq!(r, vec![0, 1, SENTINEL]);
    let r = detect_cycles(3, &[0, 1, 2], &[1, 2, 0], 2, 2, BIG, BIG);
    assert_eq!(r, Vec::<u32>::new());
}

#[test]
fn cycles_two_found() {
    let r = detect_cycles(4, &[0, 1, 1, 2, 3], &[1, 0, 2, 3, 1], 2, 3, BIG, BIG);
    assert_eq!(r, vec![0, 1, SENTINEL, 1, 2, 3, SENTINEL]);
}

#[test]
fn cycle_budgets_truncate() {
    let r = detect_cycles(3, &[0, 1, 2], &[1, 2, 0], 3, 3, 0, BIG);
    assert_eq!(r, Vec::<u32>::new());
    let r = detect_cycles(3, &[0, 1, 2], &[1, 2, 0], 3, 3, BIG, 0);
    assert_eq!(r, Vec::<u32>::new());
}

#[test]
fn cycle_neighbor_budget_takes_first_successors() {
    // 0 -> 2 first, which leads nowhere; 0 -> 1 -> 0 needs the second successor.
    let r = detect_cycles(3, &[0, 0, 1], &[2, 1, 0], 2, 2, BIG, 1);
    assert_eq!(r, Vec::<u32>::new());
    let r = detect_cycles(3, &[0, 0, 1], &[2, 1, 0], 2, 2, BIG, 2);
    assert_eq!(r, vec![0, 1, SENTINEL]);
}

#[test]
fn cycle_out_of_range_edges_dropped() {
    let r = detect_cycles(3, &[0, 1, 2, 5, 1], &[1, 2, 0, 0, 9], 3, 3, BIG, BIG);
    assert_eq!(r, vec![0, 1, 2, SENTINEL]);
}

#[test]
fn chain_shell_path_reported() {
    let r = detect_shell_chains(4, &[0, 1, 2], &[1, 2, 3], &[2, 2, 3, 4], 5, BIG, BIG);
    assert_eq!(r, vec![0, 1, 2, 3, SENTINEL]);
}

#[test]
fn chain_final_shell_not_reported() {
    let r = detect_shell_chains(4, &[0, 1, 2], &[1, 2, 3], &[2, 2, 3, 3], 5, BIG, BIG);
    assert_eq!(r, Vec::<u32>::new());
}

#[test]
fn chain_interior_non_shell_not_reported() {
    let r = detect_shell_chains(4, &[0, 1, 2], &[1, 2, 3], &[2, 4, 3, 4], 5, BIG, BIG);
    assert_eq!(r, Vec::<u32>::new());
    let r = detect_shell_chains(4, &[0, 1, 2], &[1, 2, 3], &[2, 2, 1, 4], 5, BIG, BIG);
    assert_eq!(r, Vec::<u32>::new());
}

#[test]
fn chain_missing_degree_is_not_shell() {
    let r = detect_shell_chains(4, &[0, 1, 2], &[1, 2, 3], &[2, 2, 3], 5, BIG, BIG);
    assert_eq!(r, vec![0, 1, 2, 3, SENTINEL]);
}

#[test]
fn chain_depth_bound() {
    let r = detect_shell_chains(4, &[0, 1, 2], &[1, 2, 3], &[2, 2, 3, 4], 2, BIG, BIG);
    assert_eq!(r, Vec::<u32>::new());
    let r = detect_shell_chains(4, &[0, 1, 2], &[1, 2, 3], &[2, 2, 3, 4], 3, BIG, BIG);
    assert_eq!(r, vec![0, 1, 2, 3, SENTINEL]);
}

#[test]
fn chain_sub_and_super_paths_both_reported() {
    // 1 -> 2 -> 3 -> 4 and 0 -> 1 -> 2 -> 3 -> 4 with 1,2,3 shells and 0,4 not.
    let r = detect_shell_chains(5, &[0, 1, 2, 3], &[1, 2, 3, 4], &[9, 2, 2, 3, 9], 5, BIG, BIG);
    assert_eq!(r, vec![0, 1, 2, 3, 4, SENTINEL, 1, 2, 3, 4, SENTINEL]);
}

#[test]
fn chain_budgets_truncate() {
    let r = detect_shell_chains(4, &[0, 1, 2], &[1, 2, 3], &[2, 2, 3, 4], 5, 0, BIG);
    assert_eq!(r, Vec::<u32>::new());
    let r = detect_shell_chains(4, &[0, 1, 2], &[1, 2, 3], &[2, 2, 3, 4], 5, BIG, 0);
    assert_eq!(r, Vec::<u32>::new());
}

#[test]
fn chain_out_of_range_edges_dropped() {
    let r = detect_shell_chains(4, &[0, 1, 2, 2, 8], &[1, 2, 3, 8, 1], &[2, 2, 3, 4], 5, BIG, BIG);
    assert_eq!(r, vec![0, 1, 2, 3, SENTINEL]);
}

#[test]
fn detectors_deterministic() {
    let s = [0, 1, 2, 2, 3, 1];
    let r = [1, 2, 0, 3, 1, 3];
    assert_eq!(
        detect_cycles(4, &s, &r, 2, 4, BIG, BIG),
        detect_cycles(4, &s, &r, 2, 4, BIG, BIG)
    );
    assert_eq!(
        detect_shell_chains(4, &s, &r, &[2, 3, 2, 5], 4, BIG, BIG),
        detect_shell_chains(4, &s, &r, &[2, 3, 2, 5], 4, BIG, BIG)
    );
}

#[test]
fn fan_large_edges_removed_gives_same_result() {
    let with_large = detect_fan_out(
        5,
        &[0, 0, 0, 0, 0],
        &[1, 2, 3, 4, 1],
        &times(&[0, 1, 2, 3, 4]),
        &[5, 500, 5, 5, 700],
        10,
        3,
        3,
    );
    let without = detect_fan_out(5, &[0, 0, 0], &[1, 3, 4], &times(&[0, 2, 3]), &[5, 5, 5], 10, 3, 3);
    assert_eq!(with_large, without);
    assert_eq!(with_large, vec![0, 1, 0, 3, 0, 4]);
}

#[test]
fn cycles_reported_within_length_bounds() {
    // 0 -> 1 -> 0 (2 edges) and 0 -> 1 -> 2 -> 3 -> 0 (4 edges)
    let s = [0, 1, 1, 2, 3];
    let r = [1, 0, 2, 3, 0];
    assert_eq!(detect_cycles(4, &s, &r, 2, 3, BIG, BIG), vec![0, 1, SENTINEL]);
    assert_eq!(detect_cycles(4, &s, &r, 3, 4, BIG, BIG), vec![0, 1, 2, 3, SENTINEL]);
    assert_eq!(
        detect_cycles(4, &s, &r, 2, 4, BIG, BIG),
        vec![0, 1, SENTINEL, 0, 1, 2, 3, SENTINEL]
    );
}

#[test]
fn cycle_self_loop_needs_length_one() {
    assert_eq!(detect_cycles(1, &[0], &[0], 1, 1, BIG, BIG), vec![0, SENTINEL]);
    assert_eq!(detect_cycles(1, &[0], &[0], 2, 2, BIG, BIG), Vec::<u32>::new());
}
