use sentrux_core::{
    compute_fan_maps, compute_reverse_reach, count_cycles, cycle_edge_candidates,
    flagged_list_layout, greedy_cycle_breaks, CycleBreakReport, CycleBreakSuggestion, ImportEdge,
};

fn edge(from: &str, to: &str) -> ImportEdge {
    ImportEdge { from_file: from.to_string(), to_file: to.to_string() }
}

fn cost(s: &CycleBreakSuggestion) -> f64 {
    let fo = s.impact.source_fan_out as f64;
    let fi = s.impact.source_fan_in as f64;
    let instability = fo / (fi + fo).max(1.0);
    (s.impact.target_blast_radius as f64 + 1.0) * (1.0 - instability + 0.1)
}

/// Candidates ranked cheapest first, then by cycles broken, and the greedy pass.
fn suggest_cycle_breaks(
    edges: &[ImportEdge],
    cycles: &[Vec<String>],
    max_suggestions: usize,
) -> CycleBreakReport {
    let mut ranked = cycle_edge_candidates(edges, cycles);
    ranked.sort_by(|a, b| {
        cost(a)
            .partial_cmp(&cost(b))
            .unwrap_or(std::cmp::Ordering::Equal)
            .then(b.impact.cycles_broken.cmp(&a.impact.cycles_broken))
    });
    greedy_cycle_breaks(edges, cycles, &ranked, max_suggestions)
}

fn names(v: &[&str]) -> Vec<String> {
    v.iter().map(|s| s.to_string()).collect()
}

#[test]
fn no_cycles_no_suggestions() {
    let edges = vec![edge("a", "b"), edge("b", "c")];
    let report = suggest_cycle_breaks(&edges, &[], 10);
    assert_eq!(report.total_cycles, 0);
    assert!(report.suggestions.is_empty());
}

#[test]
fn simple_triangle_cycle() {
    let edges = vec![edge("a", "b"), edge("b", "c"), edge("c", "a")];
    let cycles = vec![vec!["a".to_string(), "b".to_string(), "c".to_string()]];
    let report = suggest_cycle_breaks(&edges, &cycles, 10);
    assert_eq!(report.total_cycles, 1);
    assert!(!report.suggestions.is_empty());
    // After removing the suggested edge, remaining cycles should be 0
    assert_eq!(report.suggestions[0].impact.remaining_cycles, 0);
    assert_eq!(report.min_removals, 1);
}

#[test]
fn two_overlapping_cycles() {
    // a→b→c→a and a→b→d→a
    let edges = vec![
        edge("a", "b"),
        edge("b", "c"),
        edge("c", "a"),
        edge("b", "d"),
        edge("d", "a"),
    ];
    let cycles = vec![vec!["a".to_string(), "b".to_string(), "c".to_string(), "d".to_string()]];
    let report = suggest_cycle_breaks(&edges, &cycles, 10);
    assert!(report.total_cycles > 0);
    // Should suggest removing an edge that breaks the cycle
    assert!(!report.suggestions.is_empty());
}

#[test]
fn count_cycles_correctness() {
    let edges = vec![edge("a", "b"), edge("b", "a")];
    assert_eq!(count_cycles(&edges), 1);

    let edges_no_cycle = vec![edge("a", "b"), edge("b", "c")];
    assert_eq!(count_cycles(&edges_no_cycle), 0);
}

#[test]
fn count_cycles_components() {
    assert_eq!(count_cycles(&[]), 0);
    // self-import is a one-member component: not a cycle
    assert_eq!(count_cycles(&[edge("a", "a")]), 0);
    // two separate cycles, one bridge between them
    let edges = vec![
        edge("a", "b"),
        edge("b", "a"),
        edge("b", "c"),
        edge("c", "d"),
        edge("d", "e"),
        edge("e", "c"),
    ];
    assert_eq!(count_cycles(&edges), 2);
    // closing the bridge back merges everything into one
    let mut merged = edges.clone();
    merged.push(edge("c", "a"));
    assert_eq!(count_cycles(&merged), 1);
}

#[test]
fn fan_maps_count_distinct_edges() {
    let edges = vec![edge("a", "b"), edge("a", "b"), edge("a", "c"), edge("c", "b")];
    let (fan_out, fan_in) = compute_fan_maps(&edges);
    assert_eq!(fan_out, vec![("a".to_string(), 2), ("c".to_string(), 1)]);
    assert_eq!(fan_in, vec![("b".to_string(), 2), ("c".to_string(), 1)]);
}

#[test]
fn reverse_reach_counts_transitive_importers() {
    let edges = vec![edge("a", "b"), edge("b", "c"), edge("d", "c")];
    let reach = compute_reverse_reach(&edges);
    assert_eq!(
        reach,
        vec![
            ("a".to_string(), 0),
            ("b".to_string(), 1),
            ("c".to_string(), 3),
            ("d".to_string(), 0),
        ]
    );
}

#[test]
fn reverse_reach_is_capped_on_long_chains() {
    let mut edges = Vec::new();
    for i in 0..700 {
        edges.push(edge(&format!("n{}", i), &format!("n{}", i + 1)));
    }
    let reach = compute_reverse_reach(&edges);
    assert_eq!(reach[700].0, "n700");
    assert_eq!(reach[700].1, 500);
    assert_eq!(reach[300].1, 300);
}

#[test]
fn candidates_describe_cycle_edges() {
    let edges = vec![edge("a", "b"), edge("b", "c"), edge("c", "a"), edge("c", "x")];
    let cycles = vec![names(&["a", "b", "c"]), names(&["b", "c"])];
    let cands = cycle_edge_candidates(&edges, &cycles);
    assert_eq!(cands.len(), 3);
    assert_eq!((cands[0].from_file.as_str(), cands[0].to_file.as_str()), ("a", "b"));
    assert_eq!(cands[0].impact.cycles_broken, 1);
    assert_eq!(cands[1].impact.cycles_broken, 2);
    assert_eq!(cands[2].impact.cycles_broken, 1);
    // c is imported by b, and transitively by a
    assert_eq!(cands[1].impact.target_blast_radius, 2);
    // c imports a and x; b imports c
    assert_eq!(cands[2].impact.source_fan_out, 2);
    assert_eq!(cands[2].impact.source_fan_in, 1);
    assert!(cands.iter().all(|c| c.impact.remaining_cycles == 0));
}

#[test]
fn greedy_stops_at_limit_and_when_cycles_are_gone() {
    let edges = vec![edge("a", "b"), edge("b", "a"), edge("c", "d"), edge("d", "c")];
    let cycles = vec![names(&["a", "b"]), names(&["c", "d"])];
    let ranked = cycle_edge_candidates(&edges, &cycles);
    let limited = greedy_cycle_breaks(&edges, &cycles, &ranked, 1);
    assert_eq!(limited.suggestions.len(), 1);
    assert_eq!(limited.suggestions[0].impact.remaining_cycles, 1);
    // two cycles need at least two cuts
    assert_eq!(limited.min_removals, 2);

    let full = greedy_cycle_breaks(&edges, &cycles, &ranked, 10);
    // cut a->b (1 left), b->a (still 1), c->d (0 left): stop
    assert_eq!(full.suggestions.len(), 3);
    let left: Vec<usize> = full.suggestions.iter().map(|s| s.impact.remaining_cycles).collect();
    assert_eq!(left, vec![1, 1, 0]);
    assert_eq!(full.min_removals, 2);
    assert_eq!(full.total_cycles, 2);

    let none = greedy_cycle_breaks(&edges, &cycles, &ranked, 0);
    assert!(none.suggestions.is_empty());
    assert_eq!(none.min_removals, 2);
}

#[test]
fn greedy_cuts_every_copy_of_an_edge() {
    let edges = vec![edge("a", "b"), edge("a", "b"), edge("b", "a")];
    let cycles = vec![names(&["a", "b"])];
    let ranked = cycle_edge_candidates(&edges, &cycles);
    let report = greedy_cycle_breaks(&edges, &cycles, &ranked, 10);
    assert_eq!(report.suggestions.len(), 1);
    assert_eq!(report.suggestions[0].impact.remaining_cycles, 0);
}

#[test]
fn flagged_list_layout_rows() {
    let empty = flagged_list_layout(0, 5);
    assert!(!empty.visible);
    assert_eq!((empty.shown, empty.more), (0, 0));
    let few = flagged_list_layout(3, 5);
    assert!(few.visible);
    assert_eq!((few.shown, few.more), (3, 0));
    let many = flagged_list_layout(8, 5);
    assert_eq!((many.shown, many.more), (5, 3));
}

#[test]
fn cutting_all_cycle_edges_leaves_no_cycle() {
    let edges = vec![
        edge("a", "b"),
        edge("b", "c"),
        edge("c", "a"),
        edge("c", "d"),
        edge("d", "e"),
        edge("e", "d"),
        edge("e", "f"),
    ];
    let cycles = vec![names(&["a", "b", "c"]), names(&["d", "e"])];
    assert_eq!(count_cycles(&edges), 2);
    let cands = cycle_edge_candidates(&edges, &cycles);
    assert_eq!(cands.len(), 5);
    let rest: Vec<ImportEdge> = edges
        .iter()
        .filter(|e| !cands.iter().any(|c| c.from_file == e.from_file && c.to_file == e.to_file))
        .cloned()
        .collect();
    assert_eq!(rest.len(), 2);
    assert_eq!(count_cycles(&rest), 0);
    let report = greedy_cycle_breaks(&edges, &cycles, &cands, 100);
    assert_eq!(report.suggestions.last().map(|s| s.impact.remaining_cycles), Some(0));
    assert_eq!(report.min_removals, 2);
    assert!(report.suggestions.len() >= report.min_removals);
}

#[test]
fn min_removals_is_a_lower_bound_for_overlapping_cycles() {
    // a→b→c→a and a→b→d→a: one component, and cutting a→b alone breaks both
    let edges = vec![
        edge("a", "b"),
        edge("b", "c"),
        edge("c", "a"),
        edge("b", "d"),
        edge("d", "a"),
    ];
    let cycles = vec![names(&["a", "b", "c", "d"])];
    let report = suggest_cycle_breaks(&edges, &cycles, 10);
    assert_eq!(report.min_removals, 1);
    let rest: Vec<ImportEdge> = edges[1..].to_vec();
    assert_eq!(count_cycles(&rest), 0);
}

#[test]
fn reverse_reach_is_capped_for_many_direct_importers() {
    let mut edges = Vec::new();
    for i in 0..1000 {
        edges.push(edge(&format!("m{}", i), "hub"));
    }
    let reach = compute_reverse_reach(&edges);
    assert_eq!(reach[1].0, "hub");
    assert_eq!(reach[1].1, 500);
    assert_eq!(reach[0].1, 0);
}

#[test]
fn no_cycles_given_needs_no_removal() {
    // The edges hold a cycle, but none was handed in: the report is empty.
    let edges = vec![edge("a", "b"), edge("b", "a")];
    let report = suggest_cycle_breaks(&edges, &[], 10);
    assert_eq!(report.total_cycles, 0);
    assert!(report.suggestions.is_empty());
    assert_eq!(report.min_removals, 0);
}
