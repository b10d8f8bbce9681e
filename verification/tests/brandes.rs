//! Betweenness over the verified passes, against the reference crate.

use std::collections::BTreeMap;

use entropyx_graph::CoChangeGraph;
use exsurvey::brandes::{batch_end, normalizer, Graph, BATCH};
use exsurvey::source_pass::SourcePass;

fn commits(spec: &[&[&str]]) -> Vec<Vec<String>> {
    spec.iter()
        .map(|c| c.iter().map(|s| s.to_string()).collect())
        .collect()
}

fn dependencies(pass: &SourcePass, n: usize) -> Vec<f64> {
    let mut delta = vec![0.0_f64; n];
    for (v, w) in pass.additions() {
        delta[v] += (pass.sigma[v] as f64 / pass.sigma[w] as f64) * (1.0 + delta[w]);
    }
    delta
}

fn betweenness_centrality(g: &Graph) -> BTreeMap<String, f64> {
    let n = g.node_count();
    let mut cb = vec![0.0_f64; n];
    let mut start = 0;
    while start < n {
        let end = batch_end(start, n);
        for s in start..end {
            let pass = g.single_source(s).expect("path counts fit");
            for (w, d) in dependencies(&pass, n).iter().enumerate() {
                if w != s {
                    cb[w] += d;
                }
            }
        }
        start = end;
    }
    let denom = normalizer(n) as f64;
    g.nodes
        .iter()
        .enumerate()
        .map(|(i, p)| (p.clone(), if denom > 0.0 { cb[i] / denom } else { 0.0 }))
        .collect()
}

fn assert_matches_upstream(spec: &[&[&str]]) {
    let per_commit = commits(spec);
    let ours = betweenness_centrality(&Graph::from_commit_paths(&per_commit));
    let theirs = CoChangeGraph::from_commit_paths(&per_commit).betweenness_centrality();
    assert_eq!(ours.len(), theirs.len(), "node count");
    for (path, v) in &theirs {
        let got = ours.get(path).unwrap_or_else(|| panic!("missing {path}"));
        assert_eq!(
            got.to_bits(),
            v.to_bits(),
            "{path}: {got} vs {v} (must be bit-identical, not close)"
        );
    }
}

#[test]
fn matches_upstream_on_a_bridge_graph() {
    assert_matches_upstream(&[
        &["a.rs", "b.rs", "bridge.rs"],
        &["c.rs", "d.rs", "bridge.rs"],
        &["a.rs", "b.rs"],
        &["c.rs", "d.rs"],
    ]);
}

#[test]
fn matches_upstream_on_a_chain() {
    assert_matches_upstream(&[&["a", "b"], &["b", "c"], &["c", "d"], &["d", "e"]]);
}

#[test]
fn matches_upstream_on_a_wide_commit() {
    let wide: Vec<String> = (0..40).map(|i| format!("f{i}.ts")).collect();
    let refs: Vec<&str> = wide.iter().map(String::as_str).collect();
    assert_matches_upstream(&[&refs, &refs[..10], &refs[5..20]]);
}

#[test]
fn matches_upstream_across_batch_boundaries() {
    let n = BATCH + 37;
    let names: Vec<String> = (0..n).map(|i| format!("n{i}")).collect();
    let mut spec: Vec<Vec<&str>> = Vec::new();
    for i in 0..n - 1 {
        spec.push(vec![names[i].as_str(), names[i + 1].as_str()]);
    }
    spec.push(vec![
        names[0].as_str(),
        names[n / 2].as_str(),
        names[n - 1].as_str(),
    ]);
    let refs: Vec<&[&str]> = spec.iter().map(Vec::as_slice).collect();
    assert_matches_upstream(&refs);
}

#[test]
fn matches_upstream_on_degenerate_graphs() {
    assert_matches_upstream(&[&["only.rs"]]);
    assert_matches_upstream(&[&["a", "b"]]);
    assert_matches_upstream(&[]);
}

#[test]
fn node_order_matches_upstream() {
    let per_commit = commits(&[&["z.rs", "a.rs"], &["m.rs", "z.rs"]]);
    let ours = Graph::from_commit_paths(&per_commit);
    let theirs = CoChangeGraph::from_commit_paths(&per_commit);
    assert_eq!(ours.nodes, theirs.nodes(), "first-seen interning order");
}

#[test]
fn a_pass_counts_shortest_paths() {
    // A diamond: two ways from a to d.
    let g = Graph::from_commit_paths(&commits(&[
        &["a", "b"],
        &["a", "c"],
        &["b", "d"],
        &["c", "d"],
        &["d", "e"],
    ]));
    assert_eq!(g.nodes, vec!["a", "b", "c", "d", "e"]);
    let pass = g.single_source(0).unwrap();
    assert_eq!(pass.order, vec![0, 1, 2, 3, 4]);
    assert_eq!(pass.dist, vec![Some(0), Some(1), Some(1), Some(2), Some(3)]);
    assert_eq!(pass.sigma, vec![1, 1, 1, 2, 2]);
    assert_eq!(
        pass.preds,
        vec![vec![], vec![0], vec![0], vec![1, 2], vec![3]]
    );
    assert_eq!(
        pass.additions(),
        vec![(3, 4), (1, 3), (2, 3), (0, 2), (0, 1)]
    );
}

#[test]
fn shares_are_complete_before_they_are_passed_on() {
    let g = Graph::from_commit_paths(&commits(&[
        &["a", "b", "c"],
        &["c", "d", "e"],
        &["e", "f"],
        &["f", "a"],
    ]));
    for s in 0..g.node_count() {
        let steps = g.single_source(s).unwrap().additions();
        for (i, given) in steps.iter().enumerate() {
            for later in &steps[i..] {
                assert_ne!(later.0, given.1);
            }
        }
    }
}

#[test]
fn unreachable_nodes_are_left_out_of_a_pass() {
    let g = Graph::from_commit_paths(&commits(&[&["a", "b"], &["c"]]));
    let pass = g.single_source(0).unwrap();
    assert_eq!(pass.order, vec![0, 1]);
    assert_eq!(pass.dist[2], None);
    assert_eq!(pass.sigma[2], 0);
    assert_eq!(g.degree_entries(), 2);
}

#[test]
fn paths_beyond_the_counter_are_told() {
    // Seventy diamonds in a row double the number of shortest paths each.
    let mut lists: Vec<Vec<String>> = Vec::new();
    for i in 0..70 {
        let (l, r) = (format!("l{i}"), format!("r{i}"));
        let (from, to) = (format!("x{i}"), format!("x{}", i + 1));
        lists.push(vec![from.clone(), l.clone()]);
        lists.push(vec![from, r.clone()]);
        lists.push(vec![l, to.clone()]);
        lists.push(vec![r, to]);
    }
    let g = Graph::from_commit_paths(&lists);
    let first = g.nodes.iter().position(|p| p == "x0").unwrap();
    assert!(g.single_source(first).is_none());
    let middle = g.nodes.iter().position(|p| p == "x35").unwrap();
    assert!(g.single_source(middle).is_some());
}

#[test]
fn batches_tile_the_sources() {
    assert_eq!(batch_end(0, 600), 256);
    assert_eq!(batch_end(256, 600), 512);
    assert_eq!(batch_end(512, 600), 600);
    assert_eq!(normalizer(0), 0);
    assert_eq!(normalizer(2), 0);
    assert_eq!(normalizer(5), 12);
}
