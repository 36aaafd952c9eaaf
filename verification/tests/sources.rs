use custom_was::sinks::ScoredPath;
use custom_was::sources::{AStarSamplingSource, BFSSource, DFSSource, PathSource};

#[test]
fn bfs_yields_root_then_ends() {
    let mut bfs = BFSSource::new("root_node");
    assert_eq!(bfs.next_path(), Some("root_node"));
    assert_eq!(bfs.next_path(), None);
    assert_eq!(bfs.next_path(), None);
}

#[test]
fn dfs_yields_root_then_ends() {
    let mut dfs = DFSSource::new(7u32);
    assert_eq!(dfs.next_path(), Some(7));
    assert_eq!(dfs.next_path(), None);
}

fn children_of(n: &u32) -> Vec<ScoredPath<u32>> {
    // children of n are 10n+1 .. 10n+3 with costs 10n + 3, 10n + 1, 10n + 2
    if *n >= 100 {
        return Vec::new();
    }
    vec![
        ScoredPath { path: n * 10 + 1, f_cost: (*n as u64) * 10 + 3 },
        ScoredPath { path: n * 10 + 2, f_cost: (*n as u64) * 10 + 1 },
        ScoredPath { path: n * 10 + 3, f_cost: (*n as u64) * 10 + 2 },
    ]
}

#[test]
fn astar_pops_cheapest_and_keeps_best_children() {
    let mut src = AStarSamplingSource::new(0u32, 0, children_of, 2);
    let first = src.next_path().unwrap();
    assert_eq!((first.path, first.f_cost), (0, 0));
    // children 2 (cost 1) and 3 (cost 2) were kept; 1 (cost 3) was not
    let second = src.next_path().unwrap();
    assert_eq!((second.path, second.f_cost), (2, 1));
    let third = src.next_path().unwrap();
    assert_eq!((third.path, third.f_cost), (3, 2));
    // open set now: children of 2 (costs 21, 22) and of 3 (costs 31, 32)
    let fourth = src.next_path().unwrap();
    assert_eq!((fourth.path, fourth.f_cost), (22, 21));
}

#[test]
fn astar_without_children_ends() {
    let mut src = AStarSamplingSource::new(500u32, 9, children_of, 1);
    let only = src.next_path().unwrap();
    assert_eq!((only.path, only.f_cost), (500, 9));
    assert!(src.next_path().is_none());
}

#[test]
fn astar_ties_go_to_the_earlier_entry() {
    let expand = |n: &u32| -> Vec<ScoredPath<u32>> {
        if *n == 0 {
            vec![ScoredPath { path: 1, f_cost: 5 }, ScoredPath { path: 2, f_cost: 5 }]
        } else {
            Vec::new()
        }
    };
    let mut src = AStarSamplingSource::new(0u32, 0, expand, 5);
    assert_eq!(src.next_path().unwrap().path, 0);
    assert_eq!(src.next_path().unwrap().path, 1);
    assert_eq!(src.next_path().unwrap().path, 2);
    assert!(src.next_path().is_none());
}

#[test]
fn astar_run_ends_after_one_plus_kept_children() {
    let k = 2usize;
    let mut src = AStarSamplingSource::new(0u32, 0, children_of, k);
    let mut results = 0usize;
    let mut let_in = 0usize;
    while let Some(node) = src.next_path() {
        results += 1;
        let_in += children_of(&node.path).len().min(k);
        assert!(results < 10_000);
    }
    assert_eq!(results, 1 + let_in);
    // 0 lets in two children, each node below 100 lets in two more, nodes from 100 on none
    assert_eq!(results, 1 + 2 + 4 + 8);
}
