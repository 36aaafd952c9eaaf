use custom_was::sinks::{BestKSink, CountSink, PathSink, ScoredPath, ThresholdSink, WeightedSampleSink};

fn scored(path: &str, f_cost: u64) -> ScoredPath<String> {
    ScoredPath { path: path.to_string(), f_cost }
}

#[test]
fn count_sink_counts_and_resets() {
    let mut sink = CountSink::new();
    assert_eq!(sink.count(), 0);
    assert!(!PathSink::<&str>::finalize(&mut sink));
    sink.sink("a");
    sink.sink("b");
    sink.sink("c");
    assert_eq!(sink.count(), 3);
    assert!(PathSink::<&str>::finalize(&mut sink));
    assert_eq!(sink.count(), 3);
    sink.reset();
    assert_eq!(sink.count(), 0);
    assert!(!PathSink::<u32>::finalize(&mut sink));
}

#[test]
fn count_sink_default_is_zero() {
    let sink = CountSink::default();
    assert_eq!(sink.count(), 0);
}

#[test]
fn best_k_keeps_lowest_costs() {
    let mut sink = BestKSink::new(2);
    assert!(!sink.finalize());
    sink.sink_scored("five".to_string(), 5);
    sink.sink_scored("one".to_string(), 1);
    sink.sink_scored("three".to_string(), 3);
    sink.sink_scored("nine".to_string(), 9);
    assert!(sink.finalize());
    let paths = sink.into_sorted_paths();
    let names: Vec<&str> = paths.iter().map(|p| p.path.as_str()).collect();
    assert_eq!(names, vec!["one", "three"]);
    assert_eq!(paths[0].f_cost, 1);
    assert_eq!(paths[1].f_cost, 3);
}

#[test]
fn best_k_turns_away_equal_cost() {
    let mut sink = BestKSink::new(1);
    sink.sink(scored("first", 4));
    sink.sink(scored("second", 4));
    let paths = sink.into_sorted_paths();
    assert_eq!(paths.len(), 1);
    assert_eq!(paths[0].path, "first");
}

#[test]
fn best_k_sorted_output_is_stable() {
    let mut sink = BestKSink::new(4);
    sink.sink(scored("a", 7));
    sink.sink(scored("b", 2));
    sink.sink(scored("c", 7));
    sink.sink(scored("d", 2));
    let names: Vec<String> = sink.into_sorted_paths().into_iter().map(|p| p.path).collect();
    assert_eq!(names, vec!["b", "d", "a", "c"]);
}

#[test]
fn best_k_evicts_first_costliest() {
    let mut sink = BestKSink::new(3);
    sink.sink(scored("x", 8));
    sink.sink(scored("y", 8));
    sink.sink(scored("z", 1));
    sink.sink(scored("w", 2));
    let names: Vec<String> = sink.into_sorted_paths().into_iter().map(|p| p.path).collect();
    assert_eq!(names, vec!["z", "w", "y"]);
}

#[test]
fn threshold_sink_accepts_within_bound() {
    let mut sink = ThresholdSink::new(10);
    assert!(!sink.finalize());
    sink.sink(scored("low", 5));
    sink.sink(scored("high", 15));
    sink.sink(scored("edge", 10));
    assert!(sink.finalize());
    let names: Vec<&str> = sink.accepted_paths().iter().map(|p| p.path.as_str()).collect();
    assert_eq!(names, vec!["low", "edge"]);
    let paths = sink.into_paths();
    assert_eq!(paths.len(), 2);
    assert_eq!(paths[1].f_cost, 10);
}

#[test]
fn threshold_sink_rejects_everything_above() {
    let mut sink = ThresholdSink::new(0);
    sink.sink(scored("a", 1));
    sink.sink(scored("b", u64::MAX));
    assert!(!sink.finalize());
    assert!(sink.into_paths().is_empty());
}

#[test]
fn weighted_sample_keeps_greatest_keys() {
    let mut sink = WeightedSampleSink::new(2);
    assert!(!sink.finalize());
    sink.sink_keyed(b"atom/path/A", 10);
    sink.sink_keyed(b"atom/path/B", 30);
    sink.sink_keyed(b"atom/path/C", 20);
    sink.sink_keyed(b"atom/path/D", 5);
    assert!(sink.finalize());
    let samples = sink.into_samples();
    assert_eq!(samples, vec![b"atom/path/B".to_vec(), b"atom/path/C".to_vec()]);
}

#[test]
fn weighted_sample_equal_key_is_turned_away() {
    let mut sink = WeightedSampleSink::new(1);
    sink.sink_keyed(b"first", 7);
    sink.sink_keyed(b"second", 7);
    assert_eq!(sink.into_samples(), vec![b"first".to_vec()]);
}

#[test]
fn weighted_sample_unweighted_sink_is_bounded() {
    let mut sink = WeightedSampleSink::new(3);
    let paths: [&[u8]; 5] = [b"a", b"b", b"c", b"d", b"e"];
    for p in paths.iter() {
        sink.sink(*p);
    }
    assert!(sink.finalize());
    let samples = sink.into_samples();
    assert_eq!(samples.len(), 3);
    for s in samples.iter() {
        assert!(paths.iter().any(|p| *p == s.as_slice()));
    }
    for i in 0..samples.len() {
        for j in (i + 1)..samples.len() {
            assert_ne!(samples[i], samples[j]);
        }
    }
}

#[test]
fn weighted_sample_fewer_paths_than_size_keeps_all() {
    let mut sink = WeightedSampleSink::new(10);
    sink.sink(b"only".as_slice());
    assert_eq!(sink.into_samples(), vec![b"only".to_vec()]);
}

#[test]
fn scored_paths_compare_by_cost() {
    let a = scored("a", 3);
    let b = scored("b", 3);
    let c = scored("c", 4);
    assert!(a == b);
    assert!(a != c);
    assert!(a < c);
    assert_eq!(c.partial_cmp(&a), Some(std::cmp::Ordering::Greater));
    assert_eq!(a.partial_cmp(&b), Some(std::cmp::Ordering::Equal));
}
