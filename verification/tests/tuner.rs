use autodpi::probe::{ProbeResult, Verdict};
use autodpi::strategy::{AnyStrategy, Strategy};
use autodpi::tuner::{best_strategy, rank, recommend, TuneEntry, TuneSession};

fn entry(name: &str, passes: u32, attempts: u32, best: Option<u128>) -> TuneEntry {
    TuneEntry {
        strategy: name.to_string(),
        passes,
        attempts,
        best_latency: best,
        last_verdict: if passes > 0 { Verdict::Pass } else { Verdict::Reset },
    }
}

fn names(entries: &[TuneEntry]) -> Vec<&str> {
    entries.iter().map(|e| e.strategy.as_str()).collect()
}

#[test]
fn ranking_order() {
    let entries = vec![
        entry("direct", 0, 3, None),
        entry("split-1", 2, 3, Some(50)),
        entry("split-5", 3, 3, Some(90)),
        entry("split-sni", 2, 3, Some(40)),
        entry("multisplit-4", 2, 3, None),
        entry("b", 0, 3, None),
        entry("a", 0, 0, None),
    ];
    let ranked = rank(entries);
    assert_eq!(
        names(&ranked),
        vec!["split-5", "split-sni", "split-1", "multisplit-4", "a", "b", "direct"]
    );
}

#[test]
fn equal_rates_compare_as_fractions() {
    // 1/2 and 2/4 tie on the rate, so the latency decides.
    let ranked = rank(vec![entry("x", 1, 2, Some(10)), entry("y", 2, 4, Some(5))]);
    assert_eq!(names(&ranked), vec!["y", "x"]);
    // a perfect tie keeps the input order
    let ranked = rank(vec![entry("same", 1, 2, Some(5)), entry("same", 2, 4, Some(5))]);
    assert_eq!(ranked[0].passes, 1);
    assert_eq!(ranked[1].passes, 2);
}

#[test]
fn recommendation_is_first_passing_entry() {
    let ranked = rank(vec![entry("direct", 0, 3, None), entry("split-1", 1, 3, Some(7))]);
    assert_eq!(recommend(&ranked), Some("split-1".to_string()));
    match best_strategy(&ranked) {
        Some(s) => assert_eq!(s.name(), "split-1"),
        None => panic!("expected a strategy"),
    }
    let none = rank(vec![entry("direct", 0, 3, None)]);
    assert_eq!(recommend(&none), None);
    assert!(best_strategy(&none).is_none());
    // a passing name that is not in the catalogue resolves to nothing
    assert!(best_strategy(&vec![entry("custom", 1, 1, None)]).is_none());
}

#[test]
fn session_sweeps_every_strategy_rounds_times() {
    let mut session = TuneSession::new(2);
    let mut probed = Vec::new();
    while let Some(i) = session.next_probe() {
        probed.push(i);
        // strategy 3 passes once quickly, strategy 1 passes twice slowly
        let (verdict, latency) = match (i, probed.iter().filter(|&&k| k == i).count()) {
            (3, 1) => (Verdict::Pass, Some(10)),
            (1, _) => (Verdict::Pass, Some(30)),
            (5, 2) => (Verdict::Timeout, None),
            _ => (Verdict::Reset, None),
        };
        session.record(&ProbeResult { strategy: String::new(), verdict, latency });
    }
    assert_eq!(probed, vec![0, 0, 1, 1, 2, 2, 3, 3, 4, 4, 5, 5, 6, 6]);
    let table = session.finish();
    assert_eq!(table.len(), 7);
    assert_eq!(table[0].strategy, "split-sni");
    assert_eq!((table[0].passes, table[0].attempts, table[0].best_latency), (2, 2, Some(30)));
    assert_eq!(table[1].strategy, "split-1");
    assert_eq!((table[1].passes, table[1].best_latency, table[1].last_verdict), (1, Some(10), Verdict::Reset));
    assert!(table[2..].iter().all(|e| e.passes == 0 && e.attempts == 2));
    let ms4 = table.iter().find(|e| e.strategy == "multisplit-4").unwrap();
    assert_eq!(ms4.last_verdict, Verdict::Timeout);
    assert_eq!(recommend(&table), Some("split-sni".to_string()));
    assert!(matches!(best_strategy(&table), Some(AnyStrategy::SplitAtSni(_))));
}

#[test]
fn zero_rounds_means_one_attempt() {
    let mut session = TuneSession::new(0);
    let mut count = 0;
    while let Some(_) = session.next_probe() {
        count += 1;
        session.record(&ProbeResult { strategy: String::new(), verdict: Verdict::Timeout, latency: None });
    }
    assert_eq!(count, 7);
    let table = session.finish();
    assert!(table.iter().all(|e| e.attempts == 1 && e.passes == 0));
    // all tie on rate and latency: ordered by name
    let mut sorted: Vec<String> = table.iter().map(|e| e.strategy.clone()).collect();
    sorted.sort();
    assert_eq!(table.iter().map(|e| e.strategy.clone()).collect::<Vec<_>>(), sorted);
}

#[test]
fn sweep_reports_each_strategy_once() {
    let mut session = TuneSession::new(3);
    let mut n = 0u128;
    while let Some(i) = session.next_probe() {
        n += 1;
        let pass = (i + n as usize) % 2 == 0;
        let result = if pass {
            ProbeResult { strategy: String::new(), verdict: Verdict::Pass, latency: Some(n) }
        } else {
            ProbeResult { strategy: String::new(), verdict: Verdict::Reset, latency: None }
        };
        session.record(&result);
    }
    assert_eq!(n, 21);
    let table = session.finish();
    let mut reported: Vec<&str> = table.iter().map(|e| e.strategy.as_str()).collect();
    reported.sort();
    let mut expected = vec![
        "direct", "split-sni", "split-sni-slow", "split-1", "split-5", "multisplit-4",
        "multisplit-8-slow",
    ];
    expected.sort();
    assert_eq!(reported, expected);
    for e in &table {
        assert_eq!(e.attempts, 3);
        assert!(e.passes <= e.attempts);
        assert_eq!(e.best_latency.is_some(), e.passes > 0);
    }
}
