use ratchet::config::{Config, Direction, Metric};
use ratchet::hints::strategy_hints;
use ratchet::metrics::{limit_breaches, values_by_name, LimitKind, Reading};
use ratchet::num::Num;
use ratchet::results::{any_strategy, best_at, kept_runs, read_runs, separator_len, status_counts, strategy_display, TableError};
use ratchet::table::read_history;

fn num(x: f64) -> Num {
    Num { bits: x.to_bits() }
}

fn config(constraints: usize) -> Config {
    Config {
        name: "n".to_string(),
        editable: vec!["e".to_string()],
        readonly: vec![],
        run: "r".to_string(),
        metric: Some(Metric { name: "throughput".to_string(), grep: "^throughput:".to_string(), direction: Direction::Maximize }),
        metrics: vec![],
        constraints: (0..constraints)
            .map(|i| ratchet::config::Constraint {
                name: format!("c{}", i),
                grep: format!("^c{}:", i),
                warn_above: Some(num(10.0)),
                warn_below: None,
                fail_above: None,
                fail_below: Some(num(1.0)),
            })
            .collect(),
        timeout: 600,
        context: None,
        baseline: None,
        agent: None,
        agent_timeout: 1800,
        max_iterations: None,
        patience: None,
    }
}

#[test]
fn scoreboard_without_strategy() {
    let tsv = "commit\tthroughput\tstatus\tdescription\nbaseline\t85\tkeep\tbase\nx\t90\tdiscard\td\ny\t95\tcrash\te\n";
    let t = read_runs(tsv, &config(0)).unwrap();
    assert!(!t.has_strategy);
    assert_eq!(t.runs.len(), 3);
    assert!(t.stopped.is_none());
    let c = status_counts(&t.runs);
    assert_eq!((c.kept, c.discarded, c.crashed), (1, 1, 1));
    assert!(!any_strategy(&t.runs));
}

#[test]
fn scoreboard_with_strategy() {
    let tsv = "commit\tthroughput\tc0\tstrategy\tstatus\tdescription\nbaseline\t85\t100\t-\tkeep\tbase\nx\t90\t100\talgorithm\tkeep\td\n";
    let t = read_runs(tsv, &config(1)).unwrap();
    assert!(t.has_strategy);
    assert_eq!(t.runs[1].strategy, "algorithm");
    assert_eq!(t.runs[1].constraint_texts, vec!["100"]);
    assert!(any_strategy(&t.runs));
    assert_eq!(strategy_display(&t.runs[0].strategy), "-");
    assert_eq!(strategy_display(&"".to_string()), "-");
    assert_eq!(strategy_display(&t.runs[1].strategy), "algorithm");
}

#[test]
fn scoreboard_errors() {
    assert_eq!(read_runs("", &config(0)).unwrap_err(), TableError::Empty);
    assert_eq!(
        read_runs("commit\tthroughput\n", &config(0)).unwrap_err(),
        TableError::HeaderColumns { found: 2, expected: 4 }
    );
    let tsv = "commit\tthroughput\tstatus\tdescription\na\t1\tkeep\td\nb\t2\n\nc\t3\tkeep\td\n";
    let t = read_runs(tsv, &config(0)).unwrap();
    assert_eq!(t.runs.len(), 1);
    assert_eq!(t.stopped, Some(TableError::ShortLine { line: 3, found: 2, expected: 4 }));
}

#[test]
fn separator_widths() {
    assert_eq!(separator_len(false, 1, false), 76);
    assert_eq!(separator_len(false, 1, true), 94);
    assert_eq!(separator_len(true, 3, false), 104);
}

#[test]
fn best_among_kept_runs() {
    let tsv = "commit\tthroughput\tstatus\tdescription\nbaseline\t85\tkeep\tbase\nx\t90\tdiscard\td\ny\t80\tkeep\te\n";
    let t = read_runs(tsv, &config(0)).unwrap();
    let vals: Vec<Num> = t.runs.iter().map(|r| num(r.metric_texts[0].parse().unwrap())).collect();
    let kept = kept_runs(&t.runs);
    assert_eq!(kept, vec![0, 2]);
    assert_eq!(best_at(&vals, &kept, Direction::Maximize), Some(0));
    assert_eq!(best_at(&vals, &kept, Direction::Minimize), Some(2));
}

#[test]
fn limits() {
    let c = config(1);
    let readings = vec![
        Reading { name: "throughput".to_string(), value: num(5.0) },
        Reading { name: "c0".to_string(), value: num(20.0) },
        Reading { name: "c0".to_string(), value: num(0.5) },
    ];
    assert!(limit_breaches(&c.constraints, &readings, true).is_empty());
    let w = limit_breaches(&c.constraints, &readings, false);
    assert_eq!(w.len(), 1);
    assert_eq!(w[0].kind, LimitKind::WarnAbove);
    assert_eq!(f64::from_bits(w[0].limit.bits), 10.0);
    let low = vec![Reading { name: "c0".to_string(), value: num(0.5) }];
    let v = limit_breaches(&c.constraints, &low, true);
    assert_eq!(v.len(), 1);
    assert_eq!(v[0].kind, LimitKind::FailBelow);
    assert!(limit_breaches(&c.constraints, &vec![], true).is_empty());
}

#[test]
fn values_default_to_zero() {
    let readings = vec![Reading { name: "a".to_string(), value: num(2.0) }, Reading { name: "a".to_string(), value: num(3.0) }];
    let vs = values_by_name(&vec!["a".to_string(), "b".to_string()], &readings);
    assert_eq!(f64::from_bits(vs[0].bits), 2.0);
    assert_eq!(vs[1].bits, 0);
}

#[test]
fn hints_from_history() {
    assert!(strategy_hints(&read_history("h\nbaseline\t1\tkeep\tb\n", 1, 0), true, None).is_empty());
    let tsv = "h\nbaseline\t1\tkeep\tb\na\t2\tkeep\tfaster loop\nb\t0\tdiscard\tbad idea\nc\t0\tcrash\tworse idea\nd\t0\tdiscard\tnope\n";
    let rows = read_history(tsv, 1, 0);
    let hints = strategy_hints(&rows, false, Some(1));
    assert_eq!(hints.len(), 3);
    assert_eq!(hints[0], "3 of the last 5 attempts were discarded or crashed. The current approach may be hitting diminishing returns. Try a completely different strategy.");
    assert_eq!(hints[1], "Biggest improvement so far: \"faster loop\". Consider variations on that theme.");
    assert_eq!(hints[2], "Recently failed approaches (avoid repeating): \"nope\", \"worse idea\", \"bad idea\"");
}
