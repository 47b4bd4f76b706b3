use ratchet::compare::{best_index, first_best_index, is_single_metric_better, pareto_dominates};
use ratchet::config::Direction;
use ratchet::decide::{best_kept_commit, best_kept_row, initial_best_commit, is_improvement, kept_indices};
use ratchet::num::{gt, lt, nan, Num};
use ratchet::table::{read_history, result_line};

fn num(x: f64) -> Num {
    Num { bits: x.to_bits() }
}

const TSV: &str = "commit\tthroughput\tcorrectness\tstatus\tdescription\n\
baseline\t85.00\t100.00\tkeep\tbaseline\n\
af694fe\t33089.98\t100.00\tkeep\tuse built-in sorted()\n\
\n\
22f00d2\t6153.36\t100.00\tdiscard\tcounting sort\twith tabs\n\
short\t1\n\
a54fe56\t71396.70\t100.00\tkeep\t  C extension  \r\n";

#[test]
fn history_rows_are_parsed() {
    let rows = read_history(TSV, 1, 1);
    assert_eq!(rows.len(), 4);
    assert_eq!(rows[0].num, 1);
    assert_eq!(rows[0].commit, "baseline");
    assert_eq!(rows[1].metric_texts, vec!["33089.98"]);
    assert_eq!(rows[2].num, 4);
    assert_eq!(rows[2].status, "discard");
    assert_eq!(rows[2].description, "counting sort\twith tabs");
    assert_eq!(rows[3].num, 6);
    assert_eq!(rows[3].description, "C extension");
}

#[test]
fn empty_table_has_no_history() {
    assert!(read_history("", 1, 0).is_empty());
    assert!(read_history("commit\tm\tstatus\tdescription\n", 1, 0).is_empty());
}

#[test]
fn ieee_comparisons() {
    assert!(gt(num(2.0), num(1.0)));
    assert!(gt(num(-1.0), num(-2.0)));
    assert!(gt(num(0.5), num(-0.5)));
    assert!(!gt(num(0.0), num(-0.0)));
    assert!(!gt(num(-0.0), num(0.0)));
    assert!(lt(num(f64::NEG_INFINITY), num(-1e300)));
    assert!(gt(num(f64::INFINITY), num(1e300)));
    assert!(!gt(num(f64::NAN), num(1.0)));
    assert!(!lt(num(f64::NAN), num(1.0)));
    assert!(nan(num(f64::NAN)));
    assert!(!nan(num(f64::INFINITY)));
}

#[test]
fn single_metric_comparison() {
    assert!(is_single_metric_better(num(2.0), num(1.0), Direction::Maximize));
    assert!(!is_single_metric_better(num(2.0), num(1.0), Direction::Minimize));
    assert!(!is_single_metric_better(num(1.0), num(1.0), Direction::Maximize));
}

#[test]
fn pareto_dominance() {
    let ds = vec![Direction::Maximize, Direction::Minimize];
    assert!(pareto_dominates(&vec![num(10.0), num(5.0)], &vec![num(8.0), num(5.0)], &ds));
    assert!(!pareto_dominates(&vec![num(10.0), num(6.0)], &vec![num(8.0), num(5.0)], &ds));
    assert!(!pareto_dominates(&vec![num(8.0), num(5.0)], &vec![num(8.0), num(5.0)], &ds));
    assert!(!pareto_dominates(&vec![num(8.0)], &vec![num(8.0), num(5.0)], &ds));
}

#[test]
fn best_index_follows_max_by_and_min_by() {
    let v = vec![num(3.0), num(5.0), num(5.0), num(1.0)];
    assert_eq!(best_index(&v, Direction::Maximize), Some(2));
    let w = vec![num(3.0), num(1.0), num(1.0), num(4.0)];
    assert_eq!(best_index(&w, Direction::Minimize), Some(1));
    assert_eq!(best_index(&vec![], Direction::Minimize), None);
}

#[test]
fn first_best_keeps_earlier_ties() {
    let v = vec![None, Some(num(2.0)), Some(num(2.0)), None, Some(num(1.0))];
    assert_eq!(first_best_index(&v, Direction::Maximize), Some(1));
    assert_eq!(first_best_index(&v, Direction::Minimize), Some(4));
    assert_eq!(first_best_index(&vec![None, None], Direction::Minimize), None);
}

fn values(rows: &[ratchet::table::HistoryRow]) -> Vec<Vec<Num>> {
    rows.iter()
        .map(|r| r.metric_texts.iter().map(|t| num(t.parse().unwrap_or(0.0))).collect())
        .collect()
}

#[test]
fn best_kept_and_rollback_target() {
    let rows = read_history(TSV, 1, 1);
    let vals = values(&rows);
    assert_eq!(kept_indices(&rows), vec![0, 1, 3]);
    assert_eq!(best_kept_row(&rows, &vals, Direction::Maximize), Some(3));
    assert_eq!(best_kept_row(&rows, &vals, Direction::Minimize), Some(0));
    let start = "s0".to_string();
    assert_eq!(initial_best_commit(&rows, &vals, Direction::Maximize, &start), "a54fe56");
    assert_eq!(initial_best_commit(&rows, &vals, Direction::Minimize, &start), "s0");
    let empty = read_history("h\n", 1, 1);
    assert_eq!(initial_best_commit(&empty, &vec![], Direction::Minimize, &start), "s0");
}

#[test]
fn best_commit_for_diff() {
    let rows = read_history(TSV, 1, 1);
    let firsts: Vec<Option<Num>> =
        rows.iter().map(|r| r.metric_texts[0].parse::<f64>().ok().map(num)).collect();
    assert_eq!(best_kept_commit(&rows, &firsts, Direction::Maximize), Some("a54fe56".to_string()));
    assert_eq!(best_kept_commit(&rows, &firsts, Direction::Minimize), Some("af694fe".to_string()));
    let only_base = read_history("h\nbaseline\t1\tkeep\tb\n", 1, 0);
    let f: Vec<Option<Num>> = vec![Some(num(1.0))];
    assert_eq!(best_kept_commit(&only_base, &f, Direction::Maximize), None);
}

#[test]
fn improvement_single_and_pareto() {
    let rows = read_history(TSV, 1, 1);
    let vals = values(&rows);
    let ds = vec![Direction::Maximize];
    assert!(is_improvement(&rows, &vals, &vec![num(80000.0)], num(80000.0), &ds, false));
    assert!(!is_improvement(&rows, &vals, &vec![num(71396.70)], num(71396.70), &ds, false));
    let empty = read_history("h\n", 1, 1);
    assert!(is_improvement(&empty, &vec![], &vec![num(1.0)], num(1.0), &ds, false));

    let tsv = "h\nbaseline\t10\t5\tkeep\tb\nx1\t20\t9\tkeep\td\n";
    let rows = read_history(tsv, 2, 0);
    let vals = values(&rows);
    let ds = vec![Direction::Maximize, Direction::Minimize];
    // Trades throughput for latency: no kept row dominates it.
    assert!(is_improvement(&rows, &vals, &vec![num(15.0), num(4.0)], num(15.0), &ds, true));
    // Worse than x1 in one metric and no better in the other.
    assert!(!is_improvement(&rows, &vals, &vec![num(19.0), num(9.0)], num(19.0), &ds, true));
}

#[test]
fn dominance_is_irreflexive_asymmetric_and_transitive_without_nan() {
    let ds = vec![Direction::Maximize, Direction::Maximize];
    let a = vec![num(3.0), num(2.0)];
    let b = vec![num(2.0), num(2.0)];
    let c = vec![num(1.0), num(1.0)];
    assert!(!pareto_dominates(&a, &a, &ds));
    assert!(pareto_dominates(&a, &b, &ds));
    assert!(!pareto_dominates(&b, &a, &ds));
    assert!(pareto_dominates(&b, &c, &ds));
    assert!(pareto_dominates(&a, &c, &ds));
}

#[test]
fn a_nan_breaks_transitivity() {
    let ds = vec![Direction::Maximize, Direction::Maximize];
    let a = vec![num(2.0), num(0.0)];
    let b = vec![num(1.0), num(f64::NAN)];
    let c = vec![num(0.0), num(5.0)];
    assert!(pareto_dominates(&a, &b, &ds));
    assert!(pareto_dominates(&b, &c, &ds));
    assert!(!pareto_dominates(&a, &c, &ds));
}

#[test]
fn single_metric_keep_needs_to_beat_every_kept_value() {
    let tsv = "h\nbaseline\t10\tkeep\tb\nx1\t30\tkeep\td\nx2\t50\tdiscard\te\n";
    let rows = read_history(tsv, 1, 0);
    let vals = values(&rows);
    let ds = vec![Direction::Maximize];
    assert!(is_improvement(&rows, &vals, &vec![num(31.0)], num(31.0), &ds, false));
    assert!(!is_improvement(&rows, &vals, &vec![num(30.0)], num(30.0), &ds, false));
    assert!(!is_improvement(&rows, &vals, &vec![num(20.0)], num(20.0), &ds, false));
    let ds = vec![Direction::Minimize];
    assert!(is_improvement(&rows, &vals, &vec![num(9.0)], num(9.0), &ds, false));
    assert!(!is_improvement(&rows, &vals, &vec![num(10.0)], num(10.0), &ds, false));
}

fn replay(results: &[Vec<f64>], ds: &[Direction]) -> Vec<Vec<f64>> {
    let mut tsv = String::from("h\n");
    let multi = ds.len() > 1;
    for (i, r) in results.iter().enumerate() {
        let rows = read_history(&tsv, ds.len(), 0);
        let vals = values(&rows);
        let cand: Vec<Num> = r.iter().map(|x| num(*x)).collect();
        let keep = is_improvement(&rows, &vals, &cand, cand[0], &ds.to_vec(), multi);
        let texts: Vec<String> = r.iter().map(|x| format!("{:.2}", x)).collect();
        tsv.push_str(&format!(
            "c{}\t{}\t{}\tattempt\n",
            i,
            texts.join("\t"),
            if keep { "keep" } else { "discard" }
        ));
    }
    read_history(&tsv, ds.len(), 0)
        .iter()
        .filter(|r| r.status == "keep")
        .map(|r| r.metric_texts.iter().map(|t| t.parse().unwrap()).collect())
        .collect()
}

#[test]
fn kept_values_only_ratchet_forward() {
    let results: Vec<Vec<f64>> =
        [10.0, 5.0, 12.0, 12.0, 20.0, 3.0].iter().map(|x| vec![*x]).collect();
    assert_eq!(replay(&results, &[Direction::Maximize]), vec![vec![10.0], vec![12.0], vec![20.0]]);
    assert_eq!(replay(&results, &[Direction::Minimize]), vec![vec![10.0], vec![5.0], vec![3.0]]);
}

#[test]
fn pareto_keeps_trade_offs_but_not_dominated_results() {
    let ds = [Direction::Maximize, Direction::Minimize];
    let results = vec![
        vec![10.0, 5.0],
        vec![9.0, 6.0],
        vec![12.0, 7.0],
        vec![8.0, 4.0],
        vec![11.0, 7.0],
    ];
    let kept = replay(&results, &ds);
    assert_eq!(kept, vec![vec![10.0, 5.0], vec![12.0, 7.0], vec![8.0, 4.0]]);
}

#[test]
fn appending_a_row_reads_back_as_that_row() {
    let mut tsv = String::from(TSV);
    let before = read_history(&tsv, 1, 1);
    let values = vec!["123.45".to_string(), "100.00".to_string()];
    tsv.push_str(&result_line("b00c1e5", &values, "keep", " radix sort "));
    tsv.push('\n');
    let after = read_history(&tsv, 1, 1);
    assert_eq!(after.len(), before.len() + 1);
    for (a, b) in after.iter().zip(before.iter()) {
        assert_eq!(a.num, b.num);
        assert_eq!(a.commit, b.commit);
        assert_eq!(a.description, b.description);
    }
    let r = &after[before.len()];
    assert_eq!(r.num, 7);
    assert_eq!(r.commit, "b00c1e5");
    assert_eq!(r.metric_texts, vec!["123.45"]);
    assert_eq!(r.status, "keep");
    assert_eq!(r.description, "radix sort");
    assert_eq!(result_line("c", &vec![], "s", "d"), "c\ts\td");
}
