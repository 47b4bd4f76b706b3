use ratchet::config::{default_agent_timeout, default_timeout, Config, ConfigError, Constraint, Direction, Metric};
use ratchet::decide::prompt_baseline;
use ratchet::num::Num;

fn metric(name: &str, grep: &str, direction: Direction) -> Metric {
    Metric { name: name.to_string(), grep: grep.to_string(), direction }
}

fn constraint(name: &str, grep: &str, fail_below: Option<f64>) -> Constraint {
    Constraint {
        name: name.to_string(),
        grep: grep.to_string(),
        warn_above: None,
        warn_below: None,
        fail_above: None,
        fail_below: fail_below.map(|v| Num { bits: v.to_bits() }),
    }
}

fn base_config() -> Config {
    Config {
        name: "sort-benchmark".to_string(),
        editable: vec!["sort.py".to_string()],
        readonly: vec!["benchmark.py".to_string()],
        run: "python3 benchmark.py".to_string(),
        metric: Some(metric("throughput", "^throughput:", Direction::Maximize)),
        metrics: vec![],
        constraints: vec![constraint("correctness", "^correctness:", Some(100.0))],
        timeout: default_timeout(),
        context: None,
        baseline: None,
        agent: None,
        agent_timeout: default_agent_timeout(),
        max_iterations: None,
        patience: None,
    }
}

fn err(c: &Config) -> String {
    c.validate().unwrap_err().message()
}

#[test]
fn defaults() {
    assert_eq!(default_timeout(), 600);
    assert_eq!(default_agent_timeout(), 1800);
}

#[test]
fn valid_config_passes() {
    assert!(base_config().validate().is_ok());
}

#[test]
fn each_check_reports_its_error() {
    let mut c = base_config();
    c.editable.clear();
    assert!(matches!(c.validate(), Err(ConfigError::NoEditable)));
    assert_eq!(err(&c), "'editable' must list at least one file");

    let mut c = base_config();
    c.name = "  \t".to_string();
    assert_eq!(err(&c), "'name' must not be empty");

    let mut c = base_config();
    c.run = String::new();
    assert_eq!(err(&c), "'run' must not be empty");

    let mut c = base_config();
    c.metric = None;
    assert_eq!(err(&c), "either 'metric' or 'metrics' must be given");

    let mut c = base_config();
    c.metrics = vec![metric("a", "^a:", Direction::Minimize)];
    assert_eq!(err(&c), "use either 'metric' or 'metrics', not both");

    let mut c = base_config();
    c.metric = Some(metric(" ", "^x:", Direction::Maximize));
    assert_eq!(err(&c), "'metric.name' must not be empty");

    let mut c = base_config();
    c.metric = Some(metric("x", "", Direction::Maximize));
    assert_eq!(err(&c), "'metric.grep' must not be empty");

    let mut c = base_config();
    c.timeout = 0;
    assert_eq!(err(&c), "'timeout' must be greater than 0");

    let mut c = base_config();
    c.constraints = vec![constraint("throughput", "^t:", Some(1.0))];
    assert_eq!(err(&c), "constraint name 'throughput' collides with the primary metric name");

    let mut c = base_config();
    c.constraints = vec![constraint("", "^t:", Some(1.0))];
    assert_eq!(err(&c), "constraint 'name' must not be empty");

    let mut c = base_config();
    c.constraints = vec![constraint("mem", " ", Some(1.0))];
    assert_eq!(err(&c), "constraint 'grep' must not be empty");

    let mut c = base_config();
    c.constraints = vec![constraint("mem", "^mem:", None)];
    assert_eq!(
        err(&c),
        "constraint 'mem' must have at least one of: warn_above, warn_below, fail_above, fail_below"
    );

    let mut c = base_config();
    c.baseline = Some(vec![("correctness".to_string(), Num { bits: 100f64.to_bits() })]);
    assert_eq!(err(&c), "baseline must include the primary metric 'throughput'");
}

#[test]
fn first_failing_check_wins() {
    let mut c = base_config();
    c.name = String::new();
    c.timeout = 0;
    assert!(matches!(c.validate(), Err(ConfigError::EmptyName)));
}

#[test]
fn baseline_with_primary_metric_passes() {
    let mut c = base_config();
    c.baseline = Some(vec![("throughput".to_string(), Num { bits: 85f64.to_bits() })]);
    assert!(c.validate().is_ok());
}

#[test]
fn grep_pattern_and_columns() {
    let c = base_config();
    assert_eq!(c.grep_pattern(), "^throughput:\\|^correctness:");
    assert_eq!(c.tsv_columns(), vec!["commit", "throughput", "correctness", "status", "description"]);
}

#[test]
fn multi_metric_config() {
    let mut c = base_config();
    c.metric = None;
    c.metrics = vec![
        metric("requests_per_sec", "^requests_per_sec:", Direction::Maximize),
        metric("latency_p99", "^latency_p99:", Direction::Minimize),
    ];
    assert!(c.validate().is_ok());
    assert!(c.is_multi_metric());
    assert_eq!(c.first_metric().name, "requests_per_sec");
    assert_eq!(c.primary_metrics().len(), 2);
    assert_eq!(
        c.tsv_columns(),
        vec!["commit", "requests_per_sec", "latency_p99", "correctness", "status", "description"]
    );
    assert_eq!(c.grep_pattern(), "^requests_per_sec:\\|^latency_p99:\\|^correctness:");
    assert_eq!(c.metric_names(), vec!["requests_per_sec", "latency_p99", "correctness"]);
}

#[test]
fn single_metric_is_not_multi() {
    let c = base_config();
    assert!(!c.is_multi_metric());
    assert_eq!(c.first_metric().name, "throughput");
}

#[test]
fn direction_words() {
    assert_eq!(Direction::Maximize.word(), "maximize");
    assert_eq!(Direction::Minimize.word(), "minimize");
    assert_eq!(Direction::Maximize.symbol(), "^");
    assert_eq!(Direction::Minimize.better_phrase(), "lower is better");
}

#[test]
fn baseline_readings_default_to_zero() {
    let mut c = base_config();
    c.baseline = Some(vec![("throughput".to_string(), Num { bits: 85f64.to_bits() })]);
    let rs = c.baseline_readings().unwrap();
    assert_eq!(rs.len(), 2);
    assert_eq!(rs[0].name, "throughput");
    assert_eq!(f64::from_bits(rs[0].value.bits), 85.0);
    assert_eq!(rs[1].name, "correctness");
    assert_eq!(rs[1].value.bits, 0);
    assert!(base_config().baseline_readings().is_none());
}

#[test]
fn prompt_reference_value() {
    let mut c = base_config();
    let seven = Num { bits: 7f64.to_bits() };
    assert_eq!(prompt_baseline(Some(seven), &c).bits, seven.bits);
    assert_eq!(prompt_baseline(None, &c).bits, 0);
    c.baseline = Some(vec![
        ("correctness".to_string(), Num { bits: 100f64.to_bits() }),
        ("throughput".to_string(), Num { bits: 85f64.to_bits() }),
    ]);
    assert_eq!(f64::from_bits(prompt_baseline(None, &c).bits), 85.0);
}

#[test]
fn baseline_names_each_metric_once() {
    let mut c = base_config();
    let v = Num { bits: 1f64.to_bits() };
    c.baseline = Some(vec![
        ("throughput".to_string(), v),
        ("correctness".to_string(), v),
        ("throughput".to_string(), v),
    ]);
    assert!(matches!(c.validate(), Err(ConfigError::BaselineDuplicate(ref n)) if n == "throughput"));
    assert_eq!(err(&c), "baseline lists 'throughput' more than once");
    c.baseline = Some(vec![("correctness".to_string(), v), ("throughput".to_string(), v)]);
    assert!(c.validate().is_ok());
}
