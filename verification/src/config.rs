use vstd::prelude::*;

use crate::num::Num;
use crate::text::{chars_of, join, join_strings, string_views, trim, trim_bounds};

verus! {

/// Whether a metric is to be raised or lowered.
#[derive(Clone, Copy, Debug, PartialEq, Eq, Structural)]
pub enum Direction {
    Maximize,
    Minimize,
}

/// A primary metric: how it is found in the benchmark output and which way is better.
#[derive(Debug)]
pub struct Metric {
    pub name: String,
    pub grep: String,
    pub direction: Direction,
}

/// A secondary metric with hard (`fail_*`) and soft (`warn_*`) limits.
#[derive(Debug)]
pub struct Constraint {
    pub name: String,
    pub grep: String,
    pub warn_above: Option<Num>,
    pub warn_below: Option<Num>,
    pub fail_above: Option<Num>,
    pub fail_below: Option<Num>,
}

/// The experiment configuration (`ratchet.yaml`).
///
/// Exactly one of `metric` (single-metric mode) and `metrics` (Pareto mode)
/// is given; `baseline` lists known values by metric name.
#[derive(Debug)]
pub struct Config {
    pub name: String,
    pub editable: Vec<String>,
    pub readonly: Vec<String>,
    pub run: String,
    pub metric: Option<Metric>,
    pub metrics: Vec<Metric>,
    pub constraints: Vec<Constraint>,
    pub timeout: u64,
    pub context: Option<String>,
    pub baseline: Option<Vec<(String, Num)>>,
    pub agent: Option<String>,
    pub agent_timeout: u64,
    pub max_iterations: Option<usize>,
    pub patience: Option<usize>,
}

/// Why a configuration was refused.
#[derive(Debug)]
pub enum ConfigError {
    NoEditable,
    EmptyName,
    EmptyRun,
    NoMetric,
    MetricAndMetrics,
    EmptyMetricName,
    EmptyMetricGrep,
    ZeroTimeout,
    ConstraintCollides(String),
    EmptyConstraintName,
    EmptyConstraintGrep,
    ConstraintWithoutLimits(String),
    BaselineMissesMetric(String),
    BaselineDuplicate(String),
}

impl Clone for Metric {
    fn clone(&self) -> (r: Self)
        ensures
            r == *self,
    {
        Metric { name: self.name.clone(), grep: self.grep.clone(), direction: self.direction }
    }
}

impl Clone for Constraint {
    fn clone(&self) -> (r: Self)
        ensures
            r == *self,
    {
        Constraint {
            name: self.name.clone(),
            grep: self.grep.clone(),
            warn_above: self.warn_above,
            warn_below: self.warn_below,
            fail_above: self.fail_above,
            fail_below: self.fail_below,
        }
    }
}

/// A copy of a list of metrics.
pub fn copy_metrics(v: &Vec<Metric>) -> (r: Vec<Metric>)
    ensures
        r@ == v@,
{
    let mut r: Vec<Metric> = Vec::new();
    let mut i: usize = 0;
    while i < v.len()
        invariant
            i <= v.len(),
            r@ == v@.take(i as int),
        decreases v.len() - i,
    {
        r.push(v[i].clone());
        assert(v@.take(i + 1) =~= v@.take(i as int).push(v@[i as int]));
        i = i + 1;
    }
    assert(v@.take(v.len() as int) =~= v@);
    r
}

/// The message for a refused configuration.
pub open spec fn error_message(e: ConfigError) -> Seq<char> {
    match e {
        ConfigError::NoEditable => "'editable' must list at least one file"@,
        ConfigError::EmptyName => "'name' must not be empty"@,
        ConfigError::EmptyRun => "'run' must not be empty"@,
        ConfigError::NoMetric => "either 'metric' or 'metrics' must be given"@,
        ConfigError::MetricAndMetrics => "use either 'metric' or 'metrics', not both"@,
        ConfigError::EmptyMetricName => "'metric.name' must not be empty"@,
        ConfigError::EmptyMetricGrep => "'metric.grep' must not be empty"@,
        ConfigError::ZeroTimeout => "'timeout' must be greater than 0"@,
        ConfigError::ConstraintCollides(n) => "constraint name '"@ + n@
            + "' collides with the primary metric name"@,
        ConfigError::EmptyConstraintName => "constraint 'name' must not be empty"@,
        ConfigError::EmptyConstraintGrep => "constraint 'grep' must not be empty"@,
        ConfigError::ConstraintWithoutLimits(n) => "constraint '"@ + n@
            + "' must have at least one of: warn_above, warn_below, fail_above, fail_below"@,
        ConfigError::BaselineMissesMetric(n) => "baseline must include the primary metric '"@ + n@
            + "'"@,
        ConfigError::BaselineDuplicate(n) => "baseline lists '"@ + n@ + "' more than once"@,
    }
}

impl ConfigError {
    /// The message reported for this error.
    pub fn message(&self) -> (m: String)
        ensures
            m@ == error_message(*self),
    {
        match self {
            ConfigError::NoEditable => String::from_str("'editable' must list at least one file"),
            ConfigError::EmptyName => String::from_str("'name' must not be empty"),
            ConfigError::EmptyRun => String::from_str("'run' must not be empty"),
            ConfigError::NoMetric => String::from_str("either 'metric' or 'metrics' must be given"),
            ConfigError::MetricAndMetrics => String::from_str(
                "use either 'metric' or 'metrics', not both",
            ),
            ConfigError::EmptyMetricName => String::from_str("'metric.name' must not be empty"),
            ConfigError::EmptyMetricGrep => String::from_str("'metric.grep' must not be empty"),
            ConfigError::ZeroTimeout => String::from_str("'timeout' must be greater than 0"),
            ConfigError::ConstraintCollides(n) => {
                let mut m = String::from_str("constraint name '");
                m.append(n.as_str());
                m.append("' collides with the primary metric name");
                m
            },
            ConfigError::EmptyConstraintName => String::from_str(
                "constraint 'name' must not be empty",
            ),
            ConfigError::EmptyConstraintGrep => String::from_str(
                "constraint 'grep' must not be empty",
            ),
            ConfigError::ConstraintWithoutLimits(n) => {
                let mut m = String::from_str("constraint '");
                m.append(n.as_str());
                m.append(
                    "' must have at least one of: warn_above, warn_below, fail_above, fail_below",
                );
                m
            },
            ConfigError::BaselineMissesMetric(n) => {
                let mut m = String::from_str("baseline must include the primary metric '");
                m.append(n.as_str());
                m.append("'");
                m
            },
            ConfigError::BaselineDuplicate(n) => {
                let mut m = String::from_str("baseline lists '");
                m.append(n.as_str());
                m.append("' more than once");
                m
            },
        }
    }
}

impl Direction {
    /// `maximize` or `minimize`.
    pub fn word(&self) -> (w: &'static str)
        ensures
            w@ == (if *self == Direction::Maximize {
                "maximize"@
            } else {
                "minimize"@
            }),
    {
        match self {
            Direction::Maximize => "maximize",
            Direction::Minimize => "minimize",
        }
    }

    /// `^` for a metric to raise, `v` for one to lower.
    pub fn symbol(&self) -> (w: &'static str)
        ensures
            w@ == (if *self == Direction::Maximize {
                "^"@
            } else {
                "v"@
            }),
    {
        match self {
            Direction::Maximize => "^",
            Direction::Minimize => "v",
        }
    }

    /// `higher is better` or `lower is better`.
    pub fn better_phrase(&self) -> (w: &'static str)
        ensures
            w@ == (if *self == Direction::Maximize {
                "higher is better"@
            } else {
                "lower is better"@
            }),
    {
        match self {
            Direction::Maximize => "higher is better",
            Direction::Minimize => "lower is better",
        }
    }
}

/// Default benchmark timeout in seconds.
pub fn default_timeout() -> (t: u64)
    ensures
        t == 600,
{
    600
}

/// Default agent timeout in seconds.
pub fn default_agent_timeout() -> (t: u64)
    ensures
        t == 1800,
{
    1800
}

/// A text is blank when nothing but whitespace is in it.
pub open spec fn blank(s: Seq<char>) -> bool {
    trim(s).len() == 0
}

/// Whether `s` is blank (`s.trim().is_empty()`).
pub fn is_blank(s: &str) -> (r: bool)
    ensures
        r == blank(s@),
{
    let cs = chars_of(s);
    let (lo, hi) = trim_bounds(&cs);
    lo == hi
}

/// The primary metrics: `metrics` when given, else the single `metric`.
pub open spec fn primaries(c: Config) -> Seq<Metric> {
    if c.metrics@.len() > 0 {
        c.metrics@
    } else {
        match c.metric {
            Some(m) => seq![m],
            None => Seq::empty(),
        }
    }
}

/// Some primary metric is named `name`.
pub open spec fn names_primary(ms: Seq<Metric>, name: Seq<char>) -> bool {
    exists|i: int| 0 <= i < ms.len() && ms[i].name@ == name
}

/// The first problem with the primary metrics, in declaration order.
pub open spec fn metrics_error(ms: Seq<Metric>) -> Option<ConfigError>
    decreases ms.len(),
{
    if ms.len() == 0 {
        None
    } else if blank(ms[0].name@) {
        Some(ConfigError::EmptyMetricName)
    } else if blank(ms[0].grep@) {
        Some(ConfigError::EmptyMetricGrep)
    } else {
        metrics_error(ms.drop_first())
    }
}

/// The problem with one constraint, checks taken in order.
pub open spec fn constraint_error(k: Constraint, ms: Seq<Metric>) -> Option<ConfigError> {
    if names_primary(ms, k.name@) {
        Some(ConfigError::ConstraintCollides(k.name))
    } else if blank(k.name@) {
        Some(ConfigError::EmptyConstraintName)
    } else if blank(k.grep@) {
        Some(ConfigError::EmptyConstraintGrep)
    } else if k.warn_above is None && k.warn_below is None && k.fail_above is None
        && k.fail_below is None {
        Some(ConfigError::ConstraintWithoutLimits(k.name))
    } else {
        None
    }
}

/// The problem with the first faulty constraint.
pub open spec fn constraints_error(ks: Seq<Constraint>, ms: Seq<Metric>) -> Option<ConfigError>
    decreases ks.len(),
{
    if ks.len() == 0 {
        None
    } else {
        match constraint_error(ks[0], ms) {
            Some(e) => Some(e),
            None => constraints_error(ks.drop_first(), ms),
        }
    }
}

/// Position of the first baseline entry (among the first `n`) whose name an
/// earlier entry already has.
pub open spec fn repeat_upto(b: Seq<(String, Num)>, n: int) -> Option<int>
    decreases n,
{
    if n <= 0 {
        None
    } else {
        match repeat_upto(b, n - 1) {
            Some(k) => Some(k),
            None => if exists|i: int| 0 <= i < n - 1 && (#[trigger] b[i]).0@ == b[n - 1].0@ {
                Some(n - 1)
            } else {
                None
            },
        }
    }
}

/// Every metric name occurs at most once in the baseline, as in a map.
pub open spec fn distinct_keys(b: Seq<(String, Num)>) -> bool {
    forall|i: int, j: int| 0 <= i < j < b.len() ==> b[i].0@ != b[j].0@
}

/// The baseline, when given, lists `name`.
pub open spec fn baseline_has(b: Seq<(String, Num)>, name: Seq<char>) -> bool {
    exists|i: int| 0 <= i < b.len() && b[i].0@ == name
}

/// The first problem with a configuration, in the order the fields are checked.
pub open spec fn config_error(c: Config) -> Option<ConfigError> {
    if c.editable@.len() == 0 {
        Some(ConfigError::NoEditable)
    } else if blank(c.name@) {
        Some(ConfigError::EmptyName)
    } else if blank(c.run@) {
        Some(ConfigError::EmptyRun)
    } else if c.metric is Some && c.metrics@.len() > 0 {
        Some(ConfigError::MetricAndMetrics)
    } else if primaries(c).len() == 0 {
        Some(ConfigError::NoMetric)
    } else if metrics_error(primaries(c)) is Some {
        metrics_error(primaries(c))
    } else if c.timeout == 0 {
        Some(ConfigError::ZeroTimeout)
    } else if constraints_error(c.constraints@, primaries(c)) is Some {
        constraints_error(c.constraints@, primaries(c))
    } else {
        match c.baseline {
            Some(b) => if repeat_upto(b@, b@.len() as int) is Some {
                Some(ConfigError::BaselineDuplicate(b@[repeat_upto(b@, b@.len() as int)->0].0))
            } else if baseline_has(b@, primaries(c)[0].name@) {
                None
            } else {
                Some(ConfigError::BaselineMissesMetric(primaries(c)[0].name))
            },
            None => None,
        }
    }
}

/// A configuration that passes `validate`.
pub open spec fn valid(c: Config) -> bool {
    config_error(c) is None
}

/// The greps of the primary metrics followed by those of the constraints.
pub open spec fn all_greps(c: Config) -> Seq<Seq<char>> {
    primaries(c).map_values(|m: Metric| m.grep@) + c.constraints@.map_values(
        |k: Constraint| k.grep@,
    )
}

/// Header of the results table.
pub open spec fn columns(c: Config) -> Seq<Seq<char>> {
    seq!["commit"@] + primaries(c).map_values(|m: Metric| m.name@) + c.constraints@.map_values(
        |k: Constraint| k.name@,
    ) + seq!["status"@, "description"@]
}

proof fn lemma_repeat_upto(b: Seq<(String, Num)>, n: int)
    requires
        0 <= n <= b.len(),
    ensures
        repeat_upto(b, n) matches Some(k) ==> 0 <= k < n,
        repeat_upto(b, n) is None ==> forall|i: int, j: int| 0 <= i < j < n ==> b[i].0@ != b[j].0@,
    decreases n,
{
    if n > 0 {
        lemma_repeat_upto(b, n - 1);
    }
}

/// A valid configuration's baseline names each metric at most once.
pub proof fn lemma_valid_baseline_distinct(c: Config)
    requires
        valid(c),
        c.baseline is Some,
    ensures
        distinct_keys(c.baseline->0@),
{
    lemma_repeat_upto(c.baseline->0@, c.baseline->0@.len() as int);
}

/// Position of the first baseline entry whose name an earlier one has.
fn first_repeat(b: &Vec<(String, Num)>) -> (r: Option<usize>)
    ensures
        r matches Some(k) ==> repeat_upto(b@, b@.len() as int) == Some(k as int) && k < b.len(),
        r is None ==> repeat_upto(b@, b@.len() as int) is None,
{
    let mut j: usize = 0;
    while j < b.len()
        invariant
            j <= b.len(),
            repeat_upto(b@, j as int) is None,
        decreases b.len() - j,
    {
        let mut i: usize = 0;
        while i < j
            invariant
                i <= j < b.len(),
                repeat_upto(b@, j as int) is None,
                forall|x: int| 0 <= x < i ==> b@[x].0@ != b@[j as int].0@,
            decreases j - i,
        {
            if b[i].0 == b[j].0 {
                assert(b@[i as int].0@ == b@[j as int].0@);
                assert(repeat_upto(b@, j + 1) == Some(j as int));
                proof {
                    lemma_repeat_stays(b, j + 1);
                }
                return Some(j);
            }
            i = i + 1;
        }
        assert(!exists|x: int| 0 <= x < j && (#[trigger] b@[x]).0@ == b@[j as int].0@);
        j = j + 1;
    }
    None
}

proof fn lemma_repeat_stays(b: &Vec<(String, Num)>, n: int)
    requires
        0 <= n <= b@.len(),
        repeat_upto(b@, n) is Some,
    ensures
        repeat_upto(b@, b@.len() as int) == repeat_upto(b@, n),
    decreases b@.len() - n,
{
    if n < b@.len() {
        lemma_repeat_stays(b, n + 1);
    }
}

impl Config {
    /// The primary metrics, in order.
    pub fn primary_metrics(&self) -> (r: Vec<Metric>)
        ensures
            r@ == primaries(*self),
    {
        if self.metrics.len() > 0 {
            copy_metrics(&self.metrics)
        } else {
            match &self.metric {
                Some(m) => {
                    let mut v: Vec<Metric> = Vec::new();
                    v.push(m.clone());
                    assert(v@ =~= seq![*m]);
                    v
                },
                None => Vec::new(),
            }
        }
    }

    /// The first primary metric.
    pub fn first_metric(&self) -> (m: &Metric)
        requires
            primaries(*self).len() > 0,
        ensures
            *m == primaries(*self)[0],
    {
        if self.metrics.len() > 0 {
            &self.metrics[0]
        } else {
            match &self.metric {
                Some(m) => m,
                None => &self.metrics[0],
            }
        }
    }

    /// More than one primary metric: results are compared by Pareto dominance.
    pub fn is_multi_metric(&self) -> (r: bool)
        ensures
            r == (primaries(*self).len() > 1),
    {
        self.metrics.len() > 1
    }

    fn some_primary_named(&self, name: &String) -> (r: bool)
        ensures
            r == names_primary(primaries(*self), name@),
    {
        let ms = self.primary_metrics();
        let mut i: usize = 0;
        while i < ms.len()
            invariant
                ms@ == primaries(*self),
                i <= ms.len(),
                forall|j: int| 0 <= j < i ==> ms@[j].name@ != name@,
            decreases ms.len() - i,
        {
            if ms[i].name == *name {
                return true;
            }
            i = i + 1;
        }
        false
    }

    fn check_constraint(&self, k: &Constraint) -> (r: Option<ConfigError>)
        ensures
            r == constraint_error(*k, primaries(*self)),
    {
        if self.some_primary_named(&k.name) {
            Some(ConfigError::ConstraintCollides(k.name.clone()))
        } else if is_blank(k.name.as_str()) {
            Some(ConfigError::EmptyConstraintName)
        } else if is_blank(k.grep.as_str()) {
            Some(ConfigError::EmptyConstraintGrep)
        } else if k.warn_above.is_none() && k.warn_below.is_none() && k.fail_above.is_none()
            && k.fail_below.is_none() {
            Some(ConfigError::ConstraintWithoutLimits(k.name.clone()))
        } else {
            None
        }
    }

    /// Checks the configuration, reporting the first problem found.
    #[verifier::loop_isolation(false)]
    pub fn validate(&self) -> (r: Result<(), ConfigError>)
        ensures
            r matches Err(e) ==> config_error(*self) == Some(e),
            r is Ok <==> valid(*self),
    {
        if self.editable.len() == 0 {
            return Err(ConfigError::NoEditable);
        }
        if is_blank(self.name.as_str()) {
            return Err(ConfigError::EmptyName);
        }
        if is_blank(self.run.as_str()) {
            return Err(ConfigError::EmptyRun);
        }
        if self.metric.is_some() && self.metrics.len() > 0 {
            return Err(ConfigError::MetricAndMetrics);
        }
        let ms = self.primary_metrics();
        if ms.len() == 0 {
            return Err(ConfigError::NoMetric);
        }
        let mut i: usize = 0;
        assert(ms@.skip(0) =~= ms@);
        while i < ms.len()
            invariant
                ms@ == primaries(*self),
                i <= ms.len(),
                metrics_error(ms@) == metrics_error(ms@.skip(i as int)),
            decreases ms.len() - i,
        {
            assert(ms@.skip(i as int).drop_first() =~= ms@.skip(i + 1));
            assert(ms@.skip(i as int)[0] == ms@[i as int]);
            if is_blank(ms[i].name.as_str()) {
                return Err(ConfigError::EmptyMetricName);
            }
            if is_blank(ms[i].grep.as_str()) {
                return Err(ConfigError::EmptyMetricGrep);
            }
            i = i + 1;
        }
        assert(ms@.skip(ms.len() as int).len() == 0);
        if self.timeout == 0 {
            return Err(ConfigError::ZeroTimeout);
        }
        let mut j: usize = 0;
        assert(self.constraints@.skip(0) =~= self.constraints@);
        while j < self.constraints.len()
            invariant
                j <= self.constraints.len(),
                constraints_error(self.constraints@, primaries(*self)) == constraints_error(
                    self.constraints@.skip(j as int),
                    primaries(*self),
                ),
            decreases self.constraints.len() - j,
        {
            assert(self.constraints@.skip(j as int).drop_first() =~= self.constraints@.skip(j + 1));
            assert(self.constraints@.skip(j as int)[0] == self.constraints@[j as int]);
            match self.check_constraint(&self.constraints[j]) {
                Some(e) => {
                    return Err(e);
                },
                None => {},
            }
            j = j + 1;
        }
        assert(self.constraints@.skip(self.constraints.len() as int).len() == 0);
        match &self.baseline {
            Some(b) => {
                match first_repeat(b) {
                    Some(k) => {
                        return Err(ConfigError::BaselineDuplicate(b[k].0.clone()));
                    },
                    None => {},
                }
                let first = &ms[0].name;
                let mut k: usize = 0;
                while k < b.len()
                    invariant
                        k <= b.len(),
                        forall|x: int| 0 <= x < k ==> b@[x].0@ != first@,
                    decreases b.len() - k,
                {
                    if b[k].0 == *first {
                        return Ok(());
                    }
                    k = k + 1;
                }
                Err(ConfigError::BaselineMissesMetric(first.clone()))
            },
            None => Ok(()),
        }
    }

    /// The combined grep pattern for all metrics: every grep joined by `\|`.
    pub fn grep_pattern(&self) -> (r: String)
        ensures
            r@ == join(all_greps(*self), "\\|"@),
    {
        let ms = self.primary_metrics();
        let mut parts: Vec<String> = Vec::new();
        let mut i: usize = 0;
        while i < ms.len()
            invariant
                ms@ == primaries(*self),
                i <= ms.len(),
                string_views(parts@) == ms@.take(i as int).map_values(|m: Metric| m.grep@),
            decreases ms.len() - i,
        {
            let ghost old_v = string_views(parts@);
            parts.push(ms[i].grep.clone());
            assert(string_views(parts@) =~= old_v.push(ms@[i as int].grep@));
            assert(ms@.take(i + 1).map_values(|m: Metric| m.grep@) =~= ms@.take(i as int).map_values(
                |m: Metric| m.grep@,
            ).push(ms@[i as int].grep@));
            assert(string_views(parts@) =~= ms@.take(i + 1).map_values(|m: Metric| m.grep@));
            i = i + 1;
        }
        assert(ms@.take(ms.len() as int) =~= ms@);
        let mut j: usize = 0;
        while j < self.constraints.len()
            invariant
                j <= self.constraints.len(),
                string_views(parts@) == primaries(*self).map_values(|m: Metric| m.grep@)
                    + self.constraints@.take(j as int).map_values(|k: Constraint| k.grep@),
            decreases self.constraints.len() - j,
        {
            let ghost old_v = string_views(parts@);
            parts.push(self.constraints[j].grep.clone());
            assert(string_views(parts@) =~= old_v.push(self.constraints@[j as int].grep@));
            assert(self.constraints@.take(j + 1).map_values(|k: Constraint| k.grep@)
                =~= self.constraints@.take(j as int).map_values(|k: Constraint| k.grep@).push(
                self.constraints@[j as int].grep@,
            ));
            assert(string_views(parts@) =~= primaries(*self).map_values(|m: Metric| m.grep@)
                + self.constraints@.take(j + 1).map_values(|k: Constraint| k.grep@));
            j = j + 1;
        }
        assert(self.constraints@.take(self.constraints.len() as int) =~= self.constraints@);
        assert(string_views(parts@) =~= all_greps(*self));
        join_strings(&parts, "\\|")
    }

    /// The columns of the results table.
    pub fn tsv_columns(&self) -> (r: Vec<String>)
        ensures
            string_views(r@) == columns(*self),
    {
        let ms = self.primary_metrics();
        let mut cols: Vec<String> = Vec::new();
        cols.push(String::from_str("commit"));
        let mut i: usize = 0;
        while i < ms.len()
            invariant
                ms@ == primaries(*self),
                i <= ms.len(),
                string_views(cols@) == seq!["commit"@] + ms@.take(i as int).map_values(
                    |m: Metric| m.name@,
                ),
            decreases ms.len() - i,
        {
            let ghost old_v = string_views(cols@);
            cols.push(ms[i].name.clone());
            assert(string_views(cols@) =~= old_v.push(ms@[i as int].name@));
            assert(ms@.take(i + 1).map_values(|m: Metric| m.name@) =~= ms@.take(i as int).map_values(
                |m: Metric| m.name@,
            ).push(ms@[i as int].name@));
            assert(string_views(cols@) =~= seq!["commit"@] + ms@.take(i + 1).map_values(
                |m: Metric| m.name@,
            ));
            i = i + 1;
        }
        assert(ms@.take(ms.len() as int) =~= ms@);
        let mut j: usize = 0;
        while j < self.constraints.len()
            invariant
                j <= self.constraints.len(),
                string_views(cols@) == seq!["commit"@] + primaries(*self).map_values(
                    |m: Metric| m.name@,
                ) + self.constraints@.take(j as int).map_values(|k: Constraint| k.name@),
            decreases self.constraints.len() - j,
        {
            let ghost old_v = string_views(cols@);
            cols.push(self.constraints[j].name.clone());
            assert(string_views(cols@) =~= old_v.push(self.constraints@[j as int].name@));
            assert(self.constraints@.take(j + 1).map_values(|k: Constraint| k.name@)
                =~= self.constraints@.take(j as int).map_values(|k: Constraint| k.name@).push(
                self.constraints@[j as int].name@,
            ));
            assert(string_views(cols@) =~= seq!["commit"@] + primaries(*self).map_values(
                |m: Metric| m.name@,
            ) + self.constraints@.take(j + 1).map_values(|k: Constraint| k.name@));
            j = j + 1;
        }
        assert(self.constraints@.take(self.constraints.len() as int) =~= self.constraints@);
        cols.push(String::from_str("status"));
        cols.push(String::from_str("description"));
        assert(string_views(cols@) =~= columns(*self));
        cols
    }
}


/// What a valid configuration guarantees: editable files, a name and a run
/// command; exactly one of `metric` and `metrics`; a name and a grep for
/// every primary metric; a positive timeout; every constraint (each one, not
/// only the first) clear of the primary names, named, with a grep and at
/// least one limit; and a baseline, when given, that names the first primary
/// metric, each metric at most once.
pub proof fn lemma_valid_means(c: Config)
    requires
        valid(c),
    ensures
        c.editable@.len() > 0,
        trim(c.name@).len() > 0,
        trim(c.run@).len() > 0,
        !(c.metric is Some && c.metrics@.len() > 0),
        primaries(c).len() > 0,
        forall|i: int|
            0 <= i < primaries(c).len() ==> trim((#[trigger] primaries(c)[i]).name@).len() > 0
                && trim(primaries(c)[i].grep@).len() > 0,
        c.timeout > 0,
        forall|i: int|
            #![trigger c.constraints@[i]]
            0 <= i < c.constraints@.len() ==> {
                let k = c.constraints@[i];
                &&& forall|j: int| 0 <= j < primaries(c).len() ==> primaries(c)[j].name@ != k.name@
                &&& trim(k.name@).len() > 0
                &&& trim(k.grep@).len() > 0
                &&& (k.warn_above is Some || k.warn_below is Some || k.fail_above is Some
                    || k.fail_below is Some)
            },
        c.baseline matches Some(b) ==> (exists|i: int|
            0 <= i < b@.len() && (#[trigger] b@[i]).0@ == primaries(c)[0].name@),
        c.baseline matches Some(b) ==> distinct_keys(b@),
{
    lemma_metrics_error_none(primaries(c));
    lemma_constraints_error_none(c.constraints@, primaries(c));
    if c.baseline is Some {
        lemma_valid_baseline_distinct(c);
    }
}

proof fn lemma_metrics_error_none(ms: Seq<Metric>)
    requires
        metrics_error(ms) is None,
    ensures
        forall|i: int|
            0 <= i < ms.len() ==> trim((#[trigger] ms[i]).name@).len() > 0 && trim(ms[i].grep@).len()
                > 0,
    decreases ms.len(),
{
    if ms.len() > 0 {
        lemma_metrics_error_none(ms.drop_first());
        assert forall|i: int| 0 <= i < ms.len() implies trim((#[trigger] ms[i]).name@).len() > 0
            && trim(ms[i].grep@).len() > 0 by {
            if i > 0 {
                assert(ms[i] == ms.drop_first()[i - 1]);
            }
        }
    }
}

proof fn lemma_constraints_error_none(ks: Seq<Constraint>, ms: Seq<Metric>)
    requires
        constraints_error(ks, ms) is None,
    ensures
        forall|i: int| 0 <= i < ks.len() ==> constraint_error(#[trigger] ks[i], ms) is None,
    decreases ks.len(),
{
    if ks.len() > 0 {
        lemma_constraints_error_none(ks.drop_first(), ms);
        assert forall|i: int| 0 <= i < ks.len() implies constraint_error(#[trigger] ks[i], ms) is None by {
            if i > 0 {
                assert(ks[i] == ks.drop_first()[i - 1]);
            }
        }
    }
}


proof fn lemma_metrics_error_from(ms: Seq<Metric>)
    requires
        forall|i: int|
            0 <= i < ms.len() ==> trim((#[trigger] ms[i]).name@).len() > 0 && trim(ms[i].grep@).len()
                > 0,
    ensures
        metrics_error(ms) is None,
    decreases ms.len(),
{
    if ms.len() > 0 {
        assert(trim(ms[0].name@).len() > 0);
        assert forall|i: int| 0 <= i < ms.drop_first().len() implies trim(
            (#[trigger] ms.drop_first()[i]).name@,
        ).len() > 0 && trim(ms.drop_first()[i].grep@).len() > 0 by {
            assert(ms.drop_first()[i] == ms[i + 1]);
        }
        lemma_metrics_error_from(ms.drop_first());
    }
}

proof fn lemma_constraints_error_from(ks: Seq<Constraint>, ms: Seq<Metric>)
    requires
        forall|i: int| 0 <= i < ks.len() ==> constraint_error(#[trigger] ks[i], ms) is None,
    ensures
        constraints_error(ks, ms) is None,
    decreases ks.len(),
{
    if ks.len() > 0 {
        assert(constraint_error(ks[0], ms) is None);
        assert forall|i: int| 0 <= i < ks.drop_first().len() implies constraint_error(
            #[trigger] ks.drop_first()[i],
            ms,
        ) is None by {
            assert(ks.drop_first()[i] == ks[i + 1]);
        }
        lemma_constraints_error_from(ks.drop_first(), ms);
    }
}

proof fn lemma_repeat_none_from(b: Seq<(String, Num)>, n: int)
    requires
        0 <= n <= b.len(),
        distinct_keys(b),
    ensures
        repeat_upto(b, n) is None,
    decreases n,
{
    if n > 0 {
        lemma_repeat_none_from(b, n - 1);
        assert(!exists|i: int| 0 <= i < n - 1 && (#[trigger] b[i]).0@ == b[n - 1].0@);
    }
}

/// A configuration that meets every requirement `lemma_valid_means` lists
/// is valid: `validate` refuses nothing else.
pub proof fn lemma_valid_from(c: Config)
    requires
        c.editable@.len() > 0,
        trim(c.name@).len() > 0,
        trim(c.run@).len() > 0,
        !(c.metric is Some && c.metrics@.len() > 0),
        primaries(c).len() > 0,
        forall|i: int|
            0 <= i < primaries(c).len() ==> trim((#[trigger] primaries(c)[i]).name@).len() > 0
                && trim(primaries(c)[i].grep@).len() > 0,
        c.timeout > 0,
        forall|i: int|
            #![trigger c.constraints@[i]]
            0 <= i < c.constraints@.len() ==> {
                let k = c.constraints@[i];
                &&& forall|j: int| 0 <= j < primaries(c).len() ==> primaries(c)[j].name@ != k.name@
                &&& trim(k.name@).len() > 0
                &&& trim(k.grep@).len() > 0
                &&& (k.warn_above is Some || k.warn_below is Some || k.fail_above is Some
                    || k.fail_below is Some)
            },
        c.baseline matches Some(b) ==> (exists|i: int|
            0 <= i < b@.len() && (#[trigger] b@[i]).0@ == primaries(c)[0].name@),
        c.baseline matches Some(b) ==> distinct_keys(b@),
    ensures
        valid(c),
{
    lemma_metrics_error_from(primaries(c));
    assert forall|i: int| 0 <= i < c.constraints@.len() implies constraint_error(
        #[trigger] c.constraints@[i],
        primaries(c),
    ) is None by {
        let k = c.constraints@[i];
        assert(!names_primary(primaries(c), k.name@));
    }
    lemma_constraints_error_from(c.constraints@, primaries(c));
    match c.baseline {
        Some(b) => {
            lemma_repeat_none_from(b@, b@.len() as int);
        },
        None => {},
    }
}

} // verus!
