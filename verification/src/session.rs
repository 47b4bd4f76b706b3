use vstd::prelude::*;
use vstd::utf8::{encode_utf8, is_char_boundary};

use crate::text::{
    byte_prefix, byte_prefix_of, chars_of, decimal, decimal_string, lines, lines_of, replace,
    replace_chars, same_text, starts_with, string_from, trim, trimmed, trimmed_string,
};

verus! {

// ---------------------------------------------------------------------------
// The loop's bookkeeping between iterations
// ---------------------------------------------------------------------------

/// Why the loop stops before an iteration.
#[derive(Debug, PartialEq, Eq, Structural)]
pub enum Stop {
    Interrupted,
    MaxIterations(usize),
    PatienceExhausted(usize),
}

/// How an iteration ended.
#[derive(Clone, Copy, Debug, PartialEq, Eq, Structural)]
pub enum Outcome {
    /// The agent failed or timed out.
    AgentError,
    /// The agent left the editable files unchanged.
    NoChanges,
    /// The benchmark failed or printed no metric.
    Crash,
    /// A hard constraint was broken.
    ConstraintViolation,
    /// The result improved on the kept ones.
    Keep,
    /// The result did not improve.
    Discard,
}

/// Counters and rollback target carried from one iteration to the next.
pub struct LoopState {
    pub iteration: usize,
    pub since_improvement: usize,
    /// The commit the editable files go back to: that of the best kept
    /// result, or the commit the loop started from while only the baseline
    /// has been kept.
    pub best_commit: String,
}

/// The state as plain values.
pub struct LoopView {
    pub iteration: nat,
    pub since_improvement: nat,
    pub best_commit: Seq<char>,
}

impl View for LoopState {
    type V = LoopView;

    open spec fn view(&self) -> LoopView {
        LoopView {
            iteration: self.iteration as nat,
            since_improvement: self.since_improvement as nat,
            best_commit: self.best_commit@,
        }
    }
}

/// Why the loop stops before the next iteration, checks taken in order:
/// an interrupt, then the iteration limit, then patience.
pub open spec fn stop_reason(
    iteration: nat,
    since_improvement: nat,
    interrupted: bool,
    max_iterations: Option<usize>,
    patience: Option<usize>,
) -> Option<Stop> {
    if interrupted {
        Some(Stop::Interrupted)
    } else if max_iterations is Some && iteration > max_iterations->0 {
        Some(Stop::MaxIterations(max_iterations->0))
    } else if patience is Some && since_improvement >= patience->0 {
        Some(Stop::PatienceExhausted(patience->0))
    } else {
        None
    }
}

/// The state after an iteration with outcome `o` on commit `commit`: a kept
/// result becomes the rollback target and resets the count of iterations
/// without improvement; any other outcome adds one to that count.
pub open spec fn after(s: LoopView, o: Outcome, commit: Seq<char>) -> LoopView {
    if o == Outcome::Keep {
        LoopView { iteration: s.iteration, since_improvement: 0, best_commit: commit }
    } else {
        LoopView {
            iteration: s.iteration,
            since_improvement: s.since_improvement + 1,
            best_commit: s.best_commit,
        }
    }
}

/// An iteration's outcome from what it observed, checks taken in the order
/// the loop makes them.
pub open spec fn outcome_of(
    agent_ok: bool,
    changed: bool,
    bench_ok: bool,
    has_metrics: bool,
    within_limits: bool,
    improved: bool,
) -> Outcome {
    if !agent_ok {
        Outcome::AgentError
    } else if !changed {
        Outcome::NoChanges
    } else if !bench_ok || !has_metrics {
        Outcome::Crash
    } else if !within_limits {
        Outcome::ConstraintViolation
    } else if improved {
        Outcome::Keep
    } else {
        Outcome::Discard
    }
}

/// Classifies an iteration (see `outcome_of`).
pub fn classify(
    agent_ok: bool,
    changed: bool,
    bench_ok: bool,
    has_metrics: bool,
    within_limits: bool,
    improved: bool,
) -> (o: Outcome)
    ensures
        o == outcome_of(agent_ok, changed, bench_ok, has_metrics, within_limits, improved),
{
    if !agent_ok {
        Outcome::AgentError
    } else if !changed {
        Outcome::NoChanges
    } else if !bench_ok || !has_metrics {
        Outcome::Crash
    } else if !within_limits {
        Outcome::ConstraintViolation
    } else if improved {
        Outcome::Keep
    } else {
        Outcome::Discard
    }
}

/// Outcomes after which the editable files go back to the best commit.
pub open spec fn reverts(o: Outcome) -> bool {
    o == Outcome::Crash || o == Outcome::ConstraintViolation || o == Outcome::Discard
}

/// The status recorded for an outcome that adds a row to the results table.
pub open spec fn status_text(o: Outcome) -> Seq<char> {
    match o {
        Outcome::Keep => "keep"@,
        Outcome::Discard => "discard"@,
        _ => "crash"@,
    }
}

/// The reason named in the rollback commit's message.
pub open spec fn revert_text(o: Outcome) -> Seq<char> {
    match o {
        Outcome::Crash => "crash"@,
        Outcome::ConstraintViolation => "constraint violation"@,
        _ => "no improvement"@,
    }
}

impl Outcome {
    /// Whether the editable files are rolled back after this outcome.
    pub fn rolls_back(&self) -> (r: bool)
        ensures
            r == reverts(*self),
    {
        match self {
            Outcome::Crash | Outcome::ConstraintViolation | Outcome::Discard => true,
            _ => false,
        }
    }

    /// The status written to the results table, for outcomes that add a row.
    pub fn status(&self) -> (r: Option<&'static str>)
        ensures
            (*self == Outcome::AgentError || *self == Outcome::NoChanges) <==> r is None,
            r matches Some(t) ==> t@ == status_text(*self),
    {
        match self {
            Outcome::AgentError | Outcome::NoChanges => None,
            Outcome::Crash | Outcome::ConstraintViolation => Some("crash"),
            Outcome::Keep => Some("keep"),
            Outcome::Discard => Some("discard"),
        }
    }

    /// Why the rollback commit was made, for outcomes that roll back.
    pub fn revert_reason(&self) -> (r: Option<&'static str>)
        ensures
            reverts(*self) <==> r is Some,
            r matches Some(t) ==> t@ == revert_text(*self),
    {
        match self {
            Outcome::Crash => Some("crash"),
            Outcome::ConstraintViolation => Some("constraint violation"),
            Outcome::Discard => Some("no improvement"),
            _ => None,
        }
    }
}

impl LoopState {
    /// The state before the first iteration, rolling back to `best_commit`
    /// (see `initial_best_commit`).
    pub fn new(best_commit: String) -> (s: LoopState)
        ensures
            s@ == (LoopView { iteration: 0, since_improvement: 0, best_commit: best_commit@ }),
            s.wf(),
    {
        LoopState { iteration: 0, since_improvement: 0, best_commit }
    }

    /// Iterations without improvement never outnumber iterations.
    pub open spec fn wf(&self) -> bool {
        self.since_improvement <= self.iteration
    }

    /// Starts the next iteration: counts it, then says whether the loop stops here.
    pub fn begin(&mut self, interrupted: bool, max_iterations: Option<usize>, patience: Option<usize>) -> (r:
        Option<Stop>)
        requires
            old(self).wf(),
            old(self).iteration < usize::MAX,
        ensures
            final(self)@ == (LoopView { iteration: old(self)@.iteration + 1, ..old(self)@ }),
            r == stop_reason(
                final(self)@.iteration,
                final(self)@.since_improvement,
                interrupted,
                max_iterations,
                patience,
            ),
            final(self).wf(),
            final(self).since_improvement < final(self).iteration,
    {
        self.iteration = self.iteration + 1;
        if interrupted {
            return Some(Stop::Interrupted);
        }
        match max_iterations {
            Some(max) => {
                if self.iteration > max {
                    return Some(Stop::MaxIterations(max));
                }
            },
            None => {},
        }
        match patience {
            Some(p) => {
                if self.since_improvement >= p {
                    return Some(Stop::PatienceExhausted(p));
                }
            },
            None => {},
        }
        None
    }

    /// Ends an iteration with outcome `o` on commit `commit` (see `after`),
    /// returning the commit to roll back to when `o` rolls back: the best
    /// state known before this iteration.
    pub fn finish(&mut self, o: Outcome, commit: &String) -> (rollback: Option<String>)
        requires
            old(self).since_improvement < old(self).iteration,
        ensures
            final(self)@ == after(old(self)@, o, commit@),
            final(self).wf(),
            reverts(o) <==> rollback is Some,
            rollback matches Some(t) ==> t@ == old(self)@.best_commit,
    {
        let rollback = if o.rolls_back() {
            Some(self.best_commit.clone())
        } else {
            None
        };
        if o == Outcome::Keep {
            self.best_commit = commit.clone();
            self.since_improvement = 0;
        } else {
            self.since_improvement = self.since_improvement + 1;
        }
        rollback
    }
}

/// The number of iterations at the end of `os` that did not keep their result.
pub open spec fn trailing_misses(os: Seq<Outcome>) -> nat
    decreases os.len(),
{
    if os.len() == 0 {
        0
    } else if os.last() == Outcome::Keep {
        0
    } else {
        trailing_misses(os.drop_last()) + 1
    }
}

/// The commit of the last kept iteration, if any.
pub open spec fn last_kept(os: Seq<Outcome>, cs: Seq<Seq<char>>) -> Option<Seq<char>>
    decreases os.len(),
{
    if os.len() == 0 {
        None
    } else if os.last() == Outcome::Keep {
        Some(cs[os.len() - 1])
    } else {
        last_kept(os.drop_last(), cs.drop_last())
    }
}

/// The state after a run of iterations with the given outcomes and commits.
pub open spec fn run(s: LoopView, os: Seq<Outcome>, cs: Seq<Seq<char>>) -> LoopView
    decreases os.len(),
{
    if os.len() == 0 {
        s
    } else {
        after(run(s, os.drop_last(), cs.drop_last()), os.last(), cs[os.len() - 1])
    }
}

/// Rollback to best: after any run of iterations, the rollback target is
/// the commit of the last kept iteration, or the one the run started with
/// if none was kept; the count of iterations without improvement is the
/// number of trailing iterations that kept nothing (when at least one was
/// kept).
pub proof fn lemma_run_tracks_best(s: LoopView, os: Seq<Outcome>, cs: Seq<Seq<char>>)
    requires
        os.len() == cs.len(),
    ensures
        run(s, os, cs).best_commit == (match last_kept(os, cs) {
            Some(c) => c,
            None => s.best_commit,
        }),
        run(s, os, cs).since_improvement == (if last_kept(os, cs) is Some {
            trailing_misses(os)
        } else {
            s.since_improvement + trailing_misses(os)
        }),
        run(s, os, cs).iteration == s.iteration,
    decreases os.len(),
{
    if os.len() > 0 {
        lemma_run_tracks_best(s, os.drop_last(), cs.drop_last());
    }
}

// ---------------------------------------------------------------------------
// Experiment branch and agent helpers
// ---------------------------------------------------------------------------

/// What to do about the current branch before the loop starts.
#[derive(Debug)]
pub enum BranchPlan {
    /// Already on an experiment branch of this name.
    Stay(String),
    /// On `main` or `master`: create a fresh experiment branch.
    Create,
    /// On another branch, which the loop refuses to touch.
    Refuse(String),
    /// `HEAD` is detached.
    Detached,
}

/// An experiment branch: its name starts with `ratchet/`.
pub open spec fn is_experiment_branch(name: Seq<char>) -> bool {
    starts_with(name, "ratchet/"@)
}

/// A branch experiment branches are made from.
pub open spec fn is_trunk(name: Seq<char>) -> bool {
    name == "main"@ || name == "master"@
}

/// Decides what to do about the current branch (`None`: detached `HEAD`):
/// experiment branches (`ratchet/*`) are used as they are, `main`/`master`
/// get a new experiment branch, anything else is refused.
pub fn branch_plan(current: &Option<String>) -> (p: BranchPlan)
    ensures
        current is None ==> p is Detached,
        current matches Some(n) ==> (if is_experiment_branch(n@) {
            p matches BranchPlan::Stay(m) && m@ == n@
        } else if is_trunk(n@) {
            p is Create
        } else {
            p matches BranchPlan::Refuse(m) && m@ == n@
        }),
{
    match current {
        None => BranchPlan::Detached,
        Some(name) => {
            let cs = chars_of(name.as_str());
            let prefix = chars_of("ratchet/");
            if crate::text::starts_with_chars(&cs, &prefix) {
                BranchPlan::Stay(name.clone())
            } else if same_text(name.as_str(), "main") || same_text(name.as_str(), "master") {
                BranchPlan::Create
            } else {
                BranchPlan::Refuse(name.clone())
            }
        },
    }
}

/// The experiment tag tried at attempt `n` (from 1): the date tag itself,
/// then `tag-2`, `tag-3`, and so on.
pub open spec fn tag_candidate(base: Seq<char>, n: nat) -> Seq<char> {
    if n <= 1 {
        base
    } else {
        base + seq!['-'] + decimal(n)
    }
}

/// The tag tried at attempt `n` (see `tag_candidate`).
pub fn experiment_tag(base: &String, n: usize) -> (t: String)
    ensures
        t@ == tag_candidate(base@, n as nat),
{
    if n <= 1 {
        base.clone()
    } else {
        let mut t = base.clone();
        t.append("-");
        let d = decimal_string(n);
        t.append(d.as_str());
        proof {
            reveal_strlit("-");
        }
        assert(t@ =~= base@ + seq!['-'] + decimal(n as nat));
        t
    }
}

/// The experiment branch for a tag: `ratchet/<tag>`.
pub fn experiment_branch(tag: &String) -> (b: String)
    ensures
        b@ == "ratchet/"@ + tag@,
{
    let mut b = String::from_str("ratchet/");
    b.append(tag.as_str());
    b
}

/// The agent command with every `{prompt}` replaced by the prompt file's path.
pub fn agent_command(template: &str, prompt_path: &str) -> (c: String)
    ensures
        c@ == replace(template@, "{prompt}"@, prompt_path@),
{
    let t = chars_of(template);
    let p = chars_of("{prompt}");
    let r = chars_of(prompt_path);
    proof {
        reveal_strlit("{prompt}");
    }
    let out = replace_chars(&t, &p, &r);
    string_from(&out)
}

/// The description of an agent's change taken from `git diff --stat`: the
/// trimmed last line of the trimmed output, or `agent edit` when there is none.
pub open spec fn change_line(stat: Seq<char>) -> Seq<char> {
    let ls = lines(trim(stat));
    if ls.len() == 0 {
        "agent edit"@
    } else {
        trim(ls.last())
    }
}

/// The change description, cut to its first 117 bytes followed by `...` when
/// it is longer than 120 bytes (its length in bytes taken as `str::len` gives it); `Err` carries the description when byte 117
/// falls inside a character, where cutting it fails.
pub fn summarize_change(stat: &str) -> (r: Result<String, String>)
    ensures
        r matches Ok(d) ==> (if (encode_utf8(change_line(stat@)).len() as usize) > 120 {
            d@ == byte_prefix(change_line(stat@), 117) + "..."@
        } else {
            d@ == change_line(stat@)
        }),
        r matches Err(d) ==> d@ == change_line(stat@) && (encode_utf8(change_line(stat@)).len() as usize) > 120
            && !is_char_boundary(encode_utf8(change_line(stat@)), 117),
        r is Err ==> (encode_utf8(change_line(stat@)).len() as usize) > 120,
{
    let cs = chars_of(stat);
    let t = trimmed(&cs);
    let ls = lines_of(&t);
    let line = if ls.len() == 0 {
        proof {
            reveal_strlit("agent edit");
        }
        String::from_str("agent edit")
    } else {
        let last = &ls[ls.len() - 1];
        assert(crate::text::views(ls@).last() == last@);
        trimmed_string(last)
    };
    assert(line@ == change_line(stat@));
    let ghost bytes = encode_utf8(line@);
    if line.as_str().len() > 120 {
        match byte_prefix_of(line.as_str(), 117) {
            Some(p) => {
                let mut d = p;
                d.append("...");
                Ok(d)
            },
            None => Err(line),
        }
    } else {
        Ok(line)
    }
}

/// The marker shown beside a status: `+` keep, `-` discard, `!` crash, `?` otherwise.
pub open spec fn marker_for(status: Seq<char>) -> Seq<char> {
    if status == "keep"@ {
        "+"@
    } else if status == "discard"@ {
        "-"@
    } else if status == "crash"@ {
        "!"@
    } else {
        "?"@
    }
}

/// The marker for a status (see `marker_for`).
pub fn status_marker(status: &str) -> (m: &'static str)
    ensures
        m@ == marker_for(status@),
{
    if same_text(status, "keep") {
        "+"
    } else if same_text(status, "discard") {
        "-"
    } else if same_text(status, "crash") {
        "!"
    } else {
        "?"
    }
}


// ---------------------------------------------------------------------------
// Decisions before the loop
// ---------------------------------------------------------------------------

/// What the loop does before its first iteration.
#[derive(Debug, PartialEq, Eq, Structural)]
pub enum StartStep {
    /// The results table holds no row: run the benchmark once as the baseline.
    EstablishBaseline,
    /// The table already holds rows: go on from them.
    Resume,
}

/// The step before the first iteration, from the number of rows in the table.
pub fn start_step(rows: usize) -> (s: StartStep)
    ensures
        rows == 0 <==> s == StartStep::EstablishBaseline,
{
    if rows == 0 {
        StartStep::EstablishBaseline
    } else {
        StartStep::Resume
    }
}

/// Whether the baseline run can be recorded: it succeeded and printed at
/// least one metric; otherwise the loop refuses to start.
pub fn baseline_accepted(success: bool, readings: usize) -> (r: bool)
    ensures
        r == (success && readings > 0),
{
    success && readings > 0
}

/// What to do after checking whether the experiment branch for tag attempt
/// `n` exists.
#[derive(Debug, PartialEq, Eq, Structural)]
pub enum TagStep {
    /// The branch is free: use attempt `n`'s tag.
    Take,
    /// The branch exists: check attempt `n + 1`.
    Next(usize),
}

/// The next step of the search for a free experiment tag, which tries
/// attempts `1, 2, 3, ...` (see `tag_candidate`) and takes the first whose
/// branch does not exist yet.
pub fn after_tag_probe(n: usize, taken: bool) -> (s: TagStep)
    requires
        taken ==> n < usize::MAX,
    ensures
        !taken ==> s == TagStep::Take,
        taken ==> s == TagStep::Next((n + 1) as usize),
{
    if taken {
        TagStep::Next(n + 1)
    } else {
        TagStep::Take
    }
}

} // verus!
