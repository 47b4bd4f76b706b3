use vstd::prelude::*;

use crate::compare::{best_index, best_pos};
use crate::config::{blank, columns, primaries, Config};
use crate::table::{blank_chars, data_lines, fields, rest_text};
use crate::text::{
    chars_of, join_from, lines, lines_of, same_text, split_on, string_views, trim, trimmed_string,
    views,
};

verus! {

/// One row of the scoreboard, fields trimmed; `strategy` is empty in tables without that column.
pub struct RunText {
    pub line: int,
    pub commit: Seq<char>,
    pub metrics: Seq<Seq<char>>,
    pub constraints: Seq<Seq<char>>,
    pub strategy: Seq<char>,
    pub status: Seq<char>,
    pub description: Seq<char>,
}

/// A scoreboard row; values stay text until read as numbers.
#[derive(Debug)]
pub struct RunRow {
    /// The row's line number, the header being line 1.
    pub line: usize,
    pub commit: String,
    pub metric_texts: Vec<String>,
    pub constraint_texts: Vec<String>,
    pub strategy: String,
    pub status: String,
    pub description: String,
}

impl View for RunRow {
    type V = RunText;

    open spec fn view(&self) -> RunText {
        RunText {
            line: self.line as int,
            commit: self.commit@,
            metrics: string_views(self.metric_texts@),
            constraints: string_views(self.constraint_texts@),
            strategy: self.strategy@,
            status: self.status@,
            description: self.description@,
        }
    }
}

/// Why a results table cannot be shown.
#[derive(Debug, PartialEq, Eq, Structural)]
pub enum TableError {
    /// The table has no header line.
    Empty,
    /// The header has `found` columns where `expected` were due.
    HeaderColumns { found: usize, expected: usize },
    /// Line `line` (counting the header as line 1) has fewer fields than due.
    ShortLine { line: usize, found: usize, expected: usize },
}

/// The rows read from a results table, up to the first row too short to
/// read, whose problem `stopped` holds.
#[derive(Debug)]
pub struct RunTable {
    pub has_strategy: bool,
    pub runs: Vec<RunRow>,
    pub stopped: Option<TableError>,
}

/// Some header field, trimmed, is `strategy`.
pub open spec fn has_strategy_column(header: Seq<char>) -> bool {
    exists|i: int| 0 <= i < fields(header).len() && trim(fields(header)[i]) == "strategy"@
}

/// The fields a data line needs.
pub open spec fn min_fields(nm: nat, nc: nat, strat: bool) -> nat {
    1 + nm + nc + if strat {
        3nat
    } else {
        2nat
    }
}

/// What a data line at position `idx` gives: nothing (blank), a row, or the
/// problem of a line with too few fields.
pub open spec fn run_of(line: Seq<char>, idx: int, nm: nat, nc: nat, strat: bool) -> Option<
    Result<RunText, TableError>,
> {
    let cols = fields(line);
    let base: int = 1 + nm as int + nc as int;
    if blank(line) {
        None
    } else if cols.len() < min_fields(nm, nc, strat) {
        Some(
            Err(
                TableError::ShortLine {
                    line: (idx + 2) as usize,
                    found: cols.len() as usize,
                    expected: min_fields(nm, nc, strat) as usize,
                },
            ),
        )
    } else {
        Some(
            Ok(
                RunText {
                    line: idx + 2,
                    commit: trim(cols[0]),
                    metrics: Seq::new(nm, |j: int| trim(cols[1 + j])),
                    constraints: Seq::new(nc, |j: int| trim(cols[1 + nm + j])),
                    strategy: if strat {
                        trim(cols[base])
                    } else {
                        Seq::empty()
                    },
                    status: trim(cols[if strat {
                        base + 1
                    } else {
                        base
                    }]),
                    description: rest_text(
                        cols,
                        if strat {
                            base + 2
                        } else {
                            base + 1
                        },
                    ),
                },
            ),
        )
    }
}

/// The rows of the first `n` data lines, and the problem that stopped the reading, if any.
pub open spec fn runs_upto(ls: Seq<Seq<char>>, n: int, nm: nat, nc: nat, strat: bool) -> (Seq<
    RunText,
>, Option<TableError>)
    decreases n,
{
    if n <= 0 {
        (Seq::empty(), None)
    } else {
        let prev = runs_upto(ls, n - 1, nm, nc, strat);
        if prev.1 is Some {
            prev
        } else {
            match run_of(ls[n - 1], n - 1, nm, nc, strat) {
                None => prev,
                Some(Ok(r)) => (prev.0.push(r), None),
                Some(Err(e)) => (prev.0, Some(e)),
            }
        }
    }
}

/// The views of a list of scoreboard rows.
pub open spec fn run_views(v: Seq<RunRow>) -> Seq<RunText> {
    v.map_values(|r: RunRow| r@)
}

/// Columns the header must have: those of the configuration, plus the
/// strategy column when the table has one.
pub open spec fn expected_columns(c: Config, strat: bool) -> int {
    columns(c).len() + if strat {
        1int
    } else {
        0int
    }
}

fn trimmed_range(cols: &Vec<Vec<char>>, from: usize, n: usize) -> (r: Vec<String>)
    requires
        from + n <= cols.len(),
    ensures
        string_views(r@) == Seq::new(n as nat, |j: int| trim(cols@[from + j]@)),
{
    let mut r: Vec<String> = Vec::new();
    let mut j: usize = 0;
    while j < n
        invariant
            from + n <= cols.len(),
            j <= n,
            string_views(r@) == Seq::new(j as nat, |k: int| trim(cols@[from + k]@)),
        decreases n - j,
    {
        let ghost old_v = string_views(r@);
        let t = trimmed_string(&cols[from + j]);
        r.push(t);
        assert(string_views(r@) =~= old_v.push(trim(cols@[from + j]@)));
        assert(Seq::new((j + 1) as nat, |k: int| trim(cols@[from + k]@)) =~= Seq::new(
            j as nat,
            |k: int| trim(cols@[from + k]@),
        ).push(trim(cols@[from + j]@)));
        j = j + 1;
    }
    r
}

/// What one data line gives (see `run_of`).
pub fn parse_run_line(line: &Vec<char>, idx: usize, nm: usize, nc: usize, strat: bool) -> (r: Option<
    Result<RunRow, TableError>,
>)
    requires
        nm + nc + 4 <= usize::MAX,
        idx + 2 <= usize::MAX,
    ensures
        r matches Some(Ok(row)) ==> run_of(line@, idx as int, nm as nat, nc as nat, strat) == Some(
            Ok::<RunText, TableError>(row@),
        ),
        r matches Some(Err(e)) ==> run_of(line@, idx as int, nm as nat, nc as nat, strat) == Some(
            Err::<RunText, TableError>(e),
        ),
        r is None ==> run_of(line@, idx as int, nm as nat, nc as nat, strat) is None,
{
    if blank_chars(line) {
        return None;
    }
    let cols = split_on(line, '\t');
    assert(views(cols@) == fields(line@));
    let base = 1 + nm + nc;
    let min = if strat {
        base + 2
    } else {
        base + 1
    };
    if cols.len() < min + 1 {
        assert(min + 1 == min_fields(nm as nat, nc as nat, strat));
        return Some(Err(TableError::ShortLine { line: idx + 2, found: cols.len(), expected: min + 1 }));
    }
    let commit = trimmed_string(&cols[0]);
    let metric_texts = trimmed_range(&cols, 1, nm);
    let constraint_texts = trimmed_range(&cols, 1 + nm, nc);
    let strategy = if strat {
        trimmed_string(&cols[base])
    } else {
        String::new()
    };
    let status_idx = if strat {
        base + 1
    } else {
        base
    };
    let status = trimmed_string(&cols[status_idx]);
    let joined = join_from(&cols, status_idx + 1, '\t');
    let description = trimmed_string(&joined);
    let row = RunRow {
        line: idx + 2,
        commit,
        metric_texts,
        constraint_texts,
        strategy,
        status,
        description,
    };
    assert(row@.metrics =~= Seq::new(nm as nat, |j: int| trim(fields(line@)[1 + j])));
    assert(row@.constraints =~= Seq::new(nc as nat, |j: int| trim(fields(line@)[1 + nm + j])));
    Some(Ok(row))
}

/// Reads the scoreboard from a results table: checks the header against
/// the configuration (allowing a strategy column), then reads the data
/// lines, stopping at the first one with too few fields.
pub fn read_runs(contents: &str, config: &Config) -> (r: Result<RunTable, TableError>)
    requires
        config.metrics.len() + config.constraints.len() + 5 <= usize::MAX,
    ensures
        lines(contents@).len() == 0 <==> r == Err::<RunTable, TableError>(TableError::Empty),
        r matches Err(TableError::HeaderColumns { found, expected }) ==> lines(contents@).len() > 0
            && found == fields(lines(contents@)[0]).len() && expected == expected_columns(
            *config,
            has_strategy_column(lines(contents@)[0]),
        ) && found != expected,
        r matches Err(e) ==> e is Empty || e is HeaderColumns,
        r matches Ok(t) ==> lines(contents@).len() > 0 && t.has_strategy == has_strategy_column(
            lines(contents@)[0],
        ) && fields(lines(contents@)[0]).len() == expected_columns(*config, t.has_strategy) && (
        run_views(t.runs@), t.stopped) == runs_upto(
            data_lines(contents@),
            data_lines(contents@).len() as int,
            primaries(*config).len(),
            config.constraints@.len(),
            t.has_strategy,
        ),
{
    let cs = chars_of(contents);
    let ls = lines_of(&cs);
    if ls.len() == 0 {
        return Err(TableError::Empty);
    }
    let header = split_on(&ls[0], '\t');
    assert(views(ls@)[0] == ls@[0]@);
    assert(views(header@) == fields(lines(contents@)[0]));
    let mut has_strategy = false;
    let mut i: usize = 0;
    while i < header.len()
        invariant
            i <= header.len(),
            has_strategy == exists|j: int| 0 <= j < i && trim(header@[j]@) == "strategy"@,
        decreases header.len() - i,
    {
        let t = trimmed_string(&header[i]);
        if same_text(t.as_str(), "strategy") {
            has_strategy = true;
        }
        i = i + 1;
    }
    assert(has_strategy == has_strategy_column(lines(contents@)[0])) by {
        if has_strategy {
            let j = choose|j: int| 0 <= j < header.len() && trim(header@[j]@) == "strategy"@;
            assert(views(header@)[j] == header@[j]@);
        }
        if has_strategy_column(lines(contents@)[0]) {
            let j = choose|j: int|
                0 <= j < fields(lines(contents@)[0]).len() && trim(fields(lines(contents@)[0])[j])
                    == "strategy"@;
            assert(views(header@)[j] == header@[j]@);
        }
    }
    let cols = config.tsv_columns();
    let ncols = cols.len();
    assert(string_views(cols@).len() == cols.len());
    assert(primaries(*config).len() <= config.metrics.len() + 1);
    assert(ncols == 3 + primaries(*config).len() + config.constraints@.len());
    let expected = if has_strategy {
        ncols + 1
    } else {
        ncols
    };
    if header.len() != expected {
        return Err(TableError::HeaderColumns { found: header.len(), expected });
    }
    let nm = config.primary_metrics().len();
    let nc = config.constraints.len();
    let mut runs: Vec<RunRow> = Vec::new();
    let mut stopped: Option<TableError> = None;
    let ghost dl = data_lines(contents@);
    assert(dl =~= views(ls@).skip(1));
    let mut k: usize = 1;
    while k < ls.len() && stopped.is_none()
        invariant
            nm + nc + 4 <= usize::MAX,
            1 <= k <= ls.len(),
            dl == views(ls@).skip(1),
            (run_views(runs@), stopped) == runs_upto(
                dl,
                k - 1,
                nm as nat,
                nc as nat,
                has_strategy,
            ),
        decreases ls.len() - k,
    {
        assert(dl[k - 1] == ls@[k as int]@);
        let ghost old_v = run_views(runs@);
        match parse_run_line(&ls[k], k - 1, nm, nc, has_strategy) {
            None => {},
            Some(Ok(row)) => {
                let ghost rv = row@;
                runs.push(row);
                assert(run_views(runs@) =~= old_v.push(rv));
            },
            Some(Err(e)) => {
                stopped = Some(e);
            },
        }
        k = k + 1;
    }
    if k < ls.len() {
        proof {
            lemma_runs_stop(dl, k - 1, nm as nat, nc as nat, has_strategy);
        }
    }
    Ok(RunTable { has_strategy, runs, stopped })
}

proof fn lemma_runs_stop(ls: Seq<Seq<char>>, n: int, nm: nat, nc: nat, strat: bool)
    requires
        0 <= n <= ls.len(),
        runs_upto(ls, n, nm, nc, strat).1 is Some,
    ensures
        runs_upto(ls, ls.len() as int, nm, nc, strat) == runs_upto(ls, n, nm, nc, strat),
    decreases ls.len() - n,
{
    if n < ls.len() {
        lemma_runs_stop(ls, n + 1, nm, nc, strat);
    }
}

/// How many rows have each status.
#[derive(Debug)]
pub struct StatusCounts {
    pub kept: usize,
    pub discarded: usize,
    pub crashed: usize,
}

/// Number of rows among the first `n` whose status is `s`.
pub open spec fn count_status(rs: Seq<RunText>, n: int, s: Seq<char>) -> nat
    decreases n,
{
    if n <= 0 {
        0
    } else {
        count_status(rs, n - 1, s) + if rs[n - 1].status == s {
            1nat
        } else {
            0nat
        }
    }
}

/// Counts the kept, discarded and crashed rows.
pub fn status_counts(runs: &Vec<RunRow>) -> (c: StatusCounts)
    ensures
        c.kept == count_status(run_views(runs@), runs.len() as int, "keep"@),
        c.discarded == count_status(run_views(runs@), runs.len() as int, "discard"@),
        c.crashed == count_status(run_views(runs@), runs.len() as int, "crash"@),
{
    let mut c = StatusCounts { kept: 0, discarded: 0, crashed: 0 };
    let mut i: usize = 0;
    while i < runs.len()
        invariant
            i <= runs.len(),
            c.kept == count_status(run_views(runs@), i as int, "keep"@),
            c.discarded == count_status(run_views(runs@), i as int, "discard"@),
            c.crashed == count_status(run_views(runs@), i as int, "crash"@),
            c.kept <= i && c.discarded <= i && c.crashed <= i,
        decreases runs.len() - i,
    {
        if same_text(runs[i].status.as_str(), "keep") {
            c.kept = c.kept + 1;
        }
        if same_text(runs[i].status.as_str(), "discard") {
            c.discarded = c.discarded + 1;
        }
        if same_text(runs[i].status.as_str(), "crash") {
            c.crashed = c.crashed + 1;
        }
        i = i + 1;
    }
    c
}

/// A strategy worth showing: not empty and not `-`.
pub open spec fn shown_strategy(s: Seq<char>) -> bool {
    s.len() > 0 && s != "-"@
}

/// Whether any row names a strategy worth showing.
pub fn any_strategy(runs: &Vec<RunRow>) -> (r: bool)
    ensures
        r == exists|i: int| 0 <= i < runs.len() && shown_strategy(runs@[i].strategy@),
{
    let mut i: usize = 0;
    while i < runs.len()
        invariant
            i <= runs.len(),
            forall|j: int| 0 <= j < i ==> !shown_strategy(runs@[j].strategy@),
        decreases runs.len() - i,
    {
        let cs = chars_of(runs[i].strategy.as_str());
        if cs.len() > 0 && !same_text(runs[i].strategy.as_str(), "-") {
            return true;
        }
        i = i + 1;
    }
    false
}

/// The strategy as shown: `-` for none.
pub fn strategy_display(s: &String) -> (r: String)
    ensures
        r@ == if shown_strategy(s@) {
            s@
        } else {
            "-"@
        },
{
    let cs = chars_of(s.as_str());
    if cs.len() == 0 || same_text(s.as_str(), "-") {
        String::from_str("-")
    } else {
        s.clone()
    }
}

/// Width of the scoreboard's rule lines.
pub open spec fn separator_width(multi: bool, nm: nat, show_strategy: bool) -> int {
    (if multi {
        76 + 14 * (nm - 1)
    } else {
        76int
    }) + if show_strategy {
        18int
    } else {
        0int
    }
}

/// Width of the scoreboard's rule lines for `nm` primary metrics.
pub fn separator_len(multi: bool, nm: usize, show_strategy: bool) -> (w: usize)
    requires
        multi ==> 1 <= nm && 14 * (nm - 1) + 94 <= usize::MAX,
    ensures
        w == separator_width(multi, nm as nat, show_strategy),
{
    let base = if multi {
        76 + 14 * (nm - 1)
    } else {
        76
    };
    if show_strategy {
        base + 18
    } else {
        base
    }
}

/// Positions of the rows whose status is `keep`.
pub fn kept_runs(runs: &Vec<RunRow>) -> (r: Vec<usize>)
    ensures
        forall|j: int| 0 <= j < r.len() ==> r@[j] < runs.len() && runs@[#[trigger] r@[j] as int].status@
            == "keep"@,
        forall|i: int|
            0 <= i < runs.len() && runs@[i].status@ == "keep"@ ==> r@.contains(i as usize),
        forall|j: int, k: int| 0 <= j < k < r.len() ==> r@[j] < r@[k],
{
    let mut r: Vec<usize> = Vec::new();
    let mut i: usize = 0;
    while i < runs.len()
        invariant
            i <= runs.len(),
            forall|j: int| 0 <= j < r.len() ==> r@[j] < i && runs@[#[trigger] r@[j] as int].status@
                == "keep"@,
            forall|x: int| 0 <= x < i && runs@[x].status@ == "keep"@ ==> r@.contains(x as usize),
            forall|j: int, k: int| 0 <= j < k < r.len() ==> r@[j] < r@[k],
        decreases runs.len() - i,
    {
        if same_text(runs[i].status.as_str(), "keep") {
            let ghost before = r@;
            r.push(i);
            assert forall|x: int| 0 <= x < i + 1 && runs@[x].status@ == "keep"@ implies r@.contains(
                x as usize,
            ) by {
                if x < i {
                    let w = choose|w: int| 0 <= w < before.len() && before[w] == x as usize;
                    assert(r@[w] == x as usize);
                } else {
                    assert(r@[r.len() - 1] == x as usize);
                }
            }
        }
        i = i + 1;
    }
    r
}

/// The values at the given positions.
pub open spec fn values_at(vals: Seq<crate::num::Num>, ps: Seq<usize>) -> Seq<crate::num::Num> {
    ps.map_values(|p: usize| vals[p as int])
}

/// The position (among `positions`) of the best value, picked as `max_by`
/// (for `Maximize`) or `min_by` (for `Minimize`) pick, if there is any.
pub fn best_at(
    values: &Vec<crate::num::Num>,
    positions: &Vec<usize>,
    d: crate::config::Direction,
) -> (r: Option<usize>)
    requires
        forall|j: int| 0 <= j < positions.len() ==> positions@[j] < values.len(),
    ensures
        positions.len() == 0 ==> r is None,
        positions.len() > 0 ==> (r matches Some(p) && p == positions@[best_pos(
            values_at(values@, positions@),
            d,
        )]),
{
    let mut vs: Vec<crate::num::Num> = Vec::new();
    let mut j: usize = 0;
    while j < positions.len()
        invariant
            forall|k: int| 0 <= k < positions.len() ==> positions@[k] < values.len(),
            j <= positions.len(),
            vs@ == values_at(values@, positions@.take(j as int)),
        decreases positions.len() - j,
    {
        vs.push(values[positions[j]]);
        assert(values_at(values@, positions@.take(j + 1)) =~= values_at(
            values@,
            positions@.take(j as int),
        ).push(values@[positions@[j as int] as int]));
        j = j + 1;
    }
    assert(positions@.take(positions.len() as int) =~= positions@);
    match best_index(&vs, d) {
        Some(b) => Some(positions[b]),
        None => None,
    }
}

/// A commit shortened to its first seven bytes (all of it when shorter);
/// `None` where byte seven falls inside a character, which slicing refuses.
pub fn short_commit(commit: &str) -> (r: Option<String>)
    ensures
        commit.len() > 7 && !vstd::utf8::is_char_boundary(vstd::utf8::encode_utf8(commit@), 7)
            <==> r is None,
        r matches Some(p) ==> p@ == (if commit.len() > 7 {
            crate::text::byte_prefix(commit@, 7)
        } else {
            commit@
        }),
{
    crate::text::byte_prefix_of(commit, 7)
}

/// The label of a chart bar: `base` for the baseline row, else the short commit.
pub fn point_label(commit: &str) -> (r: Option<String>)
    ensures
        commit@ == "baseline"@ ==> (r matches Some(l) && l@ == "base"@),
        commit@ != "baseline"@ ==> (commit.len() > 7 && !vstd::utf8::is_char_boundary(
            vstd::utf8::encode_utf8(commit@),
            7,
        ) <==> r is None),
        commit@ != "baseline"@ ==> (r matches Some(p) ==> p@ == (if commit.len() > 7 {
            crate::text::byte_prefix(commit@, 7)
        } else {
            commit@
        })),
{
    if same_text(commit, "baseline") {
        Some(String::from_str("base"))
    } else {
        short_commit(commit)
    }
}

} // verus!
