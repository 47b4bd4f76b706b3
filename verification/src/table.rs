use vstd::prelude::*;

use crate::config::blank;
use crate::text::{
    chars_of, is_ws, join, join_from, join_strings, lines, lines_of, split, split_on, string_views,
    strip_cr, trim, trim_bounds, trim_end, trim_start, trimmed_string, views,
};

verus! {

/// One row of the results table as the loop reads it back: its position
/// among the data lines (from 1), and the trimmed fields.
pub struct RowText {
    pub num: int,
    pub commit: Seq<char>,
    pub metrics: Seq<Seq<char>>,
    pub status: Seq<char>,
    pub description: Seq<char>,
}

/// A parsed row of the results table; metric values stay text until parsed as numbers.
#[derive(Debug)]
pub struct HistoryRow {
    pub num: usize,
    pub commit: String,
    pub metric_texts: Vec<String>,
    pub status: String,
    pub description: String,
}

impl View for HistoryRow {
    type V = RowText;

    open spec fn view(&self) -> RowText {
        RowText {
            num: self.num as int,
            commit: self.commit@,
            metrics: string_views(self.metric_texts@),
            status: self.status@,
            description: self.description@,
        }
    }
}

/// The lines after the header.
pub open spec fn data_lines(s: Seq<char>) -> Seq<Seq<char>> {
    if lines(s).len() == 0 {
        Seq::empty()
    } else {
        lines(s).skip(1)
    }
}

/// The fields of a tab-separated line.
pub open spec fn fields(line: Seq<char>) -> Seq<Seq<char>> {
    split(line, '\t')
}

/// The trimmed description: every field from `from` on, rejoined with tabs.
pub open spec fn rest_text(cols: Seq<Seq<char>>, from: int) -> Seq<char> {
    trim(join(cols.skip(from), seq!['\t']))
}

/// The row that the data line at position `idx` yields, if any: blank lines
/// and lines with fewer than `nm + nc + 3` fields are passed over.
pub open spec fn row_of(line: Seq<char>, idx: int, nm: nat, nc: nat) -> Option<RowText> {
    let cols = fields(line);
    if blank(line) || cols.len() < nm + nc + 3 {
        None
    } else {
        Some(
            RowText {
                num: idx + 1,
                commit: trim(cols[0]),
                metrics: Seq::new(nm, |j: int| trim(cols[1 + j])),
                status: trim(cols[1 + nm + nc as int]),
                description: rest_text(cols, 2 + nm + nc as int),
            },
        )
    }
}

/// The rows of the first `n` data lines.
pub open spec fn rows_upto(ls: Seq<Seq<char>>, n: int, nm: nat, nc: nat) -> Seq<RowText>
    decreases n,
{
    if n <= 0 {
        Seq::empty()
    } else {
        let prev = rows_upto(ls, n - 1, nm, nc);
        match row_of(ls[n - 1], n - 1, nm, nc) {
            Some(r) => prev.push(r),
            None => prev,
        }
    }
}

/// The history a results table holds.
pub open spec fn history(s: Seq<char>, nm: nat, nc: nat) -> Seq<RowText> {
    rows_upto(data_lines(s), data_lines(s).len() as int, nm, nc)
}

/// The views of a list of rows.
pub open spec fn row_views(v: Seq<HistoryRow>) -> Seq<RowText> {
    v.map_values(|r: HistoryRow| r@)
}

/// The trimmed fields `cols[from..from + n]`.
fn trimmed_fields(cols: &Vec<Vec<char>>, from: usize, n: usize) -> (r: Vec<String>)
    requires
        from + n <= cols.len(),
    ensures
        string_views(r@) == Seq::new(n as nat, |j: int| trim(cols@[from + j]@)),
{
    let mut r: Vec<String> = Vec::new();
    let mut j: usize = 0;
    while j < n
        invariant
            from + n <= cols.len(),
            j <= n,
            string_views(r@) == Seq::new(j as nat, |k: int| trim(cols@[from + k]@)),
        decreases n - j,
    {
        let ghost old_v = string_views(r@);
        let t = trimmed_string(&cols[from + j]);
        r.push(t);
        assert(string_views(r@) =~= old_v.push(trim(cols@[from + j]@)));
        assert(Seq::new((j + 1) as nat, |k: int| trim(cols@[from + k]@)) =~= Seq::new(
            j as nat,
            |k: int| trim(cols@[from + k]@),
        ).push(trim(cols@[from + j]@)));
        j = j + 1;
    }
    r
}

/// Whether the characters are blank.
pub fn blank_chars(line: &Vec<char>) -> (r: bool)
    ensures
        r == blank(line@),
{
    let (lo, hi) = trim_bounds(line);
    lo == hi
}

/// The row one data line yields (see `row_of`).
pub fn parse_history_line(line: &Vec<char>, idx: usize, nm: usize, nc: usize) -> (r: Option<
    HistoryRow,
>)
    requires
        nm + nc + 3 <= usize::MAX,
        idx < usize::MAX,
    ensures
        r matches Some(row) ==> row_of(line@, idx as int, nm as nat, nc as nat) == Some(row@),
        r is None ==> row_of(line@, idx as int, nm as nat, nc as nat) is None,
{
    if blank_chars(line) {
        return None;
    }
    let cols = split_on(line, '\t');
    assert(views(cols@) == fields(line@));
    if cols.len() < nm + nc + 3 {
        return None;
    }
    let commit = trimmed_string(&cols[0]);
    let metric_texts = trimmed_fields(&cols, 1, nm);
    let status = trimmed_string(&cols[1 + nm + nc]);
    let joined = join_from(&cols, 2 + nm + nc, '\t');
    let description = trimmed_string(&joined);
    let row = HistoryRow { num: idx + 1, commit, metric_texts, status, description };
    assert(views(cols@)[0] == cols@[0]@);
    assert(row@.metrics =~= Seq::new(nm as nat, |j: int| trim(fields(line@)[1 + j])));
    Some(row)
}

/// Whether the table has a header line.
pub fn has_header(contents: &str) -> (r: bool)
    ensures
        r == (lines(contents@).len() > 0),
{
    let cs = chars_of(contents);
    let ls = lines_of(&cs);
    ls.len() > 0
}

/// Parses the history that a results table holds: one row for each data
/// line that is not blank and has at least `nm + nc + 3` tab-separated fields.
pub fn read_history(contents: &str, num_metrics: usize, num_constraints: usize) -> (r: Vec<
    HistoryRow,
>)
    requires
        num_metrics + num_constraints + 3 <= usize::MAX,
    ensures
        row_views(r@) == history(contents@, num_metrics as nat, num_constraints as nat),
{
    let cs = chars_of(contents);
    let ls = lines_of(&cs);
    let mut rows: Vec<HistoryRow> = Vec::new();
    if ls.len() == 0 {
        return rows;
    }
    let ghost dl = data_lines(contents@);
    assert(dl =~= views(ls@).skip(1));
    let mut i: usize = 1;
    while i < ls.len()
        invariant
            num_metrics + num_constraints + 3 <= usize::MAX,
            1 <= i <= ls.len(),
            dl == views(ls@).skip(1),
            row_views(rows@) == rows_upto(dl, i - 1, num_metrics as nat, num_constraints as nat),
        decreases ls.len() - i,
    {
        assert(dl[i - 1] == ls@[i as int]@);
        let ghost old_v = row_views(rows@);
        match parse_history_line(&ls[i], i - 1, num_metrics, num_constraints) {
            Some(row) => {
                let ghost rv = row@;
                rows.push(row);
                assert(row_views(rows@) =~= old_v.push(rv));
            },
            None => {},
        }
        i = i + 1;
    }
    rows
}


// ---------------------------------------------------------------------------
// Appending a row
// ---------------------------------------------------------------------------

/// `c` does not occur in `s`.
pub open spec fn free_of(s: Seq<char>, c: char) -> bool {
    forall|i: int| 0 <= i < s.len() ==> s[i] != c
}

/// A field that keeps its place in a row: no tab or newline in it.
pub open spec fn plain_field(s: Seq<char>) -> bool {
    free_of(s, '\t') && free_of(s, '\n')
}

/// The text of a results row: commit, metric and constraint values, status
/// and description, separated by tabs.
pub open spec fn row_text(commit: Seq<char>, values: Seq<Seq<char>>, status: Seq<char>, description: Seq<char>) -> Seq<char> {
    join(seq![commit] + values + seq![status, description], seq!['\t'])
}

/// The text of a results row (see `row_text`).
pub fn result_line(commit: &str, values: &Vec<String>, status: &str, description: &str) -> (r: String)
    ensures
        r@ == row_text(commit@, string_views(values@), status@, description@),
{
    let mut parts: Vec<String> = Vec::new();
    parts.push(String::from_str(commit));
    let mut i: usize = 0;
    while i < values.len()
        invariant
            i <= values.len(),
            string_views(parts@) == seq![commit@] + string_views(values@).take(i as int),
        decreases values.len() - i,
    {
        let ghost before = string_views(parts@);
        parts.push(values[i].clone());
        assert(string_views(parts@) =~= before.push(values@[i as int]@));
        assert(string_views(values@).take(i + 1) =~= string_views(values@).take(i as int).push(
            values@[i as int]@,
        ));
        assert(string_views(parts@) =~= seq![commit@] + string_views(values@).take(i + 1));
        i = i + 1;
    }
    let ghost before = string_views(parts@);
    parts.push(String::from_str(status));
    parts.push(String::from_str(description));
    assert(string_views(values@).take(values.len() as int) =~= string_views(values@));
    assert(string_views(parts@) =~= seq![commit@] + string_views(values@) + seq![status@, description@]);
    proof {
        reveal_strlit("\t");
    }
    assert("\t"@ =~= seq!['\t']);
    join_strings(&parts, "\t")
}

proof fn lemma_split_nonempty(s: Seq<char>, sep: char)
    ensures
        split(s, sep).len() >= 1,
    decreases s.len(),
{
    if s.len() > 0 {
        lemma_split_nonempty(s.drop_last(), sep);
    }
}

proof fn lemma_split_free(s: Seq<char>, sep: char)
    requires
        free_of(s, sep),
    ensures
        split(s, sep) == seq![s],
    decreases s.len(),
{
    if s.len() > 0 {
        lemma_split_free(s.drop_last(), sep);
        assert(s[s.len() - 1] != sep);
        assert(s.drop_last().push(s.last()) =~= s);
    } else {
        assert(s =~= Seq::<char>::empty());
    }
}

proof fn lemma_split_concat(a: Seq<char>, b: Seq<char>, sep: char)
    ensures
        split(a + seq![sep] + b, sep) == split(a, sep) + split(b, sep),
    decreases b.len(),
{
    let x = a + seq![sep] + b;
    if b.len() == 0 {
        assert(x.drop_last() =~= a);
        assert(split(b, sep) =~= seq![Seq::<char>::empty()]);
        assert(split(x, sep) =~= split(a, sep) + split(b, sep));
    } else {
        let bb = b.drop_last();
        lemma_split_concat(a, bb, sep);
        lemma_split_nonempty(bb, sep);
        lemma_split_nonempty(a, sep);
        assert(x.drop_last() =~= a + seq![sep] + bb);
        assert(x.last() == b.last());
        let rest = split(a, sep) + split(bb, sep);
        if b.last() == sep {
            assert(split(x, sep) =~= split(a, sep) + split(b, sep));
        } else {
            assert(rest.last() == split(bb, sep).last());
            assert(split(x, sep) =~= split(a, sep) + split(b, sep));
        }
    }
}

proof fn lemma_split_join(parts: Seq<Seq<char>>, sep: char)
    requires
        parts.len() > 0,
        forall|i: int| 0 <= i < parts.len() ==> free_of(#[trigger] parts[i], sep),
    ensures
        split(join(parts, seq![sep]), sep) == parts,
    decreases parts.len(),
{
    if parts.len() == 1 {
        lemma_split_free(parts[0], sep);
        assert(seq![parts[0]] =~= parts);
    } else {
        let pp = parts.drop_last();
        assert forall|i: int| 0 <= i < pp.len() implies free_of(#[trigger] pp[i], sep) by {
            assert(pp[i] == parts[i]);
        }
        lemma_split_join(pp, sep);
        assert(free_of(parts[parts.len() - 1], sep));
        lemma_split_free(parts.last(), sep);
        lemma_split_concat(join(pp, seq![sep]), parts.last(), sep);
        assert(join(pp, seq![sep]) + seq![sep] + parts.last() == join(parts, seq![sep]));
        assert(pp + seq![parts.last()] =~= parts);
    }
}

proof fn lemma_join_first(parts: Seq<Seq<char>>, sep: Seq<char>)
    requires
        parts.len() > 0,
    ensures
        join(parts, sep).len() >= parts[0].len(),
        forall|i: int| 0 <= i < parts[0].len() ==> join(parts, sep)[i] == parts[0][i],
    decreases parts.len(),
{
    if parts.len() > 1 {
        let pp = parts.drop_last();
        lemma_join_first(pp, sep);
        assert(pp[0] == parts[0]);
    }
}

proof fn lemma_lines_append(c: Seq<char>, line: Seq<char>)
    requires
        c.len() > 0,
        c.last() == '\n',
        free_of(line, '\n'),
        line.len() == 0 || line.last() != '\r',
    ensures
        lines(c + line + seq!['\n']) == lines(c).push(line),
        lines(c).len() > 0,
{
    let c0 = c.drop_last();
    let e = Seq::<char>::empty();
    assert(c =~= c0 + seq!['\n'] + e);
    lemma_split_concat(c0, e, '\n');
    assert(split(e, '\n') =~= seq![e]);
    lemma_split_nonempty(c0, '\n');
    let x = c + line + seq!['\n'];
    assert(x =~= (c0 + seq!['\n'] + line) + seq!['\n'] + e);
    lemma_split_concat(c0 + seq!['\n'] + line, e, '\n');
    lemma_split_concat(c0, line, '\n');
    lemma_split_free(line, '\n');
    let sc = split(c0, '\n');
    assert(split(c, '\n') =~= sc.push(e));
    assert(split(x, '\n') =~= sc.push(line).push(e));
    assert(strip_cr(line) == line);
    assert(lines(c) =~= sc.map_values(|l: Seq<char>| strip_cr(l)));
    assert(lines(x) =~= sc.push(line).map_values(|l: Seq<char>| strip_cr(l)));
    assert(lines(x) =~= lines(c).push(line));
}

proof fn lemma_rows_upto_push(ls: Seq<Seq<char>>, x: Seq<char>, n: int, nm: nat, nc: nat)
    requires
        n <= ls.len(),
    ensures
        rows_upto(ls.push(x), n, nm, nc) == rows_upto(ls, n, nm, nc),
    decreases n,
{
    if n > 0 {
        lemma_rows_upto_push(ls, x, n - 1, nm, nc);
        assert(ls.push(x)[n - 1] == ls[n - 1]);
    }
}

proof fn lemma_trim_end_keeps(s: Seq<char>, p: int)
    requires
        0 <= p < s.len(),
        !is_ws(s[p]),
    ensures
        trim_end(s).len() > p,
    decreases s.len(),
{
    if is_ws(s.last()) {
        assert(p < s.len() - 1);
        assert(s.drop_last()[p] == s[p]);
        lemma_trim_end_keeps(s.drop_last(), p);
    }
}

/// The row that a data line written by `row_text` reads back as.
pub open spec fn written_row(
    num: int,
    commit: Seq<char>,
    values: Seq<Seq<char>>,
    status: Seq<char>,
    description: Seq<char>,
    nm: nat,
) -> RowText {
    RowText {
        num,
        commit,
        metrics: Seq::new(nm, |j: int| trim(values[j])),
        status: trim(status),
        description: trim(description),
    }
}

/// Appending a row and reading the table back gives the old rows followed
/// by that row: for a table that ends with a newline after its header, a
/// commit that is not empty and is its own trim, and `nm + nc` values, a
/// status and a description, none of them holding a tab or a newline, with
/// no carriage return ending the description.
pub proof fn lemma_append_row(
    contents: Seq<char>,
    commit: Seq<char>,
    values: Seq<Seq<char>>,
    status: Seq<char>,
    description: Seq<char>,
    nm: nat,
    nc: nat,
)
    requires
        contents.len() > 0,
        contents.last() == '\n',
        commit.len() > 0,
        trim(commit) == commit,
        plain_field(commit),
        values.len() == nm + nc,
        forall|j: int| 0 <= j < values.len() ==> plain_field(#[trigger] values[j]),
        plain_field(status),
        plain_field(description),
        description.len() == 0 || description.last() != '\r',
    ensures
        history(contents + row_text(commit, values, status, description) + seq!['\n'], nm, nc)
            == history(contents, nm, nc).push(
            written_row(
                data_lines(contents).len() + 1int,
                commit,
                values,
                status,
                description,
                nm,
            ),
        ),
{
    let parts = seq![commit] + values + seq![status, description];
    let line = row_text(commit, values, status, description);
    assert(parts.len() == nm + nc + 3);
    assert(parts[0] == commit);
    assert forall|i: int| 0 <= i < parts.len() implies plain_field(#[trigger] parts[i]) by {
        if 1 <= i < 1 + values.len() {
            assert(parts[i] == values[i - 1]);
        }
    }
    // The line splits back into its fields.
    lemma_split_join(parts, '\t');
    assert(fields(line) == parts);
    // The line holds no newline and does not end with a carriage return.
    lemma_plain_join(parts);
    lemma_join_last(parts);
    assert(parts.last() == description);
    lemma_lines_append(contents, line);
    let x = contents + line + seq!['\n'];
    let dl = data_lines(contents);
    assert(data_lines(x) =~= dl.push(line));
    lemma_rows_upto_push(dl, line, dl.len() as int, nm, nc);
    // The line is not blank: it starts with the commit's first character,
    // which is no whitespace since the commit is its own trim.
    lemma_trim_no_longer(commit);
    lemma_join_first(parts, seq!['\t']);
    assert(line[0] == commit[0]);
    assert(!is_ws(line[0]));
    assert(trim_start(line) == line);
    lemma_trim_end_keeps(line, 0);
    assert(!blank(line));
    // The fields read back as written.
    assert(parts.skip(2 + nm + nc as int) =~= seq![description]);
    assert(rest_text(parts, 2 + nm + nc as int) == trim(description));
    assert(parts[1 + nm + nc as int] == status);
    assert(Seq::new(nm, |j: int| trim(parts[1 + j])) =~= Seq::new(nm, |j: int| trim(values[j])));
    assert(row_of(line, dl.len() as int, nm, nc) == Some(
        written_row(dl.len() + 1int, commit, values, status, description, nm),
    ));
}

proof fn lemma_trim_start_shorter(s: Seq<char>)
    ensures
        trim_start(s).len() <= s.len(),
        s.len() > 0 && is_ws(s[0]) ==> trim_start(s).len() < s.len(),
    decreases s.len(),
{
    if s.len() > 0 && is_ws(s[0]) {
        lemma_trim_start_shorter(s.drop_first());
    }
}

proof fn lemma_trim_end_shorter(s: Seq<char>)
    ensures
        trim_end(s).len() <= s.len(),
    decreases s.len(),
{
    if s.len() > 0 && is_ws(s.last()) {
        lemma_trim_end_shorter(s.drop_last());
    }
}

/// A text that is its own trim does not start with whitespace.
proof fn lemma_trim_no_longer(s: Seq<char>)
    requires
        s.len() > 0,
        trim(s) == s,
    ensures
        !is_ws(s[0]),
{
    lemma_trim_start_shorter(s);
    lemma_trim_end_shorter(trim_start(s));
}

proof fn lemma_join_last(parts: Seq<Seq<char>>)
    requires
        parts.len() >= 2,
    ensures
        join(parts, seq!['\t']).len() > 0,
        join(parts, seq!['\t']).last() == (if parts.last().len() > 0 {
            parts.last().last()
        } else {
            '\t'
        }),
{
}

proof fn lemma_plain_join(parts: Seq<Seq<char>>)
    requires
        forall|i: int| 0 <= i < parts.len() ==> plain_field(#[trigger] parts[i]),
    ensures
        free_of(join(parts, seq!['\t']), '\n'),
    decreases parts.len(),
{
    if parts.len() == 1 {
        assert(plain_field(parts[0]));
    } else if parts.len() > 1 {
        let pp = parts.drop_last();
        assert forall|i: int| 0 <= i < pp.len() implies plain_field(#[trigger] pp[i]) by {
            assert(pp[i] == parts[i]);
        }
        lemma_plain_join(pp);
        assert(plain_field(parts[parts.len() - 1]));
        let j = join(parts, seq!['\t']);
        let a = join(pp, seq!['\t']);
        assert forall|i: int| 0 <= i < j.len() implies j[i] != '\n' by {
            if i < a.len() {
                assert(j[i] == a[i]);
            } else if i > a.len() {
                assert(j[i] == parts.last()[i - a.len() - 1]);
            }
        }
    }
}

} // verus!
