use vstd::prelude::*;

use crate::decide::{kept, kept_indices, positions};
use crate::table::{row_views, HistoryRow, RowText};
use crate::text::{decimal, decimal_string, digit, join, join_strings, same_text, string_views};

verus! {

/// Number of rows, among those at positions `lo..hi`, whose status is not `keep`.
pub open spec fn misses_between(rs: Seq<RowText>, lo: int, hi: int) -> nat
    decreases hi - lo,
{
    if hi <= lo {
        0
    } else {
        misses_between(rs, lo, hi - 1) + if rs[hi - 1].status != "keep"@ {
            1nat
        } else {
            0nat
        }
    }
}

/// How many of the (at most five) latest rows kept nothing.
pub open spec fn recent_misses(rs: Seq<RowText>) -> nat {
    misses_between(rs, rs.len() - recent_window(rs), rs.len() as int)
}

/// The number of latest rows looked at: five, or all when there are fewer.
pub open spec fn recent_window(rs: Seq<RowText>) -> int {
    if rs.len() < 5 {
        rs.len() as int
    } else {
        5
    }
}

/// Positions (among the first `n`) of the discarded or crashed rows.
pub open spec fn failed_upto(rs: Seq<RowText>, n: int) -> Seq<int>
    decreases n,
{
    if n <= 0 {
        Seq::empty()
    } else {
        let p = failed_upto(rs, n - 1);
        if rs[n - 1].status == "discard"@ || rs[n - 1].status == "crash"@ {
            p.push(n - 1)
        } else {
            p
        }
    }
}

/// Positions of the discarded or crashed rows.
pub open spec fn failed(rs: Seq<RowText>) -> Seq<int> {
    failed_upto(rs, rs.len() as int)
}

/// Number of rows among the first `n` not from the baseline.
pub open spec fn non_baseline_upto(rs: Seq<RowText>, n: int) -> nat
    decreases n,
{
    if n <= 0 {
        0
    } else {
        non_baseline_upto(rs, n - 1) + if rs[n - 1].commit != "baseline"@ {
            1nat
        } else {
            0nat
        }
    }
}

/// Descriptions of the (at most three) latest failed rows, latest first.
pub open spec fn latest_failed_descriptions(rs: Seq<RowText>) -> Seq<Seq<char>> {
    let f = failed(rs);
    let n = if f.len() < 3 {
        f.len() as int
    } else {
        3
    };
    Seq::new(n as nat, |j: int| rs[f[f.len() - 1 - j]].description)
}

/// Each text in double quotes.
pub open spec fn quoted(ds: Seq<Seq<char>>) -> Seq<Seq<char>> {
    ds.map_values(|d: Seq<char>| seq!['"'] + d + seq!['"'])
}

/// The plateau hint.
pub open spec fn plateau_hint() -> Seq<char> {
    "The metric has plateaued \u{2014} recent improvements are marginal. Consider a fundamentally different approach rather than incremental tuning."@
}

/// The failure-streak hint.
pub open spec fn streak_hint(misses: nat, window: nat) -> Seq<char> {
    decimal(misses) + " of the last "@ + decimal(window)
        + " attempts were discarded or crashed. The current approach may be hitting diminishing returns. Try a completely different strategy."@
}

/// The hint naming the biggest improvement.
pub open spec fn jump_hint(description: Seq<char>) -> Seq<char> {
    "Biggest improvement so far: \""@ + description + "\". Consider variations on that theme."@
}

/// The hint listing recently failed approaches.
pub open spec fn failed_hint(ds: Seq<Seq<char>>) -> Seq<char> {
    "Recently failed approaches (avoid repeating): "@ + join(quoted(ds), ", "@)
}

/// The hint asking for bolder changes.
pub open spec fn escalation_hint() -> Seq<char> {
    "Most attempts have failed. Consider more radical changes: different algorithms, data structures, or even rewriting the core logic from scratch."@
}

/// Strategy hints from the history, in this order: a plateau (when at least
/// three results were kept and `plateau` says their latest three are within
/// 5%), a failure streak (three or more of the latest five rows kept
/// nothing), the biggest improvement (the kept row `jump`, when at least two
/// were kept and its description is not empty), recently failed approaches,
/// and a call for bolder changes (ten or more non-baseline rows, more failed
/// than kept). Fewer than two rows give no hints.
pub open spec fn hints_for(rs: Seq<RowText>, plateau: bool, jump: Option<int>) -> Seq<Seq<char>> {
    if rs.len() < 2 {
        Seq::empty()
    } else {
        let k = kept(rs);
        let f = failed(rs);
        let h1 = if k.len() >= 3 && plateau {
            seq![plateau_hint()]
        } else {
            Seq::empty()
        };
        let h2 = if recent_misses(rs) >= 3 {
            seq![streak_hint(recent_misses(rs), recent_window(rs) as nat)]
        } else {
            Seq::empty()
        };
        let h3 = if k.len() >= 2 && jump is Some && rs[jump->0].description.len() > 0 {
            seq![jump_hint(rs[jump->0].description)]
        } else {
            Seq::empty()
        };
        let h4 = if f.len() > 0 {
            seq![failed_hint(latest_failed_descriptions(rs))]
        } else {
            Seq::empty()
        };
        let h5 = if non_baseline_upto(rs, rs.len() as int) >= 10 && f.len() > k.len() {
            seq![escalation_hint()]
        } else {
            Seq::empty()
        };
        h1 + h2 + h3 + h4 + h5
    }
}

proof fn lemma_failed_upto_valid(rs: Seq<RowText>, n: int)
    requires
        n <= rs.len(),
    ensures
        forall|j: int| 0 <= j < failed_upto(rs, n).len() ==> 0 <= #[trigger] failed_upto(rs, n)[j] < n,
        failed_upto(rs, n).len() <= if n < 0 {
            0
        } else {
            n
        },
    decreases n,
{
    if n > 0 {
        lemma_failed_upto_valid(rs, n - 1);
        let p = failed_upto(rs, n - 1);
        assert forall|j: int| 0 <= j < failed_upto(rs, n).len() implies 0 <= #[trigger] failed_upto(
            rs,
            n,
        )[j] < n by {
            if j < p.len() {
                assert(failed_upto(rs, n)[j] == p[j]);
            }
        }
    }
}

fn failed_positions(rows: &Vec<HistoryRow>) -> (r: Vec<usize>)
    ensures
        positions(r@) == failed(row_views(rows@)),
        forall|j: int| 0 <= j < r.len() ==> r@[j] < rows.len(),
{
    let ghost rs = row_views(rows@);
    let mut r: Vec<usize> = Vec::new();
    let mut i: usize = 0;
    while i < rows.len()
        invariant
            rs == row_views(rows@),
            i <= rows.len(),
            positions(r@) == failed_upto(rs, i as int),
            forall|j: int| 0 <= j < r.len() ==> r@[j] < i,
        decreases rows.len() - i,
    {
        let ghost old_v = positions(r@);
        if same_text(rows[i].status.as_str(), "discard") || same_text(rows[i].status.as_str(), "crash") {
            r.push(i);
            assert(positions(r@) =~= old_v.push(i as int));
        }
        i = i + 1;
    }
    r
}

fn quote(d: &String) -> (r: String)
    ensures
        r@ == seq!['"'] + d@ + seq!['"'],
{
    let mut r = String::from_str("\"");
    r.append(d.as_str());
    r.append("\"");
    proof {
        reveal_strlit("\"");
    }
    assert(r@ =~= seq!['"'] + d@ + seq!['"']);
    r
}

/// Builds the strategy hints (see `hints_for`); `plateau` and `jump` are the
/// judgements on the metric values that the caller makes.
pub fn strategy_hints(rows: &Vec<HistoryRow>, plateau: bool, jump: Option<usize>) -> (r: Vec<String>)
    requires
        jump matches Some(j) ==> j < rows.len(),
    ensures
        string_views(r@) == hints_for(
            row_views(rows@),
            plateau,
            match jump {
                Some(j) => Some(j as int),
                None => None,
            },
        ),
{
    let ghost rs = row_views(rows@);
    let ghost ji: Option<int> = match jump {
        Some(j) => Some(j as int),
        None => None,
    };
    let mut hints: Vec<String> = Vec::new();
    if rows.len() < 2 {
        return hints;
    }
    let ks = kept_indices(rows);
    let fs = failed_positions(rows);
    let ghost h1 = if kept(rs).len() >= 3 && plateau {
        seq![plateau_hint()]
    } else {
        Seq::<Seq<char>>::empty()
    };
    if ks.len() >= 3 && plateau {
        hints.push(
            String::from_str(
                "The metric has plateaued \u{2014} recent improvements are marginal. Consider a fundamentally different approach rather than incremental tuning.",
            ),
        );
    }
    assert(string_views(hints@) =~= h1);
    // Failure streak among the latest rows.
    let window: usize = if rows.len() < 5 {
        rows.len()
    } else {
        5
    };
    let start = rows.len() - window;
    let mut misses: usize = 0;
    let mut i = start;
    while i < rows.len()
        invariant
            rs == row_views(rows@),
            start <= i <= rows.len(),
            misses == misses_between(rs, start as int, i as int),
            misses <= i - start,
        decreases rows.len() - i,
    {
        if !same_text(rows[i].status.as_str(), "keep") {
            misses = misses + 1;
        }
        i = i + 1;
    }
    assert(window as int == recent_window(rs));
    assert(misses == recent_misses(rs));
    let ghost h2 = if recent_misses(rs) >= 3 {
        seq![streak_hint(recent_misses(rs), recent_window(rs) as nat)]
    } else {
        Seq::<Seq<char>>::empty()
    };
    let ghost before2 = string_views(hints@);
    if misses >= 3 {
        let mut h = decimal_string(misses);
        h.append(" of the last ");
        let w = decimal_string(window);
        h.append(w.as_str());
        h.append(
            " attempts were discarded or crashed. The current approach may be hitting diminishing returns. Try a completely different strategy.",
        );
        hints.push(h);
    }
    assert(string_views(hints@) =~= before2 + h2);
    // Biggest improvement.
    let ghost h3 = if kept(rs).len() >= 2 && ji is Some && rs[ji->0].description.len() > 0 {
        seq![jump_hint(rs[ji->0].description)]
    } else {
        Seq::<Seq<char>>::empty()
    };
    let ghost before3 = string_views(hints@);
    match jump {
        Some(j) => {
            let dcs = crate::text::chars_of(rows[j].description.as_str());
            if ks.len() >= 2 && dcs.len() > 0 {
                let mut h = String::from_str("Biggest improvement so far: \"");
                h.append(rows[j].description.as_str());
                h.append("\". Consider variations on that theme.");
                hints.push(h);
            }
        },
        None => {},
    }
    assert(string_views(hints@) =~= before3 + h3);
    // Recently failed approaches.
    let ghost h4 = if failed(rs).len() > 0 {
        seq![failed_hint(latest_failed_descriptions(rs))]
    } else {
        Seq::<Seq<char>>::empty()
    };
    let ghost before4 = string_views(hints@);
    if fs.len() > 0 {
        proof {
            lemma_failed_upto_valid(rs, rs.len() as int);
        }
        let n: usize = if fs.len() < 3 {
            fs.len()
        } else {
            3
        };
        let mut quoted_ds: Vec<String> = Vec::new();
        let mut j: usize = 0;
        while j < n
            invariant
                rs == row_views(rows@),
                positions(fs@) == failed(rs),
                forall|x: int| 0 <= x < fs.len() ==> fs@[x] < rows.len(),
                n <= fs.len(),
                n == latest_failed_descriptions(rs).len(),
                j <= n,
                string_views(quoted_ds@) == quoted(latest_failed_descriptions(rs).take(j as int)),
            decreases n - j,
        {
            let p = fs[fs.len() - 1 - j];
            let q = quote(&rows[p].description);
            let ghost old_v = string_views(quoted_ds@);
            quoted_ds.push(q);
            assert(latest_failed_descriptions(rs)[j as int] == rows@[p as int].description@);
            assert(quoted(latest_failed_descriptions(rs).take(j + 1)) =~= quoted(
                latest_failed_descriptions(rs).take(j as int),
            ).push(seq!['"'] + rows@[p as int].description@ + seq!['"']));
            assert(string_views(quoted_ds@) =~= old_v.push(q@));
            j = j + 1;
        }
        assert(latest_failed_descriptions(rs).take(n as int) =~= latest_failed_descriptions(rs));
        let mut h = String::from_str("Recently failed approaches (avoid repeating): ");
        let list = join_strings(&quoted_ds, ", ");
        h.append(list.as_str());
        hints.push(h);
    }
    assert(string_views(hints@) =~= before4 + h4);
    // Escalation.
    let mut non_baseline: usize = 0;
    let mut i2: usize = 0;
    while i2 < rows.len()
        invariant
            rs == row_views(rows@),
            i2 <= rows.len(),
            non_baseline == non_baseline_upto(rs, i2 as int),
            non_baseline <= i2,
        decreases rows.len() - i2,
    {
        if !same_text(rows[i2].commit.as_str(), "baseline") {
            non_baseline = non_baseline + 1;
        }
        i2 = i2 + 1;
    }
    let ghost h5 = if non_baseline_upto(rs, rs.len() as int) >= 10 && failed(rs).len() > kept(
        rs,
    ).len() {
        seq![escalation_hint()]
    } else {
        Seq::<Seq<char>>::empty()
    };
    let ghost before5 = string_views(hints@);
    if non_baseline >= 10 && fs.len() > ks.len() {
        hints.push(
            String::from_str(
                "Most attempts have failed. Consider more radical changes: different algorithms, data structures, or even rewriting the core logic from scratch.",
            ),
        );
    }
    assert(string_views(hints@) =~= before5 + h5);
    assert(h1 + h2 + h3 + h4 + h5 =~= hints_for(rs, plateau, ji));
    hints
}


proof fn lemma_concat_contains(a: Seq<Seq<char>>, b: Seq<Seq<char>>, x: Seq<char>)
    ensures
        (a + b).contains(x) <==> a.contains(x) || b.contains(x),
{
    if (a + b).contains(x) {
        let i = choose|i: int| 0 <= i < (a + b).len() && (a + b)[i] == x;
        if i < a.len() {
            assert(a[i] == x);
        } else {
            assert(b[i - a.len()] == x);
        }
    }
    if a.contains(x) {
        let i = choose|i: int| 0 <= i < a.len() && a[i] == x;
        assert((a + b)[i] == x);
    }
    if b.contains(x) {
        let i = choose|i: int| 0 <= i < b.len() && b[i] == x;
        assert((a + b)[a.len() + i] == x);
    }
}

proof fn lemma_one_contains(y: Seq<char>, x: Seq<char>)
    ensures
        seq![y].contains(x) <==> y == x,
        !Seq::<Seq<char>>::empty().contains(x),
{
    if y == x {
        assert(seq![y][0] == x);
    }
}

proof fn lemma_decimal_first(n: nat)
    ensures
        decimal(n).len() > 0,
        exists|d: nat| d < 10 && decimal(n)[0] == digit(d),
    decreases n,
{
    if n < 10 {
        assert(decimal(n)[0] == digit(n));
    } else {
        lemma_decimal_first(n / 10);
        let d = choose|d: nat| d < 10 && decimal(n / 10)[0] == digit(d);
        assert(decimal(n)[0] == decimal(n / 10)[0]);
    }
}

/// The hints start with different characters, so none is mistaken for another.
proof fn lemma_hint_heads(misses: nat, window: nat, description: Seq<char>, ds: Seq<Seq<char>>)
    ensures
        plateau_hint().len() > 0 && plateau_hint()[0] == 'T',
        streak_hint(misses, window).len() > 0 && exists|d: nat|
            d < 10 && streak_hint(misses, window)[0] == digit(d),
        jump_hint(description).len() > 0 && jump_hint(description)[0] == 'B',
        failed_hint(ds).len() > 0 && failed_hint(ds)[0] == 'R',
        escalation_hint().len() > 0 && escalation_hint()[0] == 'M',
{
    reveal_strlit(
        "The metric has plateaued \u{2014} recent improvements are marginal. Consider a fundamentally different approach rather than incremental tuning.",
    );
    reveal_strlit(" of the last ");
    reveal_strlit("Biggest improvement so far: \"");
    reveal_strlit("Recently failed approaches (avoid repeating): ");
    reveal_strlit(
        "Most attempts have failed. Consider more radical changes: different algorithms, data structures, or even rewriting the core logic from scratch.",
    );
    lemma_decimal_first(misses);
    let d = choose|d: nat| d < 10 && decimal(misses)[0] == digit(d);
    assert(streak_hint(misses, window)[0] == decimal(misses)[0]);
}

/// Which hints the history gives, in terms of the history: none for fewer
/// than two rows; otherwise the plateau hint exactly when at least three
/// results were kept and the caller judged them a plateau, the failure
/// streak exactly when three or more of the latest (at most five) rows kept
/// nothing, the biggest-improvement hint exactly when at least two results
/// were kept and the row `jump` names has a description, the list of failed
/// approaches exactly when some row was discarded or crashed, and the call
/// for bolder changes exactly when at least ten rows are not the baseline
/// and more rows failed than were kept.
pub proof fn lemma_hints_mean(rs: Seq<RowText>, plateau: bool, jump: Option<int>)
    ensures
        rs.len() < 2 ==> hints_for(rs, plateau, jump).len() == 0,
        rs.len() >= 2 ==> {
            let h = hints_for(rs, plateau, jump);
            &&& h.contains(plateau_hint()) <==> kept(rs).len() >= 3 && plateau
            &&& h.contains(streak_hint(recent_misses(rs), recent_window(rs) as nat)) <==> recent_misses(rs) >= 3
            &&& (jump matches Some(j) ==> (h.contains(jump_hint(rs[j].description)) <==> kept(rs).len() >= 2
                && rs[j].description.len() > 0))
            &&& h.contains(failed_hint(latest_failed_descriptions(rs))) <==> failed(rs).len() > 0
            &&& h.contains(escalation_hint()) <==> non_baseline_upto(rs, rs.len() as int) >= 10
                && failed(rs).len() > kept(rs).len()
        },
{
    if rs.len() >= 2 {
        let k = kept(rs);
        let f = failed(rs);
        let m = recent_misses(rs);
        let w = recent_window(rs) as nat;
        let jd = if jump is Some { rs[jump->0].description } else { Seq::<char>::empty() };
        let ld = latest_failed_descriptions(rs);
        let h1 = if k.len() >= 3 && plateau { seq![plateau_hint()] } else { Seq::empty() };
        let h2 = if m >= 3 { seq![streak_hint(m, w)] } else { Seq::empty() };
        let h3 = if k.len() >= 2 && jump is Some && rs[jump->0].description.len() > 0 {
            seq![jump_hint(rs[jump->0].description)]
        } else {
            Seq::empty()
        };
        let h4 = if f.len() > 0 { seq![failed_hint(ld)] } else { Seq::empty() };
        let h5 = if non_baseline_upto(rs, rs.len() as int) >= 10 && f.len() > k.len() {
            seq![escalation_hint()]
        } else {
            Seq::empty()
        };
        let h = hints_for(rs, plateau, jump);
        assert(h == h1 + h2 + h3 + h4 + h5);
        lemma_hint_heads(m, w, jd, ld);
        let sd = choose|d: nat| d < 10 && streak_hint(m, w)[0] == digit(d);
        let xs = seq![plateau_hint(), streak_hint(m, w), jump_hint(jd), failed_hint(ld), escalation_hint()];
        assert forall|a: int, b: int| 0 <= a < 5 && 0 <= b < 5 && a != b implies xs[a] != xs[b] by {
            assert(xs[a][0] != xs[b][0]);
        }
        assert forall|x: Seq<char>| #[trigger] h.contains(x) <==> (h1.contains(x) || h2.contains(x)
            || h3.contains(x) || h4.contains(x) || h5.contains(x)) by {
            lemma_concat_contains(h1 + h2 + h3 + h4, h5, x);
            lemma_concat_contains(h1 + h2 + h3, h4, x);
            lemma_concat_contains(h1 + h2, h3, x);
            lemma_concat_contains(h1, h2, x);
        }
        assert forall|x: Seq<char>| xs.contains(x) implies (#[trigger] h.contains(x) <==> (h1.contains(x)
            || h2.contains(x) || h3.contains(x) || h4.contains(x) || h5.contains(x))) by {}
        lemma_one_contains(plateau_hint(), plateau_hint());
        lemma_one_contains(streak_hint(m, w), streak_hint(m, w));
        lemma_one_contains(jump_hint(jd), jump_hint(jd));
        lemma_one_contains(failed_hint(ld), failed_hint(ld));
        lemma_one_contains(escalation_hint(), escalation_hint());
        assert forall|a: int, b: int| 0 <= a < 5 && 0 <= b < 5 && a != b implies !seq![xs[b]].contains(
            xs[a],
        ) by {
            lemma_one_contains(xs[b], xs[a]);
        }
        assert(xs[0] == plateau_hint() && xs[1] == streak_hint(m, w) && xs[2] == jump_hint(jd)
            && xs[3] == failed_hint(ld) && xs[4] == escalation_hint());
        assert(h.contains(plateau_hint()) <==> h1.contains(plateau_hint()) || h2.contains(plateau_hint()) || h3.contains(plateau_hint()) || h4.contains(plateau_hint()) || h5.contains(plateau_hint()));
        assert(h.contains(streak_hint(m, w)) <==> h1.contains(streak_hint(m, w)) || h2.contains(streak_hint(m, w)) || h3.contains(streak_hint(m, w)) || h4.contains(streak_hint(m, w)) || h5.contains(streak_hint(m, w)));
        assert(h.contains(jump_hint(jd)) <==> h1.contains(jump_hint(jd)) || h2.contains(jump_hint(jd)) || h3.contains(jump_hint(jd)) || h4.contains(jump_hint(jd)) || h5.contains(jump_hint(jd)));
        assert(h.contains(failed_hint(ld)) <==> h1.contains(failed_hint(ld)) || h2.contains(failed_hint(ld)) || h3.contains(failed_hint(ld)) || h4.contains(failed_hint(ld)) || h5.contains(failed_hint(ld)));
        assert(h.contains(escalation_hint()) <==> h1.contains(escalation_hint()) || h2.contains(escalation_hint()) || h3.contains(escalation_hint()) || h4.contains(escalation_hint()) || h5.contains(escalation_hint()));
    }
}


/// The failed positions are exactly the rows whose status is `discard` or
/// `crash`, each once, in table order.
pub proof fn lemma_failed_means(rs: Seq<RowText>)
    ensures
        forall|j: int|
            0 <= j < failed(rs).len() ==> 0 <= #[trigger] failed(rs)[j] < rs.len() && (rs[failed(
                rs,
            )[j]].status == "discard"@ || rs[failed(rs)[j]].status == "crash"@),
        forall|i: int|
            0 <= i < rs.len() && ((#[trigger] rs[i]).status == "discard"@ || rs[i].status == "crash"@)
                ==> failed(rs).contains(i),
        forall|j: int, k: int| 0 <= j < k < failed(rs).len() ==> failed(rs)[j] < failed(rs)[k],
{
    lemma_failed_upto_all(rs, rs.len() as int);
}

proof fn lemma_failed_upto_all(rs: Seq<RowText>, n: int)
    requires
        0 <= n <= rs.len(),
    ensures
        forall|j: int|
            0 <= j < failed_upto(rs, n).len() ==> 0 <= #[trigger] failed_upto(rs, n)[j] < n && (
            rs[failed_upto(rs, n)[j]].status == "discard"@ || rs[failed_upto(rs, n)[j]].status
                == "crash"@),
        forall|i: int|
            0 <= i < n && ((#[trigger] rs[i]).status == "discard"@ || rs[i].status == "crash"@)
                ==> failed_upto(rs, n).contains(i),
        forall|j: int, k: int|
            0 <= j < k < failed_upto(rs, n).len() ==> failed_upto(rs, n)[j] < failed_upto(rs, n)[k],
    decreases n,
{
    if n > 0 {
        lemma_failed_upto_all(rs, n - 1);
        let p = failed_upto(rs, n - 1);
        let q = failed_upto(rs, n);
        assert forall|j: int| 0 <= j < q.len() implies 0 <= #[trigger] q[j] < n && (rs[q[j]].status
            == "discard"@ || rs[q[j]].status == "crash"@) by {
            if j < p.len() {
                assert(q[j] == p[j]);
            }
        }
        assert forall|i: int|
            0 <= i < n && ((#[trigger] rs[i]).status == "discard"@ || rs[i].status == "crash"@)
                implies q.contains(i) by {
            if i < n - 1 {
                assert(p.contains(i));
                let w = choose|w: int| 0 <= w < p.len() && p[w] == i;
                assert(q[w] == p[w]);
            } else {
                assert(q[q.len() - 1] == n - 1);
            }
        }
        assert forall|j: int, k: int| 0 <= j < k < q.len() implies q[j] < q[k] by {
            if k < p.len() {
                assert(q[j] == p[j] && q[k] == p[k]);
            } else {
                assert(q[j] == p[j]);
            }
        }
    }
}

/// The hints in the order they are given: plateau, failure streak, biggest
/// improvement, failed approaches, bolder changes, each when its condition
/// (see `lemma_hints_mean`) holds.
pub proof fn lemma_hints_order(rs: Seq<RowText>, plateau: bool, jump: Option<int>)
    requires
        rs.len() >= 2,
    ensures
        hints_for(rs, plateau, jump) == (if kept(rs).len() >= 3 && plateau {
            seq![plateau_hint()]
        } else {
            Seq::empty()
        }) + (if recent_misses(rs) >= 3 {
            seq![streak_hint(recent_misses(rs), recent_window(rs) as nat)]
        } else {
            Seq::empty()
        }) + (if kept(rs).len() >= 2 && jump is Some && rs[jump->0].description.len() > 0 {
            seq![jump_hint(rs[jump->0].description)]
        } else {
            Seq::empty()
        }) + (if failed(rs).len() > 0 {
            seq![failed_hint(latest_failed_descriptions(rs))]
        } else {
            Seq::empty()
        }) + (if non_baseline_upto(rs, rs.len() as int) >= 10 && failed(rs).len() > kept(rs).len() {
            seq![escalation_hint()]
        } else {
            Seq::empty()
        }),
{
}

} // verus!
