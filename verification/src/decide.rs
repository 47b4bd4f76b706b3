use vstd::prelude::*;

use crate::compare::{
    best_index, best_pos, better, dominates, first_best, first_best_index, is_single_metric_better,
    lemma_best_pos_is_best, no_nan, pareto_dominates,
};
use crate::config::Direction;
use crate::num::{is_nan, zero, zero_num, Num};
use crate::table::{row_views, HistoryRow, RowText};
use crate::text::same_text;

verus! {

/// Positions (among the first `n` rows) of the rows whose status is `keep`.
pub open spec fn kept_upto(rs: Seq<RowText>, n: int) -> Seq<int>
    decreases n,
{
    if n <= 0 {
        Seq::empty()
    } else {
        let p = kept_upto(rs, n - 1);
        if rs[n - 1].status == "keep"@ {
            p.push(n - 1)
        } else {
            p
        }
    }
}

/// Positions of the kept rows, in table order.
pub open spec fn kept(rs: Seq<RowText>) -> Seq<int> {
    kept_upto(rs, rs.len() as int)
}

/// Positions as integers.
pub open spec fn positions(v: Seq<usize>) -> Seq<int> {
    v.map_values(|p: usize| p as int)
}

/// The first value of a row (`0.0` when it has none).
pub open spec fn first_of(v: Seq<Num>) -> Num {
    if v.len() > 0 {
        v[0]
    } else {
        zero()
    }
}

/// First values of the rows at the given positions.
pub open spec fn firsts_at(vals: Seq<Seq<Num>>, ps: Seq<int>) -> Seq<Num> {
    ps.map_values(|p: int| first_of(vals[p]))
}

/// The best kept row by first metric, picked as `max_by`/`min_by` pick.
pub open spec fn best_kept(rs: Seq<RowText>, vals: Seq<Seq<Num>>, d: Direction) -> Option<int> {
    let ks = kept(rs);
    if ks.len() == 0 {
        None
    } else {
        Some(ks[best_pos(firsts_at(vals, ks), d)])
    }
}

/// Whether a new result improves on the kept ones: anything improves on an
/// empty record; with several metrics, a result improves when no kept result
/// dominates it; with one metric, when it is strictly better than the best kept value.
pub open spec fn improves(
    rs: Seq<RowText>,
    vals: Seq<Seq<Num>>,
    candidate: Seq<Num>,
    primary: Num,
    ds: Seq<Direction>,
    multi: bool,
) -> bool {
    let ks = kept(rs);
    if ks.len() == 0 {
        true
    } else if multi {
        !exists|j: int| 0 <= j < ks.len() && dominates(vals[ks[j]], candidate, ds)
    } else {
        better(primary, firsts_at(vals, ks)[best_pos(firsts_at(vals, ks), ds[0])], ds[0])
    }
}

proof fn lemma_kept_upto_valid(rs: Seq<RowText>, n: int)
    requires
        n <= rs.len(),
    ensures
        forall|j: int|
            0 <= j < kept_upto(rs, n).len() ==> 0 <= #[trigger] kept_upto(rs, n)[j] < n && rs[kept_upto(
                rs,
                n,
            )[j]].status == "keep"@,
    decreases n,
{
    if n > 0 {
        lemma_kept_upto_valid(rs, n - 1);
        let p = kept_upto(rs, n - 1);
        assert forall|j: int| 0 <= j < kept_upto(rs, n).len() implies 0 <= #[trigger] kept_upto(
            rs,
            n,
        )[j] < n && rs[kept_upto(rs, n)[j]].status == "keep"@ by {
            if j < p.len() {
                assert(kept_upto(rs, n)[j] == p[j]);
            }
        }
    }
}

/// Positions of the rows whose status is `keep`.
pub fn kept_indices(rows: &Vec<HistoryRow>) -> (r: Vec<usize>)
    ensures
        positions(r@) == kept(row_views(rows@)),
        forall|j: int| 0 <= j < r.len() ==> r@[j] < rows.len(),
        forall|j: int| 0 <= j < r.len() ==> rows@[#[trigger] r@[j] as int].status@ == "keep"@,
{
    let ghost rs = row_views(rows@);
    let mut r: Vec<usize> = Vec::new();
    let mut i: usize = 0;
    while i < rows.len()
        invariant
            rs == row_views(rows@),
            i <= rows.len(),
            positions(r@) == kept_upto(rs, i as int),
            forall|j: int| 0 <= j < r.len() ==> r@[j] < i,
            forall|j: int| 0 <= j < r.len() ==> rows@[#[trigger] r@[j] as int].status@ == "keep"@,
        decreases rows.len() - i,
    {
        let ghost old_v = positions(r@);
        if same_text(rows[i].status.as_str(), "keep") {
            r.push(i);
            assert(positions(r@) =~= old_v.push(i as int));
        }
        i = i + 1;
    }
    r
}

/// The first values of the given rows.
fn firsts(vals: &Vec<Vec<Num>>, ps: &Vec<usize>) -> (r: Vec<Num>)
    requires
        forall|j: int| 0 <= j < ps.len() ==> ps@[j] < vals.len(),
    ensures
        r@ == firsts_at(value_views(vals@), positions(ps@)),
        r.len() == ps.len(),
{
    let ghost vv = value_views(vals@);
    let mut r: Vec<Num> = Vec::new();
    let mut j: usize = 0;
    while j < ps.len()
        invariant
            forall|k: int| 0 <= k < ps.len() ==> ps@[k] < vals.len(),
            vv == value_views(vals@),
            j <= ps.len(),
            r@ == firsts_at(vv, positions(ps@).take(j as int)),
        decreases ps.len() - j,
    {
        let v = &vals[ps[j]];
        let x = if v.len() > 0 {
            v[0]
        } else {
            zero_num()
        };
        assert(vv[ps@[j as int] as int] == v@);
        r.push(x);
        assert(firsts_at(vv, positions(ps@).take(j + 1)) =~= firsts_at(
            vv,
            positions(ps@).take(j as int),
        ).push(x));
        j = j + 1;
    }
    assert(positions(ps@).take(ps.len() as int) =~= ps@.map_values(
        |p: usize| p as int,
    ));
    r
}

/// The views of a table of values.
pub open spec fn value_views(vals: Seq<Vec<Num>>) -> Seq<Seq<Num>> {
    vals.map_values(|v: Vec<Num>| v@)
}

/// The kept row with the best first value (`max_by` for `Maximize`, `min_by`
/// for `Minimize`), if any row is kept; `values[i]` are the values of `rows[i]`.
pub fn best_kept_row(rows: &Vec<HistoryRow>, values: &Vec<Vec<Num>>, d: Direction) -> (r: Option<
    usize,
>)
    requires
        values.len() == rows.len(),
    ensures
        r matches Some(k) ==> best_kept(row_views(rows@), value_views(values@), d) == Some(
            k as int,
        ),
        r is None ==> best_kept(row_views(rows@), value_views(values@), d) is None,
        r matches Some(k) ==> k < rows.len(),
{
    let ks = kept_indices(rows);
    let fs = firsts(values, &ks);
    match best_index(&fs, d) {
        Some(b) => {
            assert(positions(ks@)[b as int] == ks@[b as int] as int);
            let ghost kk = kept(row_views(rows@));
            assert(kk == positions(ks@));
            assert(kk.len() > 0);
            assert(fs@ == firsts_at(value_views(values@), kk));
            assert(b == best_pos(firsts_at(value_views(values@), kk), d));
            Some(ks[b])
        },
        None => None,
    }
}

/// The commit the loop rolls back to at start: that of the best kept row,
/// or `start` (the commit before the loop's first change) when that row is
/// the baseline or no row is kept.
pub open spec fn start_target(rs: Seq<RowText>, vals: Seq<Seq<Num>>, d: Direction, start: Seq<char>) -> Seq<char> {
    match best_kept(rs, vals, d) {
        Some(k) => if rs[k].commit == "baseline"@ {
            start
        } else {
            rs[k].commit
        },
        None => start,
    }
}

/// The rollback target at start (see `start_target`).
pub fn initial_best_commit(
    rows: &Vec<HistoryRow>,
    values: &Vec<Vec<Num>>,
    d: Direction,
    start: &String,
) -> (r: String)
    requires
        values.len() == rows.len(),
    ensures
        r@ == start_target(row_views(rows@), value_views(values@), d, start@),
{
    match best_kept_row(rows, values, d) {
        Some(k) => {
            assert(row_views(rows@)[k as int] == rows@[k as int]@);
            if same_text(rows[k].commit.as_str(), "baseline") {
                start.clone()
            } else {
                rows[k].commit.clone()
            }
        },
        None => start.clone(),
    }
}

/// Whether a new result is kept (see `improves`); `values[i]` are the metric
/// values of `rows[i]`, `candidate` those of the new result in the order of
/// `directions`, and `primary` its first metric.
pub fn is_improvement(
    rows: &Vec<HistoryRow>,
    values: &Vec<Vec<Num>>,
    candidate: &Vec<Num>,
    primary: Num,
    directions: &Vec<Direction>,
    multi: bool,
) -> (r: bool)
    requires
        values.len() == rows.len(),
        directions.len() > 0,
    ensures
        r == improves(
            row_views(rows@),
            value_views(values@),
            candidate@,
            primary,
            directions@,
            multi,
        ),
{
    let ks = kept_indices(rows);
    let ghost kv = positions(ks@);
    if ks.len() == 0 {
        return true;
    }
    if multi {
        let mut j: usize = 0;
        while j < ks.len()
            invariant
                kv == positions(ks@),
                kv == kept(row_views(rows@)),
                multi,
                ks.len() > 0,
                forall|k: int| 0 <= k < ks.len() ==> ks@[k] < rows.len(),
                values.len() == rows.len(),
                j <= ks.len(),
                forall|k: int|
                    0 <= k < j ==> !dominates(value_views(values@)[kv[k]], candidate@, directions@),
            decreases ks.len() - j,
        {
            assert(value_views(values@)[kv[j as int]] == values@[ks@[j as int] as int]@);
            if pareto_dominates(&values[ks[j]], candidate, directions) {
                assert(dominates(value_views(values@)[kv[j as int]], candidate@, directions@));
                assert(kept(row_views(rows@))[j as int] == kv[j as int]);
                return false;
            }
            j = j + 1;
        }
        true
    } else {
        let fs = firsts(values, &ks);
        let b = best_index(&fs, directions[0]);
        match b {
            Some(b) => is_single_metric_better(primary, fs[b], directions[0]),
            None => true,
        }
    }
}

/// Over values without NaN, a single-metric result is kept exactly when it is
/// strictly better than every kept value.
pub proof fn lemma_single_metric_keep(
    rs: Seq<RowText>,
    vals: Seq<Seq<Num>>,
    candidate: Seq<Num>,
    primary: Num,
    ds: Seq<Direction>,
)
    requires
        ds.len() > 0,
        kept(rs).len() > 0,
        no_nan(firsts_at(vals, kept(rs))),
        !is_nan(primary),
    ensures
        improves(rs, vals, candidate, primary, ds, false) <==> forall|j: int|
            0 <= j < kept(rs).len() ==> better(primary, #[trigger] firsts_at(vals, kept(rs))[j], ds[0]),
{
    let fs = firsts_at(vals, kept(rs));
    lemma_best_pos_is_best(fs, ds[0]);
    let b = best_pos(fs, ds[0]);
    if improves(rs, vals, candidate, primary, ds, false) {
        assert forall|j: int| 0 <= j < kept(rs).len() implies better(primary, #[trigger] fs[j], ds[0]) by {
            assert(!better(fs[j], fs[b], ds[0]));
            assert(!is_nan(fs[j]) && !is_nan(fs[b]));
        }
    }
}

/// With several metrics, a result is kept exactly when no kept result dominates it.
pub proof fn lemma_pareto_keep(
    rs: Seq<RowText>,
    vals: Seq<Seq<Num>>,
    candidate: Seq<Num>,
    primary: Num,
    ds: Seq<Direction>,
)
    ensures
        improves(rs, vals, candidate, primary, ds, true) <==> forall|j: int|
            0 <= j < kept(rs).len() ==> !dominates(vals[#[trigger] kept(rs)[j]], candidate, ds),
{
}

/// The row values that compete for best commit: a row's parsed first value
/// when it is kept and not the baseline.
pub open spec fn contending(rs: Seq<RowText>, vals: Seq<Option<Num>>) -> Seq<Option<Num>> {
    Seq::new(
        rs.len(),
        |i: int|
            if rs[i].status == "keep"@ && rs[i].commit != "baseline"@ {
                vals[i]
            } else {
                None
            },
    )
}

/// The commit of the best kept experiment: among kept rows other than the
/// baseline whose first value parsed (`values[i]`, for `rows[i]`), the first
/// one no later row beats strictly.
pub fn best_kept_commit(rows: &Vec<HistoryRow>, values: &Vec<Option<Num>>, d: Direction) -> (r:
    Option<String>)
    requires
        values.len() == rows.len(),
    ensures
        r matches Some(c) ==> exists|k: int|
            first_best(contending(row_views(rows@), values@), d) == Some(k) && c@ == rows@[k].commit@,
        r is None ==> first_best(contending(row_views(rows@), values@), d) is None,
{
    let ghost rs = row_views(rows@);
    let mut cands: Vec<Option<Num>> = Vec::new();
    let mut i: usize = 0;
    while i < rows.len()
        invariant
            rs == row_views(rows@),
            values.len() == rows.len(),
            i <= rows.len(),
            cands@ == contending(rs, values@).take(i as int),
        decreases rows.len() - i,
    {
        let c = if same_text(rows[i].status.as_str(), "keep") && !same_text(
            rows[i].commit.as_str(),
            "baseline",
        ) {
            values[i]
        } else {
            None
        };
        cands.push(c);
        assert(contending(rs, values@).take(i + 1) =~= contending(rs, values@).take(i as int).push(
            c,
        ));
        i = i + 1;
    }
    assert(contending(rs, values@).take(rows.len() as int) =~= contending(rs, values@));
    match first_best_index(&cands, d) {
        Some(k) => {
            proof {
                crate::compare::lemma_first_best_valid(cands@, d);
            }
            Some(rows[k].commit.clone())
        },
        None => None,
    }
}

/// The value results are compared with in the iteration prompt: the first
/// row's first value when the table has rows, else the configured baseline
/// of the first metric (`0.0` when not listed), else `0.0`.
pub open spec fn reference_value(first_row: Option<Num>, c: crate::config::Config) -> Num {
    match first_row {
        Some(v) => v,
        None => match c.baseline {
            Some(b) => crate::metrics::baseline_value(b@, crate::config::primaries(c)[0].name@),
            None => zero(),
        },
    }
}

/// The reference value (see `reference_value`).
pub fn prompt_baseline(first_row: Option<Num>, config: &crate::config::Config) -> (v: Num)
    requires
        crate::config::primaries(*config).len() > 0,
    ensures
        v == reference_value(first_row, *config),
{
    match first_row {
        Some(v) => v,
        None => match &config.baseline {
            Some(b) => {
                let name = &config.first_metric().name;
                crate::metrics::baseline_lookup(b, name)
            },
            None => zero_num(),
        },
    }
}


/// Each value is strictly better than every earlier one.
pub open spec fn strictly_improving(vs: Seq<Num>, d: Direction) -> bool {
    forall|i: int, j: int| 0 <= i < j < vs.len() ==> better(#[trigger] vs[j], #[trigger] vs[i], d)
}

proof fn lemma_kept_upto_prefix(rs: Seq<RowText>, r: RowText, n: int)
    requires
        n <= rs.len(),
    ensures
        kept_upto(rs.push(r), n) == kept_upto(rs, n),
    decreases n,
{
    if n > 0 {
        lemma_kept_upto_prefix(rs, r, n - 1);
        assert(rs.push(r)[n - 1] == rs[n - 1]);
    }
}

/// The ratchet: in single-metric mode, when every kept value was strictly
/// better than the ones kept before it, recording a result that `improves`
/// decides to keep leaves the kept values strictly improving (values
/// without NaN).
pub proof fn lemma_keep_ratchets(
    rs: Seq<RowText>,
    vals: Seq<Seq<Num>>,
    row: RowText,
    candidate: Seq<Num>,
    ds: Seq<Direction>,
)
    requires
        vals.len() == rs.len(),
        ds.len() > 0,
        row.status == "keep"@,
        candidate.len() > 0,
        no_nan(firsts_at(vals, kept(rs))),
        !is_nan(candidate[0]),
        strictly_improving(firsts_at(vals, kept(rs)), ds[0]),
        improves(rs, vals, candidate, candidate[0], ds, false),
    ensures
        kept(rs.push(row)) == kept(rs).push(rs.len() as int),
        firsts_at(vals.push(candidate), kept(rs.push(row))) == firsts_at(vals, kept(rs)).push(
            candidate[0],
        ),
        strictly_improving(firsts_at(vals.push(candidate), kept(rs.push(row))), ds[0]),
{
    let rs2 = rs.push(row);
    let vals2 = vals.push(candidate);
    lemma_kept_upto_prefix(rs, row, rs.len() as int);
    assert(rs2[rs.len() as int] == row);
    assert(kept(rs2) =~= kept(rs).push(rs.len() as int));
    lemma_kept_upto_valid(rs, rs.len() as int);
    let fs = firsts_at(vals, kept(rs));
    let fs2 = firsts_at(vals2, kept(rs2));
    assert forall|j: int| 0 <= j < fs.len() implies fs2[j] == fs[j] by {
        assert(kept(rs)[j] < rs.len());
        assert(vals2[kept(rs)[j]] == vals[kept(rs)[j]]);
    }
    assert(fs2[fs.len() as int] == first_of(candidate));
    assert(fs2 =~= fs.push(candidate[0]));
    if kept(rs).len() > 0 {
        lemma_single_metric_keep(rs, vals, candidate, candidate[0], ds);
    }
    assert forall|i: int, j: int| 0 <= i < j < fs2.len() implies better(
        #[trigger] fs2[j],
        #[trigger] fs2[i],
        ds[0],
    ) by {
        if j < fs.len() {
            assert(better(fs[j], fs[i], ds[0]));
        } else {
            assert(better(candidate[0], fs[i], ds[0]));
        }
    }
}


/// No kept result is dominated by one kept before it.
pub open spec fn undominated_by_earlier(vals: Seq<Seq<Num>>, ks: Seq<int>, ds: Seq<Direction>) -> bool {
    forall|i: int, j: int|
        0 <= i < j < ks.len() ==> !dominates(#[trigger] vals[ks[i]], #[trigger] vals[ks[j]], ds)
}

/// In Pareto mode, when no kept result was dominated by one kept before it,
/// recording a result that `improves` decides to keep preserves that.
pub proof fn lemma_keep_stays_undominated(
    rs: Seq<RowText>,
    vals: Seq<Seq<Num>>,
    row: RowText,
    candidate: Seq<Num>,
    primary: Num,
    ds: Seq<Direction>,
)
    requires
        vals.len() == rs.len(),
        row.status == "keep"@,
        undominated_by_earlier(vals, kept(rs), ds),
        improves(rs, vals, candidate, primary, ds, true),
    ensures
        kept(rs.push(row)) == kept(rs).push(rs.len() as int),
        undominated_by_earlier(vals.push(candidate), kept(rs.push(row)), ds),
{
    let rs2 = rs.push(row);
    let vals2 = vals.push(candidate);
    lemma_kept_upto_prefix(rs, row, rs.len() as int);
    assert(rs2[rs.len() as int] == row);
    assert(kept(rs2) =~= kept(rs).push(rs.len() as int));
    lemma_kept_upto_valid(rs, rs.len() as int);
    let ks = kept(rs);
    let ks2 = kept(rs2);
    assert forall|i: int, j: int| 0 <= i < j < ks2.len() implies !dominates(
        #[trigger] vals2[ks2[i]],
        #[trigger] vals2[ks2[j]],
        ds,
    ) by {
        assert(ks2[i] == ks[i]);
        assert(ks[i] < rs.len());
        assert(vals2[ks[i]] == vals[ks[i]]);
        if j < ks.len() {
            assert(ks2[j] == ks[j]);
            assert(ks[j] < rs.len());
            assert(vals2[ks[j]] == vals[ks[j]]);
            assert(!dominates(vals[ks[i]], vals[ks[j]], ds));
        } else {
            assert(ks2[j] == rs.len());
            assert(vals2[rs.len() as int] == candidate);
            assert(!dominates(vals[ks[i]], candidate, ds));
        }
    }
}


proof fn lemma_best_pos_last(v: Seq<Num>, d: Direction)
    requires
        v.len() > 0,
        strictly_improving(v, d),
    ensures
        best_pos(v, d) == v.len() - 1,
    decreases v.len(),
{
    if v.len() > 1 {
        let w = v.drop_last();
        assert forall|i: int, j: int| 0 <= i < j < w.len() implies better(
            #[trigger] w[j],
            #[trigger] w[i],
            d,
        ) by {
            assert(w[i] == v[i] && w[j] == v[j]);
            assert(better(v[j], v[i], d));
        }
        lemma_best_pos_last(w, d);
        assert(w[w.len() - 1] == v[v.len() - 2]);
        assert(better(v[v.len() - 1], v[v.len() - 2], d));
    }
}

/// While the kept values strictly improve (as `lemma_keep_ratchets` keeps
/// them), the best kept row is the last kept one, so the rollback target that
/// `LoopState` carries (the last kept commit) is the best-scoring one.
pub proof fn lemma_best_is_last_kept(rs: Seq<RowText>, vals: Seq<Seq<Num>>, d: Direction)
    requires
        kept(rs).len() > 0,
        strictly_improving(firsts_at(vals, kept(rs)), d),
    ensures
        best_kept(rs, vals, d) == Some(kept(rs).last()),
{
    lemma_best_pos_last(firsts_at(vals, kept(rs)), d);
}


/// The kept positions are exactly the rows whose status is `keep`, each once,
/// in table order.
pub proof fn lemma_kept_means(rs: Seq<RowText>)
    ensures
        forall|j: int|
            0 <= j < kept(rs).len() ==> 0 <= #[trigger] kept(rs)[j] < rs.len() && rs[kept(rs)[j]].status
                == "keep"@,
        forall|i: int| 0 <= i < rs.len() && (#[trigger] rs[i]).status == "keep"@ ==> kept(rs).contains(i),
        forall|j: int, k: int| 0 <= j < k < kept(rs).len() ==> kept(rs)[j] < kept(rs)[k],
{
    lemma_kept_upto_all(rs, rs.len() as int);
}

proof fn lemma_kept_upto_all(rs: Seq<RowText>, n: int)
    requires
        0 <= n <= rs.len(),
    ensures
        forall|j: int|
            0 <= j < kept_upto(rs, n).len() ==> 0 <= #[trigger] kept_upto(rs, n)[j] < n && rs[kept_upto(
                rs,
                n,
            )[j]].status == "keep"@,
        forall|i: int| 0 <= i < n && (#[trigger] rs[i]).status == "keep"@ ==> kept_upto(rs, n).contains(i),
        forall|j: int, k: int| 0 <= j < k < kept_upto(rs, n).len() ==> kept_upto(rs, n)[j] < kept_upto(rs, n)[k],
    decreases n,
{
    lemma_kept_upto_valid(rs, n);
    if n > 0 {
        lemma_kept_upto_all(rs, n - 1);
        let p = kept_upto(rs, n - 1);
        let q = kept_upto(rs, n);
        assert forall|i: int| 0 <= i < n && (#[trigger] rs[i]).status == "keep"@ implies q.contains(i) by {
            if i < n - 1 {
                assert(p.contains(i));
                let w = choose|w: int| 0 <= w < p.len() && p[w] == i;
                assert(q[w] == p[w]);
            } else {
                assert(q[q.len() - 1] == n - 1);
            }
        }
        assert forall|j: int, k: int| 0 <= j < k < q.len() implies q[j] < q[k] by {
            if k < p.len() {
                assert(q[j] == p[j] && q[k] == p[k]);
            } else {
                assert(q[j] == p[j]);
            }
        }
    }
}

} // verus!
