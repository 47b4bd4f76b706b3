use vstd::prelude::*;

use crate::config::Direction;
use crate::num::{gt, is_nan, lt, spec_gt, spec_lt, Num};

verus! {

/// `a` is strictly better than `b` for a metric with direction `d`.
pub open spec fn better(a: Num, b: Num, d: Direction) -> bool {
    match d {
        Direction::Maximize => spec_gt(a, b),
        Direction::Minimize => spec_lt(a, b),
    }
}

/// `candidate` Pareto-dominates `reference`: the three lists have one length,
/// `candidate` is nowhere worse and somewhere strictly better.
pub open spec fn dominates(candidate: Seq<Num>, reference: Seq<Num>, ds: Seq<Direction>) -> bool {
    &&& candidate.len() == reference.len()
    &&& candidate.len() == ds.len()
    &&& forall|i: int| 0 <= i < candidate.len() ==> !better(reference[i], candidate[i], ds[i])
    &&& exists|i: int| 0 <= i < candidate.len() && better(candidate[i], reference[i], ds[i])
}

/// No value in the list is a NaN.
pub open spec fn no_nan(v: Seq<Num>) -> bool {
    forall|i: int| 0 <= i < v.len() ==> !is_nan(v[i])
}

/// Single-metric comparison: `candidate` is strictly better than `reference`.
pub fn is_single_metric_better(candidate: Num, reference: Num, direction: Direction) -> (r: bool)
    ensures
        r == better(candidate, reference, direction),
{
    match direction {
        Direction::Maximize => gt(candidate, reference),
        Direction::Minimize => lt(candidate, reference),
    }
}

/// Whether `candidate` Pareto-dominates `reference` under the given directions.
pub fn pareto_dominates(candidate: &Vec<Num>, reference: &Vec<Num>, directions: &Vec<Direction>) -> (r:
    bool)
    ensures
        r == dominates(candidate@, reference@, directions@),
{
    if candidate.len() != reference.len() || candidate.len() != directions.len() {
        return false;
    }
    let mut strictly_better_in_any = false;
    let mut i: usize = 0;
    while i < candidate.len()
        invariant
            candidate.len() == reference.len() == directions.len(),
            i <= candidate.len(),
            forall|j: int|
                0 <= j < i ==> !better(reference@[j], candidate@[j], directions@[j]),
            strictly_better_in_any == exists|j: int|
                0 <= j < i && better(candidate@[j], reference@[j], directions@[j]),
        decreases candidate.len() - i,
    {
        let is_better = is_single_metric_better(candidate[i], reference[i], directions[i]);
        let is_worse = is_single_metric_better(reference[i], candidate[i], directions[i]);
        if is_worse {
            return false;
        }
        if is_better {
            strictly_better_in_any = true;
        }
        i = i + 1;
    }
    strictly_better_in_any
}

/// No result dominates itself.
pub proof fn lemma_dominates_irreflexive(a: Seq<Num>, ds: Seq<Direction>)
    ensures
        !dominates(a, a, ds),
{
}

/// Dominance is asymmetric: two results never dominate each other.
pub proof fn lemma_dominates_asymmetric(a: Seq<Num>, b: Seq<Num>, ds: Seq<Direction>)
    ensures
        dominates(a, b, ds) ==> !dominates(b, a, ds),
{
    if dominates(a, b, ds) && dominates(b, a, ds) {
        let i = choose|i: int| 0 <= i < a.len() && better(a[i], b[i], ds[i]);
        assert(!better(a[i], b[i], ds[i]));
    }
}

/// Dominance is transitive over results without NaN.
pub proof fn lemma_dominates_transitive(a: Seq<Num>, b: Seq<Num>, c: Seq<Num>, ds: Seq<Direction>)
    requires
        dominates(a, b, ds),
        dominates(b, c, ds),
        no_nan(a),
        no_nan(b),
        no_nan(c),
    ensures
        dominates(a, c, ds),
{
    assert forall|i: int| 0 <= i < a.len() implies !better(c[i], a[i], ds[i]) by {
        assert(!better(b[i], a[i], ds[i]));
        assert(!better(c[i], b[i], ds[i]));
        assert(!is_nan(a[i]) && !is_nan(b[i]) && !is_nan(c[i]));
    }
    let i = choose|i: int| 0 <= i < a.len() && better(a[i], b[i], ds[i]);
    assert(!better(c[i], b[i], ds[i]));
    assert(!is_nan(b[i]) && !is_nan(c[i]));
    assert(better(a[i], c[i], ds[i]));
}

/// With one metric, dominance is the single-metric comparison.
pub proof fn lemma_single_metric_dominance(x: Num, y: Num, d: Direction)
    ensures
        dominates(seq![x], seq![y], seq![d]) == better(x, y, d),
{
    if better(x, y, d) {
        assert(better(seq![x][0], seq![y][0], seq![d][0]));
    }
}

/// Whether the running best `acc` gives way to `x`, as `Iterator::max_by`
/// (ties go to the later item) or `Iterator::min_by` (ties stay with the
/// earlier one) do when comparing with `partial_cmp`, incomparable pairs
/// counting as equal.
pub open spec fn gives_way(acc: Num, x: Num, d: Direction) -> bool {
    match d {
        Direction::Maximize => !spec_gt(acc, x),
        Direction::Minimize => spec_gt(acc, x),
    }
}

/// The position `max_by` (for `Maximize`) or `min_by` (for `Minimize`) picks.
pub open spec fn best_pos(v: Seq<Num>, d: Direction) -> int
    decreases v.len(),
{
    if v.len() <= 1 {
        0
    } else {
        let k = best_pos(v.drop_last(), d);
        if gives_way(v[k], v.last(), d) {
            v.len() - 1
        } else {
            k
        }
    }
}

proof fn lemma_best_pos_in_range(v: Seq<Num>, d: Direction)
    requires
        v.len() > 0,
    ensures
        0 <= best_pos(v, d) < v.len(),
    decreases v.len(),
{
    if v.len() > 1 {
        lemma_best_pos_in_range(v.drop_last(), d);
    }
}

/// The best of a list of values under `d`, picked as `max_by`/`min_by` pick:
/// the position of the chosen value, or `None` for an empty list.
pub fn best_index(v: &Vec<Num>, d: Direction) -> (r: Option<usize>)
    ensures
        v.len() == 0 ==> r is None,
        v.len() > 0 ==> (r matches Some(k) && k as int == best_pos(v@, d)),
        r matches Some(k) ==> k < v.len(),
{
    if v.len() == 0 {
        return None;
    }
    proof {
        lemma_best_pos_in_range(v@, d);
    }
    let mut k: usize = 0;
    let mut i: usize = 1;
    while i < v.len()
        invariant
            1 <= i <= v.len(),
            k < i,
            k == best_pos(v@.take(i as int), d),
        decreases v.len() - i,
    {
        assert(v@.take(i + 1).drop_last() =~= v@.take(i as int));
        let switch = match d {
            Direction::Maximize => !gt(v[k], v[i]),
            Direction::Minimize => gt(v[k], v[i]),
        };
        if switch {
            k = i;
        }
        i = i + 1;
    }
    assert(v@.take(v.len() as int) =~= v@);
    Some(k)
}

/// Over values without NaN, the picked value is a best one: no value is better.
pub proof fn lemma_best_pos_is_best(v: Seq<Num>, d: Direction)
    requires
        v.len() > 0,
        no_nan(v),
    ensures
        0 <= best_pos(v, d) < v.len(),
        forall|j: int| 0 <= j < v.len() ==> !better(#[trigger] v[j], v[best_pos(v, d)], d),
    decreases v.len(),
{
    lemma_best_pos_in_range(v, d);
    if v.len() > 1 {
        let w = v.drop_last();
        lemma_best_pos_is_best(w, d);
        let k = best_pos(w, d);
        assert forall|j: int| 0 <= j < v.len() implies !better(#[trigger] v[j], v[best_pos(v, d)], d) by {
            if j < v.len() - 1 {
                assert(v[j] == w[j]);
                assert(!better(w[j], w[k], d));
            }
        }
    }
}

/// The first strictly-best present value: a later value replaces the running
/// best only when strictly better; absent values are passed over.
pub open spec fn first_best(v: Seq<Option<Num>>, d: Direction) -> Option<int>
    decreases v.len(),
{
    if v.len() == 0 {
        None
    } else {
        let p = first_best(v.drop_last(), d);
        match v.last() {
            None => p,
            Some(x) => match p {
                None => Some(v.len() - 1),
                Some(k) => if better(x, v[k]->0, d) {
                    Some(v.len() - 1)
                } else {
                    p
                },
            },
        }
    }
}

pub proof fn lemma_first_best_valid(v: Seq<Option<Num>>, d: Direction)
    ensures
        first_best(v, d) matches Some(k) ==> 0 <= k < v.len() && v[k] is Some,
        first_best(v, d) is None ==> forall|i: int| 0 <= i < v.len() ==> v[i] is None,
    decreases v.len(),
{
    if v.len() > 0 {
        lemma_first_best_valid(v.drop_last(), d);
        assert forall|i: int| 0 <= i < v.len() - 1 implies v[i] == v.drop_last()[i] by {}
    }
}

/// Position of the first strictly-best present value, if any value is present.
pub fn first_best_index(v: &Vec<Option<Num>>, d: Direction) -> (r: Option<usize>)
    ensures
        r matches Some(k) ==> first_best(v@, d) == Some(k as int),
        r is None ==> first_best(v@, d) is None,
{
    let mut best: Option<usize> = None;
    let mut i: usize = 0;
    while i < v.len()
        invariant
            i <= v.len(),
            best matches Some(k) ==> first_best(v@.take(i as int), d) == Some(k as int) && k < i,
            best is None ==> first_best(v@.take(i as int), d) is None,
        decreases v.len() - i,
    {
        proof {
            lemma_first_best_valid(v@.take(i as int), d);
        }
        assert(v@.take(i + 1).drop_last() =~= v@.take(i as int));
        assert(v@.take(i + 1).last() == v@[i as int]);
        match v[i] {
            None => {},
            Some(x) => {
                match best {
                    None => {
                        best = Some(i);
                    },
                    Some(k) => {
                        assert(v@.take(i as int)[k as int] == v@[k as int]);
                        match v[k] {
                            Some(y) => {
                                if is_single_metric_better(x, y, d) {
                                    best = Some(i);
                                }
                            },
                            None => {},
                        }
                    },
                }
            },
        }
        i = i + 1;
    }
    assert(v@.take(v.len() as int) =~= v@);
    best
}


/// `better` is the direction's strict IEEE comparison: larger for
/// `Maximize`, smaller for `Minimize`.
pub proof fn lemma_better_is_directional(a: Num, b: Num, d: Direction)
    ensures
        better(a, b, d) <==> (d == Direction::Maximize && spec_gt(a, b)) || (d
            == Direction::Minimize && spec_gt(b, a)),
{
}

/// Pareto dominance, in terms of the metric comparisons: the three lists
/// have one length, no metric of `candidate` is strictly worse than that of
/// `reference`, and at some position, any position, `candidate` is strictly
/// better.
pub proof fn lemma_dominates_means(candidate: Seq<Num>, reference: Seq<Num>, ds: Seq<Direction>)
    ensures
        dominates(candidate, reference, ds) <==> {
            &&& candidate.len() == reference.len()
            &&& candidate.len() == ds.len()
            &&& forall|i: int|
                0 <= i < candidate.len() ==> !((ds[i] == Direction::Maximize && spec_gt(
                    reference[i],
                    candidate[i],
                )) || (ds[i] == Direction::Minimize && spec_gt(candidate[i], reference[i])))
            &&& exists|i: int|
                0 <= i < candidate.len() && ((ds[i] == Direction::Maximize && spec_gt(
                    candidate[i],
                    reference[i],
                )) || (ds[i] == Direction::Minimize && spec_gt(reference[i], candidate[i])))
        },
{
    if dominates(candidate, reference, ds) {
        let i = choose|i: int|
            0 <= i < candidate.len() && better(candidate[i], reference[i], ds[i]);
        assert((ds[i] == Direction::Maximize && spec_gt(candidate[i], reference[i])) || (ds[i]
            == Direction::Minimize && spec_gt(reference[i], candidate[i])));
    } else if candidate.len() == reference.len() && candidate.len() == ds.len() {
        if forall|i: int|
            0 <= i < candidate.len() ==> !((ds[i] == Direction::Maximize && spec_gt(
                reference[i],
                candidate[i],
            )) || (ds[i] == Direction::Minimize && spec_gt(candidate[i], reference[i]))) {
            assert forall|i: int| 0 <= i < candidate.len() implies !better(
                reference[i],
                candidate[i],
                ds[i],
            ) by {}
            assert(!exists|i: int| 0 <= i < candidate.len() && better(candidate[i], reference[i], ds[i]));
            assert forall|i: int| 0 <= i < candidate.len() implies !((ds[i] == Direction::Maximize
                && spec_gt(candidate[i], reference[i])) || (ds[i] == Direction::Minimize && spec_gt(
                reference[i],
                candidate[i],
            ))) by {
                assert(!better(candidate[i], reference[i], ds[i]));
            }
        }
    }
}

/// A result equal to another in one metric and strictly better in a second
/// one dominates it, whichever position the better metric holds.
pub proof fn lemma_better_in_second_metric_dominates(a0: Num, x: Num, y: Num, d0: Direction, d1: Direction)
    requires
        !is_nan(a0),
        better(x, y, d1),
    ensures
        dominates(seq![a0, x], seq![a0, y], seq![d0, d1]),
{
    let c = seq![a0, x];
    let r = seq![a0, y];
    let ds = seq![d0, d1];
    assert(better(c[1], r[1], ds[1]));
    assert(!better(r[1], c[1], ds[1]));
    assert(!better(r[0], c[0], ds[0]));
    assert forall|i: int| 0 <= i < c.len() implies !better(r[i], c[i], ds[i]) by {
        if i == 0 {
        } else {
            assert(i == 1);
        }
    }
}


/// `better` is transitive.
pub proof fn lemma_better_transitive(a: Num, b: Num, c: Num, d: Direction)
    requires
        better(a, b, d),
        better(b, c, d),
    ensures
        better(a, c, d),
{
}

/// The value `first_best` picks is present and no present value is strictly
/// better than it.
pub proof fn lemma_first_best_is_best(v: Seq<Option<Num>>, d: Direction)
    ensures
        first_best(v, d) matches Some(k) ==> 0 <= k < v.len() && v[k] is Some && forall|j: int|
            0 <= j < v.len() && (#[trigger] v[j]) is Some ==> !better(v[j]->0, v[k]->0, d),
        first_best(v, d) is None ==> forall|j: int| 0 <= j < v.len() ==> v[j] is None,
    decreases v.len(),
{
    lemma_first_best_valid(v, d);
    if v.len() > 0 {
        let w = v.drop_last();
        lemma_first_best_is_best(w, d);
        assert forall|j: int| 0 <= j < v.len() - 1 implies v[j] == w[j] by {}
        match first_best(v, d) {
            Some(k) => {
                assert forall|j: int| 0 <= j < v.len() && (#[trigger] v[j]) is Some implies !better(
                    v[j]->0,
                    v[k]->0,
                    d,
                ) by {
                    if j < v.len() - 1 {
                        assert(v[j] == w[j]);
                        match first_best(w, d) {
                            Some(p) => {
                                assert(!better(w[j]->0, w[p]->0, d));
                                if k == v.len() - 1 {
                                    assert(better(v[k]->0, w[p]->0, d));
                                    if better(v[j]->0, v[k]->0, d) {
                                        lemma_better_transitive(v[j]->0, v[k]->0, w[p]->0, d);
                                    }
                                } else {
                                    assert(k == p);
                                }
                            },
                            None => {},
                        }
                    } else {
                        assert(j == v.len() - 1);
                        if k < v.len() - 1 {
                            assert(first_best(w, d) == Some(k));
                        } else {
                            assert(k == j);
                            lemma_better_irreflexive(v[k]->0, d);
                        }
                    }
                }
            },
            None => {},
        }
    }
}

/// No value is strictly better than itself.
pub proof fn lemma_better_irreflexive(a: Num, d: Direction)
    ensures
        !better(a, a, d),
{
}


/// Among present values that are not NaN, `first_best` keeps the earliest of
/// equally good values: every present value before the one it picks is
/// strictly worse.
pub proof fn lemma_first_best_is_first(v: Seq<Option<Num>>, d: Direction)
    requires
        forall|j: int| 0 <= j < v.len() && (#[trigger] v[j]) is Some ==> !is_nan(v[j]->0),
    ensures
        first_best(v, d) matches Some(k) ==> forall|j: int|
            0 <= j < k && (#[trigger] v[j]) is Some ==> better(v[k]->0, v[j]->0, d),
    decreases v.len(),
{
    if v.len() > 0 {
        let w = v.drop_last();
        assert forall|j: int| 0 <= j < w.len() && (#[trigger] w[j]) is Some implies !is_nan(w[j]->0) by {
            assert(w[j] == v[j]);
        }
        lemma_first_best_is_first(w, d);
        lemma_first_best_is_best(w, d);
        lemma_first_best_valid(v, d);
        match first_best(v, d) {
            Some(k) => {
                assert forall|j: int| 0 <= j < k && (#[trigger] v[j]) is Some implies better(
                    v[k]->0,
                    v[j]->0,
                    d,
                ) by {
                    assert(v[j] == w[j]);
                    match first_best(w, d) {
                        Some(p) => {
                            if k == v.len() - 1 && k != p {
                                assert(w[p] == v[p]);
                                assert(better(v[k]->0, v[p]->0, d));
                                assert(!better(v[j]->0, v[p]->0, d));
                                assert(!is_nan(v[j]->0) && !is_nan(v[p]->0));
                            } else {
                                assert(k == p);
                                assert(w[k] == v[k]);
                            }
                        },
                        None => {},
                    }
                }
            },
            None => {},
        }
    }
}

} // verus!
