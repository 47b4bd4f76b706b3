use vstd::prelude::*;

use crate::config::{primaries, Config, Constraint, Metric};
use crate::num::{gt, lt, spec_gt, spec_lt, zero, zero_num, Num};
use crate::text::{
    chars_of, first_token, first_token_of, starts_with, starts_with_chars,
    string_from, string_views, trim, trimmed_string,
};

verus! {

/// One value read from the benchmark output.
#[derive(Debug)]
pub struct Reading {
    pub name: String,
    pub value: Num,
}

/// A grep pattern without its leading `^` anchor.
pub open spec fn unanchored(grep: Seq<char>) -> Seq<char> {
    if grep.len() > 0 && grep[0] == '^' {
        grep.drop_first()
    } else {
        grep
    }
}

fn unanchored_chars(grep: &str) -> (r: Vec<char>)
    ensures
        r@ == unanchored(grep@),
{
    let g = chars_of(grep);
    if g.len() > 0 && g[0] == '^' {
        let mut r: Vec<char> = Vec::new();
        let mut i: usize = 1;
        while i < g.len()
            invariant
                1 <= i <= g.len(),
                r@ == g@.subrange(1, i as int),
            decreases g.len() - i,
        {
            r.push(g[i]);
            assert(g@.subrange(1, i + 1) =~= g@.subrange(1, i as int).push(g@[i as int]));
            i = i + 1;
        }
        assert(g@.subrange(1, g.len() as int) =~= g@.drop_first());
        r
    } else {
        g
    }
}

/// The text after the pattern (without `^`) when the line starts with it,
/// trimmed: the grep is a prefix match. The value is this text read as a
/// number, or else its first whitespace-separated token read as one.
pub open spec fn text_after_prefix(line: Seq<char>, grep: Seq<char>) -> Option<Seq<char>> {
    if starts_with(line, unanchored(grep)) {
        Some(trim(line.skip(unanchored(grep).len() as int)))
    } else {
        None
    }
}

fn trimmed_tail(cs: &Vec<char>, from: usize) -> (r: String)
    requires
        from <= cs.len(),
    ensures
        r@ == trim(cs@.skip(from as int)),
{
    let mut tail: Vec<char> = Vec::new();
    let mut i = from;
    while i < cs.len()
        invariant
            from <= i <= cs.len(),
            tail@ == cs@.subrange(from as int, i as int),
        decreases cs.len() - i,
    {
        tail.push(cs[i]);
        assert(cs@.subrange(from as int, i + 1) =~= cs@.subrange(from as int, i as int).push(
            cs@[i as int],
        ));
        i = i + 1;
    }
    assert(cs@.subrange(from as int, cs.len() as int) =~= cs@.skip(from as int));
    trimmed_string(&tail)
}

/// The text holding a metric's value in a line that starts with the pattern
/// (see `text_after_prefix`).
pub fn metric_text_at_start(line: &str, grep: &str) -> (r: Option<String>)
    ensures
        r matches Some(t) ==> text_after_prefix(line@, grep@) == Some(t@),
        r is None ==> text_after_prefix(line@, grep@) is None,
{
    let l = chars_of(line);
    let p = unanchored_chars(grep);
    if starts_with_chars(&l, &p) {
        Some(trimmed_tail(&l, p.len()))
    } else {
        None
    }
}

/// The first whitespace-separated token of a text.
pub fn first_token_text(s: &str) -> (r: Option<String>)
    ensures
        r matches Some(t) ==> first_token(s@) == Some(t@),
        r is None ==> first_token(s@) is None,
{
    let cs = chars_of(s);
    match first_token_of(&cs) {
        Some(t) => Some(string_from(&t)),
        None => None,
    }
}

/// The value of the first reading named `name`.
pub open spec fn lookup(rs: Seq<Reading>, name: Seq<char>) -> Option<Num>
    decreases rs.len(),
{
    if rs.len() == 0 {
        None
    } else {
        match lookup(rs.drop_last(), name) {
            Some(v) => Some(v),
            None => if rs.last().name@ == name {
                Some(rs.last().value)
            } else {
                None
            },
        }
    }
}

/// The value of the first reading named `name`, `0.0` when there is none.
pub open spec fn lookup_or_zero(rs: Seq<Reading>, name: Seq<char>) -> Num {
    match lookup(rs, name) {
        Some(v) => v,
        None => zero(),
    }
}

/// The value of the first reading named `name`.
pub fn value_of(readings: &Vec<Reading>, name: &String) -> (r: Option<Num>)
    ensures
        r == lookup(readings@, name@),
{
    let mut i: usize = 0;
    while i < readings.len()
        invariant
            i <= readings.len(),
            lookup(readings@.take(i as int), name@) is None,
        decreases readings.len() - i,
    {
        assert(readings@.take(i + 1).drop_last() =~= readings@.take(i as int));
        if readings[i].name == *name {
            assert(lookup(readings@.take(i + 1), name@) == Some(readings@[i as int].value));
            proof {
                lemma_lookup_prefix(readings@, name@, i + 1);
            }
            return Some(readings[i].value);
        }
        i = i + 1;
    }
    assert(readings@.take(readings.len() as int) =~= readings@);
    None
}

proof fn lemma_lookup_prefix(rs: Seq<Reading>, name: Seq<char>, n: int)
    requires
        0 <= n <= rs.len(),
        lookup(rs.take(n), name) is Some,
    ensures
        lookup(rs, name) == lookup(rs.take(n), name),
    decreases rs.len() - n,
{
    if n < rs.len() {
        assert(rs.take(n + 1).drop_last() =~= rs.take(n));
        lemma_lookup_prefix(rs, name, n + 1);
    } else {
        assert(rs.take(n) =~= rs);
    }
}

/// For each name, the value of the first reading with that name, `0.0` when there is none.
pub fn values_by_name(names: &Vec<String>, readings: &Vec<Reading>) -> (r: Vec<Num>)
    ensures
        r@ == string_views(names@).map_values(|n: Seq<char>| lookup_or_zero(readings@, n)),
{
    let mut r: Vec<Num> = Vec::new();
    let mut i: usize = 0;
    while i < names.len()
        invariant
            i <= names.len(),
            r@ == string_views(names@).take(i as int).map_values(
                |n: Seq<char>| lookup_or_zero(readings@, n),
            ),
        decreases names.len() - i,
    {
        let v = match value_of(readings, &names[i]) {
            Some(v) => v,
            None => zero_num(),
        };
        r.push(v);
        assert(string_views(names@).take(i + 1).map_values(
            |n: Seq<char>| lookup_or_zero(readings@, n),
        ) =~= string_views(names@).take(i as int).map_values(
            |n: Seq<char>| lookup_or_zero(readings@, n),
        ).push(v));
        i = i + 1;
    }
    assert(string_views(names@).take(names.len() as int) =~= string_views(names@));
    r
}

/// Which limit a value broke.
#[derive(Clone, Copy, Debug, PartialEq, Eq, Structural)]
pub enum LimitKind {
    FailAbove,
    FailBelow,
    WarnAbove,
    WarnBelow,
}

/// A constraint's value beyond one of its limits.
#[derive(Debug)]
pub struct Breach {
    pub name: String,
    pub value: Num,
    pub limit: Num,
    pub kind: LimitKind,
}

/// A breach as plain values.
pub struct BreachView {
    pub name: Seq<char>,
    pub value: Num,
    pub limit: Num,
    pub kind: LimitKind,
}

impl View for Breach {
    type V = BreachView;

    open spec fn view(&self) -> BreachView {
        BreachView { name: self.name@, value: self.value, limit: self.limit, kind: self.kind }
    }
}

/// The breach of one limit, if the value goes beyond it.
pub open spec fn breach_of(name: Seq<char>, v: Num, limit: Option<Num>, kind: LimitKind) -> Seq<
    BreachView,
> {
    match limit {
        Some(l) => if (kind == LimitKind::FailAbove || kind == LimitKind::WarnAbove) && spec_gt(v, l)
            || (kind == LimitKind::FailBelow || kind == LimitKind::WarnBelow) && spec_lt(v, l) {
            seq![BreachView { name, value: v, limit: l, kind }]
        } else {
            Seq::empty()
        },
        None => Seq::empty(),
    }
}

/// The breaches of one constraint: its hard limits (above, then below) or
/// its soft ones, checked against the first reading with its name.
pub open spec fn constraint_breaches(k: Constraint, rs: Seq<Reading>, hard: bool) -> Seq<BreachView> {
    match lookup(rs, k.name@) {
        Some(v) => if hard {
            breach_of(k.name@, v, k.fail_above, LimitKind::FailAbove) + breach_of(
                k.name@,
                v,
                k.fail_below,
                LimitKind::FailBelow,
            )
        } else {
            breach_of(k.name@, v, k.warn_above, LimitKind::WarnAbove) + breach_of(
                k.name@,
                v,
                k.warn_below,
                LimitKind::WarnBelow,
            )
        },
        None => Seq::empty(),
    }
}

/// All breaches, constraint by constraint.
pub open spec fn all_breaches(ks: Seq<Constraint>, rs: Seq<Reading>, hard: bool) -> Seq<BreachView>
    decreases ks.len(),
{
    if ks.len() == 0 {
        Seq::empty()
    } else {
        all_breaches(ks.drop_last(), rs, hard) + constraint_breaches(ks.last(), rs, hard)
    }
}

/// The views of a list of breaches.
pub open spec fn breach_views(v: Seq<Breach>) -> Seq<BreachView> {
    v.map_values(|b: Breach| b@)
}

fn check_limit(out: &mut Vec<Breach>, name: &String, v: Num, limit: Option<Num>, kind: LimitKind)
    ensures
        breach_views(final(out)@) == breach_views(old(out)@) + breach_of(name@, v, limit, kind),
{
    let ghost before = breach_views(out@);
    match limit {
        Some(l) => {
            let beyond = match kind {
                LimitKind::FailAbove | LimitKind::WarnAbove => gt(v, l),
                LimitKind::FailBelow | LimitKind::WarnBelow => lt(v, l),
            };
            if beyond {
                out.push(Breach { name: name.clone(), value: v, limit: l, kind });
                assert(breach_views(out@) =~= before + breach_of(name@, v, limit, kind));
            } else {
                assert(breach_views(out@) =~= before + breach_of(name@, v, limit, kind));
            }
        },
        None => {
            assert(breach_views(out@) =~= before + breach_of(name@, v, limit, kind));
        },
    }
}

/// The constraints' hard (`hard`) or soft limits that the readings break, in
/// constraint order; a constraint with no reading is not checked.
pub fn limit_breaches(constraints: &Vec<Constraint>, readings: &Vec<Reading>, hard: bool) -> (r: Vec<
    Breach,
>)
    ensures
        breach_views(r@) == all_breaches(constraints@, readings@, hard),
{
    let mut out: Vec<Breach> = Vec::new();
    let mut i: usize = 0;
    while i < constraints.len()
        invariant
            i <= constraints.len(),
            breach_views(out@) == all_breaches(constraints@.take(i as int), readings@, hard),
        decreases constraints.len() - i,
    {
        assert(constraints@.take(i + 1).drop_last() =~= constraints@.take(i as int));
        let ghost before = breach_views(out@);
        let k = &constraints[i];
        match value_of(readings, &k.name) {
            Some(v) => {
                if hard {
                    check_limit(&mut out, &k.name, v, k.fail_above, LimitKind::FailAbove);
                    check_limit(&mut out, &k.name, v, k.fail_below, LimitKind::FailBelow);
                } else {
                    check_limit(&mut out, &k.name, v, k.warn_above, LimitKind::WarnAbove);
                    check_limit(&mut out, &k.name, v, k.warn_below, LimitKind::WarnBelow);
                }
                assert(breach_views(out@) =~= before + constraint_breaches(*k, readings@, hard));
            },
            None => {
                assert(breach_views(out@) =~= before + constraint_breaches(*k, readings@, hard));
            },
        }
        i = i + 1;
    }
    assert(constraints@.take(constraints.len() as int) =~= constraints@);
    out
}

/// The known value for `name` in a baseline, `0.0` when it lists none.
pub open spec fn baseline_value(b: Seq<(String, Num)>, name: Seq<char>) -> Num
    decreases b.len(),
{
    if b.len() == 0 {
        zero()
    } else if b[0].0@ == name {
        b[0].1
    } else {
        baseline_value(b.drop_first(), name)
    }
}

/// The known value for `name` in a baseline (see `baseline_value`).
pub fn baseline_lookup(b: &Vec<(String, Num)>, name: &String) -> (v: Num)
    ensures
        v == baseline_value(b@, name@),
{
    let mut i: usize = 0;
    assert(b@.skip(0) =~= b@);
    while i < b.len()
        invariant
            i <= b.len(),
            baseline_value(b@, name@) == baseline_value(b@.skip(i as int), name@),
        decreases b.len() - i,
    {
        assert(b@.skip(i as int).drop_first() =~= b@.skip(i + 1));
        assert(b@.skip(i as int)[0] == b@[i as int]);
        if b[i].0 == *name {
            return b[i].1;
        }
        i = i + 1;
    }
    zero_num()
}

/// The names of the primary metrics followed by those of the constraints.
pub open spec fn all_names(c: Config) -> Seq<Seq<char>> {
    primaries(c).map_values(|m: Metric| m.name@) + c.constraints@.map_values(|k: Constraint| k.name@)
}

impl Config {
    /// The names of the primary metrics.
    pub fn primary_names(&self) -> (r: Vec<String>)
        ensures
            string_views(r@) == primaries(*self).map_values(|m: Metric| m.name@),
    {
        let ms = self.primary_metrics();
        let mut r: Vec<String> = Vec::new();
        let mut i: usize = 0;
        while i < ms.len()
            invariant
                ms@ == primaries(*self),
                i <= ms.len(),
                string_views(r@) == ms@.take(i as int).map_values(|m: Metric| m.name@),
            decreases ms.len() - i,
        {
            let ghost old_v = string_views(r@);
            r.push(ms[i].name.clone());
            assert(string_views(r@) =~= old_v.push(ms@[i as int].name@));
            assert(ms@.take(i + 1).map_values(|m: Metric| m.name@) =~= ms@.take(i as int).map_values(
                |m: Metric| m.name@,
            ).push(ms@[i as int].name@));
            i = i + 1;
        }
        assert(ms@.take(ms.len() as int) =~= ms@);
        r
    }

    /// The names of every metric in table order: primary metrics, then constraints.
    pub fn metric_names(&self) -> (r: Vec<String>)
        ensures
            string_views(r@) == all_names(*self),
    {
        let mut r = self.primary_names();
        let mut j: usize = 0;
        while j < self.constraints.len()
            invariant
                j <= self.constraints.len(),
                string_views(r@) == primaries(*self).map_values(|m: Metric| m.name@)
                    + self.constraints@.take(j as int).map_values(|k: Constraint| k.name@),
            decreases self.constraints.len() - j,
        {
            let ghost old_v = string_views(r@);
            r.push(self.constraints[j].name.clone());
            assert(string_views(r@) =~= old_v.push(self.constraints@[j as int].name@));
            assert(self.constraints@.take(j + 1).map_values(|k: Constraint| k.name@)
                =~= self.constraints@.take(j as int).map_values(|k: Constraint| k.name@).push(
                self.constraints@[j as int].name@,
            ));
            j = j + 1;
        }
        assert(self.constraints@.take(self.constraints.len() as int) =~= self.constraints@);
        r
    }

    /// The readings a baseline gives, when one is configured: for each metric
    /// in table order, its baseline value (`0.0` when not listed).
    pub fn baseline_readings(&self) -> (r: Option<Vec<Reading>>)
        ensures
            self.baseline is None <==> r is None,
            r matches Some(v) ==> v.len() == all_names(*self).len() && forall|i: int|
                0 <= i < v.len() ==> (#[trigger] v@[i]).name@ == all_names(*self)[i]
                    && v@[i].value == baseline_value(self.baseline->0@, all_names(*self)[i]),
    {
        match &self.baseline {
            None => None,
            Some(b) => {
                let names = self.metric_names();
                let mut out: Vec<Reading> = Vec::new();
                let mut i: usize = 0;
                while i < names.len()
                    invariant
                        string_views(names@) == all_names(*self),
                        self.baseline == Some(*b),
                        i <= names.len(),
                        out.len() == i,
                        forall|j: int|
                            0 <= j < i ==> (#[trigger] out@[j]).name@ == all_names(*self)[j]
                                && out@[j].value == baseline_value(b@, all_names(*self)[j]),
                    decreases names.len() - i,
                {
                    let v = baseline_lookup(b, &names[i]);
                    out.push(Reading { name: names[i].clone(), value: v });
                    i = i + 1;
                }
                Some(out)
            },
        }
    }
}


/// The limit of a constraint that a kind of breach is about.
pub open spec fn limit_for(k: Constraint, kind: LimitKind) -> Option<Num> {
    match kind {
        LimitKind::FailAbove => k.fail_above,
        LimitKind::FailBelow => k.fail_below,
        LimitKind::WarnAbove => k.warn_above,
        LimitKind::WarnBelow => k.warn_below,
    }
}

/// `v` is beyond the limit `l` on the side that `kind` guards: above it for
/// an upper limit, below it for a lower one.
pub open spec fn beyond(v: Num, l: Num, kind: LimitKind) -> bool {
    match kind {
        LimitKind::FailAbove | LimitKind::WarnAbove => spec_gt(v, l),
        LimitKind::FailBelow | LimitKind::WarnBelow => spec_gt(l, v),
    }
}

/// The hard limits are the `fail_*` ones.
pub open spec fn is_hard(kind: LimitKind) -> bool {
    kind == LimitKind::FailAbove || kind == LimitKind::FailBelow
}

/// Every reported breach is real: its value is the constraint's reading,
/// beyond the constraint's limit of that kind on the guarded side (above an
/// upper limit, below a lower one), and of the kind asked for (hard or soft).
pub proof fn lemma_breaches_sound(ks: Seq<Constraint>, rs: Seq<Reading>, hard: bool)
    ensures
        forall|j: int|
            #![trigger all_breaches(ks, rs, hard)[j]]
            0 <= j < all_breaches(ks, rs, hard).len() ==> {
                let b = all_breaches(ks, rs, hard)[j];
                &&& beyond(b.value, b.limit, b.kind)
                &&& is_hard(b.kind) == hard
                &&& lookup(rs, b.name) == Some(b.value)
                &&& exists|i: int|
                    0 <= i < ks.len() && (#[trigger] ks[i]).name@ == b.name && limit_for(ks[i], b.kind)
                        == Some(b.limit)
            },
    decreases ks.len(),
{
    if ks.len() > 0 {
        let dd = ks.drop_last();
        let k = ks.last();
        lemma_breaches_sound(dd, rs, hard);
        let pre = all_breaches(dd, rs, hard);
        let cb = constraint_breaches(k, rs, hard);
        assert(all_breaches(ks, rs, hard) == pre + cb);
        assert forall|j: int|
            #![trigger all_breaches(ks, rs, hard)[j]]
            0 <= j < all_breaches(ks, rs, hard).len() implies {
                let b = all_breaches(ks, rs, hard)[j];
                &&& beyond(b.value, b.limit, b.kind)
                &&& is_hard(b.kind) == hard
                &&& lookup(rs, b.name) == Some(b.value)
                &&& exists|i: int|
                    0 <= i < ks.len() && (#[trigger] ks[i]).name@ == b.name && limit_for(ks[i], b.kind)
                        == Some(b.limit)
            } by {
            let b = all_breaches(ks, rs, hard)[j];
            if j < pre.len() {
                assert(b == pre[j]);
                let i = choose|i: int|
                    0 <= i < dd.len() && (#[trigger] dd[i]).name@ == b.name && limit_for(dd[i], b.kind)
                        == Some(b.limit);
                assert(dd[i] == ks[i]);
            } else {
                assert(b == cb[j - pre.len()]);
                assert(ks[ks.len() - 1] == k);
                let v = lookup(rs, k.name@)->0;
                let a1 = if hard {
                    breach_of(k.name@, v, k.fail_above, LimitKind::FailAbove)
                } else {
                    breach_of(k.name@, v, k.warn_above, LimitKind::WarnAbove)
                };
                if j - pre.len() < a1.len() {
                    assert(b == a1[j - pre.len()]);
                } else {
                    assert(b == cb[j - pre.len()]);
                }
            }
        }
    }
}

/// Every limit the readings break is reported: when a constraint's reading
/// is beyond one of its limits of the kind asked for, that breach is in the list.
pub proof fn lemma_breaches_complete(
    ks: Seq<Constraint>,
    rs: Seq<Reading>,
    hard: bool,
    i: int,
    kind: LimitKind,
    v: Num,
    l: Num,
)
    requires
        0 <= i < ks.len(),
        lookup(rs, ks[i].name@) == Some(v),
        limit_for(ks[i], kind) == Some(l),
        beyond(v, l, kind),
        is_hard(kind) == hard,
    ensures
        exists|j: int|
            0 <= j < all_breaches(ks, rs, hard).len() && all_breaches(ks, rs, hard)[j] == (BreachView {
                name: ks[i].name@,
                value: v,
                limit: l,
                kind,
            }),
    decreases ks.len(),
{
    let dd = ks.drop_last();
    let pre = all_breaches(dd, rs, hard);
    let cb = constraint_breaches(ks.last(), rs, hard);
    assert(all_breaches(ks, rs, hard) == pre + cb);
    let want = BreachView { name: ks[i].name@, value: v, limit: l, kind };
    if i < ks.len() - 1 {
        assert(dd[i] == ks[i]);
        lemma_breaches_complete(dd, rs, hard, i, kind, v, l);
        let j = choose|j: int| 0 <= j < pre.len() && pre[j] == want;
        assert((pre + cb)[j] == want);
    } else {
        let k = ks.last();
        assert(ks[i] == k);
        let a1 = if hard {
            breach_of(k.name@, v, k.fail_above, LimitKind::FailAbove)
        } else {
            breach_of(k.name@, v, k.warn_above, LimitKind::WarnAbove)
        };
        let a2 = if hard {
            breach_of(k.name@, v, k.fail_below, LimitKind::FailBelow)
        } else {
            breach_of(k.name@, v, k.warn_below, LimitKind::WarnBelow)
        };
        assert(cb == a1 + a2);
        if kind == LimitKind::FailAbove || kind == LimitKind::WarnAbove {
            assert(a1 == seq![want]);
            assert((pre + cb)[pre.len() as int] == want);
        } else {
            assert(a2 == seq![want]);
            assert((pre + cb)[pre.len() + a1.len() as int] == want);
        }
    }
}


/// A reading is found by its name, and the first reading with that name
/// wins: `lookup` gives `Some(v)` exactly when some reading is named `name`,
/// `v` being the value of the first one.
pub proof fn lemma_lookup_means(rs: Seq<Reading>, name: Seq<char>)
    ensures
        lookup(rs, name) is None <==> forall|i: int| 0 <= i < rs.len() ==> (#[trigger] rs[i]).name@ != name,
        lookup(rs, name) is Some ==> exists|i: int|
            0 <= i < rs.len() && (#[trigger] rs[i]).name@ == name && lookup(rs, name) == Some(rs[i].value)
                && forall|j: int| 0 <= j < i ==> rs[j].name@ != name,
    decreases rs.len(),
{
    if rs.len() > 0 {
        let w = rs.drop_last();
        lemma_lookup_means(w, name);
        assert forall|j: int| 0 <= j < w.len() implies w[j] == rs[j] by {}
        if lookup(w, name) is Some {
            let i = choose|i: int|
                0 <= i < w.len() && (#[trigger] w[i]).name@ == name && lookup(w, name) == Some(w[i].value)
                    && forall|j: int| 0 <= j < i ==> w[j].name@ != name;
            assert(rs[i] == w[i]);
        } else if rs.last().name@ == name {
            assert(rs[rs.len() - 1].name@ == name);
        } else {
            assert forall|i: int| 0 <= i < rs.len() implies (#[trigger] rs[i]).name@ != name by {
                if i < w.len() {
                    assert(rs[i] == w[i]);
                }
            }
        }
    }
}

} // verus!
