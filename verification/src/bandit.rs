use vstd::prelude::*;

use crate::compare::{first_best, first_best_index};
use crate::num::{spec_gt, Num};

verus! {

/// A strategy the agent can be steered towards, with its track record.
#[derive(Debug)]
pub struct Arm {
    /// Short identifier, e.g. `algorithm`.
    pub name: String,
    /// Prompt text describing this strategy to the agent.
    pub description: String,
    /// Number of times this arm has been selected.
    pub pulls: usize,
    /// Number of times this arm led to a kept result.
    pub rewards: usize,
}

/// An arm as plain values.
pub struct ArmView {
    pub name: Seq<char>,
    pub description: Seq<char>,
    pub pulls: nat,
    pub rewards: nat,
}

impl View for Arm {
    type V = ArmView;

    open spec fn view(&self) -> ArmView {
        ArmView {
            name: self.name@,
            description: self.description@,
            pulls: self.pulls as nat,
            rewards: self.rewards as nat,
        }
    }
}

/// The views of a list of arms.
pub open spec fn arm_views(arms: Seq<Arm>) -> Seq<ArmView> {
    arms.map_values(|a: Arm| a@)
}

impl Clone for Arm {
    fn clone(&self) -> (r: Self)
        ensures
            r == *self,
    {
        Arm {
            name: self.name.clone(),
            description: self.description.clone(),
            pulls: self.pulls,
            rewards: self.rewards,
        }
    }
}

impl Arm {
    /// A fresh arm that has never been pulled.
    pub fn new(name: &str, description: &str) -> (a: Arm)
        ensures
            a.name@ == name@,
            a.description@ == description@,
            a.pulls == 0,
            a.rewards == 0,
    {
        Arm {
            name: String::from_str(name),
            description: String::from_str(description),
            pulls: 0,
            rewards: 0,
        }
    }
}

/// The bandit's arms and the total number of pulls across them (see
/// `BanditState::wf`, which every operation keeps). The UCB1 exploration
/// constant and the scores computed with it are floating-point and kept
/// beside this state by its user.
#[derive(Debug)]
pub struct BanditState {
    pub arms: Vec<Arm>,
    pub total_pulls: usize,
}

/// The names of the default arms, in order.
pub open spec fn default_names() -> Seq<Seq<char>> {
    seq![
        "algorithm"@,
        "data-structure"@,
        "micro-optimization"@,
        "parallelism"@,
        "memory-layout"@,
        "rewrite"@,
    ]
}

/// The descriptions of the default arms, in order.
pub open spec fn default_descriptions() -> Seq<Seq<char>> {
    seq![
        "Try a fundamentally different algorithm or approach for the core computation. Consider entirely different algorithmic families, mathematical reformulations, or approaches from other domains that solve the same underlying problem."@,
        "Change how data is stored or accessed. Consider different containers (hash maps vs. B-trees vs. arrays), different representations (sparse vs. dense, SOA vs. AOS), or indexed/sorted structures that enable faster lookups."@,
        "Apply targeted low-level optimizations to the hot path. Reduce allocations, avoid unnecessary copies, eliminate redundant computation, optimize branching, use cheaper operations, or add caching/memoization for repeated work."@,
        "Add or improve concurrency, SIMD, batching, or parallel processing. Consider whether work can be split across threads, whether loops can be vectorized, or whether operations can be batched to amortize overhead."@,
        "Optimize memory access patterns for better cache utilization. Consider cache-friendly data layouts, reducing pointer indirection, improving spatial locality, prefetching, or reducing the working set size."@,
        "Rewrite a significant section of the code from scratch using a completely different approach. Don't try to evolve the existing code \u{2014} start fresh with a new design for the critical section."@,
    ]
}

/// The arms hold the default strategies, in order, none pulled yet.
pub open spec fn fresh_defaults(arms: Seq<Arm>) -> bool {
    &&& arms.len() == 6
    &&& forall|i: int|
        #![trigger arms[i]]
        0 <= i < 6 ==> arms[i].name@ == default_names()[i] && arms[i].description@
            == default_descriptions()[i] && arms[i].pulls == 0 && arms[i].rewards == 0
}

/// Position of the first arm named `name`.
pub open spec fn arm_named(arms: Seq<Arm>, name: Seq<char>) -> Option<int>
    decreases arms.len(),
{
    if arms.len() == 0 {
        None
    } else {
        match arm_named(arms.drop_last(), name) {
            Some(k) => Some(k),
            None => if arms.last().name@ == name {
                Some(arms.len() - 1)
            } else {
                None
            },
        }
    }
}

/// Position of the first arm never pulled.
pub open spec fn first_unpulled(arms: Seq<ArmView>) -> Option<int>
    decreases arms.len(),
{
    if arms.len() == 0 {
        None
    } else {
        match first_unpulled(arms.drop_last()) {
            Some(k) => Some(k),
            None => if arms.last().pulls == 0 {
                Some(arms.len() - 1)
            } else {
                None
            },
        }
    }
}

/// The value of minus infinity.
pub open spec fn neg_infinity() -> Num {
    Num { bits: 0xfff0_0000_0000_0000u64 }
}

/// The scores that can win: those above minus infinity.
pub open spec fn contenders(scores: Seq<Num>) -> Seq<Option<Num>> {
    scores.map_values(|s: Num| if spec_gt(s, neg_infinity()) { Some(s) } else { None })
}

/// The arm UCB1 selects: the first arm never pulled; otherwise the first arm
/// whose score is highest (a score must beat minus infinity to count), and
/// the first arm when no score counts.
pub open spec fn selected(arms: Seq<ArmView>, scores: Seq<Num>) -> int {
    match first_unpulled(arms) {
        Some(k) => k,
        None => match first_best(contenders(scores), crate::config::Direction::Maximize) {
            Some(k) => k,
            None => 0,
        },
    }
}

/// The arms after recording a pull of the first arm named `name`.
pub open spec fn pulled(arms: Seq<ArmView>, name: Seq<char>, kept: bool) -> Seq<ArmView> {
    match view_named(arms, name) {
        Some(k) => arms.update(
            k,
            ArmView {
                pulls: arms[k].pulls + 1,
                rewards: if kept {
                    arms[k].rewards + 1
                } else {
                    arms[k].rewards
                },
                ..arms[k]
            },
        ),
        None => arms,
    }
}

/// The pulls of all arms together.
pub open spec fn pulls_sum(arms: Seq<ArmView>) -> int
    decreases arms.len(),
{
    if arms.len() == 0 {
        0
    } else {
        pulls_sum(arms.drop_last()) + arms.last().pulls
    }
}

/// No arm has more rewards than pulls.
pub open spec fn rewards_within_pulls(arms: Seq<ArmView>) -> bool {
    forall|i: int| 0 <= i < arms.len() ==> #[trigger] arms[i].rewards <= arms[i].pulls
}

proof fn lemma_pulls_sum_update(arms: Seq<ArmView>, k: int, a: ArmView)
    requires
        0 <= k < arms.len(),
    ensures
        pulls_sum(arms.update(k, a)) == pulls_sum(arms) - arms[k].pulls + a.pulls,
    decreases arms.len(),
{
    let u = arms.update(k, a);
    if k < arms.len() - 1 {
        assert(u.drop_last() =~= arms.drop_last().update(k, a));
        lemma_pulls_sum_update(arms.drop_last(), k, a);
    } else {
        assert(u.drop_last() =~= arms.drop_last());
    }
}

proof fn lemma_pulls_sum_unpulled(arms: Seq<ArmView>)
    requires
        forall|i: int| 0 <= i < arms.len() ==> arms[i].pulls == 0,
    ensures
        pulls_sum(arms) == 0,
    decreases arms.len(),
{
    if arms.len() > 0 {
        lemma_pulls_sum_unpulled(arms.drop_last());
    }
}

/// Position of the first arm view named `name`.
pub open spec fn view_named(arms: Seq<ArmView>, name: Seq<char>) -> Option<int>
    decreases arms.len(),
{
    if arms.len() == 0 {
        None
    } else {
        match view_named(arms.drop_last(), name) {
            Some(k) => Some(k),
            None => if arms.last().name == name {
                Some(arms.len() - 1)
            } else {
                None
            },
        }
    }
}

/// The arms after adding, in order, each default arm whose name none has.
pub open spec fn with_defaults(arms: Seq<ArmView>, defaults: Seq<ArmView>) -> Seq<ArmView>
    decreases defaults.len(),
{
    if defaults.len() == 0 {
        arms
    } else {
        let prev = with_defaults(arms, defaults.drop_last());
        if view_named(prev, defaults.last().name) is Some {
            prev
        } else {
            prev.push(defaults.last())
        }
    }
}

/// The default arms as values.
pub open spec fn default_arm_views() -> Seq<ArmView> {
    Seq::new(
        6,
        |i: int|
            ArmView {
                name: default_names()[i],
                description: default_descriptions()[i],
                pulls: 0,
                rewards: 0,
            },
    )
}

proof fn lemma_view_named(arms: Seq<Arm>, name: Seq<char>)
    ensures
        view_named(arm_views(arms), name) == arm_named(arms, name),
    decreases arms.len(),
{
    if arms.len() > 0 {
        lemma_view_named(arms.drop_last(), name);
        assert(arm_views(arms).drop_last() =~= arm_views(arms.drop_last()));
    }
}

proof fn lemma_arm_named_valid(arms: Seq<Arm>, name: Seq<char>)
    ensures
        arm_named(arms, name) matches Some(k) ==> 0 <= k < arms.len() && arms[k].name@ == name
            && forall|j: int| 0 <= j < k ==> arms[j].name@ != name,
        arm_named(arms, name) is None ==> forall|j: int| 0 <= j < arms.len() ==> arms[j].name@ != name,
    decreases arms.len(),
{
    if arms.len() > 0 {
        lemma_arm_named_valid(arms.drop_last(), name);
        assert forall|j: int| 0 <= j < arms.len() - 1 implies arms[j] == arms.drop_last()[j] by {}
    }
}

proof fn lemma_first_unpulled_valid(arms: Seq<ArmView>)
    ensures
        first_unpulled(arms) matches Some(k) ==> 0 <= k < arms.len() && arms[k].pulls == 0
            && forall|j: int| 0 <= j < k ==> arms[j].pulls != 0,
        first_unpulled(arms) is None ==> forall|j: int| 0 <= j < arms.len() ==> arms[j].pulls != 0,
    decreases arms.len(),
{
    if arms.len() > 0 {
        lemma_first_unpulled_valid(arms.drop_last());
        assert forall|j: int| 0 <= j < arms.len() - 1 implies arms[j] == arms.drop_last()[j] by {}
    }
}

/// Position of the first arm named `name`, if any.
pub fn find_arm(arms: &Vec<Arm>, name: &str) -> (r: Option<usize>)
    ensures
        r matches Some(k) ==> arm_named(arms@, name@) == Some(k as int),
        r is None ==> arm_named(arms@, name@) is None,
{
    let target = String::from_str(name);
    let mut i: usize = 0;
    while i < arms.len()
        invariant
            target@ == name@,
            i <= arms.len(),
            arm_named(arms@.take(i as int), name@) is None,
        decreases arms.len() - i,
    {
        assert(arms@.take(i + 1).drop_last() =~= arms@.take(i as int));
        if arms[i].name == target {
            assert(arm_named(arms@.take(i + 1), name@) == Some(i as int));
            proof {
                lemma_arm_named_valid(arms@.take(i + 1), name@);
                lemma_arm_named_valid(arms@, name@);
                assert(arms@.take(i + 1)[i as int] == arms@[i as int]);
                assert forall|j: int| 0 <= j < i implies arms@[j].name@ != name@ by {
                    assert(arms@.take(i as int)[j] == arms@[j]);
                    lemma_arm_named_valid(arms@.take(i as int), name@);
                }
            }
            return Some(i);
        }
        i = i + 1;
    }
    assert(arms@.take(arms.len() as int) =~= arms@);
    None
}

/// The default arms, in order.
pub fn default_arms() -> (arms: Vec<Arm>)
    ensures
        fresh_defaults(arms@),
{
    let mut arms: Vec<Arm> = Vec::new();
    arms.push(Arm::new("algorithm", "Try a fundamentally different algorithm or approach for the core computation. Consider entirely different algorithmic families, mathematical reformulations, or approaches from other domains that solve the same underlying problem."));
    arms.push(Arm::new("data-structure", "Change how data is stored or accessed. Consider different containers (hash maps vs. B-trees vs. arrays), different representations (sparse vs. dense, SOA vs. AOS), or indexed/sorted structures that enable faster lookups."));
    arms.push(Arm::new("micro-optimization", "Apply targeted low-level optimizations to the hot path. Reduce allocations, avoid unnecessary copies, eliminate redundant computation, optimize branching, use cheaper operations, or add caching/memoization for repeated work."));
    arms.push(Arm::new("parallelism", "Add or improve concurrency, SIMD, batching, or parallel processing. Consider whether work can be split across threads, whether loops can be vectorized, or whether operations can be batched to amortize overhead."));
    arms.push(Arm::new("memory-layout", "Optimize memory access patterns for better cache utilization. Consider cache-friendly data layouts, reducing pointer indirection, improving spatial locality, prefetching, or reducing the working set size."));
    arms.push(Arm::new("rewrite", "Rewrite a significant section of the code from scratch using a completely different approach. Don't try to evolve the existing code \u{2014} start fresh with a new design for the critical section."));
    arms
}

impl BanditState {
    /// The total counts every pull of every arm.
    pub open spec fn wf(&self) -> bool {
        self.total_pulls == pulls_sum(arm_views(self.arms@))
    }

    /// A bandit with the default strategy arms, none pulled.
    pub fn new() -> (b: BanditState)
        ensures
            fresh_defaults(b.arms@),
            b.total_pulls == 0,
            b.wf(),
            rewards_within_pulls(arm_views(b.arms@)),
    {
        let arms = default_arms();
        proof {
            let av = arm_views(arms@);
            assert forall|i: int| 0 <= i < av.len() implies av[i].pulls == 0 && av[i].rewards == 0 by {
                assert(av[i] == arms@[i]@);
            }
            lemma_pulls_sum_unpulled(av);
        }
        BanditState { arms, total_pulls: 0 }
    }

    /// The arm to pull next: the first arm never pulled if there is one
    /// (unpulled arms score infinitely), else the first arm with the highest
    /// of the given UCB1 `scores` (one per arm).
    pub fn select_arm(&self, scores: &Vec<Num>) -> (a: &Arm)
        requires
            self.arms.len() > 0,
            scores.len() == self.arms.len(),
        ensures
            *a == self.arms@[selected(arm_views(self.arms@), scores@)],
            0 <= selected(arm_views(self.arms@), scores@) < self.arms.len(),
    {
        let mut i: usize = 0;
        while i < self.arms.len()
            invariant
                i <= self.arms.len(),
                first_unpulled(arm_views(self.arms@).take(i as int)) is None,
            decreases self.arms.len() - i,
        {
            let ghost av = arm_views(self.arms@);
            assert(av.take(i + 1).drop_last() =~= av.take(i as int));
            if self.arms[i].pulls == 0 {
                assert(first_unpulled(av.take(i + 1)) == Some(i as int));
                proof {
                    lemma_first_unpulled_valid(av.take(i + 1));
                    lemma_first_unpulled_valid(av);
                    assert forall|j: int| 0 <= j < i implies av[j].pulls != 0 by {
                        assert(av.take(i as int)[j] == av[j]);
                        lemma_first_unpulled_valid(av.take(i as int));
                    }
                }
                return &self.arms[i];
            }
            i = i + 1;
        }
        assert(arm_views(self.arms@).take(self.arms.len() as int) =~= arm_views(self.arms@));
        let neg_inf = Num { bits: 0xfff0_0000_0000_0000u64 };
        let mut cands: Vec<Option<Num>> = Vec::new();
        let mut j: usize = 0;
        while j < scores.len()
            invariant
                j <= scores.len(),
                neg_inf == neg_infinity(),
                cands@ == contenders(scores@.take(j as int)),
            decreases scores.len() - j,
        {
            let c = if crate::num::gt(scores[j], neg_inf) {
                Some(scores[j])
            } else {
                None
            };
            cands.push(c);
            assert(contenders(scores@.take(j + 1)) =~= contenders(scores@.take(j as int)).push(c));
            j = j + 1;
        }
        assert(scores@.take(scores.len() as int) =~= scores@);
        match first_best_index(&cands, crate::config::Direction::Maximize) {
            Some(k) => {
                proof {
                    crate::compare::lemma_first_best_valid(cands@, crate::config::Direction::Maximize);
                }
                &self.arms[k]
            },
            None => &self.arms[0],
        }
    }

    /// Records a pull of the first arm named `arm_name` (a reward when
    /// `kept`), counting it in the total; a name no arm has changes nothing.
    pub fn update(&mut self, arm_name: &str, kept: bool)
        requires
            arm_named(old(self).arms@, arm_name@) matches Some(k) ==> old(self).arms@[k].pulls
                < usize::MAX && old(self).arms@[k].rewards < usize::MAX && old(self).total_pulls
                < usize::MAX,
        ensures
            arm_views(final(self).arms@) == pulled(arm_views(old(self).arms@), arm_name@, kept),
            final(self).total_pulls == old(self).total_pulls + if arm_named(
                old(self).arms@,
                arm_name@,
            ) is Some {
                1int
            } else {
                0int
            },
            old(self).wf() ==> final(self).wf(),
            rewards_within_pulls(arm_views(old(self).arms@)) ==> rewards_within_pulls(
                arm_views(final(self).arms@),
            ),
    {
        proof {
            lemma_view_named(self.arms@, arm_name@);
            lemma_arm_named_valid(self.arms@, arm_name@);
        }
        match find_arm(&self.arms, arm_name) {
            Some(k) => {
                let ghost before = arm_views(self.arms@);
                let mut a = self.arms[k].clone();
                a.pulls = a.pulls + 1;
                if kept {
                    a.rewards = a.rewards + 1;
                }
                let ghost na = a@;
                self.arms.set(k, a);
                assert(arm_views(self.arms@) =~= pulled(before, arm_name@, kept));
                assert(arm_views(self.arms@) =~= before.update(k as int, na));
                proof {
                    lemma_pulls_sum_update(before, k as int, na);
                }
                self.total_pulls = self.total_pulls + 1;
            },
            None => {},
        }
    }

    /// Adds, in order, each default arm that no arm is named after (so that a
    /// state saved before an arm existed gains it).
    pub fn ensure_default_arms(&mut self)
        ensures
            arm_views(final(self).arms@) == with_defaults(arm_views(old(self).arms@), default_arm_views()),
            final(self).total_pulls == old(self).total_pulls,
            pulls_sum(arm_views(final(self).arms@)) == pulls_sum(arm_views(old(self).arms@)),
            old(self).wf() ==> final(self).wf(),
            rewards_within_pulls(arm_views(old(self).arms@)) ==> rewards_within_pulls(
                arm_views(final(self).arms@),
            ),
    {
        let defaults = default_arms();
        let mut i: usize = 0;
        while i < defaults.len()
            invariant
                fresh_defaults(defaults@),
                i <= defaults.len(),
                arm_views(self.arms@) == with_defaults(
                    arm_views(old(self).arms@),
                    arm_views(defaults@).take(i as int),
                ),
                self.total_pulls == old(self).total_pulls,
                pulls_sum(arm_views(self.arms@)) == pulls_sum(arm_views(old(self).arms@)),
                rewards_within_pulls(arm_views(old(self).arms@)) ==> rewards_within_pulls(
                    arm_views(self.arms@),
                ),
            decreases defaults.len() - i,
        {
            assert(arm_views(defaults@).take(i + 1).drop_last() =~= arm_views(defaults@).take(i as int));
            assert(arm_views(defaults@).take(i + 1).last() == defaults@[i as int]@);
            proof {
                lemma_view_named(self.arms@, defaults@[i as int].name@);
            }
            let ghost before = arm_views(self.arms@);
            match find_arm(&self.arms, defaults[i].name.as_str()) {
                Some(_) => {},
                None => {
                    let a = defaults[i].clone();
                    self.arms.push(a);
                    assert(arm_views(self.arms@) =~= before.push(defaults@[i as int]@));
                    assert(arm_views(self.arms@).drop_last() =~= before);
                    assert(defaults@[i as int].pulls == 0 && defaults@[i as int].rewards == 0);
                    assert(arm_views(self.arms@).last() == defaults@[i as int]@);
                    assert(pulls_sum(arm_views(self.arms@)) == pulls_sum(before));
                    proof {
                        if rewards_within_pulls(arm_views(old(self).arms@)) {
                            assert forall|x: int| 0 <= x < arm_views(self.arms@).len() implies #[trigger] arm_views(
                                self.arms@,
                            )[x].rewards <= arm_views(self.arms@)[x].pulls by {
                                if x < before.len() {
                                    assert(arm_views(self.arms@)[x] == before[x]);
                                }
                            }
                        }
                    }
                },
            }
            i = i + 1;
        }
        assert(arm_views(defaults@).take(defaults.len() as int) =~= arm_views(defaults@));
        assert(arm_views(defaults@) =~= default_arm_views());
    }
}

/// Arm names are pairwise distinct.
pub open spec fn distinct_names(arms: Seq<ArmView>) -> bool {
    forall|i: int, j: int| 0 <= i < j < arms.len() ==> arms[i].name != arms[j].name
}

/// The first `k` arms have been pulled and the others not.
pub open spec fn explored_upto(arms: Seq<ArmView>, k: int) -> bool {
    &&& forall|i: int| 0 <= i < k ==> arms[i].pulls > 0
    &&& forall|i: int| k <= i < arms.len() ==> arms[i].pulls == 0
}

proof fn lemma_view_named_valid(arms: Seq<ArmView>, name: Seq<char>)
    ensures
        view_named(arms, name) matches Some(k) ==> 0 <= k < arms.len() && arms[k].name == name
            && forall|j: int| 0 <= j < k ==> arms[j].name != name,
        view_named(arms, name) is None ==> forall|j: int| 0 <= j < arms.len() ==> arms[j].name != name,
    decreases arms.len(),
{
    if arms.len() > 0 {
        lemma_view_named_valid(arms.drop_last(), name);
        assert forall|j: int| 0 <= j < arms.len() - 1 implies arms[j] == arms.drop_last()[j] by {}
    }
}

/// Unpulled arms are explored first, in order: while the first `k` arms (and
/// no others) have been pulled, the next selection is arm `k`, whatever the
/// scores, and recording it leaves the first `k + 1` arms pulled.
pub proof fn lemma_explore_in_order(
    arms: Seq<ArmView>,
    k: int,
    scores: Seq<Num>,
    kept: bool,
)
    requires
        distinct_names(arms),
        0 <= k < arms.len(),
        explored_upto(arms, k),
    ensures
        selected(arms, scores) == k,
        explored_upto(pulled(arms, arms[k].name, kept), k + 1),
        distinct_names(pulled(arms, arms[k].name, kept)),
        pulled(arms, arms[k].name, kept).len() == arms.len(),
{
    lemma_first_unpulled_valid(arms);
    if first_unpulled(arms) is None {
        assert(arms[k].pulls != 0);
    }
    let f = first_unpulled(arms)->0;
    if f < k {
        assert(arms[f].pulls > 0);
    }
    if f > k {
        assert(arms[k].pulls != 0);
    }
    lemma_view_named_valid(arms, arms[k].name);
    let n = view_named(arms, arms[k].name);
    if n is None {
        assert(arms[k].name != arms[k].name);
    }
    let m = n->0;
    if m < k {
        assert(arms[m].name != arms[k].name);
    }
    if m > k {
        assert(arms[k].name != arms[k].name);
    }
}

/// The default arms have pairwise distinct names.
pub proof fn lemma_default_names_distinct()
    ensures
        distinct_names(default_arm_views()),
{
    reveal_strlit("algorithm");
    reveal_strlit("data-structure");
    reveal_strlit("micro-optimization");
    reveal_strlit("parallelism");
    reveal_strlit("memory-layout");
    reveal_strlit("rewrite");
    let a = default_arm_views();
    assert forall|i: int, j: int| 0 <= i < j < a.len() implies a[i].name != a[j].name by {
        assert(a[i].name.len() != a[j].name.len() || a[i].name[0] != a[j].name[0] || a[i].name[1]
            != a[j].name[1]);
    }
}


/// Some arm is named `name`.
pub open spec fn has_name(arms: Seq<ArmView>, name: Seq<char>) -> bool {
    exists|j: int| 0 <= j < arms.len() && arms[j].name == name
}

proof fn lemma_with_defaults_grows(a: Seq<ArmView>, d: Seq<ArmView>)
    ensures
        with_defaults(a, d).len() >= a.len(),
        with_defaults(a, d).take(a.len() as int) == a,
        forall|i: int| 0 <= i < d.len() ==> has_name(with_defaults(a, d), #[trigger] d[i].name),
    decreases d.len(),
{
    if d.len() > 0 {
        let dd = d.drop_last();
        lemma_with_defaults_grows(a, dd);
        let prev = with_defaults(a, dd);
        let w = with_defaults(a, d);
        lemma_view_named_valid(prev, d.last().name);
        assert(w.take(a.len() as int) =~= prev.take(a.len() as int));
        assert forall|i: int| 0 <= i < d.len() implies has_name(w, #[trigger] d[i].name) by {
            if i < d.len() - 1 {
                assert(dd[i] == d[i]);
                assert(has_name(prev, dd[i].name));
                let j = choose|j: int| 0 <= j < prev.len() && prev[j].name == dd[i].name;
                assert(w[j] == prev[j]);
            } else if view_named(prev, d.last().name) is Some {
                let j = view_named(prev, d.last().name)->0;
                assert(w[j] == prev[j]);
            } else {
                assert(w[prev.len() as int] == d.last());
            }
        }
    }
}

/// Adding the defaults changes nothing when every default name is already taken.
pub proof fn lemma_with_defaults_noop(b: Seq<ArmView>, d: Seq<ArmView>)
    requires
        forall|i: int| 0 <= i < d.len() ==> has_name(b, #[trigger] d[i].name),
    ensures
        with_defaults(b, d) == b,
    decreases d.len(),
{
    if d.len() > 0 {
        let dd = d.drop_last();
        assert forall|i: int| 0 <= i < dd.len() implies has_name(b, #[trigger] dd[i].name) by {
            assert(dd[i] == d[i]);
        }
        lemma_with_defaults_noop(b, dd);
        lemma_view_named_valid(b, d.last().name);
        assert(has_name(b, d[d.len() - 1].name));
    }
}

/// Adding the missing default arms twice is adding them once: a state that
/// gained them on one load gains nothing on the next.
pub proof fn lemma_with_defaults_idempotent(a: Seq<ArmView>, d: Seq<ArmView>)
    ensures
        with_defaults(with_defaults(a, d), d) == with_defaults(a, d),
        a.len() <= with_defaults(a, d).len(),
        with_defaults(a, d).take(a.len() as int) == a,
{
    lemma_with_defaults_grows(a, d);
    lemma_with_defaults_noop(with_defaults(a, d), d);
}


/// The arms of `d` whose name no arm of `a` has, in order.
pub open spec fn missing_defaults(a: Seq<ArmView>, d: Seq<ArmView>) -> Seq<ArmView>
    decreases d.len(),
{
    if d.len() == 0 {
        Seq::empty()
    } else {
        let m = missing_defaults(a, d.drop_last());
        if has_name(a, d.last().name) {
            m
        } else {
            m.push(d.last())
        }
    }
}

proof fn lemma_missing_from(a: Seq<ArmView>, d: Seq<ArmView>)
    ensures
        forall|j: int|
            0 <= j < missing_defaults(a, d).len() ==> exists|i: int|
                0 <= i < d.len() && (#[trigger] missing_defaults(a, d)[j]).name == d[i].name,
    decreases d.len(),
{
    if d.len() > 0 {
        let dd = d.drop_last();
        lemma_missing_from(a, dd);
        let m = missing_defaults(a, dd);
        assert forall|j: int| 0 <= j < missing_defaults(a, d).len() implies exists|i: int|
            0 <= i < d.len() && (#[trigger] missing_defaults(a, d)[j]).name == d[i].name by {
            if j < m.len() {
                assert(missing_defaults(a, d)[j] == m[j]);
                let i = choose|i: int| 0 <= i < dd.len() && m[j].name == dd[i].name;
                assert(dd[i] == d[i]);
            } else {
                assert(missing_defaults(a, d)[j] == d[d.len() - 1]);
            }
        }
    }
}

/// With default arms of distinct names, adding the missing defaults appends,
/// after the arms there were, each default whose name none of them has, in
/// default order.
pub proof fn lemma_with_defaults_appends(a: Seq<ArmView>, d: Seq<ArmView>)
    requires
        distinct_names(d),
    ensures
        with_defaults(a, d) == a + missing_defaults(a, d),
    decreases d.len(),
{
    if d.len() == 0 {
        assert(a + Seq::<ArmView>::empty() =~= a);
    } else {
        let dd = d.drop_last();
        let last = d.last();
        lemma_with_defaults_appends(a, dd);
        let m = missing_defaults(a, dd);
        let prev = a + m;
        lemma_view_named_valid(prev, last.name);
        lemma_missing_from(a, dd);
        assert(has_name(prev, last.name) <==> has_name(a, last.name)) by {
            if has_name(a, last.name) {
                let j = choose|j: int| 0 <= j < a.len() && a[j].name == last.name;
                assert(prev[j] == a[j]);
            }
            if has_name(prev, last.name) && !has_name(a, last.name) {
                let j = choose|j: int| 0 <= j < prev.len() && prev[j].name == last.name;
                if j < a.len() {
                    assert(prev[j] == a[j]);
                } else {
                    assert(prev[j] == m[j - a.len()]);
                    let i = choose|i: int| 0 <= i < dd.len() && (#[trigger] m[j - a.len()]).name == dd[i].name;
                    assert(dd[i] == d[i]);
                    assert(d[i].name != d[d.len() - 1].name);
                }
            }
        }
        if view_named(prev, last.name) is Some {
            assert(has_name(prev, last.name));
        } else {
            assert(!has_name(prev, last.name));
            assert(prev.push(last) =~= a + m.push(last));
        }
    }
}

/// Loading a saved state adds, after the saved arms, each default arm the
/// saved ones lack, in default order (what `ensure_default_arms` does).
pub proof fn lemma_loaded_arms_gain_missing_defaults(a: Seq<ArmView>)
    ensures
        with_defaults(a, default_arm_views()) == a + missing_defaults(a, default_arm_views()),
{
    lemma_default_names_distinct();
    lemma_with_defaults_appends(a, default_arm_views());
}


/// UCB1 selection, in terms of the pulls and scores: while some arm was never
/// pulled, the first such arm is selected; once every arm was pulled and some
/// score is above minus infinity, the selected arm's score is above minus
/// infinity and no arm's score is strictly higher (every arm, the last one
/// included, is weighed).
pub proof fn lemma_selection_means(arms: Seq<ArmView>, scores: Seq<Num>)
    requires
        arms.len() > 0,
        scores.len() == arms.len(),
    ensures
        0 <= selected(arms, scores) < arms.len(),
        (exists|i: int| 0 <= i < arms.len() && arms[i].pulls == 0) ==> {
            &&& arms[selected(arms, scores)].pulls == 0
            &&& forall|j: int| 0 <= j < selected(arms, scores) ==> arms[j].pulls != 0
        },
        (forall|i: int| 0 <= i < arms.len() ==> arms[i].pulls != 0) && (exists|i: int|
            0 <= i < scores.len() && spec_gt(#[trigger] scores[i], neg_infinity())) ==> {
            &&& spec_gt(scores[selected(arms, scores)], neg_infinity())
            &&& forall|j: int| 0 <= j < scores.len() ==> !spec_gt(#[trigger] scores[j], scores[selected(arms, scores)])
            &&& forall|j: int|
                0 <= j < selected(arms, scores) && spec_gt(#[trigger] scores[j], neg_infinity()) ==> spec_gt(
                    scores[selected(arms, scores)],
                    scores[j],
                )
        },
{
    lemma_first_unpulled_valid(arms);
    let cs = contenders(scores);
    crate::compare::lemma_first_best_is_best(cs, crate::config::Direction::Maximize);
    assert forall|j: int| 0 <= j < cs.len() && (#[trigger] cs[j]) is Some implies !crate::num::is_nan(
        cs[j]->0,
    ) by {}
    crate::compare::lemma_first_best_is_first(cs, crate::config::Direction::Maximize);
    if first_unpulled(arms) is None {
        if exists|i: int| 0 <= i < scores.len() && spec_gt(#[trigger] scores[i], neg_infinity()) {
            let i = choose|i: int| 0 <= i < scores.len() && spec_gt(#[trigger] scores[i], neg_infinity());
            assert(cs[i] is Some);
            let k = first_best(cs, crate::config::Direction::Maximize)->0;
            assert(cs[k] == Some(scores[k]));
            assert forall|j: int| 0 <= j < k && spec_gt(#[trigger] scores[j], neg_infinity()) implies spec_gt(
                scores[k],
                scores[j],
            ) by {
                assert(cs[j] == Some(scores[j]));
            }
            assert forall|j: int| 0 <= j < scores.len() implies !spec_gt(
                #[trigger] scores[j],
                scores[k],
            ) by {
                if cs[j] is Some {
                    assert(cs[j] == Some(scores[j]));
                } else {
                    assert(!spec_gt(scores[j], neg_infinity()));
                    if spec_gt(scores[j], scores[k]) {
                        crate::num::lemma_gt_transitive(scores[j], scores[k], neg_infinity());
                    }
                }
            }
        }
    } else {
        let f = first_unpulled(arms)->0;
        assert(arms[f].pulls == 0);
    }
}

} // verus!
