use ratchet::bandit::{Arm, BanditState};
use ratchet::num::Num;

const DEFAULT_EXPLORATION_C: f64 = 1.41421356;

fn num(x: f64) -> Num {
    Num { bits: x.to_bits() }
}

/// UCB1 scores as the command-line program computes them.
fn ucb_scores(state: &BanditState, c: f64) -> Vec<Num> {
    let ln_total = (state.total_pulls as f64).ln();
    state
        .arms
        .iter()
        .map(|a| {
            let mean = if a.pulls == 0 { 0.0 } else { a.rewards as f64 / a.pulls as f64 };
            num(mean + c * (ln_total / a.pulls as f64).sqrt())
        })
        .collect()
}

#[test]
fn test_new_bandit_has_six_arms() {
    let bandit = BanditState::new();
    assert_eq!(bandit.arms.len(), 6);
    assert_eq!(bandit.total_pulls, 0);
}

#[test]
fn test_unpulled_arms_selected_first() {
    let bandit = BanditState::new();
    let scores = ucb_scores(&bandit, DEFAULT_EXPLORATION_C);
    let arm = bandit.select_arm(&scores);
    assert_eq!(arm.name, "algorithm");
}

#[test]
fn test_round_robin_unpulled() {
    let mut bandit = BanditState::new();
    let mut selected: Vec<String> = Vec::new();
    for _ in 0..6 {
        let scores = ucb_scores(&bandit, DEFAULT_EXPLORATION_C);
        let arm = bandit.select_arm(&scores);
        selected.push(arm.name.clone());
        let name = arm.name.clone();
        bandit.update(&name, false);
    }
    assert_eq!(selected.len(), 6);
    let mut unique = selected.clone();
    unique.sort();
    unique.dedup();
    assert_eq!(unique.len(), 6);
}

#[test]
fn test_exploitation_favors_high_reward() {
    let mut bandit = BanditState::new();
    for arm in &bandit.arms.clone() {
        bandit.update(&arm.name, arm.name == "algorithm");
    }
    let scores = ucb_scores(&bandit, 0.0);
    let arm = bandit.select_arm(&scores);
    assert_eq!(arm.name, "algorithm");
}

#[test]
fn test_update_increments() {
    let mut bandit = BanditState::new();
    bandit.update("algorithm", true);
    bandit.update("algorithm", false);
    bandit.update("algorithm", true);
    let arm = bandit.arms.iter().find(|a| a.name == "algorithm").unwrap();
    assert_eq!(arm.pulls, 3);
    assert_eq!(arm.rewards, 2);
    assert_eq!(bandit.total_pulls, 3);
}

#[test]
fn update_of_unknown_arm_changes_nothing() {
    let mut bandit = BanditState::new();
    bandit.update("no-such-arm", true);
    assert_eq!(bandit.total_pulls, 0);
    assert!(bandit.arms.iter().all(|a| a.pulls == 0 && a.rewards == 0));
}

#[test]
fn arm_new_starts_unpulled() {
    let arm = Arm::new("test", "test arm");
    assert_eq!(arm.name, "test");
    assert_eq!(arm.description, "test arm");
    assert_eq!(arm.pulls, 0);
    assert_eq!(arm.rewards, 0);
}

#[test]
fn highest_score_wins_and_first_wins_ties() {
    let mut bandit = BanditState::new();
    for a in bandit.arms.iter_mut() {
        a.pulls = 1;
    }
    bandit.total_pulls = 6;
    let scores = vec![num(1.0), num(3.0), num(2.0), num(3.0), num(f64::NAN), num(0.5)];
    assert_eq!(bandit.select_arm(&scores).name, "data-structure");
    let all_nan = vec![num(f64::NAN); 6];
    assert_eq!(bandit.select_arm(&all_nan).name, "algorithm");
    let neg = vec![num(f64::NEG_INFINITY), num(f64::NEG_INFINITY), num(-5.0), num(-7.0), num(-5.0), num(-9.0)];
    assert_eq!(bandit.select_arm(&neg).name, "micro-optimization");
}

#[test]
fn missing_default_arms_are_added_in_order() {
    let mut bandit = BanditState { arms: vec![Arm::new("rewrite", "mine"), Arm::new("custom", "x")], total_pulls: 4 };
    bandit.ensure_default_arms();
    let names: Vec<&str> = bandit.arms.iter().map(|a| a.name.as_str()).collect();
    assert_eq!(
        names,
        vec!["rewrite", "custom", "algorithm", "data-structure", "micro-optimization", "parallelism", "memory-layout"]
    );
    assert_eq!(bandit.arms[0].description, "mine");
    assert_eq!(bandit.total_pulls, 4);
}

#[test]
fn total_is_the_sum_of_pulls() {
    let mut bandit = BanditState::new();
    for name in ["algorithm", "rewrite", "nope", "algorithm", "parallelism"] {
        bandit.update(name, name == "rewrite");
        let sum: usize = bandit.arms.iter().map(|a| a.pulls).sum();
        assert_eq!(bandit.total_pulls, sum);
        assert!(bandit.arms.iter().all(|a| a.rewards <= a.pulls));
    }
    assert_eq!(bandit.total_pulls, 4);
}

#[test]
fn adding_default_arms_twice_adds_them_once() {
    let mut bandit = BanditState { arms: vec![Arm::new("custom", "x")], total_pulls: 0 };
    bandit.ensure_default_arms();
    let names: Vec<String> = bandit.arms.iter().map(|a| a.name.clone()).collect();
    bandit.ensure_default_arms();
    let again: Vec<String> = bandit.arms.iter().map(|a| a.name.clone()).collect();
    assert_eq!(names, again);
    assert_eq!(names.len(), 7);
    assert_eq!(names[0], "custom");
}
