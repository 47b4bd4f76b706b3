use ratchet::session::{
    after_tag_probe, baseline_accepted, branch_plan, classify, start_step, BranchPlan, LoopState, Outcome,
    StartStep, Stop, TagStep,
};

#[test]
fn stops_in_order_interrupt_max_patience() {
    let mut s = LoopState::new("start".to_string());
    assert_eq!(s.begin(true, Some(0), Some(0)), Some(Stop::Interrupted));
    let mut s = LoopState::new("start".to_string());
    assert_eq!(s.begin(false, Some(0), Some(0)), Some(Stop::MaxIterations(0)));
    let mut s = LoopState::new("start".to_string());
    assert_eq!(s.begin(false, Some(5), Some(0)), Some(Stop::PatienceExhausted(0)));
    let mut s = LoopState::new("start".to_string());
    assert_eq!(s.begin(false, None, None), None);
    assert_eq!(s.iteration, 1);
}

#[test]
fn max_iterations_allows_exactly_that_many() {
    let mut s = LoopState::new("start".to_string());
    let mut ran = 0;
    while s.begin(false, Some(3), None).is_none() {
        ran += 1;
        s.finish(Outcome::Keep, &format!("c{}", ran));
    }
    assert_eq!(ran, 3);
}

#[test]
fn keep_resets_patience_and_moves_rollback_target() {
    let mut s = LoopState::new("base0".to_string());
    assert_eq!(s.begin(false, None, Some(2)), None);
    let r = s.finish(Outcome::Discard, &"c1".to_string());
    assert_eq!(r, Some("base0".to_string()));
    assert_eq!(s.since_improvement, 1);
    assert_eq!(s.begin(false, None, Some(2)), None);
    let r = s.finish(Outcome::Keep, &"c2".to_string());
    assert_eq!(r, None);
    assert_eq!(s.best_commit, "c2");
    assert_eq!(s.since_improvement, 0);
    assert_eq!(s.begin(false, None, Some(2)), None);
    assert_eq!(s.finish(Outcome::Crash, &"c3".to_string()), Some("c2".to_string()));
    assert_eq!(s.begin(false, None, Some(2)), None);
    assert_eq!(s.finish(Outcome::AgentError, &"c3".to_string()), None);
    assert_eq!(s.begin(false, None, Some(2)), Some(Stop::PatienceExhausted(2)));
}

#[test]
fn outcomes_are_classified_in_order() {
    assert_eq!(classify(false, true, true, true, true, true), Outcome::AgentError);
    assert_eq!(classify(true, false, true, true, true, true), Outcome::NoChanges);
    assert_eq!(classify(true, true, false, true, true, true), Outcome::Crash);
    assert_eq!(classify(true, true, true, false, true, true), Outcome::Crash);
    assert_eq!(classify(true, true, true, true, false, true), Outcome::ConstraintViolation);
    assert_eq!(classify(true, true, true, true, true, true), Outcome::Keep);
    assert_eq!(classify(true, true, true, true, true, false), Outcome::Discard);
    assert_eq!(Outcome::ConstraintViolation.status(), Some("crash"));
    assert_eq!(Outcome::Discard.revert_reason(), Some("no improvement"));
    assert_eq!(Outcome::NoChanges.status(), None);
    assert!(!Outcome::Keep.rolls_back());
}

#[test]
fn branch_plans() {
    assert!(matches!(branch_plan(&Some("ratchet/mar10".to_string())), BranchPlan::Stay(n) if n == "ratchet/mar10"));
    assert!(matches!(branch_plan(&Some("main".to_string())), BranchPlan::Create));
    assert!(matches!(branch_plan(&Some("master".to_string())), BranchPlan::Create));
    assert!(matches!(branch_plan(&Some("feature".to_string())), BranchPlan::Refuse(n) if n == "feature"));
    assert!(matches!(branch_plan(&None), BranchPlan::Detached));
}

#[test]
fn rejected_results_roll_back_to_the_start_while_only_the_baseline_is_kept() {
    let mut s = LoopState::new("s0".to_string());
    assert_eq!(s.begin(false, None, None), None);
    assert_eq!(s.finish(Outcome::Crash, &"x1".to_string()), Some("s0".to_string()));
    assert_eq!(s.begin(false, None, None), None);
    assert_eq!(s.finish(Outcome::Discard, &"x2".to_string()), Some("s0".to_string()));
    assert_eq!(s.begin(false, None, None), None);
    assert_eq!(s.finish(Outcome::Keep, &"k3".to_string()), None);
    assert_eq!(s.begin(false, None, None), None);
    assert_eq!(s.finish(Outcome::ConstraintViolation, &"x4".to_string()), Some("k3".to_string()));
}

#[test]
fn pre_loop_decisions() {
    assert_eq!(start_step(0), StartStep::EstablishBaseline);
    assert_eq!(start_step(3), StartStep::Resume);
    assert!(baseline_accepted(true, 2));
    assert!(!baseline_accepted(true, 0));
    assert!(!baseline_accepted(false, 2));
    assert_eq!(after_tag_probe(1, true), TagStep::Next(2));
    assert_eq!(after_tag_probe(2, false), TagStep::Take);
}
