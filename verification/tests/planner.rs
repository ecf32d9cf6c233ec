use maptrax::field::SwathType;
use maptrax::net::{RoutingOptions, RoutingStrategy};
use maptrax::planner::{
    base_stride, escalation_attempts, fallback_models, ordered_work_positions, resolve_routing, Attempt, Escalation,
    EscalationAction, Judged,
};
use maptrax::tour::TurnPlannerModel;

#[test]
fn turn_radius_aware_resolves_to_skip_rows() {
    let routing = RoutingOptions { strategy: RoutingStrategy::TurnRadiusAware, local_improvement_passes: 2 };
    let resolved = resolve_routing(routing, 4);
    assert_eq!(resolved.strategy, RoutingStrategy::SkipRows { stride: 4 });
    assert_eq!(resolved.local_improvement_passes, 2);
    let snake = RoutingOptions { strategy: RoutingStrategy::Snake, local_improvement_passes: 1 };
    assert_eq!(resolve_routing(snake, 4), snake);
}

#[test]
fn ladder_base_stride() {
    assert_eq!(base_stride(RoutingStrategy::SkipRows { stride: 0 }, 5), 1);
    assert_eq!(base_stride(RoutingStrategy::SkipRows { stride: 3 }, 5), 3);
    assert_eq!(base_stride(RoutingStrategy::TurnRadiusAware, 5), 5);
    assert_eq!(base_stride(RoutingStrategy::Spiral, 5), 1);
}

#[test]
fn fallback_models_are_added_once() {
    assert_eq!(
        fallback_models(TurnPlannerModel::Dubins),
        vec![TurnPlannerModel::Dubins, TurnPlannerModel::ReedsShepp, TurnPlannerModel::Sharper]
    );
    assert_eq!(
        fallback_models(TurnPlannerModel::ReedsShepp),
        vec![TurnPlannerModel::ReedsShepp, TurnPlannerModel::Sharper]
    );
    assert_eq!(fallback_models(TurnPlannerModel::Sharper), vec![TurnPlannerModel::Sharper, TurnPlannerModel::ReedsShepp]);
}

#[test]
fn attempts_widen_stride_then_change_model() {
    let attempts = escalation_attempts(TurnPlannerModel::Sharper, 2);
    assert_eq!(attempts.len(), 8);
    assert_eq!(attempts[0], Attempt { model: TurnPlannerModel::Sharper, stride: 2 });
    assert_eq!(attempts[3], Attempt { model: TurnPlannerModel::Sharper, stride: 5 });
    assert_eq!(attempts[4], Attempt { model: TurnPlannerModel::ReedsShepp, stride: 2 });
    assert!(!attempts[0].escalated_from(TurnPlannerModel::Sharper, 2));
    assert!(attempts[1].escalated_from(TurnPlannerModel::Sharper, 2));
    assert!(attempts[4].escalated_from(TurnPlannerModel::Sharper, 2));
}

fn run(violations: &[usize]) -> EscalationAction {
    let (mut state, mut action) = Escalation::start(violations.len());
    loop {
        match action {
            EscalationAction::Try(i) => {
                let (next, next_action) = state.judge(violations.len(), violations[i]);
                state = next;
                action = next_action;
            }
            done => return done,
        }
    }
}

#[test]
fn ladder_accepts_the_first_feasible_attempt() {
    assert_eq!(run(&[3, 2, 0, 0]), EscalationAction::Accept(2));
    assert_eq!(run(&[0, 5]), EscalationAction::Accept(0));
}

#[test]
fn ladder_settles_on_the_first_least_bad_attempt() {
    assert_eq!(run(&[3, 1, 2, 1]), EscalationAction::Settle(1, 1));
    assert_eq!(run(&[4]), EscalationAction::Settle(0, 4));
}

#[test]
fn judging_tracks_the_best_attempt() {
    let (state, action) = Escalation::start(3);
    assert_eq!(action, EscalationAction::Try(0));
    let (state, action) = state.judge(3, 5);
    assert_eq!(state.best, Some(Judged { index: 0, violations: 5 }));
    assert_eq!(action, EscalationAction::Try(1));
    let (state, _) = state.judge(3, 5);
    assert_eq!(state.best, Some(Judged { index: 0, violations: 5 }));
    assert_eq!(state.next, 2);
}

#[test]
fn connectors_are_dropped_from_the_routed_order() {
    let kinds = vec![SwathType::Swath, SwathType::Connection, SwathType::Swath, SwathType::Around];
    assert_eq!(ordered_work_positions(&kinds), vec![0, 2, 3]);
}
