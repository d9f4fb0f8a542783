use gltf_collider::schedule::ColliderState;
use gltf_collider::schedule::MAX_TICKS;
use gltf_collider::schedule::SessionContext;
use gltf_collider::schedule::valid_state;

#[test]
fn gate_is_eligible_for_exactly_the_budget() {
    let mut ctx = SessionContext::new();
    for evaluation in 1..=MAX_TICKS {
        assert!(
            valid_state(&mut ctx, true),
            "evaluation {} should be eligible",
            evaluation
        );
        assert_eq!(ctx.tick_count, evaluation);
    }
    // The 201st evaluation, and every one after it, is ineligible; the
    // budget keeps counting and never resets.
    for evaluation in MAX_TICKS + 1..=MAX_TICKS + 10 {
        assert!(
            !valid_state(&mut ctx, true),
            "evaluation {} should be ineligible",
            evaluation
        );
        assert_eq!(ctx.tick_count, evaluation);
    }
    assert_eq!(ctx.state, ColliderState::Waiting);
}

#[test]
fn gate_requires_assets_loaded() {
    let mut ctx = SessionContext::new();
    assert!(!valid_state(&mut ctx, false));
    // The budget is consumed even by ineligible evaluations.
    assert_eq!(ctx.tick_count, 1);
    assert!(valid_state(&mut ctx, true));
    assert_eq!(ctx.tick_count, 2);
}

#[test]
fn gate_is_ineligible_once_done() {
    let mut ctx = SessionContext::new();
    ctx.state = ColliderState::Done;
    assert!(!valid_state(&mut ctx, true));
    assert_eq!(ctx.tick_count, 1);
    assert_eq!(ctx.state, ColliderState::Done);
}

#[test]
fn fresh_context_starts_waiting_at_zero() {
    let ctx = SessionContext::new();
    assert_eq!(ctx.tick_count, 0);
    assert_eq!(ctx.state, ColliderState::Waiting);
}
