use flowgraph::backpressure::{
    BackpressureAction, BackpressureCtx, BackpressurePolicy, BlockPolicy, CreditPolicy, DropPolicy, OverwritePolicy,
    StatelessPolicy,
};
use flowgraph::link::WritePolicy;

fn not_full() -> BackpressureCtx {
    BackpressureCtx { fill: 1, capacity: 4, closed: false, credits: u64::MAX }
}

fn full() -> BackpressureCtx {
    BackpressureCtx { fill: 4, capacity: 4, closed: false, credits: u64::MAX }
}

fn unbounded() -> BackpressureCtx {
    BackpressureCtx { fill: 100, capacity: 0, closed: false, credits: u64::MAX }
}

#[test]
fn ctx_is_full_when_fill_ge_capacity() {
    assert!(full().is_full());
}

#[test]
fn ctx_not_full_when_fill_lt_capacity() {
    assert!(!not_full().is_full());
}

#[test]
fn ctx_unbounded_never_full() {
    assert!(!unbounded().is_full());
}

#[test]
fn block_policy_proceeds_when_not_full() {
    let p = BlockPolicy::new();
    assert_eq!(p.decide(not_full()), BackpressureAction::Proceed);
}

#[test]
fn block_policy_blocks_when_full() {
    let p = BlockPolicy::new();
    assert_eq!(p.decide(full()), BackpressureAction::Block);
}

#[test]
fn block_policy_name() {
    assert_eq!(BlockPolicy::new().name(), "block");
}

#[test]
fn drop_policy_proceeds_when_not_full() {
    let p = DropPolicy::new();
    assert_eq!(p.decide(not_full()), BackpressureAction::Proceed);
}

#[test]
fn drop_policy_drops_when_full() {
    let p = DropPolicy::new();
    assert_eq!(p.decide(full()), BackpressureAction::Drop);
}

#[test]
fn overwrite_policy_proceeds_when_not_full() {
    let p = OverwritePolicy::new();
    assert_eq!(p.decide(not_full()), BackpressureAction::Proceed);
}

#[test]
fn overwrite_policy_overwrites_when_full() {
    let p = OverwritePolicy::new();
    assert_eq!(p.decide(full()), BackpressureAction::Overwrite);
}

#[test]
fn credit_policy_initial_credits_equals_window() {
    let p = CreditPolicy::new(10);
    assert_eq!(p.credits(), 10);
    assert_eq!(p.window(), 10);
}

#[test]
fn credit_policy_default_window_64() {
    let p = CreditPolicy::default();
    assert_eq!(p.window(), 64);
    assert_eq!(p.credits(), 64);
}

#[test]
fn credit_policy_proceeds_with_credits() {
    let p = CreditPolicy::new(5);
    let ctx = BackpressureCtx { fill: 0, capacity: 4, closed: false, credits: 5 };
    assert_eq!(p.decide(ctx), BackpressureAction::Proceed);
}

#[test]
fn credit_policy_defers_when_zero_credits() {
    let p = CreditPolicy::new(5);
    let ctx = BackpressureCtx { fill: 0, capacity: 4, closed: false, credits: 0 };
    assert_eq!(p.decide(ctx), BackpressureAction::Defer);
}

#[test]
fn credit_policy_on_sent_decrements() {
    let mut p = CreditPolicy::new(3);
    p.on_sent();
    p.on_sent();
    assert_eq!(p.credits(), 1);
}

#[test]
fn credit_policy_on_sent_saturates_at_zero() {
    let mut p = CreditPolicy::new(1);
    p.on_sent();
    p.on_sent();
    p.on_sent();
    assert_eq!(p.credits(), 0);
}

#[test]
fn credit_policy_on_consumed_replenishes() {
    let mut p = CreditPolicy::new(2);
    p.on_sent();
    assert_eq!(p.credits(), 1);
    p.on_consumed();
    assert_eq!(p.credits(), 2);
}

#[test]
fn credit_policy_on_consumed_saturates_at_window() {
    let mut p = CreditPolicy::new(2);
    for _ in 0..5 {
        p.on_consumed();
    }
    assert_eq!(p.credits(), 2);
}

#[test]
fn credit_policy_name() {
    assert_eq!(CreditPolicy::default().name(), "credit");
}

#[test]
fn credit_policy_send_consume_cycle() {
    let mut p = CreditPolicy::new(2);
    p.on_sent();
    assert_eq!(p.credits(), 1);
    p.on_sent();
    assert_eq!(p.credits(), 0);
    let ctx_empty = BackpressureCtx { fill: 0, capacity: 4, closed: false, credits: 0 };
    assert_eq!(p.decide(ctx_empty), BackpressureAction::Defer);
    p.on_consumed();
    assert_eq!(p.credits(), 1);
    let ctx_one = BackpressureCtx { fill: 0, capacity: 4, closed: false, credits: 1 };
    assert_eq!(p.decide(ctx_one), BackpressureAction::Proceed);
}

#[test]
fn write_policy_blocking_into_block() {
    let p = WritePolicy::Blocking.into_policy();
    assert_eq!(p.decide(full()), BackpressureAction::Block);
}

#[test]
fn write_policy_dropping_into_drop() {
    let p = WritePolicy::Dropping.into_policy();
    assert_eq!(p.decide(full()), BackpressureAction::Drop);
}

#[test]
fn write_policy_overwriting_into_overwrite() {
    let p = WritePolicy::Overwriting.into_policy();
    assert_eq!(p.decide(full()), BackpressureAction::Overwrite);
}

#[test]
fn stateless_policy_credits_unlimited() {
    assert_eq!(BackpressurePolicy::credits(&BlockPolicy::new()), u64::MAX);
    assert_eq!(DropPolicy::new().credits(), u64::MAX);
    assert_eq!(OverwritePolicy::new().credits(), u64::MAX);
}

#[test]
fn stateless_policy_on_sent_noop() {
    let mut p = BlockPolicy::new();
    p.on_sent();
    p.on_consumed();
    assert_eq!(p.decide(not_full()), BackpressureAction::Proceed);
    assert_eq!(p.decide(full()), BackpressureAction::Block);
}

// ── Further cases ──

#[test]
fn credit_policy_trait_credits_track_sends() {
    let mut p = CreditPolicy::new(3);
    p.on_sent();
    assert_eq!(BackpressurePolicy::credits(&p), 2);
}

#[test]
fn credit_policy_zero_window_always_defers_its_own_credits() {
    let p = CreditPolicy::new(0);
    let ctx = BackpressureCtx { fill: 0, capacity: 4, closed: false, credits: p.credits() };
    assert_eq!(p.decide(ctx), BackpressureAction::Defer);
}

#[test]
fn stateless_policy_proceeds_on_unbounded_channel() {
    let p = WritePolicy::Dropping.into_policy();
    assert!(matches!(p, StatelessPolicy::Drop(_)));
    assert_eq!(p.decide(unbounded()), BackpressureAction::Proceed);
    assert_eq!(p.name(), "drop");
}
