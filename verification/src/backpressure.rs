//! Backpressure policies: what a send does when the downstream channel is
//! full, or, for credit-based flow control, when no credit is left.
//!
//! A policy only decides. A runtime reads its channel's state into a
//! [`BackpressureCtx`], asks the policy for a [`BackpressureAction`], and
//! carries the action out on its own channel; after a send it calls
//! `on_sent`, and when the downstream consumes a value, `on_consumed`.
use vstd::prelude::*;
use crate::link::WritePolicy;

verus! {

/// A snapshot of the downstream channel, handed to a policy's `decide`.
#[derive(Debug, Clone, Copy)]
pub struct BackpressureCtx {
    /// Items queued in the channel.
    pub fill: usize,
    /// Items the channel holds; 0 for an unbounded channel.
    pub capacity: usize,
    /// Whether the receiver is gone.
    pub closed: bool,
    /// Credits available to a credit-based policy; `u64::MAX` when the
    /// policy counts none.
    pub credits: u64,
}

/// Whether a channel is at capacity; an unbounded one never is.
pub open spec fn ctx_full(ctx: BackpressureCtx) -> bool {
    ctx.capacity > 0 && ctx.fill >= ctx.capacity
}

impl BackpressureCtx {
    /// Whether the channel is at capacity; an unbounded channel never is.
    pub fn is_full(&self) -> (r: bool)
        ensures
            r == ctx_full(*self),
    {
        self.capacity > 0 && self.fill >= self.capacity
    }
}

/// What a runtime does with a send.
#[derive(Debug, Clone, Copy, PartialEq, Eq, Structural)]
pub enum BackpressureAction {
    /// Send now: there is room.
    Proceed,
    /// Block the sender until there is room, then send.
    Block,
    /// Drop the new value.
    Drop,
    /// Evict the oldest queued value and send the new one.
    Overwrite,
    /// Do not send now; yield and try again later.
    Defer,
}

/// A backpressure policy. Stateless policies keep the default `on_sent`,
/// `on_consumed` and `credits`.
pub trait BackpressurePolicy {
    /// What to do with a send, given the channel's state.
    fn decide(&self, ctx: BackpressureCtx) -> BackpressureAction;

    /// Called after a successful send.
    fn on_sent(&mut self) {
    }

    /// Called after the downstream consumed a value.
    fn on_consumed(&mut self) {
    }

    /// The credits available; `u64::MAX` for a policy that counts none.
    fn credits(&self) -> (c: u64)
        default_ensures
            c == u64::MAX,
    {
        u64::MAX
    }

    /// The policy's name, for diagnostics.
    fn name(&self) -> (s: &'static str)
        default_ensures
            s@ == "backpressure"@,
    {
        proof {
            reveal_strlit("backpressure");
        }
        "backpressure"
    }
}

/// Blocks the sender while the channel is full: no value is lost.
#[derive(Debug, Default, Clone, Copy)]
pub struct BlockPolicy;

impl BlockPolicy {
    pub fn new() -> Self {
        BlockPolicy
    }
}

impl BackpressurePolicy for BlockPolicy {
    fn decide(&self, ctx: BackpressureCtx) -> (a: BackpressureAction)
        ensures
            a == if ctx_full(ctx) { BackpressureAction::Block } else { BackpressureAction::Proceed },
    {
        if ctx.is_full() {
            BackpressureAction::Block
        } else {
            BackpressureAction::Proceed
        }
    }

    fn name(&self) -> (s: &'static str)
        ensures
            s@ == "block"@,
    {
        proof {
            reveal_strlit("block");
        }
        "block"
    }
}

/// Drops the new value while the channel is full.
#[derive(Debug, Default, Clone, Copy)]
pub struct DropPolicy;

impl DropPolicy {
    pub fn new() -> Self {
        DropPolicy
    }
}

impl BackpressurePolicy for DropPolicy {
    fn decide(&self, ctx: BackpressureCtx) -> (a: BackpressureAction)
        ensures
            a == if ctx_full(ctx) { BackpressureAction::Drop } else { BackpressureAction::Proceed },
    {
        if ctx.is_full() {
            BackpressureAction::Drop
        } else {
            BackpressureAction::Proceed
        }
    }

    fn name(&self) -> (s: &'static str)
        ensures
            s@ == "drop"@,
    {
        proof {
            reveal_strlit("drop");
        }
        "drop"
    }
}

/// Evicts the oldest queued value while the channel is full.
#[derive(Debug, Default, Clone, Copy)]
pub struct OverwritePolicy;

impl OverwritePolicy {
    pub fn new() -> Self {
        OverwritePolicy
    }
}

impl BackpressurePolicy for OverwritePolicy {
    fn decide(&self, ctx: BackpressureCtx) -> (a: BackpressureAction)
        ensures
            a == if ctx_full(ctx) { BackpressureAction::Overwrite } else { BackpressureAction::Proceed },
    {
        if ctx.is_full() {
            BackpressureAction::Overwrite
        } else {
            BackpressureAction::Proceed
        }
    }

    fn name(&self) -> (s: &'static str)
        ensures
            s@ == "overwrite"@,
    {
        proof {
            reveal_strlit("overwrite");
        }
        "overwrite"
    }
}

/// Credit-based flow control: the sender starts with a window of credits,
/// each send takes one, each consumed value gives one back, and with no
/// credit left the send is deferred. No value is lost, at most `window`
/// are in flight, and the sender never blocks.
#[derive(Debug)]
pub struct CreditPolicy {
    credits: u64,
    window: u64,
}

/// The credits and window after a send: one credit fewer, never below 0.
pub open spec fn after_sent(v: (u64, u64)) -> (u64, u64) {
    (if v.0 > 0 { (v.0 - 1) as u64 } else { 0u64 }, v.1)
}

/// The credits and window after a consumed value: one credit more, never
/// above the window.
pub open spec fn after_consumed(v: (u64, u64)) -> (u64, u64) {
    (if v.0 < v.1 { (v.0 + 1) as u64 } else { v.0 }, v.1)
}

/// A consumed value gives back the credit its send took.
pub proof fn lemma_send_then_consume(credits: u64, window: u64)
    requires
        0 < credits <= window,
    ensures
        after_consumed(after_sent((credits, window))) == (credits, window),
{
}

/// The credits never leave `0..=window`, whatever the sends and consumed
/// values.
pub proof fn lemma_credits_bounded(v: (u64, u64))
    requires
        v.0 <= v.1,
    ensures
        after_sent(v).0 <= after_sent(v).1,
        after_consumed(v).0 <= after_consumed(v).1,
        after_sent(v).1 == v.1,
        after_consumed(v).1 == v.1,
{
}

/// The credits and window after a sequence of events applied in order,
/// `true` for a send and `false` for a consumed value.
pub open spec fn after_events(v: (u64, u64), evs: Seq<bool>) -> (u64, u64)
    decreases evs.len(),
{
    if evs.len() == 0 {
        v
    } else {
        after_events(if evs[0] { after_sent(v) } else { after_consumed(v) }, evs.drop_first())
    }
}

/// Over any sequence of sends and consumed values the window stays what it
/// was and the credits stay within it.
pub proof fn lemma_events_keep_window(v: (u64, u64), evs: Seq<bool>)
    requires
        v.0 <= v.1,
    ensures
        after_events(v, evs).0 <= after_events(v, evs).1,
        after_events(v, evs).1 == v.1,
    decreases evs.len(),
{
    if evs.len() > 0 {
        lemma_credits_bounded(v);
        lemma_events_keep_window(if evs[0] { after_sent(v) } else { after_consumed(v) }, evs.drop_first());
    }
}

/// `k` sends take `k` credits, stopping at none: from `c` credits they leave
/// `c - k`, or 0 when `k` exceeds `c`.
pub proof fn lemma_sends_saturate(v: (u64, u64), k: nat)
    ensures
        after_events(v, Seq::new(k, |i: int| true)) == (if k <= v.0 { (v.0 - k) as u64 } else { 0u64 }, v.1),
    decreases k,
{
    if k > 0 {
        assert(Seq::new(k, |i: int| true).drop_first() =~= Seq::new((k - 1) as nat, |i: int| true));
        lemma_sends_saturate(after_sent(v), (k - 1) as nat);
    }
}

impl View for CreditPolicy {
    /// The credits left and the window.
    type V = (u64, u64);

    closed spec fn view(&self) -> (u64, u64) {
        (self.credits, self.window)
    }
}

impl CreditPolicy {
    #[verifier::type_invariant]
    spec fn inv(self) -> bool {
        self.credits <= self.window
    }

    /// A policy with a full window of `window` credits.
    pub fn new(window: u64) -> (p: Self)
        ensures
            p@ == (window, window),
    {
        CreditPolicy { credits: window, window }
    }

    /// The window it was made with.
    pub fn window(&self) -> (w: u64)
        ensures
            w == self@.1,
    {
        self.window
    }

    /// The credits left; never more than the window.
    pub fn credits(&self) -> (c: u64)
        ensures
            c == self@.0,
            c <= self@.1,
    {
        proof {
            use_type_invariant(self);
        }
        self.credits
    }
}

impl Default for CreditPolicy {
    fn default() -> (p: Self)
        ensures
            p@ == (64u64, 64u64),
    {
        CreditPolicy::new(64)
    }
}

impl BackpressurePolicy for CreditPolicy {
    fn decide(&self, ctx: BackpressureCtx) -> (a: BackpressureAction)
        ensures
            a == if ctx.credits == 0 { BackpressureAction::Defer } else { BackpressureAction::Proceed },
    {
        if ctx.credits == 0 {
            BackpressureAction::Defer
        } else {
            BackpressureAction::Proceed
        }
    }

    fn credits(&self) -> (c: u64)
        ensures
            c == self@.0,
    {
        self.credits
    }

    fn on_sent(&mut self)
        ensures
            final(self)@ == after_sent(old(self)@),
    {
        proof {
            use_type_invariant(&*self);
        }
        if self.credits > 0 {
            self.credits = self.credits - 1;
        }
    }

    fn on_consumed(&mut self)
        ensures
            final(self)@ == after_consumed(old(self)@),
    {
        proof {
            use_type_invariant(&*self);
        }
        if self.credits < self.window {
            self.credits = self.credits + 1;
        }
    }

    fn name(&self) -> (s: &'static str)
        ensures
            s@ == "credit"@,
    {
        proof {
            reveal_strlit("credit");
        }
        "credit"
    }
}

/// One of the three stateless policies, as a declared write policy gives.
#[derive(Debug, Clone, Copy)]
pub enum StatelessPolicy {
    Block(BlockPolicy),
    Drop(DropPolicy),
    Overwrite(OverwritePolicy),
}

impl BackpressurePolicy for StatelessPolicy {
    fn decide(&self, ctx: BackpressureCtx) -> (a: BackpressureAction)
        ensures
            a == if !ctx_full(ctx) {
                BackpressureAction::Proceed
            } else {
                match self {
                    StatelessPolicy::Block(_) => BackpressureAction::Block,
                    StatelessPolicy::Drop(_) => BackpressureAction::Drop,
                    StatelessPolicy::Overwrite(_) => BackpressureAction::Overwrite,
                }
            },
    {
        match self {
            StatelessPolicy::Block(p) => p.decide(ctx),
            StatelessPolicy::Drop(p) => p.decide(ctx),
            StatelessPolicy::Overwrite(p) => p.decide(ctx),
        }
    }

    fn name(&self) -> (s: &'static str)
        ensures
            s@ == match self {
                StatelessPolicy::Block(_) => "block"@,
                StatelessPolicy::Drop(_) => "drop"@,
                StatelessPolicy::Overwrite(_) => "overwrite"@,
            },
    {
        match self {
            StatelessPolicy::Block(p) => p.name(),
            StatelessPolicy::Drop(p) => p.name(),
            StatelessPolicy::Overwrite(p) => p.name(),
        }
    }
}

impl WritePolicy {
    /// The stateless policy this write policy declares: blocking blocks,
    /// dropping drops, overwriting overwrites.
    pub fn into_policy(self) -> (p: StatelessPolicy)
        ensures
            p matches StatelessPolicy::Block(_) <==> self == WritePolicy::Blocking,
            p matches StatelessPolicy::Drop(_) <==> self == WritePolicy::Dropping,
            p matches StatelessPolicy::Overwrite(_) <==> self == WritePolicy::Overwriting,
    {
        match self {
            WritePolicy::Blocking => StatelessPolicy::Block(BlockPolicy),
            WritePolicy::Dropping => StatelessPolicy::Drop(DropPolicy),
            WritePolicy::Overwriting => StatelessPolicy::Overwrite(OverwritePolicy),
        }
    }
}

} // verus!
