//! Tick-bounded gate and the one-shot processing state machine.
//!
//! The collider pass must retry for a while after asset loading completes,
//! because spawned mesh sub-entities can lag the completion signal by several
//! frames. The tick gate consumes one unit of tick budget on every evaluation and
//! reports eligibility; once the session state is `Done`, or the budget is
//! exhausted, it reports ineligible forever.

use vstd::prelude::*;

verus! {

/// How many gate evaluations may report eligible before the session gives up
/// looking for collider requests. Purely a bound on wasted work in scenes
/// with no requests; not a correctness mechanism. Exhaustion is silent: no
/// error surfaces, and the session state simply stays `Waiting` forever.
pub const MAX_TICKS: u64 = 200;

/// Session-lifetime processing state: `Waiting` until the first scan pass
/// that processes at least one collider request, `Done` afterwards and
/// forever.
#[derive(Debug, Clone, Copy, PartialEq, Eq, Structural)]
pub enum ColliderState {
    Waiting,
    Done,
}

/// The explicit context object owned by the scheduler and handed by reference
/// into the tick gate and the scan pass on every tick. Created at session start,
/// it lives for the whole session.
#[derive(Debug, Clone, Copy, PartialEq, Eq, Structural)]
pub struct SessionContext {
    /// Monotonically increasing count of gate evaluations; never reset.
    pub tick_count: u64,
    /// One-shot processing state of the session.
    pub state: ColliderState,
}

/// What the tick gate decides from a given tick count, asset-loading signal and
/// processing state: eligible while budget remains, assets are loaded and the
/// session has not finished.
pub open spec fn gate_decision(tick_count: u64, assets_loaded: bool, state: ColliderState) -> bool {
    tick_count < MAX_TICKS && assets_loaded && state != ColliderState::Done
}

impl SessionContext {
    /// A fresh context, as the scheduler creates it at session start.
    pub fn new() -> (ctx: SessionContext)
        ensures
            ctx.tick_count == 0,
            ctx.state == ColliderState::Waiting,
    {
        SessionContext { tick_count: 0, state: ColliderState::Waiting }
    }
}

/// The tick gate: evaluated once per scheduling tick. Consumes one unit of tick
/// budget unconditionally — also on evaluations that report ineligible — and
/// never touches the processing state.
///
/// Eligibility uses the budget as it stood before this evaluation, so the
/// gate reports eligible on at most the first `MAX_TICKS` evaluations of a
/// session.
pub fn valid_state(ctx: &mut SessionContext, assets_loaded: bool) -> (eligible: bool)
    requires
        old(ctx).tick_count < u64::MAX,
    ensures
        final(ctx).tick_count == old(ctx).tick_count + 1,
        final(ctx).state == old(ctx).state,
        eligible == gate_decision(old(ctx).tick_count, assets_loaded, old(ctx).state),
{
    let previous = ctx.tick_count;
    ctx.tick_count = ctx.tick_count + 1;
    previous < MAX_TICKS && assets_loaded && !matches!(ctx.state, ColliderState::Done)
}

/// Once the budget is exhausted the tick gate can never again report eligible,
/// whatever the loading signal or the processing state: the tick count only
/// grows, and `gate_decision` rejects every count at or above `MAX_TICKS`.
pub proof fn lemma_gate_ineligible_after_budget(
    tick_count: u64,
    assets_loaded: bool,
    state: ColliderState,
)
    requires
        tick_count >= MAX_TICKS,
    ensures
        !gate_decision(tick_count, assets_loaded, state),
{
}

/// Once the session is `Done` the tick gate can never again report eligible.
pub proof fn lemma_gate_ineligible_after_done(tick_count: u64, assets_loaded: bool)
    ensures
        !gate_decision(tick_count, assets_loaded, ColliderState::Done),
{
}

/// How the processing state advances when a scan pass ends having processed
/// `processed` collider requests: the only transition is `Waiting` to `Done`,
/// taken when at least one request was processed; `Done` is terminal.
pub open spec fn next_state(state: ColliderState, processed: nat) -> ColliderState {
    if state == ColliderState::Done || processed > 0 {
        ColliderState::Done
    } else {
        ColliderState::Waiting
    }
}

/// The state a session reaches from `state` after a whole sequence of scan
/// passes, each entry giving how many requests that pass processed.
pub open spec fn state_after(state: ColliderState, counts: Seq<nat>) -> ColliderState
    decreases counts.len(),
{
    if counts.len() == 0 {
        state
    } else {
        state_after(next_state(state, counts[0]), counts.drop_first())
    }
}

/// `Done` is terminal: no sequence of scan-pass outcomes ever leaves it.
pub proof fn lemma_done_is_terminal(counts: Seq<nat>)
    ensures
        state_after(ColliderState::Done, counts) == ColliderState::Done,
    decreases counts.len(),
{
    if counts.len() > 0 {
        lemma_done_is_terminal(counts.drop_first());
    }
}

/// Running passes in two stages reaches the same state as running them in
/// one: the state machine composes over concatenation of outcome sequences.
pub proof fn lemma_state_after_concat(state: ColliderState, first: Seq<nat>, second: Seq<nat>)
    ensures
        state_after(state, first + second) == state_after(state_after(state, first), second),
    decreases first.len(),
{
    if first.len() == 0 {
        assert(first + second =~= second);
    } else {
        assert((first + second).drop_first() =~= first.drop_first() + second);
        lemma_state_after_concat(next_state(state, first[0]), first.drop_first(), second);
    }
}

/// The session transitions `Waiting` to `Done` at most once: as soon as some
/// prefix of the pass outcomes has reached `Done`, every extension of it is
/// still `Done` — the state never reverts.
pub proof fn lemma_transition_at_most_once(state: ColliderState, counts: Seq<nat>, n: int)
    requires
        0 <= n <= counts.len(),
        state_after(state, counts.take(n)) == ColliderState::Done,
    ensures
        state_after(state, counts) == ColliderState::Done,
{
    assert(counts =~= counts.take(n) + counts.skip(n));
    lemma_state_after_concat(state, counts.take(n), counts.skip(n));
    lemma_done_is_terminal(counts.skip(n));
}

} // verus!
