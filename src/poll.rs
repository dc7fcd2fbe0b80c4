use vstd::prelude::*;

use crate::device::{connection_lost, ModbusError};

verus! {

/// How the delay between reconnection attempts grows: it starts at
/// `initial_ms`, is multiplied by `multiplier` after each failed attempt, and
/// never exceeds `max_ms`.
#[derive(Clone, Copy, PartialEq, Eq, Structural, Debug)]
pub struct BackoffConfig {
    pub initial_ms: u64,
    pub multiplier: u64,
    pub max_ms: u64,
}

/// Where the poll loop stands.
#[derive(Clone, Copy, PartialEq, Eq, Structural, Debug)]
pub enum PollState {
    /// The link is up: each cycle reads the registers.
    Connected,
    /// The link was lost; the next failed attempt waits `delay_ms` before
    /// the one after it.
    Reconnecting { delay_ms: u64 },
}

/// What the outside world reports back to the poll loop.
#[derive(Clone, Copy, PartialEq, Eq, Structural, Debug)]
pub enum PollEvent {
    DumpSucceeded,
    DumpFailed(ModbusError),
    ReconnectSucceeded,
    ReconnectFailed,
}

/// What the poll loop asks to be done next.
#[derive(Clone, Copy, PartialEq, Eq, Structural, Debug)]
pub enum PollAction {
    /// Hand the values just read to the sinks, then read again.
    Forward,
    /// Read the registers again (the failed cycle is dropped).
    Dump,
    /// Wait `after_ms`, then try to reconnect.
    Reconnect { after_ms: u64 },
}

impl BackoffConfig {
    /// A configuration under which the delays start positive and grow.
    pub open spec fn valid(self) -> bool {
        1 <= self.initial_ms <= self.max_ms && self.multiplier >= 2
    }
}

/// The delay that follows `d`: `d` times the multiplier, capped at the maximum.
pub open spec fn next_delay(c: BackoffConfig, d: u64) -> u64 {
    if d * c.multiplier >= c.max_ms {
        c.max_ms
    } else {
        (d * c.multiplier) as u64
    }
}

/// The delay after `i` failed reconnection attempts.
pub open spec fn delay_at(c: BackoffConfig, i: nat) -> u64
    decreases i,
{
    if i == 0 {
        c.initial_ms
    } else {
        next_delay(c, delay_at(c, (i - 1) as nat))
    }
}

/// One step of the poll loop.
///
/// A successful read is forwarded. A read that failed because the connection
/// is gone starts reconnecting at once; any other failed read is dropped and
/// the next cycle reads again. A failed reconnection is retried after the
/// current delay, which then grows; a successful one resumes reading. An event
/// that does not belong to the state leaves it as it is.
pub open spec fn step_spec(c: BackoffConfig, s: PollState, e: PollEvent) -> (PollState, PollAction) {
    match s {
        PollState::Connected => match e {
            PollEvent::DumpSucceeded => (PollState::Connected, PollAction::Forward),
            PollEvent::DumpFailed(err) => if connection_lost(err) {
                (
                    PollState::Reconnecting { delay_ms: c.initial_ms },
                    PollAction::Reconnect { after_ms: 0 },
                )
            } else {
                (PollState::Connected, PollAction::Dump)
            },
            _ => (PollState::Connected, PollAction::Dump),
        },
        PollState::Reconnecting { delay_ms } => match e {
            PollEvent::ReconnectSucceeded => (PollState::Connected, PollAction::Dump),
            PollEvent::ReconnectFailed => (
                PollState::Reconnecting { delay_ms: next_delay(c, delay_ms) },
                PollAction::Reconnect { after_ms: delay_ms },
            ),
            _ => (s, PollAction::Reconnect { after_ms: delay_ms }),
        },
    }
}

/// The delay that follows `d`.
pub fn next_backoff(c: &BackoffConfig, d: u64) -> (r: u64)
    ensures
        r == next_delay(*c, d),
{
    assert((d as int) * (c.multiplier as int) <= 0xFFFF_FFFF_FFFF_FFFF * 0xFFFF_FFFF_FFFF_FFFF)
        by (nonlinear_arith)
        requires
            d <= 0xFFFF_FFFF_FFFF_FFFF,
            c.multiplier <= 0xFFFF_FFFF_FFFF_FFFF,
    ;
    let product: u128 = d as u128 * c.multiplier as u128;
    if product >= c.max_ms as u128 {
        c.max_ms
    } else {
        product as u64
    }
}

/// One step of the poll loop: the next state and what to do.
pub fn poll_step(c: &BackoffConfig, state: PollState, event: PollEvent) -> (r: (PollState, PollAction))
    ensures
        r == step_spec(*c, state, event),
{
    match state {
        PollState::Connected => match event {
            PollEvent::DumpSucceeded => (PollState::Connected, PollAction::Forward),
            PollEvent::DumpFailed(err) => {
                if err.is_connection_lost() {
                    (
                        PollState::Reconnecting { delay_ms: c.initial_ms },
                        PollAction::Reconnect { after_ms: 0 },
                    )
                } else {
                    (PollState::Connected, PollAction::Dump)
                }
            },
            _ => (PollState::Connected, PollAction::Dump),
        },
        PollState::Reconnecting { delay_ms } => match event {
            PollEvent::ReconnectSucceeded => (PollState::Connected, PollAction::Dump),
            PollEvent::ReconnectFailed => (
                PollState::Reconnecting { delay_ms: next_backoff(c, delay_ms) },
                PollAction::Reconnect { after_ms: delay_ms },
            ),
            _ => (state, PollAction::Reconnect { after_ms: delay_ms }),
        },
    }
}

/// The states and actions the loop goes through on a run of events.
pub open spec fn trace(c: BackoffConfig, s: PollState, es: Seq<PollEvent>) -> Seq<
    (PollState, PollAction),
>
    decreases es.len(),
{
    if es.len() == 0 {
        Seq::empty()
    } else {
        let next = step_spec(c, s, es[0]);
        seq![next] + trace(c, next.0, es.drop_first())
    }
}

/// A lost connection, `k` failed reconnection attempts, then a successful one.
pub open spec fn reconnect_events(lost: ModbusError, k: nat) -> Seq<PollEvent> {
    seq![PollEvent::DumpFailed(lost)] + Seq::new(k, |i: int| PollEvent::ReconnectFailed).push(
        PollEvent::ReconnectSucceeded,
    )
}

/// Delays stay between the initial delay and the maximum, never shrink, and
/// grow strictly until they reach the maximum.
pub proof fn lemma_delays_grow(c: BackoffConfig, i: nat)
    requires
        c.valid(),
    ensures
        c.initial_ms <= delay_at(c, i) <= c.max_ms,
        delay_at(c, i) <= delay_at(c, i + 1),
        delay_at(c, i) < c.max_ms ==> delay_at(c, i) < delay_at(c, i + 1),
    decreases i,
{
    if i > 0 {
        lemma_delays_grow(c, (i - 1) as nat);
    }
    let d = delay_at(c, i);
    assert(d * c.multiplier >= d * 2) by (nonlinear_arith)
        requires
            c.multiplier >= 2,
            d >= 1,
    ;
}

proof fn lemma_reconnecting_trace(c: BackoffConfig, j: nat, k: nat)
    requires
        j <= k,
    ensures
        ({
            let tr = trace(
                c,
                PollState::Reconnecting { delay_ms: delay_at(c, j) },
                Seq::new((k - j) as nat, |i: int| PollEvent::ReconnectFailed).push(
                    PollEvent::ReconnectSucceeded,
                ),
            );
            &&& tr.len() == k - j + 1
            &&& forall|i: int|
                0 <= i < k - j ==> tr[i] == (
                    PollState::Reconnecting { delay_ms: delay_at(c, (j + i + 1) as nat) },
                    PollAction::Reconnect { after_ms: delay_at(c, (j + i) as nat) },
                )
            &&& tr[k - j] == (PollState::Connected, PollAction::Dump)
        }),
    decreases k - j,
{
    let es = Seq::new((k - j) as nat, |i: int| PollEvent::ReconnectFailed).push(
        PollEvent::ReconnectSucceeded,
    );
    let s = PollState::Reconnecting { delay_ms: delay_at(c, j) };
    let tr = trace(c, s, es);
    if j == k {
        assert(es =~= seq![PollEvent::ReconnectSucceeded]);
        assert(es.drop_first() =~= Seq::<PollEvent>::empty());
        assert(step_spec(c, s, es[0]) == (PollState::Connected, PollAction::Dump));
        assert(trace(c, PollState::Connected, Seq::<PollEvent>::empty()) =~= Seq::<
            (PollState, PollAction),
        >::empty());
        assert(tr =~= seq![(PollState::Connected, PollAction::Dump)]);
    } else {
        lemma_reconnecting_trace(c, j + 1, k);
        let rest = Seq::new((k - j - 1) as nat, |i: int| PollEvent::ReconnectFailed).push(
            PollEvent::ReconnectSucceeded,
        );
        assert(es.drop_first() =~= rest);
        assert(es[0] == PollEvent::ReconnectFailed);
        let first = (
            PollState::Reconnecting { delay_ms: delay_at(c, j + 1) },
            PollAction::Reconnect { after_ms: delay_at(c, j) },
        );
        assert(step_spec(c, s, es[0]) == first);
        let tail = trace(c, first.0, rest);
        assert(tr == seq![first] + tail);
        assert forall|i: int| 0 <= i < k - j implies tr[i] == (
            PollState::Reconnecting { delay_ms: delay_at(c, (j + i + 1) as nat) },
            PollAction::Reconnect { after_ms: delay_at(c, (j + i) as nat) },
        ) by {
            if i > 0 {
                assert(tr[i] == tail[i - 1]);
                assert((j + 1 + (i - 1)) == j + i);
            }
        }
        assert(tr[k - j] == tail[k - j - 1]);
    }
}

/// After a read fails because the connection is gone, the loop tries to
/// reconnect at once, then after each failed attempt waits the next delay of
/// the backoff (delays that grow, see `lemma_delays_grow`), and once an attempt
/// succeeds it is connected again and its next action is a read: the loop
/// never stops on its own.
pub proof fn lemma_reconnect_scenario(c: BackoffConfig, lost: ModbusError, k: nat)
    requires
        connection_lost(lost),
    ensures
        ({
            let tr = trace(c, PollState::Connected, reconnect_events(lost, k));
            &&& tr.len() == k + 2
            &&& tr[0] == (
                PollState::Reconnecting { delay_ms: delay_at(c, 0) },
                PollAction::Reconnect { after_ms: 0 },
            )
            &&& forall|i: int|
                1 <= i <= k ==> tr[i] == (
                    PollState::Reconnecting { delay_ms: delay_at(c, i as nat) },
                    PollAction::Reconnect { after_ms: delay_at(c, (i - 1) as nat) },
                )
            &&& tr[k + 1int] == (PollState::Connected, PollAction::Dump)
        }),
{
    let es = reconnect_events(lost, k);
    let rest = Seq::new(k, |i: int| PollEvent::ReconnectFailed).push(PollEvent::ReconnectSucceeded);
    assert(es.drop_first() =~= rest);
    assert(es[0] == PollEvent::DumpFailed(lost));
    lemma_reconnecting_trace(c, 0, k);
    let first = (
        PollState::Reconnecting { delay_ms: delay_at(c, 0) },
        PollAction::Reconnect { after_ms: 0 },
    );
    let tail = trace(c, first.0, rest);
    let tr = trace(c, PollState::Connected, es);
    assert(tr == seq![first] + tail);
    assert forall|i: int| 1 <= i <= k implies tr[i] == (
        PollState::Reconnecting { delay_ms: delay_at(c, i as nat) },
        PollAction::Reconnect { after_ms: delay_at(c, (i - 1) as nat) },
    ) by {
        assert(tr[i] == tail[i - 1]);
    }
    assert(tr[k + 1int] == tail[k as int]);
}

} // verus!
