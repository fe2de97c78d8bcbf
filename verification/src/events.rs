//! The event stream's timing rules: the merged stream carries key
//! input and periodic ticks, and the input producer clamps its poll
//! timeout to the time left until the next tick, which is what bounds
//! tick latency under continuous typing.
//!
//! The producers themselves poll a device and sleep, so they run
//! outside the library; every decision they take is computed here.

use vstd::prelude::*;

verus! {

/// A key, as the controller sees it.
#[derive(Clone, Copy, PartialEq, Eq, Structural, Debug)]
pub enum Key {
    Char(char),
    Ctrl(char),
    Alt(char),
    Left,
    Right,
    Home,
    End,
    Backspace,
    Delete,
    Enter,
    Esc,
    Null,
}

/// One element of the merged stream: a key, or the periodic redraw
/// tick.
#[derive(Clone, Copy, PartialEq, Eq, Structural, Debug)]
pub enum Event<I> {
    Input(I),
    Tick,
}

/// What the event source is configured with.
#[derive(Clone, Copy, Debug)]
pub struct Config {
    /// The key that ends the stream.
    pub exit_key: Key,
    /// The tick interval, in milliseconds.
    pub tick_rate: u64,
}

/// How long the input producer may poll the keyboard: the time left
/// until the next tick is due, and never longer.
pub fn poll_timeout(tick_rate: u64, elapsed: u64) -> (r: u64)
    ensures
        r == if elapsed >= tick_rate {
            0u64
        } else {
            (tick_rate - elapsed) as u64
        },
        r <= tick_rate,
        elapsed < tick_rate ==> elapsed + r == tick_rate,
{
    if elapsed >= tick_rate {
        0
    } else {
        tick_rate - elapsed
    }
}

/// How much waiting time one pass of the input producer spends: the
/// key's arrival delay if one came, the whole clamped timeout if not.
pub open spec fn pass_advance(tick_rate: u64, elapsed: u64, arrival: Option<(u64, Key)>) -> int {
    match arrival {
        Some(p) => p.0 as int,
        None => if elapsed >= tick_rate {
            0
        } else {
            tick_rate - elapsed
        },
    }
}

/// Whether one pass of the input producer emits a tick: exactly when
/// the time since the last tick has reached the interval.
pub open spec fn pass_emits_tick(tick_rate: u64, elapsed: u64, arrival: Option<(u64, Key)>) -> bool {
    elapsed + pass_advance(tick_rate, elapsed, arrival) >= tick_rate
}

/// One pass of the input producer, given what the poll returned: the
/// key event to forward, whether a tick is due, and the new time
/// since the last tick.
pub fn producer_pass(tick_rate: u64, elapsed: u64, arrival: Option<(u64, Key)>) -> (r: (
    Option<Event<Key>>,
    bool,
    u64,
))
    requires
        tick_rate > 0,
        elapsed < tick_rate,
        arrival is Some ==> (arrival->0).0 <= tick_rate - elapsed,
    ensures
        r.0 == match arrival {
            Some(p) => Some(Event::<Key>::Input(p.1)),
            None => None::<Event<Key>>,
        },
        r.1 == pass_emits_tick(tick_rate, elapsed, arrival),
        r.2 as int == if pass_emits_tick(tick_rate, elapsed, arrival) {
            0
        } else {
            elapsed + pass_advance(tick_rate, elapsed, arrival)
        },
        r.2 < tick_rate,
{
    let timeout = poll_timeout(tick_rate, elapsed);
    let (event, waited): (Option<Event<Key>>, u64) = match arrival {
        Some((delay, key)) => (Some(Event::Input(key)), delay),
        None => (None, timeout),
    };
    let after = elapsed + waited;
    if after >= tick_rate {
        (event, true, 0)
    } else {
        (event, false, after)
    }
}

/// Tick liveness: starting inside a tick interval, one pass of the
/// input producer never waits past the interval's end, and whenever
/// the elapsed time reaches the interval a tick is emitted in that
/// very pass — so however densely keys arrive, a tick is observed at
/// least once per interval of waited time.
pub proof fn lemma_tick_liveness(tick_rate: u64, elapsed: u64, arrival: Option<(u64, Key)>)
    requires
        tick_rate > 0,
        elapsed < tick_rate,
        arrival is Some ==> (arrival->0).0 <= tick_rate - elapsed,
    ensures
        elapsed + pass_advance(tick_rate, elapsed, arrival) <= tick_rate,
        elapsed + pass_advance(tick_rate, elapsed, arrival) == tick_rate ==> pass_emits_tick(
            tick_rate,
            elapsed,
            arrival,
        ),
        !pass_emits_tick(tick_rate, elapsed, arrival) ==> elapsed + pass_advance(
            tick_rate,
            elapsed,
            arrival,
        ) < tick_rate,
{
}

} // verus!
