//! The tx-counter watchdog.
//!
//! While a replay is active, the interface's tx counter is polled. If it is flat
//! for longer than the configured window, the stalled replay is to be killed. A
//! flat counter between runs is expected and never trips.

use vstd::prelude::*;

verus! {

/// The last reading, and for how many seconds it has not moved.
#[derive(Clone, Copy, Debug, PartialEq, Eq, Structural)]
pub struct Flatline {
    pub last: Option<u64>,
    pub stall: u64,
}

/// What a reading makes of the state: a flat counter adds the poll's seconds, one
/// that moved starts over, and one that cannot be read changes nothing.
pub open spec fn stepped(f: Flatline, tx: Option<u64>, poll_secs: int) -> (Option<u64>, int) {
    match tx {
        Some(now) => if f.last == Some(now) {
            (f.last, f.stall + poll_secs)
        } else {
            (Some(now), 0)
        },
        None => (f.last, f.stall as int),
    }
}

/// Update the flatline state from one reading.
pub fn step(last: &mut Option<u64>, stall: &mut u64, tx: Option<u64>, poll_secs: u64)
    requires
        *old(stall) + poll_secs <= u64::MAX,
    ensures
        (*final(last), *final(stall) as int) == stepped(
            Flatline { last: *old(last), stall: *old(stall) },
            tx,
            poll_secs as int,
        ),
{
    match tx {
        Some(now) => {
            let flat: bool = match *last {
                Some(prev) => now == prev,
                None => false,
            };
            if flat {
                *stall = *stall + poll_secs;
            } else {
                *last = Some(now);
                *stall = 0;
            }
        },
        None => {},
    }
}

/// What a poll decides: no send is active, so the state starts over; or the reading
/// counts, and the watchdog trips once the window is spent. Returns whether it
/// trips.
pub fn poll(f: &mut Flatline, active: bool, tx: Option<u64>, poll_secs: u64, flatline_secs: u64) -> (r:
    bool)
    requires
        old(f).stall + poll_secs <= u64::MAX,
    ensures
        !active ==> !r && *final(f) == (Flatline { last: None, stall: 0 }),
        active ==> {
            &&& (final(f).last, final(f).stall as int) == stepped(*old(f), tx, poll_secs as int)
            &&& r == (final(f).stall >= flatline_secs)
        },
{
    if !active {
        f.last = None;
        f.stall = 0;
        return false;
    }
    let mut last: Option<u64> = f.last;
    let mut stall: u64 = f.stall;
    step(&mut last, &mut stall, tx, poll_secs);
    f.last = last;
    f.stall = stall;
    stall >= flatline_secs
}

/// The stall after a run of readings.
pub open spec fn stall_after(readings: Seq<Option<u64>>, poll_secs: int) -> (Option<u64>, int)
    decreases readings.len(),
{
    if readings.len() == 0 {
        (None, 0)
    } else {
        let (last, stall) = stall_after(readings.drop_last(), poll_secs);
        match readings.last() {
            Some(now) => if last == Some(now) {
                (last, stall + poll_secs)
            } else {
                (Some(now), 0)
            },
            None => (last, stall),
        }
    }
}

/// A reading that moves the counter takes the stall back to none; one that does
/// not adds a poll to it.
pub proof fn law_progress_resets_the_stall(readings: Seq<Option<u64>>, poll_secs: int)
    requires
        poll_secs > 0,
        readings.len() > 0,
        readings.last() is Some,
    ensures
        ({
            let before = stall_after(readings.drop_last(), poll_secs);
            let after = stall_after(readings, poll_secs);
            &&& after.0 == readings.last()
            &&& before.0 != readings.last() ==> after.1 == 0
            &&& before.0 == readings.last() ==> after.1 == before.1 + poll_secs
        }),
{
}

/// A counter that cannot be read never adds to the stall.
pub proof fn law_unreadable_counter_never_stalls(readings: Seq<Option<u64>>, poll_secs: int)
    requires
        readings.len() > 0,
        readings.last() is None,
    ensures
        stall_after(readings, poll_secs) == stall_after(readings.drop_last(), poll_secs),
{
}

/// A flat counter stalls by one poll for each reading behind the first.
pub proof fn law_flat_counter_accumulates(readings: Seq<Option<u64>>, tx: u64, poll_secs: int)
    requires
        readings.len() > 0,
        forall|i: int| 0 <= i < readings.len() ==> #[trigger] readings[i] == Some(tx),
    ensures
        stall_after(readings, poll_secs) == (Some(tx), (readings.len() - 1) * poll_secs),
    decreases readings.len(),
{
    let prior = readings.drop_last();
    let n = readings.len();
    assert(readings.last() == readings[n - 1]);
    if n > 1 {
        assert forall|i: int| 0 <= i < prior.len() implies #[trigger] prior[i] == Some(tx) by {
            assert(readings[i] == Some(tx));
        }
        law_flat_counter_accumulates(prior, tx, poll_secs);
        let m = prior.len();
        assert((n - 1) * poll_secs == (m - 1) * poll_secs + poll_secs) by (nonlinear_arith)
            requires
                m == n - 1,
        ;
    } else {
        assert(prior =~= Seq::empty());
        assert((n - 1) * poll_secs == 0) by (nonlinear_arith)
            requires
                n == 1,
        ;
    }
}

} // verus!
