//! How often an order is tried, and how long the waits between are.
//!
//! The allowance being spent belongs to the ACME server, so neither number
//! can be configured.

use vstd::prelude::*;

use crate::time::Duration;

verus! {

/// How many attempts one order gets.
pub const ATTEMPTS: u32 = 5;

/// How long the first wait between attempts is, in seconds.
pub const FIRST_WAIT: u64 = 60;

/// Two to a power.
pub open spec fn doubled(times: nat) -> nat
    decreases times,
{
    if times == 0 {
        1
    } else {
        2 * doubled((times - 1) as nat)
    }
}

/// The wait before one attempt, in seconds: none before the first, a minute
/// before the second, and twice as long before each one after it.
pub open spec fn wait_secs(attempt: nat) -> nat {
    if attempt < 2 {
        0
    } else {
        FIRST_WAIT as nat * doubled((attempt - 2) as nat)
    }
}

/// How long to wait before one attempt, counted from one.
///
/// Returns nothing for an attempt there is not.
pub fn wait_before(attempt: u32) -> (r: Option<Duration>)
    ensures
        match r {
            Some(wait) => 1 <= attempt <= ATTEMPTS && wait.nanos == wait_secs(attempt as nat)
                * 1_000_000_000 && wait.wf(),
            None => attempt == 0 || attempt > ATTEMPTS,
        },
{
    if attempt == 0 || attempt > ATTEMPTS {
        return None;
    }
    if attempt == 1 {
        return Some(Duration::zero());
    }
    let mut wait: u64 = FIRST_WAIT;
    let mut reached: u32 = 2;
    while reached < attempt
        invariant
            2 <= reached <= attempt <= ATTEMPTS,
            wait == wait_secs(reached as nat),
            wait <= 60 * 8,
            reached == 2 ==> wait == 60,
            reached == 3 ==> wait == 120,
            reached == 4 ==> wait == 240,
            reached == 5 ==> wait == 480,
        decreases attempt - reached,
    {
        proof {
            assert(doubled((reached - 1) as nat) == 2 * doubled((reached - 2) as nat));
        }
        wait = wait * 2;
        reached += 1;
    }
    Some(Duration::from_secs(wait))
}

/// The waits before the first so many attempts together, in seconds.
pub open spec fn waits_up_to(attempt: nat) -> nat
    decreases attempt,
{
    if attempt == 0 {
        0
    } else {
        waits_up_to((attempt - 1) as nat) + wait_secs(attempt)
    }
}

/// How long all the waits of one order take together.
pub fn whole_run() -> (r: Duration)
    ensures
        r.nanos == waits_up_to(ATTEMPTS as nat) * 1_000_000_000,
        r.nanos == 900 * 1_000_000_000,
        r.wf(),
{
    let mut total: u128 = 0;
    let mut attempt: u32 = 1;
    proof {
        reveal_with_fuel(doubled, 4);
        reveal_with_fuel(waits_up_to, 6);
        assert(waits_up_to(5) == 900);
    }
    while attempt <= ATTEMPTS
        invariant
            1 <= attempt <= ATTEMPTS + 1,
            total == waits_up_to((attempt - 1) as nat) * 1_000_000_000,
            total <= attempt * 480_000_000_000,
        decreases ATTEMPTS + 1 - attempt,
    {
        proof {
            reveal_with_fuel(doubled, 4);
        }
        if let Some(wait) = wait_before(attempt) {
            total = total + wait.nanos;
        }
        attempt += 1;
    }
    Duration { nanos: total }
}

/// Five attempts span fifteen minutes of waiting.
pub proof fn lemma_a_whole_run_is_fifteen_minutes()
    ensures
        waits_up_to(ATTEMPTS as nat) == 15 * 60,
{
    reveal_with_fuel(doubled, 4);
    reveal_with_fuel(waits_up_to, 6);
}

/// Every wait after the first one is twice the one before it.
pub proof fn lemma_waits_double(attempt: nat)
    requires
        attempt >= 2,
    ensures
        wait_secs(attempt + 1) == 2 * wait_secs(attempt),
{
    assert(doubled((attempt - 1) as nat) == 2 * doubled((attempt - 2) as nat));
}

} // verus!
