use vstd::prelude::*;

verus! {

pub open spec fn pow2(k: nat) -> nat
    decreases k,
{
    if k == 0 {
        1
    } else {
        2 * pow2((k - 1) as nat)
    }
}

pub open spec fn cap_u64(x: int) -> u64 {
    if x > u64::MAX {
        u64::MAX
    } else {
        x as u64
    }
}

/// The pause before the next attempt: `base * 2^attempt + jitter`
/// milliseconds, held at `u64::MAX`.
pub open spec fn backoff_spec(base: nat, attempt: nat, jitter: nat) -> u64 {
    cap_u64((base * pow2(attempt) + jitter) as int)
}

proof fn lemma_pow2_pos(k: nat)
    ensures
        pow2(k) >= 1,
    decreases k,
{
    if k > 0 {
        lemma_pow2_pos((k - 1) as nat);
    }
}

/// The exponential backoff, with jitter, after failed attempt number `attempt`.
pub fn backoff_delay(base_ms: u64, attempt: u32, jitter_ms: u64) -> (r: u64)
    ensures
        r == backoff_spec(base_ms as nat, attempt as nat, jitter_ms as nat),
{
    let mut d: u64 = base_ms;
    let mut k: u32 = 0;
    assert(pow2(0) == 1);
    while k < attempt
        invariant
            k <= attempt,
            d == cap_u64((base_ms * pow2(k as nat)) as int),
        decreases attempt - k,
    {
        proof {
            lemma_pow2_pos(k as nat);
            let p = pow2(k as nat);
            assert(base_ms * pow2((k + 1) as nat) == 2 * (base_ms * p)) by (nonlinear_arith)
                requires
                    pow2((k + 1) as nat) == 2 * p,
            ;
        }
        if d > u64::MAX / 2 {
            d = u64::MAX;
        } else {
            d = 2 * d;
        }
        k = k + 1;
    }
    if d > u64::MAX - jitter_ms {
        u64::MAX
    } else {
        d + jitter_ms
    }
}

/// What the controller does after one attempt of a chunk.
pub enum RetryStep {
    /// The call succeeded on this attempt.
    Succeeded { attempts: u32 },
    /// The call failed; pause this long, then try again.
    RetryAfter { attempts: u32, delay_ms: u64 },
    /// The call failed and no attempt is left.
    Failed { attempts: u32 },
}

/// The step after attempt number `attempt` of at most `max_attempts`: success
/// ends the chunk at once; a failure with attempts left waits for the
/// backoff; a failure on the last attempt gives up.
pub open spec fn retry_step_spec(
    max_attempts: u32,
    base_delay_ms: u64,
    attempt: u32,
    succeeded: bool,
    jitter_ms: u64,
) -> RetryStep {
    if succeeded {
        RetryStep::Succeeded { attempts: attempt }
    } else if attempt < max_attempts {
        RetryStep::RetryAfter {
            attempts: attempt,
            delay_ms: backoff_spec(base_delay_ms as nat, attempt as nat, jitter_ms as nat),
        }
    } else {
        RetryStep::Failed { attempts: attempt }
    }
}

/// Decides what follows attempt number `attempt` (counted from one).
pub fn after_attempt(
    max_attempts: u32,
    base_delay_ms: u64,
    attempt: u32,
    succeeded: bool,
    jitter_ms: u64,
) -> (r: RetryStep)
    requires
        1 <= attempt <= max_attempts,
    ensures
        r == retry_step_spec(max_attempts, base_delay_ms, attempt, succeeded, jitter_ms),
{
    if succeeded {
        RetryStep::Succeeded { attempts: attempt }
    } else if attempt < max_attempts {
        RetryStep::RetryAfter {
            attempts: attempt,
            delay_ms: backoff_delay(base_delay_ms, attempt, jitter_ms),
        }
    } else {
        RetryStep::Failed { attempts: attempt }
    }
}

/// The paced pause after a chunk: the inter-call delay after a success on the
/// first attempt, none otherwise (a retry has already waited).
pub fn pause_after(succeeded: bool, attempts: u32, delay_ms: u64) -> (r: u64)
    ensures
        r == (if succeeded && attempts == 1 {
            delay_ms
        } else {
            0
        }),
{
    if succeeded && attempts == 1 {
        delay_ms
    } else {
        0
    }
}

} // verus!
