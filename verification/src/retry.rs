//! Retry arithmetic for the HTTP clients: per-attempt exponential timeouts
//! with a cap, exponential backoff, and the status codes worth retrying.
//! The requests themselves are made outside the library, which consults
//! these functions between attempts.

use vstd::prelude::*;

verus! {

/// How the HTTP clients retry: attempt count, exponential connect and
/// read timeouts between a base and a cap, and the backoff base, all in
/// milliseconds.
#[derive(Debug, Clone, Copy, PartialEq, Eq, Structural)]
pub struct RetryPolicy {
    pub attempts: usize,
    pub connect_base_ms: u64,
    pub connect_cap_ms: u64,
    pub read_base_ms: u64,
    pub read_cap_ms: u64,
    pub backoff_base_ms: u64,
}

impl RetryPolicy {
    /// The tracker client's policy: short timeouts, so that a dead tracker
    /// is abandoned quickly in favour of the peer-book fallback.
    pub fn tracker() -> (r: RetryPolicy)
        ensures
            r.attempts == 3,
            r.connect_base_ms == 300,
            r.connect_cap_ms == 2000,
            r.read_base_ms == 1000,
            r.read_cap_ms == 5000,
            r.backoff_base_ms == 100,
    {
        RetryPolicy {
            attempts: 3,
            connect_base_ms: 300,
            connect_cap_ms: 2000,
            read_base_ms: 1000,
            read_cap_ms: 5000,
            backoff_base_ms: 100,
        }
    }

    /// The peer transport's policy: longer timeouts for entry batches.
    pub fn transport() -> (r: RetryPolicy)
        ensures
            r.attempts == 3,
            r.connect_base_ms == 500,
            r.connect_cap_ms == 5000,
            r.read_base_ms == 3000,
            r.read_cap_ms == 30000,
            r.backoff_base_ms == 200,
    {
        RetryPolicy {
            attempts: 3,
            connect_base_ms: 500,
            connect_cap_ms: 5000,
            read_base_ms: 3000,
            read_cap_ms: 30000,
            backoff_base_ms: 200,
        }
    }
}

/// Two to the power `n`.
pub open spec fn pow2s(n: int) -> int
    decreases n,
{
    if n <= 0 {
        1
    } else {
        2 * pow2s(n - 1)
    }
}

proof fn lemma_pow2s_pos(n: int)
    ensures
        pow2s(n) >= 1,
    decreases n,
{
    if n > 0 {
        lemma_pow2s_pos(n - 1);
    }
}

proof fn lemma_pow2s_mono(a: int, b: int)
    requires
        0 <= a <= b,
    ensures
        pow2s(a) <= pow2s(b),
    decreases b - a,
{
    if a < b {
        lemma_pow2s_mono(a, b - 1);
        lemma_pow2s_pos(b - 1);
    }
}

/// The attempt multiplier: two to the attempt number, saturated the way a
/// 32-bit shift count saturates.
pub open spec fn spec_exp_factor(attempt: int) -> int {
    if attempt >= 32 {
        u32::MAX as int
    } else {
        pow2s(attempt)
    }
}

/// The duration of one attempt in a schedule that doubles from `base_ms`,
/// falls back to the base when the multiplication overflows, and is held
/// at the cap when one is given.
pub open spec fn spec_exp_duration(base_ms: int, attempt: int, cap_ms: Option<int>) -> int {
    let got = if base_ms * spec_exp_factor(attempt) <= u64::MAX {
        base_ms * spec_exp_factor(attempt)
    } else {
        base_ms
    };
    match cap_ms {
        Some(cap) => if got > cap {
            cap
        } else {
            got
        },
        None => got,
    }
}

/// The timeout or backoff of one attempt, in milliseconds.
pub fn exp_duration(base_ms: u64, attempt: u32, cap_ms: Option<u64>) -> (r: u64)
    ensures
        r as int == spec_exp_duration(base_ms as int, attempt as int, (match cap_ms {
            Some(c) => Some(c as int),
            None => None,
        })),
{
    let factor: u64 = if attempt >= 32 {
        u32::MAX as u64
    } else {
        let mut f: u64 = 1;
        let mut i: u32 = 0;
        while i < attempt
            invariant
                i <= attempt,
                attempt < 32,
                f == pow2s(i as int),
                f <= 0x80000000,
            decreases attempt - i,
        {
            proof {
                lemma_pow2s_mono(i as int, 30);
                assert(pow2s(30) == 0x40000000) by {
                    reveal_with_fuel(pow2s, 32);
                }
            }
            f = f * 2;
            i = i + 1;
        }
        f
    };
    proof {
        assert(factor as int == spec_exp_factor(attempt as int));
    }
    let got: u64 = match base_ms.checked_mul(factor) {
        Some(v) => v,
        None => base_ms,
    };
    match cap_ms {
        Some(cap) => if got > cap {
            cap
        } else {
            got
        },
        None => got,
    }
}

/// Whether a response status code is worth retrying: request timeout, too
/// many requests, or any server error.
pub fn is_retryable_status(code: u16) -> (r: bool)
    ensures
        r == (code == 408 || code == 429 || (500 <= code && code <= 599)),
{
    code == 408 || code == 429 || (500 <= code && code <= 599)
}

} // verus!
