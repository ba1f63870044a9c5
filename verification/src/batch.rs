//! Arithmetic of batches: how a run of pending items is cut into consecutive
//! groups that respect the provider's limit on one call.

use vstd::prelude::*;
use vstd::arithmetic::div_mod::{
    lemma_div_plus_one, lemma_fundamental_div_mod, lemma_fundamental_div_mod_converse,
};

verus! {

/// The provider's default limit on the number of texts in one call.
pub const DEFAULT_BATCH_LIMIT: usize = 1000;

/// The number of batches that `n` items need when a batch holds at most
/// `limit` of them: `n / limit`, rounded up.
pub open spec fn batch_count(n: nat, limit: nat) -> nat {
    ((n + limit - 1) / (limit as int)) as nat
}

/// The index one past the last item of the batch that starts at `start`.
pub open spec fn batch_end(start: nat, n: nat, limit: nat) -> nat {
    if start + limit <= n {
        start + limit
    } else {
        n
    }
}

/// Nothing pending needs no batch, and anything pending needs at least one.
pub proof fn lemma_batch_count_zero(n: nat, limit: nat)
    requires
        limit > 0,
    ensures
        batch_count(n, limit) == 0 <==> n == 0,
{
    let d: int = limit as int;
    let x: int = n + limit - 1;
    lemma_fundamental_div_mod(x, d);
    if n == 0 {
        lemma_fundamental_div_mod_converse(x, d, 0, x);
    } else {
        if x / d <= 0 {
            assert(d * (x / d) <= 0) by (nonlinear_arith)
                requires
                    d > 0,
                    x / d <= 0,
            ;
        }
    }
}

/// Taking one batch off the front leaves one batch fewer to go.
pub proof fn lemma_batch_count_step(n: nat, limit: nat)
    requires
        n > 0,
        limit > 0,
    ensures
        batch_count(n, limit) == 1 + batch_count((n - batch_end(0, n, limit)) as nat, limit),
{
    let d: int = limit as int;
    if n <= limit {
        lemma_batch_count_zero(0, limit);
        lemma_fundamental_div_mod_converse(n + limit - 1, d, 1, n - 1);
    } else {
        lemma_div_plus_one(n - 1, d);
    }
}

/// Computes [`batch_count`] without overflow.
pub fn batches_needed(n: usize, limit: usize) -> (count: usize)
    requires
        limit > 0,
    ensures
        count == batch_count(n as nat, limit as nat),
{
    let full: usize = n / limit;
    let rest: usize = n % limit;
    proof {
        let d: int = limit as int;
        let q: int = full as int;
        lemma_fundamental_div_mod(n as int, d);
        assert((q + 1) * d == d * q + d && q * d == d * q && q <= d * q) by (nonlinear_arith)
            requires
                d > 0,
                q >= 0,
        ;
        if rest == 0 {
            lemma_fundamental_div_mod_converse(n + limit - 1, d, q, d - 1);
        } else {
            lemma_fundamental_div_mod_converse(n + limit - 1, d, q + 1, rest - 1);
        }
    }
    if rest == 0 {
        full
    } else {
        full + 1
    }
}

} // verus!
