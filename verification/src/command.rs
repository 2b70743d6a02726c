//! The three execution modes through which a caller drives the sieve.
//!
//! Each mode advances a fresh wheel state until its stopping predicate holds,
//! then hands the terminal state to the verification pass.  The result is an
//! ascending, duplicate-free sequence of confirmed primes; arithmetic
//! overflow of the modulus is the one failure, reported as `None` with no
//! partial result.

use crate::arith::{is_prime, primes_upto, product, sorted_strict};
use crate::sieve::Sieve;
use vstd::prelude::*;

verus! {

/// How far to drive the sieve before the verification pass.
#[derive(Clone, Copy)]
pub enum Command {
    /// Advance until the basis holds exactly this many primes (never fewer
    /// than the two it starts with).
    Exact(usize),
    /// Advance until the candidate list holds at least this many values.
    Count(usize),
    /// Advance until the largest candidate reaches this value.
    Until(u64),
}

/// The stopping predicate of each mode, on the terminal wheel state.
pub open spec fn stopped(c: Command, t: Sieve) -> bool {
    match c {
        Command::Exact(steps) => t.primes@.len() == if steps <= 2 {
            2int
        } else {
            steps as int
        },
        Command::Count(n) => t.sieved@.len() >= n,
        Command::Until(v) => t.sieved@.last() >= v,
    }
}

/// Monotonic stopping: the loop halts at the first qualifying state.  For
/// `Until`, whenever at least one advance was taken, the state one advance
/// earlier -- whose basis is the terminal basis without its last prime, and
/// whose largest candidate is the product of that shorter basis minus one --
/// had not yet reached the target.
pub open spec fn stopped_first(c: Command, t: Sieve) -> bool {
    match c {
        Command::Until(v) => t.primes@.len() > 2 ==> product(t.primes@.drop_last()) - 1 < v,
        _ => true,
    }
}

/// The final element of a verified result reaches the target value as soon
/// as any prime lies between the target and the verification bound: the
/// result lists every prime up to the bound, so its last element is at least
/// that prime.
pub proof fn lemma_final_element_reaches_target(v: Seq<u64>, bound: u64, target: u64, q: u64)
    requires
        primes_upto(v, bound),
        is_prime(q as int),
        target <= q <= bound,
        v.len() > 0,
    ensures
        v.last() >= target,
{
    assert(v.contains(q));
    let i = choose|i: int| 0 <= i < v.len() && v[i] == q;
    assert(v[i] <= v[v.len() - 1]) by {
        if i < v.len() - 1 {
            assert(v[i] < v[v.len() - 1]);
        }
    };
}

impl Command {
    /// Advances a fresh sieve until the stopping predicate of this mode
    /// holds, and returns the stopping state.  `None` is returned exactly
    /// when an advance would overflow the 64-bit modulus before the stopping
    /// point is reached; the witness state in the contract is the state at
    /// which the overflow struck.
    #[verifier::loop_isolation(false)]
    pub fn advance(self) -> (r: Option<Sieve>)
        ensures
            match r {
                Some(t) => t.wf() && stopped(self, t) && stopped_first(self, t),
                None => exists|t: Sieve|
                    #[trigger] t.wf() && !stopped(self, t) && product(t.primes@) * (t.sieved@[1]
                        as int) > u64::MAX,
            },
    {
        let mut sieve = Sieve::default();
        match self {
            Command::Exact(steps) => {
                let mut k: usize = 2;
                while k < steps
                    invariant
                        sieve.wf(),
                        2 <= k,
                        k <= if steps <= 2 {
                            2int
                        } else {
                            steps as int
                        },
                        sieve.primes@.len() == k,
                    decreases steps - k,
                {
                    let ghost snap = sieve;
                    match sieve.run() {
                        Some(next) => {
                            sieve = next;
                        },
                        None => {
                            proof {
                                assert(snap.wf() && !stopped(self, snap) && product(snap.primes@)
                                    * (snap.sieved@[1] as int) > u64::MAX);
                            }
                            return None;
                        },
                    }
                    k += 1;
                }
            },
            Command::Count(count) => {
                while sieve.size() < count
                    invariant
                        sieve.wf(),
                    decreases u64::MAX as int - product(sieve.primes@),
                {
                    let ghost snap = sieve;
                    match sieve.run() {
                        Some(next) => {
                            proof {
                                crate::sieve::lemma_last_candidate(snap);
                                assert(next.modulus() > snap.modulus()) by (nonlinear_arith)
                                    requires
                                        next.modulus() == snap.modulus() * (snap.sieved@[1]
                                            as int),
                                        snap.modulus() >= 6,
                                        (snap.sieved@[1] as int) >= 2,
                                ;
                            }
                            sieve = next;
                        },
                        None => {
                            proof {
                                assert(snap.wf() && !stopped(self, snap) && product(snap.primes@)
                                    * (snap.sieved@[1] as int) > u64::MAX);
                            }
                            return None;
                        },
                    }
                }
            },
            Command::Until(value) => {
                while sieve.last() < value
                    invariant
                        sieve.wf(),
                        stopped_first(self, sieve),
                    decreases u64::MAX as int - product(sieve.primes@),
                {
                    let ghost snap = sieve;
                    match sieve.run() {
                        Some(next) => {
                            proof {
                                crate::sieve::lemma_last_candidate(snap);
                                assert(next.modulus() > snap.modulus()) by (nonlinear_arith)
                                    requires
                                        next.modulus() == snap.modulus() * (snap.sieved@[1]
                                            as int),
                                        snap.modulus() >= 6,
                                        (snap.sieved@[1] as int) >= 2,
                                ;
                                assert(next.primes@.drop_last() =~= snap.primes@);
                                assert(product(next.primes@.drop_last()) - 1 < value);
                            }
                            sieve = next;
                        },
                        None => {
                            proof {
                                assert(snap.wf() && !stopped(self, snap) && product(snap.primes@)
                                    * (snap.sieved@[1] as int) > u64::MAX);
                            }
                            return None;
                        },
                    }
                }
            },
        }
        Some(sieve)
    }

    /// Drives a fresh sieve to the stopping point of this mode, then runs the
    /// verification pass.  On success the result is the ascending list of
    /// exactly the primes up to the largest candidate of the well-formed
    /// stopping state; `None` is returned exactly when an advance would
    /// overflow the 64-bit modulus before the stopping point is reached.
    pub fn exec(self) -> (r: Option<Vec<u64>>)
        ensures
            match r {
                Some(v) => {
                    &&& sorted_strict(v@)
                    &&& v@.len() >= 3
                    &&& v@[0] == 2
                    &&& v@[1] == 3
                    &&& exists|t: Sieve|
                        {
                            &&& #[trigger] t.wf()
                            &&& primes_upto(v@, t.sieved@.last())
                            &&& stopped(self, t)
                            &&& stopped_first(self, t)
                        }
                },
                None => exists|t: Sieve|
                    #[trigger] t.wf() && !stopped(self, t) && product(t.primes@) * (t.sieved@[1]
                        as int) > u64::MAX,
            },
    {
        match self.advance() {
            Some(sieve) => {
                let ghost t = sieve;
                let v = sieve.get();
                proof {
                    assert(t.wf() && primes_upto(v@, t.sieved@.last()) && stopped(self, t)
                        && stopped_first(self, t));
                }
                Some(v)
            },
            None => None,
        }
    }
}

} // verus!

