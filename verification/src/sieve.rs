//! The wheel-sieve engine.
//!
//! A [`Sieve`] couples a confirmed prime basis with the ascending list of
//! values below the basis product ("modulus") that are coprime to every basis
//! element.  [`Sieve::run`] extends the basis by exactly one prime and rebuilds
//! the candidate list for the larger modulus.  [`Sieve::seq_get`] promotes all
//! candidates up to the square root of the modulus into the basis, and
//! [`Sieve::get`] then confirms the remaining candidates by trial division and
//! returns the final ascending list of primes.

use crate::arith::{
    all_prime, confirmed, coprime_all, divides_none, is_prime, lemma_composite_small_factor,
    lemma_confirmed_app, lemma_confirmed_membership, lemma_confirmed_sorted,
    lemma_divides_none_prime, lemma_mod_divides_trans, lemma_mod_shift, lemma_product_ge_double,
    lemma_product_minus_one_coprime, lemma_product_mod, lemma_product_pos, lemma_product_push,
    lemma_product_take_le, lemma_product_take_succ, prime_seq, primes_complete, primes_upto,
    product, sorted_strict,
};
use vstd::arithmetic::div_mod::{
    lemma_fundamental_div_mod, lemma_fundamental_div_mod_converse_mod, lemma_mod_multiples_basic,
    lemma_small_mod,
};
use vstd::arithmetic::mul::lemma_mul_inequality;
use vstd::prelude::*;

verus! {

/// One wheel state.
pub struct Sieve {
    /// An initial segment of the prime numbers.
    pub primes: Vec<u64>,
    /// Positive integers less than the product of `primes` and coprime with
    /// every element of `primes`, in ascending order.
    pub sieved: Vec<u64>,
}

impl Sieve {
    /// The product of the basis: the period of the candidate representation.
    pub open spec fn modulus(self) -> int {
        product(self.primes@)
    }

    /// The wheel-state invariant: the basis is an initial segment of the
    /// primes, and the candidate list holds exactly the values below the
    /// modulus that are coprime to the whole basis.
    pub open spec fn wf(self) -> bool {
        &&& self.primes@.len() >= 2
        &&& self.primes@[0] == 2
        &&& self.primes@[1] == 3
        &&& prime_seq(self.primes@)
        &&& self.modulus() <= u64::MAX
        &&& sorted_strict(self.sieved@)
        &&& self.sieved@.len() >= 2
        &&& self.sieved@[0] == 1
        &&& forall|i: int|
            0 <= i < self.sieved@.len() ==> 1 <= #[trigger] self.sieved@[i]
                && (self.sieved@[i] as int) < self.modulus() && coprime_all(
                self.primes@,
                self.sieved@[i] as int,
            )
        &&& forall|n: u64|
            1 <= n && (n as int) < self.modulus() && coprime_all(self.primes@, n as int)
                ==> #[trigger] self.sieved@.contains(n)
    }

    /// Number of candidates in the current period.
    pub fn size(&self) -> (n: usize)
        ensures
            n == self.sieved@.len(),
    {
        self.sieved.len()
    }

    /// The largest candidate of the current period.
    pub fn last(&self) -> (v: u64)
        requires
            self.sieved@.len() > 0,
        ensures
            v == self.sieved@.last(),
    {
        self.sieved[self.sieved.len() - 1]
    }

    /// A copy of the current prime basis.
    pub fn basis(&self) -> (r: Vec<u64>)
        ensures
            r@ == self.primes@,
    {
        copy_all(&self.primes)
    }

    /// A copy of the current candidate list.
    pub fn candidates(&self) -> (r: Vec<u64>)
        ensures
            r@ == self.sieved@,
    {
        copy_all(&self.sieved)
    }
}

impl Default for Sieve {
    /// The initial wheel state: basis `[2, 3]`, candidates `[1, 5]`.
    fn default() -> (s: Self)
        ensures
            s.wf(),
            s.primes@ == seq![2u64, 3u64],
            s.sieved@ == seq![1u64, 5u64],
            s.modulus() == 6,
    {
        let s = Sieve { primes: vec![2u64, 3u64], sieved: vec![1u64, 5u64] };
        proof {
            lemma_default_wf(s);
        }
        s
    }
}

/// The initial state satisfies the wheel invariant.
proof fn lemma_default_wf(s: Sieve)
    requires
        s.primes@ == seq![2u64, 3u64],
        s.sieved@ == seq![1u64, 5u64],
    ensures
        s.wf(),
        s.modulus() == 6,
{
    assert(product(s.primes@) == 6) by {
        let base = Seq::<u64>::empty();
        assert(base.push(2u64).push(3u64) =~= s.primes@);
        assert(product(base) == 1);
        lemma_product_push(base, 2u64);
        lemma_product_push(base.push(2u64), 3u64);
    };
    assert(is_prime(2));
    assert(is_prime(3)) by {
        assert(3int % 2 == 1);
    };
    assert(primes_complete(s.primes@)) by {
        assert forall|q: u64|
            s.primes@.len() > 0 && is_prime(q as int) && q <= s.primes@.last() implies #[trigger] s
            .primes@.contains(q) by {
            if q == 2 {
                assert(s.primes@[0] == 2);
            } else {
                assert(q == 3);
                assert(s.primes@[1] == 3);
            }
        };
    };
    assert forall|i: int| 0 <= i < s.sieved@.len() implies 1 <= #[trigger] s.sieved@[i] && (
    s.sieved@[i] as int) < s.modulus() && coprime_all(s.primes@, s.sieved@[i] as int) by {
        assert(coprime_all(s.primes@, 1)) by {
            assert(1int % 2 == 1);
            assert(1int % 3 == 1);
        };
        assert(coprime_all(s.primes@, 5)) by {
            assert(5int % 2 == 1);
            assert(5int % 3 == 2);
        };
        assert(s.sieved@[i] == 1 || s.sieved@[i] == 5);
    };
    assert forall|n: u64|
        1 <= n && (n as int) < s.modulus() && coprime_all(s.primes@, n as int) implies #[trigger] s
        .sieved@.contains(n) by {
        if n == 1 {
            assert(s.sieved@[0] == 1);
        } else if n == 5 {
            assert(s.sieved@[1] == 5);
        } else {
            if n == 2 || n == 4 {
                assert((n as int) % 2 == 0);
                assert(s.primes@[0] == 2);
                assert(false);
            } else {
                assert(n == 3);
                assert((n as int) % 3 == 0);
                assert(s.primes@[1] == 3);
                assert(false);
            }
        }
    };
}

/// Copies a vector of machine integers.
fn copy_all(v: &Vec<u64>) -> (r: Vec<u64>)
    ensures
        r@ == v@,
{
    let mut r: Vec<u64> = Vec::new();
    let mut i: usize = 0;
    while i < v.len()
        invariant
            0 <= i <= v@.len(),
            r@ == v@.take(i as int),
        decreases v@.len() - i,
    {
        r.push(v[i]);
        proof {
            assert(v@.take(i + 1 as int) =~= v@.take(i as int).push(v@[i as int]));
        }
        i += 1;
    }
    proof {
        assert(v@.take(v@.len() as int) =~= v@);
    }
    r
}

/// Trial division of `item` against the primes of `primes` from index `from`
/// on, in ascending order, stopping at the first prime whose square exceeds
/// `item`.  Decides whether no listed prime with square at most `item`
/// divides `item`.
#[verifier::loop_isolation(false)]
pub fn coprime(primes: &Vec<u64>, from: usize, item: u64) -> (r: bool)
    requires
        from <= primes@.len(),
        sorted_strict(primes@),
        forall|i: int| 0 <= i < primes@.len() ==> (#[trigger] primes@[i]) >= 2,
        item >= 1,
    ensures
        r == divides_none(primes@.skip(from as int), item as int),
{
    let ghost tail = primes@.skip(from as int);
    let mut i: usize = from;
    while i < primes.len()
        invariant
            from <= i <= primes@.len(),
            forall|j: int|
                from <= j < i && ((#[trigger] primes@[j]) as int) * (primes@[j] as int) <= item
                    ==> (item as int) % (primes@[j] as int) != 0,
        decreases primes@.len() - i,
    {
        let p = primes[i];
        match p.checked_mul(p) {
            Some(sq) => {
                if sq > item {
                    proof {
                        lemma_tail_squares_large(primes@, from as int, i as int, item as int);
                    }
                    return true;
                }
                if item % p == 0 {
                    proof {
                        assert(tail[i - from] == primes@[i as int]);
                    }
                    return false;
                }
            },
            None => {
                proof {
                    assert((p as int) * (p as int) > u64::MAX);
                    lemma_tail_squares_large(primes@, from as int, i as int, item as int);
                }
                return true;
            },
        }
        i += 1;
    }
    proof {
        assert forall|k: int|
            0 <= k < tail.len() && ((#[trigger] tail[k]) as int) * (tail[k] as int)
                <= item implies (item as int) % (tail[k] as int) != 0 by {
            assert(tail[k] == primes@[from + k]);
        };
    }
    true
}

/// Once the scan reaches a prime whose square exceeds `item`, every later
/// prime in the sorted list also has a square exceeding `item`, so the
/// trial-division predicate is settled by the primes already examined.
proof fn lemma_tail_squares_large(s: Seq<u64>, from: int, i: int, item: int)
    requires
        0 <= from <= i < s.len(),
        sorted_strict(s),
        (s[i] as int) * (s[i] as int) > item,
        forall|j: int|
            from <= j < i && ((#[trigger] s[j]) as int) * (s[j] as int) <= item ==> item % (
            s[j] as int) != 0,
    ensures
        divides_none(s.skip(from), item),
{
    assert forall|k: int|
        0 <= k < s.skip(from).len() && ((#[trigger] s.skip(from)[k]) as int) * (s.skip(from)[k]
            as int) <= item implies item % (s.skip(from)[k] as int) != 0 by {
        let j = from + k;
        assert(s.skip(from)[k] == s[j]);
        if j >= i {
            assert((s[i] as int) * (s[i] as int) <= (s[j] as int) * (s[j] as int))
                by (nonlinear_arith)
                requires
                    0 <= s[i] <= s[j],
            ;
            assert(false);
        }
    };
}

/// The product of the basis, by checked multiplication; the invariant bounds
/// it by `u64::MAX`, so no factor can overflow.
#[verifier::loop_isolation(false)]
pub fn modulus_of(primes: &Vec<u64>) -> (m: u64)
    requires
        product(primes@) <= u64::MAX,
        forall|i: int| 0 <= i < primes@.len() ==> (#[trigger] primes@[i]) >= 1,
    ensures
        m as int == product(primes@),
        m >= 1,
{
    let mut m: u64 = 1;
    let mut k: usize = 0;
    proof {
        assert(primes@.take(0) =~= Seq::<u64>::empty());
    }
    while k < primes.len()
        invariant
            0 <= k <= primes@.len(),
            m as int == product(primes@.take(k as int)),
            m >= 1,
        decreases primes@.len() - k,
    {
        proof {
            lemma_product_take_succ(primes@, k as int);
            lemma_product_take_le(primes@, k + 1);
            lemma_product_pos(primes@.take(k + 1));
        }
        m = m * primes[k];
        k += 1;
    }
    proof {
        assert(primes@.take(primes@.len() as int) =~= primes@);
    }
    m
}

impl Sieve {
    /// Advance: absorb the next prime (the second candidate) into the basis
    /// and rebuild the candidate list for the enlarged modulus by shifting
    /// the old list across one period per residue of the new prime and
    /// discarding its multiples.  Returns `None` exactly when the enlarged
    /// modulus would overflow the 64-bit range; this is the fatal overflow
    /// condition, reported rather than wrapped.
    #[verifier::loop_isolation(false)]
    #[verifier::rlimit(60)]
    pub fn run(self) -> (r: Option<Sieve>)
        requires
            self.wf(),
        ensures
            is_prime(self.sieved@[1] as int),
            r is Some <==> self.modulus() * (self.sieved@[1] as int) <= u64::MAX,
            match r {
                Some(n) => {
                    &&& n.wf()
                    &&& n.primes@ == self.primes@.push(self.sieved@[1])
                    &&& n.modulus() == self.modulus() * (self.sieved@[1] as int)
                },
                None => true,
            },
    {
        proof {
            lemma_next_prime(self);
        }
        let prime = self.sieved[1];
        let bound = modulus_of(&self.primes);
        let newmod = match bound.checked_mul(prime) {
            Some(m) => m,
            None => {
                return None;
            },
        };
        let ghost oldp = self.primes@;
        let ghost olds = self.sieved@;
        let ghost newp = oldp.push(prime);
        let ghost b = bound as int;
        let ghost p = prime as int;
        proof {
            lemma_product_push(oldp, prime);
            assert(product(newp) == newmod);
            // the enlarged basis is again an initial segment of the primes
            assert(sorted_strict(newp)) by {
                assert(forall|i: int| 0 <= i < oldp.len() ==> oldp[i] <= oldp.last());
            };
            assert(all_prime(newp));
            assert(primes_complete(newp)) by {
                assert forall|q: u64|
                    newp.len() > 0 && is_prime(q as int) && q <= newp.last() implies #[trigger] newp
                    .contains(q) by {
                    if q <= oldp.last() {
                        assert(oldp.contains(q));
                        let i = choose|i: int| 0 <= i < oldp.len() && oldp[i] == q;
                        assert(newp[i] == q);
                    } else {
                        assert(q >= self.sieved@[1]);
                        assert(q == prime);
                        assert(newp.last() == q);
                    }
                };
            };
            assert(b >= 6 && p >= 5) by {
                assert(forall|i: int| 0 <= i < oldp.len() ==> (#[trigger] oldp[i]) >= 2);
                lemma_product_ge_double(oldp);
                assert(oldp.last() >= 3) by {
                    if oldp.len() == 2 {
                        assert(oldp.last() == oldp[1]);
                    } else {
                        assert(oldp[1] < oldp[oldp.len() - 1]);
                    }
                };
            };
        }
        let mut newprimes = copy_all(&self.primes);
        newprimes.push(prime);
        let mut out: Vec<u64> = Vec::new();
        let mut e: u64 = 0;
        while e < prime
            invariant
                0 <= e <= prime,
                sorted_strict(out@),
                forall|k: int|
                    0 <= k < out@.len() ==> 1 <= (#[trigger] out@[k]) && (out@[k] as int) < (
                    e as int) * b && coprime_all(newp, out@[k] as int),
                forall|m: u64|
                    1 <= m && (m as int) < (e as int) * b && #[trigger] coprime_all(
                        newp,
                        m as int,
                    ) ==> out@.contains(m),
            decreases prime - e,
        {
            let mut j: usize = 0;
            proof {
                assert(((e as int) + 1) * b == (e as int) * b + b) by (nonlinear_arith);
                assert((e as int) * b + b <= (p as int) * b) by {
                    lemma_mul_inequality((e as int) + 1, p, b);
                };
                assert((p as int) * b == newmod) by (nonlinear_arith)
                    requires
                        b * p == newmod,
                ;
            }
            while j < self.sieved.len()
                invariant
                    0 <= j <= olds.len(),
                    sorted_strict(out@),
                    forall|k: int|
                        0 <= k < out@.len() ==> 1 <= (#[trigger] out@[k]) && (out@[k] as int) < (
                        e as int) * b + (if j < olds.len() {
                            olds[j as int] as int
                        } else {
                            b
                        }) && coprime_all(newp, out@[k] as int),
                    forall|m: u64|
                        1 <= m && (m as int) < (e as int) * b && #[trigger] coprime_all(
                            newp,
                            m as int,
                        ) ==> out@.contains(m),
                    forall|j2: int|
                        0 <= j2 < j && ((e as int) * b + ((#[trigger] olds[j2]) as int)) % p != 0
                            ==> out@.contains((((e as int) * b + (olds[j2] as int)) as u64)),
                decreases olds.len() - j,
            {
                let item = self.sieved[j];
                proof {
                    assert(1 <= item && (item as int) < b);
                    assert((e as int) * b + (item as int) < newmod);
                }
                let val = e * bound + item;
                if val % prime != 0 {
                    proof {
                        // val is coprime to the whole enlarged basis
                        lemma_fundamental_div_mod_converse_mod(
                            val as int,
                            b,
                            e as int,
                            item as int,
                        );
                        assert forall|i: int| 0 <= i < newp.len() implies (val as int) % ((
                        #[trigger] newp[i]) as int) != 0 by {
                            if i < oldp.len() {
                                let q = oldp[i] as int;
                                assert(forall|t: int|
                                    0 <= t < oldp.len() ==> (#[trigger] oldp[t]) >= 1) by {
                                    assert(forall|t: int|
                                        0 <= t < oldp.len() ==> is_prime(
                                            #[trigger] oldp[t] as int,
                                        ));
                                };
                                lemma_product_mod(oldp, i);
                                lemma_mod_shift(val as int, q, b);
                                assert((item as int) % q != 0);
                            } else {
                                assert(newp[i] == prime);
                            }
                        };
                        // val exceeds every element already collected
                        assert(forall|k: int|
                            0 <= k < out@.len() ==> (#[trigger] out@[k]) < val);
                    }
                    let ghost prev = out@;
                    out.push(val);
                    proof {
                        assert forall|m: u64| #[trigger] prev.contains(m) implies out@.contains(
                            m,
                        ) by {
                            let i = choose|i: int| 0 <= i < prev.len() && prev[i] == m;
                            assert(out@[i] == m);
                        };
                    }
                }
                proof {
                    if j + 1 < olds.len() {
                        assert(olds[j as int] < olds[j + 1]);
                    }
                    assert forall|j2: int|
                        0 <= j2 < j + 1 && ((e as int) * b + ((#[trigger] olds[j2]) as int)) % p
                            != 0 implies out@.contains(
                        (((e as int) * b + (olds[j2] as int)) as u64),
                    ) by {
                        if j2 == j {
                            assert((val as int) % p != 0);
                            assert(out@[out@.len() - 1] == val);
                            assert((((e as int) * b + (olds[j2] as int)) as u64) == val);
                        }
                    };
                }
                j += 1;
            }
            // end of one period: everything below (e + 1) * bound that is
            // coprime to the enlarged basis has been produced
            proof {
                assert forall|m: u64|
                    1 <= m && (m as int) < ((e as int) + 1) * b && #[trigger] coprime_all(
                        newp,
                        m as int,
                    ) implies out@.contains(m) by {
                    let mi = m as int;
                    if mi >= (e as int) * b {
                        let s = mi - (e as int) * b;
                        assert(0 <= s < b);
                        if s == 0 {
                            lemma_product_mod(oldp, 0);
                            assert(b % 2 == 0);
                            lemma_mod_multiples_basic(e as int, b);
                            assert(mi == (e as int) * b);
                            assert(mi % b == 0);
                            lemma_mod_shift(mi, 2, b);
                            assert(newp[0] == 2);
                            assert(mi % 2 != 0);
                            assert(false);
                        }
                        lemma_fundamental_div_mod_converse_mod(mi, b, e as int, s);
                        assert(coprime_all(oldp, s)) by {
                            assert forall|i: int| 0 <= i < oldp.len() implies s % ((
                            #[trigger] oldp[i]) as int) != 0 by {
                                assert(forall|t: int|
                                    0 <= t < oldp.len() ==> (#[trigger] oldp[t]) >= 1) by {
                                    assert(forall|t: int|
                                        0 <= t < oldp.len() ==> is_prime(
                                            #[trigger] oldp[t] as int,
                                        ));
                                };
                                lemma_product_mod(oldp, i);
                                lemma_mod_shift(mi, oldp[i] as int, b);
                                assert(newp[i] == oldp[i]);
                                assert(mi % (newp[i] as int) != 0);
                            };
                        };
                        assert(olds.contains(s as u64));
                        let j2 = choose|j2: int| 0 <= j2 < olds.len() && olds[j2] == s as u64;
                        assert(mi % p != 0) by {
                            assert(newp[newp.len() - 1] == prime);
                        };
                        assert(((e as int) * b + (olds[j2] as int)) % p != 0);
                        assert(out@.contains((((e as int) * b + (olds[j2] as int)) as u64)));
                        assert((((e as int) * b + (olds[j2] as int)) as u64) == m);
                    }
                };
            }
            e += 1;
        }
        let result = Sieve { primes: newprimes, sieved: out };
        proof {
            assert((e as int) * b == newmod) by (nonlinear_arith)
                requires
                    e == prime,
                    b * p == newmod,
                    p == prime,
            ;
            assert(result.modulus() == newmod);
            assert(newmod >= 30) by (nonlinear_arith)
                requires
                    b >= 6,
                    p >= 5,
                    newmod as int == b * p,
            ;
            // the new candidate list starts at 1 and has at least two entries
            assert(coprime_all(newp, 1)) by {
                assert forall|i: int| 0 <= i < newp.len() implies 1int % ((#[trigger] newp[i])
                    as int) != 0 by {
                    lemma_small_mod(1nat, (newp[i] as nat));
                };
            };
            assert(coprime_all(newp, 1u64 as int));
            assert(result.sieved@.contains(1u64));
            lemma_product_minus_one_coprime(newp);
            assert(newmod - 1 >= 29);
            assert(coprime_all(newp, ((newmod - 1) as u64) as int));
            assert(result.sieved@.contains((newmod - 1) as u64));
            let i1 = choose|i: int| 0 <= i < result.sieved@.len() && result.sieved@[i] == 1u64;
            let i2 = choose|i: int|
                0 <= i < result.sieved@.len() && result.sieved@[i] == (newmod - 1) as u64;
            assert(i1 != i2);
            assert(result.sieved@.len() >= 2);
            assert(result.sieved@[0] == 1) by {
                if i1 != 0 {
                    assert(result.sieved@[0] < result.sieved@[i1]);
                    assert(result.sieved@[0] >= 1);
                    assert(false);
                }
            };
            assert(result.primes@[0] == 2 && result.primes@[1] == 3) by {
                assert(newp[0] == oldp[0] && newp[1] == oldp[1]);
            };
            assert(result.wf());
        }
        Some(result)
    }
}

impl Sieve {
    /// Boundary scan: walk the candidates in ascending order and promote each
    /// one whose square does not exceed the modulus into the basis when trial
    /// division against the primes promoted so far finds no factor.  Stops at
    /// the first candidate above the square-root bound and returns its index:
    /// everything before it is resolved, everything from it on still awaits
    /// verification.  Afterwards the basis lists every prime whose square is
    /// at most the modulus.
    #[verifier::loop_isolation(false)]
    #[verifier::rlimit(100)]
    pub fn seq_get(&mut self) -> (start: usize)
        requires
            old(self).wf(),
        ensures
            final(self).sieved@ == old(self).sieved@,
            1 <= start <= old(self).sieved@.len(),
            old(self).primes@.len() <= final(self).primes@.len(),
            final(self).primes@.take(old(self).primes@.len() as int) == old(self).primes@,
            prime_seq(final(self).primes@),
            final(self).primes@[0] == 2,
            final(self).primes@[1] == 3,
            forall|k: int|
                old(self).primes@.len() <= k < final(self).primes@.len() ==> old(
                    self,
                ).sieved@.contains(#[trigger] final(self).primes@[k]) && ((final(self).primes@[k]
                    as int) * (final(self).primes@[k] as int) <= old(self).modulus()),
            forall|i: int|
                1 <= i < start ==> ((#[trigger] old(self).sieved@[i]) as int) * (old(
                    self,
                ).sieved@[i] as int) <= old(self).modulus(),
            forall|i: int|
                start <= i < old(self).sieved@.len() ==> ((#[trigger] old(self).sieved@[i])
                    as int) * (old(self).sieved@[i] as int) > old(self).modulus(),
            forall|q: u64|
                is_prime(q as int) && (q as int) * (q as int) <= old(self).modulus()
                    ==> final(self).primes@.contains(q),
    {
        proof {
            lemma_next_prime(*old(self));
        }
        let prod = modulus_of(&self.primes);
        let ghost m = prod as int;
        let ghost oldp = self.primes@;
        let ghost olds = self.sieved@;
        let init = self.primes.len();
        let mut i: usize = 1;
        while i < self.sieved.len()
            invariant
                1 <= i <= olds.len(),
                self.sieved@ == olds,
                init <= self.primes@.len(),
                self.primes@.take(init as int) == oldp,
                prime_seq(self.primes@),
                forall|k: int|
                    init <= k < self.primes@.len() ==> olds.contains(#[trigger] self.primes@[k])
                        && ((self.primes@[k] as int) * (self.primes@[k] as int) <= m),
                forall|j: int|
                    1 <= j < i ==> ((#[trigger] olds[j]) as int) * (olds[j] as int) <= m,
                forall|j: int|
                    1 <= j < i && is_prime((#[trigger] olds[j]) as int) ==> self.primes@.contains(
                        olds[j],
                    ),
                i < olds.len() ==> self.primes@.last() < olds[i as int],
            decreases olds.len() - i,
        {
            let item = self.sieved[i];
            let sq_ok = match item.checked_mul(item) {
                Some(sq) => sq <= prod,
                None => false,
            };
            if !sq_ok {
                proof {
                    assert((item as int) * (item as int) > m);
                    lemma_scan_final(*old(self), self.primes@, i as int);
                }
                return i;
            }
            proof {
                lemma_scan_decide(*old(self), self.primes@, i as int, item);
            }
            if coprime(&self.primes, init, item) {
                let ghost prevp = self.primes@;
                self.primes.push(item);
                proof {
                    assert(is_prime(item as int));
                    assert(self.primes@.take(init as int) =~= prevp.take(init as int));
                    assert(sorted_strict(self.primes@)) by {
                        assert(forall|t: int|
                            0 <= t < prevp.len() ==> (#[trigger] prevp[t]) <= prevp.last());
                    };
                    assert(primes_complete(self.primes@)) by {
                        assert forall|q: u64|
                            is_prime(q as int) && q <= self.primes@.last() implies self
                            .primes@.contains(q) by {
                            if q < item {
                                assert(prevp.contains(q));
                                let t = choose|t: int| 0 <= t < prevp.len() && prevp[t] == q;
                                assert(self.primes@[t] == q);
                            } else {
                                assert(self.primes@.last() == item);
                            }
                        };
                    };
                    assert(olds.contains(item)) by {
                        assert(olds[i as int] == item);
                    };
                    if i + 1 < olds.len() {
                        assert(olds[i as int] < olds[i + 1]);
                    }
                }
            } else {
                proof {
                    assert(!is_prime(item as int));
                }
            }
            i += 1;
        }
        proof {
            lemma_scan_final(*old(self), self.primes@, olds.len() as int);
        }
        self.sieved.len()
    }
}

/// At the moment the scan stops -- at index `i`, either because the candidate
/// there exceeds the square-root bound or because the list is exhausted --
/// every remaining candidate also exceeds the bound, and the extended basis
/// `cur` holds every prime whose square is at most the modulus.
proof fn lemma_scan_final(orig: Sieve, cur: Seq<u64>, i: int)
    requires
        orig.wf(),
        1 <= i <= orig.sieved@.len(),
        orig.primes@.len() <= cur.len(),
        cur.take(orig.primes@.len() as int) == orig.primes@,
        prime_seq(cur),
        forall|j: int|
            1 <= j < i && is_prime((#[trigger] orig.sieved@[j]) as int) ==> cur.contains(
                orig.sieved@[j],
            ),
        i < orig.sieved@.len() ==> ((orig.sieved@[i] as int) * (orig.sieved@[i] as int)
            > orig.modulus()),
    ensures
        forall|i2: int|
            i <= i2 < orig.sieved@.len() ==> ((#[trigger] orig.sieved@[i2]) as int) * (
            orig.sieved@[i2] as int) > orig.modulus(),
        forall|q: u64|
            is_prime(q as int) && (q as int) * (q as int) <= orig.modulus() ==> cur.contains(q),
{
    let oldp = orig.primes@;
    let olds = orig.sieved@;
    let m = orig.modulus();
    let init = oldp.len() as int;
    assert forall|i2: int|
        i <= i2 < olds.len() implies ((#[trigger] olds[i2]) as int) * (olds[i2] as int) > m by {
        if i2 > i {
            assert(olds[i as int] < olds[i2]);
        }
        assert((olds[i as int] as int) * (olds[i as int] as int) <= (olds[i2] as int) * (olds[i2]
            as int)) by (nonlinear_arith)
            requires
                0 <= olds[i as int] <= olds[i2],
        ;
    };
    assert forall|q: u64|
        is_prime(q as int) && (q as int) * (q as int) <= m implies cur.contains(q) by {
        if q <= oldp.last() {
            assert(oldp.contains(q));
            let t = choose|t: int| 0 <= t < oldp.len() && oldp[t] == q;
            assert(cur.take(init)[t] == cur[t]);
            assert(cur[t] == q);
        } else {
            // q is coprime to the old basis, hence an already-scanned candidate
            assert(coprime_all(oldp, q as int)) by {
                assert forall|t: int| 0 <= t < oldp.len() implies (q as int) % ((
                #[trigger] oldp[t]) as int) != 0 by {
                    assert(oldp[t] <= oldp.last());
                    assert(2 <= (oldp[t] as int) && (oldp[t] as int) < (q as int));
                };
            };
            assert(q < q * q <= m) by (nonlinear_arith)
                requires
                    q >= 2,
                    (q as int) * (q as int) <= m,
            ;
            assert(olds.contains(q));
            let j = choose|j: int| 0 <= j < olds.len() && olds[j] == q;
            assert(j >= 1) by {
                if j == 0 {
                    assert(olds[0] == 1);
                }
            };
            assert(j < i) by {
                if j >= i {
                    assert((olds[j] as int) * (olds[j] as int) > m);
                }
            };
            assert(is_prime((olds[j]) as int));
        }
    };
}

/// At a candidate `item` within the square-root bound, the primes promoted so
/// far (the part of `cur` past the original basis) contain every prime factor
/// of `item` up to its own square root, so trial division against them decides
/// the primality of `item`.  Moreover every prime below `item` already stands
/// in `cur`.
proof fn lemma_scan_decide(orig: Sieve, cur: Seq<u64>, i: int, item: u64)
    requires
        orig.wf(),
        1 <= i < orig.sieved@.len(),
        item == orig.sieved@[i],
        (item as int) * (item as int) <= orig.modulus(),
        orig.primes@.len() <= cur.len(),
        cur.take(orig.primes@.len() as int) == orig.primes@,
        prime_seq(cur),
        forall|j: int|
            1 <= j < i && is_prime((#[trigger] orig.sieved@[j]) as int) ==> cur.contains(
                orig.sieved@[j],
            ),
    ensures
        item >= 5,
        divides_none(cur.skip(orig.primes@.len() as int), item as int) <==> is_prime(
            item as int,
        ),
        forall|q: u64| is_prime(q as int) && q < item ==> cur.contains(q),
{
    let oldp = orig.primes@;
    let olds = orig.sieved@;
    let m = orig.modulus();
    let init = oldp.len() as int;
    let tail = cur.skip(init);
    lemma_next_prime(orig);
    assert(olds[1] <= olds[i]) by {
        if i > 1 {
            assert(olds[1] < olds[i]);
        }
    };
    assert(item >= 5);
    assert(forall|t: int| 0 <= t < init ==> cur[t] == #[trigger] oldp[t]) by {
        assert(forall|t: int| 0 <= t < init ==> cur.take(init)[t] == #[trigger] cur[t]);
    };
    // every prime below item is already collected in cur
    assert forall|q: u64| is_prime(q as int) && q < item implies cur.contains(q) by {
        if q <= oldp.last() {
            assert(oldp.contains(q));
            let t = choose|t: int| 0 <= t < oldp.len() && oldp[t] == q;
            assert(cur[t] == q);
        } else {
            assert(coprime_all(oldp, q as int)) by {
                assert forall|t: int| 0 <= t < oldp.len() implies (q as int) % ((
                #[trigger] oldp[t]) as int) != 0 by {
                    assert(oldp[t] <= oldp.last());
                    assert(2 <= (oldp[t] as int) && (oldp[t] as int) < (q as int));
                };
            };
            assert((item as int) < m);
            assert(olds.contains(q));
            let j = choose|j: int| 0 <= j < olds.len() && olds[j] == q;
            assert(j >= 1) by {
                if j == 0 {
                    assert(olds[0] == 1);
                }
            };
            assert(j < i) by {
                if j >= i && j > i {
                    assert(olds[i] < olds[j]);
                }
            };
            assert(is_prime((olds[j]) as int));
        }
    };
    // hence the promoted tail covers every prime factor of item up to sqrt(item)
    assert(all_prime(tail)) by {
        assert(forall|k: int| 0 <= k < tail.len() ==> tail[k] == #[trigger] cur[init + k]);
    };
    assert forall|q: u64|
        is_prime(q as int) && (q as int) * (q as int) <= item as int && (item as int) % (
        q as int) == 0 implies tail.contains(q) by {
        assert(coprime_all(oldp, item as int));
        assert(q > oldp.last()) by {
            if q <= oldp.last() {
                assert(oldp.contains(q));
                let t = choose|t: int| 0 <= t < oldp.len() && oldp[t] == q;
                assert((item as int) % (oldp[t] as int) != 0);
            }
        };
        assert(q < item) by {
            assert((q as int) < (q as int) * (q as int)) by (nonlinear_arith)
                requires
                    q >= 2,
            ;
        };
        assert(cur.contains(q));
        let t0 = choose|t0: int| 0 <= t0 < cur.len() && cur[t0] == q;
        assert(t0 >= init) by {
            if t0 < init {
                assert(cur[t0] == oldp[t0]);
                assert(oldp[t0] <= oldp.last());
            }
        };
        assert(tail[t0 - init] == q);
    };
    lemma_divides_none_prime(tail, item as int);
}

/// The second candidate of a well-formed wheel state is the next prime: it is
/// prime, it exceeds every basis prime, and no prime lies strictly between
/// the last basis prime and it.
pub proof fn lemma_next_prime(s: Sieve)
    requires
        s.wf(),
    ensures
        is_prime(s.sieved@[1] as int),
        s.sieved@[1] > s.primes@.last(),
        forall|q: u64|
            is_prime(q as int) && q > s.primes@.last() ==> q >= s.sieved@[1],
        s.sieved@[1] >= 5,
{
    let s1 = s.sieved@[1] as int;
    assert(s.sieved@[0] == 1 && s.sieved@[1] > 1);
    // minimality: no value strictly between 1 and sieved[1] is coprime to the basis
    assert forall|m: u64| 1 < m < s.sieved@[1] implies !coprime_all(s.primes@, m as int) by {
        if coprime_all(s.primes@, m as int) {
            assert((m as int) < s.modulus());
            assert(s.sieved@.contains(m));
            let j = choose|j: int| 0 <= j < s.sieved@.len() && s.sieved@[j] == m;
            if j == 0 {
                assert(false);
            } else {
                assert(s.sieved@[1] <= s.sieved@[j]);
            }
        }
    };
    // sieved[1] is prime
    if !is_prime(s1) {
        let d = lemma_composite_small_factor(s1);
        assert(d < s1) by (nonlinear_arith)
            requires
                d >= 2,
                d * d <= s1,
        ;
        assert(coprime_all(s.primes@, d)) by {
            assert forall|i: int| 0 <= i < s.primes@.len() implies d % ((#[trigger] s.primes@[i])
                as int) != 0 by {
                let p = s.primes@[i] as int;
                assert(s1 % p != 0);
                if d % p == 0 {
                    lemma_mod_divides_trans(s1, d, p);
                }
            };
        };
        assert(!coprime_all(s.primes@, d));
        assert(false);
    }
    // sieved[1] is larger than every basis prime
    assert(s.sieved@[1] > s.primes@.last()) by {
        if s.sieved@[1] <= s.primes@.last() {
            assert(s.primes@.contains(s.sieved@[1]));
            let i = choose|i: int| 0 <= i < s.primes@.len() && s.primes@[i] == s.sieved@[1];
            assert(coprime_all(s.primes@, s1));
            assert(s1 % (s.primes@[i] as int) != 0);
            lemma_mod_multiples_basic(1, s1);
            assert(1 * s1 == s1);
            assert(false);
        }
    };
    // no prime falls strictly between the last basis prime and sieved[1]
    assert forall|q: u64|
        is_prime(q as int) && q > s.primes@.last() implies q >= s.sieved@[1] by {
        if q < s.sieved@[1] {
            assert(coprime_all(s.primes@, q as int)) by {
                assert forall|i: int| 0 <= i < s.primes@.len() implies (q as int) % ((
                #[trigger] s.primes@[i]) as int) != 0 by {
                    let p = s.primes@[i] as int;
                    assert(s.primes@[i] <= s.primes@.last());
                    assert(2 <= p < q as int);
                };
            };
            assert(1 < q < s.sieved@[1]);
            assert(false);
        }
    };
    // with basis [2, 3, ...] the next prime is at least 5
    assert(s.primes@.last() >= 3) by {
        if s.primes@.len() == 2 {
            assert(s.primes@.last() == s.primes@[1]);
        } else {
            assert(s.primes@[1] < s.primes@[s.primes@.len() - 1]);
        }
    };
    assert(s.sieved@[1] >= 4);
    if s.sieved@[1] == 4 {
        assert(is_prime(4));
        assert(4int % 2 == 0);
        assert(false);
    }
}

/// For a positive divisor, comparing against the quotient is the same as
/// comparing the product against the dividend.
proof fn lemma_le_div(a: int, b: int, x: int)
    requires
        a >= 0,
        b >= 1,
        x >= 0,
    ensures
        a <= x / b <==> a * b <= x,
{
    if a <= x / b {
        vstd::arithmetic::mul::lemma_mul_inequality(a, x / b, b);
        lemma_fundamental_div_mod(x, b);
        assert(b * (x / b) == (x / b) * b) by (nonlinear_arith);
    }
    if a * b <= x {
        vstd::arithmetic::div_mod::lemma_div_is_ordered(a * b, x, b);
        vstd::arithmetic::div_mod::lemma_div_multiples_vanish(a, b);
        assert(b * a == a * b) by (nonlinear_arith);
    }
}

/// Integer square root by bisection.
fn isqrt(x: u128) -> (r: u128)
    ensures
        (r as int) * (r as int) <= x as int,
        ((r as int) + 1) * ((r as int) + 1) > x as int,
        r <= 0xFFFF_FFFF_FFFF_FFFF,
{
    let mut lo: u128 = 0;
    let mut hi: u128 = 0x1_0000_0000_0000_0000;
    proof {
        assert(0x1_0000_0000_0000_0000int * 0x1_0000_0000_0000_0000int
            == 0x1_0000_0000_0000_0000_0000_0000_0000_0000int) by (nonlinear_arith);
    }
    while lo + 1 < hi
        invariant
            0 <= lo < hi <= 0x1_0000_0000_0000_0000,
            (lo as int) * (lo as int) <= x as int,
            (hi as int) * (hi as int) > x as int,
        decreases hi - lo,
    {
        let mid = lo + (hi - lo) / 2;
        proof {
            assert(lo < mid < hi);
            assert((mid as int) * (mid as int) <= 0xFFFF_FFFF_FFFF_FFFFint
                * 0xFFFF_FFFF_FFFF_FFFFint) by (nonlinear_arith)
                requires
                    0 <= (mid as int) <= 0xFFFF_FFFF_FFFF_FFFFint,
            ;
            assert(0xFFFF_FFFF_FFFF_FFFFint * 0xFFFF_FFFF_FFFF_FFFFint
                == 0xFFFF_FFFF_FFFF_FFFE_0000_0000_0000_0001int) by (nonlinear_arith);
        }
        let sq = mid * mid;
        if sq <= x {
            lo = mid;
        } else {
            hi = mid;
        }
    }
    lo
}

/// Integer cube root by bisection; the cube comparison is made through a
/// division so that no intermediate product can overflow.
fn icbrt(x: u128) -> (r: u128)
    ensures
        (r as int) * (r as int) * (r as int) <= x as int,
        ((r as int) + 1) * ((r as int) + 1) * ((r as int) + 1) > x as int,
{
    let mut lo: u128 = 0;
    let mut hi: u128 = 0x2000_0000_0000;
    proof {
        assert(0x2000_0000_0000int * 0x2000_0000_0000int == 0x40000000000000000000000int)
            by (nonlinear_arith);
        assert(0x40000000000000000000000int * 0x2000_0000_0000int
            == 0x8000000000000000000000000000000000int) by (nonlinear_arith);
        assert(0x2000_0000_0000int * 0x2000_0000_0000int * 0x2000_0000_0000int
            > u128::MAX as int);
    }
    while lo + 1 < hi
        invariant
            0 <= lo < hi <= 0x2000_0000_0000,
            (lo as int) * (lo as int) * (lo as int) <= x as int,
            (hi as int) * (hi as int) * (hi as int) > x as int,
        decreases hi - lo,
    {
        let mid = lo + (hi - lo) / 2;
        proof {
            assert(lo < mid < hi);
            assert((mid as int) * (mid as int) <= 0x2000_0000_0000int * 0x2000_0000_0000int)
                by (nonlinear_arith)
                requires
                    0 <= (mid as int) <= 0x2000_0000_0000int,
            ;
            assert(0x2000_0000_0000int * 0x2000_0000_0000int == 0x40000000000000000000000int)
                by (nonlinear_arith);
            assert((mid as int) * (mid as int) >= 1) by (nonlinear_arith)
                requires
                    (mid as int) >= 1,
            ;
        }
        let m2 = mid * mid;
        let keep = m2 <= x && mid <= x / m2;
        proof {
            let mi = mid as int;
            let xi = x as int;
            if m2 <= x {
                lemma_le_div(mi, m2 as int, xi);
                assert(mi * (mi * mi) == mi * mi * mi) by (nonlinear_arith);
            } else {
                assert(mi * mi * mi >= mi * mi) by (nonlinear_arith)
                    requires
                        mi >= 1,
                ;
            }
            assert(keep == (mi * mi * mi <= xi));
        }
        if keep {
            lo = mid;
        } else {
            hi = mid;
        }
    }
    lo
}

/// Clamps `x` into the index range `[lo, hi]`.
fn clamp_index(x: u128, lo: usize, hi: usize) -> (r: usize)
    requires
        lo <= hi,
    ensures
        lo <= r <= hi,
{
    if x <= lo as u128 {
        lo
    } else if x >= hi as u128 {
        hi
    } else {
        x as usize
    }
}

/// Cost-balanced split points for the verification workload over the index
/// range `[start, total)`: per-candidate trial-division cost grows with the
/// square root of the candidate, so the boundaries equalise the increments of
/// `index^1.5` across the four shares rather than the share lengths.  The
/// boundaries are a heuristic and are clamped into range; the contract fixes
/// only their ordering, on which the merge correctness rests.
pub fn partition(start: usize, total: usize) -> (b: (usize, usize, usize))
    requires
        start <= total,
    ensures
        start <= b.0 && b.0 <= b.1 && b.1 <= b.2 && b.2 <= total,
{
    let cap: u128 = 0x400_0000_0000;
    let sc: u128 = if (start as u128) > cap {
        cap
    } else {
        start as u128
    };
    let tc: u128 = if (total as u128) > cap {
        cap
    } else {
        total as u128
    };
    proof {
        assert(sc <= cap && tc <= cap);
        assert((sc as int) * (sc as int) <= (cap as int) * (cap as int)) by (nonlinear_arith)
            requires
                0 <= (sc as int) <= (cap as int),
        ;
        assert((sc as int) * (sc as int) * (sc as int) <= (cap as int) * (cap as int) * (
        cap as int)) by (nonlinear_arith)
            requires
                0 <= (sc as int) <= (cap as int),
        ;
        assert((tc as int) * (tc as int) <= (cap as int) * (cap as int)) by (nonlinear_arith)
            requires
                0 <= (tc as int) <= (cap as int),
        ;
        assert((tc as int) * (tc as int) * (tc as int) <= (cap as int) * (cap as int) * (
        cap as int)) by (nonlinear_arith)
            requires
                0 <= (tc as int) <= (cap as int),
        ;
        assert(0x400_0000_0000int * 0x400_0000_0000int == 0x1000000000000000000000int)
            by (nonlinear_arith);
        assert(0x1000000000000000000000int * 0x400_0000_0000int
            == 0x40000000000000000000000000000000int) by (nonlinear_arith);
    }
    let a = isqrt(sc * sc * sc);
    let t = isqrt(tc * tc * tc);
    proof {
        assert((a as int) <= 0x8000_0000_0000_0000int) by (nonlinear_arith)
            requires
                (a as int) >= 0,
                (a as int) * (a as int) <= 0x40000000000000000000000000000000int,
        ;
        assert((t as int) <= 0x8000_0000_0000_0000int) by (nonlinear_arith)
            requires
                (t as int) >= 0,
                (t as int) * (t as int) <= 0x40000000000000000000000000000000int,
        ;
    }
    let d = if t > a {
        t - a
    } else {
        0
    };
    let m1 = a + d / 4;
    let m2 = a + d / 2;
    let m3 = a + (d / 4) * 3;
    proof {
        assert(m1 <= 0x8000_0000_0000_0000 && m2 <= 0x8000_0000_0000_0000 && m3
            <= 0x8000_0000_0000_0000);
        assert((m1 as int) * (m1 as int) <= 0x8000_0000_0000_0000int * 0x8000_0000_0000_0000int)
            by (nonlinear_arith)
            requires
                0 <= (m1 as int) <= 0x8000_0000_0000_0000int,
        ;
        assert((m2 as int) * (m2 as int) <= 0x8000_0000_0000_0000int * 0x8000_0000_0000_0000int)
            by (nonlinear_arith)
            requires
                0 <= (m2 as int) <= 0x8000_0000_0000_0000int,
        ;
        assert((m3 as int) * (m3 as int) <= 0x8000_0000_0000_0000int * 0x8000_0000_0000_0000int)
            by (nonlinear_arith)
            requires
                0 <= (m3 as int) <= 0x8000_0000_0000_0000int,
        ;
        assert(0x8000_0000_0000_0000int * 0x8000_0000_0000_0000int
            == 0x40000000000000000000000000000000int) by (nonlinear_arith);
    }
    let c1 = icbrt(m1 * m1);
    let c2 = icbrt(m2 * m2);
    let c3 = icbrt(m3 * m3);
    let b1 = clamp_index(c1, start, total);
    let b2 = clamp_index(c2, b1, total);
    let b3 = clamp_index(c3, b2, total);
    (b1, b2, b3)
}

/// The values of the index range `[lo, hi)` of `items` that trial division
/// against the primes of `basis` confirms: those with no listed prime factor
/// up to their own square root.
pub open spec fn share_filtered(basis: Seq<u64>, items: Seq<u64>, lo: int, hi: int) -> Seq<u64> {
    confirmed(basis, items.subrange(lo, hi))
}

/// One worker's pass: filters the share `[lo, hi)` of `items` by trial
/// division against `basis`.  Workers may run this on disjoint shares
/// concurrently, since it only reads its arguments.
#[verifier::loop_isolation(false)]
pub fn filter_share(basis: &Vec<u64>, items: &Vec<u64>, lo: usize, hi: usize) -> (r: Vec<u64>)
    requires
        lo <= hi <= items@.len(),
        sorted_strict(basis@),
        forall|i: int| 0 <= i < basis@.len() ==> (#[trigger] basis@[i]) >= 2,
        forall|i: int| lo <= i < hi ==> (#[trigger] items@[i]) >= 1,
    ensures
        r@ == share_filtered(basis@, items@, lo as int, hi as int),
{
    let mut r: Vec<u64> = Vec::new();
    let mut i = lo;
    proof {
        assert(items@.subrange(lo as int, lo as int) =~= Seq::<u64>::empty());
    }
    while i < hi
        invariant
            lo <= i <= hi,
            r@ == share_filtered(basis@, items@, lo as int, i as int),
        decreases hi - i,
    {
        let it = items[i];
        let keep = coprime(basis, 0, it);
        proof {
            assert(basis@.skip(0) =~= basis@);
            let sub1 = items@.subrange(lo as int, i + 1);
            assert(sub1.drop_last() =~= items@.subrange(lo as int, i as int));
            assert(sub1.last() == it);
            assert(keep == divides_none(basis@, it as int));
        }
        if keep {
            r.push(it);
        }
        i += 1;
    }
    r
}

/// The four contiguous shares of the workload, each filtered independently
/// and concatenated in share order, give exactly the filtered whole: the
/// parallel decomposition neither reorders, duplicates nor drops a value.
pub proof fn lemma_parallel_shares(
    basis: Seq<u64>,
    items: Seq<u64>,
    a: int,
    b1: int,
    b2: int,
    b3: int,
    c: int,
)
    requires
        0 <= a <= b1 <= b2 <= b3 <= c <= items.len(),
    ensures
        share_filtered(basis, items, a, b1) + share_filtered(basis, items, b1, b2)
            + share_filtered(basis, items, b2, b3) + share_filtered(basis, items, b3, c)
            == share_filtered(basis, items, a, c),
{
    lemma_share_glue(basis, items, a, b1, b2);
    lemma_share_glue(basis, items, a, b2, b3);
    lemma_share_glue(basis, items, a, b3, c);
}

/// Two adjacent shares filter to the concatenation of their filtered parts.
proof fn lemma_share_glue(basis: Seq<u64>, items: Seq<u64>, a: int, b: int, c: int)
    requires
        0 <= a <= b <= c <= items.len(),
    ensures
        share_filtered(basis, items, a, b) + share_filtered(basis, items, b, c)
            == share_filtered(basis, items, a, c),
{
    assert(items.subrange(a, c) =~= items.subrange(a, b) + items.subrange(b, c));
    lemma_confirmed_app(basis, items.subrange(a, b), items.subrange(b, c));
}

impl Sieve {
    /// Terminal verification pass: resolve the boundary with
    /// [`Sieve::seq_get`], split the unresolved suffix into four
    /// cost-balanced contiguous shares, confirm each share by trial division
    /// against the completed basis, and append the four outputs to the basis
    /// in share order -- no sort is needed, the shares are ordered and
    /// disjoint.  Returns the ascending sequence of exactly the primes up to
    /// the largest candidate of this state.
    #[verifier::loop_isolation(false)]
    #[verifier::rlimit(100)]
    pub fn get(self) -> (r: Vec<u64>)
        requires
            self.wf(),
        ensures
            primes_upto(r@, self.sieved@.last()),
            r@.len() >= 3,
            r@[0] == 2,
            r@[1] == 3,
    {
        let ghost olds = self.sieved@;
        let mut s = self;
        let start = s.seq_get();
        let ghost base = s.primes@;
        proof {
            assert(forall|i: int| 0 <= i < base.len() ==> (#[trigger] base[i]) >= 2) by {
                assert(forall|i: int| 0 <= i < base.len() ==> is_prime(#[trigger] base[i] as int));
            };
            assert(forall|i: int| 0 <= i < olds.len() ==> (#[trigger] olds[i]) >= 1);
        }
        let total = s.sieved.len();
        let (b1, b2, b3) = partition(start, total);
        let mut f1 = filter_share(&s.primes, &s.sieved, start, b1);
        let mut f2 = filter_share(&s.primes, &s.sieved, b1, b2);
        let mut f3 = filter_share(&s.primes, &s.sieved, b2, b3);
        let mut f4 = filter_share(&s.primes, &s.sieved, b3, total);
        let mut r = s.primes;
        r.append(&mut f1);
        r.append(&mut f2);
        r.append(&mut f3);
        r.append(&mut f4);
        proof {
            lemma_parallel_shares(
                base,
                olds,
                start as int,
                b1 as int,
                b2 as int,
                b3 as int,
                total as int,
            );
            assert(r@ =~= base + share_filtered(base, olds, start as int, total as int));
            lemma_get_characterization(self, base, start as int, r@);
        }
        r
    }
}

/// The merge of the completed basis with the confirmed suffix is exactly the
/// ascending list of all primes up to the largest candidate.
proof fn lemma_get_characterization(orig: Sieve, base: Seq<u64>, start: int, r: Seq<u64>)
    requires
        orig.wf(),
        1 <= start <= orig.sieved@.len(),
        orig.primes@.len() <= base.len(),
        base.take(orig.primes@.len() as int) == orig.primes@,
        prime_seq(base),
        forall|k: int|
            orig.primes@.len() <= k < base.len() ==> orig.sieved@.contains(#[trigger] base[k])
                && ((base[k] as int) * (base[k] as int) <= orig.modulus()),
        forall|i: int|
            1 <= i < start ==> ((#[trigger] orig.sieved@[i]) as int) * (orig.sieved@[i] as int)
                <= orig.modulus(),
        forall|i: int|
            start <= i < orig.sieved@.len() ==> ((#[trigger] orig.sieved@[i]) as int) * (
            orig.sieved@[i] as int) > orig.modulus(),
        forall|q: u64|
            is_prime(q as int) && (q as int) * (q as int) <= orig.modulus() ==> base.contains(q),
        r == base + share_filtered(base, orig.sieved@, start, orig.sieved@.len() as int),
    ensures
        primes_upto(r, orig.sieved@.last()),
        r.len() >= 3,
        r[0] == 2,
        r[1] == 3,
{
    let oldp = orig.primes@;
    let olds = orig.sieved@;
    let m = orig.modulus();
    let big = olds.last();
    let init = oldp.len() as int;
    let sub = olds.subrange(start, olds.len() as int);
    let f = confirmed(base, sub);
    lemma_next_prime(orig);
    lemma_last_candidate(orig);
    lemma_confirmed_membership(base, sub);
    assert(forall|t: int| 0 <= t < init ==> base[t] == #[trigger] oldp[t]) by {
        assert(forall|t: int| 0 <= t < init ==> base.take(init)[t] == #[trigger] base[t]);
    };
    // every basis element stays below every unresolved candidate
    assert forall|k: int, i: int|
        0 <= k < base.len() && start <= i < olds.len() implies (#[trigger] base[k])
        < (#[trigger] olds[i]) by {
        assert(olds[1] <= olds[i]) by {
            if i > 1 {
                assert(olds[1] < olds[i]);
            }
        };
        if k < init {
            assert(base[k] == oldp[k]);
            assert(oldp[k] <= oldp.last());
        } else {
            assert((base[k] as int) * (base[k] as int) <= m);
            assert((olds[i] as int) * (olds[i] as int) > m);
            assert(base[k] < olds[i]) by (nonlinear_arith)
                requires
                    base[k] >= 0,
                    olds[i] >= 0,
                    (base[k] as int) * (base[k] as int) < (olds[i] as int) * (olds[i] as int),
            ;
        }
    };
    // the confirmed suffix holds exactly the primes among the candidates
    // above the square-root bound
    assert forall|x: u64| #[trigger] f.contains(x) implies is_prime(x as int) && x <= big by {
        assert(sub.contains(x) && divides_none(base, x as int));
        let i0 = choose|i0: int| 0 <= i0 < sub.len() && sub[i0] == x;
        assert(olds[start + i0] == x);
        assert(olds[start + i0] <= olds[olds.len() - 1]) by {
            if start + i0 < olds.len() - 1 {
                assert(olds[start + i0] < olds[olds.len() - 1]);
            }
        };
        assert(x >= 5) by {
            assert(olds[1] <= olds[start + i0]) by {
                if start + i0 > 1 {
                    assert(olds[1] < olds[start + i0]);
                }
            };
        };
        lemma_trial_division_decides(orig, base, x);
    };
    // membership, in both directions
    assert forall|q: u64| #[trigger] r.contains(q) implies is_prime(q as int) && q <= big by {
        let t = choose|t: int| 0 <= t < r.len() && r[t] == q;
        if t < base.len() {
            assert(base[t] == q);
            if t < init {
                assert(q == oldp[t]);
                assert(oldp[t] <= oldp.last());
                assert(oldp.last() < olds[1]);
                assert(olds[1] <= olds[olds.len() - 1]) by {
                    if olds.len() > 2 {
                        assert(olds[1] < olds[olds.len() - 1]);
                    }
                };
            } else {
                assert(olds.contains(q));
                let j = choose|j: int| 0 <= j < olds.len() && olds[j] == q;
                assert(olds[j] <= olds[olds.len() - 1]) by {
                    if j < olds.len() - 1 {
                        assert(olds[j] < olds[olds.len() - 1]);
                    }
                };
            }
        } else {
            assert(f[t - base.len()] == q);
            assert(f.contains(q));
        }
    };
    assert forall|q: u64| is_prime(q as int) && q <= big implies #[trigger] r.contains(q) by {
        if base.contains(q) {
            let t = choose|t: int| 0 <= t < base.len() && base[t] == q;
            assert(r[t] == q);
        } else {
            // q is past the basis, hence an unresolved candidate that the
            // trial-division pass confirms
            assert(q > base.last()) by {
                if q <= base.last() {
                    assert(base.contains(q));
                }
            };
            assert(q > oldp.last()) by {
                assert(oldp.last() == base[init - 1]);
                assert(base[init - 1] <= base.last());
            };
            assert(coprime_all(oldp, q as int)) by {
                assert forall|t: int| 0 <= t < oldp.len() implies (q as int) % ((
                #[trigger] oldp[t]) as int) != 0 by {
                    assert(oldp[t] <= oldp.last());
                    assert(2 <= (oldp[t] as int) && (oldp[t] as int) < (q as int));
                };
            };
            assert((q as int) < m && q >= 1);
            assert(olds.contains(q));
            let j = choose|j: int| 0 <= j < olds.len() && olds[j] == q;
            assert(j >= 1) by {
                if j == 0 {
                    assert(olds[0] == 1);
                }
            };
            assert(j >= start) by {
                if j < start {
                    assert((olds[j] as int) * (olds[j] as int) <= m);
                    assert(base.contains(q));
                }
            };
            assert(sub[j - start] == q);
            lemma_trial_division_decides(orig, base, q);
            assert(divides_none(base, (sub[j - start]) as int));
            assert(f.contains(q));
            let t = choose|t: int| 0 <= t < f.len() && f[t] == q;
            assert(r[base.len() + t] == q);
        }
    };
    // the merge is strictly increasing
    assert(sorted_strict(sub)) by {
        assert(forall|i: int, j: int|
            0 <= i < j < sub.len() ==> #[trigger] sub[i] == olds[start + i] && #[trigger] sub[j]
                == olds[start + j]);
    };
    lemma_confirmed_sorted(base, sub);
    assert forall|k1: int, k2: int| 0 <= k1 < k2 < r.len() implies #[trigger] r[k1]
        < #[trigger] r[k2] by {
        if k2 >= base.len() {
            let x = f[k2 - base.len()];
            assert(f.contains(x));
            assert(sub.contains(x));
            let i0 = choose|i0: int| 0 <= i0 < sub.len() && sub[i0] == x;
            assert(olds[start + i0] == x);
            if k1 < base.len() {
                assert(base[k1] < olds[start + i0]);
            }
        }
    };
    // the result starts 2, 3, 5
    assert(r[0] == base[0] && r[1] == base[1]);
    assert(base[0] == 2 && base[1] == 3);
    assert(is_prime(5)) by {
        assert(5int % 2 == 1);
        assert(5int % 3 == 2);
        assert(5int % 4 == 1);
    };
    assert(5 <= big);
    assert(r.contains(5u64));
    let t5 = choose|t: int| 0 <= t < r.len() && r[t] == 5u64;
    assert(t5 >= 2) by {
        if t5 == 0 || t5 == 1 {
            assert(false);
        }
    };
}

/// For an unresolved candidate (or any value coprime to the original basis
/// whose square exceeds nothing kept back by the scan), trial division
/// against the completed basis decides primality, because the basis holds
/// every prime up to the square-root bound.
proof fn lemma_trial_division_decides(orig: Sieve, base: Seq<u64>, x: u64)
    requires
        orig.wf(),
        prime_seq(base),
        forall|q: u64|
            is_prime(q as int) && (q as int) * (q as int) <= orig.modulus() ==> base.contains(q),
        5 <= x,
        (x as int) < orig.modulus(),
    ensures
        divides_none(base, x as int) <==> is_prime(x as int),
{
    assert forall|d: u64|
        is_prime(d as int) && (d as int) * (d as int) <= x as int && (x as int) % (d as int)
            == 0 implies base.contains(d) by {
        assert((d as int) * (d as int) <= orig.modulus());
    };
    lemma_divides_none_prime(base, x as int);
}

/// In a well-formed state the largest candidate is exactly `modulus - 1`.
pub proof fn lemma_last_candidate(s: Sieve)
    requires
        s.wf(),
    ensures
        s.sieved@.last() as int == s.modulus() - 1,
        s.modulus() >= 6,
{
    let m = s.modulus();
    assert(m >= 2 * (s.primes@.last() as int)) by {
        assert(forall|i: int|
            0 <= i < s.primes@.len() ==> (#[trigger] s.primes@[i]) >= 2) by {
            assert(forall|i: int|
                0 <= i < s.primes@.len() ==> is_prime(#[trigger] s.primes@[i] as int));
        };
        lemma_product_ge_double(s.primes@);
    };
    assert(s.primes@.last() >= 3) by {
        if s.primes@.len() == 2 {
            assert(s.primes@.last() == s.primes@[1]);
        } else {
            assert(s.primes@[1] < s.primes@[s.primes@.len() - 1]);
        }
    };
    assert(m >= 6);
    let w = (m - 1) as u64;
    assert(coprime_all(s.primes@, m - 1)) by {
        assert forall|i: int| 0 <= i < s.primes@.len() implies (m - 1) % ((
        #[trigger] s.primes@[i]) as int) != 0 by {
            let p = s.primes@[i] as int;
            assert(is_prime(s.primes@[i] as int));
            lemma_product_mod(s.primes@, i);
            let k = m / p;
            lemma_fundamental_div_mod(m, p);
            assert(m == p * k);
            assert(m - 1 == (k - 1) * p + (p - 1)) by (nonlinear_arith)
                requires
                    m == p * k,
            ;
            lemma_fundamental_div_mod_converse_mod(m - 1, p, k - 1, p - 1);
        };
    };
    assert(s.sieved@.contains(w));
    let j = choose|j: int| 0 <= j < s.sieved@.len() && s.sieved@[j] == w;
    assert(s.sieved@[s.sieved@.len() - 1] >= s.sieved@[j]) by {
        if j < s.sieved@.len() - 1 {
            assert(s.sieved@[j] < s.sieved@[s.sieved@.len() - 1]);
        }
    };
    assert((s.sieved@.last() as int) < m);
}

} // verus!
