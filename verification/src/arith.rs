//! Number-theoretic vocabulary and lemmas.
//!
//! Everything the sieve states about its data is phrased with the spec
//! functions here: primality, strict ordering, the product of a basis, and
//! coprimality of a value with every element of a basis.

use vstd::arithmetic::div_mod::{
    lemma_fundamental_div_mod, lemma_fundamental_div_mod_converse_mod, lemma_mod_multiples_basic,
    lemma_mod_multiples_vanish,
};
use vstd::arithmetic::mul::lemma_mul_inequality;
use vstd::prelude::*;

verus! {

/// `n` is a prime number.
pub open spec fn is_prime(n: int) -> bool {
    n >= 2 && forall|d: int| 2 <= d < n ==> #[trigger] (n % d) != 0
}

/// The elements of `s` are in strictly increasing order.
pub open spec fn sorted_strict(s: Seq<u64>) -> bool {
    forall|i: int, j: int| 0 <= i < j < s.len() ==> s[i] < s[j]
}

/// Every element of `s` is prime.
pub open spec fn all_prime(s: Seq<u64>) -> bool {
    forall|i: int| 0 <= i < s.len() ==> is_prime(#[trigger] s[i] as int)
}

/// No prime up to the last element of `s` is missing from `s`.
pub open spec fn primes_complete(s: Seq<u64>) -> bool {
    forall|q: u64|
        s.len() > 0 && is_prime(q as int) && q <= s.last() ==> #[trigger] s.contains(q)
}

/// `s` is an initial segment of the primes in ascending order.
pub open spec fn prime_seq(s: Seq<u64>) -> bool {
    &&& sorted_strict(s)
    &&& all_prime(s)
    &&& primes_complete(s)
}

/// Product of all elements of `s`.
pub open spec fn product(s: Seq<u64>) -> int
    decreases s.len(),
{
    if s.len() == 0 {
        1
    } else {
        product(s.drop_last()) * (s.last() as int)
    }
}

/// No element of `s` divides `n`.
pub open spec fn coprime_all(s: Seq<u64>, n: int) -> bool {
    forall|i: int| 0 <= i < s.len() ==> n % ((#[trigger] s[i]) as int) != 0
}

/// No element of `s` whose square is at most `n` divides `n`.  This is the
/// predicate the short-circuiting trial-division test decides.
pub open spec fn divides_none(s: Seq<u64>, n: int) -> bool {
    forall|i: int|
        0 <= i < s.len() && ((#[trigger] s[i]) as int) * (s[i] as int) <= n ==> n % (
        s[i] as int) != 0
}

/// `r` is exactly the ascending sequence of all primes up to `bound`.
pub open spec fn primes_upto(r: Seq<u64>, bound: u64) -> bool {
    &&& sorted_strict(r)
    &&& forall|q: u64| #[trigger] r.contains(q) <==> (is_prime(q as int) && q <= bound)
}

/// Divisibility is transitive: if `c` divides `b` and `b` divides `a`,
/// then `c` divides `a`.
pub proof fn lemma_mod_divides_trans(a: int, b: int, c: int)
    requires
        a >= 0,
        b >= 1,
        c >= 1,
        a % b == 0,
        b % c == 0,
    ensures
        a % c == 0,
{
    let k = a / b;
    let m = b / c;
    lemma_fundamental_div_mod(a, b);
    lemma_fundamental_div_mod(b, c);
    assert(a == (m * k) * c) by (nonlinear_arith)
        requires
            a == b * k,
            b == c * m,
    ;
    lemma_mod_multiples_basic(m * k, c);
}

/// Reducing modulo a multiple of `q` does not change the residue modulo `q`.
pub proof fn lemma_mod_shift(n: int, q: int, b: int)
    requires
        n >= 0,
        q >= 1,
        b >= 1,
        b % q == 0,
    ensures
        n % q == (n % b) % q,
{
    let k = n / b;
    let m = b / q;
    lemma_fundamental_div_mod(n, b);
    lemma_fundamental_div_mod(b, q);
    assert(n == q * (m * k) + (n % b)) by (nonlinear_arith)
        requires
            n == b * k + (n % b),
            b == q * m,
    ;
    lemma_mod_multiples_vanish(m * k, n % b, q);
}

/// Every integer of at least 2 has a prime factor.
pub proof fn lemma_has_prime_factor(n: int) -> (d: int)
    requires
        n >= 2,
    ensures
        is_prime(d),
        2 <= d <= n,
        n % d == 0,
    decreases n,
{
    if is_prime(n) {
        lemma_mod_multiples_basic(1, n);
        assert(n % n == 0) by {
            assert((1 * n) % n == 0);
        };
        n
    } else {
        let e = choose|e: int| 2 <= e < n && #[trigger] (n % e) == 0;
        let d = lemma_has_prime_factor(e);
        lemma_mod_divides_trans(n, e, d);
        d
    }
}

/// Every composite number has a prime factor no larger than its square root.
pub proof fn lemma_composite_small_factor(n: int) -> (d: int)
    requires
        n >= 2,
        !is_prime(n),
    ensures
        is_prime(d),
        2 <= d,
        d * d <= n,
        n % d == 0,
{
    let e = choose|e: int| 2 <= e < n && #[trigger] (n % e) == 0;
    let f = n / e;
    lemma_fundamental_div_mod(n, e);
    assert(n == e * f);
    assert(f >= 2) by (nonlinear_arith)
        requires
            n == e * f,
            2 <= e < n,
    ;
    // the smaller of the two cofactors has square at most n
    let g = if e <= f {
        e
    } else {
        f
    };
    assert(g * g <= n) by (nonlinear_arith)
        requires
            n == e * f,
            2 <= e,
            2 <= f,
            g == if e <= f {
                e
            } else {
                f
            },
    ;
    assert(n % g == 0) by {
        if e <= f {
        } else {
            assert(n == f * e);
            lemma_mod_multiples_basic(e, f);
        }
    };
    let d = lemma_has_prime_factor(g);
    lemma_mod_divides_trans(n, g, d);
    assert(d * d <= g * g) by (nonlinear_arith)
        requires
            2 <= d <= g,
    ;
    d
}

/// Appending an element multiplies the product by it.
pub proof fn lemma_product_push(s: Seq<u64>, x: u64)
    ensures
        product(s.push(x)) == product(s) * (x as int),
{
    assert(s.push(x).drop_last() =~= s);
}

/// The product of a sequence of positive values is positive.
pub proof fn lemma_product_pos(s: Seq<u64>)
    requires
        forall|i: int| 0 <= i < s.len() ==> (#[trigger] s[i]) >= 1,
    ensures
        product(s) >= 1,
    decreases s.len(),
{
    if s.len() > 0 {
        lemma_product_pos(s.drop_last());
        assert(product(s.drop_last()) * (s.last() as int) >= 1) by (nonlinear_arith)
            requires
                product(s.drop_last()) >= 1,
                s.last() >= 1,
        ;
    }
}

/// Extending a prefix by one element multiplies its product by that element.
pub proof fn lemma_product_take_succ(s: Seq<u64>, k: int)
    requires
        0 <= k < s.len(),
    ensures
        product(s.take(k + 1)) == product(s.take(k)) * (s[k] as int),
{
    assert(s.take(k + 1).drop_last() =~= s.take(k));
}

/// The product of a prefix is no larger than the product of the whole.
pub proof fn lemma_product_take_le(s: Seq<u64>, k: int)
    requires
        forall|i: int| 0 <= i < s.len() ==> (#[trigger] s[i]) >= 1,
        0 <= k <= s.len(),
    ensures
        product(s.take(k)) <= product(s),
        product(s.take(k)) >= 1,
    decreases s.len() - k,
{
    assert(forall|i: int| 0 <= i < s.take(k).len() ==> (#[trigger] s.take(k)[i]) >= 1);
    lemma_product_pos(s.take(k));
    if k == s.len() {
        assert(s.take(k) =~= s);
    } else {
        lemma_product_take_succ(s, k);
        lemma_mul_inequality(1, s[k] as int, product(s.take(k)));
        lemma_product_take_le(s, k + 1);
    }
}

/// Every element of `s` divides the product, and is no larger than it.
pub proof fn lemma_product_mod(s: Seq<u64>, i: int)
    requires
        forall|j: int| 0 <= j < s.len() ==> (#[trigger] s[j]) >= 1,
        0 <= i < s.len(),
    ensures
        product(s) % (s[i] as int) == 0,
        s[i] <= product(s),
    decreases s.len(),
{
    let front = s.drop_last();
    let last = s.last() as int;
    let x = s[i] as int;
    if i == s.len() - 1 {
        lemma_product_pos(front);
        lemma_mod_multiples_basic(product(front), x);
        lemma_mul_inequality(1, product(front), x);
        assert(1 * x == x) by (nonlinear_arith);
        assert(product(front) * x == x * product(front)) by (nonlinear_arith);
    } else {
        lemma_product_mod(front, i);
        let k = product(front) / x;
        lemma_fundamental_div_mod(product(front), x);
        assert(product(s) == (k * last) * x) by (nonlinear_arith)
            requires
                product(s) == product(front) * last,
                product(front) == x * k,
        ;
        lemma_mod_multiples_basic(k * last, x);
        lemma_mul_inequality(1, last, product(front));
        assert(product(front) * 1 == product(front)) by (nonlinear_arith);
        assert(1 * product(front) == product(front) * 1) by (nonlinear_arith);
    }
}

/// With at least two factors, each at least 2, the product is at least
/// twice its last factor.
pub proof fn lemma_product_ge_double(s: Seq<u64>)
    requires
        forall|i: int| 0 <= i < s.len() ==> (#[trigger] s[i]) >= 2,
        s.len() >= 2,
    ensures
        product(s) >= 2 * (s.last() as int),
        product(s) >= 4,
{
    let front = s.drop_last();
    let last = s.last() as int;
    assert(product(front) >= 2) by {
        let ffront = front.drop_last();
        assert(forall|i: int| 0 <= i < ffront.len() ==> (#[trigger] ffront[i]) >= 1);
        lemma_product_pos(ffront);
        lemma_mul_inequality(1, front.last() as int, product(ffront));
        assert(product(ffront) * (front.last() as int) >= 1 * (front.last() as int))
            by (nonlinear_arith)
            requires
                product(ffront) >= 1,
                front.last() >= 2,
        ;
    };
    lemma_mul_inequality(2, product(front), last);
    assert(2 * last >= 4) by (nonlinear_arith)
        requires
            last >= 2,
    ;
}

/// The predecessor of the product of a list of primes is coprime to every
/// listed prime: it leaves remainder `q - 1` modulo each factor `q`.
pub proof fn lemma_product_minus_one_coprime(s: Seq<u64>)
    requires
        all_prime(s),
        s.len() >= 1,
    ensures
        product(s) >= 2,
        coprime_all(s, product(s) - 1),
{
    let m = product(s);
    assert(forall|j: int| 0 <= j < s.len() ==> (#[trigger] s[j]) >= 1) by {
        assert(forall|j: int| 0 <= j < s.len() ==> is_prime(#[trigger] s[j] as int));
    };
    lemma_product_mod(s, s.len() - 1);
    assert(m >= 2);
    assert forall|i: int| 0 <= i < s.len() implies (m - 1) % ((#[trigger] s[i]) as int) != 0 by {
        let q = s[i] as int;
        lemma_product_mod(s, i);
        let k = m / q;
        lemma_fundamental_div_mod(m, q);
        assert(m == q * k);
        assert(m - 1 == (k - 1) * q + (q - 1)) by (nonlinear_arith)
            requires
                m == q * k,
        ;
        lemma_fundamental_div_mod_converse_mod(m - 1, q, k - 1, q - 1);
    };
}

/// Over a sorted list of primes that contains every prime factor of `n`
/// up to its square root, the trial-division predicate decides primality.
pub proof fn lemma_divides_none_prime(s: Seq<u64>, n: int)
    requires
        2 <= n <= u64::MAX,
        all_prime(s),
        forall|q: u64|
            is_prime(q as int) && (q as int) * (q as int) <= n && n % (q as int) == 0
                ==> #[trigger] s.contains(q),
    ensures
        divides_none(s, n) <==> is_prime(n),
{
    if divides_none(s, n) {
        if !is_prime(n) {
            let d = lemma_composite_small_factor(n);
            assert(d <= d * d) by (nonlinear_arith)
                requires
                    d >= 2,
            ;
            let du = d as u64;
            assert(s.contains(du));
            let i = choose|i: int| 0 <= i < s.len() && s[i] == du;
            assert((s[i] as int) * (s[i] as int) <= n);
            assert(false);
        }
    }
    if is_prime(n) {
        assert forall|i: int|
            0 <= i < s.len() && ((#[trigger] s[i]) as int) * (s[i] as int) <= n implies n % (
        s[i] as int) != 0 by {
            let p = s[i] as int;
            assert(2 * p <= p * p) by (nonlinear_arith)
                requires
                    p >= 2,
            ;
            assert(p < n);
        };
    }
}

/// Dropping the last element of an initial segment of the primes leaves an
/// initial segment of the primes.
proof fn lemma_prime_seq_front(s: Seq<u64>)
    requires
        prime_seq(s),
        s.len() > 0,
    ensures
        prime_seq(s.drop_last()),
{
    let front = s.drop_last();
    assert forall|q: u64|
        front.len() > 0 && is_prime(q as int) && q <= front.last() implies #[trigger] front
        .contains(q) by {
        assert(front.last() == s[s.len() - 2]);
        assert(s[s.len() - 2] < s[s.len() - 1]);
        assert(s.contains(q));
        let j = choose|j: int| 0 <= j < s.len() && s[j] == q;
        assert(j < s.len() - 1) by {
            if j == s.len() - 1 {
                assert(s[j] > front.last());
            }
        };
        assert(front[j] == q);
    };
}

/// A longer initial segment of the primes reaches strictly higher: two
/// ascending gap-free prime lists of equal length cannot have different last
/// elements.
proof fn lemma_prime_seq_last(a: Seq<u64>, b: Seq<u64>)
    requires
        prime_seq(a),
        prime_seq(b),
        a.len() == b.len(),
        a.len() > 0,
    ensures
        b.last() <= a.last(),
{
    if a.last() >= b.last() {
        return ;
    }
    // every element of a is a prime below b's last, so it appears in b
    assert(a.to_set().subset_of(b.to_set().remove(b.last()))) by {
        assert forall|x: u64| a.to_set().contains(x) implies b.to_set().remove(
            b.last(),
        ).contains(x) by {
            let i = choose|i: int| 0 <= i < a.len() && a[i] == x;
            assert(a[i] <= a.last()) by {
                if i < a.len() - 1 {
                    assert(a[i] < a[a.len() - 1]);
                }
            };
            assert(is_prime(x as int));
            assert(b.contains(x));
            assert(b.to_set().contains(x));
        };
    };
    assert(a.no_duplicates());
    assert(b.no_duplicates());
    a.unique_seq_to_set();
    b.unique_seq_to_set();
    vstd::seq_lib::seq_to_set_is_finite::<u64>(b);
    assert(b.to_set().contains(b.last()));
    assert(b.to_set().remove(b.last()).len() == b.to_set().len() - 1);
    vstd::set_lib::lemma_len_subset(a.to_set(), b.to_set().remove(b.last()));
    assert(false);
}

/// An initial segment of the primes is determined by its length alone: after
/// any number of advances, a basis of a given length is exactly the first so
/// many primes, with no gaps and in ascending order.
pub proof fn lemma_prime_seq_unique(a: Seq<u64>, b: Seq<u64>)
    requires
        prime_seq(a),
        prime_seq(b),
        a.len() == b.len(),
    ensures
        a == b,
    decreases a.len(),
{
    if a.len() > 0 {
        lemma_prime_seq_last(a, b);
        lemma_prime_seq_last(b, a);
        lemma_prime_seq_front(a);
        lemma_prime_seq_front(b);
        lemma_prime_seq_unique(a.drop_last(), b.drop_last());
        assert(a =~= b) by {
            assert(forall|i: int|
                0 <= i < a.len() - 1 ==> #[trigger] a[i] == a.drop_last()[i] && #[trigger] b[i]
                    == b.drop_last()[i]);
        };
    } else {
        assert(a =~= b);
    }
}

/// The subsequence of `items` that trial division against the primes of
/// `basis` confirms: the values with no listed prime factor up to their own
/// square root, in their original order.
pub open spec fn confirmed(basis: Seq<u64>, items: Seq<u64>) -> Seq<u64>
    decreases items.len(),
{
    if items.len() == 0 {
        Seq::empty()
    } else {
        let rest = confirmed(basis, items.drop_last());
        if divides_none(basis, items.last() as int) {
            rest.push(items.last())
        } else {
            rest
        }
    }
}

/// Confirming a concatenation confirms the parts and joins them in order.
pub proof fn lemma_confirmed_app(basis: Seq<u64>, a: Seq<u64>, b: Seq<u64>)
    ensures
        confirmed(basis, a + b) == confirmed(basis, a) + confirmed(basis, b),
    decreases b.len(),
{
    if b.len() == 0 {
        assert(a + b =~= a);
        assert(confirmed(basis, a) + confirmed(basis, b) =~= confirmed(basis, a));
    } else {
        lemma_confirmed_app(basis, a, b.drop_last());
        assert((a + b).drop_last() =~= a + b.drop_last());
        assert((a + b).last() == b.last());
        if divides_none(basis, b.last() as int) {
            assert(confirmed(basis, a) + confirmed(basis, b.drop_last()).push(b.last()) =~= (
            confirmed(basis, a) + confirmed(basis, b.drop_last())).push(b.last()));
        }
    }
}

/// What confirmation keeps: exactly the listed values that pass the test.
pub proof fn lemma_confirmed_membership(basis: Seq<u64>, items: Seq<u64>)
    ensures
        forall|x: u64|
            #[trigger] confirmed(basis, items).contains(x) ==> items.contains(x) && divides_none(
                basis,
                x as int,
            ),
        forall|i: int|
            0 <= i < items.len() && divides_none(basis, (#[trigger] items[i]) as int)
                ==> confirmed(basis, items).contains(items[i]),
    decreases items.len(),
{
    if items.len() > 0 {
        let front = items.drop_last();
        let rest = confirmed(basis, front);
        lemma_confirmed_membership(basis, front);
        assert forall|x: u64| #[trigger] confirmed(basis, items).contains(x) implies items
            .contains(x) && divides_none(basis, x as int) by {
            if x == items.last() {
                assert(items[items.len() - 1] == x);
                if !divides_none(basis, x as int) {
                    assert(rest.contains(x));
                    let j = choose|j: int| 0 <= j < front.len() && front[j] == x;
                    assert(items[j] == x);
                }
            } else {
                assert(rest.contains(x)) by {
                    let j = choose|j: int|
                        0 <= j < confirmed(basis, items).len() && confirmed(basis, items)[j] == x;
                    if confirmed(basis, items) == rest.push(items.last()) {
                        assert(rest[j] == x);
                    }
                };
                let j = choose|j: int| 0 <= j < front.len() && front[j] == x;
                assert(items[j] == x);
            }
        };
        assert forall|i: int|
            0 <= i < items.len() && divides_none(basis, (#[trigger] items[i]) as int) implies
            confirmed(basis, items).contains(items[i]) by {
            if i == items.len() - 1 {
                let c = confirmed(basis, items);
                assert(c[c.len() - 1] == items.last());
            } else {
                assert(front[i] == items[i]);
                assert(rest.contains(items[i]));
                let j = choose|j: int| 0 <= j < rest.len() && rest[j] == items[i];
                assert(confirmed(basis, items)[j] == items[i]);
            }
        };
    }
}

/// Confirmation keeps the strict order of its input.
pub proof fn lemma_confirmed_sorted(basis: Seq<u64>, items: Seq<u64>)
    requires
        sorted_strict(items),
    ensures
        sorted_strict(confirmed(basis, items)),
    decreases items.len(),
{
    if items.len() > 0 {
        let front = items.drop_last();
        assert(sorted_strict(front));
        lemma_confirmed_sorted(basis, front);
        lemma_confirmed_membership(basis, front);
        if divides_none(basis, items.last() as int) {
            let rest = confirmed(basis, front);
            assert forall|i: int| 0 <= i < rest.len() implies rest[i] < items.last() by {
                assert(rest.contains(rest[i]));
                assert(front.contains(rest[i]));
                let j = choose|j: int| 0 <= j < front.len() && front[j] == rest[i];
                assert(items[j] == rest[i]);
                assert(items[j] < items[items.len() - 1]);
            };
        }
    }
}

} // verus!
