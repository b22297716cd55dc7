use std::collections::HashMap;
use vstd::arithmetic::div_mod::*;
use vstd::arithmetic::power::*;
use vstd::prelude::*;

verus! {

/// `p` is a prime number.
pub open spec fn is_prime(p: int) -> bool {
    p >= 2 && forall|d: int| 2 <= d < p ==> #[trigger] (p % d) != 0
}

/// The product of `p^e` over the pairs `(p, e)` of `s`.
pub open spec fn product(s: Seq<(usize, usize)>) -> int
    decreases s.len(),
{
    if s.len() == 0 {
        1
    } else {
        product(s.drop_last()) * pow(s.last().0 as int, s.last().1 as nat)
    }
}

/// `s` lists distinct primes in increasing order, each with an exponent of
/// at least 1, and `m` maps each of those primes to its exponent.
pub open spec fn lists_prime_powers(m: Map<usize, usize>, s: Seq<(usize, usize)>) -> bool {
    &&& forall|k: int| 0 <= k < s.len() ==> is_prime(#[trigger] s[k].0 as int) && s[k].1 >= 1
    &&& forall|k: int, l: int| 0 <= k < l < s.len() ==> #[trigger] s[k].0 < #[trigger] s[l].0
    &&& m.dom() == Set::new(|p: usize| exists|k: int| 0 <= k < s.len() && #[trigger] s[k].0 == p)
    &&& forall|k: int| 0 <= k < s.len() ==> m[#[trigger] s[k].0] == s[k].1
}

/// `m` is the prime factorization of `n`: it maps distinct primes to
/// exponents of at least 1 and the product of `p^e` over it is `n`.
pub open spec fn is_factorization(m: Map<usize, usize>, n: int) -> bool {
    exists|s: Seq<(usize, usize)>| lists_prime_powers(m, s) && product(s) == n
}

proof fn lemma_divides_trans(d: int, a: int, b: int)
    requires
        d > 0,
        a > 0,
        a % d == 0,
        b % a == 0,
    ensures
        b % d == 0,
{
    lemma_fundamental_div_mod(a, d);
    lemma_fundamental_div_mod(b, a);
    let x = a / d;
    let y = b / a;
    assert(b == d * (x * y)) by (nonlinear_arith)
        requires
            a == d * x,
            b == a * y,
    ;
    lemma_mod_multiples_basic(x * y, d);
    assert(d * (x * y) == (x * y) * d) by (nonlinear_arith);
}

/// A number above 1 without a divisor in `[2, i)`, where `i * i > n`, is prime.
proof fn lemma_no_small_divisor_prime(n: int, i: int)
    requires
        n >= 2,
        i >= 2,
        i * i > n,
        forall|d: int| 2 <= d < i ==> #[trigger] (n % d) != 0,
    ensures
        is_prime(n),
{
    assert forall|d: int| 2 <= d < n implies #[trigger] (n % d) != 0 by {
        if n % d == 0 && d >= i {
            lemma_fundamental_div_mod(n, d);
            let e = n / d;
            assert(n == d * e);
            assert(e >= 2) by (nonlinear_arith)
                requires
                    n == d * e,
                    d < n,
                    d >= 2,
            ;
            assert(e < i) by (nonlinear_arith)
                requires
                    n == d * e,
                    d >= i,
                    i * i > n,
                    i >= 2,
            ;
            lemma_mod_multiples_basic(d, e);
            assert(n == d * e);
            assert(d * e == e * d) by (nonlinear_arith);
            assert(n % e == 0);
        }
    }
}

/// The prime factorization of `n`, by trial division: each prime factor
/// mapped to its exponent. Empty for 0 and 1.
pub fn factorize(n: usize) -> (r: HashMap<usize, usize>)
    ensures
        n >= 1 ==> is_factorization(r@, n as int),
        n == 0 ==> r@ == Map::<usize, usize>::empty(),
{
    broadcast use vstd::std_specs::hash::group_hash_axioms;

    let ghost n0 = n as int;
    let mut n = n;
    let mut result: HashMap<usize, usize> = HashMap::new();
    let ghost mut s: Seq<(usize, usize)> = seq![];
    let mut i: usize = 2;
    proof {
        reveal(pow);
        assert(result@ =~= Map::empty());
        assert(result@.dom() =~= Set::new(
            |p: usize| exists|k: int| 0 <= k < s.len() && #[trigger] s[k].0 == p,
        ));
    }
    while i <= n / i
        invariant
            n0 == 0 ==> n == 0 && result@ == Map::<usize, usize>::empty(),
            n0 >= 1 ==> n >= 1,
            2 <= i,
            i <= n0 + 2,
            n <= n0,
            n0 >= 1 ==> n0 == n * product(s),
            lists_prime_powers(result@, s),
            forall|k: int| 0 <= k < s.len() ==> #[trigger] s[k].0 < i,
            forall|d: int| 2 <= d < i && n >= 1 ==> #[trigger] (n as int % d) != 0,
        decreases n0 + 2 - i,
    {
        let ghost nb = n as int;
        let mut count: usize = 0;
        proof {
            lemma_pow0(i as int);
            lemma_fundamental_div_mod(n as int, i as int);
            assert(i < n) by (nonlinear_arith)
                requires
                    n == i * (n / i) + n % i,
                    n % i >= 0,
                    i <= n / i,
                    i >= 2,
            ;
        }
        while n % i == 0
            invariant
                n0 >= 1,
                n >= 1,
                2 <= i,
                count <= nb,
                nb <= n0,
                nb <= usize::MAX,
                n <= nb,
                nb % (n as int) == 0,
                count > 0 ==> nb % (i as int) == 0,
                n0 == n * pow(i as int, count as nat) * product(s),
                n * pow(i as int, count as nat) == nb,
            decreases n,
        {
            proof {
                lemma_fundamental_div_mod(n as int, i as int);
                lemma_pow_adds(i as int, count as nat, 1);
                lemma_pow1(i as int);
                let q = n as int / i as int;
                assert(n == q * i) by (nonlinear_arith)
                    requires
                        n == i * q + 0,
                ;
                assert(n * pow(i as int, count as nat) == q * pow(i as int, (count + 1) as nat))
                    by (nonlinear_arith)
                    requires
                        n == q * i,
                        pow(i as int, (count + 1) as nat) == pow(i as int, count as nat) * i,
                ;
                assert(q >= 1 && q < n) by (nonlinear_arith)
                    requires
                        n == q * i,
                        n >= 1,
                        i >= 2,
                ;
                lemma_mod_multiples_basic(pow(i as int, count as nat), q);
                assert(nb == pow(i as int, (count + 1) as nat) * q) by (nonlinear_arith)
                    requires
                        nb == q * pow(i as int, (count + 1) as nat),
                ;
                lemma_mod_multiples_basic(pow(i as int, (count + 1) as nat), q);
                lemma_pow_positive(i as int, count as nat);
                assert(count + 1 <= nb) by {
                    lemma_pow_increases_help(i as int, (count + 1) as nat);
                    assert(q * pow(i as int, (count + 1) as nat) >= pow(i as int, (count + 1) as nat))
                        by (nonlinear_arith)
                        requires
                            q >= 1,
                            pow(i as int, (count + 1) as nat) >= 1,
                    ;
                }
                if count == 0 {
                    lemma_mod_multiples_basic(q, i as int);
                    assert(q * i == i * q) by (nonlinear_arith);
                }
            }
            n = n / i;
            count = count + 1;
        }
        proof {
            if nb >= 1 {
                assert forall|d: int| 2 <= d < i + 1 && n >= 1 implies #[trigger] (n as int % d)
                    != 0 by {
                    if d < i && n as int % d == 0 {
                        lemma_divides_trans(d, n as int, nb);
                    }
                }
            }
        }
        if count > 0 {
            proof {
                assert forall|d: int| 2 <= d < i implies #[trigger] ((i as int) % d) != 0 by {
                    if (i as int) % d == 0 {
                        lemma_divides_trans(d, i as int, nb);
                    }
                }
                let s2 = s.push((i, count));
                assert(s2.drop_last() =~= s);
                assert(product(s2) == product(s) * pow(i as int, count as nat));
                assert(n0 == n * product(s2)) by (nonlinear_arith)
                    requires
                        n0 == n * pow(i as int, count as nat) * product(s),
                        product(s2) == product(s) * pow(i as int, count as nat),
                ;
            }
            let ghost old_m = result@;
            result.insert(i, count);
            proof {
                let old_s = s;
                s = s.push((i, count));
                assert(is_prime(i as int));
                assert forall|k: int, l: int| 0 <= k < l < s.len() implies #[trigger] s[k].0
                    < #[trigger] s[l].0 by {
                    assert(old_s[k].0 < i);
                }
                assert forall|k: int| 0 <= k < s.len() implies is_prime(#[trigger] s[k].0 as int)
                    && s[k].1 >= 1 by {
                    if k < old_s.len() {
                        assert(s[k] == old_s[k]);
                    }
                }
                assert forall|k: int| 0 <= k < s.len() implies result@[#[trigger] s[k].0] == s[k].1 by {
                    if k < old_s.len() {
                        assert(old_s[k].0 < i);
                        assert(old_m[old_s[k].0] == old_s[k].1);
                    }
                }
                assert(result@.dom() =~= Set::new(
                    |p: usize| exists|k: int| 0 <= k < s.len() && #[trigger] s[k].0 == p,
                )) by {
                    assert forall|p: usize| result@.dom().contains(p) implies exists|k: int|
                        0 <= k < s.len() && #[trigger] s[k].0 == p by {
                        if p != i {
                            let k = choose|k: int| 0 <= k < old_s.len() && #[trigger] old_s[k].0 == p;
                            assert(s[k].0 == p);
                        } else {
                            assert(s[s.len() - 1].0 == p);
                        }
                    }
                }
            }
        } else {
            proof {
                assert(pow(i as int, 0) == 1) by {
                    reveal(pow);
                }
            }
        }
        i = i + 1;
    }
    if n > 1 {
        proof {
            lemma_fundamental_div_mod(n as int, i as int);
            assert(i * i > n) by (nonlinear_arith)
                requires
                    i > n / i,
                    n == i * (n / i) + n % i,
                    0 <= n % i < i,
            ;
            lemma_no_small_divisor_prime(n as int, i as int);
            assert(n >= i) by {
                if n < i {
                    assert((n as int) % (n as int) == 0) by {
                        lemma_mod_self_0(n as int);
                    }
                }
            }
            let s2 = s.push((n, 1usize));
            assert(s2.drop_last() =~= s);
            lemma_pow1(n as int);
            assert(product(s2) == product(s) * n);
            assert(product(s2) == n0) by (nonlinear_arith)
                requires
                    product(s2) == product(s) * n,
                    n0 == n * product(s),
            ;
        }
        result.insert(n, 1);
        proof {
            let old_s = s;
            s = s.push((n, 1usize));
            assert(result@.dom() =~= Set::new(
                |p: usize| exists|k: int| 0 <= k < s.len() && #[trigger] s[k].0 == p,
            )) by {
                assert forall|p: usize| result@.dom().contains(p) implies exists|k: int|
                    0 <= k < s.len() && #[trigger] s[k].0 == p by {
                    if p != n {
                        let k = choose|k: int| 0 <= k < old_s.len() && #[trigger] old_s[k].0 == p;
                        assert(s[k].0 == p);
                    } else {
                        assert(s[s.len() - 1].0 == p);
                    }
                }
            }
        }
    } else {
        proof {
            if n0 >= 1 {
                assert(n == 1);
                assert(n0 == product(s)) by (nonlinear_arith)
                    requires
                        n == 1,
                        n0 == n * product(s),
                ;
            }
        }
    }
    proof {
        if n0 >= 1 {
            assert(lists_prime_powers(result@, s) && product(s) == n0);
        }
    }
    result
}

proof fn lemma_pow_increases_help(b: int, e: nat)
    requires
        b >= 2,
    ensures
        pow(b, e) >= e + 1,
    decreases e,
{
    reveal(pow);
    if e > 0 {
        lemma_pow_increases_help(b, (e - 1) as nat);
        assert(pow(b, e) == b * pow(b, (e - 1) as nat));
        assert(b * pow(b, (e - 1) as nat) >= e + 1) by (nonlinear_arith)
            requires
                b >= 2,
                pow(b, (e - 1) as nat) >= e,
                e >= 1,
        ;
    }
}

} // verus!
