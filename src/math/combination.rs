use vstd::arithmetic::div_mod::*;
use vstd::prelude::*;

verus! {

/// The prime modulus of the tables.
pub const MOD: usize = 1_000_000_007;

/// The product of two values below `MOD`, reduced modulo `MOD`.
fn mul_mod(a: usize, b: usize) -> (r: usize)
    requires
        a <= MOD,
        b <= MOD,
    ensures
        r == (a * b) % (MOD as int),
{
    assert(a * b <= MOD * MOD) by (nonlinear_arith)
        requires
            a <= MOD,
            b <= MOD,
    ;
    ((a as u64) * (b as u64) % (MOD as u64)) as usize
}

/// `n!`.
pub open spec fn factorial(n: nat) -> nat
    decreases n,
{
    if n == 0 {
        1
    } else {
        n * factorial((n - 1) as nat)
    }
}

/// The table of inverses: `inv(1) = 1` and, for `i >= 2`,
/// `inv(i) = MOD - inv(MOD % i) * (MOD / i) % MOD`, which is the inverse of
/// `i` modulo the prime `MOD`.
pub open spec fn inverse(i: nat) -> int
    decreases i,
{
    if i <= 1 {
        i as int
    } else {
        MOD - inverse((MOD as nat) % i) * ((MOD as nat) / i) as int % (MOD as int)
    }
}

/// The table of inverse factorials: the running product of `inverse`
/// modulo `MOD`.
pub open spec fn inverse_factorial(i: nat) -> int
    decreases i,
{
    if i <= 1 {
        1
    } else {
        inverse_factorial((i - 1) as nat) * inverse(i) % (MOD as int)
    }
}

/// `nCr` modulo `MOD`, from the tables.
pub open spec fn combination_mod(n: nat, r: nat) -> int {
    if n < r {
        0
    } else {
        (factorial(n) % (MOD as nat)) as int * (inverse_factorial(r) * inverse_factorial(
            (n - r) as nat,
        ) % (MOD as int)) % (MOD as int)
    }
}

/// `nPr` modulo `MOD`, from the tables.
pub open spec fn permutation_mod(n: nat, r: nat) -> int {
    if n < r {
        0
    } else {
        (factorial(n) % (MOD as nat)) as int * inverse_factorial((n - r) as nat) % (MOD as int)
    }
}

proof fn lemma_inverse_bounds(i: nat)
    ensures
        0 <= inverse(i) <= MOD,
{
    if i >= 2 {
        let x = inverse((MOD as nat) % i) * ((MOD as nat) / i) as int % (MOD as int);
        assert(0 <= x < MOD);
    }
}

/// `inverse(i)` is the inverse of `i` modulo `MOD` when no number in
/// `2..=i` divides `MOD` (so for every `1 <= i < MOD`, `MOD` being prime).
pub proof fn lemma_inverse_is_inverse(i: nat)
    requires
        1 <= i,
        forall|j: nat| 2 <= j <= i ==> #[trigger] ((MOD as nat) % j) != 0,
    ensures
        (i * inverse(i)) % (MOD as int) == 1,
    decreases i,
{
    let m = MOD as int;
    if i == 1 {
        assert(inverse(1) == 1);
        lemma_small_mod(1, MOD as nat);
    } else {
        let r = (MOD as nat) % i;
        let q = (MOD as nat) / i;
        lemma_fundamental_div_mod(m, i as int);
        assert(m == i * q + r);
        assert(1 <= r < i);
        lemma_inverse_is_inverse(r);
        let ir = inverse(r);
        let x = ir * q % m;
        lemma_fundamental_div_mod(ir * q, m);
        let t = (ir * q) / m;
        assert(inverse(i) == m - x);
        assert(i * (m - x) == m * (i - ir + i * t) + r * ir) by (nonlinear_arith)
            requires
                m == i * q + r,
                ir * q == m * t + x,
        ;
        lemma_mod_multiples_vanish(i - ir + i * t, r * ir, m);
        assert(r * ir == ir * r) by (nonlinear_arith);
    }
}

/// `inverse_factorial(i)` is the inverse of `i!` modulo `MOD` when no
/// number in `2..=i` divides `MOD`.
pub proof fn lemma_inverse_factorial_is_inverse(i: nat)
    requires
        forall|j: nat| 2 <= j <= i ==> #[trigger] ((MOD as nat) % j) != 0,
    ensures
        (factorial(i) * inverse_factorial(i)) % (MOD as int) == 1,
    decreases i,
{
    let m = MOD as int;
    if i <= 1 {
        reveal_with_fuel(factorial, 2);
        lemma_small_mod(1, MOD as nat);
    } else {
        let i1 = (i - 1) as nat;
        lemma_inverse_factorial_is_inverse(i1);
        lemma_inverse_is_inverse(i);
        let a = factorial(i1) * inverse_factorial(i1);
        let b = i * inverse(i);
        let g = inverse_factorial(i1) * inverse(i);
        assert(factorial(i) == i * factorial(i1));
        assert(inverse_factorial(i) == g % m);
        lemma_mul_mod_noop_right((i * factorial(i1)) as int, g, m);
        let fa = factorial(i1) as int;
        let fb = inverse_factorial(i1);
        let iv = inverse(i);
        assert((i * fa) * (fb * iv) == (fa * fb) * (i * iv)) by (nonlinear_arith);
        lemma_mul_mod_noop(a, b, m);
        assert(factorial(i) * inverse_factorial(i) == (i * factorial(i1)) * (g % m));
    }
}

/// Combinations and permutations modulo `MOD` of up to `size` elements,
/// from tables of factorials and inverse factorials computed in advance.
pub struct Combination {
    fac: Vec<usize>,
    inv: Vec<usize>,
    finv: Vec<usize>,
}

impl Combination {
    /// The largest `n` the tables cover.
    pub closed spec fn size(&self) -> nat {
        (self.fac@.len() - 1) as nat
    }

    pub closed spec fn wf(&self) -> bool {
        &&& self.fac@.len() >= 2
        &&& self.inv@.len() == self.fac@.len()
        &&& self.finv@.len() == self.fac@.len()
        &&& forall|i: int|
            0 <= i < self.fac@.len() ==> #[trigger] self.fac@[i] == factorial(i as nat) % (
            MOD as nat)
        &&& forall|i: int|
            0 <= i < self.fac@.len() ==> #[trigger] self.finv@[i] == inverse_factorial(i as nat)
    }

    /// Builds the tables for `0..=size`.
    pub fn new(size: usize) -> (r: Self)
        requires
            1 <= size < MOD,
        ensures
            r.wf(),
            r.size() == size,
    {
        let mut fac: Vec<usize> = Vec::new();
        let mut inv: Vec<usize> = Vec::new();
        let mut finv: Vec<usize> = Vec::new();
        fac.push(1);
        fac.push(1);
        inv.push(0);
        inv.push(1);
        finv.push(1);
        finv.push(1);
        proof {
            reveal_with_fuel(factorial, 2);
        }
        let mut i: usize = 2;
        while i <= size
            invariant
                2 <= i <= size + 1,
                size < MOD,
                fac@.len() == i,
                inv@.len() == i,
                finv@.len() == i,
                forall|k: int| 0 <= k < i ==> #[trigger] fac@[k] == factorial(k as nat) % (MOD as nat),
                forall|k: int| 0 <= k < i ==> #[trigger] inv@[k] == inverse(k as nat),
                forall|k: int| 0 <= k < i ==> #[trigger] finv@[k] == inverse_factorial(k as nat),
            decreases size + 1 - i,
        {
            let ghost k = (MOD % i) as int;
            proof {
                lemma_inverse_bounds(k as nat);
                lemma_inverse_bounds((i - 1) as nat);
                assert(factorial(i as nat) == factorial((i - 1) as nat) * i) by (nonlinear_arith)
                    requires
                        factorial(i as nat) == i * factorial((i - 1) as nat),
                ;
                vstd::arithmetic::div_mod::lemma_mul_mod_noop_left(
                    factorial((i - 1) as nat) as int,
                    i as int,
                    MOD as int,
                );
                assert(fac@[i - 1] * i <= MOD * MOD) by (nonlinear_arith)
                    requires
                        fac@[i - 1] < MOD,
                        i < MOD,
                ;
                assert(inv@[k] * (MOD / i) <= MOD * MOD) by (nonlinear_arith)
                    requires
                        inv@[k] <= MOD,
                        MOD / i <= MOD,
                ;
            }
            let f = mul_mod(fac[i - 1], i);
            let v = MOD - mul_mod(inv[MOD % i], MOD / i);
            proof {
                lemma_inverse_bounds(i as nat);
                assert(finv@[i - 1] * v <= MOD * MOD) by (nonlinear_arith)
                    requires
                        finv@[i - 1] < MOD,
                        v <= MOD,
                ;
            }
            let g = mul_mod(finv[i - 1], v);
            fac.push(f);
            inv.push(v);
            finv.push(g);
            i = i + 1;
        }
        Combination { fac, inv, finv }
    }

    /// `nCr` modulo `MOD`; 0 when `n < r`.
    pub fn combination(&self, n: usize, r: usize) -> (c: usize)
        requires
            self.wf(),
            n <= self.size(),
        ensures
            c == combination_mod(n as nat, r as nat),
    {
        if n < r {
            0
        } else {
            proof {
                assert(self.finv@[r as int] * self.finv@[n - r] <= MOD * MOD) by (nonlinear_arith)
                    requires
                        self.finv@[r as int] < MOD,
                        self.finv@[n - r] < MOD,
                ;
            }
            let t = mul_mod(self.finv[r], self.finv[n - r]);
            proof {
                assert(self.fac@[n as int] * t <= MOD * MOD) by (nonlinear_arith)
                    requires
                        self.fac@[n as int] < MOD,
                        t < MOD,
                ;
            }
            mul_mod(self.fac[n], t)
        }
    }

    /// `nPr` modulo `MOD`; 0 when `n < r`.
    pub fn permutation(&self, n: usize, r: usize) -> (p: usize)
        requires
            self.wf(),
            n <= self.size(),
        ensures
            p == permutation_mod(n as nat, r as nat),
    {
        if n < r {
            0
        } else {
            proof {
                assert(self.fac@[n as int] * self.finv@[n - r] <= MOD * MOD) by (nonlinear_arith)
                    requires
                        self.fac@[n as int] < MOD,
                        self.finv@[n - r] < MOD,
                ;
            }
            mul_mod(self.fac[n], self.finv[n - r])
        }
    }
}

} // verus!
