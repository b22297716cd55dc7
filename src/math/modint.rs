use vstd::arithmetic::div_mod::*;
use vstd::arithmetic::power::*;
use vstd::prelude::*;

verus! {

/// The prime modulus of `ModInt`.
pub const MOD: isize = 1_000_000_007;

/// An integer modulo `MOD`, kept in `[0, MOD)` by every operation.
#[derive(Clone, Copy, Debug, PartialEq, Eq, Structural, PartialOrd, Ord)]
pub struct ModInt {
    pub value: isize,
}

/// One squaring step of exponentiation by squaring keeps
/// `r * a^p (mod m)` unchanged.
proof fn lemma_square_step(r: int, a: int, p: nat, m: int)
    requires
        m > 0,
    ensures
        (if p % 2 == 1 {
            (r * a) % m
        } else {
            r
        }) * pow((a * a) % m, p / 2) % m == r * pow(a, p) % m,
{
    let p2 = p / 2;
    let bit = (p % 2) as nat;
    let x = pow(a * a, p2);
    let y = pow((a * a) % m, p2);
    lemma_pow_adds(a, 2 * p2, bit);
    assert(p == 2 * p2 + bit);
    lemma_pow_multiplies(a, 2, p2);
    lemma_square_is_pow2(a);
    assert(pow(a, 2 * p2) == x);
    lemma_pow_mod_noop(a * a, p2, m);
    assert(y % m == x % m);
    reveal_with_fuel(pow, 2);
    if bit == 1 {
        assert(pow(a, 1) == a);
        assert(r * pow(a, p) == (r * a) * x) by (nonlinear_arith)
            requires
                pow(a, p) == x * a,
        ;
        lemma_mul_mod_noop_left(r * a, y, m);
        lemma_mul_mod_noop_right(r * a, y, m);
        lemma_mul_mod_noop_right(r * a, x, m);
    } else {
        assert(pow(a, 0) == 1);
        assert(pow(a, p) == x);
        lemma_mul_mod_noop_right(r, y, m);
        lemma_mul_mod_noop_right(r, x, m);
    }
}

impl ModInt {
    /// The value lies in `[0, MOD)`.
    pub open spec fn wf(self) -> bool {
        0 <= self.value < MOD
    }

    /// `value` reduced into `[0, MOD)`.
    pub fn new(value: isize) -> (r: Self)
        ensures
            r.wf(),
            r.value == value as int % (MOD as int),
    {
        let value = value % MOD;
        let value = if value < 0 {
            value + MOD
        } else {
            value
        };
        Self { value }
    }

    /// `x` reduced into `[0, MOD)`.
    fn from_wide(x: i128) -> (r: Self)
        ensures
            r.wf(),
            r.value == x as int % (MOD as int),
    {
        let value = x % (MOD as i128);
        let value = if value < 0 {
            value + MOD as i128
        } else {
            value
        };
        Self { value: value as isize }
    }

    /// The sum, reduced.
    fn sum(self, rhs: Self) -> (r: Self)
        ensures
            r == reduce(self.value + rhs.value),
    {
        Self::from_wide(self.value as i128 + rhs.value as i128)
    }

    /// The difference, reduced.
    fn difference(self, rhs: Self) -> (r: Self)
        ensures
            r == reduce(self.value - rhs.value),
    {
        Self::from_wide(self.value as i128 - rhs.value as i128)
    }

    /// The product, reduced.
    fn product(self, rhs: Self) -> (r: Self)
        ensures
            r.wf(),
            r == reduce(self.value * rhs.value),
    {
        assert(-0x8000_0000_0000_0000 * 0x8000_0000_0000_0000 <= self.value * rhs.value
            <= 0x8000_0000_0000_0000 * 0x8000_0000_0000_0000) by (nonlinear_arith)
            requires
                -0x8000_0000_0000_0000 <= self.value <= 0x8000_0000_0000_0000,
                -0x8000_0000_0000_0000 <= rhs.value <= 0x8000_0000_0000_0000,
        ;
        Self::from_wide(self.value as i128 * rhs.value as i128)
    }

    /// The quotient: the product with the inverse of `rhs`, reduced.
    fn quotient(self, rhs: Self) -> (r: Self)
        ensures
            r == reduce(self.value * (pow(rhs.value as int, (MOD - 2) as nat) % (MOD as int))),
    {
        self.product(rhs.inv())
    }

    /// `self` to the power `power`, by repeated squaring; 1 when `power <= 0`.
    pub fn pow(self, power: isize) -> (r: Self)
        ensures
            r.wf(),
            r.value == pow(self.value as int, if power > 0 { power as nat } else { 0 }) % (
            MOD as int),
    {
        let ghost e: nat = if power > 0 { power as nat } else { 0 };
        let mut power = power;
        let mut result = ModInt::new(1);
        let mut accum = ModInt::new(self.value);
        proof {
            lemma_pow_mod_noop(self.value as int, e, MOD as int);
            reveal(pow);
            lemma_mul_mod_noop_right(1, pow(accum.value as int, e), MOD as int);
        }
        while power > 0
            invariant
                result.wf(),
                accum.wf(),
                power > 0 ==> power as nat <= e,
                result.value * pow(accum.value as int, if power > 0 { power as nat } else { 0 })
                    % (MOD as int) == pow(self.value as int, e) % (MOD as int),
            decreases power,
        {
            proof {
                lemma_square_step(result.value as int, accum.value as int, power as nat, MOD as int);
            }
            if power % 2 == 1 {
                result = result.product(accum);
            }
            accum = accum.product(accum);
            power = power / 2;
        }
        proof {
            reveal(pow);
            assert(pow(accum.value as int, 0) == 1);
            lemma_small_mod(result.value as nat, MOD as nat);
        }
        result
    }

    /// `self` to the power `MOD - 2`: the inverse of `self` for a nonzero value.
    pub fn inv(self) -> (r: Self)
        ensures
            r.wf(),
            r.value == pow(self.value as int, (MOD - 2) as nat) % (MOD as int),
    {
        self.pow(MOD - 2)
    }
}

/// The reduced value of `x`.
pub open spec fn reduce(x: int) -> ModInt {
    ModInt { value: (x % (MOD as int)) as isize }
}

impl core::ops::Add for ModInt {
    type Output = Self;

    fn add(self, rhs: Self) -> (r: Self) {
        self.sum(rhs)
    }
}

impl vstd::std_specs::ops::AddSpecImpl for ModInt {
    open spec fn obeys_add_spec() -> bool {
        true
    }

    open spec fn add_req(self, rhs: Self) -> bool {
        true
    }

    open spec fn add_spec(self, rhs: Self) -> Self {
        reduce(self.value + rhs.value)
    }
}

impl core::ops::Sub for ModInt {
    type Output = Self;

    fn sub(self, rhs: Self) -> (r: Self) {
        self.difference(rhs)
    }
}

impl vstd::std_specs::ops::SubSpecImpl for ModInt {
    open spec fn obeys_sub_spec() -> bool {
        true
    }

    open spec fn sub_req(self, rhs: Self) -> bool {
        true
    }

    open spec fn sub_spec(self, rhs: Self) -> Self {
        reduce(self.value - rhs.value)
    }
}

impl core::ops::Mul for ModInt {
    type Output = Self;

    fn mul(self, rhs: Self) -> (r: Self) {
        self.product(rhs)
    }
}

impl vstd::std_specs::ops::MulSpecImpl for ModInt {
    open spec fn obeys_mul_spec() -> bool {
        true
    }

    open spec fn mul_req(self, rhs: Self) -> bool {
        true
    }

    open spec fn mul_spec(self, rhs: Self) -> Self {
        reduce(self.value * rhs.value)
    }
}

impl core::ops::Div for ModInt {
    type Output = Self;

    fn div(self, rhs: Self) -> (r: Self) {
        self.quotient(rhs)
    }
}

impl vstd::std_specs::ops::DivSpecImpl for ModInt {
    open spec fn obeys_div_spec() -> bool {
        true
    }

    open spec fn div_req(self, rhs: Self) -> bool {
        true
    }

    open spec fn div_spec(self, rhs: Self) -> Self {
        reduce(self.value * (pow(rhs.value as int, (MOD - 2) as nat) % (MOD as int)))
    }
}

impl core::ops::AddAssign for ModInt {
    fn add_assign(&mut self, rhs: Self) {
        *self = self.sum(rhs);
    }
}

impl core::ops::SubAssign for ModInt {
    fn sub_assign(&mut self, rhs: Self) {
        *self = self.difference(rhs);
    }
}

impl core::ops::MulAssign for ModInt {
    fn mul_assign(&mut self, rhs: Self) {
        *self = self.product(rhs);
    }
}

impl core::ops::DivAssign for ModInt {
    fn div_assign(&mut self, rhs: Self) {
        *self = self.quotient(rhs);
    }
}

} // verus!
