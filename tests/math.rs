use comp_prog_lib::math::combination::Combination;
use comp_prog_lib::math::factorize;
use comp_prog_lib::math::modint::ModInt;
use std::collections::HashMap;

const MOD: isize = 1_000_000_007;

#[test]
fn test_factorize_square_number() {
    let n = 36;
    let factors = factorize::factorize(n);
    assert_eq!(
        factors,
        vec![(2, 2), (3, 2)]
            .into_iter()
            .collect::<HashMap<usize, usize>>()
    );
}

#[test]
fn factorize_edge_cases() {
    assert!(factorize::factorize(0).is_empty());
    assert!(factorize::factorize(1).is_empty());
    let p = factorize::factorize(1_000_000_007);
    assert_eq!(p, vec![(1_000_000_007, 1)].into_iter().collect::<HashMap<usize, usize>>());
    let f = factorize::factorize(2 * 2 * 2 * 3 * 5 * 5 * 97);
    assert_eq!(
        f,
        vec![(2, 3), (3, 1), (5, 2), (97, 1)]
            .into_iter()
            .collect::<HashMap<usize, usize>>()
    );
}

#[test]
fn factorize_products_round_trip() {
    for n in 1usize..2000 {
        let factors = factorize::factorize(n);
        let mut product = 1usize;
        for (p, e) in &factors {
            assert!((2..*p).all(|d| p % d != 0));
            product *= p.pow(*e as u32);
        }
        assert_eq!(product, n);
    }
}

#[test]
fn modint_reduces_and_operates() {
    assert_eq!(ModInt::new(-1).value, MOD - 1);
    assert_eq!(ModInt::new(MOD + 5).value, 5);
    assert_eq!(ModInt::new(-MOD).value, 0);
    let a = ModInt::new(MOD - 2);
    let b = ModInt::new(5);
    assert_eq!((a + b).value, 3);
    assert_eq!((b - a).value, 7);
    assert_eq!((a * b).value, MOD - 10);
    assert_eq!(((b / a) * a).value, 5);
    assert!(b < a);
    assert_eq!(ModInt::new(3), ModInt::new(MOD + 3));
}

#[test]
fn modint_pow_and_inverse() {
    assert_eq!(ModInt::new(2).pow(10).value, 1024);
    assert_eq!(ModInt::new(2).pow(0).value, 1);
    assert_eq!(ModInt::new(7).pow(-3).value, 1);
    assert_eq!(ModInt::new(3).pow(40).value, 3i64.pow(20) as isize % MOD * (3i64.pow(20) as isize % MOD) % MOD);
    for r in 1..200isize {
        assert_eq!(r * ModInt::new(r).inv().value % MOD, 1);
    }
}

fn factorial(size: usize) -> Vec<ModInt> {
    let mut result = vec![ModInt::new(0); size + 1];
    result[0] = ModInt::new(1);
    result[1] = ModInt::new(1);
    for i in 2..=size {
        result[i] = result[i - 1] * ModInt::new(i as isize);
    }
    result
}

fn inverse_factorial(size: usize) -> Vec<ModInt> {
    let mut result = vec![ModInt::new(0); size + 1];
    result[0] = ModInt::new(1);
    result[1] = ModInt::new(1);
    for i in 2..=size {
        result[i] = result[i - 1] * ModInt::new(i as isize).inv();
    }
    result
}

#[test]
fn combination_small_values() {
    let comb = Combination::new(200);
    assert_eq!(comb.combination(5, 3), 10);
    assert_eq!(comb.combination(10, 5), 252);
    assert_eq!(comb.combination(3, 5), 0);
    assert_eq!(comb.combination(7, 0), 1);
    assert_eq!(comb.permutation(5, 3), 60);
    assert_eq!(comb.permutation(3, 4), 0);
    assert_eq!(comb.permutation(6, 6), 720);
}

#[test]
fn combination_matches_modint_tables() {
    let size = 100;
    let comb = Combination::new(size);
    let fac = factorial(size);
    let finv = inverse_factorial(size);
    for n in 1..size {
        for r in 0..n {
            let c = (fac[n] * finv[r] * finv[n - r]).value as usize;
            assert_eq!(comb.combination(n, r), c);
            let p = (fac[n] * finv[n - r]).value as usize;
            assert_eq!(comb.permutation(n, r), p);
        }
    }
}

#[test]
fn modint_assign_operators() {
    let mut m = ModInt::new(MOD - 1);
    m += ModInt::new(3);
    assert_eq!(m.value, 2);
    m -= ModInt::new(5);
    assert_eq!(m.value, MOD - 3);
    m *= ModInt::new(2);
    assert_eq!(m.value, MOD - 6);
    m /= ModInt::new(3);
    assert_eq!(m.value, MOD - 2);
    let raw = ModInt { value: -4 };
    assert_eq!((raw + ModInt::new(1)).value, MOD - 3);
}
