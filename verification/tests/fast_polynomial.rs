use ark_bls12_381::Fr;
use ark_ff::{PrimeField, UniformRand};
use lrdas_artifact::fast_polynomial::{multiply, remainder};
use lrdas_artifact::field::Fe;
use lrdas_artifact::fixture;
use lrdas_artifact::polynomial::{evaluate, vanishing};

fn fe(x: u64) -> Fe {
    Fe::from_u64(x)
}

fn random(n: usize, label: &str) -> Vec<Fe> {
    let mut rng = fixture::rng(21, label);
    (0..n)
        .map(|_| Fe::from_limbs(Fr::rand(&mut rng).into_bigint().0).unwrap())
        .collect()
}

#[test]
fn small_products_are_exact_and_trimmed() {
    // (1 + 2x)(3 + x) = 3 + 7x + 2x^2.
    assert_eq!(
        multiply(&[fe(1), fe(2)], &[fe(3), fe(1)]).unwrap(),
        vec![fe(3), fe(7), fe(2)]
    );
    assert!(multiply(&[], &[fe(1)]).unwrap().is_empty());
    assert!(multiply(&[fe(1)], &[]).unwrap().is_empty());
    // Trailing zeros of the operands vanish from the product.
    assert_eq!(
        multiply(&[fe(2), fe(0)], &[fe(5), fe(0), fe(0)]).unwrap(),
        vec![fe(10)]
    );
    assert!(multiply(&[fe(0)], &[fe(4), fe(4)]).unwrap().is_empty());
}

#[test]
fn fft_products_agree_with_pointwise_values() {
    for (n, m) in [(200, 150), (129, 9), (300, 300)] {
        let a = random(n, "fft-a");
        let b = random(m, "fft-b");
        let c = multiply(&a, &b).unwrap();
        assert_eq!(c.len(), n + m - 1);
        for x in [fe(0), fe(1), fe(7), fe(123456789)] {
            assert_eq!(evaluate(&c, x), evaluate(&a, x).mul(evaluate(&b, x)));
        }
    }
}

#[test]
fn remainders_keep_values_on_the_divisor_roots() {
    let xs: Vec<_> = (1..=137).map(fe).collect();
    let z = vanishing(&xs).unwrap();
    let a = random(291, "fast-test");
    let r = remainder(&a, &z).unwrap();
    assert!(r.len() < z.len());
    for x in xs {
        assert_eq!(evaluate(&a, x), evaluate(&r, x));
    }
    let small: Vec<_> = (1..=5).map(fe).collect();
    let z = vanishing(&small).unwrap();
    let r = remainder(&a[..40], &z).unwrap();
    assert!(r.len() < 6);
    for x in small {
        assert_eq!(evaluate(&a[..40], x), evaluate(&r, x));
    }
}

#[test]
fn remainder_edge_cases() {
    assert_eq!(
        remainder(&[fe(1)], &[fe(0), fe(0)]).unwrap_err().message(),
        "zero divisor"
    );
    // A shorter dividend is its own remainder, trimmed.
    assert_eq!(
        remainder(&[fe(4), fe(5), fe(0)], &[fe(1), fe(2), fe(3)]).unwrap(),
        vec![fe(4), fe(5)]
    );
    // Division by a constant leaves nothing.
    assert!(remainder(&[fe(4), fe(5), fe(6)], &[fe(3)]).unwrap().is_empty());
    // x^2 - 1 = (x + 1)(x - 1).
    let minus_one = Fe::zero().sub(Fe::one());
    assert!(remainder(&[minus_one, fe(0), fe(1)], &[minus_one, fe(1)])
        .unwrap()
        .is_empty());
    // x^2 + 1 leaves 2 after division by x - 1.
    assert_eq!(
        remainder(&[fe(1), fe(0), fe(1)], &[minus_one, fe(1)]).unwrap(),
        vec![fe(2)]
    );
}
