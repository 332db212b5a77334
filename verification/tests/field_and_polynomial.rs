use lrdas_artifact::domain::{Domain, Params, Scheme};
use lrdas_artifact::field::Fe;
use lrdas_artifact::polynomial::{divide_exact, divide_linear, evaluate, interpolate, vanishing};

fn fe(x: u64) -> Fe {
    Fe::from_u64(x)
}

#[test]
fn field_arithmetic_wraps_at_the_prime() {
    let minus_one = Fe::zero().sub(Fe::one());
    assert_eq!(
        minus_one.limbs(),
        [0xffffffff00000000, 0x53bda402fffe5bfe, 0x3339d80809a1d805, 0x73eda753299d7d48]
    );
    assert_eq!(minus_one.add(Fe::one()), Fe::zero());
    assert_eq!(fe(3).mul(fe(5)), fe(15));
    assert_eq!(fe(2).neg().add(fe(2)), Fe::zero());
    let inv = fe(7).inverse().unwrap();
    assert_eq!(inv.mul(fe(7)), Fe::one());
    assert!(Fe::zero().inverse().is_none());
    assert_eq!(fe(2).pow(10), fe(1024));
    assert!(Fe::from_limbs(minus_one.limbs()).is_some());
    assert!(Fe::from_limbs([0xffffffff00000001, 0x53bda402fffe5bfe, 0x3339d80809a1d805, 0x73eda753299d7d48]).is_none());
    assert!(Fe::zero().is_zero());
    assert!(!fe(1).is_zero());
}

#[test]
fn checked_polynomial_reference() {
    let xs = vec![fe(1), fe(2), fe(7)];
    let ys = xs
        .iter()
        .map(|x| fe(3).add(fe(4).mul(*x)).add(fe(5).mul(*x).mul(*x)))
        .collect::<Vec<_>>();
    assert_eq!(interpolate(&xs, &ys).unwrap(), vec![fe(3), fe(4), fe(5)]);
    assert!(interpolate(&[xs[0], xs[0]], &[ys[0], ys[0]]).is_err());
    assert!(divide_exact(&[Fe::one()], &[Fe::one(), Fe::one()]).is_err());
}

#[test]
fn interpolation_rejections() {
    assert_eq!(interpolate(&[], &[]).unwrap_err().message(), "interpolation lengths");
    assert_eq!(
        interpolate(&[fe(1)], &[fe(1), fe(2)]).unwrap_err().message(),
        "interpolation lengths"
    );
    assert_eq!(
        interpolate(&[fe(4), fe(4)], &[fe(1), fe(2)]).unwrap_err().message(),
        "duplicate coordinates"
    );
    assert_eq!(interpolate(&[fe(9)], &[fe(5)]).unwrap(), vec![fe(5)]);
}

#[test]
fn horner_vanishing_and_synthetic_division() {
    // 2 + 3x + x^2 at 5 is 42.
    assert_eq!(evaluate(&[fe(2), fe(3), fe(1)], fe(5)), fe(42));
    assert_eq!(evaluate(&[], fe(5)), Fe::zero());
    // (x - 1)(x - 2) = 2 - 3x + x^2.
    let z = vanishing(&[fe(1), fe(2)]).unwrap();
    assert_eq!(z, vec![fe(2), fe(3).neg(), fe(1)]);
    assert_eq!(vanishing(&[fe(1), fe(1)]).unwrap_err().message(), "duplicate coordinates");
    assert_eq!(vanishing(&[]).unwrap(), vec![fe(1)]);
    let (q, c) = divide_linear(&z, fe(1));
    assert_eq!(q, vec![fe(2).neg(), fe(1)]);
    assert_eq!(c, Fe::zero());
    let (q, c) = divide_linear(&[fe(2), fe(3), fe(1)], fe(5));
    assert_eq!(q, vec![fe(8), fe(1)]);
    assert_eq!(c, fe(42));
    let (q, c) = divide_linear(&[fe(9)], fe(5));
    assert!(q.is_empty());
    assert_eq!(c, fe(9));
}

#[test]
fn smoke_domain_points_and_evaluations() {
    let p = Params::smoke();
    let d = Domain::new(p).unwrap();
    assert_eq!(d.params(), p);
    let g = d.gammas();
    assert_eq!(g.len(), 6);
    assert_eq!(g[0], Fe::one());
    assert_eq!(g[1], fe(7).pow(16));
    // Source rows are unit vectors; parity rows reproduce the Lagrange identity.
    assert_eq!(d.weights(1).unwrap(), &[Fe::zero(), Fe::one(), Fe::zero(), Fe::zero()]);
    assert!(d.weights(6).is_err());
    let coeffs = [fe(1), fe(2), fe(3)];
    for scheme in [Scheme::Lrdas, Scheme::Product] {
        let values = d.evaluate(scheme, 2, &coeffs).unwrap();
        assert_eq!(values.len(), 16);
        for (i, v) in values.iter().enumerate() {
            let x = d.point(scheme, 2, i).unwrap();
            assert_eq!(*v, evaluate(&coeffs, x));
        }
    }
    assert_eq!(d.point(Scheme::Product, 3, 0).unwrap(), Fe::one());
    assert_eq!(d.point(Scheme::Lrdas, 3, 0).unwrap(), fe(7 * 7 * 7));
    assert!(d.point(Scheme::Lrdas, 6, 0).is_err());
    assert!(d.point(Scheme::Lrdas, 0, 16).is_err());
    let w = d.point(Scheme::Product, 0, 1).unwrap();
    assert_eq!(w.pow(16), Fe::one());
    assert_ne!(w.pow(8), Fe::one());
    assert!(d.evaluate(Scheme::Lrdas, 0, &[Fe::one(); 13]).is_err());
    let residual = Domain::new(Params::new(6, 16, 12, 4, 1).unwrap()).unwrap();
    assert!(residual.evaluate(Scheme::Product, 0, &coeffs).is_err());
    assert!(residual.point(Scheme::Product, 0, 0).is_err());
    // B(gamma_j) vanishes on the source labels.
    assert!(d.residual_weight(0).unwrap().is_zero());
    assert!(!d.residual_weight(5).unwrap().is_zero());
}
