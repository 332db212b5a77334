use ark_bls12_381::{Fr, G1Affine};
use ark_ec::{AffineRepr, CurveGroup};
use ark_ff::{PrimeField, UniformRand};
use ark_serialize::{CanonicalDeserialize, CanonicalSerialize};
use lrdas_artifact::domain::{Domain, Params, Scheme};
use lrdas_artifact::fast_polynomial::{self, ProductTree};
use lrdas_artifact::field::Fe;
use lrdas_artifact::fixture;
use lrdas_artifact::kzg::{Opening, G1};
use lrdas_artifact::polynomial;
use lrdas_artifact::protocol::{encode, Header};
use lrdas_artifact::recovery::{global_from_message, local_coefficients};
use lrdas_artifact::variants::{supplied_aux, ProfileBHeader, SuppliedAux, SuppliedHeader};

fn plus_generator(p: &G1) -> G1 {
    let a = G1Affine::deserialize_compressed(&p.to_bytes()[..]).unwrap();
    let s = (a.into_group() + G1Affine::generator()).into_affine();
    let mut out = Vec::new();
    s.serialize_compressed(&mut out).unwrap();
    G1::from_bytes(&out).unwrap()
}

#[test]
fn profile_b_checks_honest_headers_and_rejects_degree_mutations() {
    for b in [0, 1, 3, 11] {
        let p = Params::new(6, 16, 12, 4, b).unwrap();
        let d = Domain::new(p).unwrap();
        let srs = fixture::long_setup(p, 41).unwrap();
        let message = fixture::message(p, 42);
        let header = ProfileBHeader::commit(&d, &srs, Scheme::Lrdas, &message).unwrap();
        let raw = header.payload().unwrap();
        let parsed = ProfileBHeader::from_payload(&d, &srs, Scheme::Lrdas, header.context(), &raw).unwrap();
        let mut rng = fixture::rng(43, "verifier");
        let verified = parsed.verify(&d, &srs, &mut rng).unwrap();
        let f = global_from_message(&d, &message).unwrap();
        let locals = local_coefficients(&d, &f).unwrap();
        for (j, local) in locals.iter().enumerate() {
            assert_eq!(verified.group(&d, j).unwrap().commitment(), srs.local().commit(local).unwrap());
        }
        let mut bad = raw.clone();
        bad[0..48].copy_from_slice(&srs.g1()[p.r()].to_bytes());
        assert!(ProfileBHeader::from_payload(&d, &srs, Scheme::Lrdas, header.context(), &bad)
            .unwrap()
            .verify(&d, &srs, &mut rng)
            .is_err());
        if b > 0 {
            // The manuscript's residual attack uses X^b with the source shift.
            let mut bad = raw.clone();
            bad[p.a() * 48..(p.a() + 1) * 48].copy_from_slice(&srs.g1()[b].to_bytes());
            let exponent = srs.degree() - p.r() + 1 + b;
            let last = bad.len() - 48;
            bad[last..].copy_from_slice(&srs.g1()[exponent].to_bytes());
            assert!(ProfileBHeader::from_payload(&d, &srs, Scheme::Lrdas, header.context(), &bad)
                .unwrap()
                .verify(&d, &srs, &mut rng)
                .is_err());
        }
        assert!(ProfileBHeader::from_payload(&d, &srs, Scheme::Lrdas, [0; 32], &raw).is_err());
        assert!(ProfileBHeader::from_payload(&d, &srs, Scheme::Lrdas, header.context(), &raw[..raw.len() - 1])
            .is_err());
    }
}

#[test]
fn proposition_3_attack_passes_openings_but_fails_code_binding() {
    let p = Params::smoke();
    let d = Domain::new(p).unwrap();
    let long = fixture::long_setup(p, 61).unwrap();
    let local = long.local();
    // This intentionally misuses a long prefix as Profile A to reproduce the attack.
    let honest = encode(&d, local, Scheme::Lrdas, &fixture::message(p, 62)).unwrap();
    let raw = long.g1()[p.r()].to_bytes().repeat(p.a());
    let evil = Header::from_payload(&d, local, Scheme::Lrdas, honest.header.context(), &raw)
        .unwrap()
        .verify(&d, local)
        .unwrap();
    let mut poly = vec![Fe::zero(); p.r() + 1];
    poly[p.r()] = Fe::one();
    let c = evil.derive(&d, 0).unwrap();
    for i in 0..=p.r() {
        let x = d.point(Scheme::Lrdas, 0, i).unwrap();
        let (q, _) = polynomial::divide_linear(&poly, x);
        let opening = Opening { values: vec![x.pow(p.r() as u64)], proof: local.commit(&q).unwrap() };
        local.verify(c, &[x], &opening).unwrap();
    }
    let xs: Vec<_> = (0..p.r()).map(|i| d.point(Scheme::Lrdas, 0, i).unwrap()).collect();
    let ys: Vec<_> = xs.iter().map(|x| x.pow(p.r() as u64)).collect();
    let interp = polynomial::interpolate(&xs, &ys).unwrap();
    assert_ne!(local.commit(&interp).unwrap(), c);
    assert_ne!(
        polynomial::evaluate(&interp, d.point(Scheme::Lrdas, 0, p.r()).unwrap()),
        d.point(Scheme::Lrdas, 0, p.r()).unwrap().pow(p.r() as u64)
    );
}

#[test]
fn supplied_counterexample_and_full_degree_check() {
    let p = Params::smoke();
    let d = Domain::new(p).unwrap();
    let long = fixture::long_setup(p, 71).unwrap();
    let j = p.a();
    let header = SuppliedHeader::commit(&d, &long, &[Fe::zero()]).unwrap();
    let mut h = vec![Fe::zero(); p.m() + 1];
    h[0] = d.gammas()[j].neg();
    h[p.m()] = Fe::one();
    let attack = SuppliedAux {
        local: long.commit(&h).unwrap(),
        quotient: long.commit(&[Fe::one().neg()]).unwrap(),
        shifted: G1::identity(),
    };
    assert!(header.link_equation_holds(&d, &long, j, &attack).unwrap());
    let x = d.point(Scheme::Lrdas, j, 0).unwrap();
    let opening =
        Opening { values: vec![Fe::zero()], proof: long.commit(&polynomial::divide_linear(&h, x).0).unwrap() };
    long.local().verify(attack.local, &[x], &opening).unwrap();
    let regenerated = Opening { values: vec![Fe::zero()], proof: G1::identity() };
    assert!(long.local().verify(attack.local, &[x], &regenerated).is_err());
    assert!(header.verify_group(&d, &long, j, &attack).is_err());
    assert!(SuppliedAux::from_payload(&[]).is_err());
}

#[test]
fn supplied_receiver_recovers_and_serves_without_producer_state() {
    for b in [0, 1, 11] {
        let p = Params::new(6, 16, 12, 4, b).unwrap();
        let d = Domain::new(p).unwrap();
        let long = fixture::long_setup(p, 81).unwrap();
        let message = fixture::message(p, 82);
        let f = global_from_message(&d, &message).unwrap();
        let locals = local_coefficients(&d, &f).unwrap();
        let header = SuppliedHeader::commit(&d, &long, &f).unwrap();
        for j in [0, p.a(), p.ell() - 1] {
            let aux = supplied_aux(&d, &long, &f, &locals[j], j).unwrap();
            let raw = aux.payload().unwrap();
            let group = header.verify_group(&d, &long, j, &SuppliedAux::from_payload(&raw).unwrap()).unwrap();
            let indices: Vec<_> = (0..p.r()).rev().collect();
            let values = indices
                .iter()
                .map(|i| polynomial::evaluate(&f, d.point(Scheme::Lrdas, j, *i).unwrap()))
                .collect::<Vec<_>>();
            let receiver = group.certify(&d, long.local(), &indices, &values).unwrap();
            let opening = receiver.serve(&d, long.local(), p.m() - 1).unwrap();
            group.verify(&d, long.local(), p.m() - 1, &opening).unwrap();
            assert_eq!(receiver.recover(&d).unwrap(), d.evaluate(Scheme::Lrdas, j, &locals[j]).unwrap());
            let state = header.certify_group(&d, &long, j, &aux, &indices, &values).unwrap();
            let reply = state.serve_reply(&d, long.local(), p.m() - 1).unwrap();
            header.verify_reply(&d, &long, j, p.m() - 1, &reply).unwrap();
            assert!(header.verify_reply(&d, &long, j, p.m() - 1, &reply[144..]).is_err());
            let mut bad = aux.clone();
            bad.quotient = plus_generator(&bad.quotient);
            assert!(header.verify_group(&d, &long, j, &bad).is_err());
            let wrong = (j + 1) % p.ell();
            assert!(header.verify_group(&d, &long, wrong, &aux).is_err());
        }
    }
}

#[test]
fn long_srs_shapes_and_rejections() {
    let p = Params::new(6, 16, 12, 4, 1).unwrap();
    let d = Domain::new(p).unwrap();
    let long = fixture::long_setup(p, 5).unwrap();
    assert_eq!(long.degree(), p.degree());
    assert_eq!(long.g1().len(), p.degree() + 1);
    assert_eq!(long.g2().len(), p.m() + 1);
    assert_eq!(long.local().r(), p.r());
    assert_eq!(long.commit(&vec![Fe::one(); p.degree() + 2]).unwrap_err().message(), "long commitment degree");
    assert_eq!(long.shifted(&[Fe::one(); 3], 2).unwrap_err().message(), "shifted commitment degree");
    assert_eq!(long.shifted(&[Fe::one()], 1).unwrap(), long.g1()[p.degree()]);
    let other = Domain::new(Params::smoke()).unwrap();
    assert_eq!(long.context(&other, Scheme::Lrdas).unwrap_err().message(), "long SRS parameters");
    assert!(long.context(&d, Scheme::Lrdas).unwrap() != long.context(&d, Scheme::Product).unwrap());
    assert_eq!(
        supplied_aux(&d, &long, &[Fe::one()], &[Fe::one()], p.ell()).unwrap_err().message(),
        "supplied generation dimensions"
    );
    assert_eq!(
        supplied_aux(&d, &long, &[Fe::one(), Fe::one()], &[Fe::one()], 0).unwrap_err().message(),
        "supplied nonexact quotient"
    );
    assert_eq!(fixture::long_setup(Params::new(3, 16, 2, 1, 0).unwrap(), 5).err().unwrap().message(), "long fixture degree");
}

#[test]
fn supplied_certification_rejects_altered_values_and_serving_outside_the_group() {
    let p = Params::new(6, 16, 12, 4, 1).unwrap();
    let d = Domain::new(p).unwrap();
    let long = fixture::long_setup(p, 91).unwrap();
    let message = fixture::message(p, 92);
    let f = global_from_message(&d, &message).unwrap();
    let locals = local_coefficients(&d, &f).unwrap();
    let header = SuppliedHeader::commit(&d, &long, &f).unwrap();
    let j = 1;
    let aux = supplied_aux(&d, &long, &f, &locals[j], j).unwrap();
    let indices: Vec<_> = (0..p.r()).collect();
    let mut values = indices
        .iter()
        .map(|i| polynomial::evaluate(&f, d.point(Scheme::Lrdas, j, *i).unwrap()))
        .collect::<Vec<_>>();
    let state = header.certify_group(&d, &long, j, &aux, &indices, &values).unwrap();
    assert!(state.serve_reply(&d, long.local(), p.m()).is_err());
    assert!(state.serve_reply(&d, long.local(), 0).is_ok());
    assert_eq!(
        header.certify_group(&d, &long, j, &aux, &indices[1..], &values[1..]).err().unwrap().message(),
        "group certification size"
    );
    values[0] = values[0].add(Fe::one());
    assert_eq!(
        header.certify_group(&d, &long, j, &aux, &indices, &values).err().unwrap().message(),
        "reconstructed commitment mismatch"
    );
}

fn random_scalar(rng: &mut rand_chacha::ChaCha20Rng) -> Fe {
    Fe::from_limbs(Fr::rand(rng).into_bigint().0).unwrap()
}

#[test]
fn fast_interpolation_matches_independent_values_and_naive_oracle() {
    let mut rng = fixture::rng(21, "fast-test");
    for n in [1usize, 2, 31, 32, 33, 64, 129, 257, 513, 1025] {
        let xs: Vec<Fe> = (1..=n).map(|i| Fe::from_u64(i as u64)).collect();
        let mut coeffs: Vec<Fe> = (0..n).map(|_| random_scalar(&mut rng)).collect();
        if n % 2 == 1 {
            coeffs[n - 1] = Fe::zero();
        }
        let ys: Vec<Fe> = xs.iter().map(|x| polynomial::evaluate(&coeffs, *x)).collect();
        let tree = ProductTree::new(&xs).unwrap();
        assert_eq!(tree.evaluate(&coeffs).unwrap(), ys);
        assert_eq!(tree.interpolate(&ys).unwrap(), coeffs);
        if n <= 129 {
            assert_eq!(polynomial::interpolate(&xs, &ys).unwrap(), coeffs);
        }
    }
    assert!(ProductTree::new(&[Fe::one(), Fe::one()]).is_err());
    let xs: Vec<Fe> = (1..=137u64).map(Fe::from_u64).collect();
    let z = polynomial::vanishing(&xs).unwrap();
    let a: Vec<Fe> = (0..291).map(|_| random_scalar(&mut rng)).collect();
    let r = fast_polynomial::remainder(&a, &z).unwrap();
    for x in xs {
        assert_eq!(polynomial::evaluate(&a, x), polynomial::evaluate(&r, x));
    }
}

#[test]
fn product_tree_rejects_empty_and_repeated_points() {
    assert!(ProductTree::new(&[]).is_err());
    let xs: Vec<Fe> = (0..40u64).map(|i| Fe::from_u64(i % 39)).collect();
    assert!(ProductTree::new(&xs).is_err());
    let tree = ProductTree::new(&[Fe::from_u64(2), Fe::from_u64(5)]).unwrap();
    assert!(tree.interpolate(&[Fe::one()]).is_err());
    let values = tree.evaluate(&[Fe::from_u64(1), Fe::from_u64(3)]).unwrap();
    assert_eq!(values, vec![Fe::from_u64(7), Fe::from_u64(16)]);
}
