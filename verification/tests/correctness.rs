use ark_bls12_381::{Bls12_381, Fq, Fr, G1Affine, G1Projective, G2Affine, G2Projective};
use ark_ec::pairing::Pairing;
use ark_ec::{AffineRepr, CurveGroup, Group};
use ark_ff::{BigInt, Field, One, PrimeField, Zero};
use ark_serialize::{CanonicalDeserialize, CanonicalSerialize};
use lrdas_artifact::domain::{Domain, Params, Scheme};
use lrdas_artifact::field::Fe;
use lrdas_artifact::fixture;
use lrdas_artifact::kzg::{decode_scalar, decode_srs, msm_g1, scalar_bytes, Opening, PublicSrs, G1, G2};
use lrdas_artifact::polynomial as poly;
use lrdas_artifact::protocol::{encode, CertifiedGroup, GroupCache, Header, MessagePolys, StreamingCollector};
use rand::seq::SliceRandom;

fn fe(x: u64) -> Fe {
    Fe::from_u64(x)
}

fn to_fr(x: Fe) -> Fr {
    Fr::from_bigint(BigInt::new(x.limbs())).unwrap()
}

fn from_fr(x: Fr) -> Fe {
    Fe::from_limbs(x.into_bigint().0).unwrap()
}

fn g1_bytes(p: &G1Affine) -> Vec<u8> {
    let mut out = Vec::new();
    p.serialize_compressed(&mut out).unwrap();
    out
}

fn g1_of(p: G1Affine) -> G1 {
    G1::from_bytes(&g1_bytes(&p)).unwrap()
}

fn g2_of(p: G2Affine) -> G2 {
    let mut out = Vec::new();
    p.serialize_compressed(&mut out).unwrap();
    G2::from_bytes(&out).unwrap()
}

fn ark1(p: &G1) -> G1Affine {
    G1Affine::deserialize_compressed(&p.to_bytes()[..]).unwrap()
}

fn ark2(p: &G2) -> G2Affine {
    G2Affine::deserialize_compressed(&p.to_bytes()[..]).unwrap()
}

fn small() -> (Domain, PublicSrs) {
    let p = Params::smoke();
    (Domain::new(p).unwrap(), fixture::setup(p.r(), 900).unwrap())
}

#[test]
fn hand_checked_kzg_vector() {
    // p=3+4X, tau=2 -> C=11G1; at x=5, y=23 and quotient=4.
    let mut power = Fr::one();
    let mut g1 = vec![];
    let mut g2 = vec![];
    for i in 0..=4 {
        if i < 4 {
            g1.push(g1_of((G1Projective::generator() * power).into_affine()));
        }
        g2.push(g2_of((G2Projective::generator() * power).into_affine()));
        power *= Fr::from(2u64);
    }
    let srs = PublicSrs::from_points(4, g1, g2).unwrap();
    let p = vec![fe(3), fe(4)];
    let c = srs.commit(&p).unwrap();
    assert_eq!(c, g1_of((G1Projective::generator() * Fr::from(11u64)).into_affine()));
    let opening = srs.open(&p, &[fe(5)]).unwrap();
    assert_eq!(opening.values, vec![fe(23)]);
    assert_eq!(opening.proof, g1_of((G1Projective::generator() * Fr::from(4u64)).into_affine()));
    srs.verify(c, &[fe(5)], &opening).unwrap();
    let mut bad = opening;
    bad.values[0] = bad.values[0].add(Fe::one());
    assert!(srs.verify(c, &[fe(5)], &bad).is_err());
}

#[test]
fn independent_encoding_oracle_and_mutation() {
    let (domain, srs) = small();
    let p = domain.params();
    for seed in 0..4 {
        let message = fixture::message(p, seed);
        for scheme in [Scheme::Lrdas, Scheme::Product] {
            let enc = encode(&domain, &srs, scheme, &message).unwrap();
            let h = enc.header.clone().verify(&domain, &srs).unwrap();
            for j in 0..p.ell() {
                assert_eq!(h.derive(&domain, j).unwrap(), srs.commit(&enc.locals[j]).unwrap());
                for i in 0..p.m() {
                    let x = to_fr(domain.point(scheme, j, i).unwrap());
                    let gammas: Vec<Fr> = domain.gammas().iter().map(|g| to_fr(*g)).collect();
                    let gamma = gammas[j];
                    // Direct Lagrange products, deliberately independent of Domain::weights/FFT.
                    let mut expected = Fr::zero();
                    for a in 0..p.a() {
                        let gs = gammas[a];
                        let mut w = Fr::one();
                        for t in 0..p.a() {
                            if t != a {
                                w *= (gamma - gammas[t]) / (gs - gammas[t]);
                            }
                        }
                        let u = &message[a * p.r()..(a + 1) * p.r()];
                        let mut ux = Fr::zero();
                        for (k, c) in u.iter().enumerate() {
                            ux += to_fr(*c) * x.pow([k as u64]);
                        }
                        expected += w * ux;
                    }
                    assert_eq!(enc.values[j][i], from_fr(expected), "seed={seed},j={j},i={i}");
                }
            }
            if scheme == Scheme::Lrdas {
                let bad = domain.evaluate(Scheme::Product, p.a(), &enc.locals[p.a()]).unwrap();
                assert_ne!(bad, enc.values[p.a()], "test must detect omitted coset scaling");
            }
        }
    }
}

#[test]
fn opening_permutations_mutations_and_boundaries() {
    let (domain, srs) = small();
    let p = domain.params();
    let m = fixture::message(p, 34);
    for scheme in [Scheme::Lrdas, Scheme::Product] {
        let enc = encode(&domain, &srs, scheme, &m).unwrap();
        for j in [0, p.a()] {
            let c = srs.commit(&enc.locals[j]).unwrap();
            for t in [1, 2, 8, p.r()] {
                let xs = (0..t).map(|i| domain.point(scheme, j, i).unwrap()).collect::<Vec<_>>();
                let o = srs.open(&enc.locals[j], &xs).unwrap();
                srs.verify(c, &xs, &o).unwrap();
                let raw = o.to_bytes(p.r()).unwrap();
                assert_eq!(raw.len(), 32 * t + if t < p.r() { 48 } else { 0 });
                srs.verify(c, &xs, &Opening::from_bytes(&raw, t, p.r()).unwrap()).unwrap();
                let mut rev = xs.clone();
                rev.reverse();
                let mut ro = o.clone();
                ro.values.reverse();
                srs.verify(c, &rev, &ro).unwrap();
                let mut bad = o.clone();
                bad.values[0] = bad.values[0].add(Fe::one());
                assert!(srs.verify(c, &xs, &bad).is_err());
                let mut bad = o.clone();
                bad.proof = g1_of((ark1(&bad.proof).into_group() + G1Projective::generator()).into_affine());
                assert!(srs.verify(c, &xs, &bad).is_err());
                let mut badx = xs.clone();
                badx[0] = domain.point(scheme, j, p.m() - 1).unwrap();
                assert!(srs.verify(c, &badx, &o).is_err());
            }
        }
    }
    assert!(srs.commit(&vec![Fe::zero(); p.r() + 1]).is_err());
    assert!(srs.open(&m[..p.r()], &[]).is_err());
    assert!(srs.open(&m[..p.r()], &[Fe::one(), Fe::one()]).is_err());
    assert!(msm_g1(srs.g1(), &[Fe::one()]).is_err());
}

#[test]
fn receiver_only_serving_random_subsets_and_streaming() {
    let (d, srs) = small();
    let p = d.params();
    for scheme in [Scheme::Lrdas, Scheme::Product] {
        let enc = encode(&d, &srs, scheme, &fixture::message(p, 4)).unwrap();
        let h = enc.header.clone().verify(&d, &srs).unwrap();
        for j in [0, p.a()] {
            for seed in 0..3 {
                let mut indices = (0..p.m()).collect::<Vec<_>>();
                indices.shuffle(&mut fixture::rng(seed, "subset"));
                indices.truncate(p.r());
                let vals = indices.iter().map(|&i| enc.values[j][i]).collect::<Vec<_>>();
                let c = CertifiedGroup::from_values(&d, &srs, &h, j, &indices, &vals).unwrap();
                assert_eq!(c.recover(&d).unwrap(), enc.values[j]);
                let missing = (0..p.m()).find(|i| !indices.contains(i)).unwrap();
                let proof = c.serve(&d, &srs, &[missing]).unwrap();
                srs.verify(h.derive(&d, j).unwrap(), &[d.point(scheme, j, missing).unwrap()], &proof)
                    .unwrap();
            }
        }
        let mut collector = StreamingCollector::new(p.a());
        let mut cache = GroupCache::new(&h, &d);
        for i in 0..p.r() {
            let x = d.point(scheme, p.a(), i).unwrap();
            let raw = srs.open(&enc.locals[p.a()], &[x]).unwrap().to_bytes(p.r()).unwrap();
            collector.accept(&d, &srs, &h, &mut cache, i, &raw).unwrap();
        }
        let recovered = collector.finish(&d, &srs, &h).unwrap();
        assert_eq!(recovered.recover(&d).unwrap(), enc.values[p.a()]);
    }
}

#[test]
fn residual_coordinates_and_degree_bound_mutation() {
    for b in [1, 11] {
        let p = Params::new(6, 16, 12, 4, b).unwrap();
        let d = Domain::new(p).unwrap();
        let srs = fixture::setup(p.r(), 99).unwrap();
        let msg = fixture::message(p, 98);
        let enc = encode(&d, &srs, Scheme::Lrdas, &msg).unwrap();
        let h = enc.header.clone().verify(&d, &srs).unwrap();
        assert_eq!(&enc.locals[p.a()][..b], &msg[p.a() * p.r()..]);
        assert_ne!(d.residual_weight(p.a()).unwrap(), Fe::zero());
        let mut wrong = enc.header.payload().unwrap();
        let altered = (G1Affine::deserialize_compressed(&wrong[(p.a() + 1) * 48..])
            .unwrap()
            .into_group()
            + G1Projective::generator())
        .into_affine();
        wrong[(p.a() + 1) * 48..].copy_from_slice(&g1_bytes(&altered));
        let bad = Header::from_payload(&d, &srs, Scheme::Lrdas, enc.header.context(), &wrong).unwrap();
        assert!(bad.verify(&d, &srs).is_err());
        let xs = (0..b).map(|i| d.point(Scheme::Lrdas, p.a(), i).unwrap()).collect::<Vec<_>>();
        let mut base = vec![];
        for &x in &xs {
            let mut s = Fe::zero();
            for (u, w) in msg[..p.a() * p.r()].chunks_exact(p.r()).zip(d.weights(p.a()).unwrap()) {
                s = s.add(poly::evaluate(u, x).mul(*w));
            }
            base.push(s);
        }
        let residual = poly::residual_from_values(
            &xs,
            &enc.values[p.a()][..b],
            &base,
            &vec![d.residual_weight(p.a()).unwrap(); b],
        )
        .unwrap();
        let mut restored = base.clone();
        for i in 0..b {
            restored[i] =
                restored[i].add(d.residual_weight(p.a()).unwrap().mul(poly::evaluate(&residual, xs[i])));
        }
        assert_eq!(restored, enc.values[p.a()][..b]);
        // Deliberately skip v->e conversion, which must not reproduce the residual block.
        let mut badlocal = vec![Fe::zero(); p.r()];
        for (u, w) in msg[..p.a() * p.r()].chunks_exact(p.r()).zip(d.weights(p.a()).unwrap()) {
            for (c, v) in badlocal.iter_mut().zip(u) {
                *c = c.add(w.mul(*v));
            }
        }
        for i in 0..b {
            badlocal[i] = badlocal[i].add(d.residual_weight(p.a()).unwrap().mul(msg[p.a() * p.r() + i]));
        }
        assert_ne!(&badlocal[..b], &msg[p.a() * p.r()..]);
        assert_eq!(h.derive(&d, p.a()).unwrap(), srs.commit(&enc.locals[p.a()]).unwrap());
        assert!(encode(&d, &srs, Scheme::Product, &msg).is_err());
    }
}

#[test]
fn zero_linear_and_source_basis() {
    let (d, srs) = small();
    let p = d.params();
    let z = vec![Fe::zero(); p.k()];
    let enc = encode(&d, &srs, Scheme::Lrdas, &z).unwrap();
    let c = srs.commit(&enc.locals[0]).unwrap();
    assert!(c.is_identity());
    let xs = [d.point(Scheme::Lrdas, 0, 0).unwrap()];
    srs.verify(c, &xs, &srs.open(&enc.locals[0], &xs).unwrap()).unwrap();
    let mut a = vec![Fe::zero(); p.r()];
    a[p.r() - 1] = Fe::one();
    let b = vec![Fe::one(); p.r()];
    let sum = a.iter().zip(&b).map(|(a, b)| a.add(*b)).collect::<Vec<_>>();
    assert_eq!(srs.commit(&sum).unwrap(), srs.commit(&a).unwrap().add(&srs.commit(&b).unwrap()));
    let mut unit = z;
    unit[p.r() + 2] = Fe::one();
    let locals = MessagePolys::new(&d, &unit).unwrap().locals(&d).unwrap();
    for (j, v) in locals.iter().enumerate() {
        assert_eq!(v[2], d.weights(j).unwrap()[1]);
    }
}

#[test]
fn serialization_subgroup_and_context() {
    let (d, srs) = small();
    let p = d.params();
    let enc = encode(&d, &srs, Scheme::Lrdas, &fixture::message(p, 3)).unwrap();
    let raw = enc.header.payload().unwrap();
    assert!(Header::from_payload(&d, &srs, Scheme::Lrdas, [0; 32], &raw).is_err());
    assert!(Header::from_payload(&d, &srs, Scheme::Product, enc.header.context(), &raw).is_err());
    assert!(Header::from_payload(&d, &srs, Scheme::Lrdas, enc.header.context(), &raw[..raw.len() - 1]).is_err());
    let other = fixture::setup(p.r(), 44).unwrap();
    assert!(enc.header.clone().verify(&d, &other).is_err());
    let h_context = enc.header.context();
    let h = enc.header.verify(&d, &srs).unwrap();
    let mut cache = GroupCache::new(&h, &d);
    let _ = cache.get(&h, &d, p.a()).unwrap();
    let h2 = encode(&d, &srs, Scheme::Lrdas, &fixture::message(p, 4)).unwrap().header.verify(&d, &srs).unwrap();
    assert!(cache.get(&h2, &d, p.a()).is_err());
    let d2 = Domain::new(Params::new(6, 32, 12, 4, 0).unwrap()).unwrap();
    assert!(h.derive(&d2, 4).is_err());
    assert!(cache.get(&h, &d2, p.a()).is_err());
    assert!(decode_scalar(&[255; 32]).is_err());
    let mut extra = scalar_bytes(Fe::one());
    extra.push(0);
    assert!(decode_scalar(&extra).is_err());
    let mut nonsub = None;
    for i in 0..100u64 {
        if let Some(pt) = G1Affine::get_point_from_x_unchecked(Fq::from(i), false) {
            if !pt.is_in_correct_subgroup_assuming_on_curve() {
                nonsub = Some(pt);
                break;
            }
        }
    }
    let nonsub = nonsub.expect("non-subgroup fixture");
    assert!(nonsub.is_on_curve());
    assert!(G1::from_bytes(&g1_bytes(&nonsub)).is_err());
    let mut invalid = raw.clone();
    invalid[..48].copy_from_slice(&g1_bytes(&nonsub));
    assert!(Header::from_payload(&d, &srs, Scheme::Lrdas, h_context, &invalid).is_err());
    let g1 = srs.g1().iter().flat_map(|p| p.to_bytes()).collect::<Vec<_>>();
    let g2 = srs.g2().iter().flat_map(|p| p.to_bytes()).collect::<Vec<_>>();
    assert_eq!(decode_srs(p.r(), &g1, &g2).unwrap().id(), srs.id());
    assert!(decode_srs(p.r(), &g1[..g1.len() - 1], &g2).is_err());
}

#[test]
fn several_code_shapes_and_incomplete_collector() {
    for (ell, m, r, a, b) in [(3, 8, 5, 2, 0), (5, 16, 7, 3, 1), (8, 32, 17, 5, 16)] {
        let p = Params::new(ell, m, r, a, b).unwrap();
        let d = Domain::new(p).unwrap();
        let srs = fixture::setup(r, 912).unwrap();
        for seed in [51, 52] {
            let msg = fixture::message(p, seed);
            let enc = encode(&d, &srs, Scheme::Lrdas, &msg).unwrap();
            let h = enc.header.clone().verify(&d, &srs).unwrap();
            for j in [0, a] {
                for t in [1, 2, r - 1, r] {
                    let xs: Vec<_> = (0..t).map(|i| d.point(Scheme::Lrdas, j, i).unwrap()).collect();
                    let o = srs.open(&enc.locals[j], &xs).unwrap();
                    srs.verify(h.derive(&d, j).unwrap(), &xs, &o).unwrap();
                }
            }
            assert!(StreamingCollector::new(a).finish(&d, &srs, &h).is_err());
            assert!(d.point(Scheme::Lrdas, ell, 0).is_err());
            assert!(d.point(Scheme::Lrdas, 0, m).is_err());
            let mut collector = StreamingCollector::new(a);
            let mut cache = GroupCache::new(&h, &d);
            let x = d.point(Scheme::Lrdas, a, 0).unwrap();
            let raw = srs.open(&enc.locals[a], &[x]).unwrap().to_bytes(r).unwrap();
            collector.accept(&d, &srs, &h, &mut cache, 0, &raw).unwrap();
            assert!(collector.accept(&d, &srs, &h, &mut cache, 0, &raw).is_err());
            if b > 0 {
                assert_eq!(&enc.locals[a][..b], &msg[a * r..]);
            }
        }
    }
    // A configuration read from JSON is validated by the same checks.
    let v: serde_json::Value = serde_json::from_str(r#"{"ell":6,"m":16,"r":0,"a":4,"b":0}"#).unwrap();
    let field = |k: &str| v[k].as_u64().unwrap() as usize;
    assert!(Params::new(field("ell"), field("m"), field("r"), field("a"), field("b")).is_err());
}

#[test]
fn independent_verification_rejects_cancelling_errors() {
    let (d, srs) = small();
    let p = d.params();
    let enc = encode(&d, &srs, Scheme::Lrdas, &fixture::message(p, 83)).unwrap();
    let x = d.point(Scheme::Lrdas, p.a(), 0).unwrap();
    let c = srs.commit(&enc.locals[p.a()]).unwrap();
    let good = srs.open(&enc.locals[p.a()], &[x]).unwrap();
    let mut plus = good.clone();
    let mut minus = good;
    plus.values[0] = plus.values[0].add(Fe::one());
    minus.values[0] = minus.values[0].sub(Fe::one());
    assert!(srs.verify(c, &[x], &plus).is_err());
    assert!(srs.verify(c, &[x], &minus).is_err());
    let l1 = ark1(&c).into_group() - G1Projective::generator() * to_fr(plus.values[0]);
    let l2 = ark1(&c).into_group() - G1Projective::generator() * to_fr(minus.values[0]);
    let z = ark2(&srs.commit_g2(&[x.neg(), Fe::one()]).unwrap());
    let g2_0 = ark2(&srs.g2()[0]);
    // Demonstrate that unweighted aggregation WOULD accept the two invalid claims.
    let bad_aggregate = Bls12_381::multi_pairing(
        [
            l1.into_affine(),
            (-ark1(&plus.proof).into_group()).into_affine(),
            l2.into_affine(),
            (-ark1(&minus.proof).into_group()).into_affine(),
        ],
        [g2_0, z, g2_0, z],
    );
    assert!(bad_aggregate.0.is_one());
}

#[test]
fn response_bytes_round_trip_and_rejections() {
    let (d, srs) = small();
    let p = d.params();
    let enc = encode(&d, &srs, Scheme::Lrdas, &fixture::message(p, 5)).unwrap();
    let xs = [d.point(Scheme::Lrdas, 1, 3).unwrap(), d.point(Scheme::Lrdas, 1, 4).unwrap()];
    let o = srs.open(&enc.locals[1], &xs).unwrap();
    let raw = o.to_bytes(p.r()).unwrap();
    let back = Opening::from_bytes(&raw, 2, p.r()).unwrap();
    assert_eq!(back.values, o.values);
    assert_eq!(back.proof, o.proof);
    assert_eq!(&raw[..32], &scalar_bytes(o.values[0])[..]);
    assert_eq!(Opening::from_bytes(&raw, 0, p.r()).unwrap_err().message(), "response dimensions");
    assert_eq!(Opening::from_bytes(&raw[1..], 2, p.r()).unwrap_err().message(), "response byte length");
    assert_eq!(o.to_bytes(1).unwrap_err().message(), "response length");
    assert_eq!(decode_scalar(&scalar_bytes(fe(77))).unwrap(), fe(77));
    assert_eq!(decode_scalar(&[0u8; 31]).unwrap_err().message(), "invalid field element encoding");
    let mut extra = scalar_bytes(fe(77));
    extra.push(1);
    assert_eq!(decode_scalar(&extra).unwrap_err().message(), "trailing bytes");
    let full = Opening { values: vec![fe(1); p.r()], proof: o.proof };
    assert_eq!(full.to_bytes(p.r()).unwrap_err().message(), "full-group proof must be identity");
}

#[test]
fn verify_reports_each_rejection() {
    let (d, srs) = small();
    let p = d.params();
    let enc = encode(&d, &srs, Scheme::Lrdas, &fixture::message(p, 6)).unwrap();
    let c = srs.commit(&enc.locals[0]).unwrap();
    let xs = [d.point(Scheme::Lrdas, 0, 0).unwrap(), d.point(Scheme::Lrdas, 0, 1).unwrap()];
    let o = srs.open(&enc.locals[0], &xs).unwrap();
    assert_eq!(srs.verify(c, &xs[..1], &o).unwrap_err().message(), "verify lengths");
    assert_eq!(srs.verify(c, &[xs[0], xs[0]], &o).unwrap_err().message(), "duplicate coordinates");
    let mut bad = o.clone();
    bad.values[1] = bad.values[1].add(Fe::one());
    assert_eq!(srs.verify(c, &xs, &bad).unwrap_err().message(), "invalid KZG opening");
    let all: Vec<Fe> = (0..p.r()).map(|i| d.point(Scheme::Lrdas, 0, i).unwrap()).collect();
    let full = srs.open(&enc.locals[0], &all).unwrap();
    assert!(full.proof.is_identity());
    let other = srs.commit(&enc.locals[1]).unwrap();
    assert_eq!(srs.verify(other, &all, &full).unwrap_err().message(), "full-group commitment mismatch");
    assert_eq!(srs.open(&enc.locals[0], &[xs[0], xs[0]]).unwrap_err().message(), "duplicate coordinates");
}

#[test]
fn headers_commit_derive_and_cache() {
    let (d, srs) = small();
    let p = d.params();
    let enc = encode(&d, &srs, Scheme::Lrdas, &fixture::message(p, 7)).unwrap();
    assert_eq!(enc.header.payload().unwrap().len(), 48 * p.a());
    let h = enc.header.clone().verify(&d, &srs).unwrap();
    assert_eq!(h.scheme(), Scheme::Lrdas);
    assert_eq!(h.derive(&d, p.ell()).unwrap_err().message(), "group index");
    let mut cache = GroupCache::new(&h, &d);
    for j in 0..p.ell() {
        let first = cache.get(&h, &d, j).unwrap();
        assert_eq!(first, h.derive(&d, j).unwrap());
        assert_eq!(cache.get(&h, &d, j).unwrap(), first);
    }
    assert_eq!(cache.get(&h, &d, p.ell()).unwrap_err().message(), "group index");
    let other = fixture::setup(p.r() + 1, 900).unwrap();
    assert_eq!(
        MessagePolys::new(&d, &fixture::message(p, 7)).unwrap().commit(&d, &other, Scheme::Lrdas).err().unwrap().message(),
        "SRS profile mismatch"
    );
    let p1 = Params::new(6, 16, 12, 4, 1).unwrap();
    let d1 = Domain::new(p1).unwrap();
    let e1 = encode(&d1, &srs, Scheme::Lrdas, &fixture::message(p1, 8)).unwrap();
    assert_eq!(e1.header.payload().unwrap().len(), 48 * (p1.a() + 2));
    assert_eq!(
        encode(&d1, &srs, Scheme::Product, &fixture::message(p1, 8)).err().unwrap().message(),
        "product requires b=0"
    );
    let h1 = e1.header.verify(&d1, &srs).unwrap();
    assert_eq!(h1.derive(&d, 0).unwrap_err().message(), "domain dimensions");
}

#[test]
fn setup_fixture_is_deterministic_and_bounded() {
    let a = fixture::setup(4, 1).unwrap();
    let b = fixture::setup(4, 1).unwrap();
    assert_eq!(a.id(), b.id());
    assert_ne!(a.id(), fixture::setup(4, 2).unwrap().id());
    assert_eq!(a.r(), 4);
    assert_eq!(a.g2().len(), 5);
    assert_eq!(fixture::setup(1, 1).err().unwrap().message(), "unsupported setup degree");
    assert_eq!(fixture::setup(16385, 1).err().unwrap().message(), "unsupported setup degree");
    let p = Params::smoke();
    assert_eq!(fixture::message(p, 3), fixture::message(p, 3));
    assert_ne!(fixture::message(p, 3), fixture::message(p, 4));
    assert_eq!(fixture::message(p, 3).len(), p.k());
    assert_ne!(fixture::seed_bytes(1, b"a"), fixture::seed_bytes(1, b"b"));
}
