use ark_bls12_381::Fr;
use ark_ff::{BigInt, Field, One, PrimeField, Zero};
use lrdas_artifact::domain::{Domain, Params, Scheme};
use lrdas_artifact::field::Fe;
use lrdas_artifact::fixture;
use lrdas_artifact::protocol::{encode, MessagePolys};
use lrdas_artifact::recovery::{
    erased, global_from_message, in_code_space, local_coefficients, pattern_counts, recover_global, recover_groups,
    recover_product_rows, repair_product_point, row_weights, surviving_values, AcceptedValue,
};
use lrdas_artifact::separation::{product_witness, rectangle, ErasureMask};

fn to_fr(x: Fe) -> Fr {
    Fr::from_bigint(BigInt::new(x.limbs())).unwrap()
}

fn rank(mut matrix: Vec<Vec<Fr>>, columns: usize) -> usize {
    let mut pivot = 0;
    for c in 0..columns {
        let Some(i) = (pivot..matrix.len()).find(|i| !matrix[*i][c].is_zero()) else {
            continue;
        };
        matrix.swap(pivot, i);
        let inv = matrix[pivot][c].inverse().unwrap();
        for v in &mut matrix[pivot] {
            *v *= inv;
        }
        let row = matrix[pivot].clone();
        for (i, values) in matrix.iter_mut().enumerate() {
            if i == pivot {
                continue;
            }
            let scale = values[c];
            for (v, x) in values.iter_mut().zip(&row) {
                *v -= scale * x;
            }
        }
        pivot += 1;
        if pivot == matrix.len() {
            break;
        }
    }
    pivot
}

fn survivor_rank(d: &Domain, scheme: Scheme, mask: &ErasureMask) -> usize {
    let p = d.params();
    let positions: Vec<_> = (0..p.ell())
        .flat_map(|j| (0..p.m()).map(move |i| (j, i)))
        .filter(|(j, i)| !mask.contains(*j, *i).unwrap())
        .collect();
    let mut matrix = vec![vec![Fr::zero(); p.k()]; positions.len()];
    for c in 0..p.k() {
        let mut message = vec![Fe::zero(); p.k()];
        message[c] = Fe::one();
        let locals = MessagePolys::new(d, &message).unwrap().locals(d).unwrap();
        for (row, (j, i)) in positions.iter().enumerate() {
            // Horner, independent of FFT evaluation used by the benchmark.
            let x = to_fr(d.point(scheme, *j, *i).unwrap());
            matrix[row][c] = locals[*j].iter().rev().fold(Fr::zero(), |acc, v| acc * x + to_fr(*v));
        }
    }
    rank(matrix, p.k())
}

fn message(p: Params, seed: u64) -> Vec<Fe> {
    (0..p.k() as u64)
        .map(|i| Fe::from_u64(seed.wrapping_mul(1_000_003).wrapping_add(i * i * 7919 + 13)))
        .collect()
}

fn codeword(d: &Domain, scheme: Scheme, message: &[Fe]) -> (Vec<Vec<Fe>>, Vec<Vec<Fe>>) {
    let locals = MessagePolys::new(d, message).unwrap().locals(d).unwrap();
    let values = locals
        .iter()
        .enumerate()
        .map(|(j, v)| d.evaluate(scheme, j, v).unwrap())
        .collect();
    (locals, values)
}

#[test]
fn proposition_7_reconstruction_and_proof_repair() {
    let p = Params::smoke();
    let d = Domain::new(p).unwrap();
    let srs = fixture::setup(p.r(), 91).unwrap();
    let message = fixture::message(p, 92);
    let (groups, rows) = pattern_counts(p).unwrap();
    assert!(groups.iter().all(|n| *n == p.r() - 1));
    assert!(rows.iter().all(|n| *n >= p.a()));
    for scheme in [Scheme::Lrdas, Scheme::Product] {
        let enc = encode(&d, &srs, scheme, &message).unwrap();
        let h = enc.header.clone().verify(&d, &srs).unwrap();
        let received = surviving_values(&d, &enc.values).unwrap();
        let rec = if scheme == Scheme::Lrdas {
            recover_global(&d, &received)
        } else {
            recover_product_rows(&d, &received)
        }
        .unwrap();
        assert_eq!(rec.message(), message.as_slice());
        assert_eq!(rec.values(), enc.values.as_slice());
        rec.authenticate(&d, &srs, &h).unwrap();
        let mut bad = received.clone();
        let last = bad.len() - 1;
        bad[last].value = bad[last].value.add(Fe::one());
        assert!(if scheme == Scheme::Lrdas {
            recover_global(&d, &bad)
        } else {
            recover_product_rows(&d, &bad)
        }
        .is_err());
        if scheme == Scheme::Lrdas {
            assert!(recover_global(&d, &received[..p.degree()]).is_err());
            let mut bad = received.clone();
            bad[1] = bad[0];
            assert!(recover_global(&d, &bad).is_err());
        } else {
            let target = p.a();
            let index = p.m() * target / p.ell();
            assert!(erased(p, target, index).unwrap());
            let helpers: Vec<_> = (0..p.ell())
                .filter(|j| !erased(p, *j, index).unwrap())
                .take(p.a())
                .map(|j| (j, srs.open(&enc.locals[j], &[d.point(scheme, j, index).unwrap()]).unwrap()))
                .collect();
            let repaired = repair_product_point(&d, &srs, &h, target, index, &helpers).unwrap();
            assert_eq!(repaired.values, vec![enc.values[target][index]]);
            let mut bad = helpers.clone();
            bad[0].1.values[0] = bad[0].1.values[0].add(Fe::one());
            assert!(repair_product_point(&d, &srs, &h, target, index, &bad).is_err());
        }
    }
    let (groups, rows) = pattern_counts(Params::reference()).unwrap();
    assert!(groups.iter().all(|n| *n == 767));
    assert_eq!(*rows.iter().min().unwrap(), 92);
}

#[test]
fn proposition_7_row_weights_repair_values() {
    let p = Params::smoke();
    let d = Domain::new(p).unwrap();
    let message = message(p, 92);
    let (_, values) = codeword(&d, Scheme::Product, &message);
    let target = p.a();
    let index = p.m() * target / p.ell();
    let helpers: Vec<usize> = (0..p.ell()).filter(|j| !erased(p, *j, index).unwrap()).take(p.a()).collect();
    let weights = row_weights(&d, &helpers, target).unwrap();
    let mut repaired = Fe::zero();
    for (j, w) in helpers.iter().zip(&weights) {
        repaired = repaired.add(values[*j][index].mul(*w));
    }
    assert_eq!(repaired, values[target][index]);
    assert!(row_weights(&d, &helpers[1..], target).is_err());
    let mut dup = helpers.clone();
    dup[1] = dup[0];
    assert!(row_weights(&d, &dup, target).is_err());
}

#[test]
fn global_interpolation_respects_the_code_space() {
    let p = Params::smoke();
    let d = Domain::new(p).unwrap();
    assert!(in_code_space(p, &[Fe::one(); 12]));
    let mut outside = vec![Fe::zero(); 13];
    outside[12] = Fe::one();
    assert!(!in_code_space(p, &outside));
    assert!(local_coefficients(&d, &outside).is_err());
    let f = vec![Fe::from_u64(2), Fe::from_u64(3)];
    let locals = local_coefficients(&d, &f).unwrap();
    assert_eq!(locals.len(), 6);
    assert_eq!(locals[0][0], Fe::from_u64(2));
    assert_eq!(locals[0][1], Fe::from_u64(3));
    let mut high = vec![Fe::zero(); 17];
    high[16] = Fe::one();
    let locals = local_coefficients(&d, &high).unwrap();
    assert_eq!(locals[1][0], d.gammas()[1]);
    assert!(locals[1][1..].iter().all(|c| c.is_zero()));
}

#[test]
fn rectangle_has_exactly_one_missing_dimension_and_restoring_one_symbol_fixes_it() {
    let p = Params::new(5, 8, 6, 3, 0).unwrap();
    let d = Domain::new(p).unwrap();
    // Mix source and parity groups; group shortcut must not assume source indices.
    let gs = [0, 3, 4];
    let is = [0, 3, 7];
    let rect = rectangle(&d, &gs, &is).unwrap();
    assert_eq!(rect.count(), p.distance(Scheme::Product).unwrap());
    assert!(rect.count() < p.distance(Scheme::Lrdas).unwrap());
    let w = product_witness(&d, &gs, &is).unwrap();
    assert!(w.message.iter().any(|v| !v.is_zero()));
    assert_eq!(survivor_rank(&d, Scheme::Product, &rect), p.k() - 1);
    assert_eq!(survivor_rank(&d, Scheme::Lrdas, &rect), p.k());
    let mut restored = rect.clone();
    restored.restore(gs[1], is[1]).unwrap();
    assert!(!w.values[gs[1]][is[1]].is_zero());
    assert_eq!(survivor_rank(&d, Scheme::Product, &restored), p.k());
    assert_eq!(survivor_rank(&d, Scheme::Lrdas, &restored), p.k());
}

#[test]
fn receiver_recovers_both_controls_and_authenticates_full_outputs() {
    for p in [Params::new(5, 8, 6, 3, 0).unwrap(), Params::smoke()] {
        let d = Domain::new(p).unwrap();
        let srs = fixture::setup(p.r(), 91).unwrap();
        let gs: Vec<_> = (p.a() - 1..p.ell()).collect();
        let is: Vec<_> = (p.r() - 1..p.m()).collect();
        let mask = rectangle(&d, &gs, &is).unwrap();
        let mut boundary = mask.clone();
        boundary.restore(gs[0], is[0]).unwrap();
        let message = fixture::message(p, 19);
        for scheme in [Scheme::Lrdas, Scheme::Product] {
            let enc = encode(&d, &srs, scheme, &message).unwrap();
            let header = enc.header.clone().verify(&d, &srs).unwrap();
            let received = boundary.retain(&enc.values).unwrap();
            let rec = recover_groups(&d, scheme, &received).unwrap();
            assert_eq!(rec.message(), message.as_slice());
            assert_eq!(rec.values(), enc.values.as_slice());
            rec.authenticate(&d, &srs, &header).unwrap();
            let missing = mask.retain(&enc.values).unwrap();
            assert!(recover_groups(&d, scheme, &missing).is_err());
            if scheme == Scheme::Lrdas {
                let rec = recover_global(&d, &missing).unwrap();
                assert_eq!(rec.message(), message.as_slice());
                assert_eq!(rec.values(), enc.values.as_slice());
                rec.authenticate(&d, &srs, &header).unwrap();
            } else {
                assert!(recover_product_rows(&d, &missing).is_err());
            }
            let mut bad = received.clone();
            bad.push(received[0]);
            assert!(recover_groups(&d, scheme, &bad).is_err());
            let mut bad = received.clone();
            bad[0].value = bad[0].value.add(Fe::one());
            let rejected = match recover_groups(&d, scheme, &bad) {
                Err(_) => true,
                Ok(rec) => rec.authenticate(&d, &srs, &header).is_err(),
            };
            assert!(rejected, "altered survivor must not yield authenticated output");
            let invalid = [AcceptedValue { group: p.ell(), index: 0, value: Fe::zero() }];
            assert!(recover_groups(&d, scheme, &invalid).is_err());
            assert_eq!(rec.serve(&d, &srs, scheme, p.ell(), 0).unwrap_err().message(), "recovered group");
            let served = rec.serve(&d, &srs, scheme, 0, 1).unwrap();
            assert_eq!(served.values, vec![enc.values[0][1]]);
        }
    }
}

#[test]
fn malformed_masks_and_unsupported_dimensions_are_rejected() {
    let p = Params::smoke();
    let d = Domain::new(p).unwrap();
    assert!(ErasureMask::new(p, &[(0, 0), (0, 0)]).is_err());
    assert!(ErasureMask::new(p, &[(p.ell(), 0)]).is_err());
    assert!(ErasureMask::new(p, &[(0, p.m())]).is_err());
    let mut empty = ErasureMask::new(p, &[]).unwrap();
    assert!(empty.restore(0, 0).is_err());
    assert!(empty.retain(&[]).is_err());
    assert!(rectangle(&d, &[0, 0, 1], &[0, 1, 2, 3, 4]).is_err());
    let residual = Domain::new(Params::new(6, 16, 12, 4, 1).unwrap()).unwrap();
    assert!(rectangle(&residual, &[0, 1, 2], &[0, 1, 2, 3, 4]).is_err());
    assert!(recover_groups(&residual, Scheme::Lrdas, &[]).is_err());
    assert!(surviving_values(&residual, &[]).is_err());
}

#[test]
fn residual_group_reproduces_the_message_tail() {
    let p = Params::new(6, 16, 12, 4, 1).unwrap();
    let d = Domain::new(p).unwrap();
    let message = message(p, 7);
    let mp = MessagePolys::new(&d, &message).unwrap();
    let locals = mp.locals(&d).unwrap();
    assert_eq!(locals.len(), 6);
    for s in 0..4 {
        assert_eq!(locals[s], message[s * 12..(s + 1) * 12].to_vec());
    }
    assert_eq!(locals[4][0], message[48]);
    assert!(MessagePolys::new(&d, &message[1..]).is_err());
    let (_, values) = codeword(&d, Scheme::Lrdas, &message);
    let mut received = Vec::new();
    for j in 0..p.ell() {
        for i in 0..p.m() {
            received.push(AcceptedValue { group: j, index: i, value: values[j][i] });
        }
    }
    let rec = recover_global(&d, &received).unwrap();
    assert_eq!(rec.message(), message.as_slice());
}

#[test]
fn global_polynomial_restricts_to_every_local_polynomial() {
    for p in [Params::smoke(), Params::new(6, 16, 12, 4, 1).unwrap(), Params::new(5, 8, 6, 3, 0).unwrap()] {
        let d = Domain::new(p).unwrap();
        let message = message(p, 3);
        let f = global_from_message(&d, &message).unwrap();
        assert_eq!(f.len(), p.degree() + 1);
        assert!(in_code_space(p, &f));
        let locals = MessagePolys::new(&d, &message).unwrap().locals(&d).unwrap();
        assert_eq!(local_coefficients(&d, &f).unwrap(), locals);
    }
    let d = Domain::new(Params::smoke()).unwrap();
    assert!(global_from_message(&d, &[Fe::one()]).is_err());
}
