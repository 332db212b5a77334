use lrdas_artifact::decoder::{
    check_case, decode, divide_monic, interpolate, proposition_pattern, random_locals,
    random_pattern, solve, Layout, Shape,
};
use lrdas_artifact::field::Fe;
use lrdas_artifact::polynomial::evaluate;

fn fe(x: u64) -> Fe {
    Fe::from_u64(x)
}

fn layout(product: bool) -> Layout {
    Layout::new(
        Shape {
            m: 8,
            r: 6,
            ell: 6,
            a: 4,
        },
        fe(3),
        product,
    )
    .unwrap()
}

#[test]
fn coset_interpolation_uses_only_received_values() {
    for product in [false, true] {
        let domain = layout(product);
        let polynomial: Vec<_> = (1..=6).map(fe).collect();
        let values = domain.evaluate(3, &polynomial);
        let received: Vec<_> = [0, 2, 3, 5, 6, 7].iter().map(|&i| (i, values[i])).collect();
        let (actual, z) = interpolate(&domain, 3, &received).unwrap();
        assert_eq!(actual, polynomial);
        assert!(received
            .iter()
            .all(|&(i, _)| evaluate(&z, domain.point_at(3, i)).is_zero()));
        let partial = &received[..4];
        let (actual, z) = interpolate(&domain, 3, partial).unwrap();
        assert!(actual[4..].iter().all(|x| x.is_zero()));
        assert!(partial
            .iter()
            .all(|&(i, y)| evaluate(&actual, domain.point_at(3, i)) == y));
        assert_eq!(z.len(), 5);
    }
}

#[test]
fn rank_deficiency_and_inconsistency_are_distinct() {
    let one = Fe::one();
    let zero = Fe::zero();
    let result = solve(vec![vec![one, one, one], vec![one, one, one]], 2).unwrap();
    assert_eq!(result.rank, 1);
    assert!(result.consistent && result.values.is_none());
    let result = solve(vec![vec![one, one, one], vec![one, one, zero]], 2).unwrap();
    assert_eq!(result.rank, 1);
    assert!(!result.consistent && result.values.is_none());
}

#[test]
fn rejects_duplicate_and_inconsistent_evidence() {
    let domain = layout(false);
    assert!(interpolate(&domain, 0, &[(0, Fe::one()), (0, Fe::one())]).is_err());
    let polynomial: Vec<_> = (1..=6).map(fe).collect();
    let values = domain.evaluate(0, &polynomial);
    let mut received: Vec<_> = values
        .iter()
        .enumerate()
        .map(|(i, &value)| (i, value))
        .collect();
    received[7].1 = received[7].1.add(Fe::one());
    assert!(interpolate(&domain, 0, &received).is_err());
}

#[test]
fn structured_recovery_handles_full_partial_and_empty_groups() {
    for product in [false, true] {
        let domain = layout(product);
        let shape = domain.shape();
        let locals = random_locals(&domain, 42, "test-decoder");
        let pattern = proposition_pattern(shape).unwrap();
        check_case(&domain, &locals, &pattern, shape.r).unwrap();
        let pattern: Vec<Vec<usize>> = (0..shape.ell)
            .map(|j| {
                if j < shape.a {
                    (0..shape.m).collect()
                } else {
                    Vec::new()
                }
            })
            .collect();
        check_case(&domain, &locals, &pattern, shape.r).unwrap();
        let empty = vec![Vec::new(); shape.ell];
        let result = decode(&domain, &empty, shape.r).unwrap();
        assert!(result.consistent && result.locals.is_none());
        assert!(result.rank < result.unknowns);
    }
}

#[test]
fn unique_solution_is_returned_and_checked() {
    // x + 2y = 5, 3x + y = 5 has the unique solution x = 1, y = 2.
    let result = solve(
        vec![vec![fe(1), fe(2), fe(5)], vec![fe(3), fe(1), fe(5)]],
        2,
    )
    .unwrap();
    assert_eq!(result.rank, 2);
    assert!(result.consistent);
    assert_eq!(result.values.unwrap(), vec![fe(1), fe(2)]);
    assert_eq!(
        solve(vec![vec![fe(1), fe(2), fe(3)], vec![fe(1)]], 2)
            .err()
            .unwrap()
            .message(),
        "invalid augmented matrix dimensions"
    );
    let empty = solve(Vec::new(), 2).unwrap();
    assert_eq!(empty.rank, 0);
    assert!(empty.consistent && empty.values.is_none());
}

#[test]
fn layout_rejections_and_dimension_errors() {
    let shape = Shape {
        m: 6,
        r: 4,
        ell: 3,
        a: 2,
    };
    assert_eq!(
        Layout::new(shape, fe(3), false).err().unwrap().message(),
        "FFT domain unavailable"
    );
    let shape = Shape {
        m: 8,
        r: 4,
        ell: 3,
        a: 2,
    };
    assert_eq!(
        Layout::new(shape, fe(1), false).err().unwrap().message(),
        "outer evaluation points are not distinct"
    );
    let domain = layout(false);
    let empty = vec![Vec::new(); 6];
    for count in [0, 7] {
        assert_eq!(
            decode(&domain, &empty, count).err().unwrap().message(),
            "invalid decoder dimensions"
        );
    }
    assert_eq!(
        decode(&domain, &empty[..5], 6).err().unwrap().message(),
        "invalid decoder dimensions"
    );
    assert_eq!(
        interpolate(&domain, 0, &[(8, Fe::one())]).err().unwrap().message(),
        "invalid or duplicate received position"
    );
    let zero_shift = Layout::new(
        Shape {
            m: 8,
            r: 4,
            ell: 2,
            a: 1,
        },
        Fe::zero(),
        false,
    )
    .unwrap();
    assert_eq!(
        interpolate(&zero_shift, 1, &[(1, Fe::one())]).err().unwrap().message(),
        "zero coset representative"
    );
}

#[test]
fn monic_division_cases() {
    // (x^2 - 1) / (x - 1) = x + 1.
    let minus_one = Fe::zero().sub(Fe::one());
    assert_eq!(
        divide_monic(&[minus_one, fe(0), fe(1)], &[minus_one, fe(1)]).unwrap(),
        vec![fe(1), fe(1)]
    );
    assert_eq!(divide_monic(&[fe(0)], &[fe(2), fe(1)]).unwrap(), vec![fe(0)]);
    assert_eq!(
        divide_monic(&[fe(3)], &[fe(2), fe(1)]).err().unwrap().message(),
        "polynomial division has a nonzero remainder"
    );
    assert_eq!(
        divide_monic(&[fe(3), fe(1)], &[fe(2), fe(2)])
            .err()
            .unwrap()
            .message(),
        "division requires a monic polynomial"
    );
}

#[test]
fn random_pattern_keeps_the_requested_count_sorted() {
    let shape = Shape {
        m: 8,
        r: 6,
        ell: 6,
        a: 4,
    };
    let groups = random_pattern(shape, 30, 5);
    assert_eq!(groups.len(), 6);
    assert_eq!(groups.iter().map(|g| g.len()).sum::<usize>(), 30);
    for group in &groups {
        assert!(group.windows(2).all(|w| w[0] < w[1]));
        assert!(group.iter().all(|&i| i < 8));
    }
    assert_eq!(random_pattern(shape, 30, 5), groups);
}

#[test]
fn diagonal_pattern_keeps_r_positions_per_group() {
    let shape = Shape {
        m: 8,
        r: 6,
        ell: 6,
        a: 4,
    };
    let pattern = proposition_pattern(shape).unwrap();
    assert_eq!(pattern.len(), 6);
    assert!(pattern.iter().all(|g| g.len() == 5));
    assert!(proposition_pattern(Shape {
        m: 4,
        r: 3,
        ell: 6,
        a: 4
    })
    .is_err());
}
