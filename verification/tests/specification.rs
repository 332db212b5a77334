use lrdas_artifact::specification::{
    enumerate, evaluate, exhaustive_mutation, interpolate, Field, Instance, Parameters,
};

#[test]
fn enumeration_matches_the_documented_parameter_domain() {
    let cases = enumerate();
    assert_eq!(cases.len(), 5791);
    assert_eq!(cases.iter().filter(|p| p.b() == 0).count(), 978);
    assert_eq!(cases.iter().filter(|p| p.b() > 0).count(), 4813);
}

#[test]
fn non_power_of_two_subgroup_and_dimension_boundaries_round_trip() {
    for k in [7, 8, 55, 56] {
        let p = Parameters {
            q: 97,
            m: 12,
            ell: 8,
            r: 7,
            k,
        };
        let instance = Instance::new(p, (p.b() > 0).then_some(p.a())).unwrap();
        let message: Vec<_> = (0..k).map(|i| (i as u64 * 11 + 3) % p.q).collect();
        assert!(instance.check(&message).unwrap().passed);
    }
}

#[test]
fn residual_conversion_prevents_detectable_mutation() {
    let p = Parameters {
        q: 17,
        m: 4,
        ell: 4,
        r: 3,
        k: 4,
    };
    let instance = Instance::new(p, Some(2)).unwrap();
    let message = [1, 2, 3, 0];
    assert_eq!(
        instance.decode(&instance.encode(&message, true).unwrap()),
        message
    );
    assert_ne!(
        instance.decode(&instance.encode(&message, false).unwrap()),
        message
    );
    assert!(!instance.mutation_condition(&message));
    assert_eq!(
        instance.check(&message).unwrap().mutation_survived,
        Some(false)
    );
    let survivor = [3, 2, 3, 1];
    assert!(instance.mutation_condition(&survivor));
    assert_eq!(
        instance.check(&survivor).unwrap().mutation_survived,
        Some(true)
    );
}

#[test]
fn invalid_fields_domains_and_messages_are_rejected() {
    assert!(Field::new(9).is_err());
    assert!(Field::new(17).unwrap().inverse(0).is_err());
    let p = Parameters {
        q: 17,
        m: 4,
        ell: 4,
        r: 3,
        k: 4,
    };
    assert!(Instance::new(p, Some(0)).is_err());
    assert!(Instance::new(Parameters { ell: 5, ..p }, Some(1)).is_err());
    assert!(Instance::new(Parameters { m: 3, ..p }, Some(1)).is_err());
    let instance = Instance::new(p, Some(1)).unwrap();
    assert!(instance.encode(&[1, 2, 3], true).is_err());
    assert!(instance.encode(&[1, 2, 3, 17], true).is_err());
    assert!(interpolate(instance.field(), &[1, 1], &[2, 3]).is_err());
    let mut illegal = vec![0; p.degree() + 1];
    illegal[3] = 1;
    assert!(!instance.belongs(&illegal));
    illegal[3] = 0;
    illegal.push(1);
    assert!(!instance.belongs(&illegal));
}

#[test]
fn exhaustive_mutation_count_is_measured() {
    let result = exhaustive_mutation().unwrap();
    assert_eq!(result.messages_checked, 83521);
    assert_eq!(result.mutation_survivors, 4913);
    assert_eq!(result.equation16_satisfied, 4913);
}

#[test]
fn field_arithmetic_values() {
    let f = Field::new(17).unwrap();
    assert_eq!(f.add(16, 5), 4);
    assert_eq!(f.sub(3, 5), 15);
    assert_eq!(f.mul(5, 7), 1);
    assert_eq!(f.pow(3, 16), 1);
    assert_eq!(f.pow(3, 4), 13);
    assert_eq!(f.inverse(5).unwrap(), 7);
    assert_eq!(f.inverse(1).unwrap(), 1);
    assert!(f.inverse(17).is_err());
    assert_eq!(f.generator().unwrap(), 3);
    assert_eq!(Field::new(97).unwrap().generator().unwrap(), 5);
    assert!(Field::new(2).is_err());
    assert!(Field::new(65539).is_err());
    assert!(Field::new(65537).is_ok());
}

#[test]
fn polynomial_helpers_values() {
    let f = Field::new(17).unwrap();
    // 3 + 4x + 5x^2 at x = 2: 3 + 8 + 20 = 31 = 14 mod 17
    assert_eq!(lrdas_artifact::specification::evaluate(f, &[3, 4, 5], 2), 14);
    // (1 + x)(2 + x) = 2 + 3x + x^2
    assert_eq!(
        lrdas_artifact::specification::multiply(f, &[1, 1], &[2, 1]),
        vec![2, 3, 1]
    );
    let xs = [1, 2, 7];
    let ys: Vec<u64> = xs.iter().map(|x| (3 + 4 * x + 5 * x * x) % 17).collect();
    assert_eq!(interpolate(f, &xs, &ys).unwrap(), vec![3, 4, 5]);
    assert!(interpolate(f, &[], &[]).is_err());
    assert!(interpolate(f, &[1, 2], &[1]).is_err());
}

#[test]
fn exhaustive_instance_labels_and_remainders() {
    let p = Parameters {
        q: 17,
        m: 4,
        ell: 4,
        r: 3,
        k: 4,
    };
    let instance = Instance::new(p, Some(2)).unwrap();
    assert_eq!(instance.gamma()[0], 1);
    assert_eq!(instance.gamma()[2], 16);
    assert_eq!(p.a(), 1);
    assert_eq!(p.b(), 1);
    assert_eq!(p.degree(), 4);
    // X^4 mod (X^4 - 16) = 16
    assert_eq!(instance.remainder(&[0, 0, 0, 0, 1], 2), vec![16, 0, 0, 0]);
    assert!(instance.residual(&[1, 2, 3, 0], false).unwrap() == vec![0]);
}

#[test]
fn interpolant_takes_every_prescribed_value() {
    let f = Field::new(97).unwrap();
    let xs: Vec<u64> = vec![0, 5, 13, 29, 41, 96];
    let ys: Vec<u64> = vec![7, 0, 96, 12, 55, 3];
    let c = interpolate(f, &xs, &ys).unwrap();
    assert_eq!(c.len(), xs.len());
    for (x, y) in xs.iter().zip(ys.iter()) {
        assert_eq!(lrdas_artifact::specification::evaluate(f, &c, *x), *y);
    }
    assert_eq!(interpolate(f, &[1, 2], &[3, 5]).unwrap(), vec![1, 2]);
    assert!(interpolate(f, &[4, 9, 4], &[1, 2, 3]).is_err());
}

#[test]
fn converted_encoding_round_trips_and_unconverted_exactly_under_equation16() {
    for k in [7, 8, 55, 56] {
        let p = Parameters {
            q: 97,
            m: 12,
            ell: 8,
            r: 7,
            k,
        };
        let instance = Instance::new(p, (p.b() > 0).then_some(p.a())).unwrap();
        for seed in 0..20u64 {
            let message: Vec<u64> = (0..k).map(|i| (i as u64 * (seed + 5) + seed * seed) % p.q).collect();
            let converted = instance.encode(&message, true).unwrap();
            assert_eq!(instance.decode(&converted), message);
            let plain = instance.encode(&message, false).unwrap();
            assert_eq!(
                instance.decode(&plain) == message,
                instance.mutation_condition(&message)
            );
        }
    }
    let p = Parameters {
        q: 17,
        m: 4,
        ell: 4,
        r: 3,
        k: 4,
    };
    let instance = Instance::new(p, Some(2)).unwrap();
    assert_eq!(instance.encode(&[1, 2, 3, 0], true).unwrap(), vec![9, 2, 3, 0, 9]);
    assert_eq!(instance.encode(&[1, 2, 3, 0], false).unwrap(), vec![1, 2, 3, 0, 0]);
    assert_eq!(instance.decode(&[1, 2, 3, 0, 0]), vec![1, 2, 3, 1]);
}

#[test]
fn encoding_is_linear_in_the_message() {
    let p = Parameters {
        q: 97,
        m: 12,
        ell: 8,
        r: 7,
        k: 55,
    };
    let instance = Instance::new(p, Some(p.a())).unwrap();
    let m1: Vec<u64> = (0..55).map(|i| (i * 7 + 1) % 97).collect();
    let m2: Vec<u64> = (0..55).map(|i| (i * i + 5) % 97).collect();
    for c in [0u64, 1, 2, 96] {
        let mix: Vec<u64> = m1.iter().zip(m2.iter()).map(|(a, b)| (a + c * b) % 97).collect();
        for convert in [false, true] {
            let f = instance.encode(&mix, convert).unwrap();
            let f1 = instance.encode(&m1, convert).unwrap();
            let f2 = instance.encode(&m2, convert).unwrap();
            let expected: Vec<u64> = f1.iter().zip(f2.iter()).map(|(a, b)| (a + c * b) % 97).collect();
            assert_eq!(f, expected);
        }
    }
}

#[test]
fn remainder_agrees_with_the_polynomial_on_its_coset() {
    let p = Parameters {
        q: 17,
        m: 4,
        ell: 4,
        r: 3,
        k: 4,
    };
    let instance = Instance::new(p, Some(2)).unwrap();
    let field = Field::new(17).unwrap();
    let f = vec![3, 1, 4, 1, 5, 9, 2, 6, 5, 3, 5];
    for group in 0..4 {
        let gamma = instance.gamma()[group];
        let rem = instance.remainder(&f, group);
        assert_eq!(rem.len(), 4);
        let mut hits = 0;
        for x in 1..17u64 {
            if x * x % 17 * x % 17 * x % 17 == gamma {
                hits += 1;
                assert_eq!(evaluate(field, &f, x), evaluate(field, &rem, x));
            }
        }
        assert_eq!(hits, 4);
    }
}
