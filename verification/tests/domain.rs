use lrdas_artifact::domain::{is_power_of_two, Params, Scheme};

#[test]
fn manuscript_profile_and_input_rejection() {
    let p = Params::reference();
    assert_eq!((p.n(), p.k(), p.degree()), (125952, 62976, 83711));
    assert_eq!(p.distance(Scheme::Lrdas).unwrap(), 42241);
    assert_eq!(p.distance(Scheme::Product).unwrap(), 10794);
    for args in [
        (0, 16, 12, 4, 0),
        (6, 15, 12, 4, 0),
        (6, 16, 16, 4, 0),
        (6, 16, 12, 7, 0),
        (6, 16, 12, 6, 1),
        (usize::MAX, 16, 12, 4, 0),
    ] {
        assert!(Params::new(args.0, args.1, args.2, args.3, args.4).is_err());
    }
}

#[test]
fn smoke_profile_sizes() {
    let p = Params::smoke();
    assert_eq!((p.ell(), p.m(), p.r(), p.a(), p.b()), (6, 16, 12, 4, 0));
    assert_eq!((p.n(), p.k(), p.degree()), (96, 48, 59));
    assert_eq!(p.distance(Scheme::Lrdas).unwrap(), 37);
    assert_eq!(p.distance(Scheme::Product).unwrap(), 15);
    assert_eq!(Params::new(6, 16, 12, 4, 0).unwrap(), p);
    assert_eq!(p.validate().unwrap(), p);
}

#[test]
fn residual_profile_degree_and_product_refusal() {
    let p = Params::new(6, 16, 12, 4, 1).unwrap();
    assert_eq!(p.k(), 49);
    // ceil(49 / 12) = 5 blocks: 48 + 4 * 4 = 64.
    assert_eq!(p.degree(), 64);
    assert_eq!(p.distance(Scheme::Lrdas).unwrap(), 32);
    let e = p.distance(Scheme::Product).unwrap_err();
    assert_eq!(e.message(), "product baseline supports b=0");
}

#[test]
fn rejection_reasons_follow_the_order_of_the_checks() {
    assert_eq!(Params::new(0, 16, 12, 4, 0).unwrap_err().message(), "unsupported domain size");
    assert_eq!(Params::new(6, 15, 12, 4, 0).unwrap_err().message(), "unsupported domain size");
    assert_eq!(Params::new(4097, 16, 12, 4, 0).unwrap_err().message(), "unsupported domain size");
    assert_eq!(Params::new(6, 32768, 12, 4, 0).unwrap_err().message(), "unsupported domain size");
    assert_eq!(Params::new(6, 16, 1, 4, 0).unwrap_err().message(), "invalid code dimensions");
    assert_eq!(Params::new(6, 16, 12, 0, 0).unwrap_err().message(), "invalid code dimensions");
    assert_eq!(Params::new(6, 16, 12, 6, 1).unwrap_err().message(), "invalid code dimensions");
    assert_eq!(Params::new(6, 16, 12, 4, 12).unwrap_err().message(), "invalid code dimensions");
    assert_eq!(
        Params::new(4096, 2048, 12, 4, 0).unwrap_err().message(),
        "experiment size limit exceeded"
    );
    assert!(Params::new(4096, 1024, 12, 4, 0).is_ok());
    assert!(Params::new(6, 16, 12, 6, 0).is_ok());
}

#[test]
fn powers_of_two() {
    for x in [1usize, 2, 4, 1024, 16384, 1 << 40] {
        assert!(is_power_of_two(x));
    }
    for x in [0usize, 3, 6, 12, 1023, 16385, usize::MAX] {
        assert!(!is_power_of_two(x));
    }
}

#[test]
fn scheme_names() {
    assert_eq!(Scheme::Lrdas.name(), "lrdas");
    assert_eq!(Scheme::Product.name(), "product");
}
