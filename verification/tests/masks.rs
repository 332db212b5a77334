use lrdas_artifact::domain::{Domain, Params};
use lrdas_artifact::recovery::{erased, pattern_counts};
use lrdas_artifact::separation::{rectangle, ErasureMask};

#[test]
fn diagonal_pattern_counts() {
    let p = Params::smoke();
    let (groups, rows) = pattern_counts(p).unwrap();
    assert!(groups.iter().all(|n| *n == p.r() - 1));
    assert!(rows.iter().all(|n| *n >= p.a()));
    let (groups, rows) = pattern_counts(Params::reference()).unwrap();
    assert!(groups.iter().all(|n| *n == 767));
    assert_eq!(*rows.iter().min().unwrap(), 92);
}

#[test]
fn diagonal_pattern_membership_and_dimensions() {
    let p = Params::smoke();
    // Group 0 starts at row 0 and loses rows 0..=4.
    assert!(erased(p, 0, 0).unwrap());
    assert!(erased(p, 0, 4).unwrap());
    assert!(!erased(p, 0, 5).unwrap());
    // Group 4 starts at row 16 * 4 / 6 = 10.
    assert!(!erased(p, 4, 9).unwrap());
    assert!(erased(p, 4, 10).unwrap());
    assert!(erased(p, 4, 14).unwrap());
    assert!(!erased(p, 4, 15).unwrap());
    assert!(erased(p, p.ell(), 0).is_err());
    assert!(erased(p, 0, p.m()).is_err());
    let residual = Params::new(6, 16, 12, 4, 1).unwrap();
    assert_eq!(
        erased(residual, 0, 0).unwrap_err().message(),
        "diagonal pattern dimensions"
    );
    assert!(pattern_counts(residual).is_err());
    let wide = Params::new(32, 16, 12, 4, 0).unwrap();
    assert!(pattern_counts(wide).is_err());
}

#[test]
fn malformed_masks_are_rejected() {
    let p = Params::smoke();
    assert!(ErasureMask::new(p, &[(0, 0), (0, 0)]).is_err());
    assert!(ErasureMask::new(p, &[(p.ell(), 0)]).is_err());
    assert!(ErasureMask::new(p, &[(0, p.m())]).is_err());
    assert_eq!(
        ErasureMask::new(p, &[(1, 2), (1, 2)]).err().unwrap().message(),
        "duplicate erasure coordinate"
    );
    assert_eq!(
        ErasureMask::new(p, &[(1, 2), (0, 99), (1, 2)]).err().unwrap().message(),
        "erasure coordinate"
    );
    let mut empty = ErasureMask::new(p, &[]).unwrap();
    assert!(empty.restore(0, 0).is_err());
    assert_eq!(empty.count(), 0);
}

#[test]
fn mask_queries_restore_and_counts() {
    let p = Params::new(5, 8, 6, 3, 0).unwrap();
    let mut mask = ErasureMask::new(p, &[(0, 0), (3, 7), (4, 3), (3, 3)]).unwrap();
    assert_eq!(mask.count(), 4);
    assert!(mask.contains(3, 7).unwrap());
    assert!(!mask.contains(3, 6).unwrap());
    assert!(mask.contains(5, 0).is_err());
    let bytes = mask.bytes();
    assert_eq!(bytes.len(), 40);
    assert_eq!(bytes.iter().filter(|b| **b == 1).count(), 4);
    assert_eq!(bytes[3 * 8 + 7], 1);
    assert_eq!(bytes[3 * 8 + 6], 0);
    let (groups, rows) = mask.survivor_counts();
    assert_eq!(groups, vec![7, 8, 8, 6, 7]);
    assert_eq!(rows, vec![4, 5, 5, 3, 5, 5, 5, 4]);
    let before = mask.clone();
    mask.restore(3, 7).unwrap();
    assert_eq!(mask.count(), 3);
    assert!(!mask.contains(3, 7).unwrap());
    assert!(before.contains(3, 7).unwrap());
    assert_eq!(
        mask.restore(3, 7).unwrap_err().message(),
        "symbol is not erased"
    );
    assert_eq!(mask.restore(9, 0).unwrap_err().message(), "erasure coordinate");
}

#[test]
fn rectangle_erases_exactly_the_product_distance() {
    let p = Params::new(6, 16, 12, 4, 0).unwrap();
    let d = Domain::new(p).unwrap();
    let mask = rectangle(&d, &[0, 2, 5], &[1, 3, 8, 9, 15]).unwrap();
    assert_eq!(mask.count(), (p.ell() - p.a() + 1) * (p.m() - p.r() + 1));
    assert_eq!(mask.count(), 15);
    assert!(rectangle(&d, &[0, 2, 2], &[1, 3, 8, 9, 15]).is_err());
    let mask = ErasureMask::new(p, &[(0, 0), (3, 7), (4, 3), (3, 3)]).unwrap();
    assert_eq!(mask.count(), 4);
}

#[test]
fn group_survivors_and_erasures_cover_the_grid() {
    let p = Params::smoke();
    let mask = ErasureMask::new(p, &[(0, 0), (3, 7), (4, 3), (3, 3)]).unwrap();
    let (groups, _) = mask.survivor_counts();
    assert_eq!(groups.len(), p.ell());
    assert_eq!(groups.iter().sum::<usize>() + mask.count(), p.ell() * p.m());
    assert_eq!(groups[3], p.m() - 2);
}
