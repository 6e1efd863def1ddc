use gang::{canonical_basis, infer, partition, DeriveError, Element, MvKind, Sign, MAX_DIMENSION};

fn e(v: &[u32]) -> Element {
    Element(v.to_vec())
}

#[test]
fn vector_squares_to_positive_scalar() {
    for i in 0..5u32 {
        let (s, b) = e(&[i]).product(&e(&[i]));
        assert_eq!(s, Sign::Pos);
        assert_eq!(b, e(&[]));
    }
}

#[test]
fn distinct_vectors_anticommute() {
    for i in 0..4u32 {
        for j in 0..4u32 {
            if i == j {
                continue;
            }
            let (s1, b1) = e(&[i]).product(&e(&[j]));
            let (s2, b2) = e(&[j]).product(&e(&[i]));
            assert_eq!(b1, b2);
            assert_ne!(s1, s2);
        }
    }
    assert_eq!(e(&[0]).product(&e(&[1])), (Sign::Pos, e(&[0, 1])));
    assert_eq!(e(&[1]).product(&e(&[0])), (Sign::Neg, e(&[0, 1])));
}

#[test]
fn blade_products() {
    assert_eq!(e(&[0, 1]).product(&e(&[0, 1])), (Sign::Neg, e(&[])));
    assert_eq!(e(&[0]).product(&e(&[0, 1])), (Sign::Pos, e(&[1])));
    assert_eq!(e(&[1]).product(&e(&[0, 1])), (Sign::Neg, e(&[0])));
    assert_eq!(e(&[0, 2]).product(&e(&[1])), (Sign::Neg, e(&[0, 1, 2])));
    assert_eq!(e(&[]).product(&e(&[1, 2])), (Sign::Pos, e(&[1, 2])));
    assert_eq!(e(&[0, 1, 2]).product(&e(&[0, 1, 2])), (Sign::Neg, e(&[])));
    assert_eq!(e(&[1, 3]).product(&e(&[0, 1, 2])), (Sign::Pos, e(&[0, 2, 3])));
    assert_eq!(e(&[2]).product(&e(&[0, 1])), (Sign::Pos, e(&[0, 1, 2])));
    assert_eq!(e(&[1]).product(&e(&[0, 2])), (Sign::Neg, e(&[0, 1, 2])));
}

#[test]
fn product_is_associative() {
    let basis = canonical_basis(3).unwrap();
    for a in &basis.0 {
        for b in &basis.0 {
            for c in &basis.0 {
                let (s1, ab) = a.product(b);
                let (s2, left) = ab.product(c);
                let (s3, bc) = b.product(c);
                let (s4, right) = a.product(&bc);
                assert_eq!(left, right);
                assert_eq!(s1 * s2, s3 * s4);
            }
        }
    }
}

#[test]
fn signs_multiply() {
    assert_eq!(Sign::Pos * Sign::Pos, Sign::Pos);
    assert_eq!(Sign::Pos * Sign::Neg, Sign::Neg);
    assert_eq!(Sign::Neg * Sign::Pos, Sign::Neg);
    assert_eq!(Sign::Neg * Sign::Neg, Sign::Pos);
    assert_eq!(Sign::from(1), Sign::Pos);
    assert_eq!(Sign::from(0), Sign::Pos);
    assert_eq!(Sign::from(-1), Sign::Neg);
}

#[test]
fn grade_counts_indices() {
    assert_eq!(e(&[]).grade(), 0);
    assert_eq!(e(&[0, 2, 3]).grade(), 3);
}

#[test]
fn blade_order_is_grade_then_lexicographic() {
    assert!(e(&[2]).precedes(&e(&[0, 1])));
    assert!(e(&[0, 2]).precedes(&e(&[1, 2])));
    assert!(!e(&[1, 2]).precedes(&e(&[0, 2])));
    assert!(!e(&[0, 1]).precedes(&e(&[0, 1])));
    assert!(e(&[0, 1]).same(&e(&[0, 1])));
    assert!(!e(&[0, 1]).same(&e(&[0, 2])));
}

#[test]
fn canonical_basis_of_three() {
    let b = canonical_basis(3).unwrap();
    let expected = vec![
        e(&[]),
        e(&[0]),
        e(&[1]),
        e(&[2]),
        e(&[0, 1]),
        e(&[0, 2]),
        e(&[1, 2]),
        e(&[0, 1, 2]),
    ];
    assert_eq!(b.0, expected);
}

#[test]
fn invalid_dimensions_are_rejected() {
    assert_eq!(canonical_basis(0).unwrap_err(), DeriveError::InvalidDimension);
    assert_eq!(canonical_basis(MAX_DIMENSION + 1).unwrap_err(), DeriveError::InvalidDimension);
    assert!(partition(0).is_err());
    assert!(canonical_basis(MAX_DIMENSION).is_ok());
    assert_eq!(canonical_basis(MAX_DIMENSION).unwrap().0.len(), 1 << MAX_DIMENSION);
}

#[test]
fn grade_parts_cover_the_basis() {
    for dim in 1..=5u32 {
        let p = partition(dim).unwrap();
        assert_eq!(p.kvectors.len(), dim as usize + 1);
        let mut all: Vec<Element> = Vec::new();
        for (k, part) in p.kvectors.iter().enumerate() {
            for b in &part.0 {
                assert_eq!(b.grade(), k);
                assert!(!all.contains(b));
                all.push(b.clone());
            }
        }
        assert_eq!(all.len(), 1 << dim);
        for b in &p.canonical.0 {
            assert!(all.contains(b));
        }
    }
}

#[test]
fn partition_of_three() {
    let p = partition(3).unwrap();
    let sizes: Vec<usize> = p.kvectors.iter().map(|b| b.0.len()).collect();
    assert_eq!(sizes, vec![1, 3, 3, 1]);
    assert_eq!(p.rotor.0, vec![e(&[]), e(&[0, 1]), e(&[0, 2]), e(&[1, 2])]);
}

#[test]
fn kinds_of_the_parts() {
    for dim in 1..=5u32 {
        let p = partition(dim).unwrap();
        for (k, part) in p.kvectors.iter().enumerate() {
            assert_eq!(infer(&part.0), MvKind::KVector(k));
        }
        assert_eq!(infer(&p.canonical.0), MvKind::General);
        if dim >= 2 {
            assert_eq!(infer(&p.rotor.0), MvKind::Rotor);
        } else {
            assert_eq!(infer(&p.rotor.0), MvKind::KVector(0));
        }
    }
}

#[test]
fn get_elements_filters_by_kind() {
    let b = canonical_basis(3).unwrap();
    assert_eq!(MvKind::KVector(2).get_elements(&b.0), vec![e(&[0, 1]), e(&[0, 2]), e(&[1, 2])]);
    assert_eq!(MvKind::Rotor.get_elements(&b.0), vec![e(&[]), e(&[0, 1]), e(&[0, 2]), e(&[1, 2])]);
    assert_eq!(MvKind::General.get_elements(&b.0), b.0);
    assert_eq!(MvKind::KVector(4).get_elements(&b.0), Vec::<Element>::new());
}

#[test]
fn infer_mixed_odd_grades_is_general() {
    assert_eq!(infer(&[e(&[0]), e(&[0, 1, 2])]), MvKind::General);
    assert_eq!(infer(&[e(&[]), e(&[0])]), MvKind::General);
    assert_eq!(infer(&[e(&[0, 1, 2, 3]), e(&[0, 1])]), MvKind::Rotor);
}
