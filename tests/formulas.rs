use gang::{
    geometric_product, impl_mul_bases, mul_bases, partition, rotate, rotation_matrix, sandwich,
    wedge_product, Basis, Element, LinearCombination, LinearCombinations, MvKind, Sign,
};

fn e(v: &[u32]) -> Element {
    Element(v.to_vec())
}

fn component(basis: &Basis, values: &[f64], blade: &Element) -> f64 {
    basis.0.iter().position(|b| b == blade).map(|i| values[i]).unwrap_or(0.0)
}

fn eval(f: &LinearCombination, operands: &[(&Basis, &[f64])]) -> f64 {
    let mut total = 0.0;
    for (s, factors) in &f.0 {
        let mut v = if *s == Sign::Pos { 1.0 } else { -1.0 };
        for (k, b) in factors.iter().enumerate() {
            v *= component(operands[k].0, operands[k].1, b);
        }
        total += v;
    }
    total
}

/// Rotor components for a rotation by `angle` in the plane of the bivector `v2`.
fn rotor_from_angle(rotor: &Basis, bivectors: &Basis, v2: &[f64], angle: f64) -> Vec<f64> {
    let (s, c) = (angle / 2.0).sin_cos();
    rotor
        .0
        .iter()
        .map(|b| match b.grade() {
            0 => c,
            2 => component(bivectors, v2, b) * s,
            _ => 0.0,
        })
        .collect()
}

fn apply(rotor: &Basis, rv: &[f64], x: &Basis, xv: &[f64]) -> Vec<f64> {
    let r = rotate(rotor, x);
    r.0.iter().map(|(_, f)| eval(f, &[(rotor, rv), (x, xv), (rotor, rv)])).collect()
}

#[test]
fn unit_formulas() {
    let one = LinearCombination::one();
    assert_eq!(one.0, vec![(Sign::Pos, Vec::<Element>::new())]);
    assert!(LinearCombinations::zero().0.is_empty());
    let ones = LinearCombinations::one();
    assert_eq!(ones.0.len(), 1);
    assert_eq!(ones.0[0].0, e(&[]));
    assert_eq!(ones.0[0].1 .0, one.0);
}

#[test]
fn extension_merges_terms_by_output_blade() {
    let first = impl_mul_bases(&LinearCombinations::one(), &[(Sign::Pos, e(&[0])), (Sign::Neg, e(&[1]))]);
    assert_eq!(first.output_blades(), vec![e(&[0]), e(&[1])]);
    assert_eq!(first.0[1].1 .0, vec![(Sign::Neg, vec![e(&[1])])]);
    let second = impl_mul_bases(&first, &[(Sign::Pos, e(&[0])), (Sign::Pos, e(&[1]))]);
    assert_eq!(second.output_blades(), vec![e(&[]), e(&[0, 1])]);
    assert_eq!(
        second.0[0].1 .0,
        vec![(Sign::Pos, vec![e(&[0]), e(&[0])]), (Sign::Neg, vec![e(&[1]), e(&[1])])]
    );
    assert_eq!(
        second.0[1].1 .0,
        vec![(Sign::Pos, vec![e(&[0]), e(&[1])]), (Sign::Pos, vec![e(&[1]), e(&[0])])]
    );
}

#[test]
fn output_keys_follow_canonical_order() {
    let p = partition(3).unwrap();
    let r = geometric_product(&p.kvectors[1], &p.kvectors[1]);
    assert_eq!(r.output_blades(), vec![e(&[]), e(&[0, 1]), e(&[0, 2]), e(&[1, 2])]);
    assert_eq!(gang::infer(&r.output_blades()), MvKind::Rotor);
    let chained = mul_bases(&[&p.kvectors[1], &p.kvectors[1]]);
    assert_eq!(chained.output_blades(), r.output_blades());
}

#[test]
fn geometric_product_of_vectors_in_two_dimensions() {
    let p = partition(2).unwrap();
    let v = &p.kvectors[1];
    let r = geometric_product(v, v);
    let a = [3.0, 4.0];
    let b = [5.0, -2.0];
    let values: Vec<f64> = r.0.iter().map(|(_, f)| eval(f, &[(v, &a), (v, &b)])).collect();
    // scalar: a.b, bivector: a0 b1 - a1 b0
    assert_eq!(values, vec![7.0, -26.0]);
}

#[test]
fn wedge_of_orthogonal_vectors_is_unit_bivector() {
    let p = partition(2).unwrap();
    let v = &p.kvectors[1];
    let w = wedge_product(v, 1, v, 1);
    assert_eq!(w.output_blades(), vec![e(&[0, 1])]);
    let value = eval(&w.0[0].1, &[(v, &[1.0, 0.0]), (v, &[0.0, 1.0])]);
    assert_eq!(value, 1.0);
}

#[test]
fn wedge_of_vector_with_itself_vanishes() {
    let p = partition(2).unwrap();
    let v = &p.kvectors[1];
    let w = wedge_product(v, 1, v, 1);
    assert!(w.0.iter().all(|(k, _)| k.grade() == 2));
    let value = eval(&w.0[0].1, &[(v, &[1.0, 0.0]), (v, &[1.0, 0.0])]);
    assert_eq!(value, 0.0);
}

#[test]
fn wedge_of_vector_and_bivector_in_three_dimensions() {
    let p = partition(3).unwrap();
    let w = wedge_product(&p.kvectors[1], 1, &p.kvectors[2], 2);
    assert_eq!(w.output_blades(), vec![e(&[0, 1, 2])]);
    assert_eq!(w.0[0].1 .0.len(), 3);
    let w2 = wedge_product(&p.kvectors[2], 2, &p.kvectors[2], 2);
    assert!(w2.0.is_empty());
}

#[test]
fn identity_rotor_keeps_every_grade() {
    for dim in 1..=4u32 {
        let p = partition(dim).unwrap();
        let mut identity = vec![0.0; p.rotor.0.len()];
        identity[0] = 1.0;
        for x in &p.kvectors {
            let xv: Vec<f64> = (0..x.0.len()).map(|i| 1.5 + i as f64 * 2.0).collect();
            assert_eq!(apply(&p.rotor, &identity, x, &xv), xv);
        }
        let xv: Vec<f64> = (0..p.canonical.0.len()).map(|i| i as f64 - 3.0).collect();
        assert_eq!(apply(&p.rotor, &identity, &p.canonical, &xv), xv);
    }
}

#[test]
fn quarter_turn_in_three_dimensions() {
    let p = partition(3).unwrap();
    let rv = rotor_from_angle(&p.rotor, &p.kvectors[2], &[1.0, 0.0, 0.0], std::f64::consts::PI / 2.0);
    let out = apply(&p.rotor, &rv, &p.kvectors[1], &[1.0, 2.0, 3.0]);
    let expected = [2.0, -1.0, 3.0];
    for i in 0..3 {
        assert!((out[i] - expected[i]).abs() < 1e-6, "{:?}", out);
    }
}

#[test]
fn rotation_round_trip() {
    let p = partition(3).unwrap();
    let planes = [[1.0, 0.0, 0.0], [0.0, 0.6, 0.8], [0.48, 0.6, 0.64]];
    let x = [0.3, -1.7, 2.5];
    for plane in &planes {
        for angle in [0.1, 1.0, 2.5, -3.0, 7.0] {
            let forward = rotor_from_angle(&p.rotor, &p.kvectors[2], plane, angle);
            let back = rotor_from_angle(&p.rotor, &p.kvectors[2], plane, -angle);
            let once = apply(&p.rotor, &forward, &p.kvectors[1], &x);
            let twice = apply(&p.rotor, &back, &p.kvectors[1], &once);
            for i in 0..3 {
                assert!((twice[i] - x[i]).abs() < 1e-9);
            }
        }
    }
}

#[test]
fn rotation_in_two_dimensions_round_trips() {
    let p = partition(2).unwrap();
    let x = [4.0, -1.0];
    for angle in [0.3, 1.7, -2.2] {
        let forward = rotor_from_angle(&p.rotor, &p.kvectors[2], &[1.0], angle);
        let back = rotor_from_angle(&p.rotor, &p.kvectors[2], &[1.0], -angle);
        let once = apply(&p.rotor, &forward, &p.kvectors[1], &x);
        let twice = apply(&p.rotor, &back, &p.kvectors[1], &once);
        for i in 0..2 {
            assert!((twice[i] - x[i]).abs() < 1e-9);
        }
    }
}

#[test]
fn sandwich_terms_have_three_factors() {
    let p = partition(3).unwrap();
    let s = sandwich(&p.rotor, &p.kvectors[1]);
    let r = rotate(&p.rotor, &p.kvectors[1]);
    assert_eq!(r.output_blades(), p.kvectors[1].0);
    for (_, f) in &s.0 {
        for (_, factors) in &f.0 {
            assert_eq!(factors.len(), 3);
            assert!(p.kvectors[1].0.contains(&factors[1]));
        }
    }
}

#[test]
fn rotation_matrix_agrees_with_rotation() {
    for dim in 2..=4u32 {
        let p = partition(dim).unwrap();
        let x = &p.kvectors[1];
        let n = x.0.len();
        let m = rotation_matrix(&p.rotor, x);
        assert_eq!(m.len(), n * n);
        let rv: Vec<f64> = (0..p.rotor.0.len()).map(|i| 0.5 - 0.3 * i as f64).collect();
        let xv: Vec<f64> = (0..n).map(|i| 1.0 + i as f64).collect();
        let rotated = apply(&p.rotor, &rv, x, &xv);
        for row in 0..n {
            let mut sum = 0.0;
            for col in 0..n {
                sum += eval(&m[row + col * n], &[(&p.rotor, &rv), (&p.rotor, &rv)]) * xv[col];
            }
            assert!((sum - rotated[row]).abs() < 1e-9);
        }
    }
}

#[test]
fn derivation_is_deterministic() {
    let p = partition(4).unwrap();
    let first = format!("{:?}", sandwich(&p.rotor, &p.kvectors[2]));
    let second = format!("{:?}", sandwich(&p.rotor, &p.kvectors[2]));
    assert_eq!(first, second);
    let m1 = format!("{:?}", rotation_matrix(&p.rotor, &p.kvectors[1]));
    let m2 = format!("{:?}", rotation_matrix(&p.rotor, &p.kvectors[1]));
    assert_eq!(m1, m2);
}

#[test]
fn product_of_nonempty_operands_is_nonempty() {
    for dim in 1..=3u32 {
        let p = partition(dim).unwrap();
        for a in &p.kvectors {
            for b in &p.kvectors {
                assert!(!geometric_product(a, b).0.is_empty());
            }
        }
    }
}

#[test]
fn rotor_times_rotor_is_a_rotor() {
    let p = partition(3).unwrap();
    let r = geometric_product(&p.rotor, &p.rotor);
    assert_eq!(r.output_blades(), p.rotor.0);
    assert_eq!(gang::infer(&r.output_blades()), MvKind::Rotor);
}
