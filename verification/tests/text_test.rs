use rustymill::rational::Rational;
use rustymill::repr::{Factor, Index, IndexId, RangeId, TensorComputation, TensorDef, TensorId, Term};

fn factor(t: u32, ids: &[u32]) -> Factor {
    Factor { tensor: TensorId(t), indices: ids.iter().map(|&i| IndexId(i)).collect() }
}

#[test]
fn test_factor_text() {
    assert_eq!(factor(3, &[0, 2]).to_string(), "3[0, 2]");
    assert_eq!(factor(12, &[]).to_string(), "12[]");
}

#[test]
fn test_term_text_with_sums_and_fraction() {
    let t = Term {
        coeff: Rational::new(-1, 2),
        sum_indices: vec![Index { id: IndexId(2), range: RangeId(0) }],
        factors: vec![factor(0, &[0, 2]), factor(1, &[2, 1])],
    };
    assert_eq!(t.to_string(), "\u{3a3}[2] -1/2 * 0[0, 2] * 1[2, 1]");
}

#[test]
fn test_term_text_unit_coefficient_is_omitted() {
    let t = Term {
        coeff: Rational::from_integer(1),
        sum_indices: vec![],
        factors: vec![factor(0, &[0]), factor(1, &[0])],
    };
    assert_eq!(t.to_string(), "0[0] * 1[0]");
}

#[test]
fn test_term_text_without_factors() {
    let one = Term { coeff: Rational::from_integer(1), sum_indices: vec![], factors: vec![] };
    assert_eq!(one.to_string(), "1");
    let three = Term { coeff: Rational::from_integer(3), sum_indices: vec![], factors: vec![] };
    assert_eq!(three.to_string(), "3");
    let summed = Term {
        coeff: Rational::from_integer(1),
        sum_indices: vec![Index { id: IndexId(4), range: RangeId(0) }],
        factors: vec![],
    };
    assert_eq!(summed.to_string(), "\u{3a3}[4] ");
}

#[test]
fn test_def_and_computation_text() {
    let d = TensorDef {
        base: TensorId(4),
        ext_indices: vec![Index { id: IndexId(0), range: RangeId(0) }, Index { id: IndexId(1), range: RangeId(0) }],
        terms: vec![
            Term { coeff: Rational::from_integer(2), sum_indices: vec![], factors: vec![factor(0, &[0, 1])] },
            Term { coeff: Rational::from_integer(1), sum_indices: vec![], factors: vec![factor(1, &[0, 1])] },
        ],
    };
    assert_eq!(d.to_string(), "4[0, 1] = 2 * 0[0, 1] + 1[0, 1]");
    let empty = TensorDef { base: TensorId(5), ext_indices: vec![], terms: vec![] };
    assert_eq!(empty.to_string(), "5[] = 0");

    let mut comp = TensorComputation::new();
    assert_eq!(comp.to_string(), "");
    comp.add_definition(d.base, d.ext_indices.clone(), d.terms.clone());
    comp.add_definition(TensorId(5), vec![], vec![]);
    assert_eq!(comp.to_string(), "4[0, 1] = 2 * 0[0, 1] + 1[0, 1]\n5[] = 0");
}

#[test]
fn test_large_and_negative_coefficients_text() {
    let t = Term { coeff: Rational::new(i64::MIN, 1), sum_indices: vec![], factors: vec![] };
    assert_eq!(t.to_string(), "-9223372036854775808");
    let u = Term { coeff: Rational::new(7, -3), sum_indices: vec![], factors: vec![factor(0, &[])] };
    assert_eq!(u.to_string(), "-7/3 * 0[]");
}
