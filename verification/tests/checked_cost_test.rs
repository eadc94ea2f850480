use rustymill::cost::{checked_def_cost, checked_total_cost, total_cost};
use rustymill::rational::Rational;
use rustymill::repr::{Factor, Index, IndexId, TensorComputation, TensorId, Term};

fn contraction(size: u64) -> TensorComputation {
    let mut comp = TensorComputation::new();
    let occ = comp.add_range(size);
    let _a = comp.add_tensor(&[occ, occ], vec![]);
    let _b = comp.add_tensor(&[occ, occ], vec![]);
    let t = comp.add_tensor(&[occ, occ], vec![]);
    let (a, b, c) = (IndexId(0), IndexId(1), IndexId(2));
    comp.add_definition(
        t,
        vec![Index { id: a, range: occ }, Index { id: b, range: occ }],
        vec![Term {
            coeff: Rational::from_integer(1),
            sum_indices: vec![Index { id: c, range: occ }],
            factors: vec![
                Factor { tensor: TensorId(0), indices: vec![a, c] },
                Factor { tensor: TensorId(1), indices: vec![c, b] },
            ],
        }],
    );
    comp
}

#[test]
fn test_checked_total_cost_matches_total_cost() {
    let comp = contraction(10);
    assert_eq!(checked_total_cost(&comp), Some(total_cost(&comp)));
    assert_eq!(checked_total_cost(&comp), Some(2100));
}

#[test]
fn test_checked_def_cost_overflow_is_none() {
    let comp = contraction(1 << 22);
    assert_eq!(checked_def_cost(&comp.definitions()[0], comp.ranges()), None);
    assert_eq!(checked_total_cost(&comp), None);
}

#[test]
fn test_checked_def_cost_unknown_range_is_none() {
    let mut comp = contraction(10);
    let t = comp.add_tensor(&[], vec![]);
    comp.add_definition(
        t,
        vec![Index { id: IndexId(0), range: rustymill::repr::RangeId(7) }],
        vec![],
    );
    assert_eq!(checked_total_cost(&comp), None);
}
