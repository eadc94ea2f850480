use rustymill::optimize::next_decision;
use rustymill::rational::Rational;
use rustymill::repr::{Factor, Index, IndexId, TensorComputation, TensorId, Term};

fn shared_factor_computation() -> TensorComputation {
    // t[a,b] = X[a,c]*Z[c,b] + Y[a,c]*Z[c,b]
    let mut comp = TensorComputation::new();
    let occ = comp.add_range(10);
    let _x = comp.add_tensor(&[occ, occ], vec![]);
    let _y = comp.add_tensor(&[occ, occ], vec![]);
    let _z = comp.add_tensor(&[occ, occ], vec![]);
    let t = comp.add_tensor(&[occ, occ], vec![]);
    let (a, b, c) = (IndexId(0), IndexId(1), IndexId(2));
    let ext = vec![Index { id: a, range: occ }, Index { id: b, range: occ }];
    let term = |x: u32| Term {
        coeff: Rational::from_integer(1),
        sum_indices: vec![Index { id: c, range: occ }],
        factors: vec![
            Factor { tensor: TensorId(x), indices: vec![a, c] },
            Factor { tensor: TensorId(2), indices: vec![c, b] },
        ],
    };
    comp.add_definition(t, ext, vec![term(0), term(1)]);
    comp
}

#[test]
fn test_offered_factorizations_number_intermediates_from_next_tensor() {
    let comp = shared_factor_computation();
    let next = comp.next_tensor_id();
    let (def_index, facts) = next_decision(&comp, 0).expect("a profitable factorization");
    assert_eq!(def_index, 0);
    assert!(!facts.is_empty());
    for f in &facts {
        assert!(f.saving > 0);
        assert_eq!(f.replacement_term.factors.len(), 2);
        assert!(f.intermediates.len() <= 2);
        for (k, d) in f.intermediates.iter().enumerate() {
            assert_eq!(d.base.0, next.0 + k as u32);
            assert!(!d.terms.is_empty());
            // each intermediate ends with the replacement's summation indices
            let n = d.ext_indices.len();
            let m = f.replacement_term.sum_indices.len();
            assert!(n >= m);
            assert_eq!(&d.ext_indices[n - m..], &f.replacement_term.sum_indices[..]);
            // and one replacement factor contracts it over its external indices
            let ids: Vec<IndexId> = d.ext_indices.iter().map(|i| i.id).collect();
            assert!(f
                .replacement_term
                .factors
                .iter()
                .any(|fac| fac.tensor == d.base && fac.indices == ids));
        }
        for w in f.terms_consumed.windows(2) {
            assert!(w[0] < w[1]);
        }
    }
}

#[test]
fn test_offered_factorizations_sorted_by_saving() {
    let comp = shared_factor_computation();
    let (_, facts) = next_decision(&comp, 0).expect("a profitable factorization");
    for w in facts.windows(2) {
        assert!(w[0].saving >= w[1].saving);
    }
}

#[test]
fn test_no_decision_past_the_last_definition() {
    let comp = shared_factor_computation();
    assert!(next_decision(&comp, 1).is_none());
}
