use rustymill::optimize::SearchState;
use rustymill::rational::Rational;
use rustymill::repr::{Factor, Index, IndexId, TensorComputation, TensorId, Term};

fn shared_factor_computation() -> TensorComputation {
    // t[a,b] = X[a,c]*Z[c,b] + Y[a,c]*Z[c,b]
    let mut comp = TensorComputation::new();
    let occ = comp.add_range(10);
    let _x = comp.add_tensor(&[occ, occ], vec![]);
    let _y = comp.add_tensor(&[occ, occ], vec![]);
    let _z = comp.add_tensor(&[occ, occ], vec![]);
    let t = comp.add_tensor(&[occ, occ], vec![]);
    let (a, b, c) = (IndexId(0), IndexId(1), IndexId(2));
    let ext = vec![Index { id: a, range: occ }, Index { id: b, range: occ }];
    let term = |x: u32| Term {
        coeff: Rational::from_integer(1),
        sum_indices: vec![Index { id: c, range: occ }],
        factors: vec![
            Factor { tensor: TensorId(x), indices: vec![a, c] },
            Factor { tensor: TensorId(2), indices: vec![c, b] },
        ],
    };
    comp.add_definition(t, ext, vec![term(0), term(1)]);
    comp
}

#[test]
fn test_search_state_starts_at_the_first_decision() {
    let st = SearchState::new(shared_factor_computation(), 0);
    assert!(!st.is_terminal());
    assert_eq!(st.def_idx, 0);
    assert!(!st.available_actions().is_empty());
}

#[test]
fn test_search_state_past_the_definitions_is_terminal() {
    let st = SearchState::new(shared_factor_computation(), 1);
    assert!(st.is_terminal());
    assert_eq!(st.def_idx, 0);
    assert!(st.available_actions().is_empty());
}

#[test]
fn test_search_state_apply_installs_the_factorization() {
    let mut st = SearchState::new(shared_factor_computation(), 0);
    let actions = st.available_actions();
    let best = actions[0].clone();
    let tensors_before = st.comp.tensors().len();
    let defs_before = st.comp.definitions().len();
    st.apply_action(&best);
    assert_eq!(st.comp.tensors().len(), tensors_before + best.intermediates.len());
    assert_eq!(st.comp.definitions().len(), defs_before + best.intermediates.len());
    assert!(st.is_terminal() || st.def_idx < st.comp.definitions().len());
}
