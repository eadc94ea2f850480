use rustymill::constr::{find_bicliques, pop, push, Biclique, ConstrGraph, CostCoeffs, Delta, EdgeInfo, Side, VertexId};
use rustymill::rational::{checked_add, checked_mul, Rational};
use rustymill::repr::{Factor, IndexId, RangeId, TensorId, Term};
use rustymill::rl_parenth::LastStepIndices;

fn vertex(tensor: u32) -> Term {
    Term {
        coeff: Rational::from_integer(1),
        sum_indices: vec![],
        factors: vec![Factor { tensor: TensorId(tensor), indices: vec![IndexId(0)] }],
    }
}

fn edge(u: usize, v: usize, term: usize, num: i64) -> (VertexId, VertexId, EdgeInfo) {
    (VertexId(u), VertexId(v), EdgeInfo { term_idx: term, eval_idx: 0, coeff: Rational::from_integer(num), exc_cost: 0 })
}

#[test]
fn test_found_bicliques_factor_with_their_leading_coefficient() {
    // Left vertices 0, 1; right vertices 2, 3. Edge coefficients
    // 4 * (1, 3) x (1, 2): 4, 8, 12, 24.
    let graph = ConstrGraph {
        vertices: vec![vertex(1), vertex(2), vertex(3), vertex(4)],
        vertex_side: vec![Side::Left, Side::Left, Side::Right, Side::Right],
        edges: vec![edge(0, 2, 0, 4), edge(0, 3, 1, 8), edge(1, 2, 2, 12), edge(1, 3, 3, 24)],
        last_step: LastStepIndices { left_ext: 1, right_ext: 2, sums: vec![RangeId(0)] },
    };
    let coeffs = CostCoeffs { saving: 100, left: 1, right: 1 };
    let found = find_bicliques(&graph, &coeffs).unwrap();
    assert!(!found.is_empty());
    for b in &found {
        let lead = b.leading_coeff.unwrap();
        for (l, lc) in &b.left_verts {
            for (r, rc) in &b.right_verts {
                let mut total = Rational::zero();
                for (u, v, info) in &graph.edges {
                    if (u == l && v == r) || (u == r && v == l) {
                        total = checked_add(&total, &info.coeff).unwrap();
                    }
                }
                let product = checked_mul(&checked_mul(&lead, lc).unwrap(), rc).unwrap();
                assert!(total.equals(&product));
            }
        }
    }
}

#[test]
fn test_pop_undoes_push() {
    let mut b = Biclique {
        left_verts: vec![(VertexId(0), Rational::from_integer(1))],
        right_verts: vec![],
        leading_coeff: None,
        terms_used: 0b0011,
        saving: 7,
    };
    let dq = Delta {
        coeff: Rational::new(3, 2),
        leading_coeff: Some(Rational::from_integer(5)),
        terms: 0b1100,
        exc_cost: 0,
        saving: 5,
    };
    push(&mut b, VertexId(4), Side::Right, &dq);
    assert_eq!(b.right_verts.len(), 1);
    assert_eq!(b.terms_used, 0b1111);
    assert_eq!(b.leading_coeff, Some(Rational::from_integer(5)));
    pop(&mut b, VertexId(4), Side::Right, &dq);
    assert_eq!(b.left_verts, vec![(VertexId(0), Rational::from_integer(1))]);
    assert!(b.right_verts.is_empty());
    assert_eq!(b.terms_used, 0b0011);
    assert_eq!(b.saving, 7);
    assert_eq!(b.leading_coeff, None);
}

#[test]
fn test_find_bicliques_reports_saving_overflow() {
    let graph = ConstrGraph {
        vertices: vec![vertex(1), vertex(2), vertex(3), vertex(4)],
        vertex_side: vec![Side::Left, Side::Left, Side::Right, Side::Right],
        edges: vec![edge(0, 2, 0, 4), edge(0, 3, 1, 8), edge(1, 2, 2, 12), edge(1, 3, 3, 24)],
        last_step: LastStepIndices { left_ext: 1, right_ext: 2, sums: vec![RangeId(0)] },
    };
    let coeffs = CostCoeffs { saving: 100, left: 1u64 << 63, right: 1 };
    assert!(find_bicliques(&graph, &coeffs).is_none());
}
