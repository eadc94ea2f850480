use rustymill::biclique::{enumerate_bicliques, ConstrGraph, GraphEdge};
use rustymill::rational::{checked_mul, Rational};
use rustymill::repr::{Factor, IndexId, RangeId, TensorId, Term};
use rustymill::rl_parenth::LastStepIndices;

fn node(tensor: u32) -> Term {
    Term {
        coeff: Rational::from_integer(1),
        sum_indices: vec![],
        factors: vec![Factor { tensor: TensorId(tensor), indices: vec![IndexId(0)] }],
    }
}

fn edge(l: usize, r: usize, num: i64, den: i64, bit: u32) -> GraphEdge {
    GraphEdge { left_id: l, right_id: r, coeff: Rational::new(num, den), terms_used: 1u64 << bit }
}

#[test]
fn test_found_rectangles_factor_their_edge_coefficients() {
    // A 2x3 rectangle with coefficients (1, 3/2) x (2/3, 4, -1) plus a
    // stray edge from a third left node.
    let graph = ConstrGraph {
        last_step: LastStepIndices { left_ext: 0b01, right_ext: 0b10, sums: vec![RangeId(0)] },
        left_nodes: vec![node(1), node(2), node(3)],
        right_nodes: vec![node(4), node(5), node(6)],
        edges: vec![
            edge(0, 0, 2, 3, 0),
            edge(0, 1, 4, 1, 1),
            edge(0, 2, -1, 1, 2),
            edge(1, 0, 1, 1, 3),
            edge(1, 1, 6, 1, 4),
            edge(1, 2, -3, 2, 5),
            edge(2, 0, 7, 1, 6),
        ],
    };
    let bicliques = enumerate_bicliques(&graph);
    assert!(!bicliques.is_empty());
    for b in &bicliques {
        for (i, l) in b.left_node_ids.iter().enumerate() {
            for (j, r) in b.right_node_ids.iter().enumerate() {
                let e = graph.edges.iter().find(|e| e.left_id == *l && e.right_id == *r).unwrap();
                let product = checked_mul(&b.left_coeffs[i], &b.right_coeffs[j]).unwrap();
                assert!(product.equals(&e.coeff));
            }
        }
    }
    assert!(bicliques.iter().any(|b| b.left_node_ids == vec![0, 1] && b.right_node_ids == vec![0, 1, 2]));
}
