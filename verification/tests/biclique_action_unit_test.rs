use rustymill::biclique::{Biclique, ConstrGraph, GraphEdge};
use rustymill::biclique_action::{
    apply_factorization_rewrite, build_rewrite_from_decision, export_candidate_template, fresh_rewrite_tensor_ids,
    next_action_space, normalize_candidate_record, ActionSpace, CandidateRecord, Decision,
};
use rustymill::rational::Rational;
use rustymill::repr::{Factor, Index, IndexId, TensorComputation, TensorDef, Term};
use rustymill::rl_parenth::LastStepIndices;

fn unit_term(factors: Vec<Factor>) -> Term {
    Term {
        coeff: Rational::from_integer(1),
        sum_indices: Vec::new(),
        factors,
    }
}

#[test]
fn test_build_rewrite_from_decision_uses_visible_template_term_order_for_masks() {
    let mut comp = TensorComputation::new();
    let occ = comp.add_range(10);
    let target = comp.add_tensor(&[], vec![]);
    let low = comp.add_tensor(&[], vec![]);
    let high = comp.add_tensor(&[], vec![]);
    let shared = comp.add_tensor(&[], vec![]);

    let a = IndexId(0);
    let c = IndexId(1);
    let source_def = TensorDef {
        base: target,
        ext_indices: vec![Index { id: a, range: occ }],
        terms: vec![
            Term {
                coeff: Rational::from_integer(1),
                sum_indices: vec![Index { id: c, range: occ }],
                factors: vec![
                    Factor {
                        tensor: high,
                        indices: vec![a, c],
                    },
                    Factor {
                        tensor: shared,
                        indices: vec![c],
                    },
                ],
            },
            Term {
                coeff: Rational::from_integer(1),
                sum_indices: vec![Index { id: c, range: occ }],
                factors: vec![
                    Factor {
                        tensor: low,
                        indices: vec![a, c],
                    },
                    Factor {
                        tensor: shared,
                        indices: vec![c],
                    },
                ],
            },
        ],
    };
    comp.add_definition(
        source_def.base,
        source_def.ext_indices.clone(),
        source_def.terms.clone(),
    );

    let record = normalize_candidate_record(
        &source_def,
        CandidateRecord {
            graph: ConstrGraph {
                last_step: LastStepIndices {
                    left_ext: 0b1,
                    right_ext: 0,
                    sums: vec![occ],
                },
                left_nodes: vec![
                    unit_term(vec![Factor {
                        tensor: high,
                        indices: vec![a, c],
                    }]),
                    unit_term(vec![Factor {
                        tensor: low,
                        indices: vec![a, c],
                    }]),
                ],
                right_nodes: vec![unit_term(vec![Factor {
                    tensor: shared,
                    indices: vec![c],
                }])],
                edges: vec![
                    GraphEdge {
                        left_id: 0,
                        right_id: 0,
                        coeff: Rational::from_integer(1),
                        terms_used: 0b01,
                    },
                    GraphEdge {
                        left_id: 1,
                        right_id: 0,
                        coeff: Rational::from_integer(1),
                        terms_used: 0b10,
                    },
                ],
            },
            biclique: Biclique {
                left_node_ids: vec![0, 1],
                right_node_ids: vec![0],
                left_coeffs: vec![Rational::from_integer(1), Rational::from_integer(1)],
                right_coeffs: vec![Rational::from_integer(1)],
                terms_used: 0b11,
            },
        },
    )
    .unwrap();
    assert_eq!(record.biclique.left_node_ids, vec![1, 0]);

    let (left_tid, right_tid) = fresh_rewrite_tensor_ids(&comp);
    let template = export_candidate_template(&source_def, &record, left_tid, right_tid).unwrap();
    assert_eq!(template.left_definition.terms.len(), 2);
    assert_eq!(template.left_definition.terms[0].factors[0].tensor, low);

    let space = ActionSpace {
        def_index: 0,
        candidate_templates: vec![template.clone()],
        candidates: vec![record],
    };
    let decision = Decision {
        candidate_index: 0,
        left_mask: vec![true, false],
        right_mask: vec![true],
    };

    let rewrite = build_rewrite_from_decision(&comp, &space, &decision)
        .expect("mask should select the first visible left term");

    assert_eq!(
        rewrite.factorization.left_definition.terms,
        vec![template.left_definition.terms[0].clone()]
    );
}

#[test]
fn test_build_rewrite_from_decision_rejects_mutated_visible_template() {
    let mut comp = TensorComputation::new();
    let target = comp.add_tensor(&[], vec![]);
    let x = comp.add_tensor(&[], vec![]);
    let y = comp.add_tensor(&[], vec![]);
    let p = comp.add_tensor(&[], vec![]);
    let q = comp.add_tensor(&[], vec![]);
    let occ = comp.add_range(10);
    let virt = comp.add_range(12);

    let a = Index { id: IndexId(0), range: occ };
    let b = Index { id: IndexId(1), range: virt };
    let c = Index { id: IndexId(2), range: virt };

    comp.add_definition(
        target,
        vec![a],
        vec![
            Term {
                coeff: Rational::from_integer(1),
                sum_indices: vec![b, c],
                factors: vec![
                    Factor {
                        tensor: x,
                        indices: vec![a.id, b.id],
                    },
                    Factor {
                        tensor: p,
                        indices: vec![b.id],
                    },
                ],
            },
            Term {
                coeff: Rational::from_integer(1),
                sum_indices: vec![b, c],
                factors: vec![
                    Factor {
                        tensor: x,
                        indices: vec![a.id, b.id],
                    },
                    Factor {
                        tensor: q,
                        indices: vec![b.id],
                    },
                ],
            },
            Term {
                coeff: Rational::from_integer(1),
                sum_indices: vec![b, c],
                factors: vec![
                    Factor {
                        tensor: y,
                        indices: vec![a.id, c.id],
                    },
                    Factor {
                        tensor: p,
                        indices: vec![c.id],
                    },
                ],
            },
            Term {
                coeff: Rational::from_integer(1),
                sum_indices: vec![b, c],
                factors: vec![
                    Factor {
                        tensor: y,
                        indices: vec![a.id, c.id],
                    },
                    Factor {
                        tensor: q,
                        indices: vec![c.id],
                    },
                ],
            },
        ],
    );

    let mut space = next_action_space(&comp, 0).expect("fixture should be actionable");
    space.candidate_templates[0].left_definition.terms.pop();

    let decision = Decision {
        candidate_index: 0,
        left_mask: vec![true],
        right_mask: vec![true; space.candidate_templates[0].right_definition.terms.len()],
    };

    let err = build_rewrite_from_decision(&comp, &space, &decision)
        .expect_err("mutated visible template should be rejected");
    assert!(err.contains("no longer matches"));
}

#[test]
fn test_apply_factorization_rewrite_rejects_stale_tensor_ids() {
    let mut comp = TensorComputation::new();
    let occ = comp.add_range(10);
    let virt = comp.add_range(12);
    let target = comp.add_tensor(&[], vec![]);
    let x = comp.add_tensor(&[], vec![]);
    let y = comp.add_tensor(&[], vec![]);
    let p = comp.add_tensor(&[], vec![]);
    let q = comp.add_tensor(&[], vec![]);

    let a = Index { id: IndexId(0), range: occ };
    let b = Index { id: IndexId(1), range: virt };
    let c = Index { id: IndexId(2), range: virt };

    comp.add_definition(
        target,
        vec![a],
        vec![
            Term {
                coeff: Rational::from_integer(1),
                sum_indices: vec![b],
                factors: vec![
                    Factor {
                        tensor: x,
                        indices: vec![a.id, b.id],
                    },
                    Factor {
                        tensor: p,
                        indices: vec![b.id],
                    },
                ],
            },
            Term {
                coeff: Rational::from_integer(1),
                sum_indices: vec![b, c],
                factors: vec![
                    Factor {
                        tensor: x,
                        indices: vec![a.id, b.id],
                    },
                    Factor {
                        tensor: q,
                        indices: vec![b.id],
                    },
                ],
            },
            Term {
                coeff: Rational::from_integer(1),
                sum_indices: vec![b, c],
                factors: vec![
                    Factor {
                        tensor: y,
                        indices: vec![a.id, c.id],
                    },
                    Factor {
                        tensor: p,
                        indices: vec![c.id],
                    },
                ],
            },
            Term {
                coeff: Rational::from_integer(1),
                sum_indices: vec![c],
                factors: vec![
                    Factor {
                        tensor: y,
                        indices: vec![a.id, c.id],
                    },
                    Factor {
                        tensor: q,
                        indices: vec![c.id],
                    },
                ],
            },
        ],
    );

    let space = next_action_space(&comp, 0).expect("fixture should be actionable");
    let template = &space.candidate_templates[0];
    let decision = Decision {
        candidate_index: 0,
        left_mask: vec![true; template.left_definition.terms.len()],
        right_mask: vec![true; template.right_definition.terms.len()],
    };
    let rewrite = build_rewrite_from_decision(&comp, &space, &decision)
        .expect("rewrite should build before comp changes");

    comp.add_tensor(&[], vec![]);

    let err = apply_factorization_rewrite(&mut comp, rewrite)
        .expect_err("stale rewrite tensor ids should be rejected");
    assert!(err.contains("tensor ids mismatch"));
}
