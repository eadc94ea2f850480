//! Constriction graphs built from canonicalised splits, and the enumeration
//! of their coefficient-compatible bicliques.
use vstd::prelude::*;

use crate::rational::{add_pair, checked_add, checked_mul, div_pair, divide, fits_add, fits_mul, is_product, lemma_is_product_comm, mul_pair, Rational};
use crate::repr::{copy_vec, TensorDef, Term, TermModel};
use crate::rl_canon::CanonSplitPair;
use crate::rl_parenth::{last_step_le, last_step_le_exec, LastStepIndices};
use crate::sort::{lemma_seq_le_total, stable_sort_order, SortKey};

verus! {

/// An edge between a left and a right node: the summed coefficient of the
/// terms it stands for, and those terms as a bitmask.
#[derive(Clone, Copy, Debug, PartialEq, Eq, Structural)]
pub struct GraphEdge {
    pub left_id: usize,
    pub right_id: usize,
    pub coeff: Rational,
    pub terms_used: u64,
}

#[derive(Debug, PartialEq, Eq)]
pub struct ConstrGraph {
    pub last_step: LastStepIndices,
    pub left_nodes: Vec<Term>,
    pub right_nodes: Vec<Term>,
    pub edges: Vec<GraphEdge>,
}

impl Clone for ConstrGraph {
    fn clone(&self) -> (r: Self)
        ensures
            r.last_step@ == self.last_step@,
            crate::repr::term_models(r.left_nodes@) == crate::repr::term_models(self.left_nodes@),
            crate::repr::term_models(r.right_nodes@) == crate::repr::term_models(self.right_nodes@),
            r.edges@ == self.edges@,
    {
        ConstrGraph {
            last_step: self.last_step.clone(),
            left_nodes: crate::repr::clone_terms(&self.left_nodes),
            right_nodes: crate::repr::clone_terms(&self.right_nodes),
            edges: copy_vec(&self.edges),
        }
    }
}

/// Every edge joins existing nodes.
pub open spec fn graph_wf(g: &ConstrGraph) -> bool {
    forall|e: int| 0 <= e < g.edges@.len() ==> (#[trigger] g.edges@[e]).left_id < g.left_nodes@.len()
        && g.edges@[e].right_id < g.right_nodes@.len()
}

/// A graph under construction.
struct PendingGraph {
    left_nodes: Vec<Term>,
    right_nodes: Vec<Term>,
    edges: Vec<GraphEdge>,
}

spec fn pending_wf(g: &PendingGraph) -> bool {
    forall|e: int| 0 <= e < g.edges@.len() ==> (#[trigger] g.edges@[e]).left_id < g.left_nodes@.len()
        && g.edges@[e].right_id < g.right_nodes@.len() && g.edges@[e].terms_used != 0
}

impl SortKey for ConstrGraph {
    open spec fn spec_le(self, other: Self) -> bool {
        last_step_le(self.last_step@, other.last_step@)
    }

    proof fn lemma_le_total(a: Self, b: Self) {
        lemma_seq_le_total(crate::rl_parenth::range_nums(a.last_step.sums@), crate::rl_parenth::range_nums(b.last_step.sums@));
    }

    proof fn lemma_le_trans(a: Self, b: Self, c: Self) {
        crate::rl_parenth::lemma_last_step_le_trans(a.last_step@, b.last_step@, c.last_step@);
    }

    fn exec_le(&self, other: &Self) -> (r: bool) {
        last_step_le_exec(&self.last_step, &other.last_step)
    }
}

/// The position of an equal node in `nodes`, adding one if there is none.
fn ensure_node(nodes: &mut Vec<Term>, term: &Term) -> (r: usize)
    ensures
        r < final(nodes)@.len(),
        final(nodes)@[r as int]@ == term@,
        final(nodes)@.len() >= old(nodes)@.len(),
        forall|k: int| 0 <= k < old(nodes)@.len() ==> #[trigger] final(nodes)@[k] == old(nodes)@[k],
{
    let mut k: usize = 0;
    while k < nodes.len()
        invariant
            k <= nodes@.len(),
            nodes@ == old(nodes)@,
        decreases nodes.len() - k,
    {
        if nodes[k].same(term) {
            return k;
        }
        k = k + 1;
    }
    let id = nodes.len();
    nodes.push(term.clone());
    id
}

fn ensure_left_node(graph: &mut PendingGraph, term: &Term) -> (r: usize)
    requires
        pending_wf(old(graph)),
    ensures
        pending_wf(final(graph)),
        r < final(graph).left_nodes@.len(),
        final(graph).left_nodes@[r as int]@ == term@,
        final(graph).edges@ == old(graph).edges@,
        final(graph).right_nodes@ == old(graph).right_nodes@,
{
    ensure_node(&mut graph.left_nodes, term)
}

fn ensure_right_node(graph: &mut PendingGraph, term: &Term) -> (r: usize)
    requires
        pending_wf(old(graph)),
    ensures
        pending_wf(final(graph)),
        r < final(graph).right_nodes@.len(),
        final(graph).right_nodes@[r as int]@ == term@,
        final(graph).edges@ == old(graph).edges@,
        final(graph).left_nodes@ == old(graph).left_nodes@,
{
    ensure_node(&mut graph.right_nodes, term)
}

/// The edge coefficient of a split: the term's coefficient times those of
/// its two sides, and the sides with coefficient one. `None` on overflow.
fn normalize_edge_contribution(left_term: &Term, right_term: &Term, term_coeff: &Rational) -> (r: Option<(Term, Term, Rational)>)
    ensures
        r matches Some(res) ==> res.0.sum_indices@ == left_term.sum_indices@ && res.0@.factors == left_term@.factors
            && res.1.sum_indices@ == right_term.sum_indices@ && res.1@.factors == right_term@.factors
            && res.0.coeff.pair() == (1int, 1int) && res.1.coeff.pair() == (1int, 1int),
        r matches Some(res) ==> exists|x: Rational| #[trigger] x.pair() == mul_pair(*term_coeff, left_term.coeff)
            && res.2.pair() == mul_pair(x, right_term.coeff),
        fits_mul(*term_coeff, left_term.coeff) && (forall|x: Rational| #[trigger] x.pair() == mul_pair(*term_coeff, left_term.coeff)
            ==> fits_mul(x, right_term.coeff)) ==> r is Some,
{
    let edge_coeff = match checked_mul(term_coeff, &left_term.coeff) {
        Some(x) => match checked_mul(&x, &right_term.coeff) {
            Some(y) => y,
            None => return None,
        },
        None => return None,
    };
    let mut normalized_left = left_term.clone();
    normalized_left.coeff = Rational::one();
    let mut normalized_right = right_term.clone();
    normalized_right.coeff = Rational::one();
    Some((normalized_left, normalized_right, edge_coeff))
}

/// Add term `term_idx`'s coefficient to the edge, once per term.
fn merge_edge(edge: &mut GraphEdge, term_idx: usize, term_coeff: &Rational) -> (ok: bool)
    requires
        term_idx < 64,
    ensures
        final(edge).left_id == old(edge).left_id,
        final(edge).right_id == old(edge).right_id,
        ok ==> final(edge).terms_used == old(edge).terms_used | (1u64 << term_idx as u64),
        ok ==> final(edge).terms_used != 0,
        ok ==> final(edge).terms_used & (1u64 << term_idx as u64) != 0,
        old(edge).terms_used & (1u64 << term_idx as u64) != 0 ==> ok && *final(edge) == *old(edge),
        old(edge).terms_used & (1u64 << term_idx as u64) == 0 && ok ==> final(edge).coeff.pair() == add_pair(
            old(edge).coeff,
            *term_coeff,
        ),
        old(edge).terms_used & (1u64 << term_idx as u64) == 0 && fits_add(old(edge).coeff, *term_coeff) ==> ok,
        !ok ==> *final(edge) == *old(edge),
{
    let term_bit = 1u64 << term_idx as u64;
    let t0 = edge.terms_used;
    assert(t0 | term_bit != 0 && (t0 | term_bit) & term_bit != 0) by (bit_vector)
        requires
            term_bit == 1u64 << term_idx as u64,
            term_idx < 64,
    ;
    if edge.terms_used & term_bit == 0 {
        match checked_add(&edge.coeff, term_coeff) {
            Some(c) => edge.coeff = c,
            None => return false,
        }
        edge.terms_used = edge.terms_used | term_bit;
    } else {
        let t = edge.terms_used;
        assert(t | term_bit == t) by (bit_vector)
            requires
                t & term_bit != 0,
                term_bit == 1u64 << term_idx as u64,
                term_idx < 64,
        ;
    }
    true
}

/// The split's edge coefficient can be formed, and added without overflow
/// to the coefficient of any edge of `edges`, or to zero.
spec fn split_fits(edges: Seq<GraphEdge>, left: Term, right: Term, tc: Rational) -> bool {
    &&& fits_mul(tc, left.coeff)
    &&& forall|x: Rational| #[trigger] x.pair() == mul_pair(tc, left.coeff) ==> fits_mul(x, right.coeff) && forall|y: Rational|
        #[trigger] y.pair() == mul_pair(x, right.coeff) ==> (forall|e: int| 0 <= e < edges.len() ==> fits_add(
            #[trigger] edges[e].coeff,
            y,
        )) && (forall|z: Rational| #[trigger] z.pair() == (0int, 1int) ==> fits_add(z, y))
}

/// Some edge of `g` joins nodes with the contents of `left` and `right`
/// (coefficients aside) and counts term `term_idx`.
spec fn has_split_edge(g: &PendingGraph, left: Term, right: Term, term_idx: usize) -> bool {
    exists|e: int| {
        &&& 0 <= e < g.edges@.len()
        &&& (#[trigger] g.edges@[e]).left_id < g.left_nodes@.len()
        &&& g.edges@[e].right_id < g.right_nodes@.len()
        &&& g.left_nodes@[g.edges@[e].left_id as int].sum_indices@ == left.sum_indices@
        &&& g.left_nodes@[g.edges@[e].left_id as int]@.factors == left@.factors
        &&& g.right_nodes@[g.edges@[e].right_id as int].sum_indices@ == right.sum_indices@
        &&& g.right_nodes@[g.edges@[e].right_id as int]@.factors == right@.factors
        &&& g.edges@[e].terms_used & (1u64 << term_idx as u64) != 0
    }
}

fn insert_split(graph: &mut PendingGraph, left_term: &Term, right_term: &Term, term_idx: usize, term_coeff: &Rational) -> (ok: bool)
    requires
        pending_wf(old(graph)),
        term_idx < 64,
    ensures
        pending_wf(final(graph)),
        ok ==> has_split_edge(final(graph), *left_term, *right_term, term_idx),
        split_fits(old(graph).edges@, *left_term, *right_term, *term_coeff) ==> ok,
{
    let ghost fits = split_fits(graph.edges@, *left_term, *right_term, *term_coeff);
    let ghost edges0 = graph.edges@;
    let (left, right, edge_coeff) = match normalize_edge_contribution(left_term, right_term, term_coeff) {
        Some(x) => x,
        None => return false,
    };
    let ghost x = choose|x: Rational| #[trigger] x.pair() == mul_pair(*term_coeff, left_term.coeff) && edge_coeff.pair()
        == mul_pair(x, right_term.coeff);
    assert(fits ==> forall|e: int| 0 <= e < edges0.len() ==> fits_add(#[trigger] edges0[e].coeff, edge_coeff));
    assert(fits ==> forall|z: Rational| #[trigger] z.pair() == (0int, 1int) ==> fits_add(z, edge_coeff));
    let left_id = ensure_left_node(graph, &left);
    let right_id = ensure_right_node(graph, &right);
    let mut e: usize = 0;
    while e < graph.edges.len() && !(graph.edges[e].left_id == left_id && graph.edges[e].right_id == right_id)
        invariant
            e <= graph.edges@.len(),
        decreases graph.edges.len() - e,
    {
        e = e + 1;
    }
    if e < graph.edges.len() {
        let mut edge = graph.edges[e];
        assert(edge == edges0[e as int]);
        if !merge_edge(&mut edge, term_idx, &edge_coeff) {
            return false;
        }
        graph.edges.set(e, edge);
        assert(graph.edges@[e as int] == edge);
    } else {
        let mut edge = GraphEdge { left_id, right_id, coeff: Rational::zero(), terms_used: 0 };
        assert(0u64 & (1u64 << term_idx as u64) == 0) by (bit_vector);
        assert(edge.coeff.pair() == (0int, 1int));
        assert(fits ==> fits_add(edge.coeff, edge_coeff));
        if !merge_edge(&mut edge, term_idx, &edge_coeff) {
            return false;
        }
        graph.edges.push(edge);
        assert(graph.edges@[e as int] == edge);
    }
    proof {
        let g = &*graph;
        assert(g.edges@[e as int].left_id == left_id && g.edges@[e as int].right_id == right_id);
        assert(g.left_nodes@[left_id as int]@ == left@);
        assert(g.right_nodes@[right_id as int]@ == right@);
        assert(g.left_nodes@[g.edges@[e as int].left_id as int].sum_indices@ == left_term.sum_indices@);
        assert(g.right_nodes@[g.edges@[e as int].right_id as int].sum_indices@ == right_term.sum_indices@);
        assert(g.left_nodes@[left_id as int]@.factors == left_term@.factors);
        assert(g.right_nodes@[right_id as int]@.factors == right_term@.factors);
        assert(has_split_edge(g, *left_term, *right_term, term_idx));
    }
    true
}

/// The edges of `es` with a nonzero coefficient, in order.
pub open spec fn nonzero_edges(es: Seq<GraphEdge>) -> Seq<GraphEdge>
    decreases es.len(),
{
    if es.len() == 0 {
        seq![]
    } else if es.last().coeff.num() != 0 {
        nonzero_edges(es.drop_last()).push(es.last())
    } else {
        nonzero_edges(es.drop_last())
    }
}

/// The pattern, nodes and nonzero edges of each bucket that keeps at least
/// two edges, in order.
spec fn finalized(bs: Seq<(LastStepIndices, PendingGraph)>) -> Seq<(LastStepIndices, Vec<Term>, Vec<Term>, Seq<GraphEdge>)>
    decreases bs.len(),
{
    if bs.len() == 0 {
        seq![]
    } else {
        let es = nonzero_edges(bs[0].1.edges@);
        let head = if es.len() >= 2 {
            seq![(bs[0].0, bs[0].1.left_nodes, bs[0].1.right_nodes, es)]
        } else {
            seq![]
        };
        head + finalized(bs.drop_first())
    }
}

spec fn graph_parts(g: ConstrGraph) -> (LastStepIndices, Vec<Term>, Vec<Term>, Seq<GraphEdge>) {
    (g.last_step, g.left_nodes, g.right_nodes, g.edges@)
}

/// Graphs from pending ones: edges whose coefficients cancelled to zero are
/// dropped, and graphs left with fewer than two edges too.
fn finalize_graphs(buckets: Vec<(LastStepIndices, PendingGraph)>) -> (r: Vec<ConstrGraph>)
    requires
        forall|b: int| 0 <= b < buckets@.len() ==> pending_wf(&(#[trigger] buckets@[b]).1),
    ensures
        r@.map_values(|g: ConstrGraph| graph_parts(g)) == finalized(buckets@),
        forall|g: int| 0 <= g < r@.len() ==> graph_wf(#[trigger] &r@[g]) && r@[g].edges@.len() >= 2
            && forall|e: int| 0 <= e < r@[g].edges@.len() ==> (#[trigger] r@[g].edges@[e]).coeff.num() != 0
                && r@[g].edges@[e].terms_used != 0,
{
    let mut out: Vec<ConstrGraph> = Vec::new();
    let ghost orig = buckets@;
    let mut buckets = buckets;
    assert(out@.map_values(|g: ConstrGraph| graph_parts(g)) + finalized(buckets@) =~= finalized(orig));
    while buckets.len() > 0
        invariant
            out@.map_values(|g: ConstrGraph| graph_parts(g)) + finalized(buckets@) == finalized(orig),
            forall|b: int| 0 <= b < buckets@.len() ==> pending_wf(&(#[trigger] buckets@[b]).1),
            forall|g: int| 0 <= g < out@.len() ==> graph_wf(#[trigger] &out@[g]) && out@[g].edges@.len() >= 2
                && forall|e: int| 0 <= e < out@[g].edges@.len() ==> (#[trigger] out@[g].edges@[e]).coeff.num() != 0
                    && out@[g].edges@[e].terms_used != 0,
        decreases buckets@.len(),
    {
        let ghost before = buckets@;
        let (last_step, pending) = buckets.remove(0);
        proof {
            assert(pending_wf(&before[0].1));
            assert forall|b: int| 0 <= b < buckets@.len() implies pending_wf(&(#[trigger] buckets@[b]).1) by {
                assert(buckets@[b] == before[b + 1]);
            }
        }
        assert(buckets@ == before.drop_first());
        let mut edges: Vec<GraphEdge> = Vec::new();
        let mut e: usize = 0;
        while e < pending.edges.len()
            invariant
                e <= pending.edges@.len(),
                pending_wf(&pending),
                edges@ == nonzero_edges(pending.edges@.take(e as int)),
                forall|k: int| 0 <= k < edges@.len() ==> (#[trigger] edges@[k]).left_id < pending.left_nodes@.len()
                    && edges@[k].right_id < pending.right_nodes@.len() && edges@[k].coeff.num() != 0
                    && edges@[k].terms_used != 0,
            decreases pending.edges.len() - e,
        {
            assert(pending.edges@.take(e + 1).drop_last() =~= pending.edges@.take(e as int));
            if !pending.edges[e].coeff.is_zero() {
                edges.push(pending.edges[e]);
            }
            e = e + 1;
        }
        assert(pending.edges@.take(e as int) =~= pending.edges@);
        let ghost head = if edges@.len() >= 2 {
            seq![(last_step, pending.left_nodes, pending.right_nodes, edges@)]
        } else {
            seq![]
        };
        assert(finalized(before) == head + finalized(buckets@));
        let ghost prev_map = out@.map_values(|g: ConstrGraph| graph_parts(g));
        assert((prev_map + head) + finalized(buckets@) =~= prev_map + (head + finalized(buckets@)));
        if edges.len() < 2 {
            assert(head + finalized(buckets@) =~= finalized(buckets@));
        }
        if edges.len() >= 2 {
            let ghost prev = out@;
            out.push(ConstrGraph { last_step, left_nodes: pending.left_nodes, right_nodes: pending.right_nodes, edges });
            assert(out@.map_values(|g: ConstrGraph| graph_parts(g)) =~= prev.map_values(|g: ConstrGraph| graph_parts(g)) + head);
            proof {
                assert forall|g: int| 0 <= g < out@.len() implies graph_wf(#[trigger] &out@[g]) && out@[g].edges@.len() >= 2
                    && forall|e: int| 0 <= e < out@[g].edges@.len() ==> (#[trigger] out@[g].edges@[e]).coeff.num() != 0
                        && out@[g].edges@[e].terms_used != 0 by {
                    if g < prev.len() {
                        assert(out@[g] == prev[g]);
                    }
                }
            }
        }
    }
    out
}

/// `graphs` in stable order of their last-step patterns.
fn sort_graphs_by_last_step(graphs: &mut Vec<ConstrGraph>)
    ensures
        final(graphs)@.len() == old(graphs)@.len(),
        forall|a: int, b: int| 0 <= a < b < final(graphs)@.len() ==> last_step_le(
            (#[trigger] final(graphs)@[a]).last_step@,
            (#[trigger] final(graphs)@[b]).last_step@,
        ),
        graphs_ok(old(graphs)@) ==> graphs_ok(final(graphs)@),
{
    let order = stable_sort_order(graphs);
    let mut sorted: Vec<ConstrGraph> = Vec::new();
    let mut k: usize = 0;
    while k < order.len()
        invariant
            k <= order@.len(),
            crate::sort::is_stable_sort_order(graphs@, order@),
            graphs@ == old(graphs)@,
            sorted@.len() == k,
            forall|a: int| 0 <= a < k ==> (#[trigger] sorted@[a]).last_step@ == graphs@[order@[a] as int].last_step@
                && sorted@[a].edges@ == graphs@[order@[a] as int].edges@
                && crate::repr::term_models(sorted@[a].left_nodes@) == crate::repr::term_models(graphs@[order@[a] as int].left_nodes@)
                && crate::repr::term_models(sorted@[a].right_nodes@) == crate::repr::term_models(graphs@[order@[a] as int].right_nodes@),
        decreases order.len() - k,
    {
        sorted.push(graphs[order[k]].clone());
        k = k + 1;
    }
    proof {
        assert forall|a: int, b: int| 0 <= a < b < sorted@.len() implies last_step_le(
            (#[trigger] sorted@[a]).last_step@,
            (#[trigger] sorted@[b]).last_step@,
        ) by {
            assert(graphs@[order@[a] as int].spec_le(graphs@[order@[b] as int]));
        }
        if graphs_ok(old(graphs)@) {
            assert forall|g: int| 0 <= g < sorted@.len() implies graph_wf(#[trigger] &sorted@[g]) && sorted@[g].edges@.len() >= 2
                && forall|e: int| 0 <= e < sorted@[g].edges@.len() ==> (#[trigger] sorted@[g].edges@[e]).coeff.num() != 0 by {
                let b = order@[g] as int;
                assert(crate::repr::term_models(sorted@[g].left_nodes@).len() == sorted@[g].left_nodes@.len());
                assert(crate::repr::term_models(graphs@[b].left_nodes@).len() == graphs@[b].left_nodes@.len());
                assert(crate::repr::term_models(sorted@[g].right_nodes@).len() == sorted@[g].right_nodes@.len());
                assert(crate::repr::term_models(graphs@[b].right_nodes@).len() == graphs@[b].right_nodes@.len());
                assert(graph_wf(&graphs@[b]));
            }
        }
    }
    *graphs = sorted;
}

/// Every graph joins existing nodes, has two or more edges, all with a
/// nonzero coefficient.
pub open spec fn graphs_ok(gs: Seq<ConstrGraph>) -> bool {
    forall|g: int| 0 <= g < gs.len() ==> graph_wf(#[trigger] &gs[g]) && gs[g].edges@.len() >= 2
        && forall|e: int| 0 <= e < gs[g].edges@.len() ==> (#[trigger] gs[g].edges@[e]).coeff.num() != 0
            && gs[g].edges@[e].terms_used != 0
}

/// The constriction graphs of a definition from its canonicalised splits:
/// each split adds an edge (the term's coefficient times its sides') to the
/// graph of its last-step pattern, once with the left side owning the
/// shared names and once (in a separate family of graphs) with the right
/// side owning them. Edges whose coefficients cancel are dropped, graphs
/// with fewer than two edges too, and the graphs are ordered by pattern.
/// `None` when a coefficient overflows.
pub fn build_graphs_from_canon_splits(def: &TensorDef, canon_splits: &[Vec<CanonSplitPair>]) -> (r: Option<Vec<ConstrGraph>>)
    requires
        canon_splits@.len() == def.terms@.len(),
        forall|t: int| 64 <= t < canon_splits@.len() ==> (#[trigger] canon_splits@[t])@.len() == 0,
    ensures
        r matches Some(gs) ==> graphs_ok(gs@) && forall|a: int, b: int| 0 <= a < b < gs@.len() ==> last_step_le(
            (#[trigger] gs@[a]).last_step@,
            (#[trigger] gs@[b]).last_step@,
        ),
{
    let mut left_buckets: Vec<(LastStepIndices, PendingGraph)> = Vec::new();
    let mut right_buckets: Vec<(LastStepIndices, PendingGraph)> = Vec::new();
    let mut term_idx: usize = 0;
    while term_idx < canon_splits.len()
        invariant
            term_idx <= canon_splits@.len(),
            canon_splits@.len() == def.terms@.len(),
            forall|t: int| 64 <= t < canon_splits@.len() ==> (#[trigger] canon_splits@[t])@.len() == 0,
            forall|b: int| 0 <= b < left_buckets@.len() ==> pending_wf(&(#[trigger] left_buckets@[b]).1),
            forall|b: int| 0 <= b < right_buckets@.len() ==> pending_wf(&(#[trigger] right_buckets@[b]).1),
        decreases canon_splits.len() - term_idx,
    {
        let term_coeff = def.terms[term_idx].coeff;
        let pairs = &canon_splits[term_idx];
        let mut p: usize = 0;
        while p < pairs.len()
            invariant
                p <= pairs@.len(),
                pairs@ == canon_splits@[term_idx as int]@,
                term_idx < canon_splits@.len(),
                forall|t: int| 64 <= t < canon_splits@.len() ==> (#[trigger] canon_splits@[t])@.len() == 0,
                forall|b: int| 0 <= b < left_buckets@.len() ==> pending_wf(&(#[trigger] left_buckets@[b]).1),
                forall|b: int| 0 <= b < right_buckets@.len() ==> pending_wf(&(#[trigger] right_buckets@[b]).1),
            decreases pairs.len() - p,
        {
            let pair = &pairs[p];
            assert(term_idx < 64);
            if !add_to_bucket(&mut left_buckets, &pair.left_assigned.last_step, &pair.left_assigned.left_sub_term,
                &pair.left_assigned.right_sub_term, term_idx, &term_coeff) {
                return None;
            }
            if !add_to_bucket(&mut right_buckets, &pair.right_assigned.last_step, &pair.right_assigned.left_sub_term,
                &pair.right_assigned.right_sub_term, term_idx, &term_coeff) {
                return None;
            }
            p = p + 1;
        }
        term_idx = term_idx + 1;
    }
    let mut graphs = finalize_graphs(left_buckets);
    let more = finalize_graphs(right_buckets);
    let mut k: usize = 0;
    while k < more.len()
        invariant
            k <= more@.len(),
            graphs_ok(graphs@),
            graphs_ok(more@),
        decreases more.len() - k,
    {
        let ghost prev = graphs@;
        graphs.push(more[k].clone());
        proof {
            assert forall|g: int| 0 <= g < graphs@.len() implies graph_wf(#[trigger] &graphs@[g]) && graphs@[g].edges@.len() >= 2
                && forall|e: int| 0 <= e < graphs@[g].edges@.len() ==> (#[trigger] graphs@[g].edges@[e]).coeff.num() != 0 by {
                if g < prev.len() {
                    assert(graphs@[g] == prev[g]);
                } else {
                    assert(crate::repr::term_models(graphs@[g].left_nodes@).len() == graphs@[g].left_nodes@.len());
                    assert(crate::repr::term_models(more@[k as int].left_nodes@).len() == more@[k as int].left_nodes@.len());
                    assert(crate::repr::term_models(graphs@[g].right_nodes@).len() == graphs@[g].right_nodes@.len());
                    assert(crate::repr::term_models(more@[k as int].right_nodes@).len() == more@[k as int].right_nodes@.len());
                }
            }
        }
        k = k + 1;
    }
    sort_graphs_by_last_step(&mut graphs);
    Some(graphs)
}

/// Add a split's edge to the bucket of its last-step pattern.
fn add_to_bucket(
    buckets: &mut Vec<(LastStepIndices, PendingGraph)>,
    last_step: &LastStepIndices,
    left: &Term,
    right: &Term,
    term_idx: usize,
    term_coeff: &Rational,
) -> (ok: bool)
    requires
        term_idx < 64,
        forall|b: int| 0 <= b < old(buckets)@.len() ==> pending_wf(&(#[trigger] old(buckets)@[b]).1),
    ensures
        forall|b: int| 0 <= b < final(buckets)@.len() ==> pending_wf(&(#[trigger] final(buckets)@[b]).1),
        ok ==> exists|b: int| 0 <= b < final(buckets)@.len() && (#[trigger] final(buckets)@[b]).0@ == last_step@
            && has_split_edge(&final(buckets)@[b].1, *left, *right, term_idx),
        (forall|b: int| 0 <= b < old(buckets)@.len() ==> split_fits((#[trigger] old(buckets)@[b]).1.edges@, *left, *right, *term_coeff))
            && split_fits(seq![], *left, *right, *term_coeff) ==> ok,
{
    let ghost all_fit = (forall|b: int| 0 <= b < buckets@.len() ==> split_fits((#[trigger] buckets@[b]).1.edges@, *left, *right, *term_coeff))
        && split_fits(seq![], *left, *right, *term_coeff);
    let mut b: usize = 0;
    while b < buckets.len() && !buckets[b].0.same(last_step)
        invariant
            b <= buckets@.len(),
        decreases buckets.len() - b,
    {
        b = b + 1;
    }
    if b == buckets.len() {
        let ghost before = buckets@;
        buckets.push((last_step.clone(), PendingGraph { left_nodes: Vec::new(), right_nodes: Vec::new(), edges: Vec::new() }));
        proof {
            assert forall|k: int| 0 <= k < buckets@.len() implies pending_wf(&(#[trigger] buckets@[k]).1) by {
                if k < before.len() {
                    assert(buckets@[k] == before[k]);
                }
            }
        }
    }
    let ghost before = buckets@;
    assert(before[b as int].0@ == last_step@);
    assert(all_fit ==> split_fits(before[b as int].1.edges@, *left, *right, *term_coeff)) by {
        if all_fit && before[b as int].1.edges@.len() == 0 {
            assert(before[b as int].1.edges@ =~= seq![]);
        }
    }
    let (key, mut pending) = buckets.remove(b);
    proof {
        assert(pending_wf(&before[b as int].1));
    }
    let ok = insert_split(&mut pending, left, right, term_idx, term_coeff);
    buckets.insert(b, (key, pending));
    assert(buckets@[b as int].0@ == last_step@);
    proof {
        assert forall|k: int| 0 <= k < buckets@.len() implies pending_wf(&(#[trigger] buckets@[k]).1) by {
            if k < b {
                assert(buckets@[k] == before[k]);
            } else if k > b {
                assert(buckets@[k] == before[k]);
            }
        }
    }
    ok
}


// ---------------------------------------------------------------------------
// Biclique enumeration
// ---------------------------------------------------------------------------

/// A node of the search: a left or a right node of the graph.
#[derive(Clone, Copy, Debug, PartialEq, Eq, Structural, Hash)]
enum SearchNode {
    Left(usize),
    Right(usize),
}

/// The coefficient a node would join with, and the terms it would consume.
#[derive(Clone, Copy, Debug, PartialEq, Eq, Structural)]
struct Delta {
    coeff: Rational,
    terms: u64,
}

/// A biclique: its left and right nodes with their coefficients, and the
/// terms its edges consume.
#[derive(Debug, PartialEq, Eq)]
pub struct Biclique {
    pub left_node_ids: Vec<usize>,
    pub right_node_ids: Vec<usize>,
    pub left_coeffs: Vec<Rational>,
    pub right_coeffs: Vec<Rational>,
    pub terms_used: u64,
}

pub struct BicliqueModel {
    pub left_node_ids: Seq<usize>,
    pub right_node_ids: Seq<usize>,
    pub left_coeffs: Seq<Rational>,
    pub right_coeffs: Seq<Rational>,
    pub terms_used: u64,
}

impl View for Biclique {
    type V = BicliqueModel;

    open spec fn view(&self) -> BicliqueModel {
        BicliqueModel {
            left_node_ids: self.left_node_ids@,
            right_node_ids: self.right_node_ids@,
            left_coeffs: self.left_coeffs@,
            right_coeffs: self.right_coeffs@,
            terms_used: self.terms_used,
        }
    }
}

impl Clone for Biclique {
    fn clone(&self) -> (r: Self)
        ensures
            r@ == self@,
    {
        Biclique {
            left_node_ids: copy_vec(&self.left_node_ids),
            right_node_ids: copy_vec(&self.right_node_ids),
            left_coeffs: copy_vec(&self.left_coeffs),
            right_coeffs: copy_vec(&self.right_coeffs),
            terms_used: self.terms_used,
        }
    }
}

/// Each side's node ids and coefficients have the same length.
pub open spec fn biclique_aligned(b: BicliqueModel) -> bool {
    b.left_node_ids.len() == b.left_coeffs.len() && b.right_node_ids.len() == b.right_coeffs.len()
}

/// At least one side has two nodes or more.
pub open spec fn sharing(b: BicliqueModel) -> bool {
    b.left_node_ids.len() >= 2 || b.right_node_ids.len() >= 2
}

/// Adding a node (left or right, by `is_left`) with its coefficient and terms.
pub open spec fn biclique_push(b: BicliqueModel, is_left: bool, id: usize, coeff: Rational, terms: u64) -> BicliqueModel {
    if is_left {
        BicliqueModel {
            left_node_ids: b.left_node_ids.push(id),
            left_coeffs: b.left_coeffs.push(coeff),
            terms_used: b.terms_used | terms,
            ..b
        }
    } else {
        BicliqueModel {
            right_node_ids: b.right_node_ids.push(id),
            right_coeffs: b.right_coeffs.push(coeff),
            terms_used: b.terms_used | terms,
            ..b
        }
    }
}

/// Removing the last node of a side and toggling its terms off.
pub open spec fn biclique_pop(b: BicliqueModel, is_left: bool, terms: u64) -> BicliqueModel {
    if is_left {
        BicliqueModel {
            left_node_ids: if b.left_node_ids.len() > 0 { b.left_node_ids.drop_last() } else { b.left_node_ids },
            left_coeffs: if b.left_coeffs.len() > 0 { b.left_coeffs.drop_last() } else { b.left_coeffs },
            terms_used: b.terms_used ^ terms,
            ..b
        }
    } else {
        BicliqueModel {
            right_node_ids: if b.right_node_ids.len() > 0 { b.right_node_ids.drop_last() } else { b.right_node_ids },
            right_coeffs: if b.right_coeffs.len() > 0 { b.right_coeffs.drop_last() } else { b.right_coeffs },
            terms_used: b.terms_used ^ terms,
            ..b
        }
    }
}

/// Popping a node undoes pushing it, whenever the node's terms were not
/// already used by the biclique.
pub proof fn lemma_pop_undoes_push(b: BicliqueModel, is_left: bool, id: usize, coeff: Rational, terms: u64)
    requires
        b.terms_used & terms == 0,
    ensures
        biclique_pop(biclique_push(b, is_left, id, coeff, terms), is_left, terms) == b,
{
    let t = b.terms_used;
    assert((t | terms) ^ terms == t) by (bit_vector)
        requires
            t & terms == 0,
    ;
    let p = biclique_push(b, is_left, id, coeff, terms);
    assert(p.left_node_ids.len() > 0 ==> true);
    if is_left {
        assert(b.left_node_ids.push(id).drop_last() =~= b.left_node_ids);
        assert(b.left_coeffs.push(coeff).drop_last() =~= b.left_coeffs);
    } else {
        assert(b.right_node_ids.push(id).drop_last() =~= b.right_node_ids);
        assert(b.right_coeffs.push(coeff).drop_last() =~= b.right_coeffs);
    }
}

spec fn node_is_left(n: SearchNode) -> bool {
    n is Left
}

spec fn node_id(n: SearchNode) -> usize {
    match n {
        SearchNode::Left(i) => i,
        SearchNode::Right(i) => i,
    }
}


/// Every edge consumes at least one term.
pub open spec fn edges_nonzero(g: &ConstrGraph) -> bool {
    forall|k: int| 0 <= k < g.edges@.len() ==> (#[trigger] g.edges@[k]).terms_used != 0
}

/// Some edge joins left node `l` to right node `r`, with a coefficient
/// that is the product `a * c`.
pub open spec fn factored_edge(g: &ConstrGraph, l: usize, r: usize, a: Rational, c: Rational) -> bool {
    exists|e: GraphEdge| #[trigger] g.edges@.contains(e) && e.left_id == l && e.right_id == r && is_product(e.coeff, a, c)
}

/// Every left node of `b` meets every right node by an edge whose
/// coefficient is the left node's coefficient times the right node's.
pub open spec fn rect_factors(g: &ConstrGraph, b: BicliqueModel) -> bool {
    forall|i: int, j: int| 0 <= i < b.left_node_ids.len() && 0 <= j < b.right_node_ids.len() ==>
        #[trigger] factored_edge(g, b.left_node_ids[i], b.right_node_ids[j], b.left_coeffs[i], b.right_coeffs[j])
}

/// What a frontier delta promises for node `x`: no terms exactly while the
/// other side of the biclique is empty, and an edge to each node of the
/// other side whose coefficient is `x`'s coefficient times that node's.
spec fn delta_fits(g: &ConstrGraph, b: BicliqueModel, x: SearchNode, d: Delta) -> bool {
    if node_is_left(x) {
        &&& (b.right_node_ids.len() == 0) == (d.terms == 0)
        &&& forall|j: int| 0 <= j < b.right_node_ids.len() ==>
            #[trigger] factored_edge(g, node_id(x), b.right_node_ids[j], d.coeff, b.right_coeffs[j])
    } else {
        &&& (b.left_node_ids.len() == 0) == (d.terms == 0)
        &&& forall|i: int| 0 <= i < b.left_node_ids.len() ==>
            #[trigger] factored_edge(g, b.left_node_ids[i], node_id(x), b.left_coeffs[i], d.coeff)
    }
}

spec fn frontier_fits(g: &ConstrGraph, b: BicliqueModel, subg: Seq<(SearchNode, Delta)>) -> bool {
    forall|k: int| 0 <= k < subg.len() ==> delta_fits(g, b, (#[trigger] subg[k]).0, subg[k].1)
}

/// Adding a frontier node keeps the rectangle factored.
proof fn lemma_push_factors(g: &ConstrGraph, b: BicliqueModel, q: SearchNode, dq: Delta)
    requires
        biclique_aligned(b),
        rect_factors(g, b),
        delta_fits(g, b, q, dq),
    ensures
        rect_factors(g, biclique_push(b, node_is_left(q), node_id(q), dq.coeff, dq.terms)),
{
    let n = biclique_push(b, node_is_left(q), node_id(q), dq.coeff, dq.terms);
    assert forall|i: int, j: int| 0 <= i < n.left_node_ids.len() && 0 <= j < n.right_node_ids.len() implies
        #[trigger] factored_edge(g, n.left_node_ids[i], n.right_node_ids[j], n.left_coeffs[i], n.right_coeffs[j]) by {
        if node_is_left(q) {
            if i < b.left_node_ids.len() {
                assert(factored_edge(g, b.left_node_ids[i], b.right_node_ids[j], b.left_coeffs[i], b.right_coeffs[j]));
            } else {
                assert(factored_edge(g, node_id(q), b.right_node_ids[j], dq.coeff, b.right_coeffs[j]));
            }
        } else {
            if j < b.right_node_ids.len() {
                assert(factored_edge(g, b.left_node_ids[i], b.right_node_ids[j], b.left_coeffs[i], b.right_coeffs[j]));
            } else {
                assert(factored_edge(g, b.left_node_ids[i], node_id(q), b.left_coeffs[i], dq.coeff));
            }
        }
    }
}

/// An accepted update keeps the frontier's promise once `q` has joined.
proof fn lemma_child_fits(g: &ConstrGraph, b: BicliqueModel, b0: BicliqueModel, q: SearchNode, dq: Delta, r: SearchNode, dr: Delta, d: Delta)
    requires
        edges_nonzero(g),
        biclique_aligned(b),
        delta_fits(g, b, r, dr),
        update_rel(g, b0, q, dq, r, dr, d),
    ensures
        delta_fits(g, biclique_push(b, node_is_left(q), node_id(q), dq.coeff, dq.terms), r, d),
{
    let n = biclique_push(b, node_is_left(q), node_id(q), dq.coeff, dq.terms);
    if node_is_left(q) != node_is_left(r) {
        let e = choose|e: GraphEdge| #[trigger] g.edges@.contains(e)
            && e.left_id == (if node_is_left(q) { node_id(q) } else { node_id(r) })
            && e.right_id == (if node_is_left(q) { node_id(r) } else { node_id(q) })
            && dq.terms & dr.terms == 0
            && b0.terms_used & e.terms_used == 0
            && dq.terms & e.terms_used == 0
            && dr.terms & e.terms_used == 0
            && d.terms == dr.terms | e.terms_used
            && dq.coeff.num() != 0
            && d.coeff.pair() == div_pair(e.coeff, dq.coeff)
            && is_product(e.coeff, dq.coeff, d.coeff)
            && (dr.terms != 0 ==> d.coeff == dr.coeff);
        let k = choose|k: int| 0 <= k < g.edges@.len() && g.edges@[k] == e;
        assert(g.edges@[k].terms_used != 0);
        let (x, y) = (dr.terms, e.terms_used);
        assert(y != 0 ==> x | y != 0) by (bit_vector);
        if node_is_left(r) {
            lemma_is_product_comm(e.coeff, dq.coeff, d.coeff);
            assert forall|j: int| 0 <= j < n.right_node_ids.len() implies
                #[trigger] factored_edge(g, node_id(r), n.right_node_ids[j], d.coeff, n.right_coeffs[j]) by {
                if j < b.right_node_ids.len() {
                    assert(factored_edge(g, node_id(r), b.right_node_ids[j], dr.coeff, b.right_coeffs[j]));
                } else {
                    assert(n.right_node_ids[j] == node_id(q) && n.right_coeffs[j] == dq.coeff);
                }
            }
        } else {
            assert forall|i: int| 0 <= i < n.left_node_ids.len() implies
                #[trigger] factored_edge(g, n.left_node_ids[i], node_id(r), n.left_coeffs[i], d.coeff) by {
                if i < b.left_node_ids.len() {
                    assert(factored_edge(g, b.left_node_ids[i], node_id(r), b.left_coeffs[i], dr.coeff));
                } else {
                    assert(n.left_node_ids[i] == node_id(q) && n.left_coeffs[i] == dq.coeff);
                }
            }
        }
    }
}

fn push(biclique: &mut Biclique, node: SearchNode, delta: &Delta)
    ensures
        final(biclique)@ == biclique_push(old(biclique)@, node_is_left(node), node_id(node), delta.coeff, delta.terms),
{
    biclique.terms_used = biclique.terms_used | delta.terms;
    match node {
        SearchNode::Left(id) => {
            biclique.left_node_ids.push(id);
            biclique.left_coeffs.push(delta.coeff);
        },
        SearchNode::Right(id) => {
            biclique.right_node_ids.push(id);
            biclique.right_coeffs.push(delta.coeff);
        },
    }
}

fn pop(biclique: &mut Biclique, node: SearchNode, delta: &Delta)
    ensures
        final(biclique)@ == biclique_pop(old(biclique)@, node_is_left(node), delta.terms),
{
    biclique.terms_used = biclique.terms_used ^ delta.terms;
    match node {
        SearchNode::Left(_) => {
            biclique.left_node_ids.pop();
            biclique.left_coeffs.pop();
        },
        SearchNode::Right(_) => {
            biclique.right_node_ids.pop();
            biclique.right_coeffs.pop();
        },
    }
}

fn has_sharing(biclique: &Biclique) -> (r: bool)
    ensures
        r == sharing(biclique@),
{
    biclique.left_node_ids.len() >= 2 || biclique.right_node_ids.len() >= 2
}

/// Some position of `ids` holds `x`, and the same position of `coeffs` holds `c`.
spec fn drawn_from(ids: Seq<usize>, coeffs: Seq<Rational>, x: usize, c: Rational) -> bool {
    exists|j: int| 0 <= j < ids.len() && #[trigger] ids[j] == x && coeffs[j] == c
}

/// Node ids ascending (ties keep their order), coefficients alongside.
fn sort_side(ids: &Vec<usize>, coeffs: &Vec<Rational>) -> (r: (Vec<usize>, Vec<Rational>))
    requires
        ids@.len() == coeffs@.len(),
    ensures
        r.0@.len() == ids@.len(),
        r.1@.len() == ids@.len(),
        forall|a: int, b: int| 0 <= a < b < r.0@.len() ==> (#[trigger] r.0@[a]) <= (#[trigger] r.0@[b]),
        forall|k: int| 0 <= k < r.0@.len() ==> drawn_from(ids@, coeffs@, #[trigger] r.0@[k], r.1@[k]),
{
    let mut out_ids: Vec<usize> = Vec::new();
    let mut out_coeffs: Vec<Rational> = Vec::new();
    let mut i: usize = 0;
    while i < ids.len()
        invariant
            i <= ids@.len(),
            ids@.len() == coeffs@.len(),
            out_ids@.len() == i,
            out_coeffs@.len() == i,
            forall|a: int, b: int| 0 <= a < b < out_ids@.len() ==> (#[trigger] out_ids@[a]) <= (#[trigger] out_ids@[b]),
            forall|k: int| 0 <= k < out_ids@.len() ==> drawn_from(ids@, coeffs@, #[trigger] out_ids@[k], out_coeffs@[k]),
        decreases ids.len() - i,
    {
        let x = ids[i];
        let mut p: usize = 0;
        while p < out_ids.len() && out_ids[p] <= x
            invariant
                p <= out_ids@.len(),
                forall|k: int| 0 <= k < p ==> #[trigger] out_ids@[k] <= x,
            decreases out_ids.len() - p,
        {
            p = p + 1;
        }
        let ghost before = out_ids@;
        let ghost before_c = out_coeffs@;
        out_ids.insert(p, x);
        out_coeffs.insert(p, coeffs[i]);
        proof {
            assert forall|k: int| 0 <= k < out_ids@.len() implies drawn_from(ids@, coeffs@, #[trigger] out_ids@[k], out_coeffs@[k]) by {
                if k < p {
                    assert(out_ids@[k] == before[k] && out_coeffs@[k] == before_c[k]);
                    assert(drawn_from(ids@, coeffs@, before[k], before_c[k]));
                } else if k > p {
                    assert(out_ids@[k] == before[k - 1] && out_coeffs@[k] == before_c[k - 1]);
                    assert(drawn_from(ids@, coeffs@, before[k - 1], before_c[k - 1]));
                } else {
                    assert(out_ids@[k] == ids@[i as int] && out_coeffs@[k] == coeffs@[i as int]);
                }
            }
            let after = out_ids@;
            assert forall|a: int, b: int| 0 <= a < b < after.len() implies (#[trigger] after[a]) <= (#[trigger] after[b]) by {
                if a < p && b < p {
                    assert(after[a] == before[a] && after[b] == before[b]);
                } else if a < p && b == p {
                    assert(after[a] == before[a]);
                } else if a < p {
                    assert(after[a] == before[a] && after[b] == before[b - 1]);
                } else if a == p {
                    assert(after[b] == before[b - 1]);
                    if p < before.len() {
                        assert(before[p as int] > x);
                    }
                } else {
                    assert(after[a] == before[a - 1] && after[b] == before[b - 1]);
                }
            }
        }
        i = i + 1;
    }
    (out_ids, out_coeffs)
}

/// The biclique with each side sorted by node id.
fn canonicalize_biclique(biclique: &Biclique) -> (r: Biclique)
    requires
        biclique_aligned(biclique@),
    ensures
        biclique_aligned(r@),
        r.left_node_ids@.len() == biclique.left_node_ids@.len(),
        r.right_node_ids@.len() == biclique.right_node_ids@.len(),
        r.terms_used == biclique.terms_used,
        forall|a: int, b: int| 0 <= a < b < r.left_node_ids@.len() ==> (#[trigger] r.left_node_ids@[a]) <= (#[trigger] r.left_node_ids@[b]),
        forall|a: int, b: int| 0 <= a < b < r.right_node_ids@.len() ==> (#[trigger] r.right_node_ids@[a]) <= (#[trigger] r.right_node_ids@[b]),
        forall|g: &ConstrGraph| rect_factors(g, biclique@) ==> #[trigger] rect_factors(g, r@),
{
    let (left_node_ids, left_coeffs) = sort_side(&biclique.left_node_ids, &biclique.left_coeffs);
    let (right_node_ids, right_coeffs) = sort_side(&biclique.right_node_ids, &biclique.right_coeffs);
    let r = Biclique { left_node_ids, right_node_ids, left_coeffs, right_coeffs, terms_used: biclique.terms_used };
    proof {
        assert forall|g: &ConstrGraph| rect_factors(g, biclique@) implies #[trigger] rect_factors(g, r@) by {
            assert forall|i: int, j: int| 0 <= i < r.left_node_ids@.len() && 0 <= j < r.right_node_ids@.len() implies
                #[trigger] factored_edge(g, r.left_node_ids@[i], r.right_node_ids@[j], r.left_coeffs@[i], r.right_coeffs@[j]) by {
                assert(drawn_from(biclique.left_node_ids@, biclique.left_coeffs@, r.left_node_ids@[i], r.left_coeffs@[i]));
                assert(drawn_from(biclique.right_node_ids@, biclique.right_coeffs@, r.right_node_ids@[j], r.right_coeffs@[j]));
                let i0 = choose|x: int| 0 <= x < biclique.left_node_ids@.len() && #[trigger] biclique.left_node_ids@[x] == r.left_node_ids@[i]
                    && biclique.left_coeffs@[x] == r.left_coeffs@[i];
                let j0 = choose|x: int| 0 <= x < biclique.right_node_ids@.len() && #[trigger] biclique.right_node_ids@[x] == r.right_node_ids@[j]
                    && biclique.right_coeffs@[x] == r.right_coeffs@[j];
                assert(factored_edge(g, biclique@.left_node_ids[i0], biclique@.right_node_ids[j0], biclique@.left_coeffs[i0], biclique@.right_coeffs[j0]));
            }
        }
    }
    r
}

/// The first edge joining left node `left_id` to right node `right_id`.
fn edge_between(graph: &ConstrGraph, left_id: usize, right_id: usize) -> (r: Option<GraphEdge>)
    ensures
        r matches Some(e) ==> e.left_id == left_id && e.right_id == right_id && graph.edges@.contains(e),
        r is None ==> forall|k: int| 0 <= k < graph.edges@.len() ==> !((#[trigger] graph.edges@[k]).left_id == left_id
            && graph.edges@[k].right_id == right_id),
{
    let mut k: usize = 0;
    while k < graph.edges.len()
        invariant
            k <= graph.edges@.len(),
            forall|m: int| 0 <= m < k ==> !((#[trigger] graph.edges@[m]).left_id == left_id && graph.edges@[m].right_id == right_id),
        decreases graph.edges.len() - k,
    {
        let e = graph.edges[k];
        if e.left_id == left_id && e.right_id == right_id {
            assert(graph.edges@[k as int] == e);
            return Some(e);
        }
        k = k + 1;
    }
    None
}

fn overlaps_terms(mask: u64, edge_terms: u64) -> (r: bool)
    ensures
        r == (mask & edge_terms != 0),
{
    mask & edge_terms != 0
}

/// What an accepted update gives: on the same side, `r`'s delta unchanged;
/// across the sides, an edge joining `q` and `r` with terms unused by `q`,
/// `r` and the biclique, `r`'s terms joined with the edge's, and a
/// coefficient for `r` that is the edge's over `q`'s (the one `r` had, if it
/// already had one).
spec fn update_rel(graph: &ConstrGraph, b: BicliqueModel, q: SearchNode, dq: Delta, r: SearchNode, dr: Delta, d: Delta) -> bool {
    if node_is_left(q) == node_is_left(r) {
        d == dr && dq.terms & dr.terms == 0
    } else {
        exists|e: GraphEdge| #[trigger] graph.edges@.contains(e)
            && e.left_id == (if node_is_left(q) { node_id(q) } else { node_id(r) })
            && e.right_id == (if node_is_left(q) { node_id(r) } else { node_id(q) })
            && dq.terms & dr.terms == 0
            && b.terms_used & e.terms_used == 0
            && dq.terms & e.terms_used == 0
            && dr.terms & e.terms_used == 0
            && d.terms == dr.terms | e.terms_used
            && dq.coeff.num() != 0
            && d.coeff.pair() == div_pair(e.coeff, dq.coeff)
            && is_product(e.coeff, dq.coeff, d.coeff)
            && (dr.terms != 0 ==> d.coeff == dr.coeff)
    }
}

/// What adding `r` would change after `q` joins: on the same side, `r`
/// carries over unless the two share a term; across the sides, an edge must
/// join them with terms unused by `q`, `r` and the biclique, and `r`'s
/// coefficient must be (or become, if it has none yet) the edge's
/// coefficient over `q`'s.
fn update_delta(graph: &ConstrGraph, biclique: &Biclique, q: SearchNode, dq: &Delta, r: SearchNode, dr: &Delta) -> (res: Option<Delta>)
    ensures
        node_is_left(q) == node_is_left(r) ==> res == (if dq.terms & dr.terms != 0 { None } else { Some(*dr) }),
        res matches Some(d) ==> update_rel(graph, biclique@, q, *dq, r, *dr, d),
{
    match (q, r) {
        (SearchNode::Left(_), SearchNode::Left(_)) | (SearchNode::Right(_), SearchNode::Right(_)) => {
            if dq.terms & dr.terms != 0 {
                return None;
            }
            return Some(*dr);
        },
        _ => {},
    }
    let (left_id, right_id) = match (q, r) {
        (SearchNode::Left(l), SearchNode::Right(rr)) => (l, rr),
        (SearchNode::Right(rr), SearchNode::Left(l)) => (l, rr),
        (SearchNode::Left(l), SearchNode::Left(_)) => (l, l),
        (SearchNode::Right(rr), SearchNode::Right(_)) => (rr, rr),
    };
    let edge = match edge_between(graph, left_id, right_id) {
        Some(e) => e,
        None => return None,
    };
    if overlaps_terms(dq.terms, dr.terms) {
        return None;
    }
    if overlaps_terms(biclique.terms_used, edge.terms_used) {
        return None;
    }
    if overlaps_terms(dq.terms, edge.terms_used) {
        return None;
    }
    if overlaps_terms(dr.terms, edge.terms_used) {
        return None;
    }
    let expected = match divide(&edge.coeff, &dq.coeff) {
        Some(x) => x,
        None => return None,
    };
    let mut next = *dr;
    if dr.terms == 0 {
        next.coeff = expected;
    } else if !dr.coeff.equals(&expected) {
        return None;
    }
    next.terms = next.terms | edge.terms_used;
    proof {
        if dr.terms != 0 {
            Rational::lemma_eq_from_pair(dr.coeff, expected);
        }
    }
    Some(next)
}

/// The delta of the first entry of `m` for `q`.
pub open spec fn node_delta(m: Seq<(SearchNode, Delta)>, q: SearchNode) -> Option<Delta>
    decreases m.len(),
{
    if m.len() == 0 {
        None
    } else if m[0].0 == q {
        Some(m[0].1)
    } else {
        node_delta(m.drop_first(), q)
    }
}

proof fn lemma_node_delta_some(m: Seq<(SearchNode, Delta)>, q: SearchNode)
    ensures
        node_delta(m, q) is Some <==> exists|k: int| 0 <= k < m.len() && (#[trigger] m[k]).0 == q,
    decreases m.len(),
{
    if m.len() > 0 {
        lemma_node_delta_some(m.drop_first(), q);
        if m[0].0 != q {
            assert forall|k: int| 0 <= k < m.len() && (#[trigger] m[k]).0 == q implies 0 <= k - 1 < m.drop_first().len()
                && m.drop_first()[k - 1].0 == q by {
            }
            assert forall|k: int| 0 <= k < m.drop_first().len() && (#[trigger] m.drop_first()[k]).0 == q implies m[k + 1].0 == q by {
            }
        }
    }
}

fn frontier_get(m: &Vec<(SearchNode, Delta)>, q: SearchNode) -> (r: Option<Delta>)
    ensures
        r == node_delta(m@, q),
{
    let mut i: usize = 0;
    assert(m@.subrange(0, m@.len() as int) =~= m@);
    while i < m.len()
        invariant
            i <= m@.len(),
            node_delta(m@, q) == node_delta(m@.subrange(i as int, m@.len() as int), q),
        decreases m.len() - i,
    {
        assert(m@.subrange(i as int, m@.len() as int).drop_first() =~= m@.subrange(i + 1, m@.len() as int));
        if m[i].0 == q {
            return Some(m[i].1);
        }
        i = i + 1;
    }
    None
}

fn node_listed(list: &Vec<SearchNode>, q: SearchNode) -> (r: bool)
    ensures
        r == list@.contains(q),
{
    let mut i: usize = 0;
    while i < list.len()
        invariant
            i <= list@.len(),
            forall|k: int| 0 <= k < i ==> list@[k] != q,
        decreases list.len() - i,
    {
        if list[i] == q {
            return true;
        }
        i = i + 1;
    }
    false
}

fn frontier_has(m: &Vec<(SearchNode, Delta)>, q: SearchNode) -> (r: bool)
    ensures
        r <==> exists|k: int| 0 <= k < m@.len() && (#[trigger] m@[k]).0 == q,
{
    proof {
        lemma_node_delta_some(m@, q);
    }
    frontier_get(m, q).is_some()
}

/// For each frontier node `q`, the frontier after `q` joins: the other
/// frontier nodes that stay compatible, with their updated deltas.
fn build_child_frontiers(
    graph: &ConstrGraph,
    biclique: &Biclique,
    subg: &Vec<(SearchNode, Delta)>,
) -> (r: Vec<(SearchNode, Vec<(SearchNode, Delta)>)>)
    ensures
        r@.len() == subg@.len(),
        forall|a: int| 0 <= a < r@.len() ==> (#[trigger] r@[a]).0 == subg@[a].0,
        forall|a: int, m: int| 0 <= a < r@.len() && 0 <= m < r@[a].1@.len() ==> exists|b: int| 0 <= b < subg@.len()
            && subg@[b].0 == (#[trigger] r@[a].1@[m]).0
            && update_rel(graph, biclique@, subg@[a].0, subg@[a].1, subg@[b].0, subg@[b].1, r@[a].1@[m].1),
{
    let mut out: Vec<(SearchNode, Vec<(SearchNode, Delta)>)> = Vec::new();
    let mut a: usize = 0;
    while a < subg.len()
        invariant
            a <= subg@.len(),
            out@.len() == a,
            forall|x: int| 0 <= x < a ==> (#[trigger] out@[x]).0 == subg@[x].0,
            forall|x: int, m: int| 0 <= x < a && 0 <= m < out@[x].1@.len() ==> exists|b: int| 0 <= b < subg@.len()
                && subg@[b].0 == (#[trigger] out@[x].1@[m]).0
                && update_rel(graph, biclique@, subg@[x].0, subg@[x].1, subg@[b].0, subg@[b].1, out@[x].1@[m].1),
        decreases subg.len() - a,
    {
        let (q, dq) = subg[a];
        let mut child: Vec<(SearchNode, Delta)> = Vec::new();
        let mut b: usize = 0;
        while b < subg.len()
            invariant
                b <= subg@.len(),
                a < subg@.len(),
                (q, dq) == subg@[a as int],
                forall|m: int| 0 <= m < child@.len() ==> exists|c: int| 0 <= c < subg@.len()
                    && subg@[c].0 == (#[trigger] child@[m]).0
                    && update_rel(graph, biclique@, q, dq, subg@[c].0, subg@[c].1, child@[m].1),
            decreases subg.len() - b,
        {
            let (r, dr) = subg[b];
            if q != r {
                match update_delta(graph, biclique, q, &dq, r, &dr) {
                    Some(updated) => {
                        let ghost prev = child@;
                        child.push((r, updated));
                        proof {
                            assert forall|m: int| 0 <= m < child@.len() implies exists|c: int| 0 <= c < subg@.len()
                                && subg@[c].0 == (#[trigger] child@[m]).0
                                && update_rel(graph, biclique@, q, dq, subg@[c].0, subg@[c].1, child@[m].1) by {
                                if m < prev.len() {
                                    assert(child@[m] == prev[m]);
                                } else {
                                    assert(subg@[b as int] == (r, dr));
                                }
                            }
                        }
                    },
                    None => {},
                }
            }
            b = b + 1;
        }
        let ghost prev_out = out@;
        out.push((q, child));
        proof {
            assert forall|x: int, m: int| 0 <= x < a + 1 && 0 <= m < out@[x].1@.len() implies exists|c: int| 0 <= c < subg@.len()
                && subg@[c].0 == (#[trigger] out@[x].1@[m]).0
                && update_rel(graph, biclique@, subg@[x].0, subg@[x].1, subg@[c].0, subg@[c].1, out@[x].1@[m].1) by {
                if x < a {
                    assert(out@[x] == prev_out[x]);
                }
            }
        }
        a = a + 1;
    }
    out
}

/// The candidates to branch on: left nodes while the biclique is empty;
/// right nodes that already meet the first left node next; afterwards all
/// candidates except those a most-overlapping candidate's child frontier
/// covers.
fn sift(
    biclique: &Biclique,
    cand: &Vec<SearchNode>,
    subg: &Vec<(SearchNode, Delta)>,
    subgq: &Vec<(SearchNode, Vec<(SearchNode, Delta)>)>,
) -> (r: Vec<SearchNode>)
    ensures
        forall|k: int| 0 <= k < r@.len() ==> cand@.contains(#[trigger] r@[k]),
        r@ == if biclique.left_node_ids@.len() == 0 && biclique.right_node_ids@.len() == 0 {
            left_members(cand@)
        } else if biclique.left_node_ids@.len() == 1 && biclique.right_node_ids@.len() == 0 {
            right_consuming(cand@, subg@)
        } else {
            nodes_not_in(cand@, node_pivot_upto(cand@, subgq@, cand@.len() as int).1)
        },
{
    let mut out: Vec<SearchNode> = Vec::new();
    if biclique.left_node_ids.len() == 0 && biclique.right_node_ids.len() == 0 {
        let mut i: usize = 0;
        while i < cand.len()
            invariant
                i <= cand@.len(),
                forall|k: int| 0 <= k < out@.len() ==> cand@.contains(#[trigger] out@[k]),
                out@ == left_members(cand@.take(i as int)),
            decreases cand.len() - i,
        {
            assert(cand@.take(i + 1).drop_last() =~= cand@.take(i as int));
            match cand[i] {
                SearchNode::Left(_) => out.push(cand[i]),
                SearchNode::Right(_) => {},
            }
            i = i + 1;
        }
        assert(cand@.take(i as int) =~= cand@);
        return out;
    }
    if biclique.left_node_ids.len() == 1 && biclique.right_node_ids.len() == 0 {
        let mut i: usize = 0;
        while i < cand.len()
            invariant
                i <= cand@.len(),
                forall|k: int| 0 <= k < out@.len() ==> cand@.contains(#[trigger] out@[k]),
                out@ == right_consuming(cand@.take(i as int), subg@),
            decreases cand.len() - i,
        {
            assert(cand@.take(i + 1).drop_last() =~= cand@.take(i as int));
            match cand[i] {
                SearchNode::Right(_) => {
                    match frontier_get(subg, cand[i]) {
                        Some(d) => {
                            if d.terms != 0 {
                                out.push(cand[i]);
                            }
                        },
                        None => {},
                    }
                },
                SearchNode::Left(_) => {},
            }
            i = i + 1;
        }
        assert(cand@.take(i as int) =~= cand@);
        return out;
    }
    let mut best_forbidden: Vec<SearchNode> = Vec::new();
    let mut best_score: usize = 0;
    let mut i: usize = 0;
    while i < cand.len()
        invariant
            i <= cand@.len(),
            (best_score as int, best_forbidden@) == node_pivot_upto(cand@, subgq@, i as int),
        decreases cand.len() - i,
    {
        let q = cand[i];
        let mut forbidden: Vec<SearchNode> = Vec::new();
        let mut k: usize = 0;
        assert(subgq@.subrange(0, subgq@.len() as int) =~= subgq@);
        while k < subgq.len()
            invariant_except_break
                forbidden@.len() == 0,
                forbidden_of(subgq@, q) == forbidden_of(subgq@.subrange(k as int, subgq@.len() as int), q),
                k == subgq@.len() ==> forbidden_of(subgq@, q).len() == 0,
            invariant
                k <= subgq@.len(),
            ensures
                forbidden@ == forbidden_of(subgq@, q),
            decreases subgq.len() - k,
        {
            assert(subgq@.subrange(k as int, subgq@.len() as int).drop_first() =~= subgq@.subrange(k + 1, subgq@.len() as int));
            if subgq[k].0 == q {
                let next = &subgq[k].1;
                assert(subgq@.subrange(k as int, subgq@.len() as int)[0] == subgq@[k as int]);
                assert(forbidden_of(subgq@, q) == next@.map_values(|e: (SearchNode, Delta)| e.0));
                let mut m: usize = 0;
                while m < next.len()
                    invariant
                        m <= next@.len(),
                        forbidden@ == next@.take(m as int).map_values(|e: (SearchNode, Delta)| e.0),
                    decreases next.len() - m,
                {
                    forbidden.push(next[m].0);
                    m = m + 1;
                    assert(forbidden@ =~= next@.take(m as int).map_values(|e: (SearchNode, Delta)| e.0));
                }
                assert(next@.take(m as int) =~= next@);
                break;
            }
            k = k + 1;
            if k == subgq.len() {
                assert(subgq@.subrange(k as int, subgq@.len() as int) =~= Seq::<(SearchNode, Vec<(SearchNode, Delta)>)>::empty());
            }
        }
        let mut score: usize = 0;
        let mut m: usize = 0;
        while m < forbidden.len()
            invariant
                m <= forbidden@.len(),
                score <= m,
                score == count_in(forbidden@.take(m as int), cand@),
            decreases forbidden.len() - m,
        {
            assert(forbidden@.take(m + 1).drop_last() =~= forbidden@.take(m as int));
            if node_listed(cand, forbidden[m]) {
                score = score + 1;
            }
            m = m + 1;
        }
        assert(forbidden@.take(m as int) =~= forbidden@);
        if score > best_score {
            best_score = score;
            best_forbidden = forbidden;
        }
        i = i + 1;
    }
    let mut i: usize = 0;
    while i < cand.len()
        invariant
            i <= cand@.len(),
            forall|k: int| 0 <= k < out@.len() ==> cand@.contains(#[trigger] out@[k]),
            out@ == nodes_not_in(cand@.take(i as int), best_forbidden@),
        decreases cand.len() - i,
    {
        assert(cand@.take(i + 1).drop_last() =~= cand@.take(i as int));
        if !node_listed(&best_forbidden, cand[i]) {
            out.push(cand[i]);
        }
        i = i + 1;
    }
    assert(cand@.take(i as int) =~= cand@);
    out
}

/// The left nodes of `cand`, in order.
spec fn left_members(cand: Seq<SearchNode>) -> Seq<SearchNode>
    decreases cand.len(),
{
    if cand.len() == 0 {
        seq![]
    } else if cand.last() is Left {
        left_members(cand.drop_last()).push(cand.last())
    } else {
        left_members(cand.drop_last())
    }
}

/// The right nodes of `cand`, in order, whose frontier delta consumes terms.
spec fn right_consuming(cand: Seq<SearchNode>, subg: Seq<(SearchNode, Delta)>) -> Seq<SearchNode>
    decreases cand.len(),
{
    if cand.len() == 0 {
        seq![]
    } else {
        let rest = right_consuming(cand.drop_last(), subg);
        if cand.last() is Right && (node_delta(subg, cand.last()) matches Some(d) && d.terms != 0) {
            rest.push(cand.last())
        } else {
            rest
        }
    }
}

/// The nodes of the neighbour list of the first entry of `subgq` for `q`
/// (none when there is no entry).
spec fn forbidden_of(subgq: Seq<(SearchNode, Vec<(SearchNode, Delta)>)>, q: SearchNode) -> Seq<SearchNode>
    decreases subgq.len(),
{
    if subgq.len() == 0 {
        seq![]
    } else if subgq[0].0 == q {
        subgq[0].1@.map_values(|e: (SearchNode, Delta)| e.0)
    } else {
        forbidden_of(subgq.drop_first(), q)
    }
}

/// How many members of `f` (counted with repeats) occur in `pool`.
spec fn count_in(f: Seq<SearchNode>, pool: Seq<SearchNode>) -> int
    decreases f.len(),
{
    if f.len() == 0 {
        0
    } else if pool.contains(f.last()) {
        count_in(f.drop_last(), pool) + 1
    } else {
        count_in(f.drop_last(), pool)
    }
}

/// The pivot after the first `i` candidates: the largest overlap of a
/// candidate's neighbours with `cand` (the first reaching it wins), and those
/// neighbours.
spec fn node_pivot_upto(cand: Seq<SearchNode>, subgq: Seq<(SearchNode, Vec<(SearchNode, Delta)>)>, i: int) -> (int, Seq<SearchNode>)
    decreases i,
{
    if i <= 0 {
        (0, seq![])
    } else {
        let prev = node_pivot_upto(cand, subgq, i - 1);
        let f = forbidden_of(subgq, cand[i - 1]);
        let c = count_in(f, cand);
        if c > prev.0 {
            (c, f)
        } else {
            prev
        }
    }
}

/// The members of `pool`, in order, that are not in `drop`.
spec fn nodes_not_in(pool: Seq<SearchNode>, drop: Seq<SearchNode>) -> Seq<SearchNode>
    decreases pool.len(),
{
    if pool.len() == 0 {
        seq![]
    } else if drop.contains(pool.last()) {
        nodes_not_in(pool.drop_last(), drop)
    } else {
        nodes_not_in(pool.drop_last(), drop).push(pool.last())
    }
}

/// One level of the search: record the biclique (sorted) when it shares a
/// side and nothing can join it; otherwise branch on each sifted candidate.
fn expand(
    graph: &ConstrGraph,
    biclique: &mut Biclique,
    subg: &Vec<(SearchNode, Delta)>,
    cand: &mut Vec<SearchNode>,
    out: &mut Vec<Biclique>,
)
    requires
        biclique_aligned(old(biclique)@),
        edges_nonzero(graph) ==> rect_factors(graph, old(biclique)@) && frontier_fits(graph, old(biclique)@, subg@),
        forall|k: int| 0 <= k < old(out)@.len() ==> found_in(graph, (#[trigger] old(out)@[k])@),
    ensures
        final(biclique).left_node_ids@ == old(biclique).left_node_ids@,
        final(biclique).right_node_ids@ == old(biclique).right_node_ids@,
        final(biclique).left_coeffs@ == old(biclique).left_coeffs@,
        final(biclique).right_coeffs@ == old(biclique).right_coeffs@,
        final(cand)@.len() <= old(cand)@.len(),
        forall|k: int| 0 <= k < final(out)@.len() ==> found_in(graph, (#[trigger] final(out)@[k])@),
    decreases old(cand)@.len(),
{
    if has_sharing(biclique) && subg.len() == 0 {
        let found = canonicalize_biclique(biclique);
        let ghost prev = out@;
        out.push(found);
        proof {
            assert forall|k: int| 0 <= k < out@.len() implies found_in(graph, (#[trigger] out@[k])@) by {
                if k < prev.len() {
                    assert(out@[k] == prev[k]);
                } else {
                    if edges_nonzero(graph) {
                        assert(rect_factors(graph, found@));
                    }
                }
            }
        }
        return;
    }
    let subgq = build_child_frontiers(graph, biclique, subg);
    let curr = sift(biclique, cand, subg, &subgq);
    let ghost entry_len = cand@.len();
    let ghost entry = biclique@;
    let mut i: usize = 0;
    while i < curr.len()
        invariant
            i <= curr@.len(),
            cand@.len() <= entry_len,
            entry_len == old(cand)@.len(),
            entry == old(biclique)@,
            subgq@.len() == subg@.len(),
            forall|a: int| 0 <= a < subgq@.len() ==> (#[trigger] subgq@[a]).0 == subg@[a].0,
            forall|a: int, m: int| 0 <= a < subgq@.len() && 0 <= m < subgq@[a].1@.len() ==> exists|b: int| 0 <= b < subg@.len()
                && subg@[b].0 == (#[trigger] subgq@[a].1@[m]).0
                && update_rel(graph, entry, subg@[a].0, subg@[a].1, subg@[b].0, subg@[b].1, subgq@[a].1@[m].1),
            biclique.left_node_ids@ == old(biclique).left_node_ids@,
            biclique.right_node_ids@ == old(biclique).right_node_ids@,
            biclique.left_coeffs@ == old(biclique).left_coeffs@,
            biclique.right_coeffs@ == old(biclique).right_coeffs@,
            biclique_aligned(biclique@),
            edges_nonzero(graph) ==> rect_factors(graph, biclique@) && frontier_fits(graph, biclique@, subg@),
            forall|k: int| 0 <= k < out@.len() ==> found_in(graph, (#[trigger] out@[k])@),
        decreases curr.len() - i,
    {
        let q = curr[i];
        i = i + 1;
        let mut k: usize = 0;
        while k < subg.len() && subg[k].0 != q
            invariant
                k <= subg@.len(),
            decreases subg.len() - k,
        {
            k = k + 1;
        }
        if k == subg.len() {
            continue;
        }
        let dq = subg[k].1;
        let mut pos: usize = 0;
        while pos < cand.len() && cand[pos] != q
            invariant
                pos <= cand@.len(),
            decreases cand.len() - pos,
        {
            pos = pos + 1;
        }
        if pos == cand.len() {
            continue;
        }
        let removed = cand.remove(pos);
        assert(removed == q);
        let child_subg = copy_vec(&subgq[k].1);
        let mut child_cand: Vec<SearchNode> = Vec::new();
        let mut m: usize = 0;
        while m < cand.len()
            invariant
                m <= cand@.len(),
                child_cand@.len() <= m,
            decreases cand.len() - m,
        {
            if frontier_has(&child_subg, cand[m]) {
                child_cand.push(cand[m]);
            }
            m = m + 1;
        }
        let ghost before = biclique@;
        proof {
            if edges_nonzero(graph) {
                assert(delta_fits(graph, before, subg@[k as int].0, subg@[k as int].1));
                lemma_push_factors(graph, before, removed, dq);
                let pushed = biclique_push(before, node_is_left(removed), node_id(removed), dq.coeff, dq.terms);
                assert forall|c: int| 0 <= c < child_subg@.len() implies delta_fits(graph, pushed, (#[trigger] child_subg@[c]).0, child_subg@[c].1) by {
                    assert(child_subg@[c] == subgq@[k as int].1@[c]);
                    let b = choose|b: int| 0 <= b < subg@.len()
                        && subg@[b].0 == (#[trigger] subgq@[k as int].1@[c]).0
                        && update_rel(graph, entry, subg@[k as int].0, subg@[k as int].1, subg@[b].0, subg@[b].1, subgq@[k as int].1@[c].1);
                    assert(delta_fits(graph, before, subg@[b].0, subg@[b].1));
                    lemma_child_fits(graph, before, entry, removed, dq, subg@[b].0, subg@[b].1, child_subg@[c].1);
                }
            }
        }
        push(biclique, removed, &dq);
        expand(graph, biclique, &child_subg, &mut child_cand, out);
        pop(biclique, removed, &dq);
        proof {
            assert(before.left_node_ids.push(node_id(removed)).drop_last() =~= before.left_node_ids);
            assert(before.left_coeffs.push(dq.coeff).drop_last() =~= before.left_coeffs);
            assert(before.right_node_ids.push(node_id(removed)).drop_last() =~= before.right_node_ids);
            assert(before.right_coeffs.push(dq.coeff).drop_last() =~= before.right_coeffs);
        }
    }
}

/// In the graphs built from canonicalised splits every edge consumes a term,
/// so every biclique enumerated from one of them factors its rectangle.
pub proof fn lemma_built_graphs_factor(gs: Seq<ConstrGraph>, k: int, b: BicliqueModel)
    requires
        graphs_ok(gs),
        0 <= k < gs.len(),
        found_in(&gs[k], b),
    ensures
        rect_factors(&gs[k], b),
{
    assert(edges_nonzero(&gs[k]));
}

/// A recorded biclique: it shares a side, each side is sorted by node id
/// with one coefficient per node, and (when every edge consumes a term) its
/// rectangle is factored.
pub open spec fn found_in(g: &ConstrGraph, b: BicliqueModel) -> bool {
    &&& found_ok(b)
    &&& edges_nonzero(g) ==> rect_factors(g, b)
}

/// A recorded biclique shares a side, and each side is sorted by node id
/// with one coefficient per node.
pub open spec fn found_ok(b: BicliqueModel) -> bool {
    &&& biclique_aligned(b)
    &&& sharing(b)
    &&& forall|x: int, y: int| 0 <= x < y < b.left_node_ids.len() ==> (#[trigger] b.left_node_ids[x]) <= (#[trigger] b.left_node_ids[y])
    &&& forall|x: int, y: int| 0 <= x < y < b.right_node_ids.len() ==> (#[trigger] b.right_node_ids[x]) <= (#[trigger] b.right_node_ids[y])
}

/// The bicliques of a graph that share a side and cannot be extended, each
/// with its sides sorted by node id and, when every edge of the graph
/// consumes a term, with coefficients that factor its rectangle: every left
/// node meets every right node by an edge whose coefficient is the left
/// coefficient times the right one. A graph with fewer than two edges has
/// none.
pub fn enumerate_bicliques(graph: &ConstrGraph) -> (r: Vec<Biclique>)
    ensures
        forall|k: int| 0 <= k < r@.len() ==> found_in(graph, (#[trigger] r@[k])@),
        graph.edges@.len() < 2 ==> r@.len() == 0,
{
    if graph.edges.len() < 2 {
        return Vec::new();
    }
    let mut biclique = Biclique {
        left_node_ids: Vec::new(),
        right_node_ids: Vec::new(),
        left_coeffs: Vec::new(),
        right_coeffs: Vec::new(),
        terms_used: 0,
    };
    let mut cand: Vec<SearchNode> = Vec::new();
    let mut subg: Vec<(SearchNode, Delta)> = Vec::new();
    let mut i: usize = 0;
    while i < graph.left_nodes.len()
        invariant
            i <= graph.left_nodes@.len(),
            forall|k: int| 0 <= k < subg@.len() ==> (#[trigger] subg@[k]).1.terms == 0,
        decreases graph.left_nodes.len() - i,
    {
        cand.push(SearchNode::Left(i));
        subg.push((SearchNode::Left(i), Delta { coeff: Rational::one(), terms: 0 }));
        i = i + 1;
    }
    let mut i: usize = 0;
    while i < graph.right_nodes.len()
        invariant
            i <= graph.right_nodes@.len(),
            forall|k: int| 0 <= k < subg@.len() ==> (#[trigger] subg@[k]).1.terms == 0,
        decreases graph.right_nodes.len() - i,
    {
        cand.push(SearchNode::Right(i));
        subg.push((SearchNode::Right(i), Delta { coeff: Rational::one(), terms: 0 }));
        i = i + 1;
    }
    let mut out: Vec<Biclique> = Vec::new();
    proof {
        assert(forall|k: int| 0 <= k < subg@.len() ==> delta_fits(graph, biclique@, (#[trigger] subg@[k]).0, subg@[k].1));
    }
    expand(graph, &mut biclique, &subg, &mut cand, &mut out);
    out
}
} // verus!
