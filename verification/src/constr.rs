//! Constriction graphs over the parenthesised terms of a definition, and
//! the biclique search that turns shared sub-products into factorizations.
use vstd::prelude::*;

use crate::bits::{bit, bits_below, checked_product_of_members, lemma_bit_test, product_over, union_of_members};
use crate::canon::{build_canon_pool, canonicalize_sub_term};
use crate::cost::{contraction_cost, max1};
use crate::parenth::{FactorSubset, ParenthResult};
use crate::rational::{checked_add, checked_mul, divide, fits_add, fits_div, fits_mul, is_product, lemma_cross_chain, mul_pair, multiply, reduced, Rational};
use crate::repr::{copy_vec, def_models, DefModel, Factor, FactorModel, Index, IndexId, Range, RangeId, TensorComputation, TensorDef, TensorId, Term};
use crate::sort::{lemma_seq_le_total, lemma_seq_le_trans, seq_le, stable_sort_order, vec_le, SortKey};

pub use crate::rl_parenth::{make_sub_term, LastStepIndices};

verus! {

// ---------------------------------------------------------------------------
// Data structures
// ---------------------------------------------------------------------------

#[derive(Clone, Copy, Debug, PartialEq, Eq, Structural, Hash, PartialOrd, Ord)]
pub struct VertexId(pub usize);

#[derive(Clone, Copy, Debug, PartialEq, Eq, Structural, Hash)]
pub enum Side {
    Left,
    Right,
}

/// What an edge records of the term split it comes from.
#[derive(Clone, Copy, Debug)]
pub struct EdgeInfo {
    pub term_idx: usize,
    pub eval_idx: usize,
    pub coeff: Rational,
    pub exc_cost: u64,
}

/// A bipartite graph of canonical sub-terms for one last-step index pattern.
#[derive(Debug)]
pub struct ConstrGraph {
    pub vertices: Vec<Term>,
    pub vertex_side: Vec<Side>,
    pub edges: Vec<(VertexId, VertexId, EdgeInfo)>,
    pub last_step: LastStepIndices,
}

/// Every vertex has a side and every edge joins two vertices.
pub open spec fn graph_wf(g: &ConstrGraph) -> bool {
    &&& g.vertex_side@.len() == g.vertices@.len()
    &&& forall|e: int| 0 <= e < g.edges@.len() ==> (#[trigger] g.edges@[e]).0.0 < g.vertices@.len()
        && g.edges@[e].1.0 < g.vertices@.len()
}

// ---------------------------------------------------------------------------
// Graph construction
// ---------------------------------------------------------------------------

/// Add `canon` on `side` as a vertex unless an equal one is there; its id.
fn ensure_vertex(verts: &mut Vec<Term>, sides: &mut Vec<Side>, canon: Term, side: Side) -> (r: VertexId)
    requires
        old(verts)@.len() == old(sides)@.len(),
    ensures
        final(verts)@.len() == final(sides)@.len(),
        r.0 < final(verts)@.len(),
        final(verts)@[r.0 as int]@ == canon@,
        final(sides)@[r.0 as int] == side,
        final(verts)@.len() == old(verts)@.len() || final(verts)@.len() == old(verts)@.len() + 1,
        forall|k: int| 0 <= k < old(verts)@.len() ==> #[trigger] final(verts)@[k] == old(verts)@[k],
        forall|k: int| 0 <= k < old(sides)@.len() ==> #[trigger] final(sides)@[k] == old(sides)@[k],
{
    let mut k: usize = 0;
    while k < verts.len()
        invariant
            k <= verts@.len(),
            verts@.len() == sides@.len(),
            verts@ == old(verts)@,
            sides@ == old(sides)@,
        decreases verts.len() - k,
    {
        if sides[k] == side && verts[k].same(&canon) {
            return VertexId(k);
        }
        k = k + 1;
    }
    let id = verts.len();
    verts.push(canon);
    sides.push(side);
    VertexId(id)
}

/// Union of the masks of the members of `subset`, or `None` when the subset
/// names a factor the information does not have.
fn members_union(masks: &Vec<u64>, subset: u64) -> (r: Option<u64>)
    ensures
        r is Some <==> masks@.len() <= 64 && bits_below(subset, masks@.len() as int),
        r matches Some(v) ==> v == crate::bits::union_over(masks@, subset, masks@.len() as int),
{
    if masks.len() > 64 {
        return None;
    }
    let mut i: usize = masks.len();
    while i < 64
        invariant
            masks@.len() <= i <= 64,
            forall|c: u64| masks@.len() <= c < i ==> !#[trigger] bit(subset, c),
        decreases 64 - i,
    {
        proof {
            lemma_bit_test(subset, i as u64);
        }
        if subset & (1u64 << i as u64) != 0 {
            assert(!bits_below(subset, masks@.len() as int)) by {
                assert(bit(subset, i as u64));
            }
            return None;
        }
        i = i + 1;
    }
    assert(bits_below(subset, masks@.len() as int)) by {
        assert forall|c: u64| c < 64 && #[trigger] bit(subset, c) implies c < masks@.len() by {
        }
    }
    Some(union_of_members(masks, subset))
}

/// The range numbers of the summation indices at the set bits of `mask`
/// below `k`, in bit order.
pub open spec fn masked_range_nums(sums: Seq<Index>, mask: u64, k: int) -> Seq<u32>
    decreases k,
{
    if k <= 0 {
        seq![]
    } else if bit(mask, (k - 1) as u64) {
        masked_range_nums(sums, mask, k - 1).push(sums[k - 1].range.0)
    } else {
        masked_range_nums(sums, mask, k - 1)
    }
}

/// The ranges of the summation indices at the set bits of `mask`, sorted;
/// `None` when a bit names no summation index.
fn sum_ranges_of(term: &Term, mask: u64) -> (r: Option<Vec<RangeId>>)
    ensures
        r is Some <==> bits_below(mask, term.sum_indices@.len() as int),
        r matches Some(v) ==> v@ == crate::sort::sorted_u32(masked_range_nums(term.sum_indices@, mask, 64)).map_values(
            |x: u32| RangeId(x),
        ),
{
    let mut nums: Vec<u32> = Vec::new();
    let mut i: usize = 0;
    while i < 64
        invariant
            i <= 64,
            nums@ == masked_range_nums(term.sum_indices@, mask, i as int),
            forall|c: u64| c < i && #[trigger] bit(mask, c) ==> c < term.sum_indices@.len(),
        decreases 64 - i,
    {
        if (mask >> i as u64) & 1 == 1 {
            if i >= term.sum_indices.len() {
                assert(bit(mask, i as u64));
                return None;
            }
            nums.push(term.sum_indices[i].range.0);
        }
        i = i + 1;
    }
    let sorted = crate::sort::sort_u32(&nums);
    let mut out: Vec<RangeId> = Vec::new();
    let mut j: usize = 0;
    while j < sorted.len()
        invariant
            j <= sorted@.len(),
            out@ == sorted@.take(j as int).map_values(|x: u32| RangeId(x)),
        decreases sorted.len() - j,
    {
        out.push(RangeId(sorted[j]));
        j = j + 1;
        assert(out@ =~= sorted@.take(j as int).map_values(|x: u32| RangeId(x)));
    }
    assert(sorted@.take(j as int) =~= sorted@);
    Some(out)
}

/// The ids of the factors of `t`.
fn factor_ids(t: &Term) -> (r: Vec<IndexId>)
    ensures
        forall|x: IndexId| r@.contains(x) <==> crate::rl_parenth::id_present(t@.factors, x),
{
    let ghost fm = t@.factors;
    let mut out: Vec<IndexId> = Vec::new();
    let mut i: usize = 0;
    while i < t.factors.len()
        invariant
            i <= t.factors@.len(),
            fm == t@.factors,
            forall|x: IndexId| out@.contains(x) <==> crate::rl_parenth::id_present(fm.take(i as int), x),
        decreases t.factors.len() - i,
    {
        let f = &t.factors[i];
        assert(fm[i as int] == f@);
        let ghost before = out@;
        let mut j: usize = 0;
        while j < f.indices.len()
            invariant
                j <= f.indices@.len(),
                i < fm.len(),
                fm[i as int] == f@,
                forall|x: IndexId| out@.contains(x) <==> (before.contains(x) || f.indices@.take(j as int).contains(x)),
            decreases f.indices.len() - j,
        {
            let ghost prev = out@;
            assert(forall|x: IndexId| #[trigger] prev.contains(x) <==> (before.contains(x) || f.indices@.take(j as int).contains(x)));
            out.push(f.indices[j]);
            proof {
                let tj = f.indices@.take(j as int);
                let tj1 = f.indices@.take(j + 1);
                assert(tj1 =~= tj.push(f.indices@[j as int]));
                assert forall|x: IndexId| out@.contains(x) <==> (before.contains(x) || tj1.contains(x)) by {
                    if out@.contains(x) {
                        let w = choose|w: int| 0 <= w < out@.len() && out@[w] == x;
                        if w < prev.len() {
                            assert(prev[w] == x);
                            assert(prev.contains(x));
                            if tj.contains(x) {
                                let v = choose|v: int| 0 <= v < tj.len() && tj[v] == x;
                                assert(tj1[v] == x);
                            }
                        } else {
                            assert(tj1[j as int] == x);
                        }
                    }
                    if tj1.contains(x) {
                        let w = choose|w: int| 0 <= w < tj1.len() && tj1[w] == x;
                        if w < j {
                            assert(tj[w] == x);
                            assert(tj.contains(x));
                            assert(prev.contains(x));
                            let v = choose|v: int| 0 <= v < prev.len() && prev[v] == x;
                            assert(out@[v] == x);
                        } else {
                            assert(out@[prev.len() as int] == x);
                        }
                    }
                    if before.contains(x) {
                        assert(prev.contains(x));
                        let v = choose|v: int| 0 <= v < prev.len() && prev[v] == x;
                        assert(out@[v] == x);
                    }
                }
            }
            j = j + 1;
        }
        proof {
            assert(f.indices@.take(j as int) =~= f.indices@);
            assert forall|x: IndexId| out@.contains(x) <==> crate::rl_parenth::id_present(fm.take(i + 1), x) by {
                let pre = fm.take(i as int);
                let nxt = fm.take(i + 1);
                if crate::rl_parenth::id_present(nxt, x) {
                    let (a, b) = choose|a: int, b: int| 0 <= a < nxt.len() && 0 <= b < nxt[a].indices.len() && #[trigger] nxt[a].indices[b] == x;
                    if a < i {
                        assert(pre[a].indices[b] == x);
                    } else {
                        assert(f.indices@[b] == x);
                    }
                }
                if before.contains(x) {
                    let (a, b) = choose|a: int, b: int| 0 <= a < pre.len() && 0 <= b < pre[a].indices.len() && #[trigger] pre[a].indices[b] == x;
                    assert(nxt[a].indices[b] == x);
                }
                if f.indices@.contains(x) {
                    let b = choose|b: int| 0 <= b < f.indices@.len() && f.indices@[b] == x;
                    assert(nxt[i as int].indices[b] == x);
                }
            }
        }
        i = i + 1;
    }
    assert(fm.take(fm.len() as int) =~= fm);
    out
}

fn ids_contains(ids: &Vec<IndexId>, id: IndexId) -> (r: bool)
    ensures
        r == ids@.contains(id),
{
    let mut i: usize = 0;
    while i < ids.len()
        invariant
            i <= ids@.len(),
            forall|k: int| 0 <= k < i ==> ids@[k] != id,
        decreases ids.len() - i,
    {
        if ids[i].0 == id.0 {
            assert(ids@[i as int] == id);
            return true;
        }
        i = i + 1;
    }
    false
}

impl SortKey for ConstrGraph {
    open spec fn spec_le(self, other: Self) -> bool {
        crate::rl_parenth::last_step_le(self.last_step@, other.last_step@)
    }

    proof fn lemma_le_total(a: Self, b: Self) {
        lemma_seq_le_total(crate::rl_parenth::range_nums(a.last_step.sums@), crate::rl_parenth::range_nums(b.last_step.sums@));
    }

    proof fn lemma_le_trans(a: Self, b: Self, c: Self) {
        crate::rl_parenth::lemma_last_step_le_trans(a.last_step@, b.last_step@, c.last_step@);
    }

    fn exec_le(&self, other: &Self) -> (r: bool) {
        crate::rl_parenth::last_step_le_exec(&self.last_step, &other.last_step)
    }
}

#[verifier::loop_isolation(false)]
/// Each group has its own last-step pattern and at least one edge.
spec fn groups_keyed(groups: Seq<(LastStepIndices, Vec<(Term, Term, EdgeInfo)>)>) -> bool {
    &&& forall|a: int, b: int| 0 <= a < b < groups.len() ==> (#[trigger] groups[a]).0@ != (#[trigger] groups[b]).0@
    &&& forall|a: int| 0 <= a < groups.len() ==> (#[trigger] groups[a]).1@.len() >= 1
}

/// Add an edge for every top-level split of term `term_idx` to the group
/// of its last-step pattern; `false` when a lookup the split needs fails.
#[verifier::loop_isolation(false)]
fn add_term_edges(
    def: &TensorDef,
    comp: &TensorComputation,
    term_idx: usize,
    pr: &ParenthResult,
    ext_ids: &Vec<IndexId>,
    pool: &Vec<(RangeId, Vec<IndexId>)>,
    groups: &mut Vec<(LastStepIndices, Vec<(Term, Term, EdgeInfo)>)>,
) -> (ok: bool)
    requires
        term_idx < def.terms@.len(),
        forall|g: int, k: int| 0 <= g < old(groups)@.len() && 0 <= k < old(groups)@[g].1@.len()
            ==> (#[trigger] old(groups)@[g].1@[k]).2.term_idx < def.terms@.len(),
        groups_keyed(old(groups)@),
    ensures
        forall|g: int, k: int| 0 <= g < final(groups)@.len() && 0 <= k < final(groups)@[g].1@.len()
            ==> (#[trigger] final(groups)@[g].1@[k]).2.term_idx < def.terms@.len(),
        groups_keyed(final(groups)@),
{
    let term = &def.terms[term_idx];
    if term.factors.len() < 2 {
        return true;
    }
        let n = pr.info.n_factors;
        if n >= 64 || term.factors.len() > 64 {
            return false;
        }
        proof {
            crate::bits::lemma_low_mask(n as u64, 0);
        }
        let full: u64 = (1u64 << n as u64) - 1;
        let interm = match pr.get(full, 0) {
            Some(x) => x,
            None => return false,
        };
        let mut eval_idx: usize = 0;
        while eval_idx < interm.evals.len()
            invariant
                eval_idx <= interm.evals@.len(),
                term_idx < def.terms@.len(),
                term.factors@.len() <= 64,
                forall|g: int, k: int| 0 <= g < groups@.len() && 0 <= k < groups@[g].1@.len()
                    ==> (#[trigger] groups@[g].1@[k]).2.term_idx < def.terms@.len(),
                groups_keyed(groups@),
            decreases interm.evals.len() - eval_idx,
        {
            let eval = interm.evals[eval_idx];
            let mut left_ext = match members_union(&pr.info.factor_ext_indices, eval.left) {
                Some(v) => v,
                None => return false,
            };
            let mut right_ext = match members_union(&pr.info.factor_ext_indices, eval.right) {
                Some(v) => v,
                None => return false,
            };
            let mut left_subset = eval.left;
            let mut right_subset = eval.right;
            if left_ext > right_ext {
                let t = left_ext;
                left_ext = right_ext;
                right_ext = t;
                let s = left_subset;
                left_subset = right_subset;
                right_subset = s;
            }
            let sums = match sum_ranges_of(term, eval.contracted_sums) {
                Some(v) => v,
                None => return false,
            };
            let lsi = LastStepIndices { left_ext, right_ext, sums };
            let left_sub = make_sub_term(term, left_subset);
            let right_sub = make_sub_term(term, right_subset);
            let left_ids = factor_ids(&left_sub);
            let right_ids = factor_ids(&right_sub);
            let mut contracted_ids: Vec<IndexId> = Vec::new();
            let mut k: usize = 0;
            while k < term.sum_indices.len()
                invariant
                    k <= term.sum_indices@.len(),
                decreases term.sum_indices.len() - k,
            {
                let id = term.sum_indices[k].id;
                if ids_contains(&left_ids, id) && ids_contains(&right_ids, id) {
                    contracted_ids.push(id);
                }
                k = k + 1;
            }
            if eval.cost < interm.best_cost {
                return false;
            }
            let edge_info = EdgeInfo {
                term_idx,
                eval_idx,
                coeff: term.coeff,
                exc_cost: eval.cost - interm.best_cost,
            };
            // Left-first sweep: contracted indices are named by the left side.
            let (left_canon, contracted_map) = match canonicalize_sub_term(
                &left_sub,
                ext_ids.as_slice(),
                def.ext_indices.as_slice(),
                contracted_ids.as_slice(),
                None,
                true,
                pool,
                comp.tensors(),
            ) {
                Some(x) => x,
                None => return false,
            };
            let (right_canon, _) = match canonicalize_sub_term(
                &right_sub,
                ext_ids.as_slice(),
                def.ext_indices.as_slice(),
                contracted_ids.as_slice(),
                Some(&contracted_map),
                false,
                pool,
                comp.tensors(),
            ) {
                Some(x) => x,
                None => return false,
            };
            let mut g: usize = 0;
            while g < groups.len() && !groups[g].0.same(&lsi)
                invariant
                    g <= groups@.len(),
                    forall|a: int| 0 <= a < g ==> (#[trigger] groups@[a]).0@ != lsi@,
                decreases groups.len() - g,
            {
                g = g + 1;
            }
            if g < groups.len() {
                let ghost before = groups@;
                let (key, mut entries) = groups.remove(g);
                entries.push((left_canon, right_canon, edge_info));
                groups.insert(g, (key, entries));
                proof {
                    assert forall|a: int, k: int| 0 <= a < groups@.len() && 0 <= k < groups@[a].1@.len()
                        implies (#[trigger] groups@[a].1@[k]).2.term_idx < def.terms@.len() by {
                        if a != g {
                            assert(groups@[a] == before[a]);
                        } else if k < before[a].1@.len() {
                            assert(groups@[a].1@[k] == before[a].1@[k]);
                        }
                    }
                    assert forall|a: int| 0 <= a < groups@.len() implies (#[trigger] groups@[a]).0@ == before[a].0@
                        && groups@[a].1@.len() >= 1 by {
                        if a != g {
                            assert(groups@[a] == before[a]);
                        }
                    }
                }
            } else {
                let mut entries: Vec<(Term, Term, EdgeInfo)> = Vec::new();
                entries.push((left_canon, right_canon, edge_info));
                let ghost before = groups@;
                groups.push((lsi, entries));
                proof {
                    assert forall|a: int, k: int| 0 <= a < groups@.len() && 0 <= k < groups@[a].1@.len()
                        implies (#[trigger] groups@[a].1@[k]).2.term_idx < def.terms@.len() by {
                        if a < before.len() {
                            assert(groups@[a] == before[a]);
                        }
                    }
                    assert forall|a: int, b: int| 0 <= a < b < groups@.len() implies (#[trigger] groups@[a]).0@
                        != (#[trigger] groups@[b]).0@ by {
                        assert(groups@[a] == before[a]);
                        if b < before.len() {
                            assert(groups@[b] == before[b]);
                        }
                    }
                    assert forall|a: int| 0 <= a < groups@.len() implies (#[trigger] groups@[a]).1@.len() >= 1 by {
                        if a < before.len() {
                            assert(groups@[a] == before[a]);
                        }
                    }
                }
            }
            eval_idx = eval_idx + 1;
        }
    true
}

/// Build constriction graphs from a parenthesized tensor definition: for
/// every term with at least two factors and every way its full product
/// splits at the top, the two sides are canonicalised (the left side fixing
/// the names of the contracted indices) and joined by an edge in the graph
/// of the split's last-step index pattern. Graphs are ordered by that
/// pattern. `None` when a split names an index, tensor or pool entry that is
/// missing, or a term has 64 factors or more.
pub fn build_constr_graphs(
    def: &TensorDef,
    comp: &TensorComputation,
    parenth_results: &[ParenthResult],
) -> (r: Option<Vec<ConstrGraph>>)
    ensures
        r matches Some(gs) ==> forall|g: int| 0 <= g < gs@.len() ==> graph_wf(#[trigger] &gs@[g]),
        r matches Some(gs) ==> forall|g: int, e: int| 0 <= g < gs@.len() && 0 <= e < gs@[g].edges@.len()
            ==> (#[trigger] gs@[g].edges@[e]).2.term_idx < def.terms@.len(),
        r matches Some(gs) ==> forall|a: int, b: int| 0 <= a < b < gs@.len() ==> crate::rl_parenth::last_step_le(
            (#[trigger] gs@[a]).last_step@,
            (#[trigger] gs@[b]).last_step@,
        ) && gs@[a].last_step@ != gs@[b].last_step@,
        r matches Some(gs) ==> forall|g: int| 0 <= g < gs@.len() ==> (#[trigger] gs@[g]).edges@.len() >= 1,
{
    let pool = build_canon_pool(def);
    let mut ext_ids: Vec<IndexId> = Vec::new();
    let mut e: usize = 0;
    while e < def.ext_indices.len()
        invariant
            e <= def.ext_indices@.len(),
        decreases def.ext_indices.len() - e,
    {
        ext_ids.push(def.ext_indices[e].id);
        e = e + 1;
    }
    let mut groups: Vec<(LastStepIndices, Vec<(Term, Term, EdgeInfo)>)> = Vec::new();
    let n_terms = if def.terms.len() < parenth_results.len() { def.terms.len() } else { parenth_results.len() };
    let mut term_idx: usize = 0;
    while term_idx < n_terms
        invariant
            term_idx <= n_terms,
            n_terms <= def.terms@.len(),
            n_terms <= parenth_results@.len(),
            forall|g: int, k: int| 0 <= g < groups@.len() && 0 <= k < groups@[g].1@.len()
                ==> (#[trigger] groups@[g].1@[k]).2.term_idx < def.terms@.len(),
            groups_keyed(groups@),
        decreases n_terms - term_idx,
    {
        if !add_term_edges(def, comp, term_idx, &parenth_results[term_idx], &ext_ids, &pool, &mut groups) {
            return None;
        }
        term_idx = term_idx + 1;
    }
    let mut result: Vec<ConstrGraph> = Vec::new();
    let mut g: usize = 0;
    while g < groups.len()
        invariant
            g <= groups@.len(),
            result@.len() == g,
            forall|a: int| 0 <= a < g ==> graph_wf(#[trigger] &result@[a]),
            forall|a: int, e: int| 0 <= a < g && 0 <= e < result@[a].edges@.len()
                ==> (#[trigger] result@[a].edges@[e]).2.term_idx < def.terms@.len(),
            forall|a: int, k: int| 0 <= a < groups@.len() && 0 <= k < groups@[a].1@.len()
                ==> (#[trigger] groups@[a].1@[k]).2.term_idx < def.terms@.len(),
            forall|a: int| 0 <= a < g ==> (#[trigger] result@[a]).last_step@ == groups@[a].0@,
            forall|a: int| 0 <= a < g ==> (#[trigger] result@[a]).edges@.len() >= 1,
            groups_keyed(groups@),
        decreases groups.len() - g,
    {
        let entries = &groups[g].1;
        let mut vertices: Vec<Term> = Vec::new();
        let mut vertex_side: Vec<Side> = Vec::new();
        let mut edges: Vec<(VertexId, VertexId, EdgeInfo)> = Vec::new();
        let mut k: usize = 0;
        while k < entries.len()
            invariant
                k <= entries@.len(),
                entries@ == groups@[g as int].1@,
                g < groups@.len(),
                vertices@.len() == vertex_side@.len(),
                forall|a: int, kk: int| 0 <= a < groups@.len() && 0 <= kk < groups@[a].1@.len()
                    ==> (#[trigger] groups@[a].1@[kk]).2.term_idx < def.terms@.len(),
                forall|e: int| 0 <= e < edges@.len() ==> (#[trigger] edges@[e]).0.0 < vertices@.len()
                    && edges@[e].1.0 < vertices@.len() && edges@[e].2.term_idx < def.terms@.len(),
                edges@.len() == k,
            decreases entries.len() - k,
        {
            let left_vid = ensure_vertex(&mut vertices, &mut vertex_side, entries[k].0.clone(), Side::Left);
            let right_vid = ensure_vertex(&mut vertices, &mut vertex_side, entries[k].1.clone(), Side::Right);
            assert(entries@[k as int].2.term_idx < def.terms@.len());
            edges.push((left_vid, right_vid, entries[k].2));
            k = k + 1;
        }
        let graph = ConstrGraph { vertices, vertex_side, edges, last_step: groups[g].0.clone() };
        result.push(graph);
        g = g + 1;
    }
    let order = stable_sort_order(&result);
    let mut sorted: Vec<ConstrGraph> = Vec::new();
    let mut k: usize = 0;
    while k < order.len()
        invariant
            k <= order@.len(),
            crate::sort::is_stable_sort_order(result@, order@),
            sorted@.len() == k,
            forall|a: int| 0 <= a < result@.len() ==> graph_wf(#[trigger] &result@[a]),
            forall|a: int, e: int| 0 <= a < result@.len() && 0 <= e < result@[a].edges@.len()
                ==> (#[trigger] result@[a].edges@[e]).2.term_idx < def.terms@.len(),
            forall|a: int| 0 <= a < k ==> graph_wf(#[trigger] &sorted@[a]),
            forall|a: int, e: int| 0 <= a < k && 0 <= e < sorted@[a].edges@.len()
                ==> (#[trigger] sorted@[a].edges@[e]).2.term_idx < def.terms@.len(),
            forall|a: int| 0 <= a < k ==> (#[trigger] sorted@[a]).last_step@ == result@[order@[a] as int].last_step@,
            forall|a: int| 0 <= a < k ==> (#[trigger] sorted@[a]).edges@.len() >= 1,
            forall|a: int| 0 <= a < result@.len() ==> (#[trigger] result@[a]).edges@.len() >= 1,
            forall|a: int, b: int| 0 <= a < b < result@.len() ==> (#[trigger] result@[a]).last_step@ != (#[trigger] result@[b]).last_step@,
        decreases order.len() - k,
    {
        let src = &result[order[k]];
        let copy = ConstrGraph {
            vertices: crate::repr::clone_terms(&src.vertices),
            vertex_side: copy_vec(&src.vertex_side),
            edges: copy_vec(&src.edges),
            last_step: src.last_step.clone(),
        };
        proof {
            assert(copy.vertices@.len() == src.vertices@.len()) by {
                assert(crate::repr::term_models(copy.vertices@).len() == crate::repr::term_models(src.vertices@).len());
            }
        }
        sorted.push(copy);
        k = k + 1;
    }
    proof {
        assert forall|a: int, b: int| 0 <= a < b < sorted@.len() implies crate::rl_parenth::last_step_le(
            (#[trigger] sorted@[a]).last_step@,
            (#[trigger] sorted@[b]).last_step@,
        ) && sorted@[a].last_step@ != sorted@[b].last_step@ by {
            assert(result@[order@[a] as int].spec_le(result@[order@[b] as int]));
            if order@[a] < order@[b] {
                assert(result@[order@[a] as int].last_step@ != result@[order@[b] as int].last_step@);
            } else {
                assert(result@[order@[b] as int].last_step@ != result@[order@[a] as int].last_step@);
            }
        }
    }
    Some(sorted)
}

// ---------------------------------------------------------------------------
// Cost coefficients
// ---------------------------------------------------------------------------

/// Precomputed cost coefficients for a constriction graph's index pattern.
#[derive(Clone, Copy, Debug)]
pub struct CostCoeffs {
    pub saving: u64,
    pub left: u64,
    pub right: u64,
}

/// Product of the sizes of the ranges `sums`, taken in order.
pub open spec fn range_product(ranges: Seq<Range>, sums: Seq<RangeId>) -> int
    decreases sums.len(),
{
    if sums.len() == 0 {
        1
    } else {
        range_product(ranges, sums.drop_last()) * ranges[sums.last().0 as int].size
    }
}

/// The cost coefficients of an index pattern with left and right external
/// sizes `l`, `r` and contracted size `s` (each at least one): the saving of
/// one shared contraction (its cost plus the addition), and the cost of
/// preparing each side.
pub open spec fn cost_coeffs_spec(l: int, r: int, s: int) -> (int, int, int) {
    (contraction_cost(l * r, s) + l * r, l * s, r * s)
}

/// Every summed index names a range, and every partial product of their
/// sizes fits in `u64`.
pub open spec fn sums_fit(ranges: Seq<Range>, sums: Seq<RangeId>) -> bool {
    &&& forall|k: int| 0 <= k < sums.len() ==> (#[trigger] sums[k]).0 < ranges.len()
    &&& forall|k: int| 0 <= k <= sums.len() ==> #[trigger] range_product(ranges, sums.take(k)) <= u64::MAX
}

/// The pattern names only what the information has, and its cost
/// coefficients and every product on the way to them fit in `u64`.
pub open spec fn cost_coeffs_fit(last_step: LastStepIndices, info: crate::parenth::IndexInfo, ranges: Seq<Range>) -> bool {
    let sizes = info.ext_sizes@;
    &&& sizes.len() <= 64
    &&& bits_below(last_step.left_ext, sizes.len() as int)
    &&& crate::bits::product_fits(sizes, last_step.left_ext)
    &&& bits_below(last_step.right_ext, sizes.len() as int)
    &&& crate::bits::product_fits(sizes, last_step.right_ext)
    &&& sums_fit(ranges, last_step.sums@)
    &&& {
        let c = cost_coeffs_spec(
            max1(product_over(sizes, last_step.left_ext, sizes.len() as int)),
            max1(product_over(sizes, last_step.right_ext, sizes.len() as int)),
            max1(range_product(ranges, last_step.sums@)),
        );
        c.0 <= u64::MAX && c.1 <= u64::MAX && c.2 <= u64::MAX
    }
}

/// Compute cost coefficients for a given index pattern; `None` when a
/// product overflows `u64` or the pattern names an index or range that the
/// information does not have.
pub fn compute_cost_coeffs(
    last_step: &LastStepIndices,
    info: &crate::parenth::IndexInfo,
    ranges: &[Range],
) -> (r: Option<CostCoeffs>)
    ensures
        r is Some <==> cost_coeffs_fit(*last_step, *info, ranges@),
        r matches Some(c) ==> {
            &&& forall|k: int| 0 <= k < last_step.sums@.len() ==> (#[trigger] last_step.sums@[k]).0 < ranges@.len()
            &&& (c.saving as int, c.left as int, c.right as int) == cost_coeffs_spec(
                max1(product_over(info.ext_sizes@, last_step.left_ext, info.ext_sizes@.len() as int)),
                max1(product_over(info.ext_sizes@, last_step.right_ext, info.ext_sizes@.len() as int)),
                max1(range_product(ranges@, last_step.sums@)),
            )
        },
{
    if info.ext_sizes.len() > 64 {
        return None;
    }
    let l = match checked_masked_product(&info.ext_sizes, last_step.left_ext) {
        Some(v) => if v == 0 { 1 } else { v },
        None => return None,
    };
    let r = match checked_masked_product(&info.ext_sizes, last_step.right_ext) {
        Some(v) => if v == 0 { 1 } else { v },
        None => return None,
    };
    let mut s: u64 = 1;
    let mut k: usize = 0;
    while k < last_step.sums.len()
        invariant
            k <= last_step.sums@.len(),
            s == range_product(ranges@, last_step.sums@.take(k as int)),
            forall|m: int| 0 <= m < k ==> (#[trigger] last_step.sums@[m]).0 < ranges@.len(),
            forall|m: int| 0 <= m <= k ==> #[trigger] range_product(ranges@, last_step.sums@.take(m)) <= u64::MAX,
        decreases last_step.sums.len() - k,
    {
        let rid = last_step.sums[k].0 as usize;
        if rid >= ranges.len() {
            assert(!sums_fit(ranges@, last_step.sums@)) by {
                assert(last_step.sums@[k as int].0 >= ranges@.len());
            }
            return None;
        }
        proof {
            assert(last_step.sums@.take(k + 1).drop_last() =~= last_step.sums@.take(k as int));
        }
        match s.checked_mul(ranges[rid].size) {
            Some(v) => s = v,
            None => {
                assert(!sums_fit(ranges@, last_step.sums@)) by {
                    assert(range_product(ranges@, last_step.sums@.take(k + 1)) > u64::MAX);
                }
                return None;
            },
        }
        k = k + 1;
    }
    proof {
        assert(last_step.sums@.take(k as int) =~= last_step.sums@);
        assert(sums_fit(ranges@, last_step.sums@));
    }
    let s = if s == 0 { 1 } else { s };
    let ghost fits = cost_coeffs_fit(*last_step, *info, ranges@);
    let ghost cs = cost_coeffs_spec(l as int, r as int, s as int);
    assert(fits ==> cs.0 <= u64::MAX && cs.1 <= u64::MAX && cs.2 <= u64::MAX);
    assert(l >= 1 && r >= 1 && s >= 1);
    assert(cs.0 >= l * r && cs.1 == l * s && cs.2 == r * s) by (nonlinear_arith)
        requires
            cs == cost_coeffs_spec(l as int, r as int, s as int),
            l >= 1,
            r >= 1,
            s >= 1,
    {
        assert(contraction_cost(l * r, s as int) >= 0);
    }
    let ext_size = match l.checked_mul(r) {
        Some(v) => v,
        None => return None,
    };
    let contraction = if s == 1 {
        ext_size
    } else {
        proof {
            assert(cs.0 == 2 * ext_size * s + ext_size);
            assert(2 * ext_size <= 2 * ext_size * s) by (nonlinear_arith)
                requires
                    s >= 1,
            ;
        }
        match ext_size.checked_mul(2) {
            Some(v) => match v.checked_mul(s) {
                Some(w) => w,
                None => return None,
            },
            None => return None,
        }
    };
    let saving = match contraction.checked_add(ext_size) {
        Some(v) => v,
        None => return None,
    };
    let left = match l.checked_mul(s) {
        Some(v) => v,
        None => return None,
    };
    let right = match r.checked_mul(s) {
        Some(v) => v,
        None => return None,
    };
    proof {
        assert(2 * ext_size * s == 2 * (ext_size * s)) by (nonlinear_arith);
    }
    Some(CostCoeffs { saving, left, right })
}

/// Product of `sizes[i]` over the members of `mask`; `None` when a member is
/// out of range or the product overflows.
fn checked_masked_product(sizes: &Vec<u64>, mask: u64) -> (r: Option<u64>)
    requires
        sizes@.len() <= 64,
    ensures
        r is Some <==> bits_below(mask, sizes@.len() as int) && crate::bits::product_fits(sizes@, mask),
        r matches Some(v) ==> v == product_over(sizes@, mask, sizes@.len() as int),
{
    let mut i: usize = sizes.len();
    while i < 64
        invariant
            sizes@.len() <= i <= 64,
            forall|c: u64| sizes@.len() <= c < i ==> !#[trigger] bit(mask, c),
        decreases 64 - i,
    {
        proof {
            lemma_bit_test(mask, i as u64);
        }
        if mask & (1u64 << i as u64) != 0 {
            assert(!bits_below(mask, sizes@.len() as int)) by {
                assert(bit(mask, i as u64));
            }
            return None;
        }
        i = i + 1;
    }
    assert(bits_below(mask, sizes@.len() as int)) by {
        assert forall|c: u64| c < 64 && #[trigger] bit(mask, c) implies c < sizes@.len() by {
        }
    }
    checked_product_of_members(sizes, mask)
}

// ---------------------------------------------------------------------------
// ConstrGraph helpers
// ---------------------------------------------------------------------------

pub open spec fn edge_joins(e: (VertexId, VertexId, EdgeInfo), u: VertexId, v: VertexId) -> bool {
    (e.0 == u && e.1 == v) || (e.0 == v && e.1 == u)
}

/// The edges of `edges` that join `u` and `v`, in order.
pub open spec fn edges_joining(edges: Seq<(VertexId, VertexId, EdgeInfo)>, u: VertexId, v: VertexId) -> Seq<EdgeInfo>
    decreases edges.len(),
{
    if edges.len() == 0 {
        seq![]
    } else if edge_joins(edges.last(), u, v) {
        edges_joining(edges.drop_last(), u, v).push(edges.last().2)
    } else {
        edges_joining(edges.drop_last(), u, v)
    }
}

/// The joining relation does not depend on the order of the two vertices.
pub proof fn lemma_edges_joining_symmetric(edges: Seq<(VertexId, VertexId, EdgeInfo)>, u: VertexId, v: VertexId)
    ensures
        edges_joining(edges, u, v) == edges_joining(edges, v, u),
    decreases edges.len(),
{
    if edges.len() > 0 {
        lemma_edges_joining_symmetric(edges.drop_last(), u, v);
    }
}

/// The summed coefficients of `es`, in lowest terms, as a (numerator,
/// denominator) pair.
pub open spec fn coeff_sum(es: Seq<EdgeInfo>) -> (int, int)
    decreases es.len(),
{
    if es.len() == 0 {
        (0, 1)
    } else {
        let p = coeff_sum(es.drop_last());
        let c = es.last().coeff;
        reduced(p.0 * c.den() + c.num() * p.1, p.1 * c.den())
    }
}

/// The value of the (numerator, denominator) pair `t` is `l * a * b`.
pub open spec fn is_product3(t: (int, int), l: Rational, a: Rational, b: Rational) -> bool {
    t.0 * l.den() * a.den() * b.den() == l.num() * a.num() * b.num() * t.1
}

/// The summed coefficient of the edges joining `u` and `v`.
pub open spec fn joined_sum(g: &ConstrGraph, u: VertexId, v: VertexId) -> (int, int) {
    coeff_sum(edges_joining(g.edges@, u, v))
}

impl ConstrGraph {
    pub fn num_vertices(&self) -> (r: usize)
        ensures
            r == self.vertices@.len(),
    {
        self.vertices.len()
    }

    pub fn num_edges(&self) -> (r: usize)
        ensures
            r == self.edges@.len(),
    {
        self.edges.len()
    }

    /// The vertices on `side`, in increasing order.
    pub fn vertices_on_side(&self, side: Side) -> (r: Vec<VertexId>)
        ensures
            forall|k: int| 0 <= k < r@.len() ==> (#[trigger] r@[k]).0 < self.vertex_side@.len() && self.vertex_side@[r@[k].0 as int] == side,
            forall|v: int| 0 <= v < self.vertex_side@.len() && self.vertex_side@[v] == side ==> r@.contains(VertexId(v as usize)),
            forall|a: int, b: int| 0 <= a < b < r@.len() ==> (#[trigger] r@[a]).0 < (#[trigger] r@[b]).0,
    {
        let mut out: Vec<VertexId> = Vec::new();
        let mut i: usize = 0;
        while i < self.vertex_side.len()
            invariant
                i <= self.vertex_side@.len(),
                forall|k: int| 0 <= k < out@.len() ==> (#[trigger] out@[k]).0 < i && self.vertex_side@[out@[k].0 as int] == side,
                forall|v: int| 0 <= v < i && self.vertex_side@[v] == side ==> out@.contains(VertexId(v as usize)),
                forall|a: int, b: int| 0 <= a < b < out@.len() ==> (#[trigger] out@[a]).0 < (#[trigger] out@[b]).0,
            decreases self.vertex_side.len() - i,
        {
            if self.vertex_side[i] == side {
                let ghost prev = out@;
                out.push(VertexId(i));
                proof {
                    assert forall|v: int| 0 <= v < i + 1 && self.vertex_side@[v] == side implies out@.contains(VertexId(v as usize)) by {
                        if v < i {
                            let w = choose|w: int| 0 <= w < prev.len() && prev[w] == VertexId(v as usize);
                            assert(out@[w] == prev[w]);
                        } else {
                            assert(out@[prev.len() as int] == VertexId(v as usize));
                        }
                    }
                }
            }
            i = i + 1;
        }
        out
    }

    /// Get all edges between two vertices.
    pub fn edges_between(&self, u: VertexId, v: VertexId) -> (r: Vec<EdgeInfo>)
        ensures
            r@ == edges_joining(self.edges@, u, v),
    {
        let mut out: Vec<EdgeInfo> = Vec::new();
        let mut i: usize = 0;
        while i < self.edges.len()
            invariant
                i <= self.edges@.len(),
                out@ == edges_joining(self.edges@.take(i as int), u, v),
            decreases self.edges.len() - i,
        {
            let (a, b, info) = self.edges[i];
            proof {
                assert(self.edges@.take(i + 1).drop_last() =~= self.edges@.take(i as int));
            }
            if (a.0 == u.0 && b.0 == v.0) || (a.0 == v.0 && b.0 == u.0) {
                out.push(info);
            }
            i = i + 1;
        }
        assert(self.edges@.take(self.edges@.len() as int) =~= self.edges@);
        out
    }
}

// ---------------------------------------------------------------------------
// Biclique search
// ---------------------------------------------------------------------------

/// What adding a vertex to the biclique would change.
#[derive(Clone, Copy, Debug)]
pub struct Delta {
    pub coeff: Rational,
    pub leading_coeff: Option<Rational>,
    pub terms: u64,
    pub exc_cost: i64,
    pub saving: i64,
}

impl Delta {
    pub fn initial() -> (r: Self)
        ensures
            r.coeff.pair() == (1int, 1int),
            r.leading_coeff is None,
            r.terms == 0,
            r.exc_cost == 0,
            r.saving == 0,
    {
        Delta { coeff: Rational::one(), leading_coeff: None, terms: 0, exc_cost: 0, saving: 0 }
    }
}

#[derive(Clone, Copy, Debug)]
pub struct BronKerboschState {
    pub leading_coeff: Option<Rational>,
    pub terms_used: u64,
    pub n_left: usize,
    pub n_right: usize,
}

impl BronKerboschState {
    pub fn new() -> (r: Self)
        ensures
            r.leading_coeff is None,
            r.terms_used == 0,
            r.n_left == 0,
            r.n_right == 0,
    {
        BronKerboschState { leading_coeff: None, terms_used: 0, n_left: 0, n_right: 0 }
    }
}

#[derive(Debug)]
pub struct Biclique {
    pub left_verts: Vec<(VertexId, Rational)>,
    pub right_verts: Vec<(VertexId, Rational)>,
    pub leading_coeff: Option<Rational>,
    pub terms_used: u64,
    pub saving: i64,
}

impl Clone for Biclique {
    fn clone(&self) -> (r: Self)
        ensures
            r.left_verts@ == self.left_verts@,
            r.right_verts@ == self.right_verts@,
            r.leading_coeff == self.leading_coeff,
            r.terms_used == self.terms_used,
            r.saving == self.saving,
    {
        Biclique {
            left_verts: copy_vec(&self.left_verts),
            right_verts: copy_vec(&self.right_verts),
            leading_coeff: self.leading_coeff,
            terms_used: self.terms_used,
            saving: self.saving,
        }
    }
}

/// Keys of a frontier map.
pub open spec fn frontier_keys(m: Seq<(VertexId, Delta)>) -> Seq<VertexId> {
    m.map_values(|p: (VertexId, Delta)| p.0)
}

/// Every key of the frontier names a vertex of a graph with `n` vertices.
pub open spec fn keys_below(m: Seq<(VertexId, Delta)>, n: int) -> bool {
    forall|k: int| 0 <= k < m.len() ==> (#[trigger] m[k]).0.0 < n
}

fn frontier_get(m: &Vec<(VertexId, Delta)>, q: VertexId) -> (r: Option<Delta>)
    ensures
        r is Some ==> frontier_keys(m@).contains(q),
        r == frontier_lookup(m@, q),
{
    let mut i: usize = 0;
    assert(m@.subrange(0, m@.len() as int) =~= m@);
    while i < m.len()
        invariant
            i <= m@.len(),
            frontier_lookup(m@, q) == frontier_lookup(m@.subrange(i as int, m@.len() as int), q),
        decreases m.len() - i,
    {
        assert(m@.subrange(i as int, m@.len() as int).drop_first() =~= m@.subrange(i + 1, m@.len() as int));
        if m[i].0.0 == q.0 {
            assert(frontier_keys(m@)[i as int] == q);
            return Some(m[i].1);
        }
        i = i + 1;
    }
    None
}

/// The delta of the first entry of `m` for `q`.
pub open spec fn frontier_lookup(m: Seq<(VertexId, Delta)>, q: VertexId) -> Option<Delta>
    decreases m.len(),
{
    if m.len() == 0 {
        None
    } else if m[0].0 == q {
        Some(m[0].1)
    } else {
        frontier_lookup(m.drop_first(), q)
    }
}


// ---------------------------------------------------------------------------
// What the search keeps true
// ---------------------------------------------------------------------------

/// The left vertex `l` and the right vertex `r` (each with its coefficient)
/// factor with leading coefficient `lam`: the summed coefficient of the
/// edges joining them is `lam` times the two coefficients.
pub open spec fn pair_factors(g: &ConstrGraph, lam: Rational, l: (VertexId, Rational), r: (VertexId, Rational)) -> bool {
    is_product3(joined_sum(g, l.0, r.0), lam, l.1, r.1)
}

/// Every left vertex factors with every right vertex.
pub open spec fn rectangle_factors(g: &ConstrGraph, ls: Seq<(VertexId, Rational)>, rs: Seq<(VertexId, Rational)>, lead: Option<Rational>) -> bool {
    forall|i: int, j: int| 0 <= i < ls.len() && 0 <= j < rs.len() ==> lead is Some && #[trigger] pair_factors(g, lead->0, ls[i], rs[j])
}

/// The shape the search keeps: a single left vertex (coefficient one) until
/// a right vertex joins, and from then on a leading coefficient with which
/// the whole rectangle factors.
pub open spec fn search_state(g: &ConstrGraph, ls: Seq<(VertexId, Rational)>, rs: Seq<(VertexId, Rational)>, lead: Option<Rational>) -> bool {
    if rs.len() == 0 {
        ls.len() <= 1 && (ls.len() == 1 ==> ls[0].1.num() == 1 && ls[0].1.den() == 1)
    } else {
        ls.len() > 0 && lead is Some && rectangle_factors(g, ls, rs, lead)
    }
}

/// What a frontier delta promises for vertex `x`: coefficient one (and a
/// leading coefficient on right vertices: their edges' sum with the first
/// left vertex) until a right vertex joins; then no leading coefficient and
/// a coefficient with which `x` factors against the other side.
pub open spec fn delta_ok(g: &ConstrGraph, ls: Seq<(VertexId, Rational)>, rs: Seq<(VertexId, Rational)>, lead: Option<Rational>, x: VertexId, d: Delta) -> bool {
    if ls.len() == 0 {
        d.coeff.num() == 1 && d.coeff.den() == 1 && d.leading_coeff is None
    } else if rs.len() == 0 {
        &&& d.coeff.num() == 1
        &&& d.coeff.den() == 1
        &&& g.vertex_side@[x.0 as int] == Side::Left ==> d.leading_coeff is None
        &&& g.vertex_side@[x.0 as int] == Side::Right ==> (d.leading_coeff matches Some(c) && c.pair() == joined_sum(g, ls[0].0, x))
    } else {
        &&& d.leading_coeff is None
        &&& lead is Some
        &&& g.vertex_side@[x.0 as int] == Side::Left ==> forall|j: int| 0 <= j < rs.len() ==> #[trigger] pair_factors(g, lead->0, (x, d.coeff), rs[j])
        &&& g.vertex_side@[x.0 as int] == Side::Right ==> forall|i: int| 0 <= i < ls.len() ==> #[trigger] pair_factors(g, lead->0, ls[i], (x, d.coeff))
    }
}

proof fn lemma_is_product3_swap(t: (int, int), l: Rational, a: Rational, b: Rational)
    ensures
        is_product3(t, l, a, b) == is_product3(t, l, b, a),
{
    assert(t.0 * l.den() * a.den() * b.den() == t.0 * l.den() * b.den() * a.den()) by (nonlinear_arith);
    assert(l.num() * a.num() * b.num() * t.1 == l.num() * b.num() * a.num() * t.1) by (nonlinear_arith);
}

/// The state after `q` joins.
proof fn lemma_push_state(
    g: &ConstrGraph,
    ls: Seq<(VertexId, Rational)>,
    rs: Seq<(VertexId, Rational)>,
    lead: Option<Rational>,
    q: VertexId,
    dq: Delta,
)
    requires
        graph_wf(g),
        q.0 < g.vertices@.len(),
        search_state(g, ls, rs, lead),
        delta_ok(g, ls, rs, lead, q, dq),
        ls.len() == 0 ==> g.vertex_side@[q.0 as int] == Side::Left,
        ls.len() > 0 && rs.len() == 0 ==> g.vertex_side@[q.0 as int] == Side::Right,
    ensures
        ({
            let lead2 = if dq.leading_coeff is Some { dq.leading_coeff } else { lead };
            let ls2 = if g.vertex_side@[q.0 as int] == Side::Left { ls.push((q, dq.coeff)) } else { ls };
            let rs2 = if g.vertex_side@[q.0 as int] == Side::Right { rs.push((q, dq.coeff)) } else { rs };
            search_state(g, ls2, rs2, lead2) && (ls2.len() > 0)
        }),
{
    let lead2 = if dq.leading_coeff is Some { dq.leading_coeff } else { lead };
    let ls2 = if g.vertex_side@[q.0 as int] == Side::Left { ls.push((q, dq.coeff)) } else { ls };
    let rs2 = if g.vertex_side@[q.0 as int] == Side::Right { rs.push((q, dq.coeff)) } else { rs };
    let sq = g.vertex_side@[q.0 as int];
    if ls.len() == 0 {
        assert(search_state(g, ls2, rs2, lead2));
    } else if rs.len() == 0 {
        let s = dq.leading_coeff->0;
        assert(ls2 == ls && rs2 == seq![(q, dq.coeff)]);
        assert(pair_factors(g, s, ls2[0], rs2[0]));
        assert forall|i: int, j: int| 0 <= i < ls2.len() && 0 <= j < rs2.len() implies lead2 is Some
            && #[trigger] pair_factors(g, lead2->0, ls2[i], rs2[j]) by {
            assert(i == 0 && j == 0);
        }
    } else {
        let lam = lead->0;
        assert forall|i: int, j: int| 0 <= i < ls2.len() && 0 <= j < rs2.len() implies lead2 is Some
            && #[trigger] pair_factors(g, lead2->0, ls2[i], rs2[j]) by {
            if sq == Side::Left {
                if i < ls.len() {
                    assert(pair_factors(g, lam, ls[i], rs[j]));
                } else {
                    assert(pair_factors(g, lam, (q, dq.coeff), rs[j]));
                }
            } else {
                if j < rs.len() {
                    assert(pair_factors(g, lam, ls[i], rs[j]));
                } else {
                    assert(pair_factors(g, lam, ls[i], (q, dq.coeff)));
                }
            }
        }
    }
}

/// The state after `q` joins, and the promise of each of its child deltas.
proof fn lemma_step(
    g: &ConstrGraph,
    ls: Seq<(VertexId, Rational)>,
    rs: Seq<(VertexId, Rational)>,
    lead: Option<Rational>,
    entry_lead: Option<Rational>,
    q: VertexId,
    dq: Delta,
    r: VertexId,
    dr: Delta,
    d: Delta,
)
    requires
        graph_wf(g),
        q.0 < g.vertices@.len(),
        r.0 < g.vertices@.len(),
        search_state(g, ls, rs, lead),
        delta_ok(g, ls, rs, lead, q, dq),
        delta_ok(g, ls, rs, lead, r, dr),
        ls.len() == 0 ==> g.vertex_side@[q.0 as int] == Side::Left && entry_lead is None,
        ls.len() > 0 && rs.len() == 0 ==> g.vertex_side@[q.0 as int] == Side::Right,
        rs.len() > 0 ==> entry_lead == lead,
        update_rel(g, entry_lead, q, dq, r, dr, d),
    ensures
        ({
            let lead2 = if dq.leading_coeff is Some { dq.leading_coeff } else { lead };
            let ls2 = if g.vertex_side@[q.0 as int] == Side::Left { ls.push((q, dq.coeff)) } else { ls };
            let rs2 = if g.vertex_side@[q.0 as int] == Side::Right { rs.push((q, dq.coeff)) } else { rs };
            search_state(g, ls2, rs2, lead2) && delta_ok(g, ls2, rs2, lead2, r, d)
        }),
{
    let lead2 = if dq.leading_coeff is Some { dq.leading_coeff } else { lead };
    let ls2 = if g.vertex_side@[q.0 as int] == Side::Left { ls.push((q, dq.coeff)) } else { ls };
    let rs2 = if g.vertex_side@[q.0 as int] == Side::Right { rs.push((q, dq.coeff)) } else { rs };
    let sq = g.vertex_side@[q.0 as int];
    let sr = g.vertex_side@[r.0 as int];
    lemma_edges_joining_symmetric(g.edges@, q, r);
    if ls.len() == 0 {
        assert(search_state(g, ls2, rs2, lead2));
        if sr == Side::Left {
            assert(d == dr);
        }
    } else if rs.len() == 0 {
        let s = dq.leading_coeff->0;
        assert(lead2 == Some(s));
        assert(ls2 == ls && rs2 == seq![(q, dq.coeff)]);
        assert(pair_factors(g, s, ls2[0], rs2[0]));
        assert(search_state(g, ls2, rs2, lead2)) by {
            assert forall|i: int, j: int| 0 <= i < ls2.len() && 0 <= j < rs2.len() implies lead2 is Some
                && #[trigger] pair_factors(g, lead2->0, ls2[i], rs2[j]) by {
                assert(i == 0 && j == 0);
            }
        }
        if sr == Side::Left {
            let t = joined_sum(g, q, r);
            assert(joined_sum(g, r, q) == t);
            assert forall|j: int| 0 <= j < rs2.len() implies #[trigger] pair_factors(g, lead2->0, (r, d.coeff), rs2[j]) by {
                assert(j == 0);
                assert(t.0 * s.den() * d.coeff.den() == s.num() * d.coeff.num() * t.1);
            }
        } else {
            let sr_lc = dr.leading_coeff->0;
            assert forall|i: int| 0 <= i < ls2.len() implies #[trigger] pair_factors(g, lead2->0, ls2[i], (r, d.coeff)) by {
                assert(i == 0);
                assert(is_product(sr_lc, s, d.coeff));
            }
        }
    } else {
        let lam = lead->0;
        assert(lead2 == lead);
        assert(search_state(g, ls2, rs2, lead2)) by {
            assert forall|i: int, j: int| 0 <= i < ls2.len() && 0 <= j < rs2.len() implies lead2 is Some
                && #[trigger] pair_factors(g, lead2->0, ls2[i], rs2[j]) by {
                if sq == Side::Left {
                    if i < ls.len() {
                        assert(pair_factors(g, lam, ls[i], rs[j]));
                    } else {
                        assert(pair_factors(g, lam, (q, dq.coeff), rs[j]));
                    }
                } else {
                    if j < rs.len() {
                        assert(pair_factors(g, lam, ls[i], rs[j]));
                    } else {
                        assert(pair_factors(g, lam, ls[i], (q, dq.coeff)));
                    }
                }
            }
        }
        if sq != sr {
            lemma_is_product3_swap(joined_sum(g, q, r), lam, dq.coeff, dr.coeff);
            if sr == Side::Left {
                assert forall|j: int| 0 <= j < rs2.len() implies #[trigger] pair_factors(g, lead2->0, (r, d.coeff), rs2[j]) by {
                    if j < rs.len() {
                        assert(pair_factors(g, lam, (r, dr.coeff), rs[j]));
                    }
                }
            } else {
                assert forall|i: int| 0 <= i < ls2.len() implies #[trigger] pair_factors(g, lead2->0, ls2[i], (r, d.coeff)) by {
                    if i < ls.len() {
                        assert(pair_factors(g, lam, ls[i], (r, dr.coeff)));
                    }
                }
            }
        } else {
            assert(d == dr);
        }
    }
}

/// Enumerate the maximal profitable bicliques of `graph`. Each comes with a
/// leading coefficient with which its rectangle factors: the summed
/// coefficient of the edges joining any of its left vertices to any of its
/// right vertices is the leading coefficient times the two vertices'
/// coefficients.
pub fn find_bicliques(graph: &ConstrGraph, coeffs: &CostCoeffs) -> (r: Option<Vec<Biclique>>)
    requires
        graph_wf(graph),
    ensures
        r matches Some(v) ==> forall|k: int| 0 <= k < v@.len() ==> (#[trigger] v@[k]).leading_coeff is Some
            && rectangle_factors(graph, v@[k].left_verts@, v@[k].right_verts@, v@[k].leading_coeff),
        graph.vertices@.len() == 0 ==> (r matches Some(v) && v@.len() == 0),
{
    let n = graph.vertices.len();
    if n == 0 {
        return Some(Vec::new());
    }
    let mut biclique = Biclique {
        left_verts: Vec::new(),
        right_verts: Vec::new(),
        leading_coeff: None,
        terms_used: 0,
        saving: 0,
    };
    let mut cand: Vec<VertexId> = Vec::new();
    let mut subg: Vec<(VertexId, Delta)> = Vec::new();
    let mut v: usize = 0;
    while v < n
        invariant
            v <= n,
            n == graph.vertices@.len(),
            cand@.len() == v,
            forall|k: int| 0 <= k < v ==> (#[trigger] cand@[k]).0 == k,
            keys_below(subg@, n as int),
            forall|k: int| 0 <= k < subg@.len() ==> (#[trigger] subg@[k]).1.coeff.num() == 1 && subg@[k].1.coeff.den() == 1
                && subg@[k].1.leading_coeff is None,
        decreases n - v,
    {
        cand.push(VertexId(v));
        subg.push((VertexId(v), Delta::initial()));
        v = v + 1;
    }
    proof {
        assert(cand@.no_duplicates()) by {
            assert forall|a: int, b: int| 0 <= a < cand@.len() && 0 <= b < cand@.len() && a != b implies cand@[a] != cand@[b] by {
                assert(cand@[a].0 == a);
                assert(cand@[b].0 == b);
            }
        }
    }
    let mut results: Vec<Biclique> = Vec::new();
    if expand(graph, coeffs, &mut biclique, &mut subg, &mut cand, &mut results) {
        Some(results)
    } else {
        None
    }
}

/// Saving of adding a vertex of `side` to a biclique with the given side
/// sizes, before its excess cost: the shared work it makes reusable minus
/// the cost of preparing it, as an integer.
pub open spec fn gross_saving_value(coeffs: &CostCoeffs, side: Side, n_left: usize, n_right: usize) -> int {
    let (prep, partners) = match side {
        Side::Left => (coeffs.left, n_right),
        Side::Right => (coeffs.right, n_left),
    };
    -((prep as i64) as int) + (partners as i64) as int * (coeffs.saving as i64) as int
}

/// No step of that computation leaves `i64`.
pub open spec fn gross_saving_fits(coeffs: &CostCoeffs, side: Side, n_left: usize, n_right: usize) -> bool {
    let (prep, partners) = match side {
        Side::Left => (coeffs.left, n_right),
        Side::Right => (coeffs.right, n_left),
    };
    &&& (prep as i64) != i64::MIN
    &&& i64::MIN <= (partners as i64) as int * (coeffs.saving as i64) as int <= i64::MAX
    &&& i64::MIN <= gross_saving_value(coeffs, side, n_left, n_right) <= i64::MAX
}

/// The gross saving in `i64`, or `None` when a step overflows.
fn gross_saving(coeffs: &CostCoeffs, side: Side, n_left: usize, n_right: usize) -> (r: Option<i64>)
    ensures
        r is Some <==> gross_saving_fits(coeffs, side, n_left, n_right),
        r matches Some(v) ==> v == gross_saving_value(coeffs, side, n_left, n_right),
{
    let (prep, partners) = match side {
        Side::Left => (coeffs.left, n_right),
        Side::Right => (coeffs.right, n_left),
    };
    let neg = match (0i64).checked_sub(prep as i64) {
        Some(x) => x,
        None => return None,
    };
    let shared = match (partners as i64).checked_mul(coeffs.saving as i64) {
        Some(x) => x,
        None => return None,
    };
    neg.checked_add(shared)
}

/// One level of the Bron-Kerbosch style search: record the current biclique
/// if no frontier vertex can still add a positive saving and it shares a
/// side, then try each surviving candidate in turn.
pub fn expand(
    graph: &ConstrGraph,
    coeffs: &CostCoeffs,
    biclique: &mut Biclique,
    subg: &mut Vec<(VertexId, Delta)>,
    cand: &mut Vec<VertexId>,
    results: &mut Vec<Biclique>,
) -> (ok: bool)
    requires
        graph_wf(graph),
        keys_below(old(subg)@, graph.vertices@.len() as int),
        old(cand)@.no_duplicates(),
        search_state(graph, old(biclique).left_verts@, old(biclique).right_verts@, old(biclique).leading_coeff),
        forall|k: int| 0 <= k < old(subg)@.len() ==> delta_ok(
            graph,
            old(biclique).left_verts@,
            old(biclique).right_verts@,
            old(biclique).leading_coeff,
            (#[trigger] old(subg)@[k]).0,
            old(subg)@[k].1,
        ),
        old(biclique).left_verts@.len() == 0 ==> old(biclique).leading_coeff is None,
        old(biclique).right_verts@.len() == 0 ==> old(biclique).leading_coeff is None,
        forall|k: int| 0 <= k < old(results)@.len() ==> (#[trigger] old(results)@[k]).leading_coeff is Some
            && rectangle_factors(graph, old(results)@[k].left_verts@, old(results)@[k].right_verts@, old(results)@[k].leading_coeff),
    ensures
        final(cand)@.no_duplicates(),
        forall|x: VertexId| final(cand)@.contains(x) ==> old(cand)@.contains(x),
        final(cand)@.len() <= old(cand)@.len(),
        keys_below(final(subg)@, graph.vertices@.len() as int),
        final(biclique).left_verts@ == old(biclique).left_verts@,
        final(biclique).right_verts@ == old(biclique).right_verts@,
        final(biclique).leading_coeff == old(biclique).leading_coeff,
        final(biclique).saving == old(biclique).saving,
        forall|k: int| 0 <= k < final(results)@.len() ==> (#[trigger] final(results)@[k]).leading_coeff is Some
            && rectangle_factors(graph, final(results)@[k].left_verts@, final(results)@[k].right_verts@, final(results)@[k].leading_coeff),
    decreases old(cand)@.len(),
{
    let n = graph.vertices.len();
    let ghost ls = biclique.left_verts@;
    let ghost rs = biclique.right_verts@;
    let ghost entry_lead = biclique.leading_coeff;
    // update the savings of the frontier
    let mut is_maximal = false;
    let mut i: usize = 0;
    while i < subg.len()
        invariant
            i <= subg@.len(),
            keys_below(subg@, n as int),
            n == graph.vertices@.len(),
            graph_wf(graph),
            biclique.left_verts@ == ls,
            biclique.right_verts@ == rs,
            biclique.leading_coeff == entry_lead,
            biclique.saving == old(biclique).saving,
            ls == old(biclique).left_verts@,
            rs == old(biclique).right_verts@,
            old(cand)@.no_duplicates(),
            cand@ == old(cand)@,
            results@ == old(results)@,
            entry_lead == old(biclique).leading_coeff,
            forall|k: int| 0 <= k < old(results)@.len() ==> (#[trigger] old(results)@[k]).leading_coeff is Some
                && rectangle_factors(graph, old(results)@[k].left_verts@, old(results)@[k].right_verts@, old(results)@[k].leading_coeff),
            forall|k: int| 0 <= k < subg@.len() ==> delta_ok(graph, ls, rs, entry_lead, (#[trigger] subg@[k]).0, subg@[k].1),
        decreases subg.len() - i,
    {
        let (q, mut delta) = subg[i];
        let ghost old_delta = delta;
        let side = graph.vertex_side[q.0];
        let gross = match gross_saving(coeffs, side, biclique.left_verts.len(), biclique.right_verts.len()) {
            Some(v) => v,
            None => return false,
        };
        delta.saving = match gross.checked_sub(delta.exc_cost) {
            Some(v) => v,
            None => return false,
        };
        is_maximal = is_maximal || delta.saving > 0;
        let ghost before = subg@;
        subg.set(i, (q, delta));
        proof {
            assert(delta_ok(graph, ls, rs, entry_lead, before[i as int].0, before[i as int].1));
            assert(delta_ok(graph, ls, rs, entry_lead, q, delta));
            assert forall|k: int| 0 <= k < subg@.len() implies delta_ok(graph, ls, rs, entry_lead, (#[trigger] subg@[k]).0, subg@[k].1) by {
                if k != i {
                    assert(subg@[k] == before[k]);
                }
            }
        }
        i = i + 1;
    }
    let has_sharing = biclique.left_verts.len() >= 2 || biclique.right_verts.len() >= 2;
    if !is_maximal && has_sharing && biclique.saving > 0 {
        let ghost prev = results@;
        results.push(biclique.clone());
        proof {
            assert forall|k: int| 0 <= k < results@.len() implies (#[trigger] results@[k]).leading_coeff is Some
                && rectangle_factors(graph, results@[k].left_verts@, results@[k].right_verts@, results@[k].leading_coeff) by {
                if k < prev.len() {
                    assert(results@[k] == prev[k]);
                }
            }
        }
    }
    // frontiers after each vertex
    let mut subgq: Vec<(VertexId, Vec<(VertexId, Delta)>)> = Vec::new();
    let mut a: usize = 0;
    while a < subg.len()
        invariant
            a <= subg@.len(),
            keys_below(subg@, n as int),
            n == graph.vertices@.len(),
            graph_wf(graph),
            biclique.leading_coeff == entry_lead,
            biclique.left_verts@ == ls,
            biclique.right_verts@ == rs,
            biclique.saving == old(biclique).saving,
            cand@ == old(cand)@,
            ls == old(biclique).left_verts@,
            rs == old(biclique).right_verts@,
            old(cand)@.no_duplicates(),
            entry_lead == old(biclique).leading_coeff,
            forall|k: int| 0 <= k < results@.len() ==> (#[trigger] results@[k]).leading_coeff is Some
                && rectangle_factors(graph, results@[k].left_verts@, results@[k].right_verts@, results@[k].leading_coeff),
            subgq@.len() == a,
            forall|k: int| 0 <= k < subgq@.len() ==> keys_below((#[trigger] subgq@[k]).1@, n as int),
            forall|k: int| 0 <= k < subgq@.len() ==> (#[trigger] subgq@[k]).0 == subg@[k].0,
            forall|k: int, m: int| 0 <= k < subgq@.len() && 0 <= m < subgq@[k].1@.len() ==> exists|b: int| 0 <= b < subg@.len()
                && subg@[b].0 == (#[trigger] subgq@[k].1@[m]).0
                && update_rel(graph, entry_lead, subg@[k].0, subg@[k].1, subg@[b].0, subg@[b].1, subgq@[k].1@[m].1),
        decreases subg.len() - a,
    {
        let (q, dq) = subg[a];
        let mut child: Vec<(VertexId, Delta)> = Vec::new();
        let mut b: usize = 0;
        while b < subg.len()
            invariant
                b <= subg@.len(),
                a < subg@.len(),
                (q, dq) == subg@[a as int],
                keys_below(subg@, n as int),
                n == graph.vertices@.len(),
                q.0 < n,
                graph_wf(graph),
                biclique.leading_coeff == entry_lead,
                biclique.left_verts@ == ls,
                biclique.right_verts@ == rs,
                biclique.saving == old(biclique).saving,
                cand@ == old(cand)@,
                entry_lead == old(biclique).leading_coeff,
                ls == old(biclique).left_verts@,
                rs == old(biclique).right_verts@,
                old(cand)@.no_duplicates(),
                forall|k: int| 0 <= k < results@.len() ==> (#[trigger] results@[k]).leading_coeff is Some
                    && rectangle_factors(graph, results@[k].left_verts@, results@[k].right_verts@, results@[k].leading_coeff),
                keys_below(child@, n as int),
                forall|m: int| 0 <= m < child@.len() ==> exists|c: int| 0 <= c < subg@.len()
                    && subg@[c].0 == (#[trigger] child@[m]).0
                    && update_rel(graph, entry_lead, q, dq, subg@[c].0, subg@[c].1, child@[m].1),
            decreases subg.len() - b,
        {
            let (r, dr) = subg[b];
            assert(r.0 < n);
            let joining = graph.edges_between(q, r);
            if joining.len() > 0 && dr.exc_cost.checked_add(joining[0].exc_cost as i64).is_none() {
                return false;
            }
            match update_delta(graph, biclique, q, &dq, r, &dr) {
                Some(update) => {
                    let ghost prev = child@;
                    child.push((r, update));
                    proof {
                        assert forall|m: int| 0 <= m < child@.len() implies exists|c: int| 0 <= c < subg@.len()
                            && subg@[c].0 == (#[trigger] child@[m]).0
                            && update_rel(graph, entry_lead, q, dq, subg@[c].0, subg@[c].1, child@[m].1) by {
                            if m < prev.len() {
                                assert(child@[m] == prev[m]);
                            } else {
                                assert(subg@[b as int] == (r, dr));
                            }
                        }
                    }
                },
                None => {},
            }
            b = b + 1;
        }
        let ghost prev_q = subgq@;
        subgq.push((q, child));
        proof {
            assert forall|k: int, m: int| 0 <= k < subgq@.len() && 0 <= m < subgq@[k].1@.len() implies exists|c: int| 0 <= c < subg@.len()
                && subg@[c].0 == (#[trigger] subgq@[k].1@[m]).0
                && update_rel(graph, entry_lead, subg@[k].0, subg@[k].1, subg@[c].0, subg@[c].1, subgq@[k].1@[m].1) by {
                if k < a {
                    assert(subgq@[k] == prev_q[k]);
                }
            }
        }
        a = a + 1;
    }
    let curr = sift(graph, biclique, cand, subg, &subgq);
    let ghost entry = cand@;
    let mut i: usize = 0;
    while i < curr.len()
        invariant
            i <= curr@.len(),
            graph_wf(graph),
            n == graph.vertices@.len(),
            keys_below(subg@, n as int),
            subgq@.len() == subg@.len(),
            forall|k: int| 0 <= k < subgq@.len() ==> keys_below((#[trigger] subgq@[k]).1@, n as int),
            forall|k: int| 0 <= k < subgq@.len() ==> (#[trigger] subgq@[k]).0 == subg@[k].0,
            forall|k: int, m: int| 0 <= k < subgq@.len() && 0 <= m < subgq@[k].1@.len() ==> exists|b: int| 0 <= b < subg@.len()
                && subg@[b].0 == (#[trigger] subgq@[k].1@[m]).0
                && update_rel(graph, entry_lead, subg@[k].0, subg@[k].1, subg@[b].0, subg@[b].1, subgq@[k].1@[m].1),
            forall|k: int| 0 <= k < curr@.len() ==> entry.contains(#[trigger] curr@[k]),
            ls.len() == 0 ==> forall|k: int| 0 <= k < curr@.len() ==> (#[trigger] curr@[k]).0 < graph.vertex_side@.len()
                && graph.vertex_side@[curr@[k].0 as int] == Side::Left,
            ls.len() > 0 && rs.len() == 0 ==> forall|k: int| 0 <= k < curr@.len() ==> (#[trigger] curr@[k]).0 < graph.vertex_side@.len()
                && graph.vertex_side@[curr@[k].0 as int] == Side::Right,
            entry == old(cand)@,
            cand@.no_duplicates(),
            forall|x: VertexId| cand@.contains(x) ==> entry.contains(x),
            cand@.len() <= entry.len(),
            biclique.left_verts@ == ls,
            biclique.right_verts@ == rs,
            biclique.leading_coeff == entry_lead,
            biclique.saving == old(biclique).saving,
            ls == old(biclique).left_verts@,
            rs == old(biclique).right_verts@,
            old(cand)@.no_duplicates(),
            rs.len() == 0 ==> entry_lead is None,
            entry_lead == old(biclique).leading_coeff,
            search_state(graph, ls, rs, entry_lead),
            ls.len() == 0 ==> entry_lead is None,
            forall|k: int| 0 <= k < subg@.len() ==> delta_ok(graph, ls, rs, entry_lead, (#[trigger] subg@[k]).0, subg@[k].1),
            forall|k: int| 0 <= k < results@.len() ==> (#[trigger] results@[k]).leading_coeff is Some
                && rectangle_factors(graph, results@[k].left_verts@, results@[k].right_verts@, results@[k].leading_coeff),
        decreases curr.len() - i,
    {
        let q = curr[i];
        let mut a: usize = 0;
        while a < subg.len() && subg[a].0.0 != q.0
            invariant
                a <= subg@.len(),
            decreases subg.len() - a,
        {
            a = a + 1;
        }
        if a < subg.len() {
            let dq = subg[a].1;
            let mut pos: usize = 0;
            while pos < cand.len() && cand[pos].0 != q.0
                invariant
                    pos <= cand@.len(),
                    forall|k: int| 0 <= k < pos ==> cand@[k] != q,
                decreases cand.len() - pos,
            {
                pos = pos + 1;
            }
            if pos < cand.len() {
                let ghost before = cand@;
                cand.remove(pos);
                proof {
                    lemma_remove_keeps(before, pos as int);
                }
            } else {
                proof {
                    lemma_absent_shorter(cand@, entry, q);
                }
            }
            let side = graph.vertex_side[q.0];
            let mut child: Vec<(VertexId, Delta)> = copy_vec(&subgq[a].1);
            proof {
                assert(subg@[a as int].0 == q);
                assert(delta_ok(graph, ls, rs, entry_lead, q, dq));
                let lead2 = if dq.leading_coeff is Some { dq.leading_coeff } else { biclique.leading_coeff };
                let ls2 = if side == Side::Left { ls.push((q, dq.coeff)) } else { ls };
                let rs2 = if side == Side::Right { rs.push((q, dq.coeff)) } else { rs };
                assert forall|c: int| 0 <= c < child@.len() implies delta_ok(graph, ls2, rs2, lead2, (#[trigger] child@[c]).0, child@[c].1) by {
                    assert(child@[c] == subgq@[a as int].1@[c]);
                    let b = choose|b: int| 0 <= b < subg@.len()
                        && subg@[b].0 == (#[trigger] subgq@[a as int].1@[c]).0
                        && update_rel(graph, entry_lead, subg@[a as int].0, subg@[a as int].1, subg@[b].0, subg@[b].1, subgq@[a as int].1@[c].1);
                    assert(delta_ok(graph, ls, rs, entry_lead, subg@[b].0, subg@[b].1));
                    lemma_step(graph, ls, rs, entry_lead, entry_lead, q, dq, subg@[b].0, subg@[b].1, child@[c].1);
                    if rs.len() > 0 {
                        assert(biclique.leading_coeff == entry_lead);
                    }
                }
                lemma_push_state(graph, ls, rs, entry_lead, q, dq);
            }
            if biclique.saving.checked_add(dq.saving).is_none() {
                return false;
            }
            push(biclique, q, side, &dq);
            let ghost mid = cand@;
            let ok = expand(graph, coeffs, biclique, &mut child, cand, results);
            pop(biclique, q, side, &dq);
            proof {
                assert forall|x: VertexId| cand@.contains(x) implies entry.contains(x) by {
                    assert(mid.contains(x));
                }
                assert(ls.push((q, dq.coeff)).drop_last() =~= ls);
                assert(rs.push((q, dq.coeff)).drop_last() =~= rs);
            }
            if !ok {
                assert(biclique.left_verts@ == ls);
                assert(biclique.right_verts@ == rs);
                return false;
            }
        }
        i = i + 1;
    }
    true
}

proof fn lemma_remove_keeps(s: Seq<VertexId>, p: int)
    requires
        0 <= p < s.len(),
        s.no_duplicates(),
    ensures
        s.remove(p).no_duplicates(),
        forall|x: VertexId| s.remove(p).contains(x) ==> s.contains(x),
{
    let t = s.remove(p);
    assert forall|a: int, b: int| 0 <= a < t.len() && 0 <= b < t.len() && a != b implies t[a] != t[b] by {
        let a0 = if a < p { a } else { a + 1 };
        let b0 = if b < p { b } else { b + 1 };
        assert(t[a] == s[a0]);
        assert(t[b] == s[b0]);
    }
    assert forall|x: VertexId| t.contains(x) implies s.contains(x) by {
        let w = choose|w: int| 0 <= w < t.len() && t[w] == x;
        let w0 = if w < p { w } else { w + 1 };
        assert(s[w0] == x);
    }
}

/// A duplicate-free part of `entry` that misses one of its elements is shorter.
proof fn lemma_absent_shorter(c: Seq<VertexId>, entry: Seq<VertexId>, q: VertexId)
    requires
        c.no_duplicates(),
        forall|x: VertexId| c.contains(x) ==> entry.contains(x),
        entry.contains(q),
        !c.contains(q),
        c.len() <= entry.len(),
    ensures
        c.len() < entry.len(),
{
    c.unique_seq_to_set();
    assert(c.to_set().subset_of(entry.to_set().remove(q)));
    vstd::seq_lib::seq_to_set_is_finite(entry);
    vstd::set_lib::lemma_len_subset(c.to_set(), entry.to_set().remove(q));
    entry.lemma_cardinality_of_set();
}

/// The terms that edges consume, as a bitmask (terms from 64 on are not
/// recorded).
pub open spec fn term_mask(es: Seq<EdgeInfo>) -> u64
    decreases es.len(),
{
    if es.len() == 0 {
        0
    } else {
        term_mask(es.drop_last()) | (if es.last().term_idx < 64 { 1u64 << (es.last().term_idx as u64) } else { 0u64 })
    }
}

/// Every partial sum of the edges' coefficients takes the next one without
/// overflow.
pub open spec fn sum_fits(es: Seq<EdgeInfo>) -> bool {
    forall|k: int| 0 <= k < es.len() ==> forall|x: Rational| #[trigger] x.pair() == coeff_sum(es.take(k)) ==> fits_add(
        x,
        (#[trigger] es[k]).coeff,
    )
}

/// The cross-side coefficient condition holds, and nothing overflows on the
/// way: with `q`'s leading coefficient the summed edge coefficient divides by
/// it; without one, either the biclique has no leading coefficient yet, or
/// the summed edge coefficient is the biclique's leading coefficient times
/// both vertices' coefficients.
pub open spec fn cross_coeff_ok(lead: Option<Rational>, dq: Delta, dr: Delta, es: Seq<EdgeInfo>) -> bool {
    forall|t: Rational| #[trigger] t.pair() == coeff_sum(es) ==> match dq.leading_coeff {
        Some(a) => fits_div(t, a),
        None => match lead {
            None => true,
            Some(l) => fits_mul(l, dq.coeff) && forall|x: Rational| #[trigger] x.pair() == mul_pair(l, dq.coeff) ==> fits_mul(
                x,
                dr.coeff,
            ) && coeff_sum(es) == mul_pair(x, dr.coeff),
        },
    }
}

/// What an accepted update gives. On the same side: `r`'s delta unchanged
/// when `q` has no leading coefficient, else `r`'s leading coefficient over
/// `q`'s as its coefficient. Across the sides, with `t` the summed
/// coefficient of the edges joining them: when `q` has a leading
/// coefficient, `t` over it as `r`'s coefficient; otherwise, with no leading
/// coefficient in the biclique yet, `t` becomes `r`'s leading coefficient,
/// and with one (`lam`), `t` is `lam` times both coefficients.
pub open spec fn update_rel(g: &ConstrGraph, lead: Option<Rational>, q: VertexId, dq: Delta, r: VertexId, dr: Delta, d: Delta) -> bool {
    let t = joined_sum(g, q, r);
    if g.vertex_side@[q.0 as int] == g.vertex_side@[r.0 as int] {
        match dq.leading_coeff {
            None => d == dr,
            Some(a) => (dr.leading_coeff matches Some(b) && d.leading_coeff is None && is_product(b, a, d.coeff)),
        }
    } else {
        match dq.leading_coeff {
            Some(a) => d.leading_coeff == dr.leading_coeff && t.0 * a.den() * d.coeff.den() == a.num() * d.coeff.num() * t.1,
            None => match lead {
                None => d.coeff == dr.coeff && (d.leading_coeff matches Some(c) && c.pair() == t),
                Some(lam) => d.coeff == dr.coeff && d.leading_coeff == dr.leading_coeff && is_product3(t, lam, dq.coeff, dr.coeff),
            },
        }
    }
}

#[verifier::loop_isolation(false)]
/// What adding `r` next to `q` would change, or `None` when `r` cannot
/// join: the two share a term; on the same side, only when `q` carries a
/// leading coefficient and `r` does not (or the ratio overflows); across the
/// sides, when no edge joins them, the edges' terms are already used, or
/// their summed coefficient does not factor as the biclique requires.
pub fn update_delta(
    graph: &ConstrGraph,
    biclique: &Biclique,
    q: VertexId,
    dq: &Delta,
    r: VertexId,
    dr: &Delta,
) -> (res: Option<Delta>)
    requires
        q.0 < graph.vertex_side@.len(),
        r.0 < graph.vertex_side@.len(),
        edges_joining(graph.edges@, q, r).len() > 0 ==> i64::MIN <= dr.exc_cost + (edges_joining(graph.edges@, q, r)[0].exc_cost as i64)
            <= i64::MAX,
    ensures
        dq.terms & dr.terms != 0 ==> res is None,
        graph.vertex_side@[q.0 as int] == graph.vertex_side@[r.0 as int] && dq.leading_coeff is None
            && dq.terms & dr.terms == 0 ==> res == Some(*dr),
        graph.vertex_side@[q.0 as int] != graph.vertex_side@[r.0 as int] && edges_joining(graph.edges@, q, r).len() == 0
            ==> res is None,
        res matches Some(d) ==> update_rel(graph, biclique.leading_coeff, q, *dq, r, *dr, d),
        res matches Some(d) ==> d.saving == dr.saving,
        res matches Some(d) ==> (graph.vertex_side@[q.0 as int] == graph.vertex_side@[r.0 as int] ==> d.terms == dr.terms
            && d.exc_cost == dr.exc_cost),
        graph.vertex_side@[q.0 as int] != graph.vertex_side@[r.0 as int] && edges_joining(graph.edges@, q, r).len() > 0
            && (term_mask(edges_joining(graph.edges@, q, r)) & dq.terms != 0
            || term_mask(edges_joining(graph.edges@, q, r)) & biclique.terms_used != 0) ==> res is None,
        res matches Some(d) ==> (graph.vertex_side@[q.0 as int] != graph.vertex_side@[r.0 as int] ==> {
            let es = edges_joining(graph.edges@, q, r);
            &&& d.terms == dr.terms | term_mask(es)
            &&& d.exc_cost == dr.exc_cost + (es[0].exc_cost as i64)
        }),
        graph.vertex_side@[q.0 as int] == graph.vertex_side@[r.0 as int] && dq.terms & dr.terms == 0
            && dq.leading_coeff is Some && dr.leading_coeff is None ==> res is None,
        graph.vertex_side@[q.0 as int] == graph.vertex_side@[r.0 as int] && dq.terms & dr.terms == 0
            && (dq.leading_coeff matches Some(a) && (dr.leading_coeff matches Some(b) && fits_div(b, a))) ==> res is Some,
        ({
            let es = edges_joining(graph.edges@, q, r);
            &&& graph.vertex_side@[q.0 as int] != graph.vertex_side@[r.0 as int]
            &&& es.len() > 0
            &&& dq.terms & dr.terms == 0
            &&& term_mask(es) & dq.terms == 0
            &&& term_mask(es) & biclique.terms_used == 0
            &&& sum_fits(es)
            &&& cross_coeff_ok(biclique.leading_coeff, *dq, *dr, es)
        }) ==> res is Some,
        ({
            let es = edges_joining(graph.edges@, q, r);
            &&& graph.vertex_side@[q.0 as int] != graph.vertex_side@[r.0 as int]
            &&& es.len() > 0
            &&& dq.leading_coeff is None
            &&& biclique.leading_coeff matches Some(l)
            &&& forall|x: Rational| #[trigger] x.pair() == mul_pair(l, dq.coeff) ==> coeff_sum(es) != mul_pair(x, dr.coeff)
        }) ==> res is None,
{
    let sq = graph.vertex_side[q.0];
    let sr = graph.vertex_side[r.0];
    if dq.terms & dr.terms != 0 {
        return None;
    }
    let same_side = match (sq, sr) {
        (Side::Left, Side::Left) => true,
        (Side::Right, Side::Right) => true,
        _ => false,
    };
    if same_side {
        match dq.leading_coeff {
            Some(dq_lc) => match dr.leading_coeff {
                Some(dr_lc) => {
                    let mut new_dr = *dr;
                    new_dr.leading_coeff = None;
                    match divide(&dr_lc, &dq_lc) {
                        Some(c) => new_dr.coeff = c,
                        None => return None,
                    }
                    Some(new_dr)
                },
                None => None,
            },
            None => Some(*dr),
        }
    } else {
        let edges = graph.edges_between(q, r);
        if edges.len() == 0 {
            return None;
        }
        let mut bitmask: u64 = 0;
        let mut k: usize = 0;
        while k < edges.len()
            invariant
                k <= edges@.len(),
                bitmask == term_mask(edges@.take(k as int)),
            decreases edges.len() - k,
        {
            proof {
                assert(edges@.take(k + 1).drop_last() =~= edges@.take(k as int));
                assert(edges@.take(k + 1).last() == edges@[k as int]);
            }
            if edges[k].term_idx < 64 {
                bitmask = bitmask | (1u64 << edges[k].term_idx as u64);
            } else {
                assert(bitmask | 0u64 == bitmask) by (bit_vector);
            }
            k = k + 1;
        }
        assert(edges@.take(k as int) =~= edges@);
        if bitmask & dq.terms != 0 || bitmask & biclique.terms_used != 0 {
            return None;
        }
        let mut new_dr = *dr;
        new_dr.terms = new_dr.terms | bitmask;
        new_dr.exc_cost = new_dr.exc_cost + edges[0].exc_cost as i64;
        let mut total_coeff = Rational::zero();
        let mut k: usize = 0;
        while k < edges.len()
            invariant
                k <= edges@.len(),
                total_coeff.pair() == coeff_sum(edges@.take(k as int)),
            decreases edges.len() - k,
        {
            proof {
                assert(edges@.take(k + 1).drop_last() =~= edges@.take(k as int));
                assert(edges@.take(k + 1).last() == edges@[k as int]);
                assert(sum_fits(edges@) ==> fits_add(total_coeff, edges@[k as int].coeff));
            }
            match checked_add(&total_coeff, &edges[k].coeff) {
                Some(c) => total_coeff = c,
                None => return None,
            }
            k = k + 1;
        }
        assert(edges@.take(k as int) =~= edges@);
        match dq.leading_coeff {
            Some(dq_lc) => {
                match divide(&total_coeff, &dq_lc) {
                    Some(c) => new_dr.coeff = c,
                    None => return None,
                }
            },
            None => {
                match biclique.leading_coeff {
                    None => new_dr.leading_coeff = Some(total_coeff),
                    Some(bic_lc) => {
                        let expected = match multiply(&bic_lc, &dq.coeff) {
                            Some(x) => match multiply(&x, &dr.coeff) {
                                Some(y) => {
                                    proof {
                                        lemma_cross_chain(
                                            y.num(), y.den(), x.num(), x.den(), bic_lc.num(), bic_lc.den(),
                                            dq.coeff.num(), dq.coeff.den(), dr.coeff.num(), dr.coeff.den(),
                                        );
                                    }
                                    y
                                },
                                None => return None,
                            },
                            None => return None,
                        };
                        if !total_coeff.equals(&expected) {
                            return None;
                        }
                    },
                }
            },
        }
        Some(new_dr)
    }
}

#[verifier::loop_isolation(false)]
/// The candidates worth trying next: left vertices while the biclique is
/// empty, then right ones, then those with a positive saving; minus the
/// same-side neighbours of the frontier vertex that covers most of them.
pub fn sift(
    graph: &ConstrGraph,
    biclique: &Biclique,
    cand: &Vec<VertexId>,
    subg: &Vec<(VertexId, Delta)>,
    subgq: &Vec<(VertexId, Vec<(VertexId, Delta)>)>,
) -> (r: Vec<VertexId>)
    requires
        graph_wf(graph),
        keys_below(subg@, graph.vertices@.len() as int),
        forall|k: int| 0 <= k < subgq@.len() ==> keys_below((#[trigger] subgq@[k]).1@, graph.vertices@.len() as int),
        cand@.no_duplicates(),
    ensures
        forall|k: int| 0 <= k < r@.len() ==> cand@.contains(#[trigger] r@[k]),
        biclique.left_verts@.len() == 0 ==> forall|k: int| 0 <= k < r@.len() ==> (#[trigger] r@[k]).0 < graph.vertex_side@.len()
            && graph.vertex_side@[r@[k].0 as int] == Side::Left,
        biclique.left_verts@.len() > 0 && biclique.right_verts@.len() == 0 ==> forall|k: int| 0 <= k < r@.len()
            ==> (#[trigger] r@[k]).0 < graph.vertex_side@.len() && graph.vertex_side@[r@[k].0 as int] == Side::Right,
        biclique.left_verts@.len() == 0 ==> r@ == on_side(graph.vertex_side@, cand@, Side::Left),
        biclique.left_verts@.len() > 0 ==> {
            let pool = sift_pool(graph, biclique, cand@, subg@);
            r@ == not_listed(pool, pivot_upto(subg@, subgq@, graph.vertex_side@, pool, subg@.len() as int).1)
        },
{
    let n = graph.vertices.len();
    if biclique.left_verts.len() == 0 {
        return filter_side(graph, cand, Side::Left);
    }
    let curr: Vec<VertexId> = if biclique.right_verts.len() == 0 {
        filter_side(graph, cand, Side::Right)
    } else {
        let mut out: Vec<VertexId> = Vec::new();
        let mut i: usize = 0;
        while i < cand.len()
            invariant
                i <= cand@.len(),
                forall|k: int| 0 <= k < out@.len() ==> cand@.contains(#[trigger] out@[k]),
                out@ == saving_members(cand@.take(i as int), subg@),
            decreases cand.len() - i,
        {
            let q = cand[i];
            assert(cand@.take(i + 1).drop_last() =~= cand@.take(i as int));
            match frontier_get(subg, q) {
                Some(d) => {
                    if d.saving > 0 {
                        out.push(q);
                    }
                },
                None => {},
            }
            i = i + 1;
        }
        assert(cand@.take(i as int) =~= cand@);
        out
    };
    let ghost pool = curr@;
    assert(pool == sift_pool(graph, biclique, cand@, subg@));
    let mut best_f: Vec<VertexId> = Vec::new();
    let mut max_intersection: usize = 0;
    let mut a: usize = 0;
    while a < subg.len()
        invariant
            a <= subg@.len(),
            keys_below(subg@, n as int),
            n == graph.vertices@.len(),
            graph_wf(graph),
            pool == curr@,
            (max_intersection as int, best_f@) == pivot_upto(subg@, subgq@, graph.vertex_side@, pool, a as int),
        decreases subg.len() - a,
    {
        let u = subg[a].0;
        let u_side = graph.vertex_side[u.0];
        let mut k: usize = 0;
        assert(subgq@.subrange(0, subgq@.len() as int) =~= subgq@);
        while k < subgq.len() && subgq[k].0.0 != u.0
            invariant
                k <= subgq@.len(),
                neighbors_of(subgq@, u) == neighbors_of(subgq@.subrange(k as int, subgq@.len() as int), u),
            decreases subgq.len() - k,
        {
            assert(subgq@.subrange(k as int, subgq@.len() as int).drop_first() =~= subgq@.subrange(k + 1, subgq@.len() as int));
            k = k + 1;
        }
        if k == subgq.len() {
            assert(subgq@.subrange(k as int, subgq@.len() as int) =~= Seq::<(VertexId, Vec<(VertexId, Delta)>)>::empty());
        }
        if k < subgq.len() {
            let neighbors = &subgq[k].1;
            proof {
                assert(keys_below(subgq@[k as int].1@, n as int));
                assert(subgq@.subrange(k as int, subgq@.len() as int)[0] == subgq@[k as int]);
                assert(neighbors_of(subgq@, u) == Some(neighbors@));
            }
            let mut f_u: Vec<VertexId> = Vec::new();
            let mut m: usize = 0;
            while m < neighbors.len()
                invariant
                    m <= neighbors@.len(),
                    keys_below(neighbors@, n as int),
                    n == graph.vertices@.len(),
                    graph_wf(graph),
                    f_u@ == keys_on_side(neighbors@.take(m as int), graph.vertex_side@, u_side),
                decreases neighbors.len() - m,
            {
                assert(neighbors@.take(m + 1).drop_last() =~= neighbors@.take(m as int));
                let v = neighbors[m].0;
                if graph.vertex_side[v.0] == u_side {
                    f_u.push(v);
                }
                m = m + 1;
            }
            assert(neighbors@.take(m as int) =~= neighbors@);
            let mut count: usize = 0;
            let mut m: usize = 0;
            while m < f_u.len()
                invariant
                    m <= f_u@.len(),
                    count <= m,
                    count == count_listed(f_u@.take(m as int), curr@),
                decreases f_u.len() - m,
            {
                assert(f_u@.take(m + 1).drop_last() =~= f_u@.take(m as int));
                if vertex_listed(&curr, f_u[m]) {
                    count = count + 1;
                }
                m = m + 1;
            }
            assert(f_u@.take(m as int) =~= f_u@);
            if count > max_intersection {
                max_intersection = count;
                best_f = f_u;
            }
        }
        a = a + 1;
    }
    let mut result: Vec<VertexId> = Vec::new();
    let mut i: usize = 0;
    while i < curr.len()
        invariant
            i <= curr@.len(),
            forall|k: int| 0 <= k < curr@.len() ==> cand@.contains(#[trigger] curr@[k]),
            forall|k: int| 0 <= k < result@.len() ==> cand@.contains(#[trigger] result@[k]),
            forall|k: int| 0 <= k < result@.len() ==> curr@.contains(#[trigger] result@[k]),
            result@ == not_listed(curr@.take(i as int), best_f@),
        decreases curr.len() - i,
    {
        assert(curr@.take(i + 1).drop_last() =~= curr@.take(i as int));
        if !vertex_listed(&best_f, curr[i]) {
            result.push(curr[i]);
        }
        i = i + 1;
    }
    proof {
        assert(curr@.take(i as int) =~= curr@);
        if biclique.left_verts@.len() > 0 && biclique.right_verts@.len() == 0 {
            assert forall|k: int| 0 <= k < result@.len() implies (#[trigger] result@[k]).0 < graph.vertex_side@.len()
                && graph.vertex_side@[result@[k].0 as int] == Side::Right by {
                let w = choose|w: int| 0 <= w < curr@.len() && curr@[w] == result@[k];
                assert(curr@[w].0 < graph.vertex_side@.len());
            }
        }
    }
    result
}

/// The members of `cand`, in order, whose frontier delta has a positive
/// saving.
pub open spec fn saving_members(cand: Seq<VertexId>, subg: Seq<(VertexId, Delta)>) -> Seq<VertexId>
    decreases cand.len(),
{
    if cand.len() == 0 {
        seq![]
    } else {
        let rest = saving_members(cand.drop_last(), subg);
        match frontier_lookup(subg, cand.last()) {
            Some(d) => if d.saving > 0 {
                rest.push(cand.last())
            } else {
                rest
            },
            None => rest,
        }
    }
}

/// The candidates that sifting starts from once the biclique has a left
/// vertex: the right-side ones while it has no right vertex, else those
/// whose frontier delta saves something.
pub open spec fn sift_pool(graph: &ConstrGraph, biclique: &Biclique, cand: Seq<VertexId>, subg: Seq<(VertexId, Delta)>) -> Seq<VertexId> {
    if biclique.right_verts@.len() == 0 {
        on_side(graph.vertex_side@, cand, Side::Right)
    } else {
        saving_members(cand, subg)
    }
}

/// The neighbour list of the first entry of `subgq` for `u`.
pub open spec fn neighbors_of(subgq: Seq<(VertexId, Vec<(VertexId, Delta)>)>, u: VertexId) -> Option<Seq<(VertexId, Delta)>>
    decreases subgq.len(),
{
    if subgq.len() == 0 {
        None
    } else if subgq[0].0 == u {
        Some(subgq[0].1@)
    } else {
        neighbors_of(subgq.drop_first(), u)
    }
}

/// The vertices of `ns`, in order, that lie on side `s`.
pub open spec fn keys_on_side(ns: Seq<(VertexId, Delta)>, vertex_side: Seq<Side>, s: Side) -> Seq<VertexId>
    decreases ns.len(),
{
    if ns.len() == 0 {
        seq![]
    } else if vertex_side[ns.last().0.0 as int] == s {
        keys_on_side(ns.drop_last(), vertex_side, s).push(ns.last().0)
    } else {
        keys_on_side(ns.drop_last(), vertex_side, s)
    }
}

/// How many members of `f` (counted with repeats) occur in `pool`.
pub open spec fn count_listed(f: Seq<VertexId>, pool: Seq<VertexId>) -> int
    decreases f.len(),
{
    if f.len() == 0 {
        0
    } else if pool.contains(f.last()) {
        count_listed(f.drop_last(), pool) + 1
    } else {
        count_listed(f.drop_last(), pool)
    }
}

/// The pivot after the first `a` frontier entries: the largest overlap with
/// `pool` so far (the first reaching it wins) and the same-side neighbours
/// that gave it.
pub open spec fn pivot_upto(
    subg: Seq<(VertexId, Delta)>,
    subgq: Seq<(VertexId, Vec<(VertexId, Delta)>)>,
    vertex_side: Seq<Side>,
    pool: Seq<VertexId>,
    a: int,
) -> (int, Seq<VertexId>)
    decreases a,
{
    if a <= 0 {
        (0, seq![])
    } else {
        let prev = pivot_upto(subg, subgq, vertex_side, pool, a - 1);
        let u = subg[a - 1].0;
        match neighbors_of(subgq, u) {
            None => prev,
            Some(ns) => {
                let f = keys_on_side(ns, vertex_side, vertex_side[u.0 as int]);
                let c = count_listed(f, pool);
                if c > prev.0 {
                    (c, f)
                } else {
                    prev
                }
            },
        }
    }
}

/// The members of `pool`, in order, that are not in `drop`.
pub open spec fn not_listed(pool: Seq<VertexId>, drop: Seq<VertexId>) -> Seq<VertexId>
    decreases pool.len(),
{
    if pool.len() == 0 {
        seq![]
    } else if drop.contains(pool.last()) {
        not_listed(pool.drop_last(), drop)
    } else {
        not_listed(pool.drop_last(), drop).push(pool.last())
    }
}

fn vertex_listed(list: &Vec<VertexId>, v: VertexId) -> (r: bool)
    ensures
        r == list@.contains(v),
{
    let mut i: usize = 0;
    while i < list.len()
        invariant
            i <= list@.len(),
            forall|k: int| 0 <= k < i ==> #[trigger] list@[k] != v,
        decreases list.len() - i,
    {
        if list[i].0 == v.0 {
            assert(list@[i as int] == v);
            return true;
        }
        i = i + 1;
    }
    false
}

/// The members of `cand`, in order, that are vertices on `side`.
pub open spec fn on_side(vertex_side: Seq<Side>, cand: Seq<VertexId>, side: Side) -> Seq<VertexId>
    decreases cand.len(),
{
    if cand.len() == 0 {
        seq![]
    } else {
        let rest = on_side(vertex_side, cand.drop_last(), side);
        let q = cand.last();
        if q.0 < vertex_side.len() && vertex_side[q.0 as int] == side {
            rest.push(q)
        } else {
            rest
        }
    }
}

fn filter_side(graph: &ConstrGraph, cand: &Vec<VertexId>, side: Side) -> (r: Vec<VertexId>)
    requires
        graph_wf(graph),
    ensures
        forall|k: int| 0 <= k < r@.len() ==> cand@.contains(#[trigger] r@[k]),
        forall|k: int| 0 <= k < r@.len() ==> (#[trigger] r@[k]).0 < graph.vertex_side@.len()
            && graph.vertex_side@[r@[k].0 as int] == side,
        r@ == on_side(graph.vertex_side@, cand@, side),
{
    let mut out: Vec<VertexId> = Vec::new();
    let mut i: usize = 0;
    while i < cand.len()
        invariant
            i <= cand@.len(),
            graph_wf(graph),
            out@ == on_side(graph.vertex_side@, cand@.take(i as int), side),
            forall|k: int| 0 <= k < out@.len() ==> cand@.contains(#[trigger] out@[k]),
            forall|k: int| 0 <= k < out@.len() ==> (#[trigger] out@[k]).0 < graph.vertex_side@.len()
                && graph.vertex_side@[out@[k].0 as int] == side,
        decreases cand.len() - i,
    {
        let q = cand[i];
        assert(cand@.take(i + 1).drop_last() =~= cand@.take(i as int));
        if q.0 < graph.vertex_side.len() && graph.vertex_side[q.0] == side {
            out.push(q);
        }
        i = i + 1;
    }
    assert(cand@.take(i as int) =~= cand@);
    out
}

/// A biclique under construction, as plain values.
pub struct BicliqueModel {
    pub left_verts: Seq<(VertexId, Rational)>,
    pub right_verts: Seq<(VertexId, Rational)>,
    pub leading_coeff: Option<Rational>,
    pub terms_used: u64,
    pub saving: i64,
}

impl View for Biclique {
    type V = BicliqueModel;

    open spec fn view(&self) -> BicliqueModel {
        BicliqueModel {
            left_verts: self.left_verts@,
            right_verts: self.right_verts@,
            leading_coeff: self.leading_coeff,
            terms_used: self.terms_used,
            saving: self.saving,
        }
    }
}

/// `q` joins on `side` with its delta's coefficient; its saving and terms
/// are added, and its leading coefficient (if any) becomes the biclique's.
pub open spec fn pushed(b: BicliqueModel, q: VertexId, side: Side, dq: Delta) -> BicliqueModel {
    BicliqueModel {
        left_verts: if side == Side::Left { b.left_verts.push((q, dq.coeff)) } else { b.left_verts },
        right_verts: if side == Side::Right { b.right_verts.push((q, dq.coeff)) } else { b.right_verts },
        leading_coeff: if dq.leading_coeff is Some { dq.leading_coeff } else { b.leading_coeff },
        terms_used: b.terms_used | dq.terms,
        saving: (b.saving + dq.saving) as i64,
    }
}

/// The last vertex of `side` leaves; the delta's saving is taken back and
/// its terms toggled off. The leading coefficient stays.
pub open spec fn popped(b: BicliqueModel, side: Side, dq: Delta) -> BicliqueModel {
    BicliqueModel {
        left_verts: if side == Side::Left && b.left_verts.len() > 0 { b.left_verts.drop_last() } else { b.left_verts },
        right_verts: if side == Side::Right && b.right_verts.len() > 0 { b.right_verts.drop_last() } else { b.right_verts },
        leading_coeff: if dq.leading_coeff is Some { None } else { b.leading_coeff },
        terms_used: b.terms_used ^ dq.terms,
        saving: (b.saving - dq.saving) as i64,
    }
}

/// Popping a vertex undoes pushing it, whenever its terms were not already
/// used and, if its delta brings a leading coefficient, the biclique had
/// none before (as in the search, where only the first right vertex brings
/// one).
pub proof fn lemma_pop_undoes_push(b: BicliqueModel, q: VertexId, side: Side, dq: Delta)
    requires
        b.terms_used & dq.terms == 0,
        dq.leading_coeff is Some ==> b.leading_coeff is None,
        i64::MIN <= b.saving + dq.saving <= i64::MAX,
    ensures
        popped(pushed(b, q, side, dq), side, dq) == b,
{
    let t = b.terms_used;
    let x = dq.terms;
    assert((t | x) ^ x == t) by (bit_vector)
        requires
            t & x == 0,
    ;
    assert(b.left_verts.push((q, dq.coeff)).drop_last() =~= b.left_verts);
    assert(b.right_verts.push((q, dq.coeff)).drop_last() =~= b.right_verts);
}

/// Add `q` with its delta to the biclique.
pub fn push(biclique: &mut Biclique, q: VertexId, side: Side, dq: &Delta)
    requires
        i64::MIN <= old(biclique).saving + dq.saving <= i64::MAX,
    ensures
        final(biclique)@ == pushed(old(biclique)@, q, side, *dq),
{
    biclique.saving = biclique.saving + dq.saving;
    biclique.terms_used = biclique.terms_used | dq.terms;
    match side {
        Side::Left => biclique.left_verts.push((q, dq.coeff)),
        Side::Right => biclique.right_verts.push((q, dq.coeff)),
    }
    match dq.leading_coeff {
        Some(lc) => biclique.leading_coeff = Some(lc),
        None => {},
    }
}

/// Remove the last vertex of `side` and undo its saving, its terms and the
/// leading coefficient its delta brought.
pub fn pop(biclique: &mut Biclique, q: VertexId, side: Side, dq: &Delta)
    requires
        i64::MIN <= old(biclique).saving - dq.saving <= i64::MAX,
    ensures
        final(biclique)@ == popped(old(biclique)@, side, *dq),
{
    biclique.saving = biclique.saving - dq.saving;
    biclique.terms_used = biclique.terms_used ^ dq.terms;
    if dq.leading_coeff.is_some() {
        biclique.leading_coeff = None;
    }
    match side {
        Side::Left => {
            biclique.left_verts.pop();
        },
        Side::Right => {
            biclique.right_verts.pop();
        },
    }
}


// ---------------------------------------------------------------------------
// Factorization conversion
// ---------------------------------------------------------------------------

/// One profitable factorization: the terms it consumes, the intermediate
/// definitions it introduces, the term that replaces the consumed ones, and
/// its estimated saving.
#[derive(Debug)]
pub struct Factorization {
    pub terms_consumed: Vec<usize>,
    pub intermediates: Vec<TensorDef>,
    pub replacement_term: Term,
    pub saving: i64,
}

impl Clone for Factorization {
    fn clone(&self) -> (r: Self)
        ensures
            r.terms_consumed@ == self.terms_consumed@,
            crate::repr::def_models(r.intermediates@) == crate::repr::def_models(self.intermediates@),
            r.replacement_term@ == self.replacement_term@,
            r.saving == self.saving,
    {
        let mut intermediates: Vec<TensorDef> = Vec::new();
        let mut i: usize = 0;
        while i < self.intermediates.len()
            invariant
                i <= self.intermediates@.len(),
                intermediates@.len() == i,
                forall|k: int| 0 <= k < i ==> (#[trigger] intermediates@[k])@ == self.intermediates@[k]@,
            decreases self.intermediates.len() - i,
        {
            intermediates.push(self.intermediates[i].clone());
            i = i + 1;
        }
        assert(crate::repr::def_models(intermediates@) =~= crate::repr::def_models(self.intermediates@));
        Factorization {
            terms_consumed: copy_vec(&self.terms_consumed),
            intermediates,
            replacement_term: self.replacement_term.clone(),
            saving: self.saving,
        }
    }
}

/// The positions of the set bits of `m` below `k`, ascending.
pub open spec fn bit_positions(m: u64, k: int) -> Seq<usize>
    decreases k,
{
    if k <= 0 {
        seq![]
    } else if bit(m, (k - 1) as u64) {
        bit_positions(m, k - 1).push((k - 1) as usize)
    } else {
        bit_positions(m, k - 1)
    }
}

proof fn lemma_bit_positions_ascending(m: u64, k: int)
    requires
        0 <= k <= 64,
    ensures
        forall|a: int| 0 <= a < bit_positions(m, k).len() ==> #[trigger] bit_positions(m, k)[a] < k,
        forall|a: int, b: int| 0 <= a < b < bit_positions(m, k).len() ==> #[trigger] bit_positions(m, k)[a]
            < #[trigger] bit_positions(m, k)[b],
    decreases k,
{
    if k > 0 {
        lemma_bit_positions_ascending(m, k - 1);
        let p = bit_positions(m, k - 1);
        assert forall|a: int| 0 <= a < bit_positions(m, k).len() implies #[trigger] bit_positions(m, k)[a] < k by {
            if a < p.len() {
                assert(bit_positions(m, k)[a] == p[a]);
            }
        }
        assert forall|a: int, b: int| 0 <= a < b < bit_positions(m, k).len() implies #[trigger] bit_positions(m, k)[a]
            < #[trigger] bit_positions(m, k)[b] by {
            if bit(m, (k - 1) as u64) {
                assert(bit_positions(m, k) == p.push((k - 1) as usize));
                assert(bit_positions(m, k)[a] == p[a]);
                if b < p.len() {
                    assert(bit_positions(m, k)[b] == p[b]);
                    assert(p[a] < p[b]);
                } else {
                    assert(p[a] < k - 1);
                }
            } else {
                assert(bit_positions(m, k) == p);
                assert(p[a] < p[b]);
            }
        }
    }
}

/// Expand a bitmask into the ascending list of its set-bit positions.
fn bits_to_vec(mask: u64) -> (r: Vec<usize>)
    ensures
        r@ == bit_positions(mask, 64),
{
    let mut out: Vec<usize> = Vec::new();
    let mut i: usize = 0;
    while i < 64
        invariant
            i <= 64,
            out@ == bit_positions(mask, i as int),
        decreases 64 - i,
    {
        if (mask >> i as u64) & 1 == 1 {
            out.push(i);
        }
        i = i + 1;
    }
    out
}

#[verifier::loop_isolation(false)]
/// The elements of `source` at the set bits of `mask`, in bit order; `None`
/// when a bit is beyond `source`.
fn bits_to_indices(mask: u64, source: &Vec<Index>) -> (r: Option<Vec<Index>>)
    ensures
        r matches Some(v) ==> v@.len() == bit_positions(mask, 64).len()
            && (forall|k: int| 0 <= k < v@.len() ==> #[trigger] bit_positions(mask, 64)[k] < source@.len())
            && (forall|k: int| 0 <= k < v@.len() ==> #[trigger] v@[k] == source@[bit_positions(mask, 64)[k] as int]),
        r is Some <==> forall|k: int| 0 <= k < bit_positions(mask, 64).len() ==> #[trigger] bit_positions(mask, 64)[k] < source@.len(),
{
    let positions = bits_to_vec(mask);
    let mut out: Vec<Index> = Vec::new();
    let mut k: usize = 0;
    while k < positions.len()
        invariant
            k <= positions@.len(),
            out@.len() == k,
            forall|m: int| 0 <= m < k ==> #[trigger] positions@[m] < source@.len(),
            forall|m: int| 0 <= m < k ==> #[trigger] out@[m] == source@[positions@[m] as int],
        decreases positions.len() - k,
    {
        let b = positions[k];
        if b >= source.len() {
            assert(positions@[k as int] >= source@.len());
            return None;
        }
        let ghost prev = out@;
        let item = source[b];
        out.push(item);
        proof {
            assert(out@[k as int] == item);
            assert(item == source@[b as int]);
            assert(positions@[k as int] == b);
            assert forall|m: int| 0 <= m < k + 1 implies #[trigger] out@[m] == source@[positions@[m] as int] by {
                if m < k {
                    assert(out@[m] == prev[m]);
                }
            }
        }
        k = k + 1;
    }
    assert(positions@ == bit_positions(mask, 64));
    Some(out)
}

/// The indices of the left vertex's factors that also occur in the right
/// vertex's factors, once each in order of first appearance, with their
/// ranges from `id_to_range` (ids without a range are left out).
fn contracted_indices(graph: &ConstrGraph, left_v: VertexId, right_v: VertexId, id_to_range: &Vec<Index>) -> (r: Option<Vec<Index>>)
    ensures
        r is Some <==> left_v.0 < graph.vertices@.len() && right_v.0 < graph.vertices@.len(),
        r matches Some(v) ==> v@ == contracted_of(
            flat_ids(graph.vertices@[left_v.0 as int]@.factors),
            graph.vertices@[right_v.0 as int]@.factors,
            id_to_range@,
        ),
{
    if left_v.0 >= graph.vertices.len() || right_v.0 >= graph.vertices.len() {
        return None;
    }
    let left_term = &graph.vertices[left_v.0];
    let right_term = &graph.vertices[right_v.0];
    let right_ids = factor_ids(right_term);
    let ghost lf = left_term@.factors;
    let ghost rf = right_term@.factors;
    let mut seen: Vec<IndexId> = Vec::new();
    let mut result: Vec<Index> = Vec::new();
    let mut f: usize = 0;
    while f < left_term.factors.len()
        invariant
            f <= left_term.factors@.len(),
            lf == left_term@.factors,
            rf == right_term@.factors,
            forall|x: IndexId| right_ids@.contains(x) <==> crate::rl_parenth::id_present(rf, x),
            forall|x: IndexId| #[trigger] seen@.contains(x) <==> flat_ids(lf.take(f as int)).contains(x)
                && crate::rl_parenth::id_present(rf, x),
            result@ == contracted_of(flat_ids(lf.take(f as int)), rf, id_to_range@),
        decreases left_term.factors.len() - f,
    {
        let factor = &left_term.factors[f];
        let ghost before = flat_ids(lf.take(f as int));
        assert(factor.indices@ == lf[f as int].indices);
        assert(before + factor.indices@.take(0) =~= before);
        let mut j: usize = 0;
        let ghost mut cur: Seq<IndexId> = before;
        assert forall|x: IndexId| #[trigger] seen@.contains(x) <==> cur.contains(x) && crate::rl_parenth::id_present(rf, x) by {
            assert(seen@.contains(x) <==> flat_ids(lf.take(f as int)).contains(x) && crate::rl_parenth::id_present(rf, x));
        }
        while j < factor.indices.len()
            invariant
                j <= factor.indices@.len(),
                cur == before + factor.indices@.take(j as int),
                forall|x: IndexId| right_ids@.contains(x) <==> crate::rl_parenth::id_present(rf, x),
                forall|x: IndexId| #[trigger] seen@.contains(x) <==> cur.contains(x) && crate::rl_parenth::id_present(rf, x),
                result@ == contracted_of(cur, rf, id_to_range@),
            decreases factor.indices.len() - j,
        {
            let id = factor.indices[j];
            let ghost next = before + factor.indices@.take(j + 1);
            assert(next.drop_last() =~= cur);
            assert(next.last() == id);
            assert(forall|x: IndexId| #[trigger] next.contains(x) <==> cur.contains(x) || x == id) by {
                assert forall|x: IndexId| #[trigger] next.contains(x) implies cur.contains(x) || x == id by {
                    let k = choose|k: int| 0 <= k < next.len() && next[k] == x;
                    if k < cur.len() {
                        assert(cur[k] == x);
                    }
                }
                assert forall|x: IndexId| cur.contains(x) || x == id implies #[trigger] next.contains(x) by {
                    if x == id {
                        assert(next[next.len() - 1] == x);
                    } else {
                        let k = choose|k: int| 0 <= k < cur.len() && cur[k] == x;
                        assert(next[k] == x);
                    }
                }
            }
            let ghost seen0 = seen@;
            let ghost result0 = result@;
            assert(seen0.contains(id) <==> cur.contains(id) && crate::rl_parenth::id_present(rf, id));
            assert(right_ids@.contains(id) <==> crate::rl_parenth::id_present(rf, id));
            if ids_contains(&right_ids, id) && !ids_contains(&seen, id) {
                seen.push(id);
                assert(forall|x: IndexId| #[trigger] seen@.contains(x) <==> seen0.contains(x) || x == id) by {
                    assert forall|x: IndexId| #[trigger] seen@.contains(x) implies seen0.contains(x) || x == id by {
                        let k = choose|k: int| 0 <= k < seen@.len() && seen@[k] == x;
                        if k < seen0.len() {
                            assert(seen0[k] == x);
                        }
                    }
                    assert forall|x: IndexId| seen0.contains(x) || x == id implies #[trigger] seen@.contains(x) by {
                        if x == id {
                            assert(seen@[seen@.len() - 1] == x);
                        } else {
                            let k = choose|k: int| 0 <= k < seen0.len() && seen0[k] == x;
                            assert(seen@[k] == x);
                        }
                    }
                }
                match crate::canon::lookup_range_pub(id_to_range, id) {
                    Some(range) => result.push(Index { id, range }),
                    None => {},
                }
            }
            assert(result@ == contracted_of(next, rf, id_to_range@));
            assert forall|x: IndexId| #[trigger] seen@.contains(x) <==> next.contains(x) && crate::rl_parenth::id_present(rf, x) by {
                assert(seen0.contains(x) <==> cur.contains(x) && crate::rl_parenth::id_present(rf, x));
                assert(next.contains(x) <==> cur.contains(x) || x == id);
            }
            proof {
                cur = next;
            }
            j = j + 1;
        }
        assert(factor.indices@.take(j as int) =~= factor.indices@);
        assert(lf.take(f + 1).drop_last() =~= lf.take(f as int));
        assert(flat_ids(lf.take(f + 1)) == before + factor.indices@);
        assert(cur == flat_ids(lf.take(f + 1)));
        f = f + 1;
    }
    assert(lf.take(f as int) =~= lf);
    Some(result)
}

/// The index ids of `factors`, factor by factor, in order.
pub open spec fn flat_ids(factors: Seq<FactorModel>) -> Seq<IndexId>
    decreases factors.len(),
{
    if factors.len() == 0 {
        seq![]
    } else {
        flat_ids(factors.drop_last()) + factors.last().indices
    }
}

/// The ids of `ids` that occur in `right`, once each in order of first
/// appearance, with their ranges from `id_to_range` (its last entry for the
/// id); ids without a range are left out.
pub open spec fn contracted_of(ids: Seq<IndexId>, right: Seq<FactorModel>, id_to_range: Seq<Index>) -> Seq<Index>
    decreases ids.len(),
{
    if ids.len() == 0 {
        seq![]
    } else {
        let rest = contracted_of(ids.drop_last(), right, id_to_range);
        let id = ids.last();
        if crate::rl_parenth::id_present(right, id) && !ids.drop_last().contains(id) && crate::rl_parenth::last_pos(
            id_to_range,
            id,
        ) >= 0 {
            rest.push(Index { id, range: id_to_range[crate::rl_parenth::last_pos(id_to_range, id)].range })
        } else {
            rest
        }
    }
}

#[verifier::loop_isolation(false)]
/// Build one side of a factorization: a single vertex that is a bare factor
/// with coefficient one is used directly; otherwise an intermediate
/// definition over `side_ext` and the contracted indices is added, with a
/// fresh tensor id, holding the side's vertices scaled by `coeffs`.
fn build_side(
    verts: &Vec<(VertexId, Rational)>,
    coeffs: &Vec<Rational>,
    graph: &ConstrGraph,
    side_ext: &Vec<Index>,
    contracted: &Vec<Index>,
    contracted_ids: &Vec<IndexId>,
    intermediates: &mut Vec<TensorDef>,
    next_id: &mut u32,
) -> (r: Option<(TensorId, Vec<IndexId>)>)
    ensures
        final(intermediates)@.len() <= old(intermediates)@.len() + 1,
        forall|k: int| 0 <= k < old(intermediates)@.len() ==> #[trigger] final(intermediates)@[k] == old(intermediates)@[k],
        final(intermediates)@.len() == old(intermediates)@.len() + 1 ==> *final(next_id) == *old(next_id) + 1
            && final(intermediates)@.last().base.0 == *old(next_id),
        final(intermediates)@.len() == old(intermediates)@.len() ==> *final(next_id) == *old(next_id),
        r matches Some((tid, ids)) ==> (final(intermediates)@.len() == old(intermediates)@.len() + 1 ==> side_matches(
            FactorModel { tensor: tid, indices: ids@ },
            final(intermediates)@.last()@,
        ) && final(intermediates)@.last().ext_indices@ == side_ext@ + contracted@),
        r is Some <==> side_buildable(verts@, coeffs@, graph, *old(next_id)),
        r is None ==> final(intermediates)@ == old(intermediates)@,
        r matches Some((tid, ids)) ==> bare_side(verts@, coeffs@, graph) ==> final(intermediates)@ == old(intermediates)@
            && tid == graph.vertices@[verts@[0].0.0 as int].factors@[0].tensor
            && ids@ == graph.vertices@[verts@[0].0.0 as int].factors@[0].indices@,
        r is Some && !bare_side(verts@, coeffs@, graph) ==> {
            let d = final(intermediates)@.last();
            &&& final(intermediates)@.len() == old(intermediates)@.len() + 1
            &&& d.terms@.len() == verts@.len()
            &&& forall|k: int| 0 <= k < verts@.len() ==> built_term(
                #[trigger] d.terms@[k],
                graph.vertices@[verts@[k].0.0 as int],
                coeffs@[k],
                contracted_ids@,
            )
        },
{
    let mut interm_ext: Vec<Index> = copy_vec(side_ext);
    let mut k: usize = 0;
    while k < contracted.len()
        invariant
            k <= contracted@.len(),
            interm_ext@ == side_ext@ + contracted@.take(k as int),
        decreases contracted.len() - k,
    {
        interm_ext.push(contracted[k]);
        k = k + 1;
        assert(interm_ext@ =~= side_ext@ + contracted@.take(k as int));
    }
    assert(contracted@.take(contracted@.len() as int) =~= contracted@);
    let mut interm_idx_ids: Vec<IndexId> = Vec::new();
    let mut k: usize = 0;
    while k < interm_ext.len()
        invariant
            k <= interm_ext@.len(),
            interm_idx_ids@ == interm_ext@.take(k as int).map_values(|i: Index| i.id),
        decreases interm_ext.len() - k,
    {
        interm_idx_ids.push(interm_ext[k].id);
        k = k + 1;
        assert(interm_idx_ids@ =~= interm_ext@.take(k as int).map_values(|i: Index| i.id));
    }
    assert(interm_ext@.take(interm_ext@.len() as int) =~= interm_ext@);
    if verts.len() != coeffs.len() || verts.len() == 0 {
        return None;
    }
    if verts.len() == 1 {
        let v = verts[0].0;
        let coeff = coeffs[0];
        if v.0 >= graph.vertices.len() {
            assert(!side_buildable(verts@, coeffs@, graph, *old(next_id)));
            return None;
        }
        let vterm = &graph.vertices[v.0];
        if vterm.factors.len() == 1 && vterm.sum_indices.len() == 0 && coeff.is_one() {
            let f = &vterm.factors[0];
            return Some((f.tensor, copy_vec(&f.indices)));
        }
        if *next_id == u32::MAX {
            return None;
        }
        let tid = TensorId(*next_id);
        *next_id = *next_id + 1;
        let sums = kept_sum_indices(&vterm.sum_indices, contracted_ids);
        let mut terms: Vec<Term> = Vec::new();
        terms.push(Term { coeff, sum_indices: sums, factors: crate::repr::clone_factors(&vterm.factors) });
        intermediates.push(TensorDef { base: tid, ext_indices: interm_ext, terms });
        assert(terms@[0]@.factors == vterm@.factors);
        return Some((tid, interm_idx_ids));
    }
    if *next_id == u32::MAX {
        return None;
    }
    let tid = TensorId(*next_id);
    let mut terms: Vec<Term> = Vec::new();
    let mut k: usize = 0;
    while k < verts.len()
        invariant
            k <= verts@.len(),
            verts@.len() == coeffs@.len(),
            terms@.len() == k,
            *next_id == *old(next_id),
            intermediates@ == old(intermediates)@,
            verts@.len() >= 2,
            forall|m: int| 0 <= m < k ==> (#[trigger] verts@[m]).0.0 < graph.vertices@.len(),
            forall|m: int| 0 <= m < k ==> built_term(
                #[trigger] terms@[m],
                graph.vertices@[verts@[m].0.0 as int],
                coeffs@[m],
                contracted_ids@,
            ),
        decreases verts.len() - k,
    {
        let v = verts[k].0;
        if v.0 >= graph.vertices.len() {
            assert(!side_buildable(verts@, coeffs@, graph, *old(next_id))) by {
                assert(verts@[k as int].0.0 >= graph.vertices@.len());
            }
            return None;
        }
        let vterm = &graph.vertices[v.0];
        let sums = kept_sum_indices(&vterm.sum_indices, contracted_ids);
        let ghost prev = terms@;
        terms.push(Term { coeff: coeffs[k], sum_indices: sums, factors: crate::repr::clone_factors(&vterm.factors) });
        proof {
            let vt = graph.vertices@[verts@[k as int].0.0 as int];
            assert(vt == *vterm);
            assert(terms@[k as int].coeff == coeffs@[k as int]);
            assert(terms@[k as int].sum_indices@ == kept_sums(vt.sum_indices@, contracted_ids@));
            assert(terms@[k as int]@.factors == vt@.factors);
            assert forall|m: int| 0 <= m < k + 1 implies built_term(
                #[trigger] terms@[m],
                graph.vertices@[verts@[m].0.0 as int],
                coeffs@[m],
                contracted_ids@,
            ) by {
                if m < k {
                    assert(terms@[m] == prev[m]);
                }
            }
        }
        k = k + 1;
    }
    *next_id = *next_id + 1;
    let ghost tv = terms@;
    intermediates.push(TensorDef { base: tid, ext_indices: interm_ext, terms });
    assert(intermediates@.last().terms@ == tv);
    Some((tid, interm_idx_ids))
}

/// `t` is the vertex term `vt` scaled to `c`, without the summation
/// indices in `drop`.
pub open spec fn built_term(t: Term, vt: Term, c: Rational, drop: Seq<IndexId>) -> bool {
    &&& t.coeff == c
    &&& t.sum_indices@ == kept_sums(vt.sum_indices@, drop)
    &&& t@.factors == vt@.factors
}

/// Intermediate `d` sums the vertex terms of `verts`, in order, each scaled
/// by its biclique coefficient (times the vertex term's own coefficient).
pub open spec fn side_realised(d: TensorDef, g: &ConstrGraph, verts: Seq<(VertexId, Rational)>) -> bool {
    &&& d.terms@.len() == verts.len()
    &&& forall|k: int| 0 <= k < verts.len() ==> (#[trigger] verts[k]).0.0 < g.vertices@.len()
        && d.terms@[k].coeff.pair() == mul_pair(verts[k].1, g.vertices@[verts[k].0.0 as int].coeff)
        && d.terms@[k]@.factors == g.vertices@[verts[k].0.0 as int]@.factors
}

/// `f` factors the biclique `b` of graph `g`: the replacement term carries
/// `b`'s leading coefficient, with which every left vertex factors with
/// every right vertex, and each intermediate sums one side of `b`.
pub open spec fn factorization_from(f: Factorization, g: &ConstrGraph, b: BicliqueModel) -> bool {
    &&& b.left_verts.len() > 0
    &&& b.right_verts.len() > 0
    &&& b.leading_coeff == Some(f.replacement_term.coeff)
    &&& rectangle_factors(g, b.left_verts, b.right_verts, b.leading_coeff)
    &&& forall|m: int| 0 <= m < f.intermediates@.len() ==> side_realised(#[trigger] f.intermediates@[m], g, b.left_verts)
        || side_realised(f.intermediates@[m], g, b.right_verts)
}

/// `f` factors some biclique of some well-formed graph.
pub open spec fn factored(f: Factorization) -> bool {
    exists|g: ConstrGraph, b: BicliqueModel| graph_wf(&g) && #[trigger] factorization_from(f, &g, b)
}

/// A factorisation keeps the value of what it replaces: for every left
/// vertex `i` and right vertex `j` of the biclique, the replacement
/// coefficient times the two intermediate terms' coefficients equals the
/// summed coefficient of the edges joining them times the two vertex terms'
/// own coefficients (all denominators positive, as for every `Rational`).
pub proof fn lemma_factorization_preserves_value(
    f: Factorization,
    g: ConstrGraph,
    b: BicliqueModel,
    ml: int,
    mr: int,
    i: int,
    j: int,
)
    requires
        factorization_from(f, &g, b),
        0 <= ml < f.intermediates@.len(),
        0 <= mr < f.intermediates@.len(),
        side_realised(f.intermediates@[ml], &g, b.left_verts),
        side_realised(f.intermediates@[mr], &g, b.right_verts),
        0 <= i < b.left_verts.len(),
        0 <= j < b.right_verts.len(),
        b.left_verts[i].1.den() > 0,
        b.right_verts[j].1.den() > 0,
        g.vertices@[b.left_verts[i].0.0 as int].coeff.den() > 0,
        g.vertices@[b.right_verts[j].0.0 as int].coeff.den() > 0,
    ensures
        ({
            let a = f.replacement_term.coeff;
            let p = f.intermediates@[ml].terms@[i].coeff;
            let q = f.intermediates@[mr].terms@[j].coeff;
            let t = joined_sum(&g, b.left_verts[i].0, b.right_verts[j].0);
            let u = g.vertices@[b.left_verts[i].0.0 as int].coeff;
            let w = g.vertices@[b.right_verts[j].0.0 as int].coeff;
            a.num() * p.num() * q.num() * (t.1 * u.den() * w.den()) == t.0 * u.num() * w.num() * (a.den() * p.den() * q.den())
        }),
{
    let a = f.replacement_term.coeff;
    let p = f.intermediates@[ml].terms@[i].coeff;
    let q = f.intermediates@[mr].terms@[j].coeff;
    let lc = b.left_verts[i].1;
    let rc = b.right_verts[j].1;
    let t = joined_sum(&g, b.left_verts[i].0, b.right_verts[j].0);
    let u = g.vertices@[b.left_verts[i].0.0 as int].coeff;
    let w = g.vertices@[b.right_verts[j].0.0 as int].coeff;
    assert(b.leading_coeff->0 == a);
    assert(rectangle_factors(&g, b.left_verts, b.right_verts, b.leading_coeff));
    assert(pair_factors(&g, b.leading_coeff->0, b.left_verts[i], b.right_verts[j]));
    assert(t.0 * a.den() * lc.den() * rc.den() == a.num() * lc.num() * rc.num() * t.1);
    assert(p.pair() == mul_pair(lc, u));
    assert(q.pair() == mul_pair(rc, w));
    assert(lc.den() * u.den() != 0) by (nonlinear_arith)
        requires
            lc.den() > 0,
            u.den() > 0,
    ;
    assert(rc.den() * w.den() != 0) by (nonlinear_arith)
        requires
            rc.den() > 0,
            w.den() > 0,
    ;
    crate::rational::lemma_reduced_value(lc.num() * u.num(), lc.den() * u.den());
    crate::rational::lemma_reduced_value(rc.num() * w.num(), rc.den() * w.den());
    let (an, ad, pn, pd, qn, qd) = (a.num(), a.den(), p.num(), p.den(), q.num(), q.den());
    let (ln, ld, rn, rd, un, ud, wn, wd) = (lc.num(), lc.den(), rc.num(), rc.den(), u.num(), u.den(), w.num(), w.den());
    let (t0, t1) = (t.0, t.1);
    let p1 = pn * (ld * ud);
    let q1 = qn * (rd * wd);
    assert(p1 == (ln * un) * pd);
    assert(q1 == (rn * wn) * qd);
    let lhs = an * pn * qn * (t1 * ud * wd);
    let rhs = t0 * un * wn * (ad * pd * qd);
    lemma_regroup_a(an, t1, pn, qn, ud, wd, ld, rd);
    assert(lhs * (ld * rd) == (an * t1) * p1 * q1);
    assert((an * t1) * p1 * q1 == (an * t1) * ((ln * un) * pd) * ((rn * wn) * qd));
    lemma_regroup_b(an, t1, ln, un, pd, rn, wn, qd);
    assert((an * t1) * ((ln * un) * pd) * ((rn * wn) * qd) == (an * ln * rn * t1) * (un * wn * pd * qd));
    assert((an * ln * rn * t1) * (un * wn * pd * qd) == (t0 * ad * ld * rd) * (un * wn * pd * qd));
    lemma_regroup_c(t0, ad, ld, rd, un, wn, pd, qd);
    assert(lhs * (ld * rd) == rhs * (ld * rd));
    assert(ld * rd > 0) by (nonlinear_arith)
        requires
            ld > 0,
            rd > 0,
    ;
    assert(lhs == rhs) by (nonlinear_arith)
        requires
            lhs * (ld * rd) == rhs * (ld * rd),
            ld * rd > 0,
    ;
}

proof fn lemma_swap4(a: int, b: int, c: int, d: int)
    ensures
        (a * b) * (c * d) == (a * c) * (b * d),
{
    assert((a * b) * (c * d) == (a * c) * (b * d)) by (nonlinear_arith);
}

proof fn lemma_assoc3(a: int, b: int, c: int)
    ensures
        (a * b) * c == a * (b * c),
        a * b == b * a,
{
    vstd::arithmetic::mul::lemma_mul_is_associative(a, b, c);
    vstd::arithmetic::mul::lemma_mul_is_commutative(a, b);
}

proof fn lemma_regroup_a(an: int, t1: int, pn: int, qn: int, ud: int, wd: int, ld: int, rd: int)
    ensures
        (an * pn * qn * (t1 * ud * wd)) * (ld * rd) == (an * t1) * (pn * (ld * ud)) * (qn * (rd * wd)),
{
    let p = pn * qn;
    let u = ud * wd;
    let c = ld * rd;
    let x = an * t1;
    lemma_assoc3(an, pn, qn);
    lemma_assoc3(t1, ud, wd);
    assert(an * pn * qn * (t1 * ud * wd) == (an * p) * (t1 * u));
    lemma_swap4(an, p, t1, u);
    lemma_assoc3(x, p * u, c);
    lemma_assoc3(p, u, c);
    lemma_assoc3(u, c, 0);
    assert((an * pn * qn * (t1 * ud * wd)) * c == x * (p * (c * u)));
    lemma_swap4(pn, ld * ud, qn, rd * wd);
    lemma_swap4(ld, ud, rd, wd);
    lemma_assoc3(x, pn * (ld * ud), qn * (rd * wd));
    assert((pn * (ld * ud)) * (qn * (rd * wd)) == p * (c * u));
}

proof fn lemma_regroup_b(an: int, t1: int, ln: int, un: int, pd: int, rn: int, wn: int, qd: int)
    ensures
        (an * t1) * ((ln * un) * pd) * ((rn * wn) * qd) == (an * ln * rn * t1) * (un * wn * pd * qd),
{
    let x = (ln * un) * pd;
    let y = (rn * wn) * qd;
    lemma_assoc3(an * t1, x, y);
    lemma_assoc3(ln, un, pd);
    lemma_assoc3(rn, wn, qd);
    lemma_swap4(ln, un * pd, rn, wn * qd);
    lemma_swap4(un, pd, wn, qd);
    assert(x * y == (ln * rn) * ((un * wn) * (pd * qd)));
    lemma_assoc3(an * t1, ln * rn, (un * wn) * (pd * qd));
    lemma_assoc3(an, ln, rn);
    lemma_assoc3(an, ln * rn, t1);
    lemma_assoc3(ln * rn, t1, 0);
    lemma_assoc3(an, t1, ln * rn);
    assert(an * ln * rn * t1 == (an * t1) * (ln * rn));
    lemma_assoc3(un * wn, pd, qd);
    assert(un * wn * pd * qd == (un * wn) * (pd * qd));
}

proof fn lemma_regroup_c(t0: int, ad: int, ld: int, rd: int, un: int, wn: int, pd: int, qd: int)
    ensures
        (t0 * ad * ld * rd) * (un * wn * pd * qd) == (t0 * un * wn * (ad * pd * qd)) * (ld * rd),
{
    let t = t0 * ad;
    let c = ld * rd;
    let w = (un * wn) * (pd * qd);
    lemma_assoc3(t, ld, rd);
    lemma_assoc3(un * wn, pd, qd);
    assert((t0 * ad * ld * rd) * (un * wn * pd * qd) == (t * c) * w);
    lemma_assoc3(t0, un, wn);
    lemma_assoc3(ad, pd, qd);
    lemma_swap4(t0, un * wn, ad, pd * qd);
    assert(t0 * un * wn * (ad * pd * qd) == t * w);
    lemma_assoc3(t, w, c);
    lemma_assoc3(w, c, 0);
    lemma_assoc3(t, c, w);
}

proof fn lemma_side_realised(d: TensorDef, g: &ConstrGraph, verts: Seq<(VertexId, Rational)>, coeffs: Seq<Rational>, drop: Seq<IndexId>)
    requires
        d.terms@.len() == verts.len(),
        coeffs.len() == verts.len(),
        forall|k: int| 0 <= k < verts.len() ==> (#[trigger] verts[k]).0.0 < g.vertices@.len()
            && coeffs[k].pair() == mul_pair(verts[k].1, g.vertices@[verts[k].0.0 as int].coeff),
        forall|k: int| 0 <= k < verts.len() ==> built_term(#[trigger] d.terms@[k], g.vertices@[verts[k].0.0 as int], coeffs[k], drop),
    ensures
        side_realised(d, g, verts),
{
    assert forall|k: int| 0 <= k < verts.len() implies (#[trigger] verts[k]).0.0 < g.vertices@.len()
        && d.terms@[k].coeff.pair() == mul_pair(verts[k].1, g.vertices@[verts[k].0.0 as int].coeff)
        && d.terms@[k]@.factors == g.vertices@[verts[k].0.0 as int]@.factors by {
        assert(built_term(d.terms@[k], g.vertices@[verts[k].0.0 as int], coeffs[k], drop));
    }
}

/// The side is one vertex, a bare factor with no summation index, taken
/// with coefficient one.
pub open spec fn bare_side(verts: Seq<(VertexId, Rational)>, coeffs: Seq<Rational>, graph: &ConstrGraph) -> bool {
    let vt = graph.vertices@[verts[0].0.0 as int];
    &&& verts.len() == 1
    &&& verts[0].0.0 < graph.vertices@.len()
    &&& vt.factors@.len() == 1
    &&& vt.sum_indices@.len() == 0
    &&& coeffs[0].num() == 1
    &&& coeffs[0].den() == 1
}

/// The side has a coefficient per vertex, at least one vertex, every vertex
/// exists, and a fresh tensor id is left unless the side is bare.
pub open spec fn side_buildable(verts: Seq<(VertexId, Rational)>, coeffs: Seq<Rational>, graph: &ConstrGraph, next_id: u32) -> bool {
    &&& verts.len() == coeffs.len()
    &&& verts.len() > 0
    &&& forall|k: int| 0 <= k < verts.len() ==> (#[trigger] verts[k]).0.0 < graph.vertices@.len()
    &&& (bare_side(verts, coeffs, graph) || next_id != u32::MAX)
}

/// A side of a replacement term that contracts the intermediate `d`: the
/// factor names `d`, with `d`'s external indices; `d` has a term.
pub open spec fn side_matches(f: FactorModel, d: DefModel) -> bool {
    &&& f.tensor == d.base
    &&& f.indices == d.ext_indices.map_values(|i: Index| i.id)
    &&& d.terms.len() >= 1
}

/// `s` ends with `t`.
pub open spec fn ends_with(s: Seq<Index>, t: Seq<Index>) -> bool {
    s.len() >= t.len() && s.skip(s.len() - t.len()) == t
}

/// What holds of every factorization offered: a positive saving; the
/// consumed terms ascending; at most two intermediates, numbered from
/// `next`, each ending in the replacement term's summation indices; a
/// replacement term of two factors, which contract the intermediates (the
/// left one first when both sides need one).
pub open spec fn factorization_shape(f: Factorization, next: TensorId) -> bool {
    let im = def_models(f.intermediates@);
    let rt = f.replacement_term@;
    &&& f.saving > 0
    &&& rt.factors.len() == 2
    &&& im.len() <= 2
    &&& forall|a: int| 0 <= a < f.terms_consumed@.len() ==> #[trigger] f.terms_consumed@[a] < 64
    &&& forall|a: int, b: int| 0 <= a < b < f.terms_consumed@.len() ==> #[trigger] f.terms_consumed@[a]
        < #[trigger] f.terms_consumed@[b]
    &&& forall|k: int| 0 <= k < im.len() ==> (#[trigger] im[k]).base.0 == next.0 + k
    &&& forall|k: int| 0 <= k < im.len() ==> ends_with((#[trigger] im[k]).ext_indices, rt.sum_indices)
    &&& im.len() == 2 ==> side_matches(rt.factors[0], im[0]) && side_matches(rt.factors[1], im[1])
    &&& im.len() == 1 ==> side_matches(rt.factors[0], im[0]) || side_matches(rt.factors[1], im[0])
}

/// The summation indices whose ids are not in `drop`, in order.
/// The members of `sums`, in order, whose ids are not in `drop`.
pub open spec fn kept_sums(sums: Seq<Index>, drop: Seq<IndexId>) -> Seq<Index>
    decreases sums.len(),
{
    if sums.len() == 0 {
        seq![]
    } else if drop.contains(sums.last().id) {
        kept_sums(sums.drop_last(), drop)
    } else {
        kept_sums(sums.drop_last(), drop).push(sums.last())
    }
}

fn kept_sum_indices(sums: &Vec<Index>, drop: &Vec<IndexId>) -> (r: Vec<Index>)
    ensures
        r@ == kept_sums(sums@, drop@),
{
    let mut out: Vec<Index> = Vec::new();
    let mut k: usize = 0;
    while k < sums.len()
        invariant
            k <= sums@.len(),
            out@ == kept_sums(sums@.take(k as int), drop@),
        decreases sums.len() - k,
    {
        assert(sums@.take(k + 1).drop_last() =~= sums@.take(k as int));
        if !ids_contains(drop, sums[k].id) {
            out.push(sums[k]);
        }
        k = k + 1;
    }
    assert(sums@.take(k as int) =~= sums@);
    out
}

/// `x` inserted into `s` before the first element not below it.
pub open spec fn insert_sorted_usize(x: usize, s: Seq<usize>) -> Seq<usize>
    decreases s.len(),
{
    if s.len() == 0 {
        seq![x]
    } else if x <= s[0] {
        seq![x] + s
    } else {
        seq![s[0]] + insert_sorted_usize(x, s.drop_first())
    }
}

/// The vertex numbers of `verts` in ascending order.
pub open spec fn sorted_vertex_ids(verts: Seq<(VertexId, Rational)>) -> Seq<usize>
    decreases verts.len(),
{
    if verts.len() == 0 {
        seq![]
    } else {
        insert_sorted_usize(verts.last().0.0, sorted_vertex_ids(verts.drop_last()))
    }
}

proof fn lemma_insert_sorted_usize_at(x: usize, s: Seq<usize>, p: int)
    requires
        0 <= p <= s.len(),
        forall|k: int| 0 <= k < p ==> #[trigger] s[k] < x,
        p < s.len() ==> x <= s[p],
    ensures
        insert_sorted_usize(x, s) == s.insert(p, x),
    decreases s.len(),
{
    if s.len() == 0 {
        assert(s.insert(p, x) =~= seq![x]);
    } else if p == 0 {
        assert(s.insert(0, x) =~= seq![x] + s);
    } else {
        let t = s.drop_first();
        assert forall|k: int| 0 <= k < p - 1 implies #[trigger] t[k] < x by {
            assert(t[k] == s[k + 1]);
        }
        lemma_insert_sorted_usize_at(x, t, p - 1);
        assert(seq![s[0]] + t.insert(p - 1, x) =~= s.insert(p, x));
    }
}

fn vertex_ids_sorted(verts: &Vec<(VertexId, Rational)>) -> (r: Vec<usize>)
    ensures
        r@ == sorted_vertex_ids(verts@),
{
    let mut out: Vec<usize> = Vec::new();
    let mut i: usize = 0;
    while i < verts.len()
        invariant
            i <= verts@.len(),
            out@ == sorted_vertex_ids(verts@.take(i as int)),
        decreases verts.len() - i,
    {
        let x = verts[i].0.0;
        let mut p: usize = 0;
        while p < out.len() && out[p] < x
            invariant
                p <= out@.len(),
                forall|k: int| 0 <= k < p ==> #[trigger] out@[k] < x,
            decreases out.len() - p,
        {
            p = p + 1;
        }
        proof {
            lemma_insert_sorted_usize_at(x, out@, p as int);
            assert(verts@.take(i + 1).drop_last() =~= verts@.take(i as int));
            assert(verts@.take(i + 1).last().0.0 == x);
        }
        out.insert(p, x);
        i = i + 1;
    }
    assert(verts@.take(verts@.len() as int) =~= verts@);
    out
}

fn usize_vec_eq(a: &Vec<usize>, b: &Vec<usize>) -> (r: bool)
    ensures
        r == (a@ == b@),
{
    if a.len() != b.len() {
        return false;
    }
    let mut i: usize = 0;
    while i < a.len()
        invariant
            i <= a@.len(),
            a@.len() == b@.len(),
            forall|k: int| 0 <= k < i ==> a@[k] == b@[k],
        decreases a.len() - i,
    {
        if a[i] != b[i] {
            return false;
        }
        i = i + 1;
    }
    assert(a@ =~= b@);
    true
}

#[verifier::loop_isolation(false)]
/// Convert the profitable bicliques of the definition's constriction graphs
/// into factorizations (each vertex-set pair once): the consumed terms are
/// the biclique's terms, each side becomes an intermediate (or stays a bare
/// factor), and the replacement term contracts the two sides with the
/// biclique's leading coefficient. `None` when the graphs cannot be built or
/// a cost coefficient, coefficient product or tensor id overflows.
pub fn factorizations(
    def: &TensorDef,
    parenth_results: &[ParenthResult],
    comp: &TensorComputation,
    next_tensor_id: TensorId,
) -> (r: Option<Vec<Factorization>>)
    ensures
        r matches Some(fs) ==> forall|k: int| 0 <= k < fs@.len() ==> factorization_shape(#[trigger] fs@[k], next_tensor_id),
        r matches Some(fs) ==> forall|k: int, a: int| 0 <= k < fs@.len() && 0 <= a < fs@[k].terms_consumed@.len()
            ==> #[trigger] fs@[k].terms_consumed@[a] < def.terms@.len(),
        r matches Some(fs) ==> forall|k: int| 0 <= k < fs@.len() ==> #[trigger] factored(fs@[k]),
{
    let graphs = match build_constr_graphs(def, comp, parenth_results) {
        Some(g) => g,
        None => return None,
    };
    let mut results: Vec<Factorization> = Vec::new();
    let mut seen: Vec<(Vec<usize>, Vec<usize>)> = Vec::new();
    let mut id_to_range: Vec<Index> = Vec::new();
    let mut t: usize = 0;
    while t < def.terms.len()
        invariant
            t <= def.terms@.len(),
        decreases def.terms.len() - t,
    {
        let mut k: usize = 0;
        while k < def.terms[t].sum_indices.len()
            invariant
                k <= def.terms@[t as int].sum_indices@.len(),
                t < def.terms@.len(),
            decreases def.terms@[t as int].sum_indices@.len() - k,
        {
            id_to_range.push(def.terms[t].sum_indices[k]);
            k = k + 1;
        }
        t = t + 1;
    }
    let mut g: usize = 0;
    while g < graphs.len()
        invariant
            g <= graphs@.len(),
            forall|a: int| 0 <= a < graphs@.len() ==> graph_wf(#[trigger] &graphs@[a]),
            forall|k: int| 0 <= k < results@.len() ==> factorization_shape(#[trigger] results@[k], next_tensor_id),
            forall|k: int, a: int| 0 <= k < results@.len() && 0 <= a < results@[k].terms_consumed@.len()
                ==> #[trigger] results@[k].terms_consumed@[a] < def.terms@.len(),
            forall|k: int| 0 <= k < results@.len() ==> #[trigger] factored(results@[k]),
        decreases graphs.len() - g,
    {
        let graph = &graphs[g];
        assert(graph_wf(graph));
        if graph.edges.len() > 0 {
            let first_term_idx = graph.edges[0].2.term_idx;
            if first_term_idx >= parenth_results.len() {
                return None;
            }
            let info = &parenth_results[first_term_idx].info;
            let coeffs = match compute_cost_coeffs(&graph.last_step, info, comp.ranges()) {
                Some(c) => c,
                None => return None,
            };
            let bicliques = match find_bicliques(graph, &coeffs) {
                Some(v) => v,
                None => return None,
            };
            let mut b: usize = 0;
            while b < bicliques.len()
                invariant
                    b <= bicliques@.len(),
                    graph_wf(graph),
                    forall|k: int| 0 <= k < results@.len() ==> factorization_shape(#[trigger] results@[k], next_tensor_id),
                    forall|k: int, a: int| 0 <= k < results@.len() && 0 <= a < results@[k].terms_consumed@.len()
                        ==> #[trigger] results@[k].terms_consumed@[a] < def.terms@.len(),
                    forall|k: int| 0 <= k < results@.len() ==> #[trigger] factored(results@[k]),
                    forall|m: int| 0 <= m < bicliques@.len() ==> (#[trigger] bicliques@[m]).leading_coeff is Some
                        && rectangle_factors(graph, bicliques@[m].left_verts@, bicliques@[m].right_verts@, bicliques@[m].leading_coeff),
                decreases bicliques.len() - b,
            {
                let bc = &bicliques[b];
                b = b + 1;
                if bc.saving <= 0 || bc.left_verts.len() == 0 || bc.right_verts.len() == 0 {
                    continue;
                }
                // every left vertex must be joined to every right vertex
                let mut complete = true;
                let mut x: usize = 0;
                while x < bc.left_verts.len()
                    invariant
                        x <= bc.left_verts@.len(),
                    decreases bc.left_verts.len() - x,
                {
                    let mut y: usize = 0;
                    while y < bc.right_verts.len()
                        invariant
                            y <= bc.right_verts@.len(),
                        decreases bc.right_verts.len() - y,
                    {
                        if graph.edges_between(bc.left_verts[x].0, bc.right_verts[y].0).len() == 0 {
                            complete = false;
                        }
                        y = y + 1;
                    }
                    x = x + 1;
                }
                if !complete {
                    continue;
                }
                let left_ids = vertex_ids_sorted(&bc.left_verts);
                let right_ids = vertex_ids_sorted(&bc.right_verts);
                let mut dup = false;
                let mut s: usize = 0;
                while s < seen.len()
                    invariant
                        s <= seen@.len(),
                    decreases seen.len() - s,
                {
                    if usize_vec_eq(&seen[s].0, &left_ids) && usize_vec_eq(&seen[s].1, &right_ids) {
                        dup = true;
                    }
                    s = s + 1;
                }
                if dup {
                    continue;
                }
                seen.push((left_ids, right_ids));
                let terms_consumed = bits_to_vec(bc.terms_used);
                let mut tc: usize = 0;
                while tc < terms_consumed.len()
                    invariant
                        tc <= terms_consumed@.len(),
                        forall|a: int| 0 <= a < tc ==> #[trigger] terms_consumed@[a] < def.terms@.len(),
                    decreases terms_consumed.len() - tc,
                {
                    if terms_consumed[tc] >= def.terms.len() {
                        return None;
                    }
                    tc = tc + 1;
                }
                let sample_lv = bc.left_verts[0].0;
                let sample_rv = bc.right_verts[0].0;
                let contracted = match contracted_indices(graph, sample_lv, sample_rv, &id_to_range) {
                    Some(c) => c,
                    None => return None,
                };
                let mut contracted_ids: Vec<IndexId> = Vec::new();
                let mut k: usize = 0;
                while k < contracted.len()
                    invariant
                        k <= contracted@.len(),
                        forall|a: int| 0 <= a < terms_consumed@.len() ==> #[trigger] terms_consumed@[a] < def.terms@.len(),
                    decreases contracted.len() - k,
                {
                    contracted_ids.push(contracted[k].id);
                    k = k + 1;
                }
                let left_ext = match bits_to_indices(graph.last_step.left_ext, &def.ext_indices) {
                    Some(v) => v,
                    None => return None,
                };
                let right_ext = match bits_to_indices(graph.last_step.right_ext, &def.ext_indices) {
                    Some(v) => v,
                    None => return None,
                };
                let leading_coeff = match bc.leading_coeff {
                    Some(c) => c,
                    None => Rational::one(),
                };
                let left_coeffs = match side_coeffs(&bc.left_verts, graph) {
                    Some(c) => c,
                    None => return None,
                };
                let right_coeffs = match side_coeffs(&bc.right_verts, graph) {
                    Some(c) => c,
                    None => return None,
                };
                let mut intermediates: Vec<TensorDef> = Vec::new();
                let mut candidate_id: u32 = next_tensor_id.0;
                let (left_tid, left_indices) = match build_side(
                    &bc.left_verts,
                    &left_coeffs,
                    graph,
                    &left_ext,
                    &contracted,
                    &contracted_ids,
                    &mut intermediates,
                    &mut candidate_id,
                ) {
                    Some(x) => x,
                    None => return None,
                };
                let ghost l_len = intermediates@.len();
                let ghost l_ims = intermediates@;
                assert(forall|m: int| 0 <= m < l_ims.len() ==> side_realised(#[trigger] l_ims[m], graph, bc.left_verts@)) by {
                    if l_ims.len() == 1 {
                        assert(!bare_side(bc.left_verts@, left_coeffs@, graph));
                        lemma_side_realised(l_ims[0], graph, bc.left_verts@, left_coeffs@, contracted_ids@);
                    }
                }
                let (right_tid, right_indices) = match build_side(
                    &bc.right_verts,
                    &right_coeffs,
                    graph,
                    &right_ext,
                    &contracted,
                    &contracted_ids,
                    &mut intermediates,
                    &mut candidate_id,
                ) {
                    Some(x) => x,
                    None => return None,
                };
                proof {
                    assert forall|m: int| 0 <= m < intermediates@.len() implies side_realised(#[trigger] intermediates@[m], graph, bc.left_verts@)
                        || side_realised(intermediates@[m], graph, bc.right_verts@) by {
                        if m < l_len {
                            assert(intermediates@[m] == l_ims[m]);
                        } else {
                            assert(!bare_side(bc.right_verts@, right_coeffs@, graph));
                            lemma_side_realised(intermediates@[m], graph, bc.right_verts@, right_coeffs@, contracted_ids@);
                        }
                    }
                }
                let mut factors: Vec<Factor> = Vec::new();
                factors.push(Factor { tensor: left_tid, indices: left_indices });
                factors.push(Factor { tensor: right_tid, indices: right_indices });
                let replacement_term = Term { coeff: leading_coeff, sum_indices: contracted, factors };
                let ghost prev_results = results@;
                let fact = Factorization { terms_consumed, intermediates, replacement_term, saving: bc.saving };
                proof {
                    lemma_bit_positions_ascending(bc.terms_used, 64);
                    assert forall|k: int| 0 <= k < fact.intermediates@.len() implies ends_with(
                        (#[trigger] fact.intermediates@[k]).ext_indices@,
                        fact.replacement_term.sum_indices@,
                    ) by {
                        let e = fact.intermediates@[k].ext_indices@;
                        let c = fact.replacement_term.sum_indices@;
                        if k == 0 && l_len == 1 {
                            assert(e == left_ext@ + c);
                            assert(e.skip(e.len() - c.len()) =~= c);
                        } else {
                            assert(e == right_ext@ + c);
                            assert(e.skip(e.len() - c.len()) =~= c);
                        }
                    }
                    assert(factorization_shape(fact, next_tensor_id));
                }
                results.push(fact);
                proof {
                    assert forall|k: int| 0 <= k < results@.len() implies factorization_shape(#[trigger] results@[k], next_tensor_id) by {
                        if k < prev_results.len() {
                            assert(results@[k] == prev_results[k]);
                        }
                    }
                    assert forall|k: int, a: int| 0 <= k < results@.len() && 0 <= a < results@[k].terms_consumed@.len()
                        implies #[trigger] results@[k].terms_consumed@[a] < def.terms@.len() by {
                        if k < prev_results.len() {
                            assert(results@[k] == prev_results[k]);
                        }
                    }
                    assert forall|k: int| 0 <= k < results@.len() implies #[trigger] factored(results@[k]) by {
                        if k < prev_results.len() {
                            assert(results@[k] == prev_results[k]);
                        } else {
                            assert(results@[k] == fact);
                            assert(factorization_from(fact, graph, bc@));
                            assert(graph_wf(graph));
                        }
                    }
                }
            }
        }
        g = g + 1;
    }
    Some(results)
}

/// Each vertex's biclique coefficient times its term's coefficient.
fn side_coeffs(verts: &Vec<(VertexId, Rational)>, graph: &ConstrGraph) -> (r: Option<Vec<Rational>>)
    ensures
        r matches Some(c) ==> c@.len() == verts@.len(),
        r matches Some(c) ==> forall|k: int| 0 <= k < verts@.len() ==> (#[trigger] verts@[k]).0.0 < graph.vertices@.len()
            && c@[k].pair() == mul_pair(verts@[k].1, graph.vertices@[verts@[k].0.0 as int].coeff),
        (forall|k: int| 0 <= k < verts@.len() ==> (#[trigger] verts@[k]).0.0 < graph.vertices@.len()
            && fits_mul(verts@[k].1, graph.vertices@[verts@[k].0.0 as int].coeff)) ==> r is Some,
{
    let mut out: Vec<Rational> = Vec::new();
    let mut k: usize = 0;
    while k < verts.len()
        invariant
            k <= verts@.len(),
            out@.len() == k,
            forall|m: int| 0 <= m < k ==> (#[trigger] verts@[m]).0.0 < graph.vertices@.len()
                && out@[m].pair() == mul_pair(verts@[m].1, graph.vertices@[verts@[m].0.0 as int].coeff),
        decreases verts.len() - k,
    {
        let (v, c) = verts[k];
        if v.0 >= graph.vertices.len() {
            return None;
        }
        match checked_mul(&c, &graph.vertices[v.0].coeff) {
            Some(x) => out.push(x),
            None => return None,
        }
        k = k + 1;
    }
    Some(out)
}
} // verus!
