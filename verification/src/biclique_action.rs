//! Factorisation as a sequence of decisions: the candidate bicliques of the
//! first definition that has any are exported as templates; a decision picks
//! one and a subset of each side; the chosen rewrite then replaces the
//! definition by two new ones and the rewritten original.
use vstd::prelude::*;
use vstd::string::StringExecFns;

use crate::biclique::{build_graphs_from_canon_splits, enumerate_bicliques, Biclique, BicliqueModel, ConstrGraph, GraphEdge};
use crate::bits::{bit, bits_below};
use crate::message::{append_decimal, decimal};
use crate::rational::{checked_mul, fits_mul, mul_pair, Rational};
use crate::repr::{
    clone_terms, copy_vec, factor_models, term_models, DefModel, Factor, Index, IndexId, RangeId, TensorComputation,
    TensorDef, TensorId, Term, TermModel,
};
use crate::rl_canon::{build_canon_def_context, canon_split, CanonSplitPair};
use crate::rl_parenth::{enumerate_splits, id_present};
use crate::sort::{
    factor_keys_le, lemma_factor_keys_le_total, lemma_factor_keys_le_trans, lemma_pairs_le_total, lemma_pairs_le_trans,
    lemma_pairs_le_antisym, pairs_le, stable_sort_order, SortKey, is_stable_sort_order,
};

verus! {

/// One factorisation: the two new side definitions and the rewritten target.
#[derive(Debug, PartialEq, Eq)]
pub struct Factorization {
    pub left_definition: TensorDef,
    pub right_definition: TensorDef,
    pub rewritten_definition: TensorDef,
}

pub struct FactorizationModel {
    pub left_definition: DefModel,
    pub right_definition: DefModel,
    pub rewritten_definition: DefModel,
}

impl View for Factorization {
    type V = FactorizationModel;

    open spec fn view(&self) -> FactorizationModel {
        FactorizationModel {
            left_definition: self.left_definition@,
            right_definition: self.right_definition@,
            rewritten_definition: self.rewritten_definition@,
        }
    }
}

impl Clone for Factorization {
    fn clone(&self) -> (r: Self)
        ensures
            r@ == self@,
    {
        Factorization {
            left_definition: self.left_definition.clone(),
            right_definition: self.right_definition.clone(),
            rewritten_definition: self.rewritten_definition.clone(),
        }
    }
}

impl Factorization {
    /// Equality of the two factorisations' contents.
    pub fn same(&self, other: &Factorization) -> (r: bool)
        ensures
            r == (self@ == other@),
    {
        self.left_definition.same(&other.left_definition) && self.right_definition.same(&other.right_definition)
            && self.rewritten_definition.same(&other.rewritten_definition)
    }
}

/// A candidate behind a template: the graph and the (normalised) biclique.
#[derive(Debug, PartialEq, Eq)]
pub struct CandidateRecord {
    pub graph: ConstrGraph,
    pub biclique: Biclique,
}

impl Clone for CandidateRecord {
    fn clone(&self) -> (r: Self)
        ensures
            r.biclique@ == self.biclique@,
            r.graph.edges@ == self.graph.edges@,
            r.graph.last_step@ == self.graph.last_step@,
            term_models(r.graph.left_nodes@) == term_models(self.graph.left_nodes@),
            term_models(r.graph.right_nodes@) == term_models(self.graph.right_nodes@),
    {
        CandidateRecord { graph: self.graph.clone(), biclique: self.biclique.clone() }
    }
}

/// The choices offered for one definition: a template per candidate, and
/// the candidates themselves, position by position.
#[derive(Debug, PartialEq, Eq)]
pub struct ActionSpace {
    pub def_index: usize,
    pub candidate_templates: Vec<Factorization>,
    pub candidates: Vec<CandidateRecord>,
}

/// A choice: a candidate, and which terms of each side template to keep.
#[derive(Clone, Debug, PartialEq, Eq)]
pub struct Decision {
    pub candidate_index: usize,
    pub left_mask: Vec<bool>,
    pub right_mask: Vec<bool>,
}

/// A factorisation to install at a definition's position.
#[derive(Debug, PartialEq, Eq)]
pub struct FactorizationRewrite {
    pub def_index: usize,
    pub factorization: Factorization,
}

impl Clone for FactorizationRewrite {
    fn clone(&self) -> (r: Self)
        ensures
            r.def_index == self.def_index,
            r.factorization@ == self.factorization@,
    {
        FactorizationRewrite { def_index: self.def_index, factorization: self.factorization.clone() }
    }
}

/// Why a decision or a rewrite was refused.
#[derive(Clone, Copy, Debug, PartialEq, Eq, Structural)]
pub enum ActionError {
    CandidateIndexOutOfRange { index: usize, count: usize },
    MaskLengthMismatch { left: bool, expected: usize, got: usize },
    EmptySide { left: bool },
    DefIndexOutOfRange { index: usize, count: usize },
    SideAlignment { left: bool, ids: usize, coeffs: usize },
    CandidateSideEmpty { left: bool },
    ExtMaskOutOfBounds { left: bool },
    EdgeNodeOutOfBounds { left: bool, id: usize, count: usize },
    EdgeTermOutOfBounds { term: usize, count: usize },
    BicliqueNodeOutOfBounds { left: bool, id: usize, count: usize },
    MissingEdge { left_id: usize, right_id: usize },
    InconsistentInterface,
    TemplateMismatch { index: usize },
    TensorIdsMismatch { expected_left: u32, expected_right: u32, got_left: u32, got_right: u32 },
    CoefficientOverflow,
    ConsumedTermOutOfBounds { term: usize, count: usize },
}

pub open spec fn side_word(left: bool) -> Seq<char> {
    if left {
        "left"@
    } else {
        "right"@
    }
}

/// The message of an error.
pub open spec fn error_text(e: ActionError) -> Seq<char> {
    match e {
        ActionError::CandidateIndexOutOfRange { index, count } => "candidate_index "@ + decimal(index as nat)
            + " out of range for "@ + decimal(count as nat) + " candidates"@,
        ActionError::MaskLengthMismatch { left, expected, got } => side_word(left) + " mask length mismatch: expected "@
            + decimal(expected as nat) + ", got "@ + decimal(got as nat),
        ActionError::EmptySide { left } => side_word(left) + " side cannot be empty"@,
        ActionError::DefIndexOutOfRange { index, count } => "def_index "@ + decimal(index as nat)
            + " out of range for "@ + decimal(count as nat) + " definitions"@,
        ActionError::SideAlignment { left, ids, coeffs } => side_word(left) + " node ids and coeffs length mismatch: "@
            + decimal(ids as nat) + " vs "@ + decimal(coeffs as nat),
        ActionError::CandidateSideEmpty { left } => "candidate biclique "@ + side_word(left) + " side is empty"@,
        ActionError::ExtMaskOutOfBounds { left } => side_word(left) + "_ext mask references external indices out of bounds"@,
        ActionError::EdgeNodeOutOfBounds { left, id, count } => "candidate graph edge "@ + side_word(left) + "_id "@
            + decimal(id as nat) + " out of bounds for "@ + decimal(count as nat) + " "@ + side_word(left) + " nodes"@,
        ActionError::EdgeTermOutOfBounds { term, count } => "candidate graph references term "@ + decimal(term as nat)
            + " but definition has only "@ + decimal(count as nat) + " terms"@,
        ActionError::BicliqueNodeOutOfBounds { left, id, count } => "candidate biclique "@ + side_word(left)
            + " node id "@ + decimal(id as nat) + " out of bounds for "@ + decimal(count as nat) + " "@
            + side_word(left) + " nodes"@,
        ActionError::MissingEdge { left_id, right_id } => "candidate biclique rectangle is missing edge ("@
            + decimal(left_id as nat) + ", "@ + decimal(right_id as nat) + ")"@,
        ActionError::InconsistentInterface => "candidate biclique rectangle has inconsistent contracted interface"@,
        ActionError::TemplateMismatch { index } => "candidate template "@ + decimal(index as nat)
            + " no longer matches its hidden candidate"@,
        ActionError::TensorIdsMismatch { expected_left, expected_right, got_left, got_right } =>
            "rewrite tensor ids mismatch: expected ("@ + decimal(expected_left as nat) + ", "@
            + decimal(expected_right as nat) + "), got ("@ + decimal(got_left as nat) + ", "@
            + decimal(got_right as nat) + ")"@,
        ActionError::CoefficientOverflow => "candidate coefficients overflow"@,
        ActionError::ConsumedTermOutOfBounds { term, count } => "biclique consumes term "@ + decimal(term as nat)
            + " but definition has only "@ + decimal(count as nat) + " terms"@,
    }
}

fn append_side(s: &mut String, left: bool)
    ensures
        final(s)@ == old(s)@ + side_word(left),
{
    if left {
        s.append("left");
    } else {
        s.append("right");
    }
}

impl ActionError {
    /// The error's message.
    pub fn message(&self) -> (r: String)
        ensures
            r@ == error_text(*self),
    {
        let mut s = String::new();
        match *self {
            ActionError::CandidateIndexOutOfRange { index, count } => {
                s.append("candidate_index ");
                append_decimal(&mut s, index);
                s.append(" out of range for ");
                append_decimal(&mut s, count);
                s.append(" candidates");
            },
            ActionError::MaskLengthMismatch { left, expected, got } => {
                append_side(&mut s, left);
                s.append(" mask length mismatch: expected ");
                append_decimal(&mut s, expected);
                s.append(", got ");
                append_decimal(&mut s, got);
            },
            ActionError::EmptySide { left } => {
                append_side(&mut s, left);
                s.append(" side cannot be empty");
            },
            ActionError::DefIndexOutOfRange { index, count } => {
                s.append("def_index ");
                append_decimal(&mut s, index);
                s.append(" out of range for ");
                append_decimal(&mut s, count);
                s.append(" definitions");
            },
            ActionError::SideAlignment { left, ids, coeffs } => {
                append_side(&mut s, left);
                s.append(" node ids and coeffs length mismatch: ");
                append_decimal(&mut s, ids);
                s.append(" vs ");
                append_decimal(&mut s, coeffs);
            },
            ActionError::CandidateSideEmpty { left } => {
                s.append("candidate biclique ");
                append_side(&mut s, left);
                s.append(" side is empty");
            },
            ActionError::ExtMaskOutOfBounds { left } => {
                append_side(&mut s, left);
                s.append("_ext mask references external indices out of bounds");
            },
            ActionError::EdgeNodeOutOfBounds { left, id, count } => {
                s.append("candidate graph edge ");
                append_side(&mut s, left);
                s.append("_id ");
                append_decimal(&mut s, id);
                s.append(" out of bounds for ");
                append_decimal(&mut s, count);
                s.append(" ");
                append_side(&mut s, left);
                s.append(" nodes");
            },
            ActionError::EdgeTermOutOfBounds { term, count } => {
                s.append("candidate graph references term ");
                append_decimal(&mut s, term);
                s.append(" but definition has only ");
                append_decimal(&mut s, count);
                s.append(" terms");
            },
            ActionError::BicliqueNodeOutOfBounds { left, id, count } => {
                s.append("candidate biclique ");
                append_side(&mut s, left);
                s.append(" node id ");
                append_decimal(&mut s, id);
                s.append(" out of bounds for ");
                append_decimal(&mut s, count);
                s.append(" ");
                append_side(&mut s, left);
                s.append(" nodes");
            },
            ActionError::MissingEdge { left_id, right_id } => {
                s.append("candidate biclique rectangle is missing edge (");
                append_decimal(&mut s, left_id);
                s.append(", ");
                append_decimal(&mut s, right_id);
                s.append(")");
            },
            ActionError::InconsistentInterface => {
                s.append("candidate biclique rectangle has inconsistent contracted interface");
            },
            ActionError::TemplateMismatch { index } => {
                s.append("candidate template ");
                append_decimal(&mut s, index);
                s.append(" no longer matches its hidden candidate");
            },
            ActionError::TensorIdsMismatch { expected_left, expected_right, got_left, got_right } => {
                s.append("rewrite tensor ids mismatch: expected (");
                append_decimal(&mut s, expected_left as usize);
                s.append(", ");
                append_decimal(&mut s, expected_right as usize);
                s.append("), got (");
                append_decimal(&mut s, got_left as usize);
                s.append(", ");
                append_decimal(&mut s, got_right as usize);
                s.append(")");
            },
            ActionError::CoefficientOverflow => {
                s.append("candidate coefficients overflow");
            },
            ActionError::ConsumedTermOutOfBounds { term, count } => {
                s.append("biclique consumes term ");
                append_decimal(&mut s, term);
                s.append(" but definition has only ");
                append_decimal(&mut s, count);
                s.append(" terms");
            },
        }
        assert(s@ =~= error_text(*self));
        s
    }
}

/// Whether some entry of the mask is set.
pub open spec fn any_set(m: Seq<bool>) -> bool {
    exists|k: int| 0 <= k < m.len() && #[trigger] m[k]
}

/// The first reason, if any, to refuse a decision against the templates.
pub open spec fn decision_error(templates: Seq<Factorization>, d: Decision) -> Option<ActionError> {
    if d.candidate_index >= templates.len() {
        Some(ActionError::CandidateIndexOutOfRange { index: d.candidate_index, count: templates.len() as usize })
    } else {
        let t = templates[d.candidate_index as int];
        if d.left_mask@.len() != t.left_definition.terms@.len() {
            Some(ActionError::MaskLengthMismatch {
                left: true,
                expected: t.left_definition.terms@.len() as usize,
                got: d.left_mask@.len() as usize,
            })
        } else if d.right_mask@.len() != t.right_definition.terms@.len() {
            Some(ActionError::MaskLengthMismatch {
                left: false,
                expected: t.right_definition.terms@.len() as usize,
                got: d.right_mask@.len() as usize,
            })
        } else if !any_set(d.left_mask@) {
            Some(ActionError::EmptySide { left: true })
        } else if !any_set(d.right_mask@) {
            Some(ActionError::EmptySide { left: false })
        } else {
            None
        }
    }
}

fn mask_any(m: &Vec<bool>) -> (r: bool)
    ensures
        r == any_set(m@),
{
    let mut i: usize = 0;
    while i < m.len()
        invariant
            i <= m@.len(),
            forall|k: int| 0 <= k < i ==> !#[trigger] m@[k],
        decreases m.len() - i,
    {
        if m[i] {
            return true;
        }
        i = i + 1;
    }
    false
}

fn check_decision(space: &ActionSpace, decision: &Decision) -> (r: Result<(), ActionError>)
    ensures
        r matches Err(e) ==> decision_error(space.candidate_templates@, *decision) == Some(e),
        r is Ok ==> decision_error(space.candidate_templates@, *decision) is None,
{
    let n = space.candidate_templates.len();
    if decision.candidate_index >= n {
        return Err(ActionError::CandidateIndexOutOfRange { index: decision.candidate_index, count: n });
    }
    let t = &space.candidate_templates[decision.candidate_index];
    if decision.left_mask.len() != t.left_definition.terms.len() {
        return Err(ActionError::MaskLengthMismatch {
            left: true,
            expected: t.left_definition.terms.len(),
            got: decision.left_mask.len(),
        });
    }
    if decision.right_mask.len() != t.right_definition.terms.len() {
        return Err(ActionError::MaskLengthMismatch {
            left: false,
            expected: t.right_definition.terms.len(),
            got: decision.right_mask.len(),
        });
    }
    if !mask_any(&decision.left_mask) {
        return Err(ActionError::EmptySide { left: true });
    }
    if !mask_any(&decision.right_mask) {
        return Err(ActionError::EmptySide { left: false });
    }
    Ok(())
}

/// Checks a decision against the space: the candidate exists, each mask has
/// one entry per term of its side's template, and each selects something.
pub fn validate_decision(space: &ActionSpace, decision: &Decision) -> (r: Result<(), String>)
    ensures
        r is Ok <==> decision_error(space.candidate_templates@, *decision) is None,
        r matches Err(m) ==> m@ == error_text(decision_error(space.candidate_templates@, *decision)->0),
{
    match check_decision(space, decision) {
        Ok(()) => Ok(()),
        Err(e) => Err(e.message()),
    }
}

/// The ids the two new tensors of a rewrite receive, given how many tensors
/// exist: the next id and the one after it.
pub open spec fn fresh_ids(n: int) -> (u32, u32) {
    let a = n as u32;
    (a, if a == u32::MAX { 0 } else { (a + 1) as u32 })
}

pub fn fresh_rewrite_tensor_ids(comp: &TensorComputation) -> (r: (TensorId, TensorId))
    ensures
        (r.0.0, r.1.0) == fresh_ids(comp.spec_tensors().len() as int),
{
    let left_tid = comp.next_tensor_id();
    let right_tid = TensorId(left_tid.0.wrapping_add(1));
    (left_tid, right_tid)
}

/// The first reason, if any, to refuse installing a rewrite.
pub open spec fn rewrite_error(tensor_count: int, def_count: int, rw: FactorizationRewrite) -> Option<ActionError> {
    let (el, er) = fresh_ids(tensor_count);
    let gl = rw.factorization.left_definition.base.0;
    let gr = rw.factorization.right_definition.base.0;
    if gl != el || gr != er {
        Some(ActionError::TensorIdsMismatch { expected_left: el, expected_right: er, got_left: gl, got_right: gr })
    } else if rw.def_index >= def_count {
        Some(ActionError::DefIndexOutOfRange { index: rw.def_index, count: def_count as usize })
    } else {
        None
    }
}

/// The definitions after installing a factorisation at position `i`: the
/// left and right definitions, then the rewritten one, in place of the old.
pub open spec fn installed(defs: Seq<TensorDef>, i: int, f: Factorization) -> Seq<TensorDef> {
    defs.take(i) + seq![f.left_definition, f.right_definition, f.rewritten_definition] + defs.skip(i + 1)
}

fn replace_definition_with_factorization(comp: &mut TensorComputation, rewrite: FactorizationRewrite)
    requires
        rewrite.def_index < old(comp).spec_definitions().len(),
    ensures
        final(comp).spec_definitions() == installed(old(comp).spec_definitions(), rewrite.def_index as int, rewrite.factorization),
        final(comp).spec_tensors() == old(comp).spec_tensors(),
        final(comp).spec_ranges() == old(comp).spec_ranges(),
{
    let FactorizationRewrite { def_index, factorization } = rewrite;
    let Factorization { left_definition, right_definition, rewritten_definition } = factorization;
    let ghost old_defs = comp.spec_definitions();
    let definitions = comp.definitions_mut();
    definitions.remove(def_index);
    definitions.insert(def_index, rewritten_definition);
    definitions.insert(def_index, right_definition);
    definitions.insert(def_index, left_definition);
    assert(definitions@ =~= installed(old_defs, def_index as int, rewrite.factorization));
}

/// Installs a rewrite: refused (and `comp` unchanged) unless the side
/// definitions carry the ids the next two tensors will get and the position
/// holds a definition; otherwise two tensors (no slots, no symmetry) are
/// added and the definition there is replaced by the left, right and
/// rewritten definitions, in that order.
pub fn apply_factorization_rewrite(comp: &mut TensorComputation, rewrite: FactorizationRewrite) -> (r: Result<(), String>)
    ensures
        r is Ok <==> rewrite_error(old(comp).spec_tensors().len() as int, old(comp).spec_definitions().len() as int, rewrite) is None,
        r matches Err(m) ==> m@ == error_text(rewrite_error(old(comp).spec_tensors().len() as int, old(comp).spec_definitions().len() as int, rewrite)->0)
            && final(comp).spec_tensors() == old(comp).spec_tensors()
            && final(comp).spec_definitions() == old(comp).spec_definitions()
            && final(comp).spec_ranges() == old(comp).spec_ranges(),
        r is Ok ==> {
            &&& final(comp).spec_definitions() == installed(old(comp).spec_definitions(), rewrite.def_index as int, rewrite.factorization)
            &&& final(comp).spec_tensors().len() == old(comp).spec_tensors().len() + 2
            &&& final(comp).spec_tensors().take(old(comp).spec_tensors().len() as int) == old(comp).spec_tensors()
            &&& forall|k: int| old(comp).spec_tensors().len() <= k < final(comp).spec_tensors().len() ==>
                (#[trigger] final(comp).spec_tensors()[k]).id.0 == #[verifier::truncate] (k as u32)
                && final(comp).spec_tensors()[k].slots@.len() == 0
                && final(comp).spec_tensors()[k].symmetry@.len() == 0
            &&& final(comp).spec_ranges() == old(comp).spec_ranges()
        },
{
    let (expected_left, expected_right) = fresh_rewrite_tensor_ids(comp);
    let actual_left = rewrite.factorization.left_definition.base;
    let actual_right = rewrite.factorization.right_definition.base;
    if actual_left.0 != expected_left.0 || actual_right.0 != expected_right.0 {
        let e = ActionError::TensorIdsMismatch {
            expected_left: expected_left.0,
            expected_right: expected_right.0,
            got_left: actual_left.0,
            got_right: actual_right.0,
        };
        return Err(e.message());
    }
    let count = comp.definitions().len();
    if rewrite.def_index >= count {
        let e = ActionError::DefIndexOutOfRange { index: rewrite.def_index, count };
        return Err(e.message());
    }
    let ghost t0 = comp.spec_tensors();
    let ghost d0 = comp.spec_definitions();
    let empty: [RangeId; 0] = [];
    comp.add_tensor(&empty, Vec::new());
    let ghost t1 = comp.spec_tensors();
    comp.add_tensor(&empty, Vec::new());
    let ghost t2 = comp.spec_tensors();
    proof {
        assert(t2.take(t0.len() as int) =~= t0) by {
            assert(t2.drop_last() == t1);
            assert(t1.drop_last() == t0);
            assert forall|k: int| 0 <= k < t0.len() implies t2[k] == t0[k] by {
                assert(t2[k] == t2.drop_last()[k]);
                assert(t1[k] == t1.drop_last()[k]);
            }
        }
        assert(t2[t0.len() as int] == t1.last()) by {
            assert(t2[t0.len() as int] == t2.drop_last()[t0.len() as int]);
        }
        let n0 = t0.len() as int;
        assert(t1.last() == t1[n0]);
        assert(t2[n0 + 1] == t2.last());
        assert(t2[n0] == t1[n0]) by {
            assert(t2.drop_last()[n0] == t2[n0]);
        }
        assert(t1[n0]@.slots.len() == 0);
        assert(t1[n0]@.symmetry.len() == t1[n0].symmetry@.len());
        assert(t2[n0 + 1]@.symmetry.len() == t2[n0 + 1].symmetry@.len());
    }
    replace_definition_with_factorization(comp, rewrite);
    Ok(())
}

// ---------------------------------------------------------------------------
// Term order
// ---------------------------------------------------------------------------

/// The sort key of a term: its coefficient (numerator, denominator), its
/// summation indices as (id, range), and its factors as (tensor, index ids).
pub open spec fn term_key(t: TermModel) -> (int, int, Seq<(u32, u32)>, Seq<(u32, Seq<u32>)>) {
    (
        t.coeff.num(),
        t.coeff.den(),
        t.sum_indices.map_values(|i: Index| (i.id.0, i.range.0)),
        t.factors.map_values(|f: crate::repr::FactorModel| (f.tensor.0, f.indices.map_values(|x: IndexId| x.0))),
    )
}

/// Lexicographic order of term keys.
pub open spec fn key_le(a: (int, int, Seq<(u32, u32)>, Seq<(u32, Seq<u32>)>), b: (int, int, Seq<(u32, u32)>, Seq<(u32, Seq<u32>)>)) -> bool {
    if a.0 != b.0 {
        a.0 < b.0
    } else if a.1 != b.1 {
        a.1 < b.1
    } else if a.2 != b.2 {
        pairs_le(a.2, b.2)
    } else {
        factor_keys_le(a.3, b.3)
    }
}

/// A term's sort key, computed.
struct TermSortKey {
    numer: i64,
    denom: i64,
    sums: Vec<(u32, u32)>,
    factors: Vec<(u32, Vec<u32>)>,
}

impl TermSortKey {
    spec fn model(self) -> (int, int, Seq<(u32, u32)>, Seq<(u32, Seq<u32>)>) {
        (self.numer as int, self.denom as int, self.sums@, self.factors@.map_values(|f: (u32, Vec<u32>)| (f.0, f.1@)))
    }
}

fn pairs_le_from(a: &Vec<(u32, u32)>, b: &Vec<(u32, u32)>, i: usize) -> (r: bool)
    requires
        i <= a@.len(),
        i <= b@.len(),
    ensures
        r == pairs_le(a@.skip(i as int), b@.skip(i as int)),
    decreases a@.len() - i,
{
    let sa = Ghost(a@.skip(i as int));
    let sb = Ghost(b@.skip(i as int));
    if i == a.len() {
        return true;
    }
    if i == b.len() {
        return false;
    }
    assert(sa@[0] == a@[i as int] && sb@[0] == b@[i as int]);
    if a[i].0 != b[i].0 || a[i].1 != b[i].1 {
        return a[i].0 < b[i].0 || (a[i].0 == b[i].0 && a[i].1 < b[i].1);
    }
    assert(sa@.drop_first() =~= a@.skip(i + 1));
    assert(sb@.drop_first() =~= b@.skip(i + 1));
    pairs_le_from(a, b, i + 1)
}

spec fn factor_views(f: Seq<(u32, Vec<u32>)>) -> Seq<(u32, Seq<u32>)> {
    f.map_values(|x: (u32, Vec<u32>)| (x.0, x.1@))
}

fn factor_keys_le_from(a: &Vec<(u32, Vec<u32>)>, b: &Vec<(u32, Vec<u32>)>, i: usize) -> (r: bool)
    requires
        i <= a@.len(),
        i <= b@.len(),
    ensures
        r == factor_keys_le(factor_views(a@).skip(i as int), factor_views(b@).skip(i as int)),
    decreases a@.len() - i,
{
    let sa = Ghost(factor_views(a@).skip(i as int));
    let sb = Ghost(factor_views(b@).skip(i as int));
    if i == a.len() {
        return true;
    }
    if i == b.len() {
        return false;
    }
    assert(sa@[0] == (a@[i as int].0, a@[i as int].1@) && sb@[0] == (b@[i as int].0, b@[i as int].1@));
    let same_ids = crate::sort::vec_eq(&a[i].1, &b[i].1);
    if a[i].0 != b[i].0 || !same_ids {
        if a[i].0 != b[i].0 {
            return a[i].0 < b[i].0;
        }
        return crate::sort::vec_le(&a[i].1, &b[i].1);
    }
    assert(sa@.drop_first() =~= factor_views(a@).skip(i + 1));
    assert(sb@.drop_first() =~= factor_views(b@).skip(i + 1));
    factor_keys_le_from(a, b, i + 1)
}

impl SortKey for TermSortKey {
    closed spec fn spec_le(self, other: Self) -> bool {
        key_le(self.model(), other.model())
    }

    proof fn lemma_le_total(a: Self, b: Self) {
        lemma_pairs_le_total(a.model().2, b.model().2);
        lemma_factor_keys_le_total(a.model().3, b.model().3);
    }

    proof fn lemma_le_trans(a: Self, b: Self, c: Self) {
        let (x, y, z) = (a.model(), b.model(), c.model());
        if x.0 == y.0 && y.0 == z.0 && x.1 == y.1 && y.1 == z.1 {
            if x.2 != y.2 && y.2 != z.2 {
                lemma_pairs_le_trans(x.2, y.2, z.2);
                if x.2 == z.2 {
                    lemma_pairs_le_antisym(x.2, y.2);
                }
            }
            if x.2 == y.2 && y.2 == z.2 {
                lemma_factor_keys_le_trans(x.3, y.3, z.3);
            }
        }
    }

    fn exec_le(&self, other: &Self) -> (r: bool) {
        if self.numer != other.numer {
            return self.numer < other.numer;
        }
        if self.denom != other.denom {
            return self.denom < other.denom;
        }
        let same_sums = pairs_eq(&self.sums, &other.sums);
        assert(self.sums@.skip(0) =~= self.sums@ && other.sums@.skip(0) =~= other.sums@);
        if !same_sums {
            return pairs_le_from(&self.sums, &other.sums, 0);
        }
        assert(factor_views(self.factors@).skip(0) =~= self.model().3);
        assert(factor_views(other.factors@).skip(0) =~= other.model().3);
        factor_keys_le_from(&self.factors, &other.factors, 0)
    }
}

fn pairs_eq(a: &Vec<(u32, u32)>, b: &Vec<(u32, u32)>) -> (r: bool)
    ensures
        r == (a@ == b@),
{
    if a.len() != b.len() {
        return false;
    }
    let mut i: usize = 0;
    while i < a.len()
        invariant
            i <= a@.len(),
            a@.len() == b@.len(),
            forall|k: int| 0 <= k < i ==> a@[k] == b@[k],
        decreases a.len() - i,
    {
        if a[i].0 != b[i].0 || a[i].1 != b[i].1 {
            return false;
        }
        i = i + 1;
    }
    assert(a@ =~= b@);
    true
}

/// The sort key of a term.
fn term_sort_key(term: &Term) -> (r: TermSortKey)
    ensures
        r.model() == term_key(term@),
{
    let mut sums: Vec<(u32, u32)> = Vec::new();
    let mut i: usize = 0;
    while i < term.sum_indices.len()
        invariant
            i <= term.sum_indices@.len(),
            sums@ == term.sum_indices@.take(i as int).map_values(|x: Index| (x.id.0, x.range.0)),
        decreases term.sum_indices.len() - i,
    {
        let x = term.sum_indices[i];
        sums.push((x.id.0, x.range.0));
        i = i + 1;
        assert(sums@ =~= term.sum_indices@.take(i as int).map_values(|x: Index| (x.id.0, x.range.0)));
    }
    let mut factors: Vec<(u32, Vec<u32>)> = Vec::new();
    let mut k: usize = 0;
    while k < term.factors.len()
        invariant
            k <= term.factors@.len(),
            factors@.len() == k,
            factor_views(factors@) == term@.factors.take(k as int).map_values(
                |f: crate::repr::FactorModel| (f.tensor.0, f.indices.map_values(|x: IndexId| x.0)),
            ),
        decreases term.factors.len() - k,
    {
        let f = &term.factors[k];
        let mut ids: Vec<u32> = Vec::new();
        let mut m: usize = 0;
        while m < f.indices.len()
            invariant
                m <= f.indices@.len(),
                ids@ == f.indices@.take(m as int).map_values(|x: IndexId| x.0),
            decreases f.indices.len() - m,
        {
            ids.push(f.indices[m].0);
            m = m + 1;
            assert(ids@ =~= f.indices@.take(m as int).map_values(|x: IndexId| x.0));
        }
        assert(f.indices@.take(m as int) =~= f.indices@);
        assert(ids@ =~= f.indices@.map_values(|x: IndexId| x.0));
        let ghost prev = factors@;
        factors.push((f.tensor.0, ids));
        k = k + 1;
        proof {
            assert(term@.factors[k - 1] == f@);
            let lhs = factor_views(factors@);
            let rhs = term@.factors.take(k as int).map_values(
                |f: crate::repr::FactorModel| (f.tensor.0, f.indices.map_values(|x: IndexId| x.0)),
            );
            assert(factors@[k - 1].0 == f.tensor.0);
            assert(factors@[k - 1].1@ == f.indices@.map_values(|x: IndexId| x.0));
            assert(lhs[k - 1] == (factors@[k - 1].0, factors@[k - 1].1@));
            assert(rhs[k - 1] == (term@.factors[k - 1].tensor.0, term@.factors[k - 1].indices.map_values(|x: IndexId| x.0)));
            assert(lhs[k - 1] == rhs[k - 1]);
            assert(lhs.drop_last() =~= factor_views(prev));
            assert(rhs.drop_last() =~= term@.factors.take(k - 1).map_values(
                |f: crate::repr::FactorModel| (f.tensor.0, f.indices.map_values(|x: IndexId| x.0)),
            ));
            assert forall|j: int| 0 <= j < lhs.len() implies lhs[j] == rhs[j] by {
                if j < k - 1 {
                    assert(lhs[j] == lhs.drop_last()[j]);
                    assert(rhs[j] == rhs.drop_last()[j]);
                }
            }
            assert(lhs =~= rhs);
        }
    }
    assert(term.sum_indices@.take(i as int) =~= term.sum_indices@);
    assert(term@.factors.take(k as int) =~= term@.factors);
    TermSortKey { numer: term.coeff.numer(), denom: term.coeff.denom(), sums, factors }
}

// ---------------------------------------------------------------------------
// Contracted interfaces
// ---------------------------------------------------------------------------

/// The summation indices of all terms, term by term.
pub open spec fn flat_sums(terms: Seq<TermModel>) -> Seq<Index>
    decreases terms.len(),
{
    if terms.len() == 0 {
        seq![]
    } else {
        flat_sums(terms.drop_last()) + terms.last().sum_indices
    }
}

/// The range that the last listing of `id` in `s` gives it.
pub open spec fn last_range(s: Seq<Index>, id: IndexId) -> Option<RangeId>
    decreases s.len(),
{
    if s.len() == 0 {
        None
    } else if s.last().id == id {
        Some(s.last().range)
    } else {
        last_range(s.drop_last(), id)
    }
}

fn collect_sums(def: &TensorDef) -> (r: Vec<Index>)
    ensures
        r@ == flat_sums(def@.terms),
{
    let mut out: Vec<Index> = Vec::new();
    let mut t: usize = 0;
    while t < def.terms.len()
        invariant
            t <= def.terms@.len(),
            out@ == flat_sums(def@.terms.take(t as int)),
        decreases def.terms.len() - t,
    {
        let ghost before = out@;
        let mut k: usize = 0;
        while k < def.terms[t].sum_indices.len()
            invariant
                t < def.terms@.len(),
                k <= def.terms@[t as int].sum_indices@.len(),
                out@ == before + def.terms@[t as int].sum_indices@.take(k as int),
            decreases def.terms@[t as int].sum_indices@.len() - k,
        {
            out.push(def.terms[t].sum_indices[k]);
            k = k + 1;
            assert(out@ =~= before + def.terms@[t as int].sum_indices@.take(k as int));
        }
        proof {
            assert(def.terms@[t as int].sum_indices@.take(k as int) =~= def.terms@[t as int].sum_indices@);
            let tm = def@.terms.take(t + 1);
            assert(tm.drop_last() =~= def@.terms.take(t as int));
            assert(tm.last() == def.terms@[t as int]@);
        }
        t = t + 1;
    }
    assert(def@.terms.take(t as int) =~= def@.terms);
    out
}

fn lookup_range(flat: &Vec<Index>, id: IndexId) -> (r: Option<RangeId>)
    ensures
        r == last_range(flat@, id),
{
    let mut k: usize = flat.len();
    assert(flat@.take(k as int) =~= flat@);
    while k > 0
        invariant
            k <= flat@.len(),
            last_range(flat@, id) == last_range(flat@.take(k as int), id),
        decreases k,
    {
        let ghost pre = flat@.take(k as int);
        assert(pre.last() == flat@[k - 1]);
        if flat[k - 1].id.0 == id.0 {
            return Some(flat[k - 1].range);
        }
        assert(pre.drop_last() =~= flat@.take(k - 1));
        k = k - 1;
    }
    None
}

/// Order of indices by range, then id.
pub open spec fn index_lt(a: Index, b: Index) -> bool {
    a.range.0 < b.range.0 || (a.range.0 == b.range.0 && a.id.0 < b.id.0)
}

pub open spec fn strictly_sorted(c: Seq<Index>) -> bool {
    forall|a: int, b: int| 0 <= a < b < c.len() ==> index_lt(#[trigger] c[a], #[trigger] c[b])
}

/// `x` is an index that the two terms share, with the range the definition
/// lists last for it.
pub open spec fn in_interface(l: TermModel, r: TermModel, flat: Seq<Index>, x: Index) -> bool {
    id_present(l.factors, x.id) && id_present(r.factors, x.id) && last_range(flat, x.id) == Some(x.range)
}

/// `c` lists the shared indices of two terms, by range then id.
pub open spec fn is_interface(c: Seq<Index>, l: TermModel, r: TermModel, flat: Seq<Index>) -> bool {
    &&& strictly_sorted(c)
    &&& forall|x: Index| c.contains(x) <==> #[trigger] in_interface(l, r, flat, x)
}

/// Two strictly sorted lists with the same members are equal.
proof fn lemma_sorted_unique(a: Seq<Index>, b: Seq<Index>)
    requires
        strictly_sorted(a),
        strictly_sorted(b),
        forall|x: Index| a.contains(x) <==> b.contains(x),
    ensures
        a == b,
    decreases a.len(),
{
    if a.len() == 0 {
        if b.len() > 0 {
            assert(b.contains(b[0]));
        }
        assert(a =~= b);
    } else {
        assert(a.contains(a[0]));
        let j = choose|j: int| 0 <= j < b.len() && b[j] == a[0];
        assert(b.contains(b[0]));
        let i = choose|i: int| 0 <= i < a.len() && a[i] == b[0];
        if j > 0 {
            assert(index_lt(b[0], b[j]));
            if i > 0 {
                assert(index_lt(a[0], a[i]));
            }
        }
        assert(a[0] == b[0]);
        let a1 = a.drop_first();
        let b1 = b.drop_first();
        assert forall|x: Index| a1.contains(x) <==> b1.contains(x) by {
            if a1.contains(x) {
                let p = choose|p: int| 0 <= p < a1.len() && a1[p] == x;
                assert(index_lt(a[0], a[p + 1]));
                assert(b.contains(x));
                let q = choose|q: int| 0 <= q < b.len() && b[q] == x;
                if q == 0 {
                    assert(false);
                }
                assert(b1[q - 1] == x);
            }
            if b1.contains(x) {
                let q = choose|q: int| 0 <= q < b1.len() && b1[q] == x;
                assert(index_lt(b[0], b[q + 1]));
                assert(a.contains(x));
                let p = choose|p: int| 0 <= p < a.len() && a[p] == x;
                if p == 0 {
                    assert(false);
                }
                assert(a1[p - 1] == x);
            }
        }
        assert(strictly_sorted(a1)) by {
            assert forall|p: int, q: int| 0 <= p < q < a1.len() implies index_lt(#[trigger] a1[p], #[trigger] a1[q]) by {
                assert(a1[p] == a[p + 1] && a1[q] == a[q + 1]);
            }
        }
        assert(strictly_sorted(b1)) by {
            assert forall|p: int, q: int| 0 <= p < q < b1.len() implies index_lt(#[trigger] b1[p], #[trigger] b1[q]) by {
                assert(b1[p] == b[p + 1] && b1[q] == b[q + 1]);
            }
        }
        lemma_sorted_unique(a1, b1);
        assert(a =~= seq![a[0]] + a1);
        assert(b =~= seq![b[0]] + b1);
    }
}

/// The ids occurring in `factors` before position `(i, k)`.
spec fn id_before(factors: Seq<crate::repr::FactorModel>, i: int, k: int, id: IndexId) -> bool {
    exists|a: int, b: int|
        ((0 <= a < i && 0 <= b < factors[a].indices.len()) || (a == i && 0 <= b < k))
            && #[trigger] factors[a].indices[b] == id
}

fn contains_index(c: &Vec<Index>, x: Index) -> (r: bool)
    ensures
        r == c@.contains(x),
{
    let mut i: usize = 0;
    while i < c.len()
        invariant
            i <= c@.len(),
            forall|k: int| 0 <= k < i ==> c@[k] != x,
        decreases c.len() - i,
    {
        if c[i].id.0 == x.id.0 && c[i].range.0 == x.range.0 {
            assert(c@[i as int] == x);
            return true;
        }
        i = i + 1;
    }
    false
}

#[verifier::loop_isolation(false)]
/// The indices shared by the two terms' factors, with the ranges the
/// definition gives them, by range then id.
fn contracted_indices_for_pair(left: &Term, right: &Term, flat: &Vec<Index>) -> (c: Vec<Index>)
    ensures
        is_interface(c@, left@, right@, flat@),
{
    let ghost fl = left@.factors;
    let mut out: Vec<Index> = Vec::new();
    let mut i: usize = 0;
    while i < left.factors.len()
        invariant
            i <= left.factors@.len(),
            fl == left@.factors,
            strictly_sorted(out@),
            forall|x: Index| out@.contains(x) <==> (id_before(fl, i as int, 0, x.id) && id_present(right@.factors, x.id)
                && last_range(flat@, x.id) == Some(x.range)),
        decreases left.factors.len() - i,
    {
        let f = &left.factors[i];
        assert(fl[i as int] == f@);
        let mut k: usize = 0;
        while k < f.indices.len()
            invariant
                i < left.factors@.len(),
                fl == left@.factors,
                fl[i as int] == f@,
                k <= f.indices@.len(),
                strictly_sorted(out@),
                forall|x: Index| out@.contains(x) <==> (id_before(fl, i as int, k as int, x.id) && id_present(right@.factors, x.id)
                    && last_range(flat@, x.id) == Some(x.range)),
            decreases f.indices.len() - k,
        {
            let id = f.indices[k];
            let ghost before = out@;
            proof {
                assert(fl[i as int].indices[k as int] == id);
                assert forall|y: IndexId| id_before(fl, i as int, k + 1, y) <==> (id_before(fl, i as int, k as int, y) || y == id) by {
                    if y == id {
                        assert(fl[i as int].indices[k as int] == y);
                    }
                    if id_before(fl, i as int, k + 1, y) {
                        let (a, b) = choose|a: int, b: int|
                            ((0 <= a < i && 0 <= b < fl[a].indices.len()) || (a == i && 0 <= b < k + 1))
                                && #[trigger] fl[a].indices[b] == y;
                        if !(a == i && b == k) {
                            assert(id_before(fl, i as int, k as int, y));
                        }
                    }
                }
            }
            if crate::rl_parenth::id_in_factors(&right.factors, id) {
                assert(factor_models(right.factors@) == right@.factors);
                match lookup_range(flat, id) {
                    Some(range) => {
                        let x = Index { id, range };
                        if !contains_index(&out, x) {
                            let mut p: usize = 0;
                            while p < out.len() && index_lt_exec(out[p], x)
                                invariant
                                    p <= out@.len(),
                                    forall|q: int| 0 <= q < p ==> index_lt(#[trigger] out@[q], x),
                                decreases out.len() - p,
                            {
                                p = p + 1;
                            }
                            out.insert(p, x);
                            proof {
                                let n = out@;
                                assert(n == before.insert(p as int, x));
                                if p < before.len() {
                                    assert(!index_lt(before[p as int], x));
                                    assert(before[p as int] != x);
                                    assert(index_lt(x, before[p as int]));
                                }
                                assert forall|a: int, b: int| 0 <= a < b < n.len() implies index_lt(#[trigger] n[a], #[trigger] n[b]) by {
                                    if a < p && b < p {
                                        assert(n[a] == before[a] && n[b] == before[b]);
                                    } else if a < p && b == p {
                                        assert(n[a] == before[a]);
                                    } else if a < p {
                                        assert(n[a] == before[a] && n[b] == before[b - 1]);
                                    } else if a == p {
                                        assert(n[b] == before[b - 1]);
                                        if b - 1 > p {
                                            assert(index_lt(before[p as int], before[b - 1]));
                                        }
                                    } else {
                                        assert(n[a] == before[a - 1] && n[b] == before[b - 1]);
                                    }
                                }
                                assert forall|y: Index| n.contains(y) <==> (before.contains(y) || y == x) by {
                                    if n.contains(y) {
                                        let q = choose|q: int| 0 <= q < n.len() && n[q] == y;
                                        if q < p {
                                            assert(before[q] == y);
                                        } else if q > p {
                                            assert(before[q - 1] == y);
                                        }
                                    }
                                    if before.contains(y) {
                                        let q = choose|q: int| 0 <= q < before.len() && before[q] == y;
                                        if q < p {
                                            assert(n[q] == y);
                                        } else {
                                            assert(n[q + 1] == y);
                                        }
                                    }
                                    if y == x {
                                        assert(n[p as int] == x);
                                    }
                                }
                            }
                        }
                    },
                    None => {},
                }
            }
            k = k + 1;
        }
        proof {
            assert forall|y: IndexId| id_before(fl, i + 1, 0, y) <==> id_before(fl, i as int, k as int, y) by {
                if id_before(fl, i + 1, 0, y) {
                    let (a, b) = choose|a: int, b: int|
                        ((0 <= a < i + 1 && 0 <= b < fl[a].indices.len()) || (a == i + 1 && 0 <= b < 0))
                            && #[trigger] fl[a].indices[b] == y;
                    assert(id_before(fl, i as int, k as int, y));
                }
                if id_before(fl, i as int, k as int, y) {
                    let (a, b) = choose|a: int, b: int|
                        ((0 <= a < i && 0 <= b < fl[a].indices.len()) || (a == i && 0 <= b < k))
                            && #[trigger] fl[a].indices[b] == y;
                    assert(id_before(fl, i + 1, 0, y));
                }
            }
        }
        i = i + 1;
    }
    proof {
        assert forall|y: IndexId| id_before(fl, i as int, 0, y) <==> id_present(fl, y) by {
            if id_before(fl, i as int, 0, y) {
                let (a, b) = choose|a: int, b: int|
                    ((0 <= a < i && 0 <= b < fl[a].indices.len()) || (a == i && 0 <= b < 0))
                        && #[trigger] fl[a].indices[b] == y;
                assert(id_present(fl, y));
            }
            if id_present(fl, y) {
                let (a, b) = choose|a: int, b: int| 0 <= a < fl.len() && 0 <= b < fl[a].indices.len() && #[trigger] fl[a].indices[b] == y;
                assert(id_before(fl, i as int, 0, y));
            }
        }
    }
    out
}

fn index_lt_exec(a: Index, b: Index) -> (r: bool)
    ensures
        r == index_lt(a, b),
{
    a.range.0 < b.range.0 || (a.range.0 == b.range.0 && a.id.0 < b.id.0)
}

// ---------------------------------------------------------------------------
// Candidate validation
// ---------------------------------------------------------------------------

/// Some edge joins left node `l` to right node `r`.
pub open spec fn has_edge(edges: Seq<GraphEdge>, l: usize, r: usize) -> bool {
    exists|k: int| 0 <= k < edges.len() && (#[trigger] edges[k]).left_id == l && edges[k].right_id == r
}

/// The two pairs of terms share the same indices (with the same ranges).
pub open spec fn same_interface(l1: TermModel, r1: TermModel, l2: TermModel, r2: TermModel, flat: Seq<Index>) -> bool {
    forall|x: Index| #[trigger] in_interface(l1, r1, flat, x) == in_interface(l2, r2, flat, x)
}

/// The biclique's node ids exist (the right ones as soon as there is a left
/// one), every left node meets every right node by an edge, and every pair
/// shares the indices the first pair shares.
pub open spec fn rect_ok(flat: Seq<Index>, g: &ConstrGraph, b: BicliqueModel) -> bool {
    let ls = b.left_node_ids;
    let rs = b.right_node_ids;
    &&& forall|i: int| 0 <= i < ls.len() ==> #[trigger] ls[i] < g.left_nodes@.len()
    &&& ls.len() > 0 ==> forall|j: int| 0 <= j < rs.len() ==> #[trigger] rs[j] < g.right_nodes@.len()
    &&& forall|i: int, j: int| 0 <= i < ls.len() && 0 <= j < rs.len() ==> has_edge(g.edges@, #[trigger] ls[i], #[trigger] rs[j])
    &&& forall|i: int, j: int| 0 <= i < ls.len() && 0 <= j < rs.len() ==> same_interface(
        g.left_nodes@[#[trigger] ls[i] as int]@,
        g.right_nodes@[#[trigger] rs[j] as int]@,
        g.left_nodes@[ls[0] as int]@,
        g.right_nodes@[rs[0] as int]@,
        flat,
    )
}

fn edge_exists(g: &ConstrGraph, l: usize, r: usize) -> (res: bool)
    ensures
        res == has_edge(g.edges@, l, r),
{
    let mut k: usize = 0;
    while k < g.edges.len()
        invariant
            k <= g.edges@.len(),
            forall|m: int| 0 <= m < k ==> !((#[trigger] g.edges@[m]).left_id == l && g.edges@[m].right_id == r),
        decreases g.edges.len() - k,
    {
        if g.edges[k].left_id == l && g.edges[k].right_id == r {
            assert(g.edges@[k as int].left_id == l);
            return true;
        }
        k = k + 1;
    }
    false
}

#[verifier::loop_isolation(false)]
#[verifier::spinoff_prover]
/// The interface shared by every pair of the biclique's rectangle, checked
/// pair by pair (left nodes outer, right nodes inner); empty when a side is.
fn rectangle_interface(flat: &Vec<Index>, g: &ConstrGraph, b: &Biclique) -> (res: Result<Vec<Index>, ActionError>)
    ensures
        res is Ok <==> rect_ok(flat@, g, b@),
        res matches Ok(c) ==> (b.left_node_ids@.len() > 0 && b.right_node_ids@.len() > 0 ==> is_interface(
            c@,
            g.left_nodes@[b.left_node_ids@[0] as int]@,
            g.right_nodes@[b.right_node_ids@[0] as int]@,
            flat@,
        )) && ((b.left_node_ids@.len() == 0 || b.right_node_ids@.len() == 0) ==> c@.len() == 0),
{
    let ls = &b.left_node_ids;
    let rs = &b.right_node_ids;
    let mut expected: Vec<Index> = Vec::new();
    let mut have: bool = false;
    let mut i: usize = 0;
    while i < ls.len()
        invariant
            i <= ls@.len(),
            have == (i > 0 && rs@.len() > 0),
            !have ==> expected@.len() == 0,
            have ==> is_interface(expected@, g.left_nodes@[ls@[0] as int]@, g.right_nodes@[rs@[0] as int]@, flat@),
            forall|a: int| 0 <= a < i ==> #[trigger] ls@[a] < g.left_nodes@.len(),
            i > 0 ==> forall|j: int| 0 <= j < rs@.len() ==> #[trigger] rs@[j] < g.right_nodes@.len(),
            forall|a: int, j: int| 0 <= a < i && 0 <= j < rs@.len() ==> has_edge(g.edges@, #[trigger] ls@[a], #[trigger] rs@[j]),
            forall|a: int, j: int| 0 <= a < i && 0 <= j < rs@.len() ==> same_interface(
                g.left_nodes@[#[trigger] ls@[a] as int]@,
                g.right_nodes@[#[trigger] rs@[j] as int]@,
                g.left_nodes@[ls@[0] as int]@,
                g.right_nodes@[rs@[0] as int]@,
                flat@,
            ),
        decreases ls.len() - i,
    {
        let l = ls[i];
        if l >= g.left_nodes.len() {
            return Err(ActionError::BicliqueNodeOutOfBounds { left: true, id: l, count: g.left_nodes.len() });
        }
        let mut j: usize = 0;
        while j < rs.len()
            invariant
                i < ls@.len(),
                l == ls@[i as int],
                l < g.left_nodes@.len(),
                j <= rs@.len(),
                have == ((i > 0 && rs@.len() > 0) || j > 0),
                !have ==> expected@.len() == 0,
                have ==> is_interface(expected@, g.left_nodes@[ls@[0] as int]@, g.right_nodes@[rs@[0] as int]@, flat@),
                forall|a: int| 0 <= a < i ==> #[trigger] ls@[a] < g.left_nodes@.len(),
                i > 0 ==> forall|m: int| 0 <= m < rs@.len() ==> #[trigger] rs@[m] < g.right_nodes@.len(),
                forall|m: int| 0 <= m < j ==> #[trigger] rs@[m] < g.right_nodes@.len(),
                forall|a: int, m: int| 0 <= a < i && 0 <= m < rs@.len() ==> has_edge(g.edges@, #[trigger] ls@[a], #[trigger] rs@[m]),
                forall|m: int| 0 <= m < j ==> has_edge(g.edges@, l, #[trigger] rs@[m]),
                forall|a: int, m: int| 0 <= a < i && 0 <= m < rs@.len() ==> same_interface(
                    g.left_nodes@[#[trigger] ls@[a] as int]@,
                    g.right_nodes@[#[trigger] rs@[m] as int]@,
                    g.left_nodes@[ls@[0] as int]@,
                    g.right_nodes@[rs@[0] as int]@,
                    flat@,
                ),
                forall|m: int| 0 <= m < j ==> same_interface(
                    g.left_nodes@[l as int]@,
                    g.right_nodes@[#[trigger] rs@[m] as int]@,
                    g.left_nodes@[ls@[0] as int]@,
                    g.right_nodes@[rs@[0] as int]@,
                    flat@,
                ),
            decreases rs.len() - j,
        {
            let r = rs[j];
            if r >= g.right_nodes.len() {
                proof {
                    assert(b@.right_node_ids[j as int] == r);
                    assert(b@.left_node_ids.len() > 0);
                }
                return Err(ActionError::BicliqueNodeOutOfBounds { left: false, id: r, count: g.right_nodes.len() });
            }
            if !edge_exists(g, l, r) {
                proof {
                    assert(b@.left_node_ids[i as int] == l && b@.right_node_ids[j as int] == r);
                    assert(!has_edge(g.edges@, b@.left_node_ids[i as int], b@.right_node_ids[j as int]));
                }
                return Err(ActionError::MissingEdge { left_id: l, right_id: r });
            }
            let pi = contracted_indices_for_pair(&g.left_nodes[l], &g.right_nodes[r], flat);
            if have {
                if !crate::repr::indices_equal(&pi, &expected) {
                    proof {
                        if same_interface(g.left_nodes@[l as int]@, g.right_nodes@[r as int]@,
                            g.left_nodes@[ls@[0] as int]@, g.right_nodes@[rs@[0] as int]@, flat@) {
                            assert forall|x: Index| pi@.contains(x) <==> expected@.contains(x) by {
                                assert(in_interface(g.left_nodes@[l as int]@, g.right_nodes@[r as int]@, flat@, x)
                                    == in_interface(g.left_nodes@[ls@[0] as int]@, g.right_nodes@[rs@[0] as int]@, flat@, x));
                            }
                            lemma_sorted_unique(pi@, expected@);
                        }
                        assert(b@.left_node_ids[i as int] == l && b@.right_node_ids[j as int] == r);
                        assert(!same_interface(
                            g.left_nodes@[b@.left_node_ids[i as int] as int]@,
                            g.right_nodes@[b@.right_node_ids[j as int] as int]@,
                            g.left_nodes@[b@.left_node_ids[0] as int]@,
                            g.right_nodes@[b@.right_node_ids[0] as int]@,
                            flat@,
                        ));
                    }
                    return Err(ActionError::InconsistentInterface);
                }
                proof {
                    assert forall|x: Index| #[trigger] in_interface(g.left_nodes@[l as int]@, g.right_nodes@[r as int]@, flat@, x)
                        == in_interface(g.left_nodes@[ls@[0] as int]@, g.right_nodes@[rs@[0] as int]@, flat@, x) by {
                        assert(pi@.contains(x) == expected@.contains(x));
                    }
                }
            } else {
                proof {
                    assert(i == 0 && j == 0);
                }
                expected = pi;
                have = true;
            }
            j = j + 1;
        }
        i = i + 1;
    }
    Ok(expected)
}

/// `mask` has no bit at or above `n` (vacuous when `n` reaches 64).
pub open spec fn mask_ok(mask: u64, n: int) -> bool {
    bits_below(mask, n)
}

/// Every edge joins existing nodes and uses only terms of the definition.
pub open spec fn edges_ok(term_count: int, g: &ConstrGraph) -> bool {
    forall|k: int| 0 <= k < g.edges@.len() ==> {
        &&& (#[trigger] g.edges@[k]).left_id < g.left_nodes@.len()
        &&& g.edges@[k].right_id < g.right_nodes@.len()
        &&& bits_below(g.edges@[k].terms_used, term_count)
    }
}

/// A candidate fits its definition: both sides non-empty with one
/// coefficient per node, the last-step masks within the external indices,
/// the edges within the graph and the definition's terms, and a rectangle
/// with a consistent interface.
pub open spec fn record_valid(def: &TensorDef, rec: &CandidateRecord) -> bool {
    let b = &rec.biclique;
    let g = &rec.graph;
    &&& b.left_node_ids@.len() == b.left_coeffs@.len()
    &&& b.right_node_ids@.len() == b.right_coeffs@.len()
    &&& b.left_node_ids@.len() > 0
    &&& b.right_node_ids@.len() > 0
    &&& mask_ok(g.last_step.left_ext, def.ext_indices@.len() as int)
    &&& mask_ok(g.last_step.right_ext, def.ext_indices@.len() as int)
    &&& edges_ok(def.terms@.len() as int, g)
    &&& rect_ok(flat_sums(def@.terms), g, b@)
}

fn check_mask(mask: u64, n: usize, left: bool) -> (r: Result<(), ActionError>)
    ensures
        r is Ok <==> mask_ok(mask, n as int),
{
    let mut t: u64 = 0;
    while t < 64
        invariant
            t <= 64,
            forall|i: u64| i < t && #[trigger] bit(mask, i) ==> i < n,
        decreases 64 - t,
    {
        if (mask >> t) & 1 == 1 && t as usize >= n {
            assert(bit(mask, t));
            return Err(ActionError::ExtMaskOutOfBounds { left });
        }
        t = t + 1;
    }
    Ok(())
}

fn check_edges(term_count: usize, g: &ConstrGraph) -> (r: Result<(), ActionError>)
    ensures
        r is Ok <==> edges_ok(term_count as int, g),
{
    let mut k: usize = 0;
    while k < g.edges.len()
        invariant
            k <= g.edges@.len(),
            forall|m: int| 0 <= m < k ==> {
                &&& (#[trigger] g.edges@[m]).left_id < g.left_nodes@.len()
                &&& g.edges@[m].right_id < g.right_nodes@.len()
                &&& bits_below(g.edges@[m].terms_used, term_count as int)
            },
        decreases g.edges.len() - k,
    {
        let e = g.edges[k];
        if e.left_id >= g.left_nodes.len() {
            return Err(ActionError::EdgeNodeOutOfBounds { left: true, id: e.left_id, count: g.left_nodes.len() });
        }
        if e.right_id >= g.right_nodes.len() {
            return Err(ActionError::EdgeNodeOutOfBounds { left: false, id: e.right_id, count: g.right_nodes.len() });
        }
        let mut t: u64 = 0;
        while t < 64
            invariant
                t <= 64,
                k < g.edges@.len(),
                e == g.edges@[k as int],
                forall|i: u64| i < t && #[trigger] bit(e.terms_used, i) ==> i < term_count,
            decreases 64 - t,
        {
            if (e.terms_used >> t) & 1 == 1 && t as usize >= term_count {
                assert(bit(e.terms_used, t));
                assert(g.edges@[k as int] == e);
                assert(!bits_below(g.edges@[k as int].terms_used, term_count as int));
                return Err(ActionError::EdgeTermOutOfBounds { term: t as usize, count: term_count });
            }
            t = t + 1;
        }
        assert(g.edges@[k as int] == e);
        k = k + 1;
    }
    Ok(())
}

/// Checks a candidate against its definition, in the order: side
/// alignment, non-empty sides, last-step masks, edges, rectangle.
fn check_candidate(def: &TensorDef, rec: &CandidateRecord) -> (r: Result<(), ActionError>)
    ensures
        r is Ok <==> record_valid(def, rec),
{
    let b = &rec.biclique;
    if b.left_node_ids.len() != b.left_coeffs.len() {
        return Err(ActionError::SideAlignment { left: true, ids: b.left_node_ids.len(), coeffs: b.left_coeffs.len() });
    }
    if b.right_node_ids.len() != b.right_coeffs.len() {
        return Err(ActionError::SideAlignment { left: false, ids: b.right_node_ids.len(), coeffs: b.right_coeffs.len() });
    }
    if b.left_node_ids.len() == 0 {
        return Err(ActionError::CandidateSideEmpty { left: true });
    }
    if b.right_node_ids.len() == 0 {
        return Err(ActionError::CandidateSideEmpty { left: false });
    }
    check_mask(rec.graph.last_step.left_ext, def.ext_indices.len(), true)?;
    check_mask(rec.graph.last_step.right_ext, def.ext_indices.len(), false)?;
    check_edges(def.terms.len(), &rec.graph)?;
    let flat = collect_sums(def);
    match rectangle_interface(&flat, &rec.graph, b) {
        Ok(_) => Ok(()),
        Err(e) => Err(e),
    }
}

// ---------------------------------------------------------------------------
// Building factorisations
// ---------------------------------------------------------------------------

/// The elements of `src` at the set bits of `mask` below `k`, in bit order.
pub open spec fn indices_at_bits(mask: u64, src: Seq<Index>, k: int) -> Seq<Index>
    decreases k,
{
    if k <= 0 {
        seq![]
    } else if bit(mask, (k - 1) as u64) {
        indices_at_bits(mask, src, k - 1).push(src[k - 1])
    } else {
        indices_at_bits(mask, src, k - 1)
    }
}

fn ext_at_bits(mask: u64, src: &Vec<Index>) -> (r: Vec<Index>)
    requires
        bits_below(mask, src@.len() as int),
    ensures
        r@ == indices_at_bits(mask, src@, 64),
{
    let mut out: Vec<Index> = Vec::new();
    let mut t: u64 = 0;
    while t < 64
        invariant
            t <= 64,
            bits_below(mask, src@.len() as int),
            out@ == indices_at_bits(mask, src@, t as int),
        decreases 64 - t,
    {
        if (mask >> t) & 1 == 1 {
            assert(bit(mask, t));
            out.push(src[t as usize]);
        }
        t = t + 1;
    }
    out
}

/// Some index of `c` has id `id`.
pub open spec fn id_listed(c: Seq<Index>, id: IndexId) -> bool {
    exists|k: int| 0 <= k < c.len() && (#[trigger] c[k]).id == id
}

/// The indices of `s` whose ids are not listed in `c`, in order.
pub open spec fn without_ids(s: Seq<Index>, c: Seq<Index>) -> Seq<Index>
    decreases s.len(),
{
    if s.len() == 0 {
        seq![]
    } else if id_listed(c, s.last().id) {
        without_ids(s.drop_last(), c)
    } else {
        without_ids(s.drop_last(), c).push(s.last())
    }
}

fn id_listed_exec(c: &Vec<Index>, id: IndexId) -> (r: bool)
    ensures
        r == id_listed(c@, id),
{
    let mut k: usize = 0;
    while k < c.len()
        invariant
            k <= c@.len(),
            forall|m: int| 0 <= m < k ==> (#[trigger] c@[m]).id != id,
        decreases c.len() - k,
    {
        if c[k].id.0 == id.0 {
            assert(c@[k as int].id == id);
            return true;
        }
        k = k + 1;
    }
    false
}

/// A node's term on its side of a factorisation: its coefficient is
/// `out_coeff` (the node's times the biclique's), the contracted indices
/// are no longer summed, the factors stay.
pub open spec fn side_term(src: TermModel, contracted: Seq<Index>, out_coeff: Rational) -> TermModel {
    TermModel { coeff: out_coeff, sum_indices: without_ids(src.sum_indices, contracted), factors: src.factors }
}

fn build_side_term(src: &Term, coeff: &Rational, contracted: &Vec<Index>) -> (r: Option<Term>)
    ensures
        r matches Some(t) ==> t.coeff.pair() == mul_pair(src.coeff, *coeff) && t@ == side_term(src@, contracted@, t.coeff),
        fits_mul(src.coeff, *coeff) ==> r is Some,
{
    let c = match checked_mul(&src.coeff, coeff) {
        Some(c) => c,
        None => return None,
    };
    let mut sums: Vec<Index> = Vec::new();
    let mut k: usize = 0;
    while k < src.sum_indices.len()
        invariant
            k <= src.sum_indices@.len(),
            sums@ == without_ids(src.sum_indices@.take(k as int), contracted@),
        decreases src.sum_indices.len() - k,
    {
        let x = src.sum_indices[k];
        proof {
            let t = src.sum_indices@.take(k + 1);
            assert(t.drop_last() =~= src.sum_indices@.take(k as int));
            assert(t.last() == x);
        }
        if !id_listed_exec(contracted, x.id) {
            sums.push(x);
        }
        k = k + 1;
    }
    assert(src.sum_indices@.take(k as int) =~= src.sum_indices@);
    Some(Term { coeff: c, sum_indices: sums, factors: crate::repr::clone_factors(&src.factors) })
}

/// `out` lists the side terms of the nodes `ids` with coefficients `coeffs`.
pub open spec fn side_terms_ok(nodes: Seq<Term>, ids: Seq<usize>, coeffs: Seq<Rational>, contracted: Seq<Index>, out: Seq<TermModel>) -> bool {
    &&& out.len() == ids.len()
    &&& forall|k: int| 0 <= k < ids.len() ==> {
        &&& #[trigger] ids[k] < nodes.len()
        &&& out[k].coeff.pair() == mul_pair(nodes[ids[k] as int].coeff, coeffs[k])
        &&& out[k] == side_term(nodes[ids[k] as int]@, contracted, out[k].coeff)
    }
}

/// Every node coefficient times its biclique coefficient fits the
/// coefficient type without overflow.
pub open spec fn all_fit(nodes: Seq<Term>, ids: Seq<usize>, coeffs: Seq<Rational>) -> bool {
    forall|k: int| 0 <= k < ids.len() ==> fits_mul(nodes[#[trigger] ids[k] as int].coeff, coeffs[k])
}

fn build_side_terms(nodes: &Vec<Term>, ids: &Vec<usize>, coeffs: &Vec<Rational>, contracted: &Vec<Index>) -> (r: Option<Vec<Term>>)
    requires
        ids@.len() == coeffs@.len(),
        forall|k: int| 0 <= k < ids@.len() ==> #[trigger] ids@[k] < nodes@.len(),
    ensures
        r matches Some(v) ==> side_terms_ok(nodes@, ids@, coeffs@, contracted@, term_models(v@)),
        all_fit(nodes@, ids@, coeffs@) ==> r is Some,
{
    let mut out: Vec<Term> = Vec::new();
    let mut k: usize = 0;
    while k < ids.len()
        invariant
            k <= ids@.len(),
            ids@.len() == coeffs@.len(),
            forall|m: int| 0 <= m < ids@.len() ==> #[trigger] ids@[m] < nodes@.len(),
            out@.len() == k,
            forall|m: int| 0 <= m < k ==> {
                &&& (#[trigger] out@[m]).coeff.pair() == mul_pair(nodes@[ids@[m] as int].coeff, coeffs@[m])
                &&& out@[m]@ == side_term(nodes@[ids@[m] as int]@, contracted@, out@[m].coeff)
            },
            all_fit(nodes@, ids@, coeffs@) ==> true,
        decreases ids.len() - k,
    {
        let t = match build_side_term(&nodes[ids[k]], &coeffs[k], contracted) {
            Some(t) => t,
            None => {
                proof {
                    assert(!fits_mul(nodes@[ids@[k as int] as int].coeff, coeffs@[k as int]));
                }
                return None;
            },
        };
        out.push(t);
        k = k + 1;
    }
    proof {
        let tm = term_models(out@);
        assert forall|m: int| 0 <= m < ids@.len() implies {
            &&& #[trigger] ids@[m] < nodes@.len()
            &&& tm[m].coeff.pair() == mul_pair(nodes@[ids@[m] as int].coeff, coeffs@[m])
            &&& tm[m] == side_term(nodes@[ids@[m] as int]@, contracted@, tm[m].coeff)
        } by {
            assert(tm[m] == out@[m]@);
        }
    }
    Some(out)
}

/// `out` is `src` stably sorted by term key, `order` giving each output
/// position's source position.
pub open spec fn stably_sorted_by_key(src: Seq<TermModel>, out: Seq<TermModel>, order: Seq<usize>) -> bool {
    &&& order.len() == src.len()
    &&& out.len() == src.len()
    &&& forall|a: int| 0 <= a < order.len() ==> #[trigger] order[a] < src.len() && out[a] == src[order[a] as int]
    &&& forall|a: int, b: int| 0 <= a < b < order.len() ==> #[trigger] order[a] != #[trigger] order[b]
    &&& forall|a: int, b: int| 0 <= a < b < out.len() ==> key_le(term_key(#[trigger] out[a]), term_key(#[trigger] out[b]))
    &&& forall|a: int, b: int| 0 <= a < b < out.len() && key_le(term_key(#[trigger] out[b]), term_key(#[trigger] out[a]))
        ==> order[a] < order[b]
}

/// The positions of `terms` in stable order of their keys.
fn term_sort_order(terms: &Vec<Term>) -> (order: Vec<usize>)
    ensures
        stably_sorted_by_key(term_models(terms@), order@.map_values(|k: usize| term_models(terms@)[k as int]), order@),
{
    let mut keys: Vec<TermSortKey> = Vec::new();
    let mut k: usize = 0;
    while k < terms.len()
        invariant
            k <= terms@.len(),
            keys@.len() == k,
            forall|m: int| 0 <= m < k ==> (#[trigger] keys@[m]).model() == term_key(terms@[m]@),
        decreases terms.len() - k,
    {
        keys.push(term_sort_key(&terms[k]));
        k = k + 1;
    }
    let order = stable_sort_order(&keys);
    proof {
        let src = term_models(terms@);
        let o = order@.map_values(|k: usize| src[k as int]);
        assert forall|m: int| 0 <= m < keys@.len() implies #[trigger] keys@[m].model() == term_key(src[m]) by {
            assert(src[m] == terms@[m]@);
        }
        assert forall|x: int| 0 <= x < order@.len() implies #[trigger] order@[x] < src.len() && o[x] == src[order@[x] as int] by {
        }
        assert forall|x: int, y: int| 0 <= x < y < o.len() implies key_le(term_key(#[trigger] o[x]), term_key(#[trigger] o[y])) by {
            assert(keys@[order@[x] as int].spec_le(keys@[order@[y] as int]));
        }
        assert forall|x: int, y: int| 0 <= x < y < o.len() && key_le(term_key(#[trigger] o[y]), term_key(#[trigger] o[x]))
            implies order@[x] < order@[y] by {
            assert(keys@[order@[y] as int].spec_le(keys@[order@[x] as int]) ==> order@[x] < order@[y]);
        }
    }
    order
}

fn sort_terms(terms: &Vec<Term>) -> (r: (Vec<Term>, Ghost<Seq<usize>>))
    ensures
        stably_sorted_by_key(term_models(terms@), term_models(r.0@), r.1@),
{
    let order = term_sort_order(terms);
    let ghost src = term_models(terms@);
    let mut out: Vec<Term> = Vec::new();
    let mut a: usize = 0;
    while a < order.len()
        invariant
            a <= order@.len(),
            stably_sorted_by_key(src, order@.map_values(|k: usize| src[k as int]), order@),
            src == term_models(terms@),
            out@.len() == a,
            forall|m: int| 0 <= m < a ==> (#[trigger] out@[m])@ == src[order@[m] as int],
        decreases order.len() - a,
    {
        assert(order@[a as int] < src.len());
        out.push(terms[order[a]].clone());
        a = a + 1;
    }
    proof {
        let o = term_models(out@);
        assert(o =~= order@.map_values(|k: usize| src[k as int])) by {
            assert forall|m: int| 0 <= m < o.len() implies o[m] == order@.map_values(|k: usize| src[k as int])[m] by {
                assert(o[m] == out@[m]@);
            }
        }
    }
    (out, Ghost(order@))
}

/// A side definition: its tensor, the side's external indices then the
/// contracted ones, and the side terms of the nodes stably sorted by key.
pub open spec fn side_definition_ok(
    nodes: Seq<Term>,
    ids: Seq<usize>,
    coeffs: Seq<Rational>,
    side_ext: Seq<Index>,
    contracted: Seq<Index>,
    tensor: TensorId,
    d: DefModel,
) -> bool {
    &&& d.base == tensor
    &&& d.ext_indices == side_ext + contracted
    &&& exists|u: Seq<TermModel>, order: Seq<usize>| side_terms_ok(nodes, ids, coeffs, contracted, u)
        && #[trigger] stably_sorted_by_key(u, d.terms, order)
}

fn build_side_definition(
    nodes: &Vec<Term>,
    ids: &Vec<usize>,
    coeffs: &Vec<Rational>,
    side_ext: &Vec<Index>,
    contracted: &Vec<Index>,
    tensor: TensorId,
) -> (r: Option<TensorDef>)
    requires
        ids@.len() == coeffs@.len(),
        forall|k: int| 0 <= k < ids@.len() ==> #[trigger] ids@[k] < nodes@.len(),
    ensures
        r matches Some(d) ==> side_definition_ok(nodes@, ids@, coeffs@, side_ext@, contracted@, tensor, d@),
        all_fit(nodes@, ids@, coeffs@) ==> r is Some,
{
    let terms = match build_side_terms(nodes, ids, coeffs, contracted) {
        Some(t) => t,
        None => return None,
    };
    let (sorted, order) = sort_terms(&terms);
    let mut ext: Vec<Index> = copy_vec(side_ext);
    let mut k: usize = 0;
    while k < contracted.len()
        invariant
            k <= contracted@.len(),
            ext@ == side_ext@ + contracted@.take(k as int),
        decreases contracted.len() - k,
    {
        ext.push(contracted[k]);
        k = k + 1;
        assert(ext@ =~= side_ext@ + contracted@.take(k as int));
    }
    assert(contracted@.take(k as int) =~= contracted@);
    let d = TensorDef { base: tensor, ext_indices: ext, terms: sorted };
    assert(stably_sorted_by_key(term_models(terms@), d@.terms, order@));
    Some(d)
}

/// The terms whose positions (below 64) are not set in `consumed`, in order.
pub open spec fn kept_terms(terms: Seq<TermModel>, consumed: u64) -> Seq<TermModel>
    decreases terms.len(),
{
    if terms.len() == 0 {
        seq![]
    } else {
        let k = terms.len() - 1;
        if k < 64 && bit(consumed, k as u64) {
            kept_terms(terms.drop_last(), consumed)
        } else {
            kept_terms(terms.drop_last(), consumed).push(terms.last())
        }
    }
}

/// The rewritten target: its base and external indices, the terms not
/// consumed, then one term (coefficient one, summed over the contracted
/// indices) multiplying the two side tensors over their external indices.
pub open spec fn rewritten_ok(def: DefModel, left: DefModel, right: DefModel, contracted: Seq<Index>, consumed: u64, out: DefModel) -> bool {
    let kept = kept_terms(def.terms, consumed);
    &&& out.base == def.base
    &&& out.ext_indices == def.ext_indices
    &&& out.terms.len() == kept.len() + 1
    &&& out.terms.take(kept.len() as int) == kept
    &&& out.terms.last().coeff.pair() == (1int, 1int)
    &&& out.terms.last().sum_indices == contracted
    &&& out.terms.last().factors == seq![
        crate::repr::FactorModel { tensor: left.base, indices: left.ext_indices.map_values(|i: Index| i.id) },
        crate::repr::FactorModel { tensor: right.base, indices: right.ext_indices.map_values(|i: Index| i.id) },
    ]
}

fn index_ids(v: &Vec<Index>) -> (r: Vec<IndexId>)
    ensures
        r@ == v@.map_values(|i: Index| i.id),
{
    let mut out: Vec<IndexId> = Vec::new();
    let mut k: usize = 0;
    while k < v.len()
        invariant
            k <= v@.len(),
            out@ == v@.take(k as int).map_values(|i: Index| i.id),
        decreases v.len() - k,
    {
        out.push(v[k].id);
        k = k + 1;
        assert(out@ =~= v@.take(k as int).map_values(|i: Index| i.id));
    }
    assert(v@.take(k as int) =~= v@);
    out
}

fn build_rewritten_definition(def: &TensorDef, left: &TensorDef, right: &TensorDef, contracted: &Vec<Index>, consumed: u64) -> (r: TensorDef)
    ensures
        rewritten_ok(def@, left@, right@, contracted@, consumed, r@),
{
    let mut terms: Vec<Term> = Vec::new();
    let mut k: usize = 0;
    while k < def.terms.len()
        invariant
            k <= def.terms@.len(),
            term_models(terms@) == kept_terms(def@.terms.take(k as int), consumed),
        decreases def.terms.len() - k,
    {
        let ghost before = terms@;
        proof {
            let t = def@.terms.take(k + 1);
            assert(t.drop_last() =~= def@.terms.take(k as int));
            assert(t.last() == def.terms@[k as int]@);
        }
        if !(k < 64 && (consumed >> (k as u64)) & 1 == 1) {
            terms.push(def.terms[k].clone());
            assert(term_models(terms@) =~= term_models(before).push(def.terms@[k as int]@));
        }
        k = k + 1;
    }
    assert(def@.terms.take(k as int) =~= def@.terms);
    let ghost kept = term_models(terms@);
    let replacement = Term {
        coeff: Rational::one(),
        sum_indices: copy_vec(contracted),
        factors: vec![
            Factor { tensor: left.base, indices: index_ids(&left.ext_indices) },
            Factor { tensor: right.base, indices: index_ids(&right.ext_indices) },
        ],
    };
    terms.push(replacement);
    let r = TensorDef { base: def.base, ext_indices: copy_vec(&def.ext_indices), terms };
    proof {
        assert(r@.terms.take(kept.len() as int) =~= kept);
        assert(r@.terms.last() == replacement@);
        assert(replacement@.factors =~= seq![
            crate::repr::FactorModel { tensor: left.base, indices: left@.ext_indices.map_values(|i: Index| i.id) },
            crate::repr::FactorModel { tensor: right.base, indices: right@.ext_indices.map_values(|i: Index| i.id) },
        ]);
    }
    r
}

/// The conditions under which a biclique can be turned into a
/// factorisation: aligned, non-empty sides; a consistent rectangle; masks
/// within the external indices; consumed terms within the definition.
pub open spec fn buildable(def: &TensorDef, g: &ConstrGraph, b: BicliqueModel) -> bool {
    &&& b.left_node_ids.len() == b.left_coeffs.len()
    &&& b.right_node_ids.len() == b.right_coeffs.len()
    &&& b.left_node_ids.len() > 0
    &&& b.right_node_ids.len() > 0
    &&& rect_ok(flat_sums(def@.terms), g, b)
    &&& mask_ok(g.last_step.left_ext, def.ext_indices@.len() as int)
    &&& mask_ok(g.last_step.right_ext, def.ext_indices@.len() as int)
    &&& bits_below(b.terms_used, def.terms@.len() as int)
}

/// `f` is the factorisation of `def` by biclique `b` of graph `g`, with
/// side tensors `lt` and `rt`: contracted over the interface of the first
/// pair of the rectangle.
pub open spec fn factorization_ok(def: &TensorDef, g: &ConstrGraph, b: BicliqueModel, lt: TensorId, rt: TensorId, f: FactorizationModel) -> bool {
    exists|c: Seq<Index>| {
        &&& #[trigger] is_interface(
            c,
            g.left_nodes@[b.left_node_ids[0] as int]@,
            g.right_nodes@[b.right_node_ids[0] as int]@,
            flat_sums(def@.terms),
        )
        &&& side_definition_ok(
            g.left_nodes@,
            b.left_node_ids,
            b.left_coeffs,
            indices_at_bits(g.last_step.left_ext, def.ext_indices@, 64),
            c,
            lt,
            f.left_definition,
        )
        &&& side_definition_ok(
            g.right_nodes@,
            b.right_node_ids,
            b.right_coeffs,
            indices_at_bits(g.last_step.right_ext, def.ext_indices@, 64),
            c,
            rt,
            f.right_definition,
        )
        &&& rewritten_ok(def@, f.left_definition, f.right_definition, c, b.terms_used, f.rewritten_definition)
    }
}

// ---------------------------------------------------------------------------
// Uniqueness of a factorisation
// ---------------------------------------------------------------------------

/// An injective list of `n` positions below `n` lists each of them.
proof fn lemma_order_onto(order: Seq<usize>, n: int, i: int)
    requires
        order.len() == n,
        forall|a: int| 0 <= a < n ==> #[trigger] order[a] < n,
        forall|a: int, b: int| 0 <= a < b < n ==> #[trigger] order[a] != #[trigger] order[b],
        0 <= i < n,
    ensures
        exists|a: int| 0 <= a < n && #[trigger] order[a] == i,
{
    let s = order.map_values(|x: usize| x as int);
    assert forall|a: int, b: int| 0 <= a < s.len() && 0 <= b < s.len() && a != b implies s[a] != s[b] by {
        if a < b {
            assert(order[a] != order[b]);
        } else {
            assert(order[b] != order[a]);
        }
    }
    assert(s.no_duplicates());
    s.unique_seq_to_set();
    vstd::seq_lib::seq_to_set_is_finite(s);
    let r = vstd::set_lib::set_int_range(0, n);
    vstd::set_lib::lemma_int_range(0, n);
    assert forall|x: int| s.to_set().contains(x) implies r.contains(x) by {
        let a = choose|a: int| 0 <= a < s.len() && s[a] == x;
        assert(order[a] < n);
    }
    vstd::set_lib::lemma_subset_equality(s.to_set(), r);
    assert(r.contains(i));
    assert(s.to_set().contains(i));
    let a = choose|a: int| 0 <= a < s.len() && s[a] == i;
    assert(order[a] == i);
}

/// Two stable sorts of one list by term key agree on their first `k`
/// positions.
proof fn lemma_stable_sort_prefix(src: Seq<TermModel>, o1: Seq<TermModel>, r1: Seq<usize>, o2: Seq<TermModel>, r2: Seq<usize>, k: int)
    requires
        stably_sorted_by_key(src, o1, r1),
        stably_sorted_by_key(src, o2, r2),
        0 <= k <= src.len(),
    ensures
        forall|a: int| 0 <= a < k ==> #[trigger] r1[a] == r2[a],
    decreases k,
{
    if k > 0 {
        lemma_stable_sort_prefix(src, o1, r1, o2, r2, k - 1);
        let a = k - 1;
        let n = src.len() as int;
        if r1[a] != r2[a] {
            let i = r1[a] as int;
            let j = r2[a] as int;
            lemma_order_onto(r1, n, j);
            let b = choose|b: int| 0 <= b < n && #[trigger] r1[b] == j;
            lemma_order_onto(r2, n, i);
            let c = choose|c: int| 0 <= c < n && #[trigger] r2[c] == i;
            if b < a {
                assert(r1[b] == r2[b]);
                assert(r2[b] != r2[a]);
            }
            if c < a {
                assert(r1[c] == r2[c]);
                assert(r1[c] != r1[a]);
            }
            assert(a < b && a < c);
            assert(o1[a] == src[i] && o1[b] == src[j]);
            assert(o2[a] == src[j] && o2[c] == src[i]);
            assert(key_le(term_key(o1[a]), term_key(o1[b])));
            assert(key_le(term_key(o2[a]), term_key(o2[c])));
            assert(r1[a] < r1[b]);
            assert(r2[a] < r2[c]);
        }
    }
}

/// A stable sort of a list by term key has one result.
proof fn lemma_stable_sort_unique(src: Seq<TermModel>, o1: Seq<TermModel>, r1: Seq<usize>, o2: Seq<TermModel>, r2: Seq<usize>)
    requires
        stably_sorted_by_key(src, o1, r1),
        stably_sorted_by_key(src, o2, r2),
    ensures
        o1 == o2,
{
    lemma_stable_sort_prefix(src, o1, r1, o2, r2, src.len() as int);
    assert forall|a: int| 0 <= a < o1.len() implies o1[a] == o2[a] by {
        assert(r1[a] == r2[a]);
    }
    assert(o1 =~= o2);
}

/// A side definition of a factorisation has one form.
proof fn lemma_side_definition_unique(
    nodes: Seq<Term>,
    ids: Seq<usize>,
    coeffs: Seq<Rational>,
    side_ext: Seq<Index>,
    contracted: Seq<Index>,
    tensor: TensorId,
    d1: DefModel,
    d2: DefModel,
)
    requires
        side_definition_ok(nodes, ids, coeffs, side_ext, contracted, tensor, d1),
        side_definition_ok(nodes, ids, coeffs, side_ext, contracted, tensor, d2),
    ensures
        d1 == d2,
{
    let (u1, r1) = choose|u: Seq<TermModel>, order: Seq<usize>| side_terms_ok(nodes, ids, coeffs, contracted, u)
        && #[trigger] stably_sorted_by_key(u, d1.terms, order);
    let (u2, r2) = choose|u: Seq<TermModel>, order: Seq<usize>| side_terms_ok(nodes, ids, coeffs, contracted, u)
        && #[trigger] stably_sorted_by_key(u, d2.terms, order);
    assert forall|k: int| 0 <= k < u1.len() implies u1[k] == u2[k] by {
        assert(ids[k] < nodes.len());
        Rational::lemma_eq_from_pair(u1[k].coeff, u2[k].coeff);
    }
    assert(u1 =~= u2);
    lemma_stable_sort_unique(u1, d1.terms, r1, d2.terms, r2);
}

/// The rewritten target of a factorisation has one form.
proof fn lemma_rewritten_unique(def: DefModel, left: DefModel, right: DefModel, contracted: Seq<Index>, consumed: u64, o1: DefModel, o2: DefModel)
    requires
        rewritten_ok(def, left, right, contracted, consumed, o1),
        rewritten_ok(def, left, right, contracted, consumed, o2),
    ensures
        o1 == o2,
{
    let kept = kept_terms(def.terms, consumed);
    let t1 = o1.terms.last();
    let t2 = o2.terms.last();
    Rational::lemma_eq_from_pair(t1.coeff, t2.coeff);
    assert(t1 == t2);
    assert forall|k: int| 0 <= k < o1.terms.len() implies o1.terms[k] == o2.terms[k] by {
        if k < kept.len() {
            assert(o1.terms.take(kept.len() as int)[k] == o2.terms.take(kept.len() as int)[k]);
        }
    }
    assert(o1.terms =~= o2.terms);
}

/// The factorisation of a definition by a biclique, with given side tensor
/// ids, is unique: the contract that names it determines it.
pub proof fn lemma_factorization_unique(
    def: &TensorDef,
    g: &ConstrGraph,
    b: BicliqueModel,
    lt: TensorId,
    rt: TensorId,
    f1: FactorizationModel,
    f2: FactorizationModel,
)
    requires
        factorization_ok(def, g, b, lt, rt, f1),
        factorization_ok(def, g, b, lt, rt, f2),
    ensures
        f1 == f2,
{
    let l = g.left_nodes@[b.left_node_ids[0] as int]@;
    let r = g.right_nodes@[b.right_node_ids[0] as int]@;
    let flat = flat_sums(def@.terms);
    let le = indices_at_bits(g.last_step.left_ext, def.ext_indices@, 64);
    let re = indices_at_bits(g.last_step.right_ext, def.ext_indices@, 64);
    let c1 = choose|c: Seq<Index>| {
        &&& #[trigger] is_interface(c, l, r, flat)
        &&& side_definition_ok(g.left_nodes@, b.left_node_ids, b.left_coeffs, le, c, lt, f1.left_definition)
        &&& side_definition_ok(g.right_nodes@, b.right_node_ids, b.right_coeffs, re, c, rt, f1.right_definition)
        &&& rewritten_ok(def@, f1.left_definition, f1.right_definition, c, b.terms_used, f1.rewritten_definition)
    };
    let c2 = choose|c: Seq<Index>| {
        &&& #[trigger] is_interface(c, l, r, flat)
        &&& side_definition_ok(g.left_nodes@, b.left_node_ids, b.left_coeffs, le, c, lt, f2.left_definition)
        &&& side_definition_ok(g.right_nodes@, b.right_node_ids, b.right_coeffs, re, c, rt, f2.right_definition)
        &&& rewritten_ok(def@, f2.left_definition, f2.right_definition, c, b.terms_used, f2.rewritten_definition)
    };
    assert forall|x: Index| c1.contains(x) <==> c2.contains(x) by {
        assert(c1.contains(x) <==> in_interface(l, r, flat, x));
        assert(c2.contains(x) <==> in_interface(l, r, flat, x));
    }
    lemma_sorted_unique(c1, c2);
    lemma_side_definition_unique(g.left_nodes@, b.left_node_ids, b.left_coeffs, le, c1, lt, f1.left_definition, f2.left_definition);
    lemma_side_definition_unique(g.right_nodes@, b.right_node_ids, b.right_coeffs, re, c1, rt, f1.right_definition, f2.right_definition);
    lemma_rewritten_unique(def@, f1.left_definition, f1.right_definition, c1, b.terms_used, f1.rewritten_definition, f2.rewritten_definition);
}

fn check_consumed(mask: u64, n: usize) -> (r: Result<(), ActionError>)
    ensures
        r is Ok <==> bits_below(mask, n as int),
        r matches Err(e) ==> e is ConsumedTermOutOfBounds,
{
    let mut t: u64 = 0;
    while t < 64
        invariant
            t <= 64,
            forall|i: u64| i < t && #[trigger] bit(mask, i) ==> i < n,
        decreases 64 - t,
    {
        if (mask >> t) & 1 == 1 && t as usize >= n {
            assert(bit(mask, t));
            return Err(ActionError::ConsumedTermOutOfBounds { term: t as usize, count: n });
        }
        t = t + 1;
    }
    Ok(())
}

/// The factorisation of `def` by biclique `b` of graph `g`, with side
/// tensors `lt` and `rt`. Refused when the biclique is not buildable, or
/// (only) when a side coefficient overflows.
fn build_factorization(def: &TensorDef, g: &ConstrGraph, b: &Biclique, lt: TensorId, rt: TensorId) -> (r: Result<Factorization, ActionError>)
    ensures
        r matches Ok(f) ==> buildable(def, g, b@) && factorization_ok(def, g, b@, lt, rt, f@),
        r matches Err(e) ==> !buildable(def, g, b@) || (e is CoefficientOverflow && !(all_fit(g.left_nodes@, b.left_node_ids@, b.left_coeffs@)
            && all_fit(g.right_nodes@, b.right_node_ids@, b.right_coeffs@))),
{
    if b.left_node_ids.len() != b.left_coeffs.len() {
        return Err(ActionError::SideAlignment { left: true, ids: b.left_node_ids.len(), coeffs: b.left_coeffs.len() });
    }
    if b.right_node_ids.len() != b.right_coeffs.len() {
        return Err(ActionError::SideAlignment { left: false, ids: b.right_node_ids.len(), coeffs: b.right_coeffs.len() });
    }
    if b.left_node_ids.len() == 0 {
        return Err(ActionError::CandidateSideEmpty { left: true });
    }
    if b.right_node_ids.len() == 0 {
        return Err(ActionError::CandidateSideEmpty { left: false });
    }
    let flat = collect_sums(def);
    let contracted = rectangle_interface(&flat, g, b)?;
    check_mask(g.last_step.left_ext, def.ext_indices.len(), true)?;
    check_mask(g.last_step.right_ext, def.ext_indices.len(), false)?;
    check_consumed(b.terms_used, def.terms.len())?;
    let left_ext = ext_at_bits(g.last_step.left_ext, &def.ext_indices);
    let right_ext = ext_at_bits(g.last_step.right_ext, &def.ext_indices);
    proof {
        assert(b@.left_node_ids.len() > 0);
        assert(b@.right_node_ids == b.right_node_ids@);
        assert(forall|k: int| 0 <= k < b.right_node_ids@.len() ==> #[trigger] b.right_node_ids@[k] < g.right_nodes@.len());
    }
    let left_definition = match build_side_definition(&g.left_nodes, &b.left_node_ids, &b.left_coeffs, &left_ext, &contracted, lt) {
        Some(d) => d,
        None => return Err(ActionError::CoefficientOverflow),
    };
    let right_definition = match build_side_definition(&g.right_nodes, &b.right_node_ids, &b.right_coeffs, &right_ext, &contracted, rt) {
        Some(d) => d,
        None => return Err(ActionError::CoefficientOverflow),
    };
    let rewritten_definition = build_rewritten_definition(def, &left_definition, &right_definition, &contracted, b.terms_used);
    let f = Factorization { left_definition, right_definition, rewritten_definition };
    proof {
        assert(is_interface(
            contracted@,
            g.left_nodes@[b.left_node_ids@[0] as int]@,
            g.right_nodes@[b.right_node_ids@[0] as int]@,
            flat_sums(def@.terms),
        ));
    }
    Ok(f)
}

/// The elements of `s` whose mask entry (among the first `k`) is set.
pub open spec fn masked_upto<T>(s: Seq<T>, m: Seq<bool>, k: int) -> Seq<T>
    decreases k,
{
    if k <= 0 {
        seq![]
    } else if m[k - 1] {
        masked_upto(s, m, k - 1).push(s[k - 1])
    } else {
        masked_upto(s, m, k - 1)
    }
}

/// The elements of `s` whose mask entry is set (pairing stops at the
/// shorter of the two).
pub open spec fn masked<T>(s: Seq<T>, m: Seq<bool>) -> Seq<T> {
    masked_upto(s, m, if s.len() < m.len() { s.len() as int } else { m.len() as int })
}

/// The union of the terms of the first `k` edges that join selected nodes.
pub open spec fn selected_terms(edges: Seq<GraphEdge>, ls: Seq<usize>, rs: Seq<usize>, k: int) -> u64
    decreases k,
{
    if k <= 0 {
        0
    } else {
        let e = edges[k - 1];
        let prev = selected_terms(edges, ls, rs, k - 1);
        if ls.contains(e.left_id) && rs.contains(e.right_id) {
            prev | e.terms_used
        } else {
            prev
        }
    }
}

fn select<T: Copy>(s: &Vec<T>, m: &Vec<bool>) -> (r: Vec<T>)
    ensures
        r@ == masked(s@, m@),
{
    let n = if s.len() < m.len() { s.len() } else { m.len() };
    let mut out: Vec<T> = Vec::new();
    let mut k: usize = 0;
    while k < n
        invariant
            k <= n,
            n <= s@.len(),
            n <= m@.len(),
            out@ == masked_upto(s@, m@, k as int),
        decreases n - k,
    {
        if m[k] {
            out.push(s[k]);
        }
        k = k + 1;
    }
    out
}

fn usize_listed(v: &Vec<usize>, x: usize) -> (r: bool)
    ensures
        r == v@.contains(x),
{
    let mut k: usize = 0;
    while k < v.len()
        invariant
            k <= v@.len(),
            forall|m: int| 0 <= m < k ==> v@[m] != x,
        decreases v.len() - k,
    {
        if v[k] == x {
            assert(v@[k as int] == x);
            return true;
        }
        k = k + 1;
    }
    false
}

/// The sub-biclique a decision selects: the masked nodes and coefficients
/// of each side, and the terms of the edges joining selected nodes.
fn sub_biclique_from_decision(record: &CandidateRecord, decision: &Decision) -> (r: Biclique)
    ensures
        r.left_node_ids@ == masked(record.biclique.left_node_ids@, decision.left_mask@),
        r.left_coeffs@ == masked(record.biclique.left_coeffs@, decision.left_mask@),
        r.right_node_ids@ == masked(record.biclique.right_node_ids@, decision.right_mask@),
        r.right_coeffs@ == masked(record.biclique.right_coeffs@, decision.right_mask@),
        r.terms_used == selected_terms(record.graph.edges@, r.left_node_ids@, r.right_node_ids@, record.graph.edges@.len() as int),
{
    let left_node_ids = select(&record.biclique.left_node_ids, &decision.left_mask);
    let left_coeffs = select(&record.biclique.left_coeffs, &decision.left_mask);
    let right_node_ids = select(&record.biclique.right_node_ids, &decision.right_mask);
    let right_coeffs = select(&record.biclique.right_coeffs, &decision.right_mask);
    let edges = &record.graph.edges;
    let mut terms_used: u64 = 0;
    let mut k: usize = 0;
    while k < edges.len()
        invariant
            k <= edges@.len(),
            terms_used == selected_terms(edges@, left_node_ids@, right_node_ids@, k as int),
        decreases edges.len() - k,
    {
        let e = edges[k];
        if usize_listed(&left_node_ids, e.left_id) && usize_listed(&right_node_ids, e.right_id) {
            terms_used = terms_used | e.terms_used;
        }
        k = k + 1;
    }
    Biclique { left_node_ids, right_node_ids, left_coeffs, right_coeffs, terms_used }
}

/// The template a candidate exports: its factorisation with side tensors
/// `left_tid` and `right_tid`.
pub fn export_candidate_template(def: &TensorDef, record: &CandidateRecord, left_tid: TensorId, right_tid: TensorId) -> (r: Result<Factorization, ActionError>)
    ensures
        r matches Ok(f) ==> buildable(def, &record.graph, record.biclique@)
            && factorization_ok(def, &record.graph, record.biclique@, left_tid, right_tid, f@),
        r matches Err(e) ==> !buildable(def, &record.graph, record.biclique@) || (e is CoefficientOverflow && !(all_fit(
            record.graph.left_nodes@,
            record.biclique.left_node_ids@,
            record.biclique.left_coeffs@,
        ) && all_fit(record.graph.right_nodes@, record.biclique.right_node_ids@, record.biclique.right_coeffs@))),
{
    build_factorization(def, &record.graph, &record.biclique, left_tid, right_tid)
}

// ---------------------------------------------------------------------------
// Candidates and the action space
// ---------------------------------------------------------------------------

/// The elements of `u` at the positions listed in `order`.
pub open spec fn gather(u: Seq<TermModel>, order: Seq<usize>) -> Seq<TermModel> {
    order.map_values(|k: usize| u[k as int])
}

/// The new order of one side's nodes: by the key of the term each node
/// would contribute (stably), coefficients alongside.
pub open spec fn normalized_side(
    nodes: Seq<Term>,
    ids: Seq<usize>,
    coeffs: Seq<Rational>,
    contracted: Seq<Index>,
    new_ids: Seq<usize>,
    new_coeffs: Seq<Rational>,
) -> bool {
    exists|u: Seq<TermModel>, order: Seq<usize>| {
        &&& side_terms_ok(nodes, ids, coeffs, contracted, u)
        &&& #[trigger] stably_sorted_by_key(u, gather(u, order), order)
        &&& new_ids == order.map_values(|k: usize| ids[k as int])
        &&& new_coeffs == order.map_values(|k: usize| coeffs[k as int])
    }
}

fn normalize_side(nodes: &Vec<Term>, ids: &Vec<usize>, coeffs: &Vec<Rational>, contracted: &Vec<Index>) -> (r: Option<(Vec<usize>, Vec<Rational>)>)
    requires
        ids@.len() == coeffs@.len(),
        forall|k: int| 0 <= k < ids@.len() ==> #[trigger] ids@[k] < nodes@.len(),
    ensures
        r matches Some(p) ==> normalized_side(nodes@, ids@, coeffs@, contracted@, p.0@, p.1@),
        all_fit(nodes@, ids@, coeffs@) ==> r is Some,
{
    let terms = match build_side_terms(nodes, ids, coeffs, contracted) {
        Some(t) => t,
        None => return None,
    };
    let order = term_sort_order(&terms);
    let ghost u = term_models(terms@);
    let mut new_ids: Vec<usize> = Vec::new();
    let mut new_coeffs: Vec<Rational> = Vec::new();
    let mut a: usize = 0;
    while a < order.len()
        invariant
            a <= order@.len(),
            stably_sorted_by_key(u, order@.map_values(|k: usize| u[k as int]), order@),
            u.len() == ids@.len(),
            ids@.len() == coeffs@.len(),
            new_ids@ == order@.take(a as int).map_values(|k: usize| ids@[k as int]),
            new_coeffs@ == order@.take(a as int).map_values(|k: usize| coeffs@[k as int]),
        decreases order.len() - a,
    {
        assert(order@[a as int] < u.len());
        new_ids.push(ids[order[a]]);
        new_coeffs.push(coeffs[order[a]]);
        a = a + 1;
        assert(new_ids@ =~= order@.take(a as int).map_values(|k: usize| ids@[k as int]));
        assert(new_coeffs@ =~= order@.take(a as int).map_values(|k: usize| coeffs@[k as int]));
    }
    assert(order@.take(a as int) =~= order@);
    assert(stably_sorted_by_key(u, gather(u, order@), order@));
    Some((new_ids, new_coeffs))
}

/// A candidate with each side's nodes put in the order of the terms they
/// contribute; `None` when the biclique cannot be factorised (empty or
/// misaligned side, inconsistent rectangle, coefficient overflow).
pub fn normalize_candidate_record(def: &TensorDef, record: CandidateRecord) -> (r: Option<CandidateRecord>)
    ensures
        r matches Some(n) ==> {
            &&& n.graph == record.graph
            &&& n.biclique.terms_used == record.biclique.terms_used
            &&& record.biclique.left_node_ids@.len() > 0
            &&& record.biclique.right_node_ids@.len() > 0
            &&& exists|c: Seq<Index>| {
                &&& #[trigger] is_interface(
                    c,
                    record.graph.left_nodes@[record.biclique.left_node_ids@[0] as int]@,
                    record.graph.right_nodes@[record.biclique.right_node_ids@[0] as int]@,
                    flat_sums(def@.terms),
                )
                &&& normalized_side(record.graph.left_nodes@, record.biclique.left_node_ids@, record.biclique.left_coeffs@, c,
                    n.biclique.left_node_ids@, n.biclique.left_coeffs@)
                &&& normalized_side(record.graph.right_nodes@, record.biclique.right_node_ids@, record.biclique.right_coeffs@, c,
                    n.biclique.right_node_ids@, n.biclique.right_coeffs@)
            }
            &&& n.biclique.left_node_ids@.len() == record.biclique.left_node_ids@.len()
            &&& n.biclique.right_node_ids@.len() == record.biclique.right_node_ids@.len()
            &&& n.biclique.left_coeffs@.len() == n.biclique.left_node_ids@.len()
            &&& n.biclique.right_coeffs@.len() == n.biclique.right_node_ids@.len()
        },
        r is Some ==> record.biclique.left_node_ids@.len() == record.biclique.left_coeffs@.len()
            && record.biclique.right_node_ids@.len() == record.biclique.right_coeffs@.len()
            && rect_ok(flat_sums(def@.terms), &record.graph, record.biclique@),
        ({
            let b = record.biclique;
            let g = record.graph;
            &&& b.left_node_ids@.len() == b.left_coeffs@.len()
            &&& b.right_node_ids@.len() == b.right_coeffs@.len()
            &&& b.left_node_ids@.len() > 0
            &&& b.right_node_ids@.len() > 0
            &&& rect_ok(flat_sums(def@.terms), &g, b@)
            &&& all_fit(g.left_nodes@, b.left_node_ids@, b.left_coeffs@)
            &&& all_fit(g.right_nodes@, b.right_node_ids@, b.right_coeffs@)
        }) ==> r is Some,
{
    let b = &record.biclique;
    let g = &record.graph;
    if b.left_node_ids.len() != b.left_coeffs.len() || b.right_node_ids.len() != b.right_coeffs.len()
        || b.left_node_ids.len() == 0 || b.right_node_ids.len() == 0 {
        return None;
    }
    let flat = collect_sums(def);
    let contracted = match rectangle_interface(&flat, g, b) {
        Ok(c) => c,
        Err(_) => return None,
    };
    proof {
        assert(rect_ok(flat@, g, b@));
        assert(b@.left_node_ids.len() > 0);
        assert(b@.right_node_ids == b.right_node_ids@);
        assert(forall|k: int| 0 <= k < b.right_node_ids@.len() ==> #[trigger] b.right_node_ids@[k] < g.right_nodes@.len());
    }
    let (li, lc) = match normalize_side(&g.left_nodes, &b.left_node_ids, &b.left_coeffs, &contracted) {
        Some(p) => p,
        None => return None,
    };
    let (ri, rc) = match normalize_side(&g.right_nodes, &b.right_node_ids, &b.right_coeffs, &contracted) {
        Some(p) => p,
        None => return None,
    };
    let terms_used = b.terms_used;
    let ghost old_rec = record;
    proof {
        let c = contracted@;
        assert(is_interface(c, g.left_nodes@[b.left_node_ids@[0] as int]@, g.right_nodes@[b.right_node_ids@[0] as int]@, flat_sums(def@.terms)));
        let (u, order) = choose|u: Seq<TermModel>, order: Seq<usize>| {
            &&& side_terms_ok(g.left_nodes@, b.left_node_ids@, b.left_coeffs@, c, u)
            &&& #[trigger] stably_sorted_by_key(u, gather(u, order), order)
            &&& li@ == order.map_values(|k: usize| b.left_node_ids@[k as int])
            &&& lc@ == order.map_values(|k: usize| b.left_coeffs@[k as int])
        };
        assert(li@.len() == b.left_node_ids@.len());
        let (u2, order2) = choose|u: Seq<TermModel>, order: Seq<usize>| {
            &&& side_terms_ok(g.right_nodes@, b.right_node_ids@, b.right_coeffs@, c, u)
            &&& #[trigger] stably_sorted_by_key(u, gather(u, order), order)
            &&& ri@ == order.map_values(|k: usize| b.right_node_ids@[k as int])
            &&& rc@ == order.map_values(|k: usize| b.right_coeffs@[k as int])
        };
        assert(ri@.len() == b.right_node_ids@.len());
    }
    let CandidateRecord { graph, biclique: _ } = record;
    Some(CandidateRecord {
        graph,
        biclique: Biclique { left_node_ids: li, right_node_ids: ri, left_coeffs: lc, right_coeffs: rc, terms_used },
    })
}

/// The canonicalised splits of every term of `def`; `None` when a term has
/// too many factors to enumerate or a split cannot be canonicalised.
fn canon_splits_of(def: &TensorDef, cx: &crate::rl_canon::CanonDefContext) -> (r: Option<Vec<Vec<CanonSplitPair>>>)
    ensures
        r matches Some(v) ==> v@.len() == def.terms@.len(),
{
    let mut out: Vec<Vec<CanonSplitPair>> = Vec::new();
    let mut t: usize = 0;
    while t < def.terms.len()
        invariant
            t <= def.terms@.len(),
            out@.len() == t,
        decreases def.terms.len() - t,
    {
        let term = &def.terms[t];
        if term.factors.len() >= 64 {
            return None;
        }
        let splits = enumerate_splits(term, def);
        let mut pairs: Vec<CanonSplitPair> = Vec::new();
        let mut k: usize = 0;
        while k < splits.len()
            invariant
                k <= splits@.len(),
            decreases splits.len() - k,
        {
            match canon_split(&splits[k], cx) {
                Some(p) => pairs.push(p),
                None => return None,
            }
            k = k + 1;
        }
        out.push(pairs);
        t = t + 1;
    }
    Some(out)
}

/// The normalised candidates of `def`: every biclique of every constriction
/// graph of its canonicalised splits, graph by graph. A definition with
/// fewer than two terms has none; so does one whose splits cannot all be
/// canonicalised, or whose graphs cannot be built (a coefficient overflows,
/// or a term past the 64th has a split); candidates that cannot be
/// normalised are left out.
fn enumerate_candidate_records(comp: &TensorComputation, def: &TensorDef) -> (r: Vec<CandidateRecord>)
    ensures
        def.terms@.len() < 2 ==> r@.len() == 0,
{
    let mut candidates: Vec<CandidateRecord> = Vec::new();
    if def.terms.len() < 2 {
        return candidates;
    }
    let cx = build_canon_def_context(def, comp.tensors());
    let canon_splits = match canon_splits_of(def, &cx) {
        Some(v) => v,
        None => return candidates,
    };
    let mut t: usize = 64;
    while t < canon_splits.len()
        invariant
            64 <= t,
            def.terms@.len() >= 2,
            forall|m: int| 64 <= m < t && m < canon_splits@.len() ==> (#[trigger] canon_splits@[m])@.len() == 0,
        decreases canon_splits.len() - t,
    {
        if canon_splits[t].len() != 0 {
            return candidates;
        }
        t = t + 1;
    }
    let graphs = match build_graphs_from_canon_splits(def, canon_splits.as_slice()) {
        Some(gs) => gs,
        None => return candidates,
    };
    let mut g: usize = 0;
    while g < graphs.len()
        invariant
            g <= graphs@.len(),
        decreases graphs.len() - g,
    {
        let bicliques = enumerate_bicliques(&graphs[g]);
        let mut k: usize = 0;
        while k < bicliques.len()
            invariant
                k <= bicliques@.len(),
                g < graphs@.len(),
            decreases bicliques.len() - k,
        {
            let record = CandidateRecord { graph: graphs[g].clone(), biclique: bicliques[k].clone() };
            match normalize_candidate_record(def, record) {
                Some(n) => candidates.push(n),
                None => {},
            }
            k = k + 1;
        }
        g = g + 1;
    }
    candidates
}

/// The action space of the first definition, from position `start_from`
/// on, that has at least two terms and a candidate that fits it and
/// factorises: each such candidate with its template (side tensors taking
/// the next two tensor ids). `None` when no definition qualifies.
pub fn next_action_space(comp: &TensorComputation, start_from: usize) -> (r: Option<ActionSpace>)
    ensures
        r matches Some(space) ==> {
            let defs = comp.spec_definitions();
            let def = &defs[space.def_index as int];
            let (lt, rt) = fresh_ids(comp.spec_tensors().len() as int);
            &&& start_from <= space.def_index < defs.len()
            &&& def.terms@.len() >= 2
            &&& space.candidate_templates@.len() == space.candidates@.len()
            &&& space.candidates@.len() > 0
            &&& forall|k: int| 0 <= k < space.candidates@.len() ==> {
                &&& record_valid(def, #[trigger] &space.candidates@[k])
                &&& factorization_ok(def, &space.candidates@[k].graph, space.candidates@[k].biclique@, TensorId(lt), TensorId(rt),
                    space.candidate_templates@[k]@)
            }
        },
{
    let (left_tid, right_tid) = fresh_rewrite_tensor_ids(comp);
    let defs = comp.definitions();
    let mut def_index: usize = start_from;
    while def_index < defs.len()
        invariant
            defs@ == comp.spec_definitions(),
            (left_tid.0, right_tid.0) == fresh_ids(comp.spec_tensors().len() as int),
            start_from <= def_index,
        decreases defs.len() - def_index,
    {
        let def = &defs[def_index];
        if def.terms.len() >= 2 {
            let mut candidates = enumerate_candidate_records(comp, def);
            let mut valid: Vec<CandidateRecord> = Vec::new();
            let mut templates: Vec<Factorization> = Vec::new();
            while candidates.len() > 0
                invariant
                    valid@.len() == templates@.len(),
                    forall|m: int| 0 <= m < valid@.len() ==> {
                        &&& record_valid(def, #[trigger] &valid@[m])
                        &&& factorization_ok(def, &valid@[m].graph, valid@[m].biclique@, left_tid, right_tid, templates@[m]@)
                    },
                decreases candidates.len(),
            {
                let cand = candidates.remove(0);
                if check_candidate(def, &cand).is_ok() {
                    match export_candidate_template(def, &cand, left_tid, right_tid) {
                        Ok(f) => {
                            templates.push(f);
                            valid.push(cand);
                        },
                        Err(_) => {},
                    }
                }
            }
            if valid.len() > 0 {
                return Some(ActionSpace { def_index, candidate_templates: templates, candidates: valid });
            }
        }
        def_index = def_index + 1;
    }
    None
}


/// The positions (among the first `k`) whose mask entry is set.
pub open spec fn mask_positions(m: Seq<bool>, k: int) -> Seq<int>
    decreases k,
{
    if k <= 0 {
        seq![]
    } else if m[k - 1] {
        mask_positions(m, k - 1).push(k - 1)
    } else {
        mask_positions(m, k - 1)
    }
}

proof fn lemma_masked_positions<T>(s: Seq<T>, m: Seq<bool>, k: int)
    requires
        0 <= k <= s.len(),
        k <= m.len(),
    ensures
        masked_upto(s, m, k).len() == mask_positions(m, k).len(),
        forall|x: int| 0 <= x < mask_positions(m, k).len() ==> 0 <= #[trigger] mask_positions(m, k)[x] < k
            && masked_upto(s, m, k)[x] == s[mask_positions(m, k)[x]],
    decreases k,
{
    if k > 0 {
        lemma_masked_positions(s, m, k - 1);
    }
}

proof fn lemma_mask_positions_nonempty(m: Seq<bool>, k: int, p: int)
    requires
        0 <= p < k <= m.len(),
        m[p],
    ensures
        mask_positions(m, k).len() > 0,
    decreases k,
{
    if p < k - 1 {
        lemma_mask_positions_nonempty(m, k - 1, p);
    }
}

proof fn lemma_selected_terms_below(edges: Seq<GraphEdge>, ls: Seq<usize>, rs: Seq<usize>, k: int, n: int)
    requires
        0 <= k <= edges.len(),
        forall|e: int| 0 <= e < edges.len() ==> bits_below((#[trigger] edges[e]).terms_used, n),
    ensures
        bits_below(selected_terms(edges, ls, rs, k), n),
    decreases k,
{
    if k <= 0 {
        assert forall|i: u64| i < 64 && #[trigger] bit(0u64, i) implies i < n by {
            crate::bits::lemma_bit_zero(i);
        }
    } else {
        lemma_selected_terms_below(edges, ls, rs, k - 1, n);
        let prev = selected_terms(edges, ls, rs, k - 1);
        let e = edges[k - 1];
        if ls.contains(e.left_id) && rs.contains(e.right_id) {
            assert forall|i: u64| i < 64 && #[trigger] bit(prev | e.terms_used, i) implies i < n by {
                crate::bits::lemma_bit_or(prev, e.terms_used, i);
            }
        }
    }
}

/// A decision that fits its candidate's template selects a buildable
/// sub-biclique whose coefficients fit whenever the candidate's do.
proof fn lemma_sub_buildable(def: &TensorDef, rec: &CandidateRecord, d: &Decision)
    requires
        record_valid(def, rec),
        d.left_mask@.len() == rec.biclique.left_node_ids@.len(),
        d.right_mask@.len() == rec.biclique.right_node_ids@.len(),
        any_set(d.left_mask@),
        any_set(d.right_mask@),
    ensures
        buildable(def, &rec.graph, sub_model(rec, d)),
        all_fit(rec.graph.left_nodes@, rec.biclique.left_node_ids@, rec.biclique.left_coeffs@)
            ==> all_fit(rec.graph.left_nodes@, sub_model(rec, d).left_node_ids, sub_model(rec, d).left_coeffs),
        all_fit(rec.graph.right_nodes@, rec.biclique.right_node_ids@, rec.biclique.right_coeffs@)
            ==> all_fit(rec.graph.right_nodes@, sub_model(rec, d).right_node_ids, sub_model(rec, d).right_coeffs),
{
    let g = &rec.graph;
    let b = rec.biclique@;
    let sb = sub_model(rec, d);
    let nl = b.left_node_ids.len() as int;
    let nr = b.right_node_ids.len() as int;
    let lm = d.left_mask@;
    let rm = d.right_mask@;
    lemma_masked_positions(b.left_node_ids, lm, nl);
    lemma_masked_positions(b.left_coeffs, lm, nl);
    lemma_masked_positions(b.right_node_ids, rm, nr);
    lemma_masked_positions(b.right_coeffs, rm, nr);
    assert(sb.left_node_ids == masked_upto(b.left_node_ids, lm, nl));
    assert(sb.left_coeffs == masked_upto(b.left_coeffs, lm, nl));
    assert(sb.right_node_ids == masked_upto(b.right_node_ids, rm, nr));
    assert(sb.right_coeffs == masked_upto(b.right_coeffs, rm, nr));
    let pl = mask_positions(lm, nl);
    let pr = mask_positions(rm, nr);
    let wl = choose|k: int| 0 <= k < lm.len() && #[trigger] lm[k];
    let wr = choose|k: int| 0 <= k < rm.len() && #[trigger] rm[k];
    lemma_mask_positions_nonempty(lm, nl, wl);
    lemma_mask_positions_nonempty(rm, nr, wr);
    let flat = flat_sums(def@.terms);
    assert(rect_ok(flat, g, b));
    let l0 = b.left_node_ids[0];
    let r0 = b.right_node_ids[0];
    let sl0 = sb.left_node_ids[0];
    let sr0 = sb.right_node_ids[0];
    assert(sl0 == b.left_node_ids[pl[0]]);
    assert(sr0 == b.right_node_ids[pr[0]]);
    assert forall|i: int| 0 <= i < sb.left_node_ids.len() implies #[trigger] sb.left_node_ids[i] < g.left_nodes@.len() by {
        assert(sb.left_node_ids[i] == b.left_node_ids[pl[i]]);
    }
    assert forall|j: int| 0 <= j < sb.right_node_ids.len() implies #[trigger] sb.right_node_ids[j] < g.right_nodes@.len() by {
        assert(sb.right_node_ids[j] == b.right_node_ids[pr[j]]);
    }
    assert forall|i: int, j: int| 0 <= i < sb.left_node_ids.len() && 0 <= j < sb.right_node_ids.len() implies
        has_edge(g.edges@, #[trigger] sb.left_node_ids[i], #[trigger] sb.right_node_ids[j]) by {
        assert(sb.left_node_ids[i] == b.left_node_ids[pl[i]]);
        assert(sb.right_node_ids[j] == b.right_node_ids[pr[j]]);
        assert(has_edge(g.edges@, b.left_node_ids[pl[i]], b.right_node_ids[pr[j]]));
    }
    assert forall|i: int, j: int| 0 <= i < sb.left_node_ids.len() && 0 <= j < sb.right_node_ids.len() implies same_interface(
        g.left_nodes@[#[trigger] sb.left_node_ids[i] as int]@,
        g.right_nodes@[#[trigger] sb.right_node_ids[j] as int]@,
        g.left_nodes@[sl0 as int]@,
        g.right_nodes@[sr0 as int]@,
        flat,
    ) by {
        assert(sb.left_node_ids[i] == b.left_node_ids[pl[i]]);
        assert(sb.right_node_ids[j] == b.right_node_ids[pr[j]]);
        let li = b.left_node_ids[pl[i]];
        let rj = b.right_node_ids[pr[j]];
        assert(same_interface(g.left_nodes@[li as int]@, g.right_nodes@[rj as int]@, g.left_nodes@[l0 as int]@, g.right_nodes@[r0 as int]@, flat));
        assert(same_interface(g.left_nodes@[sl0 as int]@, g.right_nodes@[sr0 as int]@, g.left_nodes@[l0 as int]@, g.right_nodes@[r0 as int]@, flat));
        assert forall|x: Index| #[trigger] in_interface(g.left_nodes@[li as int]@, g.right_nodes@[rj as int]@, flat, x)
            == in_interface(g.left_nodes@[sl0 as int]@, g.right_nodes@[sr0 as int]@, flat, x) by {
            assert(in_interface(g.left_nodes@[li as int]@, g.right_nodes@[rj as int]@, flat, x)
                == in_interface(g.left_nodes@[l0 as int]@, g.right_nodes@[r0 as int]@, flat, x));
            assert(in_interface(g.left_nodes@[sl0 as int]@, g.right_nodes@[sr0 as int]@, flat, x)
                == in_interface(g.left_nodes@[l0 as int]@, g.right_nodes@[r0 as int]@, flat, x));
        }
    }
    assert(rect_ok(flat, g, sb));
    lemma_selected_terms_below(g.edges@, sb.left_node_ids, sb.right_node_ids, g.edges@.len() as int, def.terms@.len() as int);
    if all_fit(g.left_nodes@, b.left_node_ids, b.left_coeffs) {
        assert forall|k: int| 0 <= k < sb.left_node_ids.len() implies fits_mul(g.left_nodes@[#[trigger] sb.left_node_ids[k] as int].coeff, sb.left_coeffs[k]) by {
            assert(sb.left_node_ids[k] == b.left_node_ids[pl[k]]);
            assert(sb.left_coeffs[k] == b.left_coeffs[pl[k]]);
            assert(fits_mul(g.left_nodes@[b.left_node_ids[pl[k]] as int].coeff, b.left_coeffs[pl[k]]));
        }
    }
    if all_fit(g.right_nodes@, b.right_node_ids, b.right_coeffs) {
        assert forall|k: int| 0 <= k < sb.right_node_ids.len() implies fits_mul(g.right_nodes@[#[trigger] sb.right_node_ids[k] as int].coeff, sb.right_coeffs[k]) by {
            assert(sb.right_node_ids[k] == b.right_node_ids[pr[k]]);
            assert(sb.right_coeffs[k] == b.right_coeffs[pr[k]]);
            assert(fits_mul(g.right_nodes@[b.right_node_ids[pr[k]] as int].coeff, b.right_coeffs[pr[k]]));
        }
    }
}

/// The sub-biclique a decision selects from a candidate.
pub open spec fn sub_model(rec: &CandidateRecord, d: &Decision) -> BicliqueModel {
    let ls = masked(rec.biclique.left_node_ids@, d.left_mask@);
    let rs = masked(rec.biclique.right_node_ids@, d.right_mask@);
    BicliqueModel {
        left_node_ids: ls,
        right_node_ids: rs,
        left_coeffs: masked(rec.biclique.left_coeffs@, d.left_mask@),
        right_coeffs: masked(rec.biclique.right_coeffs@, d.right_mask@),
        terms_used: selected_terms(rec.graph.edges@, ls, rs, rec.graph.edges@.len() as int),
    }
}

/// Keeping every entry keeps the whole prefix.
proof fn lemma_masked_all<T>(s: Seq<T>, m: Seq<bool>, k: int)
    requires
        0 <= k <= s.len(),
        k <= m.len(),
        forall|i: int| 0 <= i < k ==> #[trigger] m[i],
    ensures
        masked_upto(s, m, k) == s.take(k),
    decreases k,
{
    if k > 0 {
        lemma_masked_all(s, m, k - 1);
        assert(s.take(k - 1).push(s[k - 1]) =~= s.take(k));
    }
}

/// A decision that keeps every node of its candidate asks for the
/// candidate's own factorisation: when the edges joining the candidate's
/// nodes use exactly the candidate's terms, a factorisation of the selected
/// sub-biclique is the candidate's template.
pub proof fn lemma_full_decision_reproduces_template(
    def: &TensorDef,
    rec: &CandidateRecord,
    d: &Decision,
    lt: TensorId,
    rt: TensorId,
    f: FactorizationModel,
    template: FactorizationModel,
)
    requires
        rec.biclique.left_coeffs@.len() == rec.biclique.left_node_ids@.len(),
        rec.biclique.right_coeffs@.len() == rec.biclique.right_node_ids@.len(),
        d.left_mask@.len() == rec.biclique.left_node_ids@.len(),
        d.right_mask@.len() == rec.biclique.right_node_ids@.len(),
        forall|k: int| 0 <= k < d.left_mask@.len() ==> #[trigger] d.left_mask@[k],
        forall|k: int| 0 <= k < d.right_mask@.len() ==> #[trigger] d.right_mask@[k],
        selected_terms(rec.graph.edges@, rec.biclique.left_node_ids@, rec.biclique.right_node_ids@, rec.graph.edges@.len() as int)
            == rec.biclique.terms_used,
        factorization_ok(def, &rec.graph, rec.biclique@, lt, rt, template),
        factorization_ok(def, &rec.graph, sub_model(rec, d), lt, rt, f),
    ensures
        f == template,
{
    let b = rec.biclique@;
    lemma_masked_all(b.left_node_ids, d.left_mask@, b.left_node_ids.len() as int);
    lemma_masked_all(b.right_node_ids, d.right_mask@, b.right_node_ids.len() as int);
    lemma_masked_all(b.left_coeffs, d.left_mask@, b.left_coeffs.len() as int);
    lemma_masked_all(b.right_coeffs, d.right_mask@, b.right_coeffs.len() as int);
    assert(b.left_node_ids.take(b.left_node_ids.len() as int) =~= b.left_node_ids);
    assert(b.right_node_ids.take(b.right_node_ids.len() as int) =~= b.right_node_ids);
    assert(b.left_coeffs.take(b.left_coeffs.len() as int) =~= b.left_coeffs);
    assert(b.right_coeffs.take(b.right_coeffs.len() as int) =~= b.right_coeffs);
    assert(sub_model(rec, d) == b);
    lemma_factorization_unique(def, &rec.graph, b, lt, rt, f, template);
}

/// The rewrite a decision asks for: the factorisation of the space's
/// definition by the selected sub-biclique of the chosen candidate, with the
/// next two tensor ids. Refused when the definition is gone, the decision
/// does not fit the space, the candidate does not fit the definition (or
/// cannot be factorised), or its template no longer is what the candidate
/// gives.
pub fn build_rewrite_from_decision(comp: &TensorComputation, space: &ActionSpace, decision: &Decision) -> (r: Result<FactorizationRewrite, String>)
    ensures
        space.def_index >= comp.spec_definitions().len() ==> (r matches Err(m) && m@ == error_text(
            ActionError::DefIndexOutOfRange { index: space.def_index, count: comp.spec_definitions().len() as usize },
        )),
        space.def_index < comp.spec_definitions().len() && decision_error(space.candidate_templates@, *decision) is Some
            ==> (r matches Err(m) && m@ == error_text(decision_error(space.candidate_templates@, *decision)->0)),
        r matches Ok(rw) ==> {
            let def = &comp.spec_definitions()[space.def_index as int];
            let (lt, rt) = fresh_ids(comp.spec_tensors().len() as int);
            let ci = decision.candidate_index as int;
            &&& rw.def_index == space.def_index
            &&& space.def_index < comp.spec_definitions().len()
            &&& decision_error(space.candidate_templates@, *decision) is None
            &&& ci < space.candidates@.len()
            &&& record_valid(def, &space.candidates@[ci])
            &&& factorization_ok(def, &space.candidates@[ci].graph, space.candidates@[ci].biclique@, TensorId(lt), TensorId(rt),
                space.candidate_templates@[ci]@)
            &&& factorization_ok(def, &space.candidates@[ci].graph, sub_model(&space.candidates@[ci], decision), TensorId(lt),
                TensorId(rt), rw.factorization@)
        },
        ({
            let defs = comp.spec_definitions();
            let ci = decision.candidate_index as int;
            let def = &defs[space.def_index as int];
            let rec = &space.candidates@[ci];
            let (lt, rt) = fresh_ids(comp.spec_tensors().len() as int);
            &&& space.def_index < defs.len()
            &&& decision_error(space.candidate_templates@, *decision) is None
            &&& ci < space.candidates@.len()
            &&& record_valid(def, rec)
            &&& buildable(def, &rec.graph, rec.biclique@)
            &&& all_fit(rec.graph.left_nodes@, rec.biclique.left_node_ids@, rec.biclique.left_coeffs@)
            &&& all_fit(rec.graph.right_nodes@, rec.biclique.right_node_ids@, rec.biclique.right_coeffs@)
            &&& forall|f: FactorizationModel| #[trigger] factorization_ok(def, &rec.graph, rec.biclique@, TensorId(lt), TensorId(rt), f)
                ==> f != space.candidate_templates@[ci]@
        }) ==> (r matches Err(m) && m@ == error_text(ActionError::TemplateMismatch { index: decision.candidate_index })),
        r is Err ==> {
            let defs = comp.spec_definitions();
            let ci = decision.candidate_index as int;
            ||| space.def_index >= defs.len()
            ||| decision_error(space.candidate_templates@, *decision) is Some
            ||| ci >= space.candidates@.len()
            ||| {
                let def = &defs[space.def_index as int];
                let rec = &space.candidates@[ci];
                let (lt, rt) = fresh_ids(comp.spec_tensors().len() as int);
                ||| !record_valid(def, rec)
                ||| !bits_below(rec.biclique.terms_used, def.terms@.len() as int)
                ||| !all_fit(rec.graph.left_nodes@, rec.biclique.left_node_ids@, rec.biclique.left_coeffs@)
                ||| !all_fit(rec.graph.right_nodes@, rec.biclique.right_node_ids@, rec.biclique.right_coeffs@)
                ||| exists|f: FactorizationModel| #[trigger] factorization_ok(def, &rec.graph, rec.biclique@, TensorId(lt), TensorId(rt), f)
                    && f != space.candidate_templates@[ci]@
            }
        },
{
    let defs = comp.definitions();
    if space.def_index >= defs.len() {
        let e = ActionError::DefIndexOutOfRange { index: space.def_index, count: defs.len() };
        return Err(e.message());
    }
    let def = &defs[space.def_index];
    match check_decision(space, decision) {
        Ok(()) => {},
        Err(e) => return Err(e.message()),
    }
    let ci = decision.candidate_index;
    let template = &space.candidate_templates[ci];
    if ci >= space.candidates.len() {
        let e = ActionError::CandidateIndexOutOfRange { index: ci, count: space.candidates.len() };
        return Err(e.message());
    }
    let record = &space.candidates[ci];
    match check_candidate(def, record) {
        Ok(()) => {},
        Err(e) => return Err(e.message()),
    }
    let (left_tid, right_tid) = fresh_rewrite_tensor_ids(comp);
    let expected = match export_candidate_template(def, record, left_tid, right_tid) {
        Ok(f) => f,
        Err(e) => return Err(e.message()),
    };
    if !template.same(&expected) {
        proof {
            let (lt, rt) = fresh_ids(comp.spec_tensors().len() as int);
            assert(left_tid == TensorId(lt) && right_tid == TensorId(rt));
            assert(factorization_ok(def, &record.graph, record.biclique@, TensorId(lt), TensorId(rt), expected@));
            assert(expected@ != space.candidate_templates@[ci as int]@);
        }
        let e = ActionError::TemplateMismatch { index: ci };
        return Err(e.message());
    }
    let sub = sub_biclique_from_decision(record, decision);
    assert(sub@ == sub_model(record, decision));
    let factorization = match build_factorization(def, &record.graph, &sub, left_tid, right_tid) {
        Ok(f) => f,
        Err(e) => {
            proof {
                let b = record.biclique@;
                let f = expected@;
                assert(factorization_ok(def, &record.graph, b, left_tid, right_tid, f));
                let c = choose|c: Seq<Index>| {
                    &&& #[trigger] is_interface(
                        c,
                        record.graph.left_nodes@[b.left_node_ids[0] as int]@,
                        record.graph.right_nodes@[b.right_node_ids[0] as int]@,
                        flat_sums(def@.terms),
                    )
                    &&& side_definition_ok(record.graph.left_nodes@, b.left_node_ids, b.left_coeffs,
                        indices_at_bits(record.graph.last_step.left_ext, def.ext_indices@, 64), c, left_tid, f.left_definition)
                    &&& side_definition_ok(record.graph.right_nodes@, b.right_node_ids, b.right_coeffs,
                        indices_at_bits(record.graph.last_step.right_ext, def.ext_indices@, 64), c, right_tid, f.right_definition)
                    &&& rewritten_ok(def@, f.left_definition, f.right_definition, c, b.terms_used, f.rewritten_definition)
                };
                let (ul, ol) = choose|u: Seq<TermModel>, order: Seq<usize>| side_terms_ok(record.graph.left_nodes@, b.left_node_ids, b.left_coeffs, c, u)
                    && #[trigger] stably_sorted_by_key(u, f.left_definition.terms, order);
                let (ur, or) = choose|u: Seq<TermModel>, order: Seq<usize>| side_terms_ok(record.graph.right_nodes@, b.right_node_ids, b.right_coeffs, c, u)
                    && #[trigger] stably_sorted_by_key(u, f.right_definition.terms, order);
                assert(template@ == f);
                assert(template.left_definition.terms@.len() == f.left_definition.terms.len());
                assert(template.right_definition.terms@.len() == f.right_definition.terms.len());
                lemma_sub_buildable(def, record, decision);
            }
            return Err(e.message());
        },
    };
    Ok(FactorizationRewrite { def_index: space.def_index, factorization })
}

} // verus!
