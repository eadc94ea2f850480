//! The tensor-computation representation: ranges, indices, tensors with
//! permutation symmetry, terms, definitions, and the computation container.
use vstd::prelude::*;

use crate::rational::Rational;

verus! {

// ---------------------------------------------------------------------------
// ID newtypes
// ---------------------------------------------------------------------------

#[derive(Clone, Copy, Debug, PartialEq, Eq, Structural, Hash, PartialOrd, Ord)]
pub struct RangeId(pub u32);

#[derive(Clone, Copy, Debug, PartialEq, Eq, Structural, Hash, PartialOrd, Ord)]
pub struct IndexId(pub u32);

#[derive(Clone, Copy, Debug, PartialEq, Eq, Structural, Hash, PartialOrd, Ord)]
pub struct TensorId(pub u32);

// ---------------------------------------------------------------------------
// Symmetry
// ---------------------------------------------------------------------------

/// Action on a coefficient when the index slots of a tensor are permuted.
#[derive(Clone, Copy, Debug, PartialEq, Eq, Structural, Hash)]
pub enum SymAction {
    Identity,
    Negate,
    Conjugate,
    NegateConjugate,
}

/// (negates, conjugates) of an action.
pub open spec fn sym_bits(a: SymAction) -> (bool, bool) {
    match a {
        SymAction::Identity => (false, false),
        SymAction::Negate => (true, false),
        SymAction::Conjugate => (false, true),
        SymAction::NegateConjugate => (true, true),
    }
}

pub open spec fn sym_from_bits(negate: bool, conjugate: bool) -> SymAction {
    if !negate && !conjugate {
        SymAction::Identity
    } else if negate && !conjugate {
        SymAction::Negate
    } else if !negate && conjugate {
        SymAction::Conjugate
    } else {
        SymAction::NegateConjugate
    }
}

/// Composition of two actions: negations and conjugations cancel in pairs.
pub open spec fn sym_combine(a: SymAction, b: SymAction) -> SymAction {
    sym_from_bits(sym_bits(a).0 != sym_bits(b).0, sym_bits(a).1 != sym_bits(b).1)
}

impl SymAction {
    pub fn combine(self, other: SymAction) -> (r: SymAction)
        ensures
            r == sym_combine(self, other),
    {
        let (sn, sc) = self.to_bits();
        let (on, oc) = other.to_bits();
        Self::from_bits(sn ^ on, sc ^ oc)
    }

    fn to_bits(self) -> (r: (bool, bool))
        ensures
            r == sym_bits(self),
    {
        match self {
            SymAction::Identity => (false, false),
            SymAction::Negate => (true, false),
            SymAction::Conjugate => (false, true),
            SymAction::NegateConjugate => (true, true),
        }
    }

    fn from_bits(negate: bool, conjugate: bool) -> (r: SymAction)
        ensures
            r == sym_from_bits(negate, conjugate),
    {
        match (negate, conjugate) {
            (false, false) => SymAction::Identity,
            (true, false) => SymAction::Negate,
            (false, true) => SymAction::Conjugate,
            (true, true) => SymAction::NegateConjugate,
        }
    }
}

/// `Identity` is a neutral element of `combine`, on either side.
pub proof fn lemma_combine_identity(a: SymAction)
    ensures
        sym_combine(SymAction::Identity, a) == a,
        sym_combine(a, SymAction::Identity) == a,
{
}

/// `combine` is commutative.
pub proof fn lemma_combine_commutative(a: SymAction, b: SymAction)
    ensures
        sym_combine(a, b) == sym_combine(b, a),
{
}

/// `combine` is associative.
pub proof fn lemma_combine_associative(a: SymAction, b: SymAction, c: SymAction)
    ensures
        sym_combine(sym_combine(a, b), c) == sym_combine(a, sym_combine(b, c)),
{
}

/// Every action is its own inverse: applying it twice gives `Identity`.
pub proof fn lemma_combine_self_inverse(a: SymAction)
    ensures
        sym_combine(a, a) == SymAction::Identity,
{
}

/// A generator of a tensor's symmetry group: a permutation of index slots
/// together with the action it has on the coefficient.
#[derive(Debug, PartialEq, Eq, Hash)]
pub struct SymGenerator {
    pub perm: Vec<usize>,
    pub action: SymAction,
}

pub struct GenModel {
    pub perm: Seq<usize>,
    pub action: SymAction,
}

impl View for SymGenerator {
    type V = GenModel;

    open spec fn view(&self) -> GenModel {
        GenModel { perm: self.perm@, action: self.action }
    }
}

pub open spec fn gen_models(gs: Seq<SymGenerator>) -> Seq<GenModel> {
    gs.map_values(|g: SymGenerator| g@)
}

/// `perm` is a list of positions into a sequence of length `n`.
pub open spec fn perm_in_bounds(perm: Seq<usize>, n: int) -> bool {
    forall|i: int| 0 <= i < perm.len() ==> #[trigger] perm[i] < n
}

/// `indices` rearranged by `perm`: position `i` receives `indices[perm[i]]`.
pub open spec fn permute<T>(perm: Seq<usize>, indices: Seq<T>) -> Seq<T> {
    Seq::new(perm.len(), |i: int| indices[perm[i] as int])
}

impl SymGenerator {
    pub fn apply<T: Copy>(&self, indices: &[T]) -> (r: (Vec<T>, SymAction))
        requires
            self.perm.len() == indices@.len(),
            perm_in_bounds(self.perm@, indices@.len() as int),
        ensures
            r.0@ == permute(self.perm@, indices@),
            r.1 == self.action,
    {
        let mut permuted: Vec<T> = Vec::new();
        let mut i: usize = 0;
        while i < self.perm.len()
            invariant
                i <= self.perm.len(),
                self.perm.len() == indices@.len(),
                perm_in_bounds(self.perm@, indices@.len() as int),
                permuted@ == permute(self.perm@, indices@).take(i as int),
            decreases self.perm.len() - i,
        {
            let p = self.perm[i];
            permuted.push(indices[p]);
            i = i + 1;
            assert(permuted@ =~= permute(self.perm@, indices@).take(i as int));
        }
        assert(permuted@ =~= permute(self.perm@, indices@));
        (permuted, self.action)
    }
}

impl Clone for SymGenerator {
    fn clone(&self) -> (r: Self)
        ensures
            r@ == self@,
    {
        SymGenerator { perm: copy_vec(&self.perm), action: self.action }
    }
}

// ---------------------------------------------------------------------------
// Tensor data structures
// ---------------------------------------------------------------------------

#[derive(Clone, Copy, Debug, PartialEq, Eq, Structural, Hash)]
pub struct Range {
    pub id: RangeId,
    pub size: u64,
}

#[derive(Clone, Copy, Debug, PartialEq, Eq, Structural, Hash)]
pub struct Index {
    pub id: IndexId,
    pub range: RangeId,
}

#[derive(Debug, PartialEq, Eq)]
pub struct TensorInfo {
    pub id: TensorId,
    pub slots: Vec<RangeId>,
    pub symmetry: Vec<SymGenerator>,
}

pub struct InfoModel {
    pub id: TensorId,
    pub slots: Seq<RangeId>,
    pub symmetry: Seq<GenModel>,
}

impl View for TensorInfo {
    type V = InfoModel;

    open spec fn view(&self) -> InfoModel {
        InfoModel {
            id: self.id,
            slots: self.slots@,
            symmetry: gen_models(self.symmetry@),
        }
    }
}

impl Clone for TensorInfo {
    fn clone(&self) -> (r: Self)
        ensures
            r@ == self@,
    {
        let mut symmetry: Vec<SymGenerator> = Vec::new();
        let mut i: usize = 0;
        while i < self.symmetry.len()
            invariant
                i <= self.symmetry.len(),
                symmetry@.len() == i,
                forall|k: int| 0 <= k < i ==> (#[trigger] symmetry@[k])@ == self.symmetry@[k]@,
            decreases self.symmetry.len() - i,
        {
            symmetry.push(self.symmetry[i].clone());
            i = i + 1;
        }
        assert(gen_models(symmetry@) =~= gen_models(self.symmetry@));
        TensorInfo { id: self.id, slots: copy_vec(&self.slots), symmetry }
    }
}

/// One factor of a product: a tensor applied to concrete indices.
#[derive(Debug, PartialEq, Eq, Hash)]
pub struct Factor {
    pub tensor: TensorId,
    pub indices: Vec<IndexId>,
}

pub struct FactorModel {
    pub tensor: TensorId,
    pub indices: Seq<IndexId>,
}

impl View for Factor {
    type V = FactorModel;

    open spec fn view(&self) -> FactorModel {
        FactorModel { tensor: self.tensor, indices: self.indices@ }
    }
}

impl Clone for Factor {
    fn clone(&self) -> (r: Self)
        ensures
            r@ == self@,
    {
        Factor { tensor: self.tensor, indices: copy_vec(&self.indices) }
    }
}

impl Factor {
    /// Equality of the two factors' contents.
    pub fn same(&self, other: &Factor) -> (r: bool)
        ensures
            r == (self@ == other@),
    {
        self.tensor.0 == other.tensor.0 && ids_equal(&self.indices, &other.indices)
    }
}

/// A rational coefficient times a product of factors, summed over its own
/// summation indices.
#[derive(Debug, PartialEq, Eq, Hash)]
pub struct Term {
    pub coeff: Rational,
    pub sum_indices: Vec<Index>,
    pub factors: Vec<Factor>,
}

pub struct TermModel {
    pub coeff: Rational,
    pub sum_indices: Seq<Index>,
    pub factors: Seq<FactorModel>,
}

pub open spec fn factor_models(fs: Seq<Factor>) -> Seq<FactorModel> {
    fs.map_values(|f: Factor| f@)
}

impl View for Term {
    type V = TermModel;

    open spec fn view(&self) -> TermModel {
        TermModel {
            coeff: self.coeff,
            sum_indices: self.sum_indices@,
            factors: factor_models(self.factors@),
        }
    }
}

/// A copy of `fs` with the same contents.
pub fn clone_factors(fs: &Vec<Factor>) -> (r: Vec<Factor>)
    ensures
        factor_models(r@) == factor_models(fs@),
{
    let mut out: Vec<Factor> = Vec::new();
    let mut i: usize = 0;
    while i < fs.len()
        invariant
            i <= fs.len(),
            out@.len() == i,
            forall|k: int| 0 <= k < i ==> (#[trigger] out@[k])@ == fs@[k]@,
        decreases fs.len() - i,
    {
        out.push(fs[i].clone());
        i = i + 1;
    }
    assert(factor_models(out@) =~= factor_models(fs@));
    out
}

impl Clone for Term {
    fn clone(&self) -> (r: Self)
        ensures
            r@ == self@,
    {
        Term {
            coeff: self.coeff,
            sum_indices: copy_vec(&self.sum_indices),
            factors: clone_factors(&self.factors),
        }
    }
}

/// A tensor definition `base[ext_indices] = term_1 + term_2 + ...`.
#[derive(Debug, PartialEq, Eq)]
pub struct TensorDef {
    pub base: TensorId,
    pub ext_indices: Vec<Index>,
    pub terms: Vec<Term>,
}

pub struct DefModel {
    pub base: TensorId,
    pub ext_indices: Seq<Index>,
    pub terms: Seq<TermModel>,
}

pub open spec fn term_models(ts: Seq<Term>) -> Seq<TermModel> {
    ts.map_values(|t: Term| t@)
}

impl View for TensorDef {
    type V = DefModel;

    open spec fn view(&self) -> DefModel {
        DefModel { base: self.base, ext_indices: self.ext_indices@, terms: term_models(self.terms@) }
    }
}

/// A copy of `ts` with the same contents.
pub fn clone_terms(ts: &Vec<Term>) -> (r: Vec<Term>)
    ensures
        term_models(r@) == term_models(ts@),
{
    let mut out: Vec<Term> = Vec::new();
    let mut i: usize = 0;
    while i < ts.len()
        invariant
            i <= ts.len(),
            out@.len() == i,
            forall|k: int| 0 <= k < i ==> (#[trigger] out@[k])@ == ts@[k]@,
        decreases ts.len() - i,
    {
        out.push(ts[i].clone());
        i = i + 1;
    }
    assert(term_models(out@) =~= term_models(ts@));
    out
}

impl Clone for TensorDef {
    fn clone(&self) -> (r: Self)
        ensures
            r@ == self@,
    {
        TensorDef {
            base: self.base,
            ext_indices: copy_vec(&self.ext_indices),
            terms: clone_terms(&self.terms),
        }
    }
}

pub open spec fn def_models(ds: Seq<TensorDef>) -> Seq<DefModel> {
    ds.map_values(|d: TensorDef| d@)
}

pub open spec fn info_models(ts: Seq<TensorInfo>) -> Seq<InfoModel> {
    ts.map_values(|t: TensorInfo| t@)
}

// ---------------------------------------------------------------------------
// Small helpers on vectors of plain values
// ---------------------------------------------------------------------------

/// An element-by-element copy of `v`.
pub fn copy_vec<T: Copy>(v: &Vec<T>) -> (r: Vec<T>)
    ensures
        r@ == v@,
{
    let mut out: Vec<T> = Vec::new();
    let mut i: usize = 0;
    while i < v.len()
        invariant
            i <= v.len(),
            out@ == v@.take(i as int),
        decreases v.len() - i,
    {
        out.push(v[i]);
        i = i + 1;
        assert(out@ =~= v@.take(i as int));
    }
    assert(v@.take(v.len() as int) =~= v@);
    out
}

/// Whether two index lists are equal.
pub fn ids_equal(a: &Vec<IndexId>, b: &Vec<IndexId>) -> (r: bool)
    ensures
        r == (a@ == b@),
{
    if a.len() != b.len() {
        return false;
    }
    let mut i: usize = 0;
    while i < a.len()
        invariant
            i <= a.len(),
            a.len() == b.len(),
            forall|k: int| 0 <= k < i ==> a@[k] == b@[k],
        decreases a.len() - i,
    {
        if a[i].0 != b[i].0 {
            return false;
        }
        i = i + 1;
    }
    assert(a@ =~= b@);
    true
}

/// Whether two lists of (index, range) pairs are equal.
pub fn indices_equal(a: &Vec<Index>, b: &Vec<Index>) -> (r: bool)
    ensures
        r == (a@ == b@),
{
    if a.len() != b.len() {
        return false;
    }
    let mut i: usize = 0;
    while i < a.len()
        invariant
            i <= a.len(),
            a.len() == b.len(),
            forall|k: int| 0 <= k < i ==> a@[k] == b@[k],
        decreases a.len() - i,
    {
        if a[i].id.0 != b[i].id.0 || a[i].range.0 != b[i].range.0 {
            return false;
        }
        i = i + 1;
    }
    assert(a@ =~= b@);
    true
}

impl Term {
    /// Equality of the two terms' contents.
    pub fn same(&self, other: &Term) -> (r: bool)
        ensures
            r == (self@ == other@),
    {
        if !self.coeff.equals(&other.coeff) || !indices_equal(&self.sum_indices, &other.sum_indices)
            || self.factors.len() != other.factors.len() {
            proof {
                if self@ == other@ {
                    assert(self.factors@.len() == factor_models(self.factors@).len());
                }
            }
            return false;
        }
        let mut i: usize = 0;
        while i < self.factors.len()
            invariant
                i <= self.factors.len(),
                self.factors.len() == other.factors.len(),
                forall|k: int| 0 <= k < i ==> self.factors@[k]@ == other.factors@[k]@,
            decreases self.factors.len() - i,
        {
            if !self.factors[i].same(&other.factors[i]) {
                proof {
                    assert(factor_models(self.factors@)[i as int] == self.factors@[i as int]@);
                }
                return false;
            }
            i = i + 1;
        }
        assert(factor_models(self.factors@) =~= factor_models(other.factors@));
        true
    }
}

impl TensorDef {
    /// Equality of the two definitions' contents.
    pub fn same(&self, other: &TensorDef) -> (r: bool)
        ensures
            r == (self@ == other@),
    {
        if self.base.0 != other.base.0 || !indices_equal(&self.ext_indices, &other.ext_indices)
            || self.terms.len() != other.terms.len() {
            proof {
                if self@ == other@ {
                    assert(self.terms@.len() == term_models(self.terms@).len());
                }
            }
            return false;
        }
        let mut i: usize = 0;
        while i < self.terms.len()
            invariant
                i <= self.terms.len(),
                self.terms.len() == other.terms.len(),
                forall|k: int| 0 <= k < i ==> self.terms@[k]@ == other.terms@[k]@,
            decreases self.terms.len() - i,
        {
            if !self.terms[i].same(&other.terms[i]) {
                proof {
                    assert(term_models(self.terms@)[i as int] == self.terms@[i as int]@);
                }
                return false;
            }
            i = i + 1;
        }
        assert(term_models(self.terms@) =~= term_models(other.terms@));
        true
    }
}

// ---------------------------------------------------------------------------
// TensorComputation container and builder API
// ---------------------------------------------------------------------------

#[derive(Debug, PartialEq, Eq)]
pub struct TensorComputation {
    ranges: Vec<Range>,
    tensors: Vec<TensorInfo>,
    definitions: Vec<TensorDef>,
}

impl TensorComputation {
    pub closed spec fn spec_ranges(&self) -> Seq<Range> {
        self.ranges@
    }

    pub closed spec fn spec_tensors(&self) -> Seq<TensorInfo> {
        self.tensors@
    }

    pub closed spec fn spec_definitions(&self) -> Seq<TensorDef> {
        self.definitions@
    }

    pub fn new() -> (r: Self)
        ensures
            r.spec_ranges() == Seq::<Range>::empty(),
            r.spec_tensors() == Seq::<TensorInfo>::empty(),
            r.spec_definitions() == Seq::<TensorDef>::empty(),
    {
        TensorComputation { ranges: Vec::new(), tensors: Vec::new(), definitions: Vec::new() }
    }

    /// A computation made of the given ranges, tensors and definitions.
    pub fn from_parts(ranges: Vec<Range>, tensors: Vec<TensorInfo>, definitions: Vec<TensorDef>) -> (r: Self)
        ensures
            r.spec_ranges() == ranges@,
            r.spec_tensors() == tensors@,
            r.spec_definitions() == definitions@,
    {
        TensorComputation { ranges, tensors, definitions }
    }

    /// Adds a range of the given size; its id is its position.
    pub fn add_range(&mut self, size: u64) -> (r: RangeId)
        ensures
            r.0 == old(self).spec_ranges().len() as u32,
            final(self).spec_ranges() == old(self).spec_ranges().push(Range { id: r, size }),
            final(self).spec_tensors() == old(self).spec_tensors(),
            final(self).spec_definitions() == old(self).spec_definitions(),
    {
        let id = RangeId(self.ranges.len() as u32);
        self.ranges.push(Range { id, size });
        id
    }

    /// Adds a tensor with the given slot ranges and symmetry; its id is its position.
    pub fn add_tensor(&mut self, slots: &[RangeId], symmetry: Vec<SymGenerator>) -> (r: TensorId)
        ensures
            r.0 == old(self).spec_tensors().len() as u32,
            final(self).spec_tensors().len() == old(self).spec_tensors().len() + 1,
            final(self).spec_tensors().drop_last() == old(self).spec_tensors(),
            final(self).spec_tensors().last()@ == (InfoModel {
                id: r,
                slots: slots@,
                symmetry: gen_models(symmetry@),
            }),
            final(self).spec_ranges() == old(self).spec_ranges(),
            final(self).spec_definitions() == old(self).spec_definitions(),
    {
        let id = TensorId(self.tensors.len() as u32);
        let mut slot_vec: Vec<RangeId> = Vec::new();
        let mut i: usize = 0;
        while i < slots.len()
            invariant
                i <= slots@.len(),
                slot_vec@ == slots@.take(i as int),
            decreases slots@.len() - i,
        {
            slot_vec.push(slots[i]);
            i = i + 1;
            assert(slot_vec@ =~= slots@.take(i as int));
        }
        assert(slots@.take(slots@.len() as int) =~= slots@);
        let ghost old_tensors = self.tensors@;
        self.tensors.push(TensorInfo { id, slots: slot_vec, symmetry });
        assert(self.tensors@.drop_last() =~= old_tensors);
        id
    }

    /// Appends the definition `base[ext_indices] = sum of terms`.
    pub fn add_definition(&mut self, base: TensorId, ext_indices: Vec<Index>, terms: Vec<Term>)
        ensures
            final(self).spec_definitions().len() == old(self).spec_definitions().len() + 1,
            final(self).spec_definitions().drop_last() == old(self).spec_definitions(),
            final(self).spec_definitions().last()@ == (DefModel {
                base,
                ext_indices: ext_indices@,
                terms: term_models(terms@),
            }),
            final(self).spec_ranges() == old(self).spec_ranges(),
            final(self).spec_tensors() == old(self).spec_tensors(),
    {
        let ghost old_defs = self.definitions@;
        self.definitions.push(TensorDef { base, ext_indices, terms });
        assert(self.definitions@.drop_last() =~= old_defs);
    }

    pub fn ranges(&self) -> (r: &[Range])
        ensures
            r@ == self.spec_ranges(),
    {
        self.ranges.as_slice()
    }

    pub fn tensors(&self) -> (r: &[TensorInfo])
        ensures
            r@ == self.spec_tensors(),
    {
        self.tensors.as_slice()
    }

    pub fn definitions(&self) -> (r: &[TensorDef])
        ensures
            r@ == self.spec_definitions(),
    {
        self.definitions.as_slice()
    }

    pub fn definitions_mut(&mut self) -> (r: &mut Vec<TensorDef>)
        ensures
            r@ == old(self).spec_definitions(),
            final(self).spec_definitions() == final(r)@,
            final(self).spec_ranges() == old(self).spec_ranges(),
            final(self).spec_tensors() == old(self).spec_tensors(),
    {
        &mut self.definitions
    }

    /// The id the next added tensor will receive.
    pub fn next_tensor_id(&self) -> (r: TensorId)
        ensures
            r.0 == self.spec_tensors().len() as u32,
    {
        TensorId(self.tensors.len() as u32)
    }
}

impl Clone for TensorComputation {
    fn clone(&self) -> (r: Self)
        ensures
            r.spec_ranges() == self.spec_ranges(),
            info_models(r.spec_tensors()) == info_models(self.spec_tensors()),
            def_models(r.spec_definitions()) == def_models(self.spec_definitions()),
    {
        let mut tensors: Vec<TensorInfo> = Vec::new();
        let mut i: usize = 0;
        while i < self.tensors.len()
            invariant
                i <= self.tensors@.len(),
                tensors@.len() == i,
                forall|k: int| 0 <= k < i ==> (#[trigger] tensors@[k])@ == self.tensors@[k]@,
            decreases self.tensors.len() - i,
        {
            tensors.push(self.tensors[i].clone());
            i = i + 1;
        }
        let mut definitions: Vec<TensorDef> = Vec::new();
        let mut j: usize = 0;
        while j < self.definitions.len()
            invariant
                j <= self.definitions@.len(),
                definitions@.len() == j,
                forall|k: int| 0 <= k < j ==> (#[trigger] definitions@[k])@ == self.definitions@[k]@,
            decreases self.definitions.len() - j,
        {
            definitions.push(self.definitions[j].clone());
            j = j + 1;
        }
        assert(info_models(tensors@) =~= info_models(self.tensors@));
        assert(def_models(definitions@) =~= def_models(self.definitions@));
        TensorComputation { ranges: copy_vec(&self.ranges), tensors, definitions }
    }
}

impl Default for TensorComputation {
    fn default() -> (r: Self)
        ensures
            r.spec_ranges() == Seq::<Range>::empty(),
            r.spec_tensors() == Seq::<TensorInfo>::empty(),
            r.spec_definitions() == Seq::<TensorDef>::empty(),
    {
        Self::new()
    }
}

} // verus!
