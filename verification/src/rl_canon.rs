//! Canonical forms of terms and of the two sides of a split, as used to
//! build the graphs of the factorization action space.
use vstd::prelude::*;

use crate::canon::{
    apply_action_to_coeff, build_canon_pool, contains_id, counter_get, gens_fit_exec, lemma_bounded_by_max,
    lemma_group_start, lemma_group_start_end, lemma_group_start_push, lemma_group_start_step, lemma_max_of,
    lookup_pair, lookup_range, max_of, permute_ids, pool_ids, pool_ok, group_cover, group_start,
    first_value, last_count, last_range, pool_entry,
};
use crate::enumerate::enumerate_sym_group;
use crate::rational::{rational_lt, Rational};
use crate::repr::{
    copy_vec, info_models, Factor, FactorModel, TermModel, Index, IndexId, RangeId, SymAction, TensorDef, TensorId, TensorInfo, Term,
};
use crate::rl_parenth::TermSplit;
use crate::sort::{lemma_seq_le_total, lemma_seq_le_trans, seq_le, stable_sort_order, vec_eq, vec_le, SortKey};

verus! {

/// What canonicalisation needs of a definition: its external indices, the
/// pool of summation ids per range, and the tensors' symmetries.
pub struct CanonDefContext {
    ext_ids: Vec<IndexId>,
    ext_range: Vec<Index>,
    pool: Vec<(RangeId, Vec<IndexId>)>,
    tensors: Vec<TensorInfo>,
}

impl CanonDefContext {
    pub closed spec fn spec_ext(&self) -> Seq<Index> {
        self.ext_range@
    }

    pub closed spec fn spec_ext_ids(&self) -> Seq<IndexId> {
        self.ext_ids@
    }

    pub closed spec fn spec_pool(&self) -> Seq<(RangeId, Vec<IndexId>)> {
        self.pool@
    }

    pub closed spec fn spec_tensors(&self) -> Seq<crate::repr::InfoModel> {
        info_models(self.tensors@)
    }
}

/// A split canonicalised twice: once with the left side naming the shared
/// indices, once with the right side naming them.
#[derive(Debug, PartialEq, Eq)]
pub struct CanonSplitPair {
    pub left_assigned: TermSplit,
    pub right_assigned: TermSplit,
}

impl Clone for CanonSplitPair {
    fn clone(&self) -> (r: Self)
        ensures
            r.left_assigned.left_sub_term@ == self.left_assigned.left_sub_term@,
            r.left_assigned.right_sub_term@ == self.left_assigned.right_sub_term@,
            r.left_assigned.last_step@ == self.left_assigned.last_step@,
            r.right_assigned.left_sub_term@ == self.right_assigned.left_sub_term@,
            r.right_assigned.right_sub_term@ == self.right_assigned.right_sub_term@,
            r.right_assigned.last_step@ == self.right_assigned.last_step@,
    {
        CanonSplitPair { left_assigned: self.left_assigned.clone(), right_assigned: self.right_assigned.clone() }
    }
}

/// A sort key for terms: coefficient, then tensors and index ids.
#[derive(Clone, Debug, PartialEq, Eq, PartialOrd, Ord)]
pub struct CanonicalKey {
    coeff_num: i64,
    coeff_den: i64,
    factors: Vec<(u32, Vec<u32>)>,
}

impl CanonicalKey {
    pub closed spec fn spec_coeff(&self) -> (int, int) {
        (self.coeff_num as int, self.coeff_den as int)
    }

    pub closed spec fn spec_factors(&self) -> Seq<(u32, Seq<u32>)> {
        self.factors@.map_values(|f: (u32, Vec<u32>)| (f.0, f.1@))
    }
}

#[derive(Clone, Copy)]
enum SplitSide {
    Left,
    Right,
}

/// An index slot of a skeleton: an external index, or a summation index
/// still to be named.
#[derive(Clone, Copy)]
enum SkeletonIndex {
    External(IndexId),
    LocalDummy { original: IndexId, range: RangeId },
}

struct SkeletonFactor {
    tensor: TensorId,
    indices: Vec<SkeletonIndex>,
}

/// A term with its factors in one candidate order and arrangement, before
/// its summation indices are named.
struct TermSkeleton {
    coeff: Rational,
    factors: Vec<SkeletonFactor>,
}

/// The canonicalisation context of a definition.
pub fn build_canon_def_context(def: &TensorDef, tensors: &[TensorInfo]) -> (r: CanonDefContext)
    ensures
        r.spec_ext() == def.ext_indices@,
        r.spec_ext_ids() == def.ext_indices@.map_values(|i: Index| i.id),
        pool_ok(def@.terms, r.spec_pool()),
        r.spec_tensors() == info_models(tensors@),
{
    let mut ext_ids: Vec<IndexId> = Vec::new();
    let mut i: usize = 0;
    while i < def.ext_indices.len()
        invariant
            i <= def.ext_indices@.len(),
            ext_ids@ == def.ext_indices@.take(i as int).map_values(|x: Index| x.id),
        decreases def.ext_indices.len() - i,
    {
        ext_ids.push(def.ext_indices[i].id);
        i = i + 1;
        assert(ext_ids@ =~= def.ext_indices@.take(i as int).map_values(|x: Index| x.id));
    }
    assert(def.ext_indices@.take(def.ext_indices@.len() as int) =~= def.ext_indices@);
    let mut copies: Vec<TensorInfo> = Vec::new();
    let mut t: usize = 0;
    while t < tensors.len()
        invariant
            t <= tensors@.len(),
            copies@.len() == t,
            forall|k: int| 0 <= k < t ==> (#[trigger] copies@[k])@ == tensors@[k]@,
        decreases tensors.len() - t,
    {
        copies.push(tensors[t].clone());
        t = t + 1;
    }
    assert(info_models(copies@) =~= info_models(tensors@));
    CanonDefContext { ext_ids, ext_range: copy_vec(&def.ext_indices), pool: build_canon_pool(def), tensors: copies }
}

/// The sort key of a term: its coefficient (numerator, denominator) and,
/// per factor, the tensor id and the index ids.
pub fn canonical_term_key(term: &Term) -> (r: CanonicalKey)
    ensures
        r.spec_coeff() == term.coeff.pair(),
        r.spec_factors() == term@.factors.map_values(
            |f: crate::repr::FactorModel| (f.tensor.0, f.indices.map_values(|i: IndexId| i.0)),
        ),
{
    let mut factors: Vec<(u32, Vec<u32>)> = Vec::new();
    let mut k: usize = 0;
    while k < term.factors.len()
        invariant
            k <= term.factors@.len(),
            factors@.len() == k,
            forall|m: int| 0 <= m < k ==> (#[trigger] factors@[m]).0 == term.factors@[m].tensor.0
                && factors@[m].1@ == term.factors@[m].indices@.map_values(|i: IndexId| i.0),
        decreases term.factors.len() - k,
    {
        let ids = crate::canon::ids_to_nums(&term.factors[k].indices);
        factors.push((term.factors[k].tensor.0, ids));
        k = k + 1;
    }
    let r = CanonicalKey { coeff_num: term.coeff.numer(), coeff_den: term.coeff.denom(), factors };
    assert(r.spec_factors() =~= term@.factors.map_values(
        |f: crate::repr::FactorModel| (f.tensor.0, f.indices.map_values(|i: IndexId| i.0)),
    ));
    r
}

// ---------------------------------------------------------------------------
// Term order
// ---------------------------------------------------------------------------

/// Three-way comparison of two index-id lists: the first difference decides,
/// then the length.


/// Three-way order of candidate terms: coefficient value, then factors
/// (tensor, index ids, index count), factor count, then summation indices
/// (range, id) and their count.
#[verifier::loop_isolation(false)]
fn term_order(a: &Term, b: &Term) -> (r: i8)
    ensures
        -1 <= r <= 1,
        r as int == term_order_spec(a@, b@),
{
    if rational_lt(&a.coeff, &b.coeff) {
        return -1;
    }
    if rational_lt(&b.coeff, &a.coeff) {
        return 1;
    }
    let ghost fa = a@.factors;
    let ghost fb = b@.factors;
    let mut i: usize = 0;
    while i < a.factors.len() && i < b.factors.len()
        invariant
            i <= a.factors@.len(),
            i <= b.factors@.len(),
            fa == a@.factors,
            fb == b@.factors,
            factors_order(fa, fb, 0) == factors_order(fa, fb, i as int),
        decreases a.factors.len() - i,
    {
        let x = &a.factors[i];
        let y = &b.factors[i];
        assert(fa[i as int] == x@ && fb[i as int] == y@);
        if x.tensor.0 != y.tensor.0 {
            return if x.tensor.0 < y.tensor.0 { -1 } else { 1 };
        }
        let mut k: usize = 0;
        while k < x.indices.len() && k < y.indices.len()
            invariant
                k <= x.indices@.len(),
                k <= y.indices@.len(),
                ids_order(x.indices@, y.indices@, 0) == ids_order(x.indices@, y.indices@, k as int),
            decreases x.indices.len() - k,
        {
            if x.indices[k].0 != y.indices[k].0 {
                return if x.indices[k].0 < y.indices[k].0 { -1 } else { 1 };
            }
            k = k + 1;
        }
        if x.indices.len() != y.indices.len() {
            return if x.indices.len() < y.indices.len() { -1 } else { 1 };
        }
        assert(ids_order(x.indices@, y.indices@, 0) == 0);
        i = i + 1;
    }
    if a.factors.len() != b.factors.len() {
        return if a.factors.len() < b.factors.len() { -1 } else { 1 };
    }
    assert(factors_order(fa, fb, 0) == 0);
    let mut k: usize = 0;
    while k < a.sum_indices.len() && k < b.sum_indices.len()
        invariant
            k <= a.sum_indices@.len(),
            k <= b.sum_indices@.len(),
            sums_order(a.sum_indices@, b.sum_indices@, 0) == sums_order(a.sum_indices@, b.sum_indices@, k as int),
        decreases a.sum_indices.len() - k,
    {
        let x = a.sum_indices[k];
        let y = b.sum_indices[k];
        if x.range.0 != y.range.0 {
            return if x.range.0 < y.range.0 { -1 } else { 1 };
        }
        if x.id.0 != y.id.0 {
            return if x.id.0 < y.id.0 { -1 } else { 1 };
        }
        k = k + 1;
    }
    if a.sum_indices.len() != b.sum_indices.len() {
        return if a.sum_indices.len() < b.sum_indices.len() { -1 } else { 1 };
    }
    0
}

/// `-1`, `0` or `1` as `x` is below, equal to or above `y`.
spec fn sign_order(x: int, y: int) -> int {
    if x < y { -1 } else if x > y { 1 } else { 0 }
}

/// Three-way comparison of index-id lists from position `k` on: the first
/// difference decides, then the length.
spec fn ids_order(x: Seq<IndexId>, y: Seq<IndexId>, k: int) -> int
    decreases x.len() - k,
{
    if k < 0 || k >= x.len() || k >= y.len() {
        sign_order(x.len() as int, y.len() as int)
    } else if x[k].0 != y[k].0 {
        sign_order(x[k].0 as int, y[k].0 as int)
    } else {
        ids_order(x, y, k + 1)
    }
}

/// Three-way comparison of factors: tensor id, then index ids.
spec fn factor_order(f: FactorModel, g: FactorModel) -> int {
    if f.tensor.0 != g.tensor.0 {
        sign_order(f.tensor.0 as int, g.tensor.0 as int)
    } else {
        ids_order(f.indices, g.indices, 0)
    }
}

/// Three-way comparison of factor lists from position `i` on.
spec fn factors_order(a: Seq<FactorModel>, b: Seq<FactorModel>, i: int) -> int
    decreases a.len() - i,
{
    if i < 0 || i >= a.len() || i >= b.len() {
        sign_order(a.len() as int, b.len() as int)
    } else if factor_order(a[i], b[i]) != 0 {
        factor_order(a[i], b[i])
    } else {
        factors_order(a, b, i + 1)
    }
}

/// Three-way comparison of summation-index lists from position `k` on, by
/// (range, id).
spec fn sums_order(x: Seq<Index>, y: Seq<Index>, k: int) -> int
    decreases x.len() - k,
{
    if k < 0 || k >= x.len() || k >= y.len() {
        sign_order(x.len() as int, y.len() as int)
    } else if x[k].range.0 != y[k].range.0 {
        sign_order(x[k].range.0 as int, y[k].range.0 as int)
    } else if x[k].id.0 != y[k].id.0 {
        sign_order(x[k].id.0 as int, y[k].id.0 as int)
    } else {
        sums_order(x, y, k + 1)
    }
}

/// Three-way comparison of sorted shared-map keys from position `k` on, by
/// (id, name), then the length.
spec fn keys_order(x: Seq<(u32, u32)>, y: Seq<(u32, u32)>, k: int) -> int
    decreases x.len() - k,
{
    if k < 0 || k >= x.len() || k >= y.len() {
        sign_order(x.len() as int, y.len() as int)
    } else if x[k].0 != y[k].0 {
        sign_order(x[k].0 as int, y[k].0 as int)
    } else if x[k].1 != y[k].1 {
        sign_order(x[k].1 as int, y[k].1 as int)
    } else {
        keys_order(x, y, k + 1)
    }
}

/// The candidate order of terms: coefficient value, then factors, then
/// summation indices.
spec fn term_order_spec(a: TermModel, b: TermModel) -> int {
    let (an, ad, bn, bd) = (a.coeff.num(), a.coeff.den(), b.coeff.num(), b.coeff.den());
    if an * bd < bn * ad {
        -1
    } else if bn * ad < an * bd {
        1
    } else if factors_order(a.factors, b.factors, 0) != 0 {
        factors_order(a.factors, b.factors, 0)
    } else {
        sums_order(a.sum_indices, b.sum_indices, 0)
    }
}

// ---------------------------------------------------------------------------
// Skeletons
// ---------------------------------------------------------------------------

/// Indices ordered by (range, id).
pub open spec fn sums_sorted(s: Seq<Index>) -> bool {
    forall|a: int, b: int| 0 <= a < b < s.len() ==> (#[trigger] s[a]).range.0 < (#[trigger] s[b]).range.0
        || (s[a].range.0 == s[b].range.0 && s[a].id.0 <= s[b].id.0)
}

/// A canonical form `t` of `term`: its factors rearranged (each keeping its
/// tensor and number of indices) in order of tensor id, the coefficient up
/// to sign, and the summation indices ordered by (range, id).
pub open spec fn canon_shape(term: &Term, t: &Term) -> bool {
    &&& t.factors@.len() == term.factors@.len()
    &&& (t.coeff.pair() == term.coeff.pair() || t.coeff.pair() == (-term.coeff.num(), term.coeff.den()))
    &&& crate::canon::tensors_nondecreasing(t.factors@)
    &&& crate::canon::is_rearrangement(t.factors@, term.factors@)
    &&& sums_sorted(t.sum_indices@)
}

/// A skeleton of `term` has its factor count and its coefficient up to sign.
spec fn skeleton_ok(term: &Term, s: TermSkeleton) -> bool {
    &&& s.factors@.len() == term.factors@.len()
    &&& exists|sigma: Seq<int>| #[trigger] skel_rearranges(s.factors@, term.factors@, sigma)
    &&& forall|a: int, b: int| 0 <= a < b < s.factors@.len() ==> (#[trigger] s.factors@[a]).tensor.0
        <= (#[trigger] s.factors@[b]).tensor.0
    &&& (s.coeff.pair() == term.coeff.pair() || s.coeff.pair() == (-term.coeff.num(), term.coeff.den()))
}

/// A factor keyed for sorting by its tensor and, per index, whether it is
/// external and its range (flattened as pairs).
struct KeyedFactor {
    tensor: TensorId,
    key: Vec<u32>,
    indices: Vec<IndexId>,
}

impl SortKey for KeyedFactor {
    closed spec fn spec_le(self, other: Self) -> bool {
        self.tensor.0 < other.tensor.0 || (self.tensor.0 == other.tensor.0 && seq_le(self.key@, other.key@))
    }

    proof fn lemma_le_total(a: Self, b: Self) {
        lemma_seq_le_total(a.key@, b.key@);
    }

    proof fn lemma_le_trans(a: Self, b: Self, c: Self) {
        if a.tensor.0 == b.tensor.0 && b.tensor.0 == c.tensor.0 {
            lemma_seq_le_trans(a.key@, b.key@, c.key@);
        }
    }

    fn exec_le(&self, other: &Self) -> (r: bool) {
        if self.tensor.0 != other.tensor.0 {
            return self.tensor.0 < other.tensor.0;
        }
        vec_le(&self.key, &other.key)
    }
}

/// Within each group, every keyed factor has the tensor of the group's first.
spec fn keyed_group_uniform(groups: Seq<(usize, usize)>, fs: Seq<KeyedFactor>) -> bool {
    forall|g: int, i: int| 0 <= g < groups.len() && groups[g].0 <= i < groups[g].0 + groups[g].1 ==>
        #[trigger] fs[i].tensor.0 == fs[(#[trigger] groups[g]).0 as int].tensor.0
}

/// The symmetry information of `tensor`, by id.
fn tensor_symmetry(cx: &CanonDefContext, tensor: TensorId) -> (r: Option<&TensorInfo>)
    ensures
        r is None <==> forall|i: int| 0 <= i < cx.tensors@.len() ==> (#[trigger] cx.tensors@[i]).id != tensor,
        r matches Some(t) ==> exists|i: int| 0 <= i < cx.tensors@.len() && *t == #[trigger] cx.tensors@[i]
            && t.id == tensor && forall|j: int| 0 <= j < i ==> (#[trigger] cx.tensors@[j]).id != tensor,
{
    let mut i: usize = 0;
    while i < cx.tensors.len()
        invariant
            i <= cx.tensors@.len(),
            forall|j: int| 0 <= j < i ==> (#[trigger] cx.tensors@[j]).id != tensor,
        decreases cx.tensors.len() - i,
    {
        if cx.tensors[i].id.0 == tensor.0 {
            return Some(&cx.tensors[i]);
        }
        i = i + 1;
    }
    None
}

/// The structural key of one index: `(0, range)` when it is external,
/// `(1, range)` when it is summed, `None` when it is neither (or its range
/// is unknown).
spec fn index_key(id: IndexId, cx: &CanonDefContext, sums: Seq<Index>) -> Option<(u32, u32)> {
    if cx.ext_ids@.contains(id) {
        match last_range(cx.ext_range@, id) {
            Some(rg) => Some((0u32, rg.0)),
            None => None,
        }
    } else {
        match last_range(sums, id) {
            Some(rg) => Some((1u32, rg.0)),
            None => None,
        }
    }
}

/// Every id of `ids` is external to the definition (with a range) or summed.
spec fn ids_keyed(ids: Seq<IndexId>, cx: &CanonDefContext, sums: Seq<Index>) -> bool {
    forall|j: int| 0 <= j < ids.len() ==> index_key(#[trigger] ids[j], cx, sums) is Some
}

/// Every id of `ids` has a skeleton index.
spec fn ids_skeletal(ids: Seq<IndexId>, cx: &CanonDefContext, sums: Seq<Index>) -> bool {
    forall|j: int| 0 <= j < ids.len() ==> skel_index_of(#[trigger] ids[j], cx, sums) is Some
}

/// Under every chosen symmetry element, each factor's permuted ids are keyed.
spec fn combo_keyed(term: &Term, cx: &CanonDefContext, sym_groups: Seq<Vec<(Vec<usize>, SymAction)>>, combo: Seq<usize>) -> bool {
    forall|a: int| 0 <= a < term.factors@.len() ==> ids_keyed(
        crate::repr::permute(sym_groups[a]@[combo[a] as int].0@, (#[trigger] term.factors@[a]).indices@),
        cx,
        term.sum_indices@,
    )
}

/// Every factor of `term` names a tensor of the context whose generators fit
/// it, every index id is keyed, and negating the coefficient cannot
/// overflow.
spec fn term_enumerable(term: &Term, cx: &CanonDefContext) -> bool {
    &&& term.coeff.num() != i64::MIN as int
    &&& forall|a: int| 0 <= a < term.factors@.len() ==> exists|i: int| 0 <= i < cx.tensors@.len()
        && (#[trigger] cx.tensors@[i]).id == (#[trigger] term.factors@[a]).tensor
    &&& forall|a: int, i: int| 0 <= a < term.factors@.len() && 0 <= i < cx.tensors@.len()
        && (#[trigger] cx.tensors@[i]).id == (#[trigger] term.factors@[a]).tensor ==> crate::enumerate::gens_fit(
        crate::repr::gen_models(cx.tensors@[i].symmetry@),
        term.factors@[a].indices@.len() as int,
    )
    &&& forall|a: int| 0 <= a < term.factors@.len() ==> ids_keyed((#[trigger] term.factors@[a]).indices@, cx, term.sum_indices@)
}

/// No tensor that a factor of `term` names in the context has a negating
/// symmetry generator.
pub closed spec fn term_never_negated(term: &Term, cx: &CanonDefContext) -> bool {
    forall|a: int, i: int| 0 <= a < term.factors@.len() && 0 <= i < cx.tensors@.len()
        && (#[trigger] cx.tensors@[i]).id == (#[trigger] term.factors@[a]).tensor ==> crate::canon::no_negation(
        crate::repr::gen_models(cx.tensors@[i].symmetry@),
    )
}

/// The skeleton index of an id: external when the definition has it as an
/// external index, otherwise a summation index with its range; `None` when
/// it is neither.
spec fn skel_index_of(id: IndexId, cx: &CanonDefContext, sums: Seq<Index>) -> Option<SkeletonIndex> {
    if cx.ext_ids@.contains(id) {
        Some(SkeletonIndex::External(id))
    } else {
        match last_range(sums, id) {
            Some(rg) => Some(SkeletonIndex::LocalDummy { original: id, range: rg }),
            None => None,
        }
    }
}

/// The flattened structural key of a factor's indices: `(0, range)` for an
/// external index, `(1, range)` for a summation index; `None` when an index
/// is neither.
fn structural_factor_key(indices: &Vec<IndexId>, cx: &CanonDefContext, sums: &Vec<Index>) -> (r: Option<Vec<u32>>)
    ensures
        r is Some <==> forall|j: int| 0 <= j < indices@.len() ==> index_key(#[trigger] indices@[j], cx, sums@) is Some,
        r matches Some(k) ==> k@.len() == 2 * indices@.len() && forall|j: int| 0 <= j < indices@.len() ==> (
            k@[2 * j], k@[2 * j + 1]) == index_key(#[trigger] indices@[j], cx, sums@)->0,
{
    let mut key: Vec<u32> = Vec::new();
    let mut j: usize = 0;
    while j < indices.len()
        invariant
            j <= indices@.len(),
            key@.len() == 2 * j,
            forall|m: int| 0 <= m < j ==> index_key(#[trigger] indices@[m], cx, sums@) is Some,
            forall|m: int| 0 <= m < j ==> (key@[2 * m], key@[2 * m + 1]) == index_key(#[trigger] indices@[m], cx, sums@)->0,
        decreases indices.len() - j,
    {
        let ghost prev = key@;
        let id = indices[j];
        if contains_id(cx.ext_ids.as_slice(), id) {
            match lookup_range(&cx.ext_range, id) {
                Some(rg) => {
                    key.push(0);
                    key.push(rg.0);
                },
                None => return None,
            }
        } else {
            match lookup_range(sums, id) {
                Some(rg) => {
                    key.push(1);
                    key.push(rg.0);
                },
                None => return None,
            }
        }
        proof {
            assert forall|m: int| 0 <= m < j + 1 implies (key@[2 * m], key@[2 * m + 1]) == index_key(
                #[trigger] indices@[m], cx, sums@)->0 by {
                if m < j {
                    assert(key@[2 * m] == prev[2 * m] && key@[2 * m + 1] == prev[2 * m + 1]);
                }
            }
        }
        j = j + 1;
    }
    Some(key)
}

fn skeletonize_factor(factor: &Factor, cx: &CanonDefContext, sums: &Vec<Index>) -> (r: Option<SkeletonFactor>)
    ensures
        r matches Some(sf) ==> sf.tensor == factor.tensor && sf.indices@.len() == factor.indices@.len(),
        r is Some <==> forall|j: int| 0 <= j < factor.indices@.len() ==> skel_index_of(#[trigger] factor.indices@[j], cx, sums@) is Some,
        r matches Some(sf) ==> forall|j: int| 0 <= j < factor.indices@.len() ==> Some(#[trigger] sf.indices@[j])
            == skel_index_of(factor.indices@[j], cx, sums@),
{
    let mut indices: Vec<SkeletonIndex> = Vec::new();
    let mut j: usize = 0;
    while j < factor.indices.len()
        invariant
            j <= factor.indices@.len(),
            indices@.len() == j,
            forall|m: int| 0 <= m < j ==> skel_index_of(#[trigger] factor.indices@[m], cx, sums@) is Some,
            forall|m: int| 0 <= m < j ==> Some(#[trigger] indices@[m]) == skel_index_of(factor.indices@[m], cx, sums@),
        decreases factor.indices.len() - j,
    {
        let id = factor.indices[j];
        if contains_id(cx.ext_ids.as_slice(), id) {
            indices.push(SkeletonIndex::External(id));
        } else {
            match lookup_range(sums, id) {
                Some(range) => indices.push(SkeletonIndex::LocalDummy { original: id, range }),
                None => return None,
            }
        }
        j = j + 1;
    }
    Some(SkeletonFactor { tensor: factor.tensor, indices })
}

/// The skeleton factors for one choice of permutation per tied group: group
/// by group, the group's keyed factors in the chosen order. Also gives, per
/// position, the keyed factor it came from. `None` when a factor names an
/// index that is neither external nor summed.
#[verifier::loop_isolation(false)]
fn tie_skeleton(
    perm_factors: &Vec<KeyedFactor>,
    groups: &Vec<(usize, usize)>,
    group_perms: &Vec<Vec<Vec<usize>>>,
    choice: &Vec<usize>,
    n: usize,
    cx: &CanonDefContext,
    sums: &Vec<Index>,
) -> (res: Option<(Vec<SkeletonFactor>, Ghost<Seq<int>>)>)
    requires
        perm_factors@.len() == n,
        group_cover(groups@, n as int),
        keyed_group_uniform(groups@, perm_factors@),
        forall|a: int, b: int| 0 <= a < b < perm_factors@.len() ==> (#[trigger] perm_factors@[a]).tensor.0
            <= (#[trigger] perm_factors@[b]).tensor.0,
        group_perms@.len() == groups@.len(),
        choice@.len() == groups@.len(),
        forall|a: int, q: int| 0 <= a < groups@.len() && 0 <= q < group_perms@[a]@.len() ==> (#[trigger] group_perms@[a]@[q])@.len()
            == groups@[a].1 && crate::enumerate::bounded(group_perms@[a]@[q]@, groups@[a].1 as int) && group_perms@[a]@[q]@.no_duplicates(),
        forall|a: int| 0 <= a < groups@.len() ==> #[trigger] choice@[a] < group_perms@[a]@.len(),
    ensures
        res matches Some(r) ==> {
            &&& r.0@.len() == n
            &&& skel_nondecreasing(r.0@)
            &&& r.1@.len() == n
            &&& forall|p: int| 0 <= p < n ==> 0 <= #[trigger] r.1@[p] < n
            &&& forall|a: int, b: int| 0 <= a < b < n ==> #[trigger] r.1@[a] != #[trigger] r.1@[b]
            &&& forall|p: int| 0 <= p < n ==> (#[trigger] r.0@[p]).tensor == perm_factors@[r.1@[p]].tensor
                && r.0@[p].indices@.len() == perm_factors@[r.1@[p]].indices@.len()
        },
        (forall|p: int| 0 <= p < n ==> ids_skeletal((#[trigger] perm_factors@[p]).indices@, cx, sums@)) ==> res is Some,
{
    let ghost all_ok = forall|p: int| 0 <= p < n ==> ids_skeletal((#[trigger] perm_factors@[p]).indices@, cx, sums@);
    let mut ordering: Vec<SkeletonFactor> = Vec::new();
    let ghost mut pos: Seq<int> = Seq::empty();
    let mut g: usize = 0;
    while g < groups.len()
        invariant
            g <= groups@.len(),
            perm_factors@.len() == n,
            group_cover(groups@, n as int),
            group_perms@.len() == groups@.len(),
            choice@.len() == groups@.len(),
            forall|a: int, q: int| 0 <= a < groups@.len() && 0 <= q < group_perms@[a]@.len() ==> (#[trigger] group_perms@[a]@[q])@.len()
                == groups@[a].1 && crate::enumerate::bounded(group_perms@[a]@[q]@, groups@[a].1 as int) && group_perms@[a]@[q]@.no_duplicates(),
            forall|a: int| 0 <= a < groups@.len() ==> #[trigger] choice@[a] < group_perms@[a]@.len(),
            ordering@.len() == group_start(groups@, g as int),
            skel_nondecreasing(ordering@),
            g < groups@.len() ==> forall|k: int| 0 <= k < ordering@.len() ==> (#[trigger] ordering@[k]).tensor.0
                <= perm_factors@[groups@[g as int].0 as int].tensor.0,
            pos.len() == ordering@.len(),
            forall|p: int| 0 <= p < pos.len() ==> 0 <= #[trigger] pos[p] < group_start(groups@, g as int),
            forall|p: int| 0 <= p < pos.len() ==> (#[trigger] ordering@[p]).tensor == perm_factors@[pos[p]].tensor
                && ordering@[p].indices@.len() == perm_factors@[pos[p]].indices@.len(),
            forall|a: int, b: int| 0 <= a < b < pos.len() ==> #[trigger] pos[a] != #[trigger] pos[b],
        decreases groups.len() - g,
    {
        let (gs, gl) = groups[g];
        let gp = &group_perms[g][choice[g]];
        proof {
            lemma_group_start(groups@, n as int, g as int);
            assert(gp@ == group_perms@[g as int]@[choice@[g as int] as int]@);
        }
        let ghost g0 = group_start(groups@, g as int);
        let mut q: usize = 0;
        while q < gp.len()
            invariant
                q <= gp@.len(),
                gp@.len() == gl,
                crate::enumerate::bounded(gp@, gl as int),
                gs + gl <= n,
                perm_factors@.len() == n,
                ordering@.len() == group_start(groups@, g as int) + q,
                g < groups@.len(),
                gs == groups@[g as int].0,
                gl == groups@[g as int].1,
                skel_nondecreasing(ordering@),
                forall|k: int| 0 <= k < ordering@.len() ==> (#[trigger] ordering@[k]).tensor.0
                    <= perm_factors@[gs as int].tensor.0,
                gp@.no_duplicates(),
                g0 == group_start(groups@, g as int),
                gs == g0,
                pos.len() == ordering@.len(),
                forall|p: int| 0 <= p < g0 ==> 0 <= #[trigger] pos[p] < gs,
                forall|p: int| g0 <= p < pos.len() ==> #[trigger] pos[p] == gs + gp@[p - g0],
                forall|p: int| 0 <= p < pos.len() ==> 0 <= #[trigger] pos[p] < n,
                forall|p: int| 0 <= p < pos.len() ==> (#[trigger] ordering@[p]).tensor == perm_factors@[pos[p]].tensor
                    && ordering@[p].indices@.len() == perm_factors@[pos[p]].indices@.len(),
                forall|a: int, b: int| 0 <= a < b < pos.len() ==> #[trigger] pos[a] != #[trigger] pos[b],
            decreases gp.len() - q,
        {
            let src = &perm_factors[gs + gp[q]];
            let ghost prev = ordering@;
            proof {
                assert(perm_factors@[gs + gp@[q as int]].tensor.0 == perm_factors@[groups@[g as int].0 as int].tensor.0);
            }
            let f = Factor { tensor: src.tensor, indices: copy_vec(&src.indices) };
            proof {
                assert(0 <= gs + gp@[q as int] < n);
                if all_ok {
                    assert(ids_skeletal(perm_factors@[gs + gp@[q as int]].indices@, cx, sums@));
                    assert(f.indices@ == perm_factors@[gs + gp@[q as int]].indices@);
                }
            }
            match skeletonize_factor(&f, cx, sums) {
                Some(sf) => ordering.push(sf),
                None => return None,
            }
            proof {
                let pos_prev = pos;
                pos = pos.push(gs + gp@[q as int]);
                assert forall|p: int| g0 <= p < pos.len() implies #[trigger] pos[p] == gs + gp@[p - g0] by {
                    if p < pos_prev.len() {
                        assert(pos[p] == pos_prev[p]);
                    }
                }
                assert forall|a: int, b: int| 0 <= a < b < pos.len() implies #[trigger] pos[a] != #[trigger] pos[b] by {
                    if b < pos_prev.len() {
                        assert(pos[a] == pos_prev[a] && pos[b] == pos_prev[b]);
                    } else if a < g0 {
                        assert(pos[a] == pos_prev[a]);
                    } else {
                        assert(pos[a] == gs + gp@[a - g0]);
                        assert(gp@[a - g0] != gp@[q as int]);
                    }
                }
                assert forall|p: int| 0 <= p < pos.len() implies (#[trigger] ordering@[p]).tensor == perm_factors@[pos[p]].tensor
                    && ordering@[p].indices@.len() == perm_factors@[pos[p]].indices@.len() by {
                    if p < pos_prev.len() {
                        assert(ordering@[p] == prev[p]);
                        assert(pos[p] == pos_prev[p]);
                    }
                }
                assert forall|k: int| 0 <= k < ordering@.len() implies (#[trigger] ordering@[k]).tensor.0
                    <= perm_factors@[gs as int].tensor.0 by {
                    if k < prev.len() {
                        assert(ordering@[k] == prev[k]);
                    }
                }
                assert forall|a: int, b: int| 0 <= a < b < ordering@.len() implies (#[trigger] ordering@[a]).tensor.0
                    <= (#[trigger] ordering@[b]).tensor.0 by {
                    if b < prev.len() {
                        assert(ordering@[a] == prev[a] && ordering@[b] == prev[b]);
                    } else {
                        assert(ordering@[a] == prev[a]);
                    }
                }
            }
            q = q + 1;
        }
        proof {
            lemma_group_start_step(groups@, g as int);
            assert forall|p: int| 0 <= p < pos.len() implies 0 <= #[trigger] pos[p] < group_start(groups@, g + 1) by {
                if p >= g0 {
                    assert(pos[p] == gs + gp@[p - g0]);
                }
            }
            if g + 1 < groups@.len() {
                lemma_group_start(groups@, n as int, g + 1);
                assert(groups@[g + 1].0 == groups@[g as int].0 + groups@[g as int].1);
                assert(perm_factors@[gs as int].tensor.0 <= perm_factors@[groups@[g + 1].0 as int].tensor.0);
            }
        }
        g = g + 1;
    }
    proof {
        lemma_group_start_end(groups@, n as int);
    }
    Some((ordering, Ghost(pos)))
}

/// The skeleton factors' tensor ids never decrease.
spec fn skel_nondecreasing(fs: Seq<SkeletonFactor>) -> bool {
    forall|a: int, b: int| 0 <= a < b < fs.len() ==> (#[trigger] fs[a]).tensor.0 <= (#[trigger] fs[b]).tensor.0
}

/// `fs` are the factors `orig` taken in the order `sigma`, each with its
/// tensor and its number of indices.
spec fn skel_rearranges(fs: Seq<SkeletonFactor>, orig: Seq<Factor>, sigma: Seq<int>) -> bool {
    &&& crate::canon::is_permutation(sigma, orig.len() as int)
    &&& fs.len() == orig.len()
    &&& forall|k: int| 0 <= k < fs.len() ==> (#[trigger] fs[k]).tensor == orig[sigma[k]].tensor
        && fs[k].indices@.len() == orig[sigma[k]].indices@.len()
}

/// For one choice of symmetry element per factor (`combo`): the factors,
/// permuted by their elements and keyed, sorted by key; the runs of equal
/// keys, as (start, length); and, per sorted position, the factor of `term`
/// it came from. `None` when a factor's key cannot be formed.
#[verifier::loop_isolation(false)]
fn tie_sorted(
    term: &Term,
    cx: &CanonDefContext,
    sym_groups: &Vec<Vec<(Vec<usize>, SymAction)>>,
    combo: &Vec<usize>,
) -> (res: Option<(Vec<KeyedFactor>, Vec<(usize, usize)>, Ghost<Seq<int>>)>)
    requires
        sym_groups@.len() == term.factors@.len(),
        combo@.len() == term.factors@.len(),
        forall|a: int| 0 <= a < term.factors@.len() ==> #[trigger] combo@[a] < sym_groups@[a]@.len(),
        forall|a: int, e: int| 0 <= a < term.factors@.len() && 0 <= e < sym_groups@[a]@.len() ==> (#[trigger] sym_groups@[a]@[e]).0@.len()
            == term.factors@[a].indices@.len() && crate::repr::perm_in_bounds(sym_groups@[a]@[e].0@, term.factors@[a].indices@.len() as int),
    ensures
        res matches Some(r) ==> {
            let n = term.factors@.len() as int;
            &&& r.0@.len() == n
            &&& forall|a: int, b: int| 0 <= a < b < n ==> (#[trigger] r.0@[a]).tensor.0 <= (#[trigger] r.0@[b]).tensor.0
            &&& group_cover(r.1@, n)
            &&& keyed_group_uniform(r.1@, r.0@)
            &&& crate::canon::is_permutation(r.2@, n)
            &&& forall|m: int| 0 <= m < n ==> (#[trigger] r.0@[m]).tensor == term.factors@[r.2@[m]].tensor
                && r.0@[m].indices@.len() == term.factors@[r.2@[m]].indices@.len()
            &&& forall|m: int| 0 <= m < n ==> ids_keyed((#[trigger] r.0@[m]).indices@, cx, term.sum_indices@)
        },
        res is Some <==> combo_keyed(term, cx, sym_groups@, combo@),
{
    let n = term.factors.len();
    let mut keyed: Vec<KeyedFactor> = Vec::new();
    let mut k: usize = 0;
    while k < n
        invariant
            k <= n,
            keyed@.len() == k,
            forall|m: int| 0 <= m < k ==> (#[trigger] keyed@[m]).tensor == term.factors@[m].tensor
                && keyed@[m].indices@.len() == term.factors@[m].indices@.len(),
            forall|m: int| 0 <= m < k ==> ids_keyed((#[trigger] keyed@[m]).indices@, cx, term.sum_indices@),
            forall|m: int| 0 <= m < k ==> ids_keyed(
                crate::repr::permute(sym_groups@[m]@[combo@[m] as int].0@, (#[trigger] term.factors@[m]).indices@),
                cx,
                term.sum_indices@,
            ),
        decreases n - k,
    {
        let f = &term.factors[k];
        let perm = &sym_groups[k][combo[k]].0;
        let indices = permute_ids(perm, &f.indices);
        let key = match structural_factor_key(&indices, cx, &term.sum_indices) {
            Some(key) => key,
            None => {
                assert(!ids_keyed(indices@, cx, term.sum_indices@));
                assert(!ids_keyed(
                    crate::repr::permute(sym_groups@[k as int]@[combo@[k as int] as int].0@, term.factors@[k as int].indices@),
                    cx,
                    term.sum_indices@,
                ));
                return None;
            },
        };
        assert(ids_keyed(indices@, cx, term.sum_indices@));
        keyed.push(KeyedFactor { tensor: f.tensor, key, indices });
        k = k + 1;
    }
    let order = stable_sort_order(&keyed);
    let mut factors: Vec<KeyedFactor> = Vec::new();
    let mut k: usize = 0;
    while k < order.len()
        invariant
            k <= order@.len(),
            crate::sort::is_stable_sort_order(keyed@, order@),
            factors@.len() == k,
            forall|m: int| 0 <= m < k ==> (#[trigger] factors@[m]).tensor == keyed@[order@[m] as int].tensor
                && factors@[m].indices@ == keyed@[order@[m] as int].indices@,
        decreases order.len() - k,
    {
        let src = &keyed[order[k]];
        factors.push(KeyedFactor { tensor: src.tensor, key: copy_vec(&src.key), indices: copy_vec(&src.indices) });
        k = k + 1;
    }
    proof {
        assert forall|a: int, b: int| 0 <= a < b < factors@.len() implies (#[trigger] factors@[a]).tensor.0
            <= (#[trigger] factors@[b]).tensor.0 by {
            assert(keyed@[order@[a] as int].spec_le(keyed@[order@[b] as int]));
        }
        assert forall|m: int| 0 <= m < n implies (#[trigger] factors@[m]).tensor == term.factors@[order@[m] as int].tensor
            && factors@[m].indices@.len() == term.factors@[order@[m] as int].indices@.len() by {
            assert(keyed@[order@[m] as int].tensor == term.factors@[order@[m] as int].tensor);
        }
    }
    // tied groups: runs of equal keys, as (start, length)
    let mut groups: Vec<(usize, usize)> = Vec::new();
    let mut start: usize = 0;
    while start < factors.len()
        invariant
            start <= factors@.len(),
            group_cover(groups@, start as int),
            keyed_group_uniform(groups@, factors@),
        decreases factors.len() - start,
    {
        let mut end: usize = start + 1;
        while end < factors.len() && factors[end].tensor.0 == factors[start].tensor.0
            && vec_eq(&factors[end].key, &factors[start].key)
            invariant
                start < end <= factors@.len(),
                forall|i: int| start <= i < end ==> (#[trigger] factors@[i]).tensor.0 == factors@[start as int].tensor.0,
            decreases factors.len() - end,
        {
            end = end + 1;
        }
        let ghost before = groups@;
        groups.push((start, end - start));
        proof {
            assert(groups@.drop_last() == before);
            lemma_group_start_push(before, (start, (end - start) as usize), before.len() as int);
            assert forall|g: int| 0 <= g < groups@.len() implies (#[trigger] groups@[g]).0 == group_start(groups@, g) && groups@[g].1 >= 1 by {
                lemma_group_start_push(before, (start, (end - start) as usize), g);
                if g < before.len() {
                    assert(groups@[g] == before[g]);
                }
            }
            assert forall|g: int, i: int| 0 <= g < groups@.len() && groups@[g].0 <= i < groups@[g].0 + groups@[g].1 implies
                #[trigger] factors@[i].tensor.0 == factors@[(#[trigger] groups@[g]).0 as int].tensor.0 by {
                if g < before.len() {
                    assert(groups@[g] == before[g]);
                }
            }
            assert(group_start(groups@, groups@.len() as int) == group_start(groups@, before.len() as int) + (end - start));
        }
        start = end;
    }
    let ghost order_s: Seq<int> = Seq::new(n as nat, |m: int| order@[m] as int);
    proof {
        assert forall|m: int| 0 <= m < n implies ids_keyed((#[trigger] factors@[m]).indices@, cx, term.sum_indices@) by {
            assert(ids_keyed(keyed@[order@[m] as int].indices@, cx, term.sum_indices@));
        }
        assert(combo_keyed(term, cx, sym_groups@, combo@));
        assert forall|a: int, b: int| 0 <= a < b < n implies #[trigger] order_s[a] != #[trigger] order_s[b] by {
            assert(order@[a] != order@[b]);
        }
    }
    Some((factors, groups, Ghost(order_s)))
}

/// The skeletons of `term` for one choice of symmetry element per factor
/// (`combo`), whose combined action gave `coeff`: the factors sorted by
/// structural key, in each order of the factors that tie on it. `None` when
/// a factor's key or an index needed is missing.
#[verifier::loop_isolation(false)]
fn combo_skeletons(
    term: &Term,
    cx: &CanonDefContext,
    sym_groups: &Vec<Vec<(Vec<usize>, SymAction)>>,
    combo: &Vec<usize>,
    coeff: Rational,
) -> (r: Option<Vec<TermSkeleton>>)
    requires
        sym_groups@.len() == term.factors@.len(),
        combo@.len() == term.factors@.len(),
        forall|a: int| 0 <= a < term.factors@.len() ==> #[trigger] combo@[a] < sym_groups@[a]@.len(),
        forall|a: int, e: int| 0 <= a < term.factors@.len() && 0 <= e < sym_groups@[a]@.len() ==> (#[trigger] sym_groups@[a]@[e]).0@.len()
            == term.factors@[a].indices@.len() && crate::repr::perm_in_bounds(sym_groups@[a]@[e].0@, term.factors@[a].indices@.len() as int),
        coeff.pair() == term.coeff.pair() || coeff.pair() == (-term.coeff.num(), term.coeff.den()),
    ensures
        r matches Some(v) ==> forall|k: int| 0 <= k < v@.len() ==> skeleton_ok(term, #[trigger] v@[k]),
        r matches Some(v) ==> v@.len() >= 1,
        r matches Some(v) ==> forall|k: int| 0 <= k < v@.len() ==> (#[trigger] v@[k]).coeff == coeff,
        r is Some <==> combo_keyed(term, cx, sym_groups@, combo@),
{
    let n = term.factors.len();
    let mut skeletons: Vec<TermSkeleton> = Vec::new();
    let (factors, groups, order_g) = match tie_sorted(term, cx, sym_groups, combo) {
        Some(x) => x,
        None => return None,
    };
    let ghost order = order_g@;
    proof {
        assert forall|p: int| 0 <= p < n implies ids_skeletal((#[trigger] factors@[p]).indices@, cx, term.sum_indices@) by {
            assert(ids_keyed(factors@[p].indices@, cx, term.sum_indices@));
            assert forall|j: int| 0 <= j < factors@[p].indices@.len() implies skel_index_of(
                #[trigger] factors@[p].indices@[j],
                cx,
                term.sum_indices@,
            ) is Some by {
                assert(index_key(factors@[p].indices@[j], cx, term.sum_indices@) is Some);
            }
        }
    }
    let (group_perms, gsizes) = crate::canon::tie_permutations(&groups);
    let mut choice: Vec<usize> = Vec::new();
    let mut g: usize = 0;
    while g < groups.len()
        invariant
            g <= groups@.len(),
            choice@.len() == g,
            forall|a: int| 0 <= a < g ==> #[trigger] choice@[a] == 0,
        decreases groups.len() - g,
    {
        choice.push(0);
        g = g + 1;
    }
    proof {
        assert forall|a: int| 0 <= a < groups@.len() implies #[trigger] choice@[a] < gsizes@[a] && gsizes@[a] >= 1 by {
            assert(group_perms@[a]@.len() == gsizes@[a]);
        }
        assert forall|a: int| 0 <= a < groups@.len() implies #[trigger] gsizes@[a] >= 1 by {
            assert(group_perms@[a]@.len() == gsizes@[a]);
        }
    }
    let ghost gb: int = max_of(gsizes@);
    proof {
        lemma_max_of(gsizes@);
        lemma_bounded_by_max(choice@, gsizes@);
        crate::enumerate::lemma_rank_bound(choice@, gb);
    }
    loop
        invariant
            factors@.len() == n,
            group_cover(groups@, n as int),
            group_perms@.len() == groups@.len(),
            gsizes@.len() == groups@.len(),
            choice@.len() == groups@.len(),
            gb == max_of(gsizes@),
            gb >= 1,
            forall|a: int| 0 <= a < groups@.len() ==> (#[trigger] group_perms@[a])@.len() == gsizes@[a],
            forall|a: int| 0 <= a < groups@.len() ==> #[trigger] gsizes@[a] >= 1,
            forall|a: int, q: int| 0 <= a < groups@.len() && 0 <= q < group_perms@[a]@.len() ==> (#[trigger] group_perms@[a]@[q])@.len()
                == groups@[a].1 && crate::enumerate::bounded(group_perms@[a]@[q]@, groups@[a].1 as int)
                && group_perms@[a]@[q]@.no_duplicates(),
            forall|a: int| 0 <= a < groups@.len() ==> #[trigger] choice@[a] < gsizes@[a],
            forall|k: int| 0 <= k < skeletons@.len() ==> (#[trigger] skeletons@[k]).coeff == coeff,
            forall|k: int| 0 <= k < skeletons@.len() ==> skeleton_ok(term, #[trigger] skeletons@[k]),
            coeff.pair() == term.coeff.pair() || coeff.pair() == (-term.coeff.num(), term.coeff.den()),
        decreases crate::enumerate::base_pow(gb, groups@.len() as nat) - crate::enumerate::rank(choice@, gb),
    {
        let (skel, pos_g) = match tie_skeleton(&factors, &groups, &group_perms, &choice, n, cx, &term.sum_indices) {
            Some(x) => x,
            None => return None,
        };
        let ghost pos = pos_g@;
        let ghost sigma: Seq<int> = Seq::new(n as nat, |p: int| order[pos[p]]);
        proof {
            assert forall|a: int, b: int| 0 <= a < b < n implies #[trigger] sigma[a] != #[trigger] sigma[b] by {
                assert(pos[a] != pos[b]);
                if pos[a] < pos[b] {
                    assert(order[pos[a]] != order[pos[b]]);
                } else {
                    assert(order[pos[b]] != order[pos[a]]);
                }
            }
            assert(skel_rearranges(skel@, term.factors@, sigma));
        }
        let ghost before = skeletons@;
        skeletons.push(TermSkeleton { coeff, factors: skel });
        proof {
            let last = skeletons@[skeletons@.len() - 1];
            assert(skel_rearranges(last.factors@, term.factors@, sigma));
            assert(skeleton_ok(term, last));
            assert forall|k: int| 0 <= k < skeletons@.len() implies skeleton_ok(term, #[trigger] skeletons@[k]) by {
                if k < before.len() {
                    assert(skeletons@[k] == before[k]);
                }
            }
        }
        let ghost prev_choice = choice@;
        if !crate::enumerate::advance_choice_vector(&mut choice, &gsizes) {
            break;
        }
        proof {
            lemma_bounded_by_max(prev_choice, gsizes@);
            lemma_bounded_by_max(choice@, gsizes@);
            let p = choose|p: int| crate::enumerate::lex_lt_at(prev_choice, choice@, p);
            crate::enumerate::lemma_rank_lex(prev_choice, choice@, gb, p);
            crate::enumerate::lemma_rank_bound(choice@, gb);
        }
    }
    Some(skeletons)
}

/// Every candidate form of `term`: for each choice of symmetry element per
/// factor (the coefficient taking the elements' combined action), the
/// factors sorted by structural key, and each order of the factors that tie
/// on it. `None` when a tensor, generator or index needed is missing, or
/// negating the coefficient overflows.
#[verifier::loop_isolation(false)]
fn enumerate_term_skeletons(term: &Term, cx: &CanonDefContext) -> (r: Option<Vec<TermSkeleton>>)
    ensures
        r matches Some(v) ==> v@.len() >= 1 && forall|k: int| 0 <= k < v@.len() ==> skeleton_ok(term, #[trigger] v@[k]),
        term_enumerable(term, cx) ==> r is Some,
        r matches Some(v) ==> (term_never_negated(term, cx) ==> forall|k: int| 0 <= k < v@.len() ==> (#[trigger] v@[k]).coeff.pair()
            == term.coeff.pair()),
{
    let ghost ok = term_enumerable(term, cx);
    let ghost nn = term_never_negated(term, cx);
    let n = term.factors.len();
    let mut sym_groups: Vec<Vec<(Vec<usize>, SymAction)>> = Vec::new();
    let mut combo_sizes: Vec<usize> = Vec::new();
    let mut combo: Vec<usize> = Vec::new();
    let mut i: usize = 0;
    while i < n
        invariant
            i <= n,
            n == term.factors@.len(),
            sym_groups@.len() == i,
            combo_sizes@.len() == i,
            combo@.len() == i,
            forall|a: int| 0 <= a < i ==> #[trigger] combo@[a] == 0,
            forall|a: int| 0 <= a < i ==> (#[trigger] sym_groups@[a])@.len() == combo_sizes@[a],
            forall|a: int| 0 <= a < i ==> #[trigger] combo_sizes@[a] >= 1,
            forall|a: int, e: int| 0 <= a < i && 0 <= e < sym_groups@[a]@.len() ==> (#[trigger] sym_groups@[a]@[e]).0@.len()
                == term.factors@[a].indices@.len() && crate::repr::perm_in_bounds(sym_groups@[a]@[e].0@, term.factors@[a].indices@.len() as int),
            nn == term_never_negated(term, cx),
            nn ==> forall|a: int, e: int| 0 <= a < i && 0 <= e < sym_groups@[a]@.len() ==> !crate::canon::negates(
                (#[trigger] sym_groups@[a]@[e]).1,
            ),
        decreases n - i,
    {
        let f = &term.factors[i];
        let info = match tensor_symmetry(cx, f.tensor) {
            Some(x) => x,
            None => {
                proof {
                    if ok {
                        let w = choose|w: int| 0 <= w < cx.tensors@.len() && (#[trigger] cx.tensors@[w]).id == term.factors@[i as int].tensor;
                    }
                }
                return None;
            },
        };
        proof {
            if ok {
                let w = choose|w: int| 0 <= w < cx.tensors@.len() && *info == #[trigger] cx.tensors@[w] && info.id == f.tensor;
                assert(cx.tensors@[w].id == term.factors@[i as int].tensor);
            }
        }
        if !gens_fit_exec(&info.symmetry, f.indices.len()) {
            return None;
        }
        let group = enumerate_sym_group(&info.symmetry, f.indices.len());
        proof {
            assert forall|e: int| 0 <= e < group@.len() implies (#[trigger] group@[e]).0@.len() == f.indices@.len()
                && crate::repr::perm_in_bounds(group@[e].0@, f.indices@.len() as int) by {
                assert(crate::enumerate::elem_perms(group@)[e] == group@[e].0@);
            }
            if nn {
                let w = choose|w: int| 0 <= w < cx.tensors@.len() && *info == #[trigger] cx.tensors@[w] && info.id == f.tensor;
                assert(cx.tensors@[w].id == term.factors@[i as int].tensor);
                assert(crate::canon::no_negation(crate::repr::gen_models(info.symmetry@)));
                assert forall|e: int| 0 <= e < group@.len() implies !crate::canon::negates((#[trigger] group@[e]).1) by {
                    crate::canon::lemma_group_no_negation(crate::repr::gen_models(info.symmetry@), f.indices@.len() as nat, group@, e);
                }
            }
        }
        let ghost sg_before = sym_groups@;
        combo_sizes.push(group.len());
        sym_groups.push(group);
        proof {
            if nn {
                assert forall|a: int, e: int| 0 <= a < i + 1 && 0 <= e < sym_groups@[a]@.len() implies !crate::canon::negates(
                    (#[trigger] sym_groups@[a]@[e]).1,
                ) by {
                    if a < i {
                        assert(sym_groups@[a] == sg_before[a]);
                    }
                }
            }
        }
        combo.push(0);
        i = i + 1;
    }
    let mut skeletons: Vec<TermSkeleton> = Vec::new();
    let ghost cb: int = max_of(combo_sizes@);
    proof {
        lemma_max_of(combo_sizes@);
        lemma_bounded_by_max(combo@, combo_sizes@);
        crate::enumerate::lemma_rank_bound(combo@, cb);
    }
    loop
        invariant
            n == term.factors@.len(),
            sym_groups@.len() == n,
            combo_sizes@.len() == n,
            combo@.len() == n,
            cb == max_of(combo_sizes@),
            cb >= 1,
            forall|a: int| 0 <= a < n ==> (#[trigger] sym_groups@[a])@.len() == combo_sizes@[a],
            forall|a: int| 0 <= a < n ==> #[trigger] combo_sizes@[a] >= 1,
            forall|a: int, e: int| 0 <= a < n && 0 <= e < sym_groups@[a]@.len() ==> (#[trigger] sym_groups@[a]@[e]).0@.len()
                == term.factors@[a].indices@.len() && crate::repr::perm_in_bounds(sym_groups@[a]@[e].0@, term.factors@[a].indices@.len() as int),
            forall|a: int| 0 <= a < n ==> #[trigger] combo@[a] < combo_sizes@[a],
            nn == term_never_negated(term, cx),
            nn ==> forall|a: int, e: int| 0 <= a < n && 0 <= e < sym_groups@[a]@.len() ==> !crate::canon::negates(
                (#[trigger] sym_groups@[a]@[e]).1,
            ),
            nn ==> forall|k: int| 0 <= k < skeletons@.len() ==> (#[trigger] skeletons@[k]).coeff.pair() == term.coeff.pair(),
            forall|k: int| 0 <= k < skeletons@.len() ==> skeleton_ok(term, #[trigger] skeletons@[k]),
        decreases crate::enumerate::base_pow(cb, n as nat) - crate::enumerate::rank(combo@, cb),
    {
        let mut action = SymAction::Identity;
        let mut k: usize = 0;
        while k < n
            invariant
                k <= n,
                nn ==> !crate::canon::negates(action),
            decreases n - k,
        {
            proof {
                if nn {
                    assert(!crate::canon::negates(sym_groups@[k as int]@[combo@[k as int] as int].1));
                }
            }
            action = action.combine(sym_groups[k][combo[k]].1);
            k = k + 1;
        }
        let flips = match action {
            SymAction::Negate | SymAction::NegateConjugate => true,
            _ => false,
        };
        if flips && term.coeff.numer() == i64::MIN {
            return None;
        }
        let coeff = apply_action_to_coeff(term.coeff, action);
        proof {
            if ok {
                assert forall|a: int| 0 <= a < term.factors@.len() implies ids_keyed(
                    crate::repr::permute(sym_groups@[a]@[combo@[a] as int].0@, (#[trigger] term.factors@[a]).indices@),
                    cx,
                    term.sum_indices@,
                ) by {
                    let perm = sym_groups@[a]@[combo@[a] as int].0@;
                    let ids = term.factors@[a].indices@;
                    assert(ids_keyed(ids, cx, term.sum_indices@));
                    assert forall|j: int| 0 <= j < crate::repr::permute(perm, ids).len() implies index_key(
                        #[trigger] crate::repr::permute(perm, ids)[j],
                        cx,
                        term.sum_indices@,
                    ) is Some by {
                        assert(perm[j] < ids.len());
                        assert(crate::repr::permute(perm, ids)[j] == ids[perm[j] as int]);
                    }
                }
            }
        }
        let mut more = match combo_skeletons(term, cx, &sym_groups, &combo, coeff) {
            Some(v) => v,
            None => return None,
        };
        let ghost before = skeletons@;
        skeletons.append(&mut more);
        proof {
            assert forall|k: int| 0 <= k < skeletons@.len() implies skeleton_ok(term, #[trigger] skeletons@[k]) by {
                if k < before.len() {
                    assert(skeletons@[k] == before[k]);
                }
            }
        }
        let ghost prev_combo = combo@;
        if !crate::enumerate::advance_choice_vector(&mut combo, &combo_sizes) {
            break;
        }
        proof {
            lemma_bounded_by_max(prev_combo, combo_sizes@);
            lemma_bounded_by_max(combo@, combo_sizes@);
            let p = choose|p: int| crate::enumerate::lex_lt_at(prev_combo, combo@, p);
            crate::enumerate::lemma_rank_lex(prev_combo, combo@, cb, p);
            crate::enumerate::lemma_rank_bound(combo@, cb);
        }
    }
    if skeletons.len() == 0 {
        return None;
    }
    Some(skeletons)
}

// ---------------------------------------------------------------------------
// Naming
// ---------------------------------------------------------------------------

/// `indices` sorted by (range, id).
fn sort_by_range_id(indices: Vec<Index>) -> (r: Vec<Index>)
    ensures
        r@.len() == indices@.len(),
        sums_sorted(r@),
        r@.to_multiset() == indices@.to_multiset(),
{
    let mut out: Vec<Index> = Vec::new();
    let mut i: usize = 0;
    assert(indices@.take(0) =~= Seq::<Index>::empty());
    while i < indices.len()
        invariant
            i <= indices@.len(),
            out@.len() == i,
            out@.to_multiset() == indices@.take(i as int).to_multiset(),
            forall|a: int, b: int| 0 <= a < b < out@.len() ==> (#[trigger] out@[a]).range.0 < (#[trigger] out@[b]).range.0
                || (out@[a].range.0 == out@[b].range.0 && out@[a].id.0 <= out@[b].id.0),
        decreases indices.len() - i,
    {
        let x = indices[i];
        let mut p: usize = 0;
        while p < out.len() && (out[p].range.0 < x.range.0 || (out[p].range.0 == x.range.0 && out[p].id.0 <= x.id.0))
            invariant
                p <= out@.len(),
                forall|k: int| 0 <= k < p ==> (#[trigger] out@[k]).range.0 < x.range.0
                    || (out@[k].range.0 == x.range.0 && out@[k].id.0 <= x.id.0),
            decreases out.len() - p,
        {
            p = p + 1;
        }
        let ghost before = out@;
        out.insert(p, x);
        proof {
            vstd::seq_lib::to_multiset_insert(before, p as int, x);
            assert(indices@.take(i + 1) =~= indices@.take(i as int).push(x));
            indices@.take(i as int).to_multiset_ensures();
            let after = out@;
            assert forall|a: int, b: int| 0 <= a < b < after.len() implies (#[trigger] after[a]).range.0 < (#[trigger] after[b]).range.0
                || (after[a].range.0 == after[b].range.0 && after[a].id.0 <= after[b].id.0) by {
                if a < p && b < p {
                    assert(after[a] == before[a] && after[b] == before[b]);
                } else if a < p && b == p {
                    assert(after[a] == before[a]);
                } else if a < p {
                    assert(after[a] == before[a] && after[b] == before[b - 1]);
                } else if a == p {
                    assert(after[b] == before[b - 1]);
                    if p < before.len() {
                        assert(!(before[p as int].range.0 < x.range.0 || (before[p as int].range.0 == x.range.0 && before[p as int].id.0 <= x.id.0)));
                        if b - 1 > p {
                            assert(before[p as int].range.0 < before[b - 1].range.0
                                || (before[p as int].range.0 == before[b - 1].range.0 && before[p as int].id.0 <= before[b - 1].id.0));
                        }
                    }
                } else {
                    assert(after[a] == before[a - 1] && after[b] == before[b - 1]);
                }
            }
        }
        i = i + 1;
    }
    assert(indices@.take(i as int) =~= indices@);
    out
}

/// The summation indices of `sums` that are not shared, in order, each
/// renamed by the first entry of `remap` for it (or kept when it has none).
spec fn private_sums(sums: Seq<Index>, shared: Seq<IndexId>, remap: Seq<(IndexId, IndexId)>) -> Seq<Index>
    decreases sums.len(),
{
    if sums.len() == 0 {
        seq![]
    } else {
        let rest = private_sums(sums.drop_last(), shared, remap);
        let idx = sums.last();
        if shared.contains(idx.id) {
            rest
        } else {
            let id = match first_value(remap, idx.id) {
                Some(v) => v,
                None => idx.id,
            };
            rest.push(Index { id, range: idx.range })
        }
    }
}

/// The name of a skeleton index: an external index keeps its id, a summation
/// index takes the name `remap` gives its original id.
spec fn skel_name(x: SkeletonIndex, remap: Seq<(IndexId, IndexId)>) -> Option<IndexId> {
    match x {
        SkeletonIndex::External(id) => Some(id),
        SkeletonIndex::LocalDummy { original, .. } => first_value(remap, original),
    }
}

/// Every index of the skeleton factors `fs` has a name under `remap`.
spec fn all_named(fs: Seq<SkeletonFactor>, remap: Seq<(IndexId, IndexId)>) -> bool {
    forall|k: int, j: int| 0 <= k < fs.len() && 0 <= j < fs[k].indices@.len() ==> skel_name(
        #[trigger] fs[k].indices@[j],
        remap,
    ) is Some
}

fn skeleton_index_id(x: SkeletonIndex, remap: &Vec<(IndexId, IndexId)>) -> (r: Option<IndexId>)
    ensures
        r == skel_name(x, remap@),
{
    match x {
        SkeletonIndex::External(id) => Some(id),
        SkeletonIndex::LocalDummy { original, .. } => lookup_pair(remap, original),
    }
}

fn skeleton_factors(skeleton: &TermSkeleton, remap: &Vec<(IndexId, IndexId)>) -> (r: Option<Vec<Factor>>)
    ensures
        r matches Some(fs) ==> fs@.len() == skeleton.factors@.len()
            && forall|k: int| 0 <= k < fs@.len() ==> (#[trigger] fs@[k]).tensor == skeleton.factors@[k].tensor
                && fs@[k].indices@.len() == skeleton.factors@[k].indices@.len(),
        r is Some <==> all_named(skeleton.factors@, remap@),
        r matches Some(fs) ==> forall|k: int, j: int| 0 <= k < fs@.len() && 0 <= j < fs@[k].indices@.len() ==> Some(
            #[trigger] fs@[k].indices@[j],
        ) == skel_name(skeleton.factors@[k].indices@[j], remap@),
{
    let mut factors: Vec<Factor> = Vec::new();
    let mut f: usize = 0;
    while f < skeleton.factors.len()
        invariant
            f <= skeleton.factors@.len(),
            factors@.len() == f,
            forall|k: int| 0 <= k < f ==> (#[trigger] factors@[k]).tensor == skeleton.factors@[k].tensor
                && factors@[k].indices@.len() == skeleton.factors@[k].indices@.len(),
            forall|k: int, j: int| 0 <= k < f && 0 <= j < skeleton.factors@[k].indices@.len() ==> skel_name(
                #[trigger] skeleton.factors@[k].indices@[j], remap@) is Some,
            forall|k: int, j: int| 0 <= k < f && 0 <= j < factors@[k].indices@.len() ==> Some(
                #[trigger] factors@[k].indices@[j],
            ) == skel_name(skeleton.factors@[k].indices@[j], remap@),
        decreases skeleton.factors.len() - f,
    {
        let sf = &skeleton.factors[f];
        let mut ids: Vec<IndexId> = Vec::new();
        let mut j: usize = 0;
        while j < sf.indices.len()
            invariant
                j <= sf.indices@.len(),
                ids@.len() == j,
                forall|m: int| 0 <= m < j ==> Some(#[trigger] ids@[m]) == skel_name(sf.indices@[m], remap@),
                f < skeleton.factors@.len(),
                sf.indices@ == skeleton.factors@[f as int].indices@,
            decreases sf.indices.len() - j,
        {
            match skeleton_index_id(sf.indices[j], remap) {
                Some(id) => ids.push(id),
                None => {
                    proof {
                        assert(!all_named(skeleton.factors@, remap@)) by {
                            assert(skel_name(skeleton.factors@[f as int].indices@[j as int], remap@) is None);
                        }
                    }
                    return None;
                },
            }
            j = j + 1;
        }
        let ghost prev = factors@;
        factors.push(Factor { tensor: sf.tensor, indices: ids });
        proof {
            assert forall|k: int, j: int| 0 <= k < f + 1 && 0 <= j < factors@[k].indices@.len() implies Some(
                #[trigger] factors@[k].indices@[j],
            ) == skel_name(skeleton.factors@[k].indices@[j], remap@) by {
                if k < f {
                    assert(factors@[k] == prev[k]);
                }
            }
            assert forall|k: int, j: int| 0 <= k < f + 1 && 0 <= j < skeleton.factors@[k].indices@.len() implies skel_name(
                #[trigger] skeleton.factors@[k].indices@[j], remap@) is Some by {
                if k == f {
                    assert(Some(factors@[k].indices@[j]) == skel_name(skeleton.factors@[k].indices@[j], remap@));
                }
            }
            assert forall|k: int| 0 <= k < f + 1 implies (#[trigger] factors@[k]).tensor == skeleton.factors@[k].tensor
                && factors@[k].indices@.len() == skeleton.factors@[k].indices@.len() by {
                if k < f {
                    assert(factors@[k] == prev[k]);
                }
            }
        }
        f = f + 1;
    }
    Some(factors)
}

/// The `slot`-th pool id of `range`, if the pool has it.
fn pool_slot(cx: &CanonDefContext, range: RangeId, slot: usize) -> (r: Option<IndexId>)
    ensures
        r is Some ==> slot < usize::MAX,
        r == (match pool_entry(cx.pool@, range) {
            Some(p) => if slot < p.len() { Some(p[slot as int]) } else { None },
            None => None,
        }),
{
    match pool_ids(&cx.pool, range) {
        Some(p) => if slot < p.len() { Some(p[slot]) } else { None },
        None => None,
    }
}

/// The skeleton indices of `fs`, factor by factor, in order.
spec fn skel_flat(fs: Seq<SkeletonFactor>) -> Seq<SkeletonIndex>
    decreases fs.len(),
{
    if fs.len() == 0 {
        seq![]
    } else {
        skel_flat(fs.drop_last()) + fs.last().indices@
    }
}

/// The pool name at `slot` for `range`, if the pool has one.
spec fn pool_name(cx: &CanonDefContext, range: RangeId, slot: int) -> Option<IndexId> {
    match pool_entry(cx.pool@, range) {
        Some(p) => if 0 <= slot < p.len() {
            Some(p[slot])
        } else {
            None
        },
        None => None,
    }
}

/// One step of standalone naming: an index met for the first time gets a
/// name (its own id when external, the next pool name of its range when
/// summed); `None` when the pool has no such name.
spec fn standalone_step(
    st: (Seq<(IndexId, IndexId)>, Seq<(RangeId, usize)>),
    x: SkeletonIndex,
    cx: &CanonDefContext,
) -> Option<(Seq<(IndexId, IndexId)>, Seq<(RangeId, usize)>)> {
    match x {
        SkeletonIndex::External(id) => if first_value(st.0, id) is None {
            Some((st.0.push((id, id)), st.1))
        } else {
            Some(st)
        },
        SkeletonIndex::LocalDummy { original, range } => if first_value(st.0, original) is None {
            let slot = last_count(st.1, range);
            match pool_name(cx, range, slot as int) {
                Some(c) => Some((st.0.push((original, c)), st.1.push((range, (slot + 1) as usize)))),
                None => None,
            }
        } else {
            Some(st)
        },
    }
}

/// The names (and per-range counters) after walking `xs` in order.
spec fn standalone_walk(xs: Seq<SkeletonIndex>, cx: &CanonDefContext) -> Option<(Seq<(IndexId, IndexId)>, Seq<(RangeId, usize)>)>
    decreases xs.len(),
{
    if xs.len() == 0 {
        Some((seq![], seq![]))
    } else {
        match standalone_walk(xs.drop_last(), cx) {
            Some(st) => standalone_step(st, xs.last(), cx),
            None => None,
        }
    }
}

proof fn lemma_standalone_walk_none(xs: Seq<SkeletonIndex>, ys: Seq<SkeletonIndex>, cx: &CanonDefContext)
    requires
        standalone_walk(xs, cx) is None,
    ensures
        standalone_walk(xs + ys, cx) is None,
    decreases ys.len(),
{
    if ys.len() == 0 {
        assert(xs + ys =~= xs);
    } else {
        lemma_standalone_walk_none(xs, ys.drop_last(), cx);
        assert((xs + ys).drop_last() =~= xs + ys.drop_last());
    }
}

/// The summation indices of `sums`, in order, each renamed by the first
/// entry of `remap` for it.
spec fn renamed_sums(sums: Seq<Index>, remap: Seq<(IndexId, IndexId)>) -> Seq<Index>
    decreases sums.len(),
{
    if sums.len() == 0 {
        seq![]
    } else {
        renamed_sums(sums.drop_last(), remap).push(Index { id: first_value(remap, sums.last().id)->0, range: sums.last().range })
    }
}

/// Every summation index of `sums` has a name in `remap`.
spec fn sums_named(sums: Seq<Index>, remap: Seq<(IndexId, IndexId)>) -> bool {
    forall|k: int| 0 <= k < sums.len() ==> first_value(remap, (#[trigger] sums[k]).id) is Some
}

/// Name a skeleton's summation indices from the pool, per range in order of
/// first appearance; external indices keep their ids. The summation
/// indices are renamed alike and sorted by (range, id). `None` when the pool
/// runs out or a summation index never occurs in the factors.
fn rename_standalone_skeleton(original: &Term, skeleton: &TermSkeleton, cx: &CanonDefContext) -> (r: Option<Term>)
    ensures
        r matches Some(t) ==> t.factors@.len() == skeleton.factors@.len() && t.coeff == skeleton.coeff
            && t.sum_indices@.len() == original.sum_indices@.len()
            && (forall|k: int| 0 <= k < t.factors@.len() ==> (#[trigger] t.factors@[k]).tensor == skeleton.factors@[k].tensor
                && t.factors@[k].indices@.len() == skeleton.factors@[k].indices@.len())
            && sums_sorted(t.sum_indices@),
        r is Some <==> (standalone_walk(skel_flat(skeleton.factors@), cx) matches Some(st) && all_named(skeleton.factors@, st.0)
            && sums_named(original.sum_indices@, st.0)),
        r matches Some(t) ==> standalone_walk(skel_flat(skeleton.factors@), cx) matches Some(st) && (forall|k: int, j: int|
            0 <= k < t.factors@.len() && 0 <= j < t.factors@[k].indices@.len() ==> Some(#[trigger] t.factors@[k].indices@[j])
                == skel_name(skeleton.factors@[k].indices@[j], st.0)) && t.sum_indices@.to_multiset() == renamed_sums(
            original.sum_indices@,
            st.0,
        ).to_multiset(),
{
    let ghost sk = skeleton.factors@;
    let mut remap: Vec<(IndexId, IndexId)> = Vec::new();
    let mut counters: Vec<(RangeId, usize)> = Vec::new();
    let mut f: usize = 0;
    assert(sk.take(0) =~= Seq::<SkeletonFactor>::empty());
    while f < skeleton.factors.len()
        invariant
            f <= sk.len(),
            sk == skeleton.factors@,
            standalone_walk(skel_flat(sk.take(f as int)), cx) == Some((remap@, counters@)),
        decreases skeleton.factors.len() - f,
    {
        let sf = &skeleton.factors[f];
        let ghost before = skel_flat(sk.take(f as int));
        let mut j: usize = 0;
        assert(before + sf.indices@.take(0) =~= before);
        while j < sf.indices.len()
            invariant
                j <= sf.indices@.len(),
                f < sk.len(),
                sk == skeleton.factors@,
                sf.indices@ == sk[f as int].indices@,
                before == skel_flat(sk.take(f as int)),
                standalone_walk(before + sf.indices@.take(j as int), cx) == Some((remap@, counters@)),
            decreases sf.indices.len() - j,
        {
            let ghost cur = before + sf.indices@.take(j as int);
            let ghost next = before + sf.indices@.take(j + 1);
            assert(next.drop_last() =~= cur);
            assert(next.last() == sf.indices@[j as int]);
            match sf.indices[j] {
                SkeletonIndex::External(id) => {
                    if lookup_pair(&remap, id).is_none() {
                        remap.push((id, id));
                    }
                },
                SkeletonIndex::LocalDummy { original: orig, range } => {
                    if lookup_pair(&remap, orig).is_none() {
                        let slot = counter_get(&counters, range);
                        let canonical = match pool_slot(cx, range, slot) {
                            Some(c) => c,
                            None => {
                                proof {
                                    assert(standalone_walk(next, cx) is None);
                                    let rest = sf.indices@.skip(j + 1);
                                    assert(sf.indices@.take(j + 1) + rest =~= sf.indices@);
                                    assert(next + (rest + skel_flat(sk.skip(f + 1))) =~= before + sf.indices@ + skel_flat(sk.skip(f + 1)));
                                    lemma_standalone_walk_none(next, rest + skel_flat(sk.skip(f + 1)), cx);
                                    lemma_skel_flat_split(sk, f as int);
                                    assert(next + (rest + skel_flat(sk.skip(f + 1))) =~= skel_flat(sk));
                                }
                                return None;
                            },
                        };
                        counters.push((range, slot + 1));
                        remap.push((orig, canonical));
                    }
                },
            }
            j = j + 1;
        }
        assert(sf.indices@.take(j as int) =~= sf.indices@);
        assert(sk.take(f + 1).drop_last() =~= sk.take(f as int));
        f = f + 1;
    }
    assert(sk.take(f as int) =~= sk);
    assert(standalone_walk(skel_flat(skeleton.factors@), cx) == Some((remap@, counters@)));
    let factors = match skeleton_factors(skeleton, &remap) {
        Some(fs) => fs,
        None => return None,
    };
    let mut sums: Vec<Index> = Vec::new();
    let mut k: usize = 0;
    while k < original.sum_indices.len()
        invariant
            k <= original.sum_indices@.len(),
            sums@.len() == k,
            sums@ == renamed_sums(original.sum_indices@.take(k as int), remap@),
            forall|m: int| 0 <= m < k ==> first_value(remap@, (#[trigger] original.sum_indices@[m]).id) is Some,
            standalone_walk(skel_flat(skeleton.factors@), cx) == Some((remap@, counters@)),
        decreases original.sum_indices.len() - k,
    {
        assert(original.sum_indices@.take(k + 1).drop_last() =~= original.sum_indices@.take(k as int));
        let idx = original.sum_indices[k];
        match lookup_pair(&remap, idx.id) {
            Some(id) => sums.push(Index { id, range: idx.range }),
            None => {
                assert(!sums_named(original.sum_indices@, remap@));
                return None;
            },
        }
        k = k + 1;
    }
    assert(original.sum_indices@.take(k as int) =~= original.sum_indices@);
    let sum_indices = sort_by_range_id(sums);
    Some(Term { coeff: skeleton.coeff, sum_indices, factors })
}

proof fn lemma_skel_flat_split(fs: Seq<SkeletonFactor>, f: int)
    requires
        0 <= f < fs.len(),
    ensures
        skel_flat(fs) == skel_flat(fs.take(f)) + fs[f].indices@ + skel_flat(fs.skip(f + 1)),
    decreases fs.len(),
{
    if f == fs.len() - 1 {
        assert(fs.take(f) =~= fs.drop_last());
        assert(fs.skip(f + 1) =~= Seq::<SkeletonFactor>::empty());
        assert(skel_flat(fs.take(f)) + fs[f].indices@ + seq![] =~= skel_flat(fs.take(f)) + fs[f].indices@);
    } else {
        lemma_skel_flat_split(fs.drop_last(), f);
        assert(fs.drop_last().take(f) =~= fs.take(f));
        assert(fs.skip(f + 1).drop_last() =~= fs.drop_last().skip(f + 1));
        assert(fs.skip(f + 1).last() == fs.last());
        assert(skel_flat(fs.skip(f + 1)) == skel_flat(fs.skip(f + 1).drop_last()) + fs.last().indices@);
        assert(skel_flat(fs.take(f)) + fs[f].indices@ + skel_flat(fs.skip(f + 1)) =~= skel_flat(fs.take(f)) + fs[f].indices@
            + skel_flat(fs.drop_last().skip(f + 1)) + fs.last().indices@);
    }
}

/// Canonical form of a term within its definition: the least, under the
/// term order, of its candidate forms with summation indices named from the
/// pool. `None` when a candidate cannot be formed (a missing tensor,
/// generator, index or pool name).
pub fn canon_term(term: &Term, cx: &CanonDefContext) -> (r: Option<Term>)
    ensures
        r matches Some(t) ==> t.factors@.len() == term.factors@.len() && t.sum_indices@.len() == term.sum_indices@.len()
            && (t.coeff.pair() == term.coeff.pair() || t.coeff.pair() == (-term.coeff.num(), term.coeff.den()))
            && crate::canon::tensors_nondecreasing(t.factors@)
            && crate::canon::is_rearrangement(t.factors@, term.factors@)
            && sums_sorted(t.sum_indices@),
        r matches Some(t) ==> (term_never_negated(term, cx) ==> t.coeff.pair() == term.coeff.pair()),
{
    let skeletons = match enumerate_term_skeletons(term, cx) {
        Some(s) => s,
        None => return None,
    };
    let mut best: Option<Term> = None;
    let mut k: usize = 0;
    while k < skeletons.len()
        invariant
            k <= skeletons@.len(),
            forall|m: int| 0 <= m < skeletons@.len() ==> skeleton_ok(term, #[trigger] skeletons@[m]),
            best matches Some(t) ==> t.factors@.len() == term.factors@.len() && t.sum_indices@.len() == term.sum_indices@.len()
                && (t.coeff.pair() == term.coeff.pair() || t.coeff.pair() == (-term.coeff.num(), term.coeff.den()))
                && crate::canon::tensors_nondecreasing(t.factors@)
                && crate::canon::is_rearrangement(t.factors@, term.factors@)
                && sums_sorted(t.sum_indices@),
            term_never_negated(term, cx) ==> forall|m: int| 0 <= m < skeletons@.len() ==> (#[trigger] skeletons@[m]).coeff.pair()
                == term.coeff.pair(),
            best matches Some(t) ==> (term_never_negated(term, cx) ==> t.coeff.pair() == term.coeff.pair()),
            skeletons@.len() >= 1,
            k > 0 ==> best is Some,
        decreases skeletons.len() - k,
    {
        assert(skeleton_ok(term, skeletons@[k as int]));
        match rename_standalone_skeleton(term, &skeletons[k], cx) {
            Some(candidate) => {
                proof {
                    let sigma = choose|sigma: Seq<int>| skel_rearranges(skeletons@[k as int].factors@, term.factors@, sigma);
                    assert(crate::canon::rearranges(candidate.factors@, term.factors@, sigma));
                }
                let better = match &best {
                    None => true,
                    Some(b) => term_order(&candidate, b) < 0,
                };
                if better {
                    best = Some(candidate);
                }
            },
            None => return None,
        }
        k = k + 1;
    }
    best
}


// ---------------------------------------------------------------------------
// Splits
// ---------------------------------------------------------------------------

/// Some factor among the first `n` of `fs` has index `id` among its first
/// `m` indices (all of them for the factors before the last).
spec fn mentions_upto(fs: Seq<Factor>, n: int, m: int, id: IndexId) -> bool {
    ||| exists|k: int, j: int| 0 <= k < n - 1 && 0 <= j < fs[k].indices@.len() && #[trigger] fs[k].indices@[j] == id
    ||| exists|j: int| 0 <= j < m && n >= 1 && #[trigger] fs[n - 1].indices@[j] == id
}

/// Some factor of `fs` has index `id`.
pub open spec fn mentions(fs: Seq<Factor>, id: IndexId) -> bool {
    exists|k: int, j: int| 0 <= k < fs.len() && 0 <= j < fs[k].indices@.len() && #[trigger] fs[k].indices@[j] == id
}

/// The ids that occur in the factors of both sides of a split, each once.
#[verifier::loop_isolation(false)]
#[verifier::spinoff_prover]
fn shared_ids_for_split(split: &TermSplit) -> (r: Vec<IndexId>)
    ensures
        r@.no_duplicates(),
        forall|id: IndexId| r@.contains(id) <==> mentions(split.left_sub_term.factors@, id) && mentions(
            split.right_sub_term.factors@,
            id,
        ),
{
    let ghost lf = split.left_sub_term.factors@;
    let ghost rf = split.right_sub_term.factors@;
    let mut left_ids: Vec<IndexId> = Vec::new();
    let mut f: usize = 0;
    while f < split.left_sub_term.factors.len()
        invariant
            f <= lf.len(),
            forall|id: IndexId| left_ids@.contains(id) <==> mentions_upto(lf, f + 1, 0, id),
        decreases split.left_sub_term.factors.len() - f,
    {
        let fac = &split.left_sub_term.factors[f];
        let mut j: usize = 0;
        while j < fac.indices.len()
            invariant
                j <= fac.indices@.len(),
                f < lf.len(),
                fac.indices@ == lf[f as int].indices@,
                forall|id: IndexId| left_ids@.contains(id) <==> mentions_upto(lf, f + 1, j as int, id),
            decreases fac.indices.len() - j,
        {
            let ghost prev = left_ids@;
            left_ids.push(fac.indices[j]);
            proof {
                assert forall|id: IndexId| left_ids@.contains(id) <==> mentions_upto(lf, f + 1, j + 1, id) by {
                    assert(prev.contains(id) <==> mentions_upto(lf, f + 1, j as int, id));
                    if left_ids@.contains(id) {
                        let q = choose|q: int| 0 <= q < left_ids@.len() && left_ids@[q] == id;
                        if q < prev.len() {
                            assert(prev.contains(id));
                        } else {
                            assert(lf[f as int].indices@[j as int] == id);
                        }
                    }
                    if mentions_upto(lf, f + 1, j + 1, id) {
                        if exists|jj: int| 0 <= jj < j + 1 && f + 1 >= 1 && #[trigger] lf[f as int].indices@[jj] == id {
                            let jj = choose|jj: int| 0 <= jj < j + 1 && f + 1 >= 1 && #[trigger] lf[f as int].indices@[jj] == id;
                            if jj < j {
                                assert(mentions_upto(lf, f + 1, j as int, id));
                                assert(prev.contains(id));
                                let q = choose|q: int| 0 <= q < prev.len() && prev[q] == id;
                                assert(left_ids@[q] == id);
                            } else {
                                assert(left_ids@[prev.len() as int] == id);
                            }
                        } else {
                            assert(mentions_upto(lf, f + 1, j as int, id));
                            let q = choose|q: int| 0 <= q < prev.len() && prev[q] == id;
                            assert(left_ids@[q] == id);
                        }
                    }
                }
            }
            j = j + 1;
        }
        proof {
            assert forall|id: IndexId| mentions_upto(lf, f + 1, j as int, id) <==> #[trigger] mentions_upto(lf, f + 2, 0, id) by {
                if mentions_upto(lf, f + 1, j as int, id) {
                    if exists|jj: int| 0 <= jj < j && f + 1 >= 1 && #[trigger] lf[f as int].indices@[jj] == id {
                        let jj = choose|jj: int| 0 <= jj < j && f + 1 >= 1 && #[trigger] lf[f as int].indices@[jj] == id;
                        assert(lf[f as int].indices@[jj] == id);
                    }
                }
            }
        }
        f = f + 1;
    }
    proof {
        assert forall|id: IndexId| mentions_upto(lf, f + 1, 0, id) <==> #[trigger] mentions(lf, id) by {
            if mentions(lf, id) {
                let (k, jj) = choose|k: int, jj: int| 0 <= k < lf.len() && 0 <= jj < lf[k].indices@.len() && #[trigger] lf[k].indices@[jj] == id;
                assert(lf[k].indices@[jj] == id);
            }
        }
    }
    let mut shared: Vec<IndexId> = Vec::new();
    let mut f: usize = 0;
    while f < split.right_sub_term.factors.len()
        invariant
            f <= rf.len(),
            shared@.no_duplicates(),
            forall|id: IndexId| shared@.contains(id) <==> mentions(lf, id) && mentions_upto(rf, f + 1, 0, id),
            forall|id: IndexId| left_ids@.contains(id) <==> mentions(lf, id),
        decreases split.right_sub_term.factors.len() - f,
    {
        let fac = &split.right_sub_term.factors[f];
        let mut j: usize = 0;
        while j < fac.indices.len()
            invariant
                j <= fac.indices@.len(),
                f < rf.len(),
                fac.indices@ == rf[f as int].indices@,
                shared@.no_duplicates(),
                forall|id: IndexId| shared@.contains(id) <==> mentions(lf, id) && mentions_upto(rf, f + 1, j as int, id),
                forall|id: IndexId| left_ids@.contains(id) <==> mentions(lf, id),
            decreases fac.indices.len() - j,
        {
            let id = fac.indices[j];
            let ghost prev = shared@;
            if contains_id(left_ids.as_slice(), id) && !contains_id(shared.as_slice(), id) {
                shared.push(id);
            }
            proof {
                assert(rf[f as int].indices@[j as int] == id);
                assert forall|x: IndexId| shared@.contains(x) <==> mentions(lf, x) && mentions_upto(rf, f + 1, j + 1, x) by {
                    assert(prev.contains(x) <==> mentions(lf, x) && mentions_upto(rf, f + 1, j as int, x));
                    assert(left_ids@.contains(x) <==> mentions(lf, x));
                    if x == id {
                        assert(rf[f as int].indices@[j as int] == x);
                        assert(mentions_upto(rf, f + 1, j + 1, x));
                        if shared@.len() > prev.len() {
                            assert(shared@[prev.len() as int] == x);
                        }
                        if prev.contains(x) {
                            let q = choose|q: int| 0 <= q < prev.len() && prev[q] == x;
                            assert(shared@[q] == x);
                        }
                    } else {
                        if mentions_upto(rf, f + 1, j + 1, x) {
                            if exists|jj: int| 0 <= jj < j + 1 && f + 1 >= 1 && #[trigger] rf[f as int].indices@[jj] == x {
                                let jj = choose|jj: int| 0 <= jj < j + 1 && f + 1 >= 1 && #[trigger] rf[f as int].indices@[jj] == x;
                                assert(jj < j);
                                assert(mentions_upto(rf, f + 1, j as int, x));
                            } else {
                                assert(mentions_upto(rf, f + 1, j as int, x));
                            }
                        }
                        if mentions_upto(rf, f + 1, j as int, x) {
                            if exists|jj: int| 0 <= jj < j && f + 1 >= 1 && #[trigger] rf[f as int].indices@[jj] == x {
                                let jj = choose|jj: int| 0 <= jj < j && f + 1 >= 1 && #[trigger] rf[f as int].indices@[jj] == x;
                                assert(rf[f as int].indices@[jj] == x);
                            }
                        }
                        if shared@.contains(x) {
                            let q = choose|q: int| 0 <= q < shared@.len() && shared@[q] == x;
                            if q < prev.len() {
                                assert(prev[q] == x);
                            }
                        }
                        if prev.contains(x) {
                            let q = choose|q: int| 0 <= q < prev.len() && prev[q] == x;
                            assert(shared@[q] == x);
                        }
                    }
                }
            }
            j = j + 1;
        }
        proof {
            assert forall|id: IndexId| shared@.contains(id) <==> mentions(lf, id) && #[trigger] mentions_upto(rf, f + 2, 0, id) by {
                assert(shared@.contains(id) <==> mentions(lf, id) && mentions_upto(rf, f + 1, j as int, id));
                if mentions_upto(rf, f + 2, 0, id) {
                    let (k, jj) = choose|k: int, jj: int| 0 <= k < f + 1 && 0 <= jj < rf[k].indices@.len() && #[trigger] rf[k].indices@[jj] == id;
                    if k == f {
                        assert(jj < j);
                        assert(rf[f as int].indices@[jj] == id);
                    } else {
                        assert(rf[k].indices@[jj] == id);
                    }
                }
                if mentions_upto(rf, f + 1, j as int, id) {
                    if exists|jj: int| 0 <= jj < j && f + 1 >= 1 && #[trigger] rf[f as int].indices@[jj] == id {
                        let jj = choose|jj: int| 0 <= jj < j && f + 1 >= 1 && #[trigger] rf[f as int].indices@[jj] == id;
                        assert(rf[f as int].indices@[jj] == id);
                    }
                }
            }
        }
        f = f + 1;
    }
    proof {
        assert forall|id: IndexId| mentions_upto(rf, f + 1, 0, id) <==> #[trigger] mentions(rf, id) by {
            if mentions(rf, id) {
                let (k, jj) = choose|k: int, jj: int| 0 <= k < rf.len() && 0 <= jj < rf[k].indices@.len() && #[trigger] rf[k].indices@[jj] == id;
                assert(rf[k].indices@[jj] == id);
            }
        }
    }
    shared
}

/// The running counts, per range, of the shared summation indices among
/// the first `k` of `sums`: one entry (range, count so far) per shared one.
spec fn shared_counts_upto(sums: Seq<Index>, shared: Seq<IndexId>, k: int) -> Seq<(RangeId, usize)>
    decreases k,
{
    if k <= 0 {
        Seq::empty()
    } else {
        let prev = shared_counts_upto(sums, shared, k - 1);
        let idx = sums[k - 1];
        if shared.contains(idx.id) {
            prev.push((idx.range, (last_count(prev, idx.range) + 1) as usize))
        } else {
            prev
        }
    }
}

/// Per range, how many summation indices of `original` are shared.
fn split_shared_counts(original: &Term, shared_ids: &Vec<IndexId>) -> (r: Vec<(RangeId, usize)>)
    ensures
        r@ == shared_counts_upto(original.sum_indices@, shared_ids@, original.sum_indices@.len() as int),
{
    let mut counts: Vec<(RangeId, usize)> = Vec::new();
    let mut k: usize = 0;
    while k < original.sum_indices.len()
        invariant
            k <= original.sum_indices@.len(),
            forall|m: int| 0 <= m < counts@.len() ==> (#[trigger] counts@[m]).1 <= k,
            counts@ == shared_counts_upto(original.sum_indices@, shared_ids@, k as int),
        decreases original.sum_indices.len() - k,
    {
        let idx = original.sum_indices[k];
        if contains_id(shared_ids.as_slice(), idx.id) {
            let c = counter_get_bounded(&counts, idx.range, k);
            counts.push((idx.range, c + 1));
        }
        k = k + 1;
    }
    counts
}

/// `counter_get` for counters that are all at most `bound`.
fn counter_get_bounded(list: &Vec<(RangeId, usize)>, r: RangeId, bound: usize) -> (c: usize)
    requires
        forall|m: int| 0 <= m < list@.len() ==> (#[trigger] list@[m]).1 <= bound,
    ensures
        c <= bound,
        c == last_count(list@, r),
{
    let mut found: usize = 0;
    let mut i: usize = 0;
    while i < list.len()
        invariant
            i <= list@.len(),
            found <= bound,
            forall|m: int| 0 <= m < list@.len() ==> (#[trigger] list@[m]).1 <= bound,
            found == last_count(list@.take(i as int), r),
        decreases list.len() - i,
    {
        proof {
            assert(list@.take(i + 1).drop_last() =~= list@.take(i as int));
        }
        if list[i].0.0 == r.0 {
            found = list[i].1;
        }
        i = i + 1;
    }
    assert(list@.take(list@.len() as int) =~= list@);
    found
}

/// For each range with shared indices, where right-side private names start:
/// one past the end of that range's pool. `None` when the pool lacks it.
fn split_right_private_starts(cx: &CanonDefContext, shared_counts: &Vec<(RangeId, usize)>) -> (r: Option<Vec<(RangeId, usize)>>)
    ensures
        r is Some <==> forall|k: int| 0 <= k < shared_counts@.len() ==> pool_entry(cx.pool@, (#[trigger] shared_counts@[k]).0) is Some,
        r matches Some(v) ==> v@.len() == shared_counts@.len() && forall|k: int| 0 <= k < v@.len() ==> (#[trigger] v@[k]) == (
            shared_counts@[k].0,
            pool_entry(cx.pool@, shared_counts@[k].0)->0.len() as usize,
        ),
{
    let mut out: Vec<(RangeId, usize)> = Vec::new();
    let mut k: usize = 0;
    while k < shared_counts.len()
        invariant
            k <= shared_counts@.len(),
            out@.len() == k,
            forall|m: int| 0 <= m < k ==> pool_entry(cx.pool@, (#[trigger] shared_counts@[m]).0) is Some,
            forall|m: int| 0 <= m < k ==> (#[trigger] out@[m]) == (
                shared_counts@[m].0,
                pool_entry(cx.pool@, shared_counts@[m].0)->0.len() as usize,
            ),
        decreases shared_counts.len() - k,
    {
        let range = shared_counts[k].0;
        match pool_ids(&cx.pool, range) {
            Some(p) => out.push((range, p.len())),
            None => return None,
        }
        k = k + 1;
    }
    Some(out)
}

/// Name a private summation index unless it has a name: on the left from the
/// front of the pool (after the shared names), on the right from the back.
/// `false` when the pool has no name left.
fn allocate_private_dummy(
    original: IndexId,
    range: RangeId,
    side: SplitSide,
    remap: &mut Vec<(IndexId, IndexId)>,
    left_private_counters: &mut Vec<(RangeId, usize)>,
    right_private_counters: &mut Vec<(RangeId, usize)>,
    cx: &CanonDefContext,
) -> (ok: bool)
    ensures
        first_value(old(remap)@, original) is Some ==> ok && final(remap)@ == old(remap)@
            && final(left_private_counters)@ == old(left_private_counters)@
            && final(right_private_counters)@ == old(right_private_counters)@,
        first_value(old(remap)@, original) is None ==> match side {
            SplitSide::Left => {
                let slot = last_count(old(left_private_counters)@, range);
                let name = match pool_entry(cx.pool@, range) {
                    Some(p) => if slot < p.len() { Some(p[slot as int]) } else { None },
                    None => None,
                };
                &&& final(right_private_counters)@ == old(right_private_counters)@
                &&& ok == name is Some
                &&& name matches Some(c) ==> final(remap)@ == old(remap)@.push((original, c))
                    && final(left_private_counters)@ == old(left_private_counters)@.push((range, (slot + 1) as usize))
                &&& name is None ==> final(remap)@ == old(remap)@ && final(left_private_counters)@ == old(left_private_counters)@
            },
            SplitSide::Right => {
                let p = pool_entry(cx.pool@, range);
                let slot = match last_entry(old(right_private_counters)@, range) {
                    Some(c) => c as int,
                    None => match p { Some(q) => q.len() as int, None => 0 },
                };
                &&& final(left_private_counters)@ == old(left_private_counters)@
                &&& ok == (p is Some && 0 < slot <= p->0.len())
                &&& ok ==> final(remap)@ == old(remap)@.push((original, p->0[slot - 1]))
                    && final(right_private_counters)@ == old(right_private_counters)@.push((range, (slot - 1) as usize))
                &&& !ok ==> final(remap)@ == old(remap)@ && final(right_private_counters)@ == old(right_private_counters)@
            },
        },
{
    if lookup_pair(remap, original).is_some() {
        return true;
    }
    match side {
        SplitSide::Left => {
            let slot = counter_get(left_private_counters, range);
            let canonical = match pool_slot(cx, range, slot) {
                Some(c) => c,
                None => return false,
            };
            left_private_counters.push((range, slot + 1));
            remap.push((original, canonical));
        },
        SplitSide::Right => {
            let pool = match pool_ids(&cx.pool, range) {
                Some(p) => p,
                None => return false,
            };
            let slot = match right_counter(right_private_counters, range) {
                Some(s) => s,
                None => pool.len(),
            };
            if slot == 0 || slot > pool.len() {
                return false;
            }
            let slot = slot - 1;
            right_private_counters.push((range, slot));
            remap.push((original, pool[slot]));
        },
    }
    true
}

/// The count of the last entry of `list` for range `r`, if there is one.
spec fn last_entry(list: Seq<(RangeId, usize)>, r: RangeId) -> Option<usize>
    decreases list.len(),
{
    if list.len() == 0 {
        None
    } else if list.last().0 == r {
        Some(list.last().1)
    } else {
        last_entry(list.drop_last(), r)
    }
}

fn right_counter(list: &Vec<(RangeId, usize)>, r: RangeId) -> (c: Option<usize>)
    ensures
        c == last_entry(list@, r),
{
    let mut found: Option<usize> = None;
    let mut i: usize = 0;
    while i < list.len()
        invariant
            i <= list@.len(),
            found == last_entry(list@.take(i as int), r),
        decreases list.len() - i,
    {
        proof {
            assert(list@.take(i + 1).drop_last() =~= list@.take(i as int));
        }
        if list[i].0.0 == r.0 {
            found = Some(list[i].1);
        }
        i = i + 1;
    }
    assert(list@.take(list@.len() as int) =~= list@);
    found
}

/// The split side with its factors renamed by `remap`, keeping the
/// summation indices that are not shared (renamed where they have a name),
/// sorted by (range, id). `None` when a factor index has no name.
fn rebuild_split_term(
    original: &Term,
    skeleton: &TermSkeleton,
    shared_ids: &Vec<IndexId>,
    remap: &Vec<(IndexId, IndexId)>,
) -> (r: Option<Term>)
    ensures
        r matches Some(t) ==> t.factors@.len() == skeleton.factors@.len() && t.coeff == skeleton.coeff
            && (forall|k: int| 0 <= k < t.factors@.len() ==> (#[trigger] t.factors@[k]).tensor == skeleton.factors@[k].tensor
                && t.factors@[k].indices@.len() == skeleton.factors@[k].indices@.len())
            && sums_sorted(t.sum_indices@),
        r is Some <==> all_named(skeleton.factors@, remap@),
        r matches Some(t) ==> forall|k: int, j: int| 0 <= k < t.factors@.len() && 0 <= j < t.factors@[k].indices@.len() ==> Some(
            #[trigger] t.factors@[k].indices@[j],
        ) == skel_name(skeleton.factors@[k].indices@[j], remap@),
        r matches Some(t) ==> t.sum_indices@.to_multiset() == private_sums(original.sum_indices@, shared_ids@, remap@).to_multiset(),
{
    let factors = match skeleton_factors(skeleton, remap) {
        Some(fs) => fs,
        None => return None,
    };
    let mut sums: Vec<Index> = Vec::new();
    let mut k: usize = 0;
    while k < original.sum_indices.len()
        invariant
            k <= original.sum_indices@.len(),
            sums@ == private_sums(original.sum_indices@.take(k as int), shared_ids@, remap@),
        decreases original.sum_indices.len() - k,
    {
        assert(original.sum_indices@.take(k + 1).drop_last() =~= original.sum_indices@.take(k as int));
        let idx = original.sum_indices[k];
        if !contains_id(shared_ids.as_slice(), idx.id) {
            let id = match lookup_pair(remap, idx.id) {
                Some(v) => v,
                None => idx.id,
            };
            sums.push(Index { id, range: idx.range });
        }
        k = k + 1;
    }
    assert(original.sum_indices@.take(k as int) =~= original.sum_indices@);
    Some(Term { coeff: skeleton.coeff, sum_indices: sort_by_range_id(sums), factors })
}

/// One private summation index named on `side` (the map, then the left and
/// right private counters): nothing changes when it has a name already;
/// `None` when the pool has no name left for it.
spec fn private_step(
    st: (Seq<(IndexId, IndexId)>, Seq<(RangeId, usize)>, Seq<(RangeId, usize)>),
    orig: IndexId,
    range: RangeId,
    side: SplitSide,
    cx: &CanonDefContext,
) -> Option<(Seq<(IndexId, IndexId)>, Seq<(RangeId, usize)>, Seq<(RangeId, usize)>)> {
    if first_value(st.0, orig) is Some {
        Some(st)
    } else {
        match side {
            SplitSide::Left => {
                let slot = last_count(st.1, range);
                match pool_name(cx, range, slot as int) {
                    Some(c) => Some((st.0.push((orig, c)), st.1.push((range, (slot + 1) as usize)), st.2)),
                    None => None,
                }
            },
            SplitSide::Right => {
                let p = pool_entry(cx.pool@, range);
                let slot = match last_entry(st.2, range) {
                    Some(c) => c as int,
                    None => match p {
                        Some(q) => q.len() as int,
                        None => 0,
                    },
                };
                if p is Some && 0 < slot <= p->0.len() {
                    Some((st.0.push((orig, p->0[slot - 1])), st.1, st.2.push((range, (slot - 1) as usize))))
                } else {
                    None
                }
            },
        }
    }
}

/// The right private counters' starting points: each shared range starts at
/// the end of its pool entry.
spec fn right_starts(cx: &CanonDefContext, counts: Seq<(RangeId, usize)>) -> Seq<(RangeId, usize)> {
    counts.map_values(|e: (RangeId, usize)| (e.0, pool_entry(cx.pool@, e.0)->0.len() as usize))
}

/// Every shared range has a pool entry.
spec fn starts_ok(cx: &CanonDefContext, counts: Seq<(RangeId, usize)>) -> bool {
    forall|k: int| 0 <= k < counts.len() ==> pool_entry(cx.pool@, (#[trigger] counts[k]).0) is Some
}

/// The owner's naming state (map, shared counters, left and right private
/// counters) after walking `xs`: shared indices take the next pool names of
/// their range, private ones are named by side.
spec fn owner_walk(
    xs: Seq<SkeletonIndex>,
    init: (Seq<(IndexId, IndexId)>, Seq<(RangeId, usize)>, Seq<(RangeId, usize)>, Seq<(RangeId, usize)>),
    shared: Seq<IndexId>,
    side: SplitSide,
    cx: &CanonDefContext,
) -> Option<(Seq<(IndexId, IndexId)>, Seq<(RangeId, usize)>, Seq<(RangeId, usize)>, Seq<(RangeId, usize)>)>
    decreases xs.len(),
{
    if xs.len() == 0 {
        Some(init)
    } else {
        match owner_walk(xs.drop_last(), init, shared, side, cx) {
            None => None,
            Some(st) => match xs.last() {
                SkeletonIndex::External(_) => Some(st),
                SkeletonIndex::LocalDummy { original, range } => if shared.contains(original) {
                    if first_value(st.0, original) is None {
                        let slot = last_count(st.1, range);
                        match pool_name(cx, range, slot as int) {
                            Some(c) => Some((st.0.push((original, c)), st.1.push((range, (slot + 1) as usize)), st.2, st.3)),
                            None => None,
                        }
                    } else {
                        Some(st)
                    }
                } else {
                    match private_step((st.0, st.2, st.3), original, range, side, cx) {
                        Some(p) => Some((p.0, st.1, p.1, p.2)),
                        None => None,
                    }
                },
            },
        }
    }
}

proof fn lemma_owner_walk_none(
    xs: Seq<SkeletonIndex>,
    ys: Seq<SkeletonIndex>,
    init: (Seq<(IndexId, IndexId)>, Seq<(RangeId, usize)>, Seq<(RangeId, usize)>, Seq<(RangeId, usize)>),
    shared: Seq<IndexId>,
    side: SplitSide,
    cx: &CanonDefContext,
)
    requires
        owner_walk(xs, init, shared, side, cx) is None,
    ensures
        owner_walk(xs + ys, init, shared, side, cx) is None,
    decreases ys.len(),
{
    if ys.len() == 0 {
        assert(xs + ys =~= xs);
    } else {
        lemma_owner_walk_none(xs, ys.drop_last(), init, shared, side, cx);
        assert((xs + ys).drop_last() =~= xs + ys.drop_last());
    }
}

/// The follower's naming state (map, left and right private counters) after
/// walking `xs`: external indices keep their ids, shared ones keep the
/// owner's names, private ones are named by side.
spec fn follower_walk(
    xs: Seq<SkeletonIndex>,
    init: (Seq<(IndexId, IndexId)>, Seq<(RangeId, usize)>, Seq<(RangeId, usize)>),
    shared: Seq<IndexId>,
    side: SplitSide,
    cx: &CanonDefContext,
) -> Option<(Seq<(IndexId, IndexId)>, Seq<(RangeId, usize)>, Seq<(RangeId, usize)>)>
    decreases xs.len(),
{
    if xs.len() == 0 {
        Some(init)
    } else {
        match follower_walk(xs.drop_last(), init, shared, side, cx) {
            None => None,
            Some(st) => match xs.last() {
                SkeletonIndex::External(id) => if first_value(st.0, id) is None {
                    Some((st.0.push((id, id)), st.1, st.2))
                } else {
                    Some(st)
                },
                SkeletonIndex::LocalDummy { original, range } => if shared.contains(original) {
                    Some(st)
                } else {
                    private_step(st, original, range, side, cx)
                },
            },
        }
    }
}

proof fn lemma_follower_walk_none(
    xs: Seq<SkeletonIndex>,
    ys: Seq<SkeletonIndex>,
    init: (Seq<(IndexId, IndexId)>, Seq<(RangeId, usize)>, Seq<(RangeId, usize)>),
    shared: Seq<IndexId>,
    side: SplitSide,
    cx: &CanonDefContext,
)
    requires
        follower_walk(xs, init, shared, side, cx) is None,
    ensures
        follower_walk(xs + ys, init, shared, side, cx) is None,
    decreases ys.len(),
{
    if ys.len() == 0 {
        assert(xs + ys =~= xs);
    } else {
        lemma_follower_walk_none(xs, ys.drop_last(), init, shared, side, cx);
        assert((xs + ys).drop_last() =~= xs + ys.drop_last());
    }
}

/// The entries of `m`, in order, whose original id is in `shared`.
spec fn shared_entries(m: Seq<(IndexId, IndexId)>, shared: Seq<IndexId>) -> Seq<(IndexId, IndexId)>
    decreases m.len(),
{
    if m.len() == 0 {
        seq![]
    } else if shared.contains(m.last().0) {
        shared_entries(m.drop_last(), shared).push(m.last())
    } else {
        shared_entries(m.drop_last(), shared)
    }
}

/// Name the indices of one split side as the owner of the shared indices:
/// shared ones from the front of the pool, private ones by side. Returns the
/// side and the names of its shared indices.
fn rename_owner_skeleton(
    original: &Term,
    skeleton: &TermSkeleton,
    side: SplitSide,
    shared_ids: &Vec<IndexId>,
    cx: &CanonDefContext,
) -> (r: Option<(Term, Vec<(IndexId, IndexId)>)>)
    ensures
        r matches Some(res) ==> res.0.factors@.len() == skeleton.factors@.len() && res.0.coeff == skeleton.coeff
            && (forall|k: int| 0 <= k < res.0.factors@.len() ==> (#[trigger] res.0.factors@[k]).tensor == skeleton.factors@[k].tensor
                && res.0.factors@[k].indices@.len() == skeleton.factors@[k].indices@.len())
            && sums_sorted(res.0.sum_indices@),
        r is Some <==> starts_ok(cx, split_counts(original, shared_ids@)) && (owner_walk(
            skel_flat(skeleton.factors@),
            owner_init(original, shared_ids@, cx),
            shared_ids@,
            side,
            cx,
        ) matches Some(st) && all_named(skeleton.factors@, st.0)),
        r matches Some(res) ==> owner_walk(skel_flat(skeleton.factors@), owner_init(original, shared_ids@, cx), shared_ids@, side, cx)
            matches Some(st) && (forall|k: int, j: int| 0 <= k < res.0.factors@.len() && 0 <= j < res.0.factors@[k].indices@.len()
            ==> Some(#[trigger] res.0.factors@[k].indices@[j]) == skel_name(skeleton.factors@[k].indices@[j], st.0))
            && res.0.sum_indices@.to_multiset() == private_sums(original.sum_indices@, shared_ids@, st.0).to_multiset()
            && res.1@ == shared_entries(st.0, shared_ids@),
{
    let shared_counts = split_shared_counts(original, shared_ids);
    let mut shared_map: Vec<(IndexId, IndexId)> = Vec::new();
    let mut shared_counters: Vec<(RangeId, usize)> = Vec::new();
    let mut left_private_counters = copy_vec(&shared_counts);
    let mut right_private_counters = match split_right_private_starts(cx, &shared_counts) {
        Some(v) => v,
        None => return None,
    };
    assert(right_private_counters@ =~= right_starts(cx, shared_counts@));
    let ghost init = owner_init(original, shared_ids@, cx);
    let ghost sk = skeleton.factors@;
    let mut f: usize = 0;
    assert(sk.take(0) =~= Seq::<SkeletonFactor>::empty());
    while f < skeleton.factors.len()
        invariant
            f <= sk.len(),
            sk == skeleton.factors@,
            init == owner_init(original, shared_ids@, cx),
            owner_walk(skel_flat(sk.take(f as int)), init, shared_ids@, side, cx) == Some(
                (shared_map@, shared_counters@, left_private_counters@, right_private_counters@),
            ),
        decreases skeleton.factors.len() - f,
    {
        let sf = &skeleton.factors[f];
        let ghost before = skel_flat(sk.take(f as int));
        let mut j: usize = 0;
        assert(before + sf.indices@.take(0) =~= before);
        while j < sf.indices.len()
            invariant
                j <= sf.indices@.len(),
                f < sk.len(),
                sk == skeleton.factors@,
                sf.indices@ == sk[f as int].indices@,
                before == skel_flat(sk.take(f as int)),
                init == owner_init(original, shared_ids@, cx),
                owner_walk(before + sf.indices@.take(j as int), init, shared_ids@, side, cx) == Some(
                    (shared_map@, shared_counters@, left_private_counters@, right_private_counters@),
                ),
            decreases sf.indices.len() - j,
        {
            let ghost cur = before + sf.indices@.take(j as int);
            let ghost next = before + sf.indices@.take(j + 1);
            assert(next.drop_last() =~= cur);
            assert(next.last() == sf.indices@[j as int]);
            proof {
                let rest = sf.indices@.skip(j + 1);
                assert(sf.indices@.take(j + 1) + rest =~= sf.indices@);
                assert(next + (rest + skel_flat(sk.skip(f + 1))) =~= before + sf.indices@ + skel_flat(sk.skip(f + 1)));
                lemma_skel_flat_split(sk, f as int);
                assert(next + (rest + skel_flat(sk.skip(f + 1))) == skel_flat(skeleton.factors@));
                if owner_walk(next, init, shared_ids@, side, cx) is None {
                    lemma_owner_walk_none(next, rest + skel_flat(sk.skip(f + 1)), init, shared_ids@, side, cx);
                }
            }
            assert(owner_walk(next, init, shared_ids@, side, cx) is None ==> owner_walk(
                skel_flat(skeleton.factors@),
                owner_init(original, shared_ids@, cx),
                shared_ids@,
                side,
                cx,
            ) is None);
            match sf.indices[j] {
                SkeletonIndex::External(_) => {},
                SkeletonIndex::LocalDummy { original: orig, range } => {
                    if contains_id(shared_ids.as_slice(), orig) {
                        if lookup_pair(&shared_map, orig).is_none() {
                            let slot = counter_get(&shared_counters, range);
                            let canonical = match pool_slot(cx, range, slot) {
                                Some(c) => c,
                                None => {
                                    assert(owner_walk(next, init, shared_ids@, side, cx) is None);
                                    return None;
                                },
                            };
                            shared_counters.push((range, slot + 1));
                            shared_map.push((orig, canonical));
                        }
                    } else {
                        let ghost m0 = shared_map@;
                        let ghost l0 = left_private_counters@;
                        let ghost r0 = right_private_counters@;
                        let ok = allocate_private_dummy(
                            orig,
                            range,
                            side,
                            &mut shared_map,
                            &mut left_private_counters,
                            &mut right_private_counters,
                            cx,
                        );
                        assert(ok == private_step((m0, l0, r0), orig, range, side, cx) is Some);
                        if !ok {
                            assert(owner_walk(next, init, shared_ids@, side, cx) is None);
                            return None;
                        }
                    }
                },
            }
            j = j + 1;
        }
        assert(sf.indices@.take(j as int) =~= sf.indices@);
        assert(sk.take(f + 1).drop_last() =~= sk.take(f as int));
        f = f + 1;
    }
    assert(sk.take(f as int) =~= sk);
    let term = match rebuild_split_term(original, skeleton, shared_ids, &shared_map) {
        Some(t) => t,
        None => return None,
    };
    let mut shared_only: Vec<(IndexId, IndexId)> = Vec::new();
    let mut k: usize = 0;
    while k < shared_map.len()
        invariant
            k <= shared_map@.len(),
            shared_only@ == shared_entries(shared_map@.take(k as int), shared_ids@),
        decreases shared_map.len() - k,
    {
        assert(shared_map@.take(k + 1).drop_last() =~= shared_map@.take(k as int));
        if contains_id(shared_ids.as_slice(), shared_map[k].0) {
            shared_only.push(shared_map[k]);
        }
        k = k + 1;
    }
    assert(shared_map@.take(k as int) =~= shared_map@);
    Some((term, shared_only))
}

/// The per-range counts of the shared summation indices of `original`.
spec fn split_counts(original: &Term, shared: Seq<IndexId>) -> Seq<(RangeId, usize)> {
    shared_counts_upto(original.sum_indices@, shared, original.sum_indices@.len() as int)
}

/// The owner's starting state: nothing named yet, left private names after
/// the shared ones, right private names from the end of each pool entry.
spec fn owner_init(original: &Term, shared: Seq<IndexId>, cx: &CanonDefContext) -> (
    Seq<(IndexId, IndexId)>,
    Seq<(RangeId, usize)>,
    Seq<(RangeId, usize)>,
    Seq<(RangeId, usize)>,
) {
    let sc = split_counts(original, shared);
    (seq![], seq![], sc, right_starts(cx, sc))
}

/// Name the indices of one split side as the follower: shared indices take
/// the owner's names, external ones keep theirs, private ones by side.
fn rename_follower_skeleton(
    original: &Term,
    skeleton: &TermSkeleton,
    side: SplitSide,
    shared_ids: &Vec<IndexId>,
    shared_map: &Vec<(IndexId, IndexId)>,
    cx: &CanonDefContext,
) -> (r: Option<Term>)
    ensures
        r matches Some(t) ==> t.factors@.len() == skeleton.factors@.len() && t.coeff == skeleton.coeff
            && (forall|k: int| 0 <= k < t.factors@.len() ==> (#[trigger] t.factors@[k]).tensor == skeleton.factors@[k].tensor
                && t.factors@[k].indices@.len() == skeleton.factors@[k].indices@.len())
            && sums_sorted(t.sum_indices@),
        r is Some <==> starts_ok(cx, split_counts(original, shared_ids@)) && (follower_walk(
            skel_flat(skeleton.factors@),
            follower_init(original, shared_ids@, shared_map@, cx),
            shared_ids@,
            side,
            cx,
        ) matches Some(st) && all_named(skeleton.factors@, st.0)),
        r matches Some(t) ==> follower_walk(
            skel_flat(skeleton.factors@),
            follower_init(original, shared_ids@, shared_map@, cx),
            shared_ids@,
            side,
            cx,
        ) matches Some(st) && (forall|k: int, j: int| 0 <= k < t.factors@.len() && 0 <= j < t.factors@[k].indices@.len()
            ==> Some(#[trigger] t.factors@[k].indices@[j]) == skel_name(skeleton.factors@[k].indices@[j], st.0))
            && t.sum_indices@.to_multiset() == private_sums(original.sum_indices@, shared_ids@, st.0).to_multiset(),
{
    let shared_counts = split_shared_counts(original, shared_ids);
    let mut remap = copy_vec(shared_map);
    let mut left_private_counters = copy_vec(&shared_counts);
    let mut right_private_counters = match split_right_private_starts(cx, &shared_counts) {
        Some(v) => v,
        None => return None,
    };
    assert(right_private_counters@ =~= right_starts(cx, shared_counts@));
    let ghost init = follower_init(original, shared_ids@, shared_map@, cx);
    let ghost sk = skeleton.factors@;
    let mut f: usize = 0;
    assert(sk.take(0) =~= Seq::<SkeletonFactor>::empty());
    while f < skeleton.factors.len()
        invariant
            f <= sk.len(),
            sk == skeleton.factors@,
            init == follower_init(original, shared_ids@, shared_map@, cx),
            follower_walk(skel_flat(sk.take(f as int)), init, shared_ids@, side, cx) == Some(
                (remap@, left_private_counters@, right_private_counters@),
            ),
        decreases skeleton.factors.len() - f,
    {
        let sf = &skeleton.factors[f];
        let ghost before = skel_flat(sk.take(f as int));
        let mut j: usize = 0;
        assert(before + sf.indices@.take(0) =~= before);
        while j < sf.indices.len()
            invariant
                j <= sf.indices@.len(),
                f < sk.len(),
                sk == skeleton.factors@,
                sf.indices@ == sk[f as int].indices@,
                before == skel_flat(sk.take(f as int)),
                init == follower_init(original, shared_ids@, shared_map@, cx),
                follower_walk(before + sf.indices@.take(j as int), init, shared_ids@, side, cx) == Some(
                    (remap@, left_private_counters@, right_private_counters@),
                ),
            decreases sf.indices.len() - j,
        {
            let ghost cur = before + sf.indices@.take(j as int);
            let ghost next = before + sf.indices@.take(j + 1);
            assert(next.drop_last() =~= cur);
            assert(next.last() == sf.indices@[j as int]);
            proof {
                let rest = sf.indices@.skip(j + 1);
                assert(sf.indices@.take(j + 1) + rest =~= sf.indices@);
                assert(next + (rest + skel_flat(sk.skip(f + 1))) =~= before + sf.indices@ + skel_flat(sk.skip(f + 1)));
                lemma_skel_flat_split(sk, f as int);
                if follower_walk(next, init, shared_ids@, side, cx) is None {
                    lemma_follower_walk_none(next, rest + skel_flat(sk.skip(f + 1)), init, shared_ids@, side, cx);
                }
            }
            match sf.indices[j] {
                SkeletonIndex::External(id) => {
                    if lookup_pair(&remap, id).is_none() {
                        remap.push((id, id));
                    }
                },
                SkeletonIndex::LocalDummy { original: orig, range } => {
                    if !contains_id(shared_ids.as_slice(), orig) {
                        let ghost m0 = remap@;
                        let ghost l0 = left_private_counters@;
                        let ghost r0 = right_private_counters@;
                        let ok = allocate_private_dummy(
                            orig,
                            range,
                            side,
                            &mut remap,
                            &mut left_private_counters,
                            &mut right_private_counters,
                            cx,
                        );
                        assert(ok == private_step((m0, l0, r0), orig, range, side, cx) is Some);
                        if !ok {
                            assert(follower_walk(next, init, shared_ids@, side, cx) is None);
                            return None;
                        }
                    }
                },
            }
            j = j + 1;
        }
        assert(sf.indices@.take(j as int) =~= sf.indices@);
        assert(sk.take(f + 1).drop_last() =~= sk.take(f as int));
        f = f + 1;
    }
    assert(sk.take(f as int) =~= sk);
    rebuild_split_term(original, skeleton, shared_ids, &remap)
}

/// The follower's starting state: the owner's shared names, left private
/// names after the shared ones, right private names from the end of each
/// pool entry.
spec fn follower_init(original: &Term, shared: Seq<IndexId>, shared_map: Seq<(IndexId, IndexId)>, cx: &CanonDefContext) -> (
    Seq<(IndexId, IndexId)>,
    Seq<(RangeId, usize)>,
    Seq<(RangeId, usize)>,
) {
    let sc = split_counts(original, shared);
    (shared_map, sc, right_starts(cx, sc))
}

/// The shared-name map as (original, canonical) number pairs, sorted.
/// `x` is at most `y` in the order of (first, second).
spec fn pair_at_most(x: (u32, u32), y: (u32, u32)) -> bool {
    x.0 < y.0 || (x.0 == y.0 && x.1 <= y.1)
}

/// The first position from `p` on where `s` holds a pair above `x` (or its
/// end): where inserting `x` keeps equal pairs in arrival order.
spec fn insert_position(s: Seq<(u32, u32)>, x: (u32, u32), p: int) -> int
    decreases s.len() - p,
{
    if p < 0 || p >= s.len() || !pair_at_most(s[p], x) {
        p
    } else {
        insert_position(s, x, p + 1)
    }
}

/// The (id, name) pairs of the first `i` entries of a shared map, as
/// numbers, sorted by insertion in order of arrival.
spec fn sorted_map_key(m: Seq<(IndexId, IndexId)>, i: int) -> Seq<(u32, u32)>
    decreases i,
{
    if i <= 0 {
        Seq::empty()
    } else {
        let s = sorted_map_key(m, i - 1);
        let x = (m[i - 1].0.0, m[i - 1].1.0);
        s.insert(insert_position(s, x, 0), x)
    }
}

proof fn lemma_insert_position_bounds(s: Seq<(u32, u32)>, x: (u32, u32), p: int)
    requires
        0 <= p <= s.len(),
    ensures
        p <= insert_position(s, x, p) <= s.len(),
    decreases s.len() - p,
{
    if p < s.len() && pair_at_most(s[p], x) {
        lemma_insert_position_bounds(s, x, p + 1);
    }
}

fn shared_map_key(shared_map: &Vec<(IndexId, IndexId)>) -> (r: Vec<(u32, u32)>)
    ensures
        r@ == sorted_map_key(shared_map@, shared_map@.len() as int),
{
    let mut out: Vec<(u32, u32)> = Vec::new();
    let mut i: usize = 0;
    while i < shared_map.len()
        invariant
            i <= shared_map@.len(),
            out@ == sorted_map_key(shared_map@, i as int),
            out@.len() == i,
        decreases shared_map.len() - i,
    {
        let x = (shared_map[i].0.0, shared_map[i].1.0);
        let mut p: usize = 0;
        while p < out.len() && (out[p].0 < x.0 || (out[p].0 == x.0 && out[p].1 <= x.1))
            invariant
                p <= out@.len(),
                insert_position(out@, x, 0) == insert_position(out@, x, p as int),
            decreases out.len() - p,
        {
            p = p + 1;
        }
        proof {
            lemma_insert_position_bounds(out@, x, 0);
        }
        out.insert(p, x);
        i = i + 1;
    }
    out
}

/// Three-way order of owner candidates: the term order, then the shared
/// names.
#[verifier::loop_isolation(false)]
fn owner_candidate_order(a: &(Term, Vec<(IndexId, IndexId)>), b: &(Term, Vec<(IndexId, IndexId)>)) -> (r: i8)
    ensures
        -1 <= r <= 1,
        r as int == (if term_order_spec(a.0@, b.0@) != 0 {
            term_order_spec(a.0@, b.0@)
        } else {
            keys_order(sorted_map_key(a.1@, a.1@.len() as int), sorted_map_key(b.1@, b.1@.len() as int), 0)
        }),
{
    let t = term_order(&a.0, &b.0);
    if t != 0 {
        return t;
    }
    let x = shared_map_key(&a.1);
    let y = shared_map_key(&b.1);
    let mut k: usize = 0;
    while k < x.len() && k < y.len()
        invariant
            k <= x@.len(),
            k <= y@.len(),
            keys_order(x@, y@, 0) == keys_order(x@, y@, k as int),
        decreases x.len() - k,
    {
        if x[k].0 != y[k].0 {
            return if x[k].0 < y[k].0 { -1 } else { 1 };
        }
        if x[k].1 != y[k].1 {
            return if x[k].1 < y[k].1 { -1 } else { 1 };
        }
        k = k + 1;
    }
    if x.len() != y.len() {
        return if x.len() < y.len() { -1 } else { 1 };
    }
    0
}

/// The owner side's least candidate and its shared names.
fn canon_owner_term(
    term: &Term,
    side: SplitSide,
    shared_ids: &Vec<IndexId>,
    cx: &CanonDefContext,
) -> (r: Option<(Term, Vec<(IndexId, IndexId)>)>)
    ensures
        r matches Some(res) ==> canon_shape(term, &res.0),
        r matches Some(res) ==> (term_never_negated(term, cx) ==> res.0.coeff.pair() == term.coeff.pair()),
{
    let skeletons = match enumerate_term_skeletons(term, cx) {
        Some(s) => s,
        None => return None,
    };
    let mut best: Option<(Term, Vec<(IndexId, IndexId)>)> = None;
    let mut k: usize = 0;
    while k < skeletons.len()
        invariant
            k <= skeletons@.len(),
            forall|m: int| 0 <= m < skeletons@.len() ==> skeleton_ok(term, #[trigger] skeletons@[m]),
            best matches Some(res) ==> canon_shape(term, &res.0),
            term_never_negated(term, cx) ==> forall|m: int| 0 <= m < skeletons@.len() ==> (#[trigger] skeletons@[m]).coeff.pair()
                == term.coeff.pair(),
            best matches Some(res) ==> (term_never_negated(term, cx) ==> res.0.coeff.pair() == term.coeff.pair()),
        decreases skeletons.len() - k,
    {
        assert(skeleton_ok(term, skeletons@[k as int]));
        match rename_owner_skeleton(term, &skeletons[k], side, shared_ids, cx) {
            Some(candidate) => {
                proof {
                    let sigma = choose|sigma: Seq<int>| skel_rearranges(skeletons@[k as int].factors@, term.factors@, sigma);
                    assert(crate::canon::rearranges(candidate.0.factors@, term.factors@, sigma));
                }
                let better = match &best {
                    None => true,
                    Some(b) => owner_candidate_order(&candidate, b) < 0,
                };
                if better {
                    best = Some(candidate);
                }
            },
            None => return None,
        }
        k = k + 1;
    }
    best
}

/// The follower side's least candidate given the owner's shared names.
fn canon_follower_term(
    term: &Term,
    side: SplitSide,
    shared_ids: &Vec<IndexId>,
    shared_map: &Vec<(IndexId, IndexId)>,
    cx: &CanonDefContext,
) -> (r: Option<Term>)
    ensures
        r matches Some(t) ==> canon_shape(term, &t),
        r matches Some(t) ==> (term_never_negated(term, cx) ==> t.coeff.pair() == term.coeff.pair()),
{
    let skeletons = match enumerate_term_skeletons(term, cx) {
        Some(s) => s,
        None => return None,
    };
    let mut best: Option<Term> = None;
    let mut k: usize = 0;
    while k < skeletons.len()
        invariant
            k <= skeletons@.len(),
            forall|m: int| 0 <= m < skeletons@.len() ==> skeleton_ok(term, #[trigger] skeletons@[m]),
            best matches Some(t) ==> canon_shape(term, &t),
            term_never_negated(term, cx) ==> forall|m: int| 0 <= m < skeletons@.len() ==> (#[trigger] skeletons@[m]).coeff.pair()
                == term.coeff.pair(),
            best matches Some(t) ==> (term_never_negated(term, cx) ==> t.coeff.pair() == term.coeff.pair()),
        decreases skeletons.len() - k,
    {
        assert(skeleton_ok(term, skeletons@[k as int]));
        match rename_follower_skeleton(term, &skeletons[k], side, shared_ids, shared_map, cx) {
            Some(candidate) => {
                proof {
                    let sigma = choose|sigma: Seq<int>| skel_rearranges(skeletons@[k as int].factors@, term.factors@, sigma);
                    assert(crate::canon::rearranges(candidate.factors@, term.factors@, sigma));
                }
                let better = match &best {
                    None => true,
                    Some(b) => term_order(&candidate, b) < 0,
                };
                if better {
                    best = Some(candidate);
                }
            },
            None => return None,
        }
        k = k + 1;
    }
    best
}

/// Canonicalise both sides of a split twice: with the left side owning the
/// names of the indices the two sides share (and the right side following),
/// and with the right side owning them. The last-step pattern is kept.
/// `None` when a side cannot be canonicalised.
pub fn canon_split(split: &TermSplit, cx: &CanonDefContext) -> (r: Option<CanonSplitPair>)
    ensures
        r matches Some(p) ==> {
            &&& p.left_assigned.last_step@ == split.last_step@
            &&& p.right_assigned.last_step@ == split.last_step@
            &&& canon_shape(&split.left_sub_term, &p.left_assigned.left_sub_term)
            &&& canon_shape(&split.right_sub_term, &p.left_assigned.right_sub_term)
            &&& canon_shape(&split.left_sub_term, &p.right_assigned.left_sub_term)
            &&& canon_shape(&split.right_sub_term, &p.right_assigned.right_sub_term)
        },
        r matches Some(p) ==> (term_never_negated(&split.left_sub_term, cx) ==> p.left_assigned.left_sub_term.coeff.pair()
            == split.left_sub_term.coeff.pair() && p.right_assigned.left_sub_term.coeff.pair() == split.left_sub_term.coeff.pair()),
        r matches Some(p) ==> (term_never_negated(&split.right_sub_term, cx) ==> p.left_assigned.right_sub_term.coeff.pair()
            == split.right_sub_term.coeff.pair() && p.right_assigned.right_sub_term.coeff.pair() == split.right_sub_term.coeff.pair()),
{
    let shared_ids = shared_ids_for_split(split);
    let (left_owner_term, left_shared_map) = match canon_owner_term(&split.left_sub_term, SplitSide::Left, &shared_ids, cx) {
        Some(x) => x,
        None => return None,
    };
    let right_follower_term = match canon_follower_term(
        &split.right_sub_term,
        SplitSide::Right,
        &shared_ids,
        &left_shared_map,
        cx,
    ) {
        Some(x) => x,
        None => return None,
    };
    let (right_owner_term, right_shared_map) = match canon_owner_term(&split.right_sub_term, SplitSide::Right, &shared_ids, cx) {
        Some(x) => x,
        None => return None,
    };
    let left_follower_term = match canon_follower_term(
        &split.left_sub_term,
        SplitSide::Left,
        &shared_ids,
        &right_shared_map,
        cx,
    ) {
        Some(x) => x,
        None => return None,
    };
    Some(CanonSplitPair {
        left_assigned: TermSplit {
            left_sub_term: left_owner_term,
            right_sub_term: right_follower_term,
            last_step: split.last_step.clone(),
        },
        right_assigned: TermSplit {
            left_sub_term: left_follower_term,
            right_sub_term: right_owner_term,
            last_step: split.last_step.clone(),
        },
    })
}
} // verus!
