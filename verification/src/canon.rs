//! Canonical forms of terms: each factor's indices brought to their least
//! symmetric arrangement, factors sorted, and summation indices renamed by
//! order of first appearance.
use vstd::prelude::*;

use crate::enumerate::{bfs_listing, elem_views, enumerate_sym_group, gens_fit, sym_group_ok};
use crate::rational::Rational;
use crate::repr::{
    factor_models, gen_models, info_models, Factor, TensorDef, permute, sym_bits, sym_combine, FactorModel, GenModel, Index,
    IndexId, InfoModel, RangeId, SymAction, SymGenerator, TensorId, TensorInfo, Term, TermModel,
};
use crate::rl_parenth::{find_last_pos, last_pos, lemma_last_pos};
use crate::sort::{lemma_seq_le_antisym, lemma_seq_le_total, lemma_seq_le_trans, seq_le, stable_sort_order, vec_eq, vec_le, SortKey};

verus! {

// ---------------------------------------------------------------------------
// Coefficient actions
// ---------------------------------------------------------------------------

/// Whether an action negates the coefficient.
pub open spec fn negates(a: SymAction) -> bool {
    sym_bits(a).0
}

/// The coefficient `c` after action `a`, as a (numerator, denominator) pair.
pub open spec fn acted_pair(c: Rational, a: SymAction) -> (int, int) {
    if negates(a) {
        (-c.num(), c.den())
    } else {
        c.pair()
    }
}

/// Apply a symmetry action to a coefficient: negations flip its sign,
/// conjugation leaves a real coefficient unchanged.
pub fn apply_action_to_coeff(coeff: Rational, action: SymAction) -> (r: Rational)
    requires
        negates(action) ==> coeff.num() > i64::MIN,
    ensures
        r.pair() == acted_pair(coeff, action),
{
    match action {
        SymAction::Identity => coeff,
        SymAction::Negate => coeff.neg(),
        SymAction::Conjugate => coeff,
        SymAction::NegateConjugate => coeff.neg(),
    }
}

/// The actions of `results`, combined from left to right starting at `Identity`.
pub open spec fn combined_action(results: Seq<(Seq<IndexId>, SymAction)>) -> SymAction
    decreases results.len(),
{
    if results.len() == 0 {
        SymAction::Identity
    } else {
        sym_combine(combined_action(results.drop_last()), results.last().1)
    }
}

// ---------------------------------------------------------------------------
// Least arrangement of one factor's indices
// ---------------------------------------------------------------------------

pub open spec fn ids_nums(s: Seq<IndexId>) -> Seq<u32> {
    s.map_values(|i: IndexId| i.0)
}

/// Strict lexicographic order of index lists.
pub open spec fn ids_lt(a: Seq<IndexId>, b: Seq<IndexId>) -> bool {
    seq_le(ids_nums(a), ids_nums(b)) && ids_nums(a) != ids_nums(b)
}

pub(crate) fn ids_to_nums(v: &Vec<IndexId>) -> (r: Vec<u32>)
    ensures
        r@ == ids_nums(v@),
{
    let mut out: Vec<u32> = Vec::new();
    let mut i: usize = 0;
    while i < v.len()
        invariant
            i <= v@.len(),
            out@ == ids_nums(v@.take(i as int)),
        decreases v.len() - i,
    {
        out.push(v[i].0);
        i = i + 1;
        assert(out@ =~= ids_nums(v@.take(i as int)));
    }
    assert(v@.take(v@.len() as int) =~= v@);
    out
}

pub(crate) fn permute_ids(perm: &Vec<usize>, indices: &Vec<IndexId>) -> (r: Vec<IndexId>)
    requires
        perm@.len() == indices@.len(),
        forall|i: int| 0 <= i < perm@.len() ==> #[trigger] perm@[i] < indices@.len(),
    ensures
        r@ == permute(perm@, indices@),
{
    let mut out: Vec<IndexId> = Vec::new();
    let mut i: usize = 0;
    while i < perm.len()
        invariant
            i <= perm@.len(),
            perm@.len() == indices@.len(),
            forall|k: int| 0 <= k < perm@.len() ==> #[trigger] perm@[k] < indices@.len(),
            out@ == permute(perm@, indices@).take(i as int),
        decreases perm.len() - i,
    {
        out.push(indices[perm[i]]);
        i = i + 1;
        assert(out@ =~= permute(perm@, indices@).take(i as int));
    }
    assert(out@ =~= permute(perm@, indices@));
    out
}

/// `id` is a summation index of a term with summation indices `sums`.
pub open spec fn is_dummy(sums: Seq<Index>, id: IndexId) -> bool {
    last_pos(sums, id) >= 0
}

/// The range of a summation index (its last declaration wins).
pub open spec fn dummy_range(sums: Seq<Index>, id: IndexId) -> RangeId {
    sums[last_pos(sums, id)].range
}

/// Names given to the summation indices met in `flat[..p]`, and the number
/// used so far per range: each new summation index of range `r` gets
/// `u32::MAX - c`, where `c` counts the earlier new ones of that range.
pub open spec fn dummy_naming(flat: Seq<IndexId>, sums: Seq<Index>, p: int) -> (Map<IndexId, u32>, Map<RangeId, nat>)
    decreases p,
{
    if p <= 0 {
        (Map::empty(), Map::empty())
    } else {
        let prev = dummy_naming(flat, sums, p - 1);
        let id = flat[p - 1];
        if is_dummy(sums, id) && !prev.0.dom().contains(id) {
            let r = dummy_range(sums, id);
            let c: nat = if prev.1.dom().contains(r) { prev.1[r] } else { 0 };
            (prev.0.insert(id, (u32::MAX - c) as u32), prev.1.insert(r, c + 1))
        } else {
            prev
        }
    }
}

/// Canonical index of a term position, after factors are sorted into the
/// index sequence `flat`: an external index keeps its id (with its declared
/// range), a summation index takes its name from `dummy_naming`.
pub open spec fn canon_index_spec(ext: Seq<Index>, sums: Seq<Index>, flat: Seq<IndexId>, id: IndexId) -> CanonIndex {
    if last_pos(ext, id) >= 0 {
        CanonIndex { range: ext[last_pos(ext, id)].range, canon_id: id.0 }
    } else {
        CanonIndex { range: dummy_range(sums, id), canon_id: dummy_naming(flat, sums, flat.len() as int).0[id] }
    }
}

/// The index lists of `s`, concatenated.
pub open spec fn flat_ids(s: Seq<(TensorId, Seq<IndexId>)>) -> Seq<IndexId>
    decreases s.len(),
{
    if s.len() == 0 {
        seq![]
    } else {
        flat_ids(s.drop_last()) + s.last().1
    }
}

proof fn lemma_flat_contains(s: Seq<(TensorId, Seq<IndexId>)>, k: int, j: int)
    requires
        0 <= k < s.len(),
        0 <= j < s[k].1.len(),
    ensures
        flat_ids(s).contains(s[k].1[j]),
    decreases s.len(),
{
    let f = flat_ids(s);
    if k == s.len() - 1 {
        let pre = flat_ids(s.drop_last());
        assert(f[pre.len() + j] == s[k].1[j]);
    } else {
        lemma_flat_contains(s.drop_last(), k, j);
        let pre = flat_ids(s.drop_last());
        let w = choose|w: int| 0 <= w < pre.len() && pre[w] == s[k].1[j];
        assert(f[w] == pre[w]);
    }
}

// ---------------------------------------------------------------------------
// Association lists
// ---------------------------------------------------------------------------

/// The map an association list denotes (a later entry overrides an earlier one).
pub open spec fn assoc_map<K, V>(s: Seq<(K, V)>) -> Map<K, V>
    decreases s.len(),
{
    if s.len() == 0 {
        Map::empty()
    } else {
        assoc_map(s.drop_last()).insert(s.last().0, s.last().1)
    }
}

fn lookup_id(list: &Vec<(IndexId, u32)>, id: IndexId) -> (r: Option<u32>)
    ensures
        r == (if assoc_map(list@).dom().contains(id) { Some(assoc_map(list@)[id]) } else { None::<u32> }),
{
    assert(list@.take(list@.len() as int) =~= list@);
    let mut j: usize = list.len();
    while j > 0
        invariant
            j <= list@.len(),
            forall|m: int| j <= m < list@.len() ==> #[trigger] list@[m].0 != id,
            assoc_map(list@).dom().contains(id) == assoc_map(list@.take(j as int)).dom().contains(id),
            assoc_map(list@).dom().contains(id) ==> assoc_map(list@)[id] == assoc_map(list@.take(j as int))[id],
        decreases j,
    {
        assert(list@.take(j as int).drop_last() =~= list@.take(j - 1));
        if list[j - 1].0.0 == id.0 {
            return Some(list[j - 1].1);
        }
        j = j - 1;
    }
    None
}

fn lookup_range_count(list: &Vec<(RangeId, u32)>, r: RangeId) -> (res: Option<u32>)
    ensures
        res == (if assoc_map(list@).dom().contains(r) { Some(assoc_map(list@)[r]) } else { None::<u32> }),
{
    assert(list@.take(list@.len() as int) =~= list@);
    let mut j: usize = list.len();
    while j > 0
        invariant
            j <= list@.len(),
            forall|m: int| j <= m < list@.len() ==> #[trigger] list@[m].0 != r,
            assoc_map(list@).dom().contains(r) == assoc_map(list@.take(j as int)).dom().contains(r),
            assoc_map(list@).dom().contains(r) ==> assoc_map(list@)[r] == assoc_map(list@.take(j as int))[r],
        decreases j,
    {
        assert(list@.take(j as int).drop_last() =~= list@.take(j - 1));
        if list[j - 1].0.0 == r.0 {
            return Some(list[j - 1].1);
        }
        j = j - 1;
    }
    None
}

/// The range of `id` in `idxs` (its last occurrence), if present.
pub fn lookup_range_pub(idxs: &Vec<Index>, id: IndexId) -> (r: Option<RangeId>)
    ensures
        r is Some == (last_pos(idxs@, id) >= 0),
        r matches Some(rg) ==> rg == idxs@[last_pos(idxs@, id)].range,
{
    lookup_range(idxs, id)
}

/// The range of `id` in `idxs` (its last occurrence), if present.
pub(crate) fn lookup_range(idxs: &Vec<Index>, id: IndexId) -> (r: Option<RangeId>)
    ensures
        r is Some == (last_pos(idxs@, id) >= 0),
        r matches Some(rg) ==> rg == idxs@[last_pos(idxs@, id)].range,
{
    proof {
        lemma_last_pos(idxs@, id);
    }
    match find_last_pos(idxs, id) {
        Some(p) => Some(idxs[p].range),
        None => None,
    }
}

// ---------------------------------------------------------------------------
// Canonical terms
// ---------------------------------------------------------------------------

#[derive(Clone, Copy, Debug, PartialEq, Eq, Structural, Hash, PartialOrd, Ord)]
pub struct CanonIndex {
    pub range: RangeId,
    pub canon_id: u32,
}

#[derive(Debug, PartialEq, Eq, Hash, PartialOrd, Ord)]
pub struct CanonFactor {
    pub tensor: TensorId,
    pub indices: Vec<CanonIndex>,
}

#[derive(Debug, PartialEq, Eq, Hash)]
pub struct CanonTerm {
    pub coeff: Rational,
    pub factors: Vec<CanonFactor>,
}

impl Clone for CanonFactor {
    fn clone(&self) -> (r: Self)
        ensures
            r.tensor == self.tensor,
            r.indices@ == self.indices@,
    {
        CanonFactor { tensor: self.tensor, indices: crate::repr::copy_vec(&self.indices) }
    }
}

/// No generator of `gens` negates.
pub open spec fn no_negation(gens: Seq<GenModel>) -> bool {
    forall|g: int| 0 <= g < gens.len() ==> !negates(#[trigger] gens[g].action)
}

/// The inputs on which `canon_term` is defined: every factor's tensor is
/// listed, its symmetry generators act on its slots, every index is
/// external or summed, the coefficient can be negated (or no symmetry of
/// the term's tensors negates), and the term's index positions can be
/// counted in `u32`.
pub open spec fn canon_term_inputs_ok(term: TermModel, ext: Seq<Index>, tensors: Seq<InfoModel>) -> bool {
    &&& (term.coeff.num() > i64::MIN || forall|i: int| 0 <= i < term.factors.len() ==> no_negation(
        tensors[(#[trigger] term.factors[i]).tensor.0 as int].symmetry,
    ))
    &&& forall|i: int| 0 <= i < term.factors.len() ==> (#[trigger] term.factors[i]).tensor.0 < tensors.len()
    &&& forall|i: int| 0 <= i < term.factors.len() ==> (tensors[(#[trigger] term.factors[i]).tensor.0 as int].symmetry.len() > 0
        ==> gens_fit(tensors[term.factors[i].tensor.0 as int].symmetry, term.factors[i].indices.len() as int))
    &&& forall|i: int, j: int| 0 <= i < term.factors.len() && 0 <= j < term.factors[i].indices.len()
        ==> last_pos(ext, #[trigger] term.factors[i].indices[j]) >= 0 || last_pos(term.sum_indices, term.factors[i].indices[j]) >= 0
    &&& flat_len(term.factors) < u32::MAX
}

/// Total number of index positions of a list of factors.
pub open spec fn flat_len(factors: Seq<FactorModel>) -> int
    decreases factors.len(),
{
    if factors.len() == 0 {
        0
    } else {
        flat_len(factors.drop_last()) + factors.last().indices.len()
    }
}

// ---------------------------------------------------------------------------
// Structural keys: what a factor looks like with summation ids forgotten
// ---------------------------------------------------------------------------

/// The structural key of an index: an external index by its id, a summation
/// index by its range alone, anything else last.
pub open spec fn id_key(ext: Seq<Index>, sums: Seq<Index>, id: IndexId) -> (u32, u32) {
    if last_pos(ext, id) >= 0 {
        (0u32, id.0)
    } else if is_dummy(sums, id) {
        (1u32, dummy_range(sums, id).0)
    } else {
        (2u32, 0u32)
    }
}

/// The structural keys of an index list.
pub open spec fn ids_key(ext: Seq<Index>, sums: Seq<Index>, ids: Seq<IndexId>) -> Seq<(u32, u32)> {
    ids.map_values(|id: IndexId| id_key(ext, sums, id))
}

/// Strict lexicographic order of key lists (a proper prefix comes first).
pub open spec fn key_lt(a: Seq<(u32, u32)>, b: Seq<(u32, u32)>) -> bool
    decreases a.len(),
{
    if a.len() == 0 {
        b.len() > 0
    } else if b.len() == 0 {
        false
    } else if a[0] != b[0] {
        a[0].0 < b[0].0 || (a[0].0 == b[0].0 && a[0].1 < b[0].1)
    } else {
        key_lt(a.drop_first(), b.drop_first())
    }
}

fn keys_less(a: &Vec<(u32, u32)>, b: &Vec<(u32, u32)>, i: usize) -> (r: bool)
    requires
        i <= a@.len(),
        i <= b@.len(),
    ensures
        r == key_lt(a@.skip(i as int), b@.skip(i as int)),
    decreases a@.len() - i,
{
    if i == a.len() {
        assert(a@.skip(i as int).len() == 0);
        return i < b.len();
    }
    if i == b.len() {
        return false;
    }
    assert(a@.skip(i as int)[0] == a@[i as int]);
    assert(b@.skip(i as int)[0] == b@[i as int]);
    if a[i].0 != b[i].0 || a[i].1 != b[i].1 {
        return a[i].0 < b[i].0 || (a[i].0 == b[i].0 && a[i].1 < b[i].1);
    }
    assert(a@.skip(i as int).drop_first() =~= a@.skip(i + 1));
    assert(b@.skip(i as int).drop_first() =~= b@.skip(i + 1));
    keys_less(a, b, i + 1)
}

fn id_key_exec(ext: &Vec<Index>, sums: &Vec<Index>, id: IndexId) -> (r: (u32, u32))
    ensures
        r == id_key(ext@, sums@, id),
{
    match lookup_range(ext, id) {
        Some(_) => (0, id.0),
        None => match lookup_range(sums, id) {
            Some(rg) => (1, rg.0),
            None => (2, 0),
        },
    }
}

fn ids_key_exec(ext: &Vec<Index>, sums: &Vec<Index>, ids: &Vec<IndexId>) -> (r: Vec<(u32, u32)>)
    ensures
        r@ == ids_key(ext@, sums@, ids@),
{
    let mut out: Vec<(u32, u32)> = Vec::new();
    let mut i: usize = 0;
    while i < ids.len()
        invariant
            i <= ids@.len(),
            out@ == ids_key(ext@, sums@, ids@.take(i as int)),
        decreases ids.len() - i,
    {
        out.push(id_key_exec(ext, sums, ids[i]));
        i = i + 1;
        assert(out@ =~= ids_key(ext@, sums@, ids@.take(i as int)));
    }
    assert(ids@.take(i as int) =~= ids@);
    out
}

// ---------------------------------------------------------------------------
// Least arrangement of one factor's indices
// ---------------------------------------------------------------------------

/// The arrangement of `indices` by the first `k` group elements whose key is
/// least, the first element reaching it winning, with that element's action
/// (starting from the arrangement as given, with no action).
pub open spec fn key_best(
    elems: Seq<(Vec<usize>, SymAction)>,
    indices: Seq<IndexId>,
    ext: Seq<Index>,
    sums: Seq<Index>,
    k: int,
) -> (Seq<IndexId>, SymAction)
    decreases k,
{
    if k <= 0 {
        (indices, SymAction::Identity)
    } else {
        let prev = key_best(elems, indices, ext, sums, k - 1);
        let cand = permute(elems[k - 1].0@, indices);
        if key_lt(ids_key(ext, sums, cand), ids_key(ext, sums, prev.0)) {
            (cand, elems[k - 1].1)
        } else {
            prev
        }
    }
}

/// The factor's indices in least structural arrangement over `elements`,
/// with the action of the group element used and the arrangement's key.
fn arrange_factor(
    indices: &Vec<IndexId>,
    elements: &Vec<(Vec<usize>, SymAction)>,
    ext: &Vec<Index>,
    sums: &Vec<Index>,
) -> (r: (Vec<IndexId>, SymAction, Vec<(u32, u32)>))
    requires
        forall|i: int| 0 <= i < elements@.len() ==> (#[trigger] elements@[i]).0@.len() == indices@.len()
            && crate::repr::perm_in_bounds(elements@[i].0@, indices@.len() as int),
    ensures
        (r.0@, r.1) == key_best(elements@, indices@, ext@, sums@, elements@.len() as int),
        r.2@ == ids_key(ext@, sums@, r.0@),
{
    let mut best: Vec<IndexId> = crate::repr::copy_vec(indices);
    let mut best_key = ids_key_exec(ext, sums, &best);
    let mut best_action = SymAction::Identity;
    let mut k: usize = 0;
    while k < elements.len()
        invariant
            k <= elements@.len(),
            forall|i: int| 0 <= i < elements@.len() ==> (#[trigger] elements@[i]).0@.len() == indices@.len()
                && crate::repr::perm_in_bounds(elements@[i].0@, indices@.len() as int),
            (best@, best_action) == key_best(elements@, indices@, ext@, sums@, k as int),
            best_key@ == ids_key(ext@, sums@, best@),
        decreases elements.len() - k,
    {
        let perm = &elements[k].0;
        let permuted = permute_ids(perm, indices);
        let key = ids_key_exec(ext, sums, &permuted);
        assert(key@.skip(0) =~= key@);
        assert(best_key@.skip(0) =~= best_key@);
        if keys_less(&key, &best_key, 0) {
            best = permuted;
            best_key = key;
            best_action = elements[k].1;
        }
        k = k + 1;
    }
    (best, best_action, best_key)
}

// ---------------------------------------------------------------------------
// Sorting arranged factors by structural key
// ---------------------------------------------------------------------------

/// `x` comes strictly before `y`: by tensor id, then by structural key.
pub open spec fn raw_lt(ext: Seq<Index>, sums: Seq<Index>, x: (TensorId, Seq<IndexId>), y: (TensorId, Seq<IndexId>)) -> bool {
    x.0.0 < y.0.0 || (x.0.0 == y.0.0 && key_lt(ids_key(ext, sums, x.1), ids_key(ext, sums, y.1)))
}

/// `x` inserted into `s` before the first element it comes strictly before.
pub open spec fn insert_raw(
    ext: Seq<Index>,
    sums: Seq<Index>,
    x: (TensorId, Seq<IndexId>),
    s: Seq<(TensorId, Seq<IndexId>)>,
) -> Seq<(TensorId, Seq<IndexId>)>
    decreases s.len(),
{
    if s.len() == 0 {
        seq![x]
    } else if raw_lt(ext, sums, x, s[0]) {
        seq![x] + s
    } else {
        seq![s[0]] + insert_raw(ext, sums, x, s.drop_first())
    }
}

/// `s` sorted by insertion, stably, in `raw_lt` order.
pub open spec fn sort_raw(ext: Seq<Index>, sums: Seq<Index>, s: Seq<(TensorId, Seq<IndexId>)>) -> Seq<(TensorId, Seq<IndexId>)>
    decreases s.len(),
{
    if s.len() == 0 {
        seq![]
    } else {
        insert_raw(ext, sums, s.last(), sort_raw(ext, sums, s.drop_last()))
    }
}

proof fn lemma_insert_raw_at(
    ext: Seq<Index>,
    sums: Seq<Index>,
    x: (TensorId, Seq<IndexId>),
    s: Seq<(TensorId, Seq<IndexId>)>,
    p: int,
)
    requires
        0 <= p <= s.len(),
        forall|k: int| 0 <= k < p ==> !raw_lt(ext, sums, x, #[trigger] s[k]),
        p < s.len() ==> raw_lt(ext, sums, x, s[p]),
    ensures
        insert_raw(ext, sums, x, s) == s.insert(p, x),
    decreases s.len(),
{
    if s.len() == 0 {
        assert(s.insert(p, x) =~= seq![x]);
    } else if p == 0 {
        assert(s.insert(0, x) =~= seq![x] + s);
    } else {
        assert(!raw_lt(ext, sums, x, s[0]));
        let t = s.drop_first();
        assert forall|k: int| 0 <= k < p - 1 implies !raw_lt(ext, sums, x, #[trigger] t[k]) by {
            assert(t[k] == s[k + 1]);
        }
        lemma_insert_raw_at(ext, sums, x, t, p - 1);
        assert(seq![s[0]] + t.insert(p - 1, x) =~= s.insert(p, x));
    }
}

proof fn lemma_flat_ids_concat(a: Seq<(TensorId, Seq<IndexId>)>, b: Seq<(TensorId, Seq<IndexId>)>)
    ensures
        flat_ids(a + b) == flat_ids(a) + flat_ids(b),
    decreases b.len(),
{
    if b.len() == 0 {
        assert(a + b =~= a);
        assert(flat_ids(a) + flat_ids(b) =~= flat_ids(a));
    } else {
        lemma_flat_ids_concat(a, b.drop_last());
        assert((a + b).drop_last() =~= a + b.drop_last());
        assert(flat_ids(a) + flat_ids(b.drop_last()) + b.last().1 =~= flat_ids(a) + (flat_ids(b.drop_last()) + b.last().1));
    }
}

proof fn lemma_flat_single(x: (TensorId, Seq<IndexId>))
    ensures
        flat_ids(seq![x]) == x.1,
{
    let e = Seq::<(TensorId, Seq<IndexId>)>::empty();
    assert(seq![x].drop_last() =~= e);
    assert(seq![x].last() == x);
    assert(flat_ids(e) == Seq::<IndexId>::empty());
    assert(Seq::<IndexId>::empty() + x.1 =~= x.1);
    assert(flat_ids(seq![x]) == flat_ids(seq![x].drop_last()) + seq![x].last().1);
}

proof fn lemma_insert_raw_len(ext: Seq<Index>, sums: Seq<Index>, x: (TensorId, Seq<IndexId>), s: Seq<(TensorId, Seq<IndexId>)>)
    ensures
        flat_ids(insert_raw(ext, sums, x, s)).len() == flat_ids(s).len() + x.1.len(),
        insert_raw(ext, sums, x, s).len() == s.len() + 1,
    decreases s.len(),
{
    lemma_flat_single(x);
    if s.len() == 0 {
    } else {
        lemma_flat_single(s[0]);
        assert(s =~= seq![s[0]] + s.drop_first());
        lemma_flat_ids_concat(seq![s[0]], s.drop_first());
        if raw_lt(ext, sums, x, s[0]) {
            lemma_flat_ids_concat(seq![x], s);
        } else {
            lemma_insert_raw_len(ext, sums, x, s.drop_first());
            lemma_flat_ids_concat(seq![s[0]], insert_raw(ext, sums, x, s.drop_first()));
        }
    }
}

proof fn lemma_sort_raw_len(ext: Seq<Index>, sums: Seq<Index>, s: Seq<(TensorId, Seq<IndexId>)>)
    ensures
        flat_ids(sort_raw(ext, sums, s)).len() == flat_ids(s).len(),
        sort_raw(ext, sums, s).len() == s.len(),
    decreases s.len(),
{
    if s.len() > 0 {
        lemma_sort_raw_len(ext, sums, s.drop_last());
        lemma_insert_raw_len(ext, sums, s.last(), sort_raw(ext, sums, s.drop_last()));
    }
}

/// An arranged factor: tensor, indices, and the indices' structural key.
type KeyedRaw = (TensorId, Vec<IndexId>, Vec<(u32, u32)>);

pub open spec fn raw_view(v: Seq<(TensorId, Vec<IndexId>, Vec<(u32, u32)>)>) -> Seq<(TensorId, Seq<IndexId>)> {
    v.map_values(|e: (TensorId, Vec<IndexId>, Vec<(u32, u32)>)| (e.0, e.1@))
}

fn raw_less(ext: &Vec<Index>, sums: &Vec<Index>, x: &KeyedRaw, y: &KeyedRaw) -> (r: bool)
    requires
        x.2@ == ids_key(ext@, sums@, x.1@),
        y.2@ == ids_key(ext@, sums@, y.1@),
    ensures
        r == raw_lt(ext@, sums@, (x.0, x.1@), (y.0, y.1@)),
{
    if x.0.0 != y.0.0 {
        return x.0.0 < y.0.0;
    }
    assert(x.2@.skip(0) =~= x.2@);
    assert(y.2@.skip(0) =~= y.2@);
    keys_less(&x.2, &y.2, 0)
}

// ---------------------------------------------------------------------------
// The canonical form
// ---------------------------------------------------------------------------

/// Each factor's symmetry group, listed breadth-first as
/// `enumerate_sym_group` lists it (such a listing is unique).
pub open spec fn groups_ok(term: TermModel, tensors: Seq<InfoModel>, gs: Seq<Seq<(Vec<usize>, SymAction)>>) -> bool {
    &&& gs.len() == term.factors.len()
    &&& forall|i: int| 0 <= i < gs.len() ==> bfs_listing(
        tensors[term.factors[i].tensor.0 as int].symmetry,
        term.factors[i].indices.len() as nat,
        #[trigger] gs[i],
    )
}

/// Each factor's least structural arrangement, with its action.
pub open spec fn factor_results(term: TermModel, ext: Seq<Index>, gs: Seq<Seq<(Vec<usize>, SymAction)>>) -> Seq<(Seq<IndexId>, SymAction)> {
    Seq::new(
        term.factors.len(),
        |i: int| key_best(gs[i], term.factors[i].indices, ext, term.sum_indices, gs[i].len() as int),
    )
}

/// The arranged factors, in the term's order.
pub open spec fn arranged(term: TermModel, ext: Seq<Index>, gs: Seq<Seq<(Vec<usize>, SymAction)>>) -> Seq<(TensorId, Seq<IndexId>)> {
    Seq::new(term.factors.len(), |i: int| (term.factors[i].tensor, factor_results(term, ext, gs)[i].0))
}

/// The canonical index of a position once the factors are in order `flat`:
/// an external index keeps its id (with its declared range), a summation
/// index takes its name from `dummy_naming`.
pub open spec fn canon_index_of(ext: Seq<Index>, sums: Seq<Index>, flat: Seq<IndexId>, id: IndexId) -> CanonIndex {
    if last_pos(ext, id) >= 0 {
        CanonIndex { range: ext[last_pos(ext, id)].range, canon_id: id.0 }
    } else if is_dummy(sums, id) {
        CanonIndex { range: dummy_range(sums, id), canon_id: dummy_naming(flat, sums, flat.len() as int).0[id] }
    } else {
        CanonIndex { range: RangeId(0), canon_id: 0 }
    }
}

/// The canonical form of `term`, as the coefficient pair and the factors:
/// each factor's indices in least structural arrangement (the coefficient
/// taking the elements' combined action), the factors sorted stably by
/// tensor and structural key, and the summation indices named by order of
/// first appearance per range.
pub open spec fn canon_spec(term: TermModel, ext: Seq<Index>, gs: Seq<Seq<(Vec<usize>, SymAction)>>) -> ((int, int), Seq<(TensorId, Seq<CanonIndex>)>) {
    let sums = term.sum_indices;
    let sorted = sort_raw(ext, sums, arranged(term, ext, gs));
    let fl = flat_ids(sorted);
    (
        acted_pair(term.coeff, combined_action(factor_results(term, ext, gs))),
        sorted.map_values(|x: (TensorId, Seq<IndexId>)| (x.0, x.1.map_values(|id: IndexId| canon_index_of(ext, sums, fl, id)))),
    )
}

/// A canonical term as the coefficient pair and its factors.
pub open spec fn canon_model(r: CanonTerm) -> ((int, int), Seq<(TensorId, Seq<CanonIndex>)>) {
    (r.coeff.pair(), r.factors@.map_values(|f: CanonFactor| (f.tensor, f.indices@)))
}

proof fn lemma_key_best_views(
    e1: Seq<(Vec<usize>, SymAction)>,
    e2: Seq<(Vec<usize>, SymAction)>,
    indices: Seq<IndexId>,
    ext: Seq<Index>,
    sums: Seq<Index>,
    k: int,
)
    requires
        elem_views(e1) == elem_views(e2),
        0 <= k <= e1.len(),
    ensures
        key_best(e1, indices, ext, sums, k) == key_best(e2, indices, ext, sums, k),
    decreases k,
{
    if k > 0 {
        lemma_key_best_views(e1, e2, indices, ext, sums, k - 1);
        assert(elem_views(e1).len() == e1.len() && elem_views(e2).len() == e2.len());
        assert(elem_views(e1)[k - 1] == elem_views(e2)[k - 1]);
        assert(elem_views(e1)[k - 1] == (e1[k - 1].0@, e1[k - 1].1));
        assert(elem_views(e2)[k - 1] == (e2[k - 1].0@, e2[k - 1].1));
        assert(e1[k - 1].0@ == e2[k - 1].0@ && e1[k - 1].1 == e2[k - 1].1);
    }
}

/// The canonical form does not depend on which breadth-first listing of the
/// symmetry groups it is computed with: there is only one.
pub proof fn lemma_canon_spec_listing(
    term: TermModel,
    ext: Seq<Index>,
    tensors: Seq<InfoModel>,
    g1: Seq<Seq<(Vec<usize>, SymAction)>>,
    g2: Seq<Seq<(Vec<usize>, SymAction)>>,
)
    requires
        groups_ok(term, tensors, g1),
        groups_ok(term, tensors, g2),
    ensures
        canon_spec(term, ext, g1) == canon_spec(term, ext, g2),
{
    assert forall|i: int| 0 <= i < term.factors.len() implies #[trigger] factor_results(term, ext, g1)[i] == factor_results(
        term,
        ext,
        g2,
    )[i] by {
        let gens = tensors[term.factors[i].tensor.0 as int].symmetry;
        assert(bfs_listing(gens, term.factors[i].indices.len() as nat, g1[i]));
        assert(bfs_listing(gens, term.factors[i].indices.len() as nat, g2[i]));
        crate::enumerate::lemma_bfs_listing_unique(gens, term.factors[i].indices.len() as nat, g1[i], g2[i]);
        assert(g1[i].len() == elem_views(g1[i]).len());
        assert(g2[i].len() == elem_views(g2[i]).len());
        lemma_key_best_views(g1[i], g2[i], term.factors[i].indices, ext, term.sum_indices, g1[i].len() as int);
    }
    assert(factor_results(term, ext, g1) =~= factor_results(term, ext, g2));
    assert(arranged(term, ext, g1) =~= arranged(term, ext, g2));
}

pub proof fn lemma_group_no_negation(gens: Seq<GenModel>, n: nat, elems: Seq<(Vec<usize>, SymAction)>, x: int)
    requires
        sym_group_ok(gens, n, elems),
        no_negation(gens),
        0 <= x < elems.len(),
    ensures
        !negates(elems[x].1),
    decreases x,
{
    if x > 0 {
        assert(crate::enumerate::derived(gens, elems, x));
        let (y, g) = choose|y: int, g: int| #[trigger] crate::enumerate::derived_at(gens, elems, x, y, g);
        lemma_group_no_negation(gens, n, elems, y);
        assert(!negates(gens[g].action));
    }
}

proof fn lemma_key_best_no_negation(
    elems: Seq<(Vec<usize>, SymAction)>,
    indices: Seq<IndexId>,
    ext: Seq<Index>,
    sums: Seq<Index>,
    k: int,
)
    requires
        0 <= k <= elems.len(),
        forall|i: int| 0 <= i < elems.len() ==> !negates((#[trigger] elems[i]).1),
    ensures
        !negates(key_best(elems, indices, ext, sums, k).1),
    decreases k,
{
    if k > 0 {
        lemma_key_best_no_negation(elems, indices, ext, sums, k - 1);
    }
}

proof fn lemma_combined_no_negation(results: Seq<(Seq<IndexId>, SymAction)>)
    requires
        forall|i: int| 0 <= i < results.len() ==> !negates((#[trigger] results[i]).1),
    ensures
        !negates(combined_action(results)),
    decreases results.len(),
{
    if results.len() > 0 {
        lemma_combined_no_negation(results.drop_last());
    }
}

proof fn lemma_key_best_len(
    elems: Seq<(Vec<usize>, SymAction)>,
    indices: Seq<IndexId>,
    ext: Seq<Index>,
    sums: Seq<Index>,
    k: int,
)
    requires
        0 <= k <= elems.len(),
        forall|i: int| 0 <= i < elems.len() ==> (#[trigger] elems[i]).0@.len() == indices.len(),
    ensures
        key_best(elems, indices, ext, sums, k).0.len() == indices.len(),
    decreases k,
{
    if k > 0 {
        lemma_key_best_len(elems, indices, ext, sums, k - 1);
    }
}

proof fn lemma_arranged_len(term: TermModel, ext: Seq<Index>, gs: Seq<Seq<(Vec<usize>, SymAction)>>, k: int)
    requires
        0 <= k <= term.factors.len(),
        gs.len() == term.factors.len(),
        forall|i: int| 0 <= i < term.factors.len() ==> (#[trigger] factor_results(term, ext, gs)[i]).0.len()
            == term.factors[i].indices.len(),
    ensures
        flat_ids(arranged(term, ext, gs).take(k)).len() == flat_len(term.factors.take(k)),
    decreases k,
{
    if k > 0 {
        lemma_arranged_len(term, ext, gs, k - 1);
        assert(arranged(term, ext, gs).take(k).drop_last() =~= arranged(term, ext, gs).take(k - 1));
        assert(term.factors.take(k).drop_last() =~= term.factors.take(k - 1));
        assert(factor_results(term, ext, gs)[k - 1].0.len() == term.factors[k - 1].indices.len());
    }
}

/// Canonical form of a term: each factor's indices are brought to their
/// least arrangement under the tensor's symmetry group, compared by
/// structural key (external indices by id, summation indices by range
/// only), the coefficient taking the group elements' action; the factors
/// are sorted stably by tensor and structural key; external indices keep
/// their ids and summation indices are renamed per range by order of first
/// appearance, counting down from `u32::MAX`. No step reads a summation
/// index's own id, so renaming summation indices leaves the form unchanged.
pub fn canon_term(term: &Term, ext_indices: &[Index], tensors: &[TensorInfo]) -> (r: CanonTerm)
    requires
        canon_term_inputs_ok(term@, ext_indices@, info_models(tensors@)),
    ensures
        exists|gs: Seq<Seq<(Vec<usize>, SymAction)>>| #[trigger] groups_ok(term@, info_models(tensors@), gs),
        forall|gs: Seq<Seq<(Vec<usize>, SymAction)>>| #[trigger] groups_ok(term@, info_models(tensors@), gs)
            ==> canon_model(r) == canon_spec(term@, ext_indices@, gs),
{
    let ghost tm = term@;
    let ghost infos = info_models(tensors@);
    let ext = slice_to_vec(ext_indices);
    let sums = &term.sum_indices;
    let n = term.factors.len();
    let mut coeff_action = SymAction::Identity;
    let mut raws: Vec<KeyedRaw> = Vec::new();
    let ghost mut gs: Seq<Seq<(Vec<usize>, SymAction)>> = seq![];
    let ghost mut results: Seq<(Seq<IndexId>, SymAction)> = seq![];
    let mut i: usize = 0;
    while i < n
        invariant
            i <= n,
            n == term.factors@.len(),
            tm == term@,
            infos == info_models(tensors@),
            ext@ == ext_indices@,
            sums@ == tm.sum_indices,
            canon_term_inputs_ok(tm, ext_indices@, infos),
            gs.len() == i,
            results.len() == i,
            raws@.len() == i,
            coeff_action == combined_action(results),
            forall|k: int| 0 <= k < i ==> bfs_listing(
                infos[tm.factors[k].tensor.0 as int].symmetry,
                tm.factors[k].indices.len() as nat,
                #[trigger] gs[k],
            ),
            forall|k: int| 0 <= k < i ==> #[trigger] results[k] == key_best(
                gs[k],
                tm.factors[k].indices,
                ext_indices@,
                tm.sum_indices,
                gs[k].len() as int,
            ),
            forall|k: int| 0 <= k < i ==> (#[trigger] raws@[k]).0 == tm.factors[k].tensor && raws@[k].1@ == results[k].0
                && raws@[k].2@ == ids_key(ext_indices@, tm.sum_indices, raws@[k].1@),
        decreases n - i,
    {
        let f = &term.factors[i];
        assert(tm.factors[i as int] == f@);
        let t = f.tensor.0 as usize;
        let info = &tensors[t];
        assert(infos[t as int] == info@);
        let elements = enumerate_sym_group(&info.symmetry, f.indices.len());
        proof {
            assert forall|x: int| 0 <= x < elements@.len() implies (#[trigger] elements@[x]).0@.len() == f.indices@.len()
                && crate::repr::perm_in_bounds(elements@[x].0@, f.indices@.len() as int) by {
                assert(crate::enumerate::elem_perms(elements@)[x] == elements@[x].0@);
            }
        }
        let (best, action, key) = arrange_factor(&f.indices, &elements, &ext, sums);
        proof {
            let old_results = results;
            results = results.push((best@, action));
            assert(results.drop_last() =~= old_results);
            gs = gs.push(elements@);
        }
        coeff_action = coeff_action.combine(action);
        raws.push((f.tensor, best, key));
        i = i + 1;
    }
    let ghost ar = arranged(tm, ext_indices@, gs);
    proof {
        assert(results =~= factor_results(tm, ext_indices@, gs));
        assert(raw_view(raws@) =~= ar);
        assert(groups_ok(tm, infos, gs));
        assert forall|k: int| 0 <= k < tm.factors.len() implies (#[trigger] factor_results(tm, ext_indices@, gs)[k]).0.len()
            == tm.factors[k].indices.len() by {
            assert forall|x: int| 0 <= x < gs[k].len() implies (#[trigger] gs[k][x]).0@.len() == tm.factors[k].indices.len() by {
                assert(crate::enumerate::elem_perms(gs[k])[x] == gs[k][x].0@);
            }
            lemma_key_best_len(gs[k], tm.factors[k].indices, ext_indices@, tm.sum_indices, gs[k].len() as int);
        }
        lemma_arranged_len(tm, ext_indices@, gs, n as int);
        assert(ar.take(n as int) =~= ar);
        assert(tm.factors.take(n as int) =~= tm.factors);
        lemma_sort_raw_len(ext_indices@, tm.sum_indices, ar);
    }
    // Sort the arranged factors by insertion.
    let mut sorted: Vec<KeyedRaw> = Vec::new();
    let mut i: usize = 0;
    while i < raws.len()
        invariant
            i <= raws@.len(),
            ext@ == ext_indices@,
            sums@ == tm.sum_indices,
            raw_view(raws@) == ar,
            forall|k: int| 0 <= k < raws@.len() ==> (#[trigger] raws@[k]).2@ == ids_key(ext_indices@, tm.sum_indices, raws@[k].1@),
            raw_view(sorted@) == sort_raw(ext_indices@, tm.sum_indices, ar.take(i as int)),
            forall|k: int| 0 <= k < sorted@.len() ==> (#[trigger] sorted@[k]).2@ == ids_key(ext_indices@, tm.sum_indices, sorted@[k].1@),
        decreases raws.len() - i,
    {
        let x: KeyedRaw = (raws[i].0, crate::repr::copy_vec(&raws[i].1), crate::repr::copy_vec(&raws[i].2));
        assert(ar[i as int] == (x.0, x.1@));
        let mut p: usize = 0;
        while p < sorted.len() && !raw_less(&ext, sums, &x, &sorted[p])
            invariant
                p <= sorted@.len(),
                ext@ == ext_indices@,
                sums@ == tm.sum_indices,
                x.2@ == ids_key(ext_indices@, tm.sum_indices, x.1@),
                forall|k: int| 0 <= k < sorted@.len() ==> (#[trigger] sorted@[k]).2@ == ids_key(ext_indices@, tm.sum_indices, sorted@[k].1@),
                forall|k: int| 0 <= k < p ==> !raw_lt(ext_indices@, tm.sum_indices, (x.0, x.1@), #[trigger] raw_view(sorted@)[k]),
            decreases sorted.len() - p,
        {
            p = p + 1;
        }
        proof {
            lemma_insert_raw_at(ext_indices@, tm.sum_indices, (x.0, x.1@), raw_view(sorted@), p as int);
            assert(ar.take(i + 1).drop_last() =~= ar.take(i as int));
            assert(ar.take(i + 1).last() == (x.0, x.1@));
        }
        let ghost before = sorted@;
        sorted.insert(p, x);
        proof {
            assert(raw_view(sorted@) =~= raw_view(before).insert(p as int, (x.0, x.1@)));
            assert forall|k: int| 0 <= k < sorted@.len() implies (#[trigger] sorted@[k]).2@ == ids_key(
                ext_indices@,
                tm.sum_indices,
                sorted@[k].1@,
            ) by {
                if k < p {
                    assert(sorted@[k] == before[k]);
                } else if k > p {
                    assert(sorted@[k] == before[k - 1]);
                }
            }
        }
        i = i + 1;
    }
    assert(ar.take(i as int) =~= ar);
    let ghost srt = raw_view(sorted@);
    // Flatten the sorted index lists.
    let mut flat: Vec<IndexId> = Vec::new();
    let mut k: usize = 0;
    while k < sorted.len()
        invariant
            k <= sorted@.len(),
            srt == raw_view(sorted@),
            flat@ == flat_ids(srt.take(k as int)),
        decreases sorted.len() - k,
    {
        let mut j: usize = 0;
        let ghost base = flat@;
        while j < sorted[k].1.len()
            invariant
                k < sorted@.len(),
                j <= sorted@[k as int].1@.len(),
                flat@ == base + sorted@[k as int].1@.take(j as int),
            decreases sorted@[k as int].1@.len() - j,
        {
            flat.push(sorted[k].1[j]);
            j = j + 1;
            assert(flat@ =~= base + sorted@[k as int].1@.take(j as int));
        }
        proof {
            assert(sorted@[k as int].1@.take(j as int) =~= sorted@[k as int].1@);
            assert(srt.take(k + 1).drop_last() =~= srt.take(k as int));
        }
        k = k + 1;
    }
    assert(srt.take(srt.len() as int) =~= srt);
    let ghost fl = flat@;
    let ghost ss = tm.sum_indices;
    // Name the summation indices by first appearance.
    let mut names: Vec<(IndexId, u32)> = Vec::new();
    let mut counters: Vec<(RangeId, u32)> = Vec::new();
    let mut p: usize = 0;
    while p < flat.len()
        invariant
            p <= fl.len(),
            fl == flat@,
            fl.len() < u32::MAX,
            assoc_map(names@) == dummy_naming(fl, ss, p as int).0,
            forall|r: RangeId| #[trigger] assoc_map(counters@).dom().contains(r) == dummy_naming(fl, ss, p as int).1.dom().contains(r),
            forall|r: RangeId| assoc_map(counters@).dom().contains(r) ==> #[trigger] assoc_map(counters@)[r] == dummy_naming(fl, ss, p as int).1[r],
            forall|r: RangeId| dummy_naming(fl, ss, p as int).1.dom().contains(r) ==> #[trigger] dummy_naming(fl, ss, p as int).1[r] <= p,
            forall|q: int| 0 <= q < p && is_dummy(ss, #[trigger] fl[q]) ==> assoc_map(names@).dom().contains(fl[q]),
            ss == term@.sum_indices,
        decreases flat.len() - p,
    {
        let id = flat[p];
        match lookup_range(&term.sum_indices, id) {
            Some(range) => {
                if lookup_id(&names, id).is_none() {
                    let c: u32 = match lookup_range_count(&counters, range) {
                        Some(c) => c,
                        None => 0,
                    };
                    let ghost old_names = names@;
                    let ghost old_counters = counters@;
                    proof {
                        let prev = dummy_naming(fl, ss, p as int);
                        if prev.1.dom().contains(range) {
                            assert(prev.1[range] <= p);
                        }
                    }
                    names.push((id, u32::MAX - c));
                    counters.push((range, c + 1));
                    proof {
                        assert(names@.drop_last() =~= old_names);
                        assert(counters@.drop_last() =~= old_counters);
                    }
                }
            },
            None => {},
        }
        proof {
            let prev = dummy_naming(fl, ss, p as int);
            let next = dummy_naming(fl, ss, p + 1);
            assert(assoc_map(names@) == next.0);
            assert forall|r: RangeId| next.1.dom().contains(r) implies #[trigger] next.1[r] <= p + 1 by {
                if prev.1.dom().contains(r) {
                    assert(prev.1[r] <= p);
                }
            }
            assert forall|q: int| 0 <= q < p + 1 && is_dummy(ss, #[trigger] fl[q]) implies assoc_map(names@).dom().contains(fl[q]) by {
                if q < p {
                    assert(prev.0.dom().contains(fl[q]));
                }
            }
        }
        p = p + 1;
    }
    // Build the canonical factors.
    let mut factors: Vec<CanonFactor> = Vec::new();
    let mut k: usize = 0;
    while k < sorted.len()
        invariant
            k <= sorted@.len(),
            srt == raw_view(sorted@),
            fl == flat_ids(srt),
            assoc_map(names@) == dummy_naming(fl, ss, fl.len() as int).0,
            forall|q: int| 0 <= q < fl.len() && is_dummy(ss, #[trigger] fl[q]) ==> assoc_map(names@).dom().contains(fl[q]),
            ss == term@.sum_indices,
            ext@ == ext_indices@,
            factors@.len() == k,
            forall|a: int| 0 <= a < k ==> (#[trigger] factors@[a]).tensor == srt[a].0
                && factors@[a].indices@ == srt[a].1.map_values(|id: IndexId| canon_index_of(ext_indices@, ss, fl, id)),
        decreases sorted.len() - k,
    {
        let src = &sorted[k];
        let mut indices: Vec<CanonIndex> = Vec::new();
        let mut j: usize = 0;
        while j < src.1.len()
            invariant
                k < sorted@.len(),
                *src == sorted@[k as int],
                srt == raw_view(sorted@),
                fl == flat_ids(srt),
                assoc_map(names@) == dummy_naming(fl, ss, fl.len() as int).0,
                forall|q: int| 0 <= q < fl.len() && is_dummy(ss, #[trigger] fl[q]) ==> assoc_map(names@).dom().contains(fl[q]),
                ss == term@.sum_indices,
                ext@ == ext_indices@,
                j <= src.1@.len(),
                indices@ == srt[k as int].1.take(j as int).map_values(|id: IndexId| canon_index_of(ext_indices@, ss, fl, id)),
            decreases src.1@.len() - j,
        {
            let id = src.1[j];
            proof {
                assert(srt[k as int].1[j as int] == id);
                lemma_flat_contains(srt, k as int, j as int);
            }
            let ci = match lookup_range(&ext, id) {
                Some(range) => CanonIndex { range, canon_id: id.0 },
                None => match lookup_range(&term.sum_indices, id) {
                    Some(rg) => {
                        let c = match lookup_id(&names, id) {
                            Some(v) => v,
                            None => 0,
                        };
                        proof {
                            let q = choose|q: int| 0 <= q < fl.len() && fl[q] == id;
                            assert(is_dummy(ss, fl[q]));
                        }
                        CanonIndex { range: rg, canon_id: c }
                    },
                    None => CanonIndex { range: RangeId(0), canon_id: 0 },
                },
            };
            assert(ci == canon_index_of(ext_indices@, ss, fl, id));
            indices.push(ci);
            j = j + 1;
            proof {
                assert(indices@ =~= srt[k as int].1.take(j as int).map_values(|id: IndexId| canon_index_of(ext_indices@, ss, fl, id)));
            }
        }
        proof {
            assert(srt[k as int].1.take(j as int) =~= srt[k as int].1);
        }
        factors.push(CanonFactor { tensor: src.0, indices });
        k = k + 1;
    }
    proof {
        if tm.coeff.num() <= i64::MIN {
            assert forall|i: int| 0 <= i < results.len() implies !negates((#[trigger] results[i]).1) by {
                assert(no_negation(infos[tm.factors[i].tensor.0 as int].symmetry));
                assert forall|x: int| 0 <= x < gs[i].len() implies !negates((#[trigger] gs[i][x]).1) by {
                    lemma_group_no_negation(infos[tm.factors[i].tensor.0 as int].symmetry, tm.factors[i].indices.len() as nat, gs[i], x);
                }
                lemma_key_best_no_negation(gs[i], tm.factors[i].indices, ext_indices@, tm.sum_indices, gs[i].len() as int);
            }
            lemma_combined_no_negation(results);
        }
    }
    let coeff = apply_action_to_coeff(term.coeff, coeff_action);
    let r = CanonTerm { coeff, factors };
    proof {
        assert(canon_model(r).1 =~= canon_spec(tm, ext_indices@, gs).1);
        assert(canon_model(r) == canon_spec(tm, ext_indices@, gs));
        assert forall|g2: Seq<Seq<(Vec<usize>, SymAction)>>| #[trigger] groups_ok(tm, infos, g2) implies canon_model(r)
            == canon_spec(tm, ext_indices@, g2) by {
            lemma_canon_spec_listing(tm, ext_indices@, infos, gs, g2);
        }
    }
    r
}

// ---------------------------------------------------------------------------
// Renaming summation indices leaves the canonical form unchanged
// ---------------------------------------------------------------------------

/// `x` renamed by `rn`: an id in its domain takes its image, any other id
/// keeps itself.
pub open spec fn ren(rn: Map<IndexId, IndexId>, x: IndexId) -> IndexId {
    if rn.dom().contains(x) {
        rn[x]
    } else {
        x
    }
}

/// `x` is an external index of `ext` or a summation index of `sums`.
pub open spec fn known_id(ext: Seq<Index>, sums: Seq<Index>, x: IndexId) -> bool {
    last_pos(ext, x) >= 0 || last_pos(sums, x) >= 0
}

/// `t2` is `t1` with its summation indices renamed by `rn`: `rn` takes each
/// summation id of `t1`, one to one, to an id that is not external, and
/// touches no external id; factors, ranges and coefficient are otherwise
/// the same.
pub open spec fn renames_sums(t1: TermModel, t2: TermModel, ext: Seq<Index>, rn: Map<IndexId, IndexId>) -> bool {
    &&& forall|x: IndexId| #[trigger] rn.dom().contains(x) ==> last_pos(ext, x) < 0 && last_pos(ext, rn[x]) < 0
    &&& forall|x: IndexId, y: IndexId| #[trigger] rn.dom().contains(x) && #[trigger] rn.dom().contains(y) && x != y ==> rn[x] != rn[y]
    &&& forall|p: int| 0 <= p < t1.sum_indices.len() ==> rn.dom().contains(#[trigger] t1.sum_indices[p].id)
    &&& t2.coeff == t1.coeff
    &&& t2.sum_indices == t1.sum_indices.map_values(|ix: Index| Index { id: ren(rn, ix.id), range: ix.range })
    &&& t2.factors.len() == t1.factors.len()
    &&& forall|i: int| 0 <= i < t1.factors.len() ==> (#[trigger] t2.factors[i]).tensor == t1.factors[i].tensor
        && t2.factors[i].indices == t1.factors[i].indices.map_values(|x: IndexId| ren(rn, x))
}

pub open spec fn ren_ids(rn: Map<IndexId, IndexId>, ids: Seq<IndexId>) -> Seq<IndexId> {
    ids.map_values(|x: IndexId| ren(rn, x))
}

pub open spec fn ren_raws(rn: Map<IndexId, IndexId>, s: Seq<(TensorId, Seq<IndexId>)>) -> Seq<(TensorId, Seq<IndexId>)> {
    s.map_values(|x: (TensorId, Seq<IndexId>)| (x.0, ren_ids(rn, x.1)))
}

pub open spec fn all_known(ext: Seq<Index>, sums: Seq<Index>, ids: Seq<IndexId>) -> bool {
    forall|j: int| 0 <= j < ids.len() ==> known_id(ext, sums, #[trigger] ids[j])
}

pub open spec fn raws_known(ext: Seq<Index>, sums: Seq<Index>, s: Seq<(TensorId, Seq<IndexId>)>) -> bool {
    forall|k: int| 0 <= k < s.len() ==> all_known(ext, sums, #[trigger] s[k].1)
}

proof fn lemma_last_pos_ren(sums: Seq<Index>, rn: Map<IndexId, IndexId>, x: IndexId)
    requires
        rn.dom().contains(x),
        forall|p: int| 0 <= p < sums.len() ==> rn.dom().contains(#[trigger] sums[p].id),
        forall|a: IndexId, b: IndexId| #[trigger] rn.dom().contains(a) && #[trigger] rn.dom().contains(b) && a != b ==> rn[a] != rn[b],
    ensures
        last_pos(sums.map_values(|ix: Index| Index { id: ren(rn, ix.id), range: ix.range }), rn[x]) == last_pos(sums, x),
    decreases sums.len(),
{
    let m = sums.map_values(|ix: Index| Index { id: ren(rn, ix.id), range: ix.range });
    if sums.len() > 0 {
        let d = sums.drop_last();
        assert(m.drop_last() =~= d.map_values(|ix: Index| Index { id: ren(rn, ix.id), range: ix.range }));
        assert forall|p: int| 0 <= p < d.len() implies rn.dom().contains(#[trigger] d[p].id) by {
            assert(d[p] == sums[p]);
        }
        lemma_last_pos_ren(d, rn, x);
        assert(rn.dom().contains(sums[sums.len() - 1].id));
        assert(m.last().id == rn[sums.last().id]);
    }
}

/// Facts about the renamed term that every step below uses.
proof fn lemma_known_ren(t1: TermModel, t2: TermModel, ext: Seq<Index>, rn: Map<IndexId, IndexId>, x: IndexId)
    requires
        renames_sums(t1, t2, ext, rn),
        known_id(ext, t1.sum_indices, x),
    ensures
        known_id(ext, t2.sum_indices, ren(rn, x)),
        id_key(ext, t2.sum_indices, ren(rn, x)) == id_key(ext, t1.sum_indices, x),
        last_pos(ext, ren(rn, x)) >= 0 <==> last_pos(ext, x) >= 0,
        last_pos(ext, x) >= 0 ==> ren(rn, x) == x,
        is_dummy(t2.sum_indices, ren(rn, x)) == is_dummy(t1.sum_indices, x),
        is_dummy(t1.sum_indices, x) ==> dummy_range(t2.sum_indices, ren(rn, x)) == dummy_range(t1.sum_indices, x),
{
    let s1 = t1.sum_indices;
    let s2 = t2.sum_indices;
    lemma_last_pos(s1, x);
    lemma_last_pos(ext, x);
    if last_pos(ext, x) >= 0 {
        assert(!rn.dom().contains(x)) by {
            if rn.dom().contains(x) {
                assert(last_pos(ext, x) < 0);
            }
        }
        lemma_last_pos(s2, x);
        assert(last_pos(s1, x) < 0) by {
            if last_pos(s1, x) >= 0 {
                assert(rn.dom().contains(s1[last_pos(s1, x)].id));
            }
        }
        assert(last_pos(s2, x) < 0) by {
            if last_pos(s2, x) >= 0 {
                let p = last_pos(s2, x);
                assert(s2[p].id == ren(rn, s1[p].id));
                assert(rn.dom().contains(s1[p].id));
                assert(last_pos(ext, rn[s1[p].id]) < 0);
            }
        }
    } else {
        assert(rn.dom().contains(s1[last_pos(s1, x)].id));
        assert(rn.dom().contains(x));
        lemma_last_pos_ren(s1, rn, x);
        assert(last_pos(ext, rn[x]) < 0);
        let p = last_pos(s1, x);
        assert(s2[p].range == s1[p].range);
    }
}

proof fn lemma_ren_injective(t1: TermModel, t2: TermModel, ext: Seq<Index>, rn: Map<IndexId, IndexId>, x: IndexId, y: IndexId)
    requires
        renames_sums(t1, t2, ext, rn),
        known_id(ext, t1.sum_indices, x),
        known_id(ext, t1.sum_indices, y),
        x != y,
    ensures
        ren(rn, x) != ren(rn, y),
{
    lemma_known_ren(t1, t2, ext, rn, x);
    lemma_known_ren(t1, t2, ext, rn, y);
    let s1 = t1.sum_indices;
    if last_pos(ext, x) < 0 {
        lemma_last_pos(s1, x);
        assert(rn.dom().contains(s1[last_pos(s1, x)].id));
    }
    if last_pos(ext, y) < 0 {
        lemma_last_pos(s1, y);
        assert(rn.dom().contains(s1[last_pos(s1, y)].id));
    }
}

proof fn lemma_ids_key_ren(t1: TermModel, t2: TermModel, ext: Seq<Index>, rn: Map<IndexId, IndexId>, ids: Seq<IndexId>)
    requires
        renames_sums(t1, t2, ext, rn),
        all_known(ext, t1.sum_indices, ids),
    ensures
        ids_key(ext, t2.sum_indices, ren_ids(rn, ids)) == ids_key(ext, t1.sum_indices, ids),
        all_known(ext, t2.sum_indices, ren_ids(rn, ids)),
{
    assert forall|j: int| 0 <= j < ids.len() implies #[trigger] ids_key(ext, t2.sum_indices, ren_ids(rn, ids))[j]
        == ids_key(ext, t1.sum_indices, ids)[j] && known_id(ext, t2.sum_indices, ren_ids(rn, ids)[j]) by {
        lemma_known_ren(t1, t2, ext, rn, ids[j]);
    }
    assert(ids_key(ext, t2.sum_indices, ren_ids(rn, ids)) =~= ids_key(ext, t1.sum_indices, ids));
    assert forall|j: int| 0 <= j < ren_ids(rn, ids).len() implies known_id(ext, t2.sum_indices, #[trigger] ren_ids(rn, ids)[j]) by {
        lemma_known_ren(t1, t2, ext, rn, ids[j]);
    }
}

proof fn lemma_key_best_ren(
    t1: TermModel,
    t2: TermModel,
    ext: Seq<Index>,
    rn: Map<IndexId, IndexId>,
    elems: Seq<(Vec<usize>, SymAction)>,
    ids: Seq<IndexId>,
    k: int,
)
    requires
        renames_sums(t1, t2, ext, rn),
        all_known(ext, t1.sum_indices, ids),
        0 <= k <= elems.len(),
        forall|i: int| 0 <= i < elems.len() ==> (#[trigger] elems[i]).0@.len() == ids.len()
            && crate::repr::perm_in_bounds(elems[i].0@, ids.len() as int),
    ensures
        key_best(elems, ren_ids(rn, ids), ext, t2.sum_indices, k) == (
            ren_ids(rn, key_best(elems, ids, ext, t1.sum_indices, k).0),
            key_best(elems, ids, ext, t1.sum_indices, k).1,
        ),
        all_known(ext, t1.sum_indices, key_best(elems, ids, ext, t1.sum_indices, k).0),
    decreases k,
{
    if k > 0 {
        lemma_key_best_ren(t1, t2, ext, rn, elems, ids, k - 1);
        let perm = elems[k - 1].0@;
        let c1 = permute(perm, ids);
        let c2 = permute(perm, ren_ids(rn, ids));
        assert(c2 =~= ren_ids(rn, c1));
        assert(all_known(ext, t1.sum_indices, c1)) by {
            assert forall|j: int| 0 <= j < c1.len() implies known_id(ext, t1.sum_indices, #[trigger] c1[j]) by {
                assert(perm[j] < ids.len());
            }
        }
        lemma_ids_key_ren(t1, t2, ext, rn, c1);
        lemma_ids_key_ren(t1, t2, ext, rn, key_best(elems, ids, ext, t1.sum_indices, k - 1).0);
    }
}

proof fn lemma_insert_raw_ren(
    t1: TermModel,
    t2: TermModel,
    ext: Seq<Index>,
    rn: Map<IndexId, IndexId>,
    x: (TensorId, Seq<IndexId>),
    s: Seq<(TensorId, Seq<IndexId>)>,
)
    requires
        renames_sums(t1, t2, ext, rn),
        all_known(ext, t1.sum_indices, x.1),
        raws_known(ext, t1.sum_indices, s),
    ensures
        insert_raw(ext, t2.sum_indices, (x.0, ren_ids(rn, x.1)), ren_raws(rn, s)) == ren_raws(
            rn,
            insert_raw(ext, t1.sum_indices, x, s),
        ),
        raws_known(ext, t1.sum_indices, insert_raw(ext, t1.sum_indices, x, s)),
    decreases s.len(),
{
    let s1 = t1.sum_indices;
    let s2 = t2.sum_indices;
    let rx = (x.0, ren_ids(rn, x.1));
    let rs = ren_raws(rn, s);
    lemma_ids_key_ren(t1, t2, ext, rn, x.1);
    if s.len() == 0 {
        assert(ren_raws(rn, seq![x]) =~= seq![rx]);
    } else {
        assert(all_known(ext, s1, s[0].1));
        lemma_ids_key_ren(t1, t2, ext, rn, s[0].1);
        assert(rs[0] == (s[0].0, ren_ids(rn, s[0].1)));
        assert(raw_lt(ext, s2, rx, rs[0]) == raw_lt(ext, s1, x, s[0]));
        if raw_lt(ext, s1, x, s[0]) {
            assert(ren_raws(rn, seq![x] + s) =~= seq![rx] + rs);
            assert forall|k: int| 0 <= k < (seq![x] + s).len() implies all_known(ext, s1, #[trigger] (seq![x] + s)[k].1) by {
                if k > 0 {
                    assert((seq![x] + s)[k] == s[k - 1]);
                }
            }
        } else {
            let t = s.drop_first();
            assert forall|k: int| 0 <= k < t.len() implies all_known(ext, s1, #[trigger] t[k].1) by {
                assert(t[k] == s[k + 1]);
            }
            lemma_insert_raw_ren(t1, t2, ext, rn, x, t);
            assert(rs.drop_first() =~= ren_raws(rn, t));
            let i1 = insert_raw(ext, s1, x, t);
            assert(ren_raws(rn, seq![s[0]] + i1) =~= seq![rs[0]] + ren_raws(rn, i1));
            assert forall|k: int| 0 <= k < (seq![s[0]] + i1).len() implies all_known(ext, s1, #[trigger] (seq![s[0]] + i1)[k].1) by {
                if k > 0 {
                    assert((seq![s[0]] + i1)[k] == i1[k - 1]);
                }
            }
        }
    }
}

proof fn lemma_sort_raw_ren(t1: TermModel, t2: TermModel, ext: Seq<Index>, rn: Map<IndexId, IndexId>, s: Seq<(TensorId, Seq<IndexId>)>)
    requires
        renames_sums(t1, t2, ext, rn),
        raws_known(ext, t1.sum_indices, s),
    ensures
        sort_raw(ext, t2.sum_indices, ren_raws(rn, s)) == ren_raws(rn, sort_raw(ext, t1.sum_indices, s)),
        raws_known(ext, t1.sum_indices, sort_raw(ext, t1.sum_indices, s)),
    decreases s.len(),
{
    if s.len() > 0 {
        let d = s.drop_last();
        assert forall|k: int| 0 <= k < d.len() implies all_known(ext, t1.sum_indices, #[trigger] d[k].1) by {
            assert(d[k] == s[k]);
        }
        lemma_sort_raw_ren(t1, t2, ext, rn, d);
        assert(ren_raws(rn, s).drop_last() =~= ren_raws(rn, d));
        assert(all_known(ext, t1.sum_indices, s.last().1));
        lemma_insert_raw_ren(t1, t2, ext, rn, s.last(), sort_raw(ext, t1.sum_indices, d));
    }
}

proof fn lemma_flat_ren(rn: Map<IndexId, IndexId>, s: Seq<(TensorId, Seq<IndexId>)>)
    ensures
        flat_ids(ren_raws(rn, s)) == ren_ids(rn, flat_ids(s)),
    decreases s.len(),
{
    if s.len() == 0 {
        assert(ren_ids(rn, flat_ids(s)) =~= Seq::<IndexId>::empty());
    } else {
        lemma_flat_ren(rn, s.drop_last());
        assert(ren_raws(rn, s).drop_last() =~= ren_raws(rn, s.drop_last()));
        assert(ren_ids(rn, flat_ids(s.drop_last()) + s.last().1) =~= ren_ids(rn, flat_ids(s.drop_last())) + ren_ids(rn, s.last().1));
    }
}

proof fn lemma_flat_known(ext: Seq<Index>, sums: Seq<Index>, s: Seq<(TensorId, Seq<IndexId>)>)
    requires
        raws_known(ext, sums, s),
    ensures
        all_known(ext, sums, flat_ids(s)),
    decreases s.len(),
{
    if s.len() > 0 {
        let d = s.drop_last();
        assert forall|k: int| 0 <= k < d.len() implies all_known(ext, sums, #[trigger] d[k].1) by {
            assert(d[k] == s[k]);
        }
        lemma_flat_known(ext, sums, d);
        let f = flat_ids(s);
        let fd = flat_ids(d);
        assert(all_known(ext, sums, s.last().1));
        assert forall|j: int| 0 <= j < f.len() implies known_id(ext, sums, #[trigger] f[j]) by {
            if j < fd.len() {
                assert(f[j] == fd[j]);
            } else {
                assert(f[j] == s.last().1[j - fd.len()]);
            }
        }
    }
}

/// Every summation index met in `flat[..p]` has a name.
proof fn lemma_naming_covers(flat: Seq<IndexId>, sums: Seq<Index>, p: int, q: int)
    requires
        0 <= q < p <= flat.len(),
        is_dummy(sums, flat[q]),
    ensures
        dummy_naming(flat, sums, p).0.dom().contains(flat[q]),
    decreases p,
{
    if q < p - 1 {
        lemma_naming_covers(flat, sums, p - 1, q);
    }
}

proof fn lemma_naming_ren(t1: TermModel, t2: TermModel, ext: Seq<Index>, rn: Map<IndexId, IndexId>, fl: Seq<IndexId>, p: int)
    requires
        renames_sums(t1, t2, ext, rn),
        all_known(ext, t1.sum_indices, fl),
        0 <= p <= fl.len(),
    ensures
        dummy_naming(ren_ids(rn, fl), t2.sum_indices, p).1 == dummy_naming(fl, t1.sum_indices, p).1,
        forall|x: IndexId| known_id(ext, t1.sum_indices, x) ==> (#[trigger] dummy_naming(ren_ids(rn, fl), t2.sum_indices, p).0.dom().contains(
            ren(rn, x),
        ) == dummy_naming(fl, t1.sum_indices, p).0.dom().contains(x)),
        forall|x: IndexId| known_id(ext, t1.sum_indices, x) && #[trigger] dummy_naming(fl, t1.sum_indices, p).0.dom().contains(x)
            ==> dummy_naming(ren_ids(rn, fl), t2.sum_indices, p).0[ren(rn, x)] == dummy_naming(fl, t1.sum_indices, p).0[x],
    decreases p,
{
    let s1 = t1.sum_indices;
    let s2 = t2.sum_indices;
    let f2 = ren_ids(rn, fl);
    if p > 0 {
        lemma_naming_ren(t1, t2, ext, rn, fl, p - 1);
        let id = fl[p - 1];
        assert(known_id(ext, s1, id));
        lemma_known_ren(t1, t2, ext, rn, id);
        assert(f2[p - 1] == ren(rn, id));
        let prev1 = dummy_naming(fl, s1, p - 1);
        let prev2 = dummy_naming(f2, s2, p - 1);
        assert(prev2.0.dom().contains(ren(rn, id)) == prev1.0.dom().contains(id));
        assert forall|x: IndexId| known_id(ext, s1, x) implies (#[trigger] dummy_naming(f2, s2, p).0.dom().contains(ren(rn, x))
            == dummy_naming(fl, s1, p).0.dom().contains(x)) by {
            assert(prev2.0.dom().contains(ren(rn, x)) == prev1.0.dom().contains(x));
            if x != id {
                lemma_ren_injective(t1, t2, ext, rn, x, id);
            }
        }
        assert forall|x: IndexId| known_id(ext, s1, x) && #[trigger] dummy_naming(fl, s1, p).0.dom().contains(x) implies dummy_naming(
            f2,
            s2,
            p,
        ).0[ren(rn, x)] == dummy_naming(fl, s1, p).0[x] by {
            if x != id {
                lemma_ren_injective(t1, t2, ext, rn, x, id);
                assert(prev2.0.dom().contains(ren(rn, x)) == prev1.0.dom().contains(x));
            }
        }
    }
}

proof fn lemma_combined_action_eq(r1: Seq<(Seq<IndexId>, SymAction)>, r2: Seq<(Seq<IndexId>, SymAction)>)
    requires
        r1.len() == r2.len(),
        forall|i: int| 0 <= i < r1.len() ==> (#[trigger] r1[i]).1 == r2[i].1,
    ensures
        combined_action(r1) == combined_action(r2),
    decreases r1.len(),
{
    if r1.len() > 0 {
        lemma_combined_action_eq(r1.drop_last(), r2.drop_last());
    }
}

/// Renaming the summation indices of a term (one to one, onto ids that are
/// not external, ranges kept) leaves its canonical form unchanged, for any
/// listing of its factors' symmetry groups; and the listings that fit one
/// term fit the other.
pub proof fn lemma_canon_renaming_invariant(
    t1: TermModel,
    t2: TermModel,
    ext: Seq<Index>,
    tensors: Seq<InfoModel>,
    gs: Seq<Seq<(Vec<usize>, SymAction)>>,
    rn: Map<IndexId, IndexId>,
)
    requires
        canon_term_inputs_ok(t1, ext, tensors),
        renames_sums(t1, t2, ext, rn),
        groups_ok(t1, tensors, gs),
    ensures
        groups_ok(t2, tensors, gs),
        canon_spec(t2, ext, gs) == canon_spec(t1, ext, gs),
{
    let s1 = t1.sum_indices;
    let s2 = t2.sum_indices;
    let n = t1.factors.len();
    assert forall|i: int| 0 <= i < gs.len() implies bfs_listing(
        tensors[t2.factors[i].tensor.0 as int].symmetry,
        t2.factors[i].indices.len() as nat,
        #[trigger] gs[i],
    ) by {
        assert(t2.factors[i].tensor == t1.factors[i].tensor);
        assert(bfs_listing(tensors[t1.factors[i].tensor.0 as int].symmetry, t1.factors[i].indices.len() as nat, gs[i]));
    }
    let fr1 = factor_results(t1, ext, gs);
    let fr2 = factor_results(t2, ext, gs);
    assert forall|i: int| 0 <= i < n implies #[trigger] fr2[i] == (ren_ids(rn, fr1[i].0), fr1[i].1) && all_known(ext, s1, fr1[i].0) by {
        let ids = t1.factors[i].indices;
        assert(all_known(ext, s1, ids)) by {
            assert forall|j: int| 0 <= j < ids.len() implies known_id(ext, s1, #[trigger] ids[j]) by {
                assert(last_pos(ext, t1.factors[i].indices[j]) >= 0 || last_pos(s1, t1.factors[i].indices[j]) >= 0);
            }
        }
        assert(bfs_listing(tensors[t1.factors[i].tensor.0 as int].symmetry, ids.len() as nat, gs[i]));
        assert forall|x: int| 0 <= x < gs[i].len() implies (#[trigger] gs[i][x]).0@.len() == ids.len()
            && crate::repr::perm_in_bounds(gs[i][x].0@, ids.len() as int) by {
            assert(crate::enumerate::elem_perms(gs[i])[x] == gs[i][x].0@);
        }
        assert(t2.factors[i].indices == ren_ids(rn, ids));
        lemma_key_best_ren(t1, t2, ext, rn, gs[i], ids, gs[i].len() as int);
    }
    lemma_combined_action_eq(fr1, fr2);
    let a1 = arranged(t1, ext, gs);
    let a2 = arranged(t2, ext, gs);
    assert(a2 =~= ren_raws(rn, a1));
    assert(raws_known(ext, s1, a1)) by {
        assert forall|k: int| 0 <= k < a1.len() implies all_known(ext, s1, #[trigger] a1[k].1) by {
            assert(fr2[k] == (ren_ids(rn, fr1[k].0), fr1[k].1));
            assert(all_known(ext, s1, fr1[k].0));
        }
    }
    lemma_sort_raw_ren(t1, t2, ext, rn, a1);
    let so1 = sort_raw(ext, s1, a1);
    let so2 = sort_raw(ext, s2, a2);
    lemma_flat_ren(rn, so1);
    lemma_flat_known(ext, s1, so1);
    let f1 = flat_ids(so1);
    let f2 = flat_ids(so2);
    lemma_naming_ren(t1, t2, ext, rn, f1, f1.len() as int);
    let c1 = canon_spec(t1, ext, gs);
    let c2 = canon_spec(t2, ext, gs);
    assert forall|k: int| 0 <= k < so1.len() implies #[trigger] c2.1[k] == c1.1[k] by {
        let ids = so1[k].1;
        assert(so2[k] == (so1[k].0, ren_ids(rn, ids)));
        assert(all_known(ext, s1, ids));
        assert forall|j: int| 0 <= j < ids.len() implies canon_index_of(ext, s2, f2, #[trigger] ren_ids(rn, ids)[j])
            == canon_index_of(ext, s1, f1, ids[j]) by {
            let x = ids[j];
            lemma_known_ren(t1, t2, ext, rn, x);
            if last_pos(ext, x) < 0 && is_dummy(s1, x) {
                lemma_flat_contains(so1, k, j);
                let q = choose|q: int| 0 <= q < f1.len() && f1[q] == x;
                lemma_naming_covers(f1, s1, f1.len() as int, q);
            }
        }
        assert(ren_ids(rn, ids).map_values(|id: IndexId| canon_index_of(ext, s2, f2, id)) =~= ids.map_values(
            |id: IndexId| canon_index_of(ext, s1, f1, id),
        ));
    }
    assert(c2.1 =~= c1.1);
}

/// What two calls of `canon_term` promise, on a term and on the same term
/// with its summation indices renamed, gives equal canonical forms.
pub proof fn lemma_canon_term_renaming(
    t1: TermModel,
    t2: TermModel,
    ext: Seq<Index>,
    tensors: Seq<InfoModel>,
    rn: Map<IndexId, IndexId>,
    m1: ((int, int), Seq<(TensorId, Seq<CanonIndex>)>),
    m2: ((int, int), Seq<(TensorId, Seq<CanonIndex>)>),
)
    requires
        canon_term_inputs_ok(t1, ext, tensors),
        renames_sums(t1, t2, ext, rn),
        exists|gs: Seq<Seq<(Vec<usize>, SymAction)>>| #[trigger] groups_ok(t1, tensors, gs),
        forall|gs: Seq<Seq<(Vec<usize>, SymAction)>>| #[trigger] groups_ok(t1, tensors, gs) ==> m1 == canon_spec(t1, ext, gs),
        forall|gs: Seq<Seq<(Vec<usize>, SymAction)>>| #[trigger] groups_ok(t2, tensors, gs) ==> m2 == canon_spec(t2, ext, gs),
    ensures
        m1 == m2,
{
    let gs = choose|gs: Seq<Seq<(Vec<usize>, SymAction)>>| #[trigger] groups_ok(t1, tensors, gs);
    lemma_canon_renaming_invariant(t1, t2, ext, tensors, gs, rn);
}

pub(crate) fn slice_to_vec(s: &[Index]) -> (r: Vec<Index>)
    ensures
        r@ == s@,
{
    let mut out: Vec<Index> = Vec::new();
    let mut i: usize = 0;
    while i < s.len()
        invariant
            i <= s@.len(),
            out@ == s@.take(i as int),
        decreases s.len() - i,
    {
        out.push(s[i]);
        i = i + 1;
        assert(out@ =~= s@.take(i as int));
    }
    assert(s@.take(s@.len() as int) =~= s@);
    out
}


// ---------------------------------------------------------------------------
// Canonical pool
// ---------------------------------------------------------------------------

/// `Index { id, range: r }` is a summation index of one of `terms`.
pub open spec fn summed_in(terms: Seq<TermModel>, id: IndexId, r: RangeId) -> bool {
    exists|t: int, k: int| 0 <= t < terms.len() && 0 <= k < terms[t].sum_indices.len()
        && #[trigger] terms[t].sum_indices[k] == (Index { id, range: r })
}

/// Strictly increasing by id number.
pub open spec fn ids_increasing(ids: Seq<IndexId>) -> bool {
    forall|a: int, b: int| 0 <= a < b < ids.len() ==> (#[trigger] ids[a]).0 < (#[trigger] ids[b]).0
}

/// The pool lists, once per range that is summed over in `terms`, the ids
/// summed over in that range, ascending and without repeats.
pub open spec fn pool_ok(terms: Seq<TermModel>, pool: Seq<(RangeId, Vec<IndexId>)>) -> bool {
    &&& forall|a: int, b: int| 0 <= a < b < pool.len() ==> (#[trigger] pool[a]).0 != (#[trigger] pool[b]).0
    &&& forall|a: int| 0 <= a < pool.len() ==> ids_increasing((#[trigger] pool[a]).1@)
    &&& forall|a: int, id: IndexId| 0 <= a < pool.len() ==> (#[trigger] pool[a].1@.contains(id) <==> summed_in(terms, id, pool[a].0))
    &&& forall|t: int, k: int| 0 <= t < terms.len() && 0 <= k < terms[t].sum_indices.len() ==> range_listed(
        pool,
        (#[trigger] terms[t].sum_indices[k]).range,
    )
}

/// The pool has an entry for range `r`.
pub open spec fn range_listed(pool: Seq<(RangeId, Vec<IndexId>)>, r: RangeId) -> bool {
    exists|a: int| 0 <= a < pool.len() && pool[a].0 == r
}

/// `ids` with `id` inserted in order, if absent.
fn insert_sorted_id(ids: &mut Vec<IndexId>, id: IndexId)
    requires
        ids_increasing(old(ids)@),
    ensures
        ids_increasing(final(ids)@),
        forall|x: IndexId| final(ids)@.contains(x) <==> (old(ids)@.contains(x) || x == id),
{
    let mut p: usize = 0;
    while p < ids.len() && ids[p].0 < id.0
        invariant
            p <= ids@.len(),
            forall|k: int| 0 <= k < p ==> (#[trigger] ids@[k]).0 < id.0,
        decreases ids.len() - p,
    {
        p = p + 1;
    }
    if p < ids.len() && ids[p].0 == id.0 {
        assert(ids@[p as int] == id);
        return;
    }
    let ghost before = ids@;
    ids.insert(p, id);
    proof {
        let after = ids@;
        assert(after == before.insert(p as int, id));
        assert forall|a: int, b: int| 0 <= a < b < after.len() implies (#[trigger] after[a]).0 < (#[trigger] after[b]).0 by {
            if a < p && b < p {
            } else if a < p && b == p {
            } else if a < p {
                assert(after[b] == before[b - 1]);
            } else if a == p {
                assert(after[b] == before[b - 1]);
                assert(before[p as int].0 > id.0);
                if b - 1 > p {
                    assert(before[p as int].0 < before[b - 1].0);
                }
            } else {
                assert(after[a] == before[a - 1]);
                assert(after[b] == before[b - 1]);
            }
        }
        assert forall|x: IndexId| after.contains(x) <==> (before.contains(x) || x == id) by {
            if after.contains(x) {
                let w = choose|w: int| 0 <= w < after.len() && after[w] == x;
                if w < p {
                    assert(before[w] == x);
                } else if w > p {
                    assert(before[w - 1] == x);
                }
            }
            if before.contains(x) {
                let w = choose|w: int| 0 <= w < before.len() && before[w] == x;
                if w < p {
                    assert(after[w] == x);
                } else {
                    assert(after[w + 1] == x);
                }
            }
            if x == id {
                assert(after[p as int] == x);
            }
        }
    }
}

/// The canonical pool of a definition: for each range summed over in any of
/// its terms, the ids summed over in that range, sorted and deduplicated.
pub fn build_canon_pool(def: &TensorDef) -> (r: Vec<(RangeId, Vec<IndexId>)>)
    ensures
        pool_ok(def@.terms, r@),
{
    let ghost terms = def@.terms;
    let mut pool: Vec<(RangeId, Vec<IndexId>)> = Vec::new();
    let mut t: usize = 0;
    while t < def.terms.len()
        invariant
            t <= def.terms@.len(),
            terms == def@.terms,
            pool_ok(terms.take(t as int), pool@),
        decreases def.terms.len() - t,
    {
        let term = &def.terms[t];
        assert(terms[t as int] == term@);
        proof {
            let done = terms.take(t as int);
            let start = done.push(partial_term(term@, 0));
            assert forall|id: IndexId, r: RangeId| #[trigger] summed_in(start, id, r) <==> summed_in(done, id, r) by {
                if summed_in(start, id, r) {
                    let (tt, kk) = choose|tt: int, kk: int| 0 <= tt < start.len() && 0 <= kk < start[tt].sum_indices.len()
                        && #[trigger] start[tt].sum_indices[kk] == (Index { id, range: r });
                    assert(tt < done.len());
                    assert(done[tt] == start[tt]);
                }
                if summed_in(done, id, r) {
                    let (tt, kk) = choose|tt: int, kk: int| 0 <= tt < done.len() && 0 <= kk < done[tt].sum_indices.len()
                        && #[trigger] done[tt].sum_indices[kk] == (Index { id, range: r });
                    assert(done[tt] == start[tt]);
                }
            }
            assert forall|tt: int, kk: int| 0 <= tt < start.len() && 0 <= kk < start[tt].sum_indices.len() implies range_listed(
                pool@,
                (#[trigger] start[tt].sum_indices[kk]).range,
            ) by {
                assert(tt < done.len());
                assert(done[tt] == start[tt]);
                let x = done[tt].sum_indices[kk];
                assert(range_listed(pool@, x.range));
            }
            assert forall|a: int, id: IndexId| 0 <= a < pool@.len() implies (#[trigger] pool@[a].1@.contains(id) <==> summed_in(start, id, pool@[a].0)) by {
                assert(pool@[a].1@.contains(id) <==> summed_in(done, id, pool@[a].0));
            }
            assert(forall|a: int, b: int| 0 <= a < b < pool@.len() ==> (#[trigger] pool@[a]).0 != (#[trigger] pool@[b]).0);
            assert(forall|a: int| 0 <= a < pool@.len() ==> ids_increasing((#[trigger] pool@[a]).1@));
            assert(forall|a: int, id: IndexId| 0 <= a < pool@.len() ==> (#[trigger] pool@[a].1@.contains(id) <==> summed_in(start, id, pool@[a].0)));
            assert(pool_ok(start, pool@));
        }
        let mut k: usize = 0;
        while k < term.sum_indices.len()
            invariant
                t < def.terms@.len(),
                terms == def@.terms,
                term@ == terms[t as int],
                k <= term.sum_indices@.len(),
                pool_ok(terms.take(t as int).push(partial_term(term@, k as int)), pool@),
            decreases term.sum_indices.len() - k,
        {
            let idx = term.sum_indices[k];
            let ghost prev_terms = terms.take(t as int).push(partial_term(term@, k as int));
            let ghost next_terms = terms.take(t as int).push(partial_term(term@, k + 1));
            let ghost before = pool@;
            proof {
                lemma_summed_in_push(terms.take(t as int), term@, k as int);
            }
            let mut a: usize = 0;
            while a < pool.len() && pool[a].0.0 != idx.range.0
                invariant
                    a <= pool@.len(),
                    forall|m: int| 0 <= m < a ==> (#[trigger] pool@[m]).0 != idx.range,
                decreases pool.len() - a,
            {
                a = a + 1;
            }
            if a < pool.len() {
                let mut entry = pool[a].1.clone();
                insert_sorted_id(&mut entry, idx.id);
                let rg = pool[a].0;
                pool.set(a, (rg, entry));
                proof {
                    let after = pool@;
                    assert forall|m: int, b: int| 0 <= m < b < after.len() implies (#[trigger] after[m]).0 != (#[trigger] after[b]).0 by {
                        assert(before[m].0 != before[b].0);
                    }
                    assert forall|m: int| 0 <= m < after.len() implies ids_increasing((#[trigger] after[m]).1@) by {
                        if m != a {
                            assert(after[m] == before[m]);
                        }
                    }
                    assert forall|m: int, id: IndexId| 0 <= m < after.len() implies (#[trigger] after[m].1@.contains(id) <==> summed_in(next_terms, id, after[m].0)) by {
                        assert(summed_in(next_terms, id, after[m].0) <==> (summed_in(prev_terms, id, after[m].0) || (Index { id, range: after[m].0 }) == term@.sum_indices[k as int]));
                        if m != a {
                            assert(after[m] == before[m]);
                            assert(before[m].1@.contains(id) <==> summed_in(prev_terms, id, before[m].0));
                            if m < a {
                                assert(before[m].0 != before[a as int].0);
                            } else {
                                assert(before[a as int].0 != before[m].0);
                            }
                        } else {
                            assert(before[m].1@.contains(id) <==> summed_in(prev_terms, id, before[m].0));
                        }
                    }
                    assert forall|tt: int, kk: int| 0 <= tt < next_terms.len() && 0 <= kk < next_terms[tt].sum_indices.len() implies range_listed(
                        after,
                        (#[trigger] next_terms[tt].sum_indices[kk]).range,
                    ) by {
                        if tt == t && kk == k {
                            assert(after[a as int].0 == idx.range);
                        } else {
                            assert(next_terms[tt].sum_indices[kk] == prev_terms[tt].sum_indices[kk]);
                            let x = prev_terms[tt].sum_indices[kk];
                            assert(range_listed(before, x.range));
                            let m = choose|m: int| 0 <= m < before.len() && before[m].0 == x.range;
                            assert(after[m].0 == before[m].0);
                        }
                    }
                    assert(pool_ok(next_terms, after));
                }
            } else {
                let mut ids: Vec<IndexId> = Vec::new();
                ids.push(idx.id);
                pool.push((idx.range, ids));
                proof {
                    let after = pool@;
                    assert forall|m: int, b: int| 0 <= m < b < after.len() implies (#[trigger] after[m]).0 != (#[trigger] after[b]).0 by {
                        if b < before.len() {
                            assert(before[m].0 != before[b].0);
                        }
                    }
                    assert forall|m: int| 0 <= m < after.len() implies ids_increasing((#[trigger] after[m]).1@) by {
                        if m < before.len() {
                            assert(after[m] == before[m]);
                        }
                    }
                    assert forall|m: int, id: IndexId| 0 <= m < after.len() implies (#[trigger] after[m].1@.contains(id) <==> summed_in(next_terms, id, after[m].0)) by {
                        assert(summed_in(next_terms, id, after[m].0) <==> (summed_in(prev_terms, id, after[m].0) || (Index { id, range: after[m].0 }) == term@.sum_indices[k as int]));
                        if m < before.len() {
                            assert(after[m] == before[m]);
                            assert(before[m].1@.contains(id) <==> summed_in(prev_terms, id, before[m].0));
                            assert(before[m].0 != idx.range);
                        } else {
                            if summed_in(prev_terms, id, idx.range) {
                                let (tt, kk) = choose|tt: int, kk: int| 0 <= tt < prev_terms.len() && 0 <= kk < prev_terms[tt].sum_indices.len()
                                    && #[trigger] prev_terms[tt].sum_indices[kk] == (Index { id, range: idx.range });
                                let x = prev_terms[tt].sum_indices[kk];
                                assert(range_listed(before, x.range));
                            }
                            if after[m].1@.contains(id) {
                                assert(after[m].1@[0] == id);
                            }
                            if id == idx.id {
                                assert(after[m].1@[0] == id);
                            }
                        }
                    }
                    assert forall|tt: int, kk: int| 0 <= tt < next_terms.len() && 0 <= kk < next_terms[tt].sum_indices.len() implies range_listed(
                        after,
                        (#[trigger] next_terms[tt].sum_indices[kk]).range,
                    ) by {
                        if tt == t && kk == k {
                            assert(after[before.len() as int].0 == idx.range);
                        } else {
                            assert(next_terms[tt].sum_indices[kk] == prev_terms[tt].sum_indices[kk]);
                            let x = prev_terms[tt].sum_indices[kk];
                            assert(range_listed(before, x.range));
                            let m = choose|m: int| 0 <= m < before.len() && before[m].0 == x.range;
                            assert(after[m].0 == before[m].0);
                        }
                    }
                    assert(pool_ok(next_terms, after));
                }
            }
            k = k + 1;
        }
        proof {
            assert(partial_term(term@, k as int) == term@) by {
                assert(term@.sum_indices.take(k as int) =~= term@.sum_indices);
            }
            assert(terms.take(t + 1) =~= terms.take(t as int).push(term@));
        }
        t = t + 1;
    }
    assert(terms.take(t as int) =~= terms);
    pool
}

/// `term` with only its first `k` summation indices.
pub open spec fn partial_term(term: TermModel, k: int) -> TermModel {
    TermModel { coeff: term.coeff, sum_indices: term.sum_indices.take(k), factors: term.factors }
}

proof fn lemma_summed_in_push(done: Seq<TermModel>, term: TermModel, k: int)
    requires
        0 <= k < term.sum_indices.len(),
    ensures
        forall|id: IndexId, r: RangeId| #[trigger] summed_in(done.push(partial_term(term, k + 1)), id, r) <==> (
            summed_in(done.push(partial_term(term, k)), id, r) || (Index { id, range: r }) == term.sum_indices[k]),
{
    let prev = done.push(partial_term(term, k));
    let next = done.push(partial_term(term, k + 1));
    assert forall|id: IndexId, r: RangeId| #[trigger] summed_in(next, id, r) <==> (
        summed_in(prev, id, r) || (Index { id, range: r }) == term.sum_indices[k]) by {
        if summed_in(next, id, r) {
            let (tt, kk) = choose|tt: int, kk: int| 0 <= tt < next.len() && 0 <= kk < next[tt].sum_indices.len()
                && #[trigger] next[tt].sum_indices[kk] == (Index { id, range: r });
            if tt < done.len() {
                assert(prev[tt] == next[tt]);
            } else if kk < k {
                assert(prev[tt].sum_indices[kk] == next[tt].sum_indices[kk]);
            }
        }
        if summed_in(prev, id, r) {
            let (tt, kk) = choose|tt: int, kk: int| 0 <= tt < prev.len() && 0 <= kk < prev[tt].sum_indices.len()
                && #[trigger] prev[tt].sum_indices[kk] == (Index { id, range: r });
            if tt < done.len() {
                assert(prev[tt] == next[tt]);
            } else {
                assert(prev[tt].sum_indices[kk] == next[tt].sum_indices[kk]);
            }
            assert(next[tt].sum_indices[kk] == (Index { id, range: r }));
        }
        if (Index { id, range: r }) == term.sum_indices[k] {
            assert(next[done.len() as int].sum_indices[k] == (Index { id, range: r }));
        }
    }
}


// ---------------------------------------------------------------------------
// Canonicalisation of one side of a split
// ---------------------------------------------------------------------------

/// Lexicographic order of the factors of two terms (tensor id, then index
/// ids, then index count), a shorter list first when one is a prefix.
pub open spec fn factors_lt(a: Seq<FactorModel>, b: Seq<FactorModel>, i: int) -> bool
    decreases a.len() - i,
{
    if i < 0 || i >= a.len() || i >= b.len() {
        a.len() < b.len()
    } else if a[i].tensor.0 != b[i].tensor.0 {
        a[i].tensor.0 < b[i].tensor.0
    } else if ids_nums(a[i].indices) != ids_nums(b[i].indices) && (exists|k: int|
        0 <= k < a[i].indices.len() && k < b[i].indices.len() && a[i].indices[k] != b[i].indices[k]) {
        ids_lt(a[i].indices, b[i].indices)
    } else if a[i].indices.len() != b[i].indices.len() {
        a[i].indices.len() < b[i].indices.len()
    } else {
        factors_lt(a, b, i + 1)
    }
}

/// The order in which candidate sub-terms are compared: by coefficient
/// value, then by factors.
pub open spec fn term_lt_spec(a: TermModel, b: TermModel) -> bool {
    if a.coeff != b.coeff && a.coeff.num() * b.coeff.den() != b.coeff.num() * a.coeff.den() {
        a.coeff.num() * b.coeff.den() < b.coeff.num() * a.coeff.den()
    } else {
        factors_lt(a.factors, b.factors, 0)
    }
}

fn ids_differ_in_prefix(a: &Vec<IndexId>, b: &Vec<IndexId>) -> (r: Option<bool>)
    ensures
        r is Some == (exists|k: int| 0 <= k < a@.len() && k < b@.len() && a@[k] != b@[k]),
        r matches Some(x) ==> x == ids_lt(a@, b@),
{
    let mut k: usize = 0;
    while k < a.len() && k < b.len()
        invariant
            k <= a@.len(),
            k <= b@.len(),
            forall|m: int| 0 <= m < k ==> a@[m] == b@[m],
        decreases a.len() - k,
    {
        if a[k].0 != b[k].0 {
            let r = a[k].0 < b[k].0;
            proof {
                let x = ids_nums(a@);
                let y = ids_nums(b@);
                assert(x.subrange(0, k as int) =~= y.subrange(0, k as int)) by {
                    assert forall|m: int| 0 <= m < k implies x[m] == y[m] by {
                        assert(a@[m] == b@[m]);
                    }
                }
                lemma_seq_le_at(x, y, k as int);
                if !r {
                    lemma_seq_le_at(y, x, k as int);
                    if seq_le(x, y) {
                        lemma_seq_le_antisym(x, y);
                        assert(x[k as int] == y[k as int]);
                    }
                }
                assert(x[k as int] != y[k as int]);
            }
            return Some(r);
        }
        k = k + 1;
    }
    None
}

/// Lexicographic comparison decided at the first difference `k`.
proof fn lemma_seq_le_at(x: Seq<u32>, y: Seq<u32>, k: int)
    requires
        0 <= k < x.len(),
        k < y.len(),
        forall|m: int| 0 <= m < k ==> x[m] == y[m],
        x[k] != y[k],
    ensures
        seq_le(x, y) == (x[k] < y[k]),
    decreases k,
{
    if k > 0 {
        assert(x[0] == y[0]);
        lemma_seq_le_at(x.drop_first(), y.drop_first(), k - 1);
    }
}

/// Whether `a` precedes `b` in the candidate order (`term_lt_spec`).
pub(crate) fn term_lt(a: &Term, b: &Term) -> (r: bool)
    ensures
        r == term_lt_spec(a@, b@),
{
    if !a.coeff.equals(&b.coeff) {
        let lhs_lt = crate::rational::rational_lt(&a.coeff, &b.coeff);
        let rhs_lt = crate::rational::rational_lt(&b.coeff, &a.coeff);
        if lhs_lt || rhs_lt {
            return lhs_lt;
        }
    }
    let ghost fa = a@.factors;
    let ghost fb = b@.factors;
    let mut i: usize = 0;
    while i < a.factors.len() && i < b.factors.len()
        invariant
            i <= a.factors@.len(),
            i <= b.factors@.len(),
            fa == a@.factors,
            fb == b@.factors,
            factors_lt(fa, fb, 0) == factors_lt(fa, fb, i as int),
            term_lt_spec(a@, b@) == factors_lt(fa, fb, 0),
        decreases a.factors.len() - i,
    {
        let x = &a.factors[i];
        let y = &b.factors[i];
        assert(fa[i as int] == x@);
        assert(fb[i as int] == y@);
        if x.tensor.0 != y.tensor.0 {
            return x.tensor.0 < y.tensor.0;
        }
        match ids_differ_in_prefix(&x.indices, &y.indices) {
            Some(res) => {
                proof {
                    let k = choose|k: int| 0 <= k < x.indices@.len() && k < y.indices@.len() && x.indices@[k] != y.indices@[k];
                    assert(ids_nums(x.indices@)[k] != ids_nums(y.indices@)[k]);
                }
                return res;
            },
            None => {},
        }
        if x.indices.len() != y.indices.len() {
            proof {
                if ids_nums(x.indices@) == ids_nums(y.indices@) {
                    assert(ids_nums(x.indices@).len() == x.indices@.len());
                }
            }
            return x.indices.len() < y.indices.len();
        }
        proof {
            assert(ids_nums(x.indices@) =~= ids_nums(y.indices@)) by {
                assert forall|m: int| 0 <= m < x.indices@.len() implies ids_nums(x.indices@)[m] == ids_nums(y.indices@)[m] by {
                    assert(x.indices@[m] == y.indices@[m]);
                }
            }
        }
        i = i + 1;
    }
    a.factors.len() < b.factors.len()
}

/// A factor keyed for sorting by its tensor and the ranges of its indices.
struct KeyedFactor {
    tensor: TensorId,
    ranges: Vec<u32>,
    indices: Vec<IndexId>,
}

impl SortKey for KeyedFactor {
    closed spec fn spec_le(self, other: Self) -> bool {
        self.tensor.0 < other.tensor.0 || (self.tensor.0 == other.tensor.0 && seq_le(self.ranges@, other.ranges@))
    }

    proof fn lemma_le_total(a: Self, b: Self) {
        lemma_seq_le_total(a.ranges@, b.ranges@);
    }

    proof fn lemma_le_trans(a: Self, b: Self, c: Self) {
        if a.tensor.0 == b.tensor.0 && b.tensor.0 == c.tensor.0 {
            lemma_seq_le_trans(a.ranges@, b.ranges@, c.ranges@);
        }
    }

    fn exec_le(&self, other: &Self) -> (r: bool) {
        if self.tensor.0 != other.tensor.0 {
            return self.tensor.0 < other.tensor.0;
        }
        vec_le(&self.ranges, &other.ranges)
    }
}

pub(crate) fn contains_id(ids: &[IndexId], id: IndexId) -> (r: bool)
    ensures
        r == ids@.contains(id),
{
    let mut i: usize = 0;
    while i < ids.len()
        invariant
            i <= ids@.len(),
            forall|k: int| 0 <= k < i ==> ids@[k] != id,
        decreases ids.len() - i,
    {
        if ids[i].0 == id.0 {
            assert(ids@[i as int] == id);
            return true;
        }
        i = i + 1;
    }
    false
}

/// The range of the last index of `idxs` with id `id`, if any.
pub open spec fn last_range(idxs: Seq<Index>, id: IndexId) -> Option<RangeId> {
    if last_pos(idxs, id) >= 0 {
        Some(idxs[last_pos(idxs, id)].range)
    } else {
        None
    }
}

/// The value of the first pair of `list` whose key is `id`, if any.
pub open spec fn first_value(list: Seq<(IndexId, IndexId)>, id: IndexId) -> Option<IndexId>
    decreases list.len(),
{
    if list.len() == 0 {
        None
    } else if list[0].0 == id {
        Some(list[0].1)
    } else {
        first_value(list.drop_first(), id)
    }
}

/// The count of the last entry of `list` for range `r`, or zero.
pub open spec fn last_count(list: Seq<(RangeId, usize)>, r: RangeId) -> usize
    decreases list.len(),
{
    if list.len() == 0 {
        0
    } else if list.last().0 == r {
        list.last().1
    } else {
        last_count(list.drop_last(), r)
    }
}

/// The ids of the first pool entry for range `r`, if any.
pub open spec fn pool_entry(pool: Seq<(RangeId, Vec<IndexId>)>, r: RangeId) -> Option<Seq<IndexId>>
    decreases pool.len(),
{
    if pool.len() == 0 {
        None
    } else if pool[0].0 == r {
        Some(pool[0].1@)
    } else {
        pool_entry(pool.drop_first(), r)
    }
}

/// The range of the last index of `idxs` with id `id`, if any.
pub(crate) fn lookup_slice_range(idxs: &[Index], id: IndexId) -> (r: Option<RangeId>)
    ensures
        r == last_range(idxs@, id),
{
    let mut found: Option<RangeId> = None;
    let mut i: usize = 0;
    while i < idxs.len()
        invariant
            i <= idxs@.len(),
            found == last_range(idxs@.take(i as int), id),
        decreases idxs.len() - i,
    {
        proof {
            assert(idxs@.take(i + 1).drop_last() =~= idxs@.take(i as int));
            assert(idxs@.take(i + 1).last() == idxs@[i as int]);
        }
        if idxs[i].id.0 == id.0 {
            found = Some(idxs[i].range);
            assert(last_pos(idxs@.take(i + 1), id) == i);
        } else {
            assert(last_pos(idxs@.take(i + 1), id) == last_pos(idxs@.take(i as int), id));
            proof {
                lemma_last_pos(idxs@.take(i as int), id);
                let lp = last_pos(idxs@.take(i as int), id);
                if lp >= 0 {
                    assert(idxs@.take(i + 1)[lp] == idxs@.take(i as int)[lp]);
                }
            }
        }
        i = i + 1;
    }
    assert(idxs@.take(idxs@.len() as int) =~= idxs@);
    found
}

/// The value of the first pair of `list` whose key is `id`, if any.
pub(crate) fn lookup_pair(list: &Vec<(IndexId, IndexId)>, id: IndexId) -> (r: Option<IndexId>)
    ensures
        r == first_value(list@, id),
{
    let mut i: usize = 0;
    assert(list@.skip(0) =~= list@);
    while i < list.len()
        invariant
            i <= list@.len(),
            first_value(list@, id) == first_value(list@.skip(i as int), id),
        decreases list.len() - i,
    {
        assert(list@.skip(i as int)[0] == list@[i as int]);
        if list[i].0.0 == id.0 {
            return Some(list[i].1);
        }
        assert(list@.skip(i as int).drop_first() =~= list@.skip(i + 1));
        i = i + 1;
    }
    assert(list@.skip(i as int).len() == 0);
    None
}

/// The count of the last entry of `list` for range `r`, or zero.
pub(crate) fn counter_get(list: &Vec<(RangeId, usize)>, r: RangeId) -> (c: usize)
    ensures
        c == last_count(list@, r),
{
    let mut found: usize = 0;
    let mut i: usize = 0;
    while i < list.len()
        invariant
            i <= list@.len(),
            found == last_count(list@.take(i as int), r),
        decreases list.len() - i,
    {
        proof {
            assert(list@.take(i + 1).drop_last() =~= list@.take(i as int));
        }
        if list[i].0.0 == r.0 {
            found = list[i].1;
        }
        i = i + 1;
    }
    assert(list@.take(list@.len() as int) =~= list@);
    found
}

/// The ids of the first pool entry for range `r`, if any.
pub(crate) fn pool_ids(pool: &Vec<(RangeId, Vec<IndexId>)>, r: RangeId) -> (res: Option<&Vec<IndexId>>)
    ensures
        res matches Some(p) ==> pool_entry(pool@, r) == Some(p@),
        res is None ==> pool_entry(pool@, r) is None,
{
    let mut i: usize = 0;
    assert(pool@.skip(0) =~= pool@);
    while i < pool.len()
        invariant
            i <= pool@.len(),
            pool_entry(pool@, r) == pool_entry(pool@.skip(i as int), r),
        decreases pool.len() - i,
    {
        assert(pool@.skip(i as int)[0] == pool@[i as int]);
        if pool[i].0.0 == r.0 {
            return Some(&pool[i].1);
        }
        assert(pool@.skip(i as int).drop_first() =~= pool@.skip(i + 1));
        i = i + 1;
    }
    assert(pool@.skip(i as int).len() == 0);
    None
}

/// The summation indices of `sums` that are not contracted, with their ids renamed.
pub open spec fn kept_sums(sums: Seq<Index>, contracted: Seq<IndexId>) -> Seq<Index>
    decreases sums.len(),
{
    if sums.len() == 0 {
        seq![]
    } else if contracted.contains(sums.last().id) {
        kept_sums(sums.drop_last(), contracted)
    } else {
        kept_sums(sums.drop_last(), contracted).push(sums.last())
    }
}

pub open spec fn index_ranges(s: Seq<Index>) -> Seq<RangeId> {
    s.map_values(|i: Index| i.range)
}

/// The index ids of `fs`, factor by factor, in order.
pub open spec fn ordering_ids(fs: Seq<Factor>) -> Seq<IndexId>
    decreases fs.len(),
{
    if fs.len() == 0 {
        seq![]
    } else {
        ordering_ids(fs.drop_last()) + fs.last().indices@
    }
}

proof fn lemma_ordering_ids_split(fs: Seq<Factor>, f: int)
    requires
        0 <= f < fs.len(),
    ensures
        ordering_ids(fs) == ordering_ids(fs.take(f)) + fs[f].indices@ + ordering_ids(fs.skip(f + 1)),
    decreases fs.len(),
{
    if f == fs.len() - 1 {
        assert(fs.take(f) =~= fs.drop_last());
        assert(fs.skip(f + 1) =~= Seq::<Factor>::empty());
        assert(ordering_ids(fs.take(f)) + fs[f].indices@ + seq![] =~= ordering_ids(fs.take(f)) + fs[f].indices@);
    } else {
        lemma_ordering_ids_split(fs.drop_last(), f);
        assert(fs.drop_last().take(f) =~= fs.take(f));
        assert(fs.skip(f + 1).drop_last() =~= fs.drop_last().skip(f + 1));
        assert(fs.skip(f + 1).last() == fs.last());
        assert(ordering_ids(fs.skip(f + 1)) == ordering_ids(fs.skip(f + 1).drop_last()) + fs.last().indices@);
        assert(ordering_ids(fs.take(f)) + fs[f].indices@ + ordering_ids(fs.skip(f + 1)) =~= ordering_ids(fs.take(f))
            + fs[f].indices@ + ordering_ids(fs.drop_last().skip(f + 1)) + fs.last().indices@);
    }
}

/// What a candidate renaming holds while it walks the ids: the names given,
/// the contracted ones among them, and the counters of contracted, left
/// private and right private names per range.
pub type CandidateNames = (
    Seq<(IndexId, IndexId)>,
    Seq<(IndexId, IndexId)>,
    Seq<(RangeId, usize)>,
    Seq<(RangeId, usize)>,
    Seq<(RangeId, usize)>,
);

/// The inputs a candidate renaming reads besides the ids it walks.
pub struct CandidateSetting {
    pub sums: Seq<Index>,
    pub ext: Seq<IndexId>,
    pub contracted: Seq<IndexId>,
    pub fix: Option<Seq<(IndexId, IndexId)>>,
    pub is_left: bool,
    pub pool: Seq<(RangeId, Vec<IndexId>)>,
    pub contracted_count: Seq<(RangeId, usize)>,
}

/// Naming one id met in the walk: nothing changes for an id named already;
/// an external id keeps itself; a contracted one takes its fixed name (none
/// when it has no fixed name) or the next pool name of its range; another
/// summed one takes a pool name after the contracted ones (left side) or from
/// the back (right side). `None` when a range or pool name is missing.
pub open spec fn candidate_step(st: CandidateNames, id: IndexId, cs: CandidateSetting) -> Option<CandidateNames> {
    if first_value(st.0, id) is Some {
        Some(st)
    } else if cs.ext.contains(id) {
        Some((st.0.push((id, id)), st.1, st.2, st.3, st.4))
    } else if cs.contracted.contains(id) {
        match cs.fix {
            Some(fixed) => match first_value(fixed, id) {
                Some(cid) => Some((st.0.push((id, cid)), st.1, st.2, st.3, st.4)),
                None => Some(st),
            },
            None => match last_range(cs.sums, id) {
                None => None,
                Some(range) => {
                    let slot = last_count(st.2, range);
                    match pool_entry(cs.pool, range) {
                        None => None,
                        Some(p) => if slot >= p.len() {
                            None
                        } else {
                            let c = p[slot as int];
                            Some((st.0.push((id, c)), st.1.push((id, c)), st.2.push((range, (slot + 1) as usize)), st.3, st.4))
                        },
                    }
                },
            },
        }
    } else {
        match last_range(cs.sums, id) {
            None => None,
            Some(range) => {
                let p = match pool_entry(cs.pool, range) {
                    Some(p) => p,
                    None => Seq::<IndexId>::empty(),
                };
                if cs.is_left {
                    let offset = last_count(cs.contracted_count, range);
                    let slot = last_count(st.3, range);
                    if slot >= p.len() || offset >= p.len() - slot {
                        None
                    } else {
                        Some((st.0.push((id, p[offset + slot])), st.1, st.2, st.3.push((range, (slot + 1) as usize)), st.4))
                    }
                } else {
                    let slot = last_count(st.4, range);
                    if slot >= p.len() {
                        None
                    } else {
                        Some((st.0.push((id, p[p.len() - 1 - slot])), st.1, st.2, st.3, st.4.push((range, (slot + 1) as usize))))
                    }
                }
            },
        }
    }
}

/// The naming state after walking `ids` in order, from nothing named.
pub open spec fn candidate_walk(ids: Seq<IndexId>, cs: CandidateSetting) -> Option<CandidateNames>
    decreases ids.len(),
{
    if ids.len() == 0 {
        Some((seq![], seq![], seq![], seq![], seq![]))
    } else {
        match candidate_walk(ids.drop_last(), cs) {
            Some(st) => candidate_step(st, ids.last(), cs),
            None => None,
        }
    }
}

proof fn lemma_candidate_walk_none(xs: Seq<IndexId>, ys: Seq<IndexId>, cs: CandidateSetting)
    requires
        candidate_walk(xs, cs) is None,
    ensures
        candidate_walk(xs + ys, cs) is None,
    decreases ys.len(),
{
    if ys.len() == 0 {
        assert(xs + ys =~= xs);
    } else {
        lemma_candidate_walk_none(xs, ys.drop_last(), cs);
        assert((xs + ys).drop_last() =~= xs + ys.drop_last());
    }
}

/// The summation indices of `sums` that are not contracted, in order, each
/// renamed by the first entry of `remap` for it.
pub open spec fn renamed_kept(sums: Seq<Index>, contracted: Seq<IndexId>, remap: Seq<(IndexId, IndexId)>) -> Seq<Index>
    decreases sums.len(),
{
    if sums.len() == 0 {
        seq![]
    } else if contracted.contains(sums.last().id) {
        renamed_kept(sums.drop_last(), contracted, remap)
    } else {
        renamed_kept(sums.drop_last(), contracted, remap).push(
            Index { id: first_value(remap, sums.last().id)->0, range: sums.last().range },
        )
    }
}

/// The setting of a call of `rename_candidate`.
pub open spec fn candidate_setting(
    sub: &Term,
    ext_ids: Seq<IndexId>,
    contracted_ids: Seq<IndexId>,
    fix_contracted: Option<&Vec<(IndexId, IndexId)>>,
    is_left: bool,
    pool: Seq<(RangeId, Vec<IndexId>)>,
    contracted_count: Seq<(RangeId, usize)>,
) -> CandidateSetting {
    CandidateSetting {
        sums: sub.sum_indices@,
        ext: ext_ids,
        contracted: contracted_ids,
        fix: match fix_contracted {
            Some(v) => Some(v@),
            None => None,
        },
        is_left,
        pool,
        contracted_count,
    }
}

/// Rename the indices of `ordering` (external ids kept, contracted ids taken
/// from `fix_contracted` or the front of the pool, the other summation
/// indices from the pool after the contracted slots on the left side or from
/// its back on the right side), and build the candidate sub-term. `None`
/// when a needed name is not available.
fn rename_candidate(
    sub: &Term,
    coeff: Rational,
    ordering: &Vec<Factor>,
    ext_ids: &[IndexId],
    contracted_ids: &[IndexId],
    fix_contracted: Option<&Vec<(IndexId, IndexId)>>,
    is_left: bool,
    pool: &Vec<(RangeId, Vec<IndexId>)>,
    contracted_count: &Vec<(RangeId, usize)>,
) -> (r: Option<(Term, Vec<(IndexId, IndexId)>)>)
    ensures
        r matches Some(res) ==> res.0.factors@.len() == ordering@.len()
            && res.0.coeff == coeff
            && index_ranges(res.0.sum_indices@) == index_ranges(kept_sums(sub@.sum_indices, contracted_ids@))
            && (fix_contracted is Some ==> res.1@.len() == 0)
            && (forall|k: int| 0 <= k < ordering@.len() ==> (#[trigger] res.0.factors@[k]).tensor == ordering@[k].tensor
                && res.0.factors@[k].indices@.len() == ordering@[k].indices@.len()),
        r is Some <==> (candidate_walk(
            ordering_ids(ordering@),
            candidate_setting(sub, ext_ids@, contracted_ids@, fix_contracted, is_left, pool@, contracted_count@),
        ) matches Some(st) && (forall|k: int, j: int| 0 <= k < ordering@.len() && 0 <= j < ordering@[k].indices@.len()
            ==> first_value(st.0, #[trigger] ordering@[k].indices@[j]) is Some) && (forall|k: int|
            0 <= k < sub.sum_indices@.len() && !contracted_ids@.contains((#[trigger] sub.sum_indices@[k]).id)
            ==> first_value(st.0, sub.sum_indices@[k].id) is Some)),
        r matches Some(res) ==> candidate_walk(
            ordering_ids(ordering@),
            candidate_setting(sub, ext_ids@, contracted_ids@, fix_contracted, is_left, pool@, contracted_count@),
        ) matches Some(st) && res.1@ == st.1 && (forall|k: int, j: int| 0 <= k < ordering@.len() && 0 <= j
            < ordering@[k].indices@.len() ==> Some(#[trigger] res.0.factors@[k].indices@[j]) == first_value(
            st.0,
            ordering@[k].indices@[j],
        )) && res.0.sum_indices@ == renamed_kept(sub.sum_indices@, contracted_ids@, st.0),
{
    let ghost cs = candidate_setting(sub, ext_ids@, contracted_ids@, fix_contracted, is_left, pool@, contracted_count@);
    let ghost os = ordering@;
    let mut remap: Vec<(IndexId, IndexId)> = Vec::new();
    let mut contracted_map: Vec<(IndexId, IndexId)> = Vec::new();
    let mut c_counter: Vec<(RangeId, usize)> = Vec::new();
    let mut li_counter: Vec<(RangeId, usize)> = Vec::new();
    let mut ri_counter: Vec<(RangeId, usize)> = Vec::new();
    let mut f: usize = 0;
    assert(os.take(0) =~= Seq::<Factor>::empty());
    while f < ordering.len()
        invariant
            f <= ordering@.len(),
            os == ordering@,
            cs == candidate_setting(sub, ext_ids@, contracted_ids@, fix_contracted, is_left, pool@, contracted_count@),
            fix_contracted is Some ==> contracted_map@.len() == 0,
            candidate_walk(ordering_ids(os.take(f as int)), cs) == Some(
                (remap@, contracted_map@, c_counter@, li_counter@, ri_counter@),
            ),
        decreases ordering.len() - f,
    {
        let indices = &ordering[f].indices;
        let ghost before = ordering_ids(os.take(f as int));
        assert(before + indices@.take(0) =~= before);
        let mut j: usize = 0;
        while j < indices.len()
            invariant
                j <= indices@.len(),
                f < os.len(),
                os == ordering@,
                indices@ == os[f as int].indices@,
                before == ordering_ids(os.take(f as int)),
                cs == candidate_setting(sub, ext_ids@, contracted_ids@, fix_contracted, is_left, pool@, contracted_count@),
                fix_contracted is Some ==> contracted_map@.len() == 0,
                candidate_walk(before + indices@.take(j as int), cs) == Some(
                    (remap@, contracted_map@, c_counter@, li_counter@, ri_counter@),
                ),
            decreases indices.len() - j,
        {
            let ghost cur = before + indices@.take(j as int);
            let ghost next = before + indices@.take(j + 1);
            assert(next.drop_last() =~= cur);
            assert(next.last() == indices@[j as int]);
            proof {
                let rest = indices@.skip(j + 1);
                assert(indices@.take(j + 1) + rest =~= indices@);
                assert(next + (rest + ordering_ids(os.skip(f + 1))) =~= before + indices@ + ordering_ids(os.skip(f + 1)));
                lemma_ordering_ids_split(os, f as int);
                if candidate_walk(next, cs) is None {
                    lemma_candidate_walk_none(next, rest + ordering_ids(os.skip(f + 1)), cs);
                }
            }
            let id = indices[j];
            j = j + 1;
            if lookup_pair(&remap, id).is_some() {
                continue;
            }
            if contains_id(ext_ids, id) {
                remap.push((id, id));
            } else if contains_id(contracted_ids, id) {
                match fix_contracted {
                    Some(fixed) => {
                        match lookup_pair(fixed, id) {
                            Some(cid) => remap.push((id, cid)),
                            None => {},
                        }
                    },
                    None => {
                        let range = match lookup_range(&sub.sum_indices, id) {
                            Some(rg) => rg,
                            None => return None,
                        };
                        let slot = counter_get(&c_counter, range);
                        let p = match pool_ids(pool, range) {
                            Some(p) => p,
                            None => return None,
                        };
                        if slot >= p.len() {
                            return None;
                        }
                        c_counter.push((range, slot + 1));
                        let canonical = p[slot];
                        remap.push((id, canonical));
                        contracted_map.push((id, canonical));
                    },
                }
            } else {
                let range = match lookup_range(&sub.sum_indices, id) {
                    Some(rg) => rg,
                    None => return None,
                };
                let empty: Vec<IndexId> = Vec::new();
                let p = match pool_ids(pool, range) {
                    Some(p) => p,
                    None => &empty,
                };
                let canonical = if is_left {
                    let offset = counter_get(contracted_count, range);
                    let slot = counter_get(&li_counter, range);
                    if slot >= p.len() || offset >= p.len() - slot {
                        return None;
                    }
                    li_counter.push((range, slot + 1));
                    p[offset + slot]
                } else {
                    let slot = counter_get(&ri_counter, range);
                    if slot >= p.len() {
                        return None;
                    }
                    ri_counter.push((range, slot + 1));
                    p[p.len() - 1 - slot]
                };
                remap.push((id, canonical));
            }
        }
        assert(indices@.take(j as int) =~= indices@);
        assert(os.take(f + 1).drop_last() =~= os.take(f as int));
        f = f + 1;
    }
    assert(os.take(f as int) =~= os);
    let ghost st = (remap@, contracted_map@, c_counter@, li_counter@, ri_counter@);
    assert(candidate_walk(ordering_ids(ordering@), cs) == Some(st));
    let mut new_factors: Vec<Factor> = Vec::new();
    let mut f: usize = 0;
    while f < ordering.len()
        invariant
            f <= ordering@.len(),
            new_factors@.len() == f,
            st.0 == remap@,
            cs == candidate_setting(sub, ext_ids@, contracted_ids@, fix_contracted, is_left, pool@, contracted_count@),
            candidate_walk(ordering_ids(ordering@), cs) == Some(st),
            forall|m: int| 0 <= m < f ==> (#[trigger] new_factors@[m]).tensor == ordering@[m].tensor
                && new_factors@[m].indices@.len() == ordering@[m].indices@.len(),
            forall|m: int, j: int| 0 <= m < f && 0 <= j < ordering@[m].indices@.len() ==> first_value(
                st.0,
                #[trigger] ordering@[m].indices@[j],
            ) is Some,
            forall|m: int, j: int| 0 <= m < f && 0 <= j < ordering@[m].indices@.len() ==> Some(
                #[trigger] new_factors@[m].indices@[j],
            ) == first_value(st.0, ordering@[m].indices@[j]),
        decreases ordering.len() - f,
    {
        let src = &ordering[f];
        let mut ids: Vec<IndexId> = Vec::new();
        let mut j: usize = 0;
        while j < src.indices.len()
            invariant
                j <= src.indices@.len(),
                ids@.len() == j,
                st.0 == remap@,
                f < ordering@.len(),
                src.indices@ == ordering@[f as int].indices@,
                cs == candidate_setting(sub, ext_ids@, contracted_ids@, fix_contracted, is_left, pool@, contracted_count@),
                candidate_walk(ordering_ids(ordering@), cs) == Some(st),
                forall|q: int| 0 <= q < j ==> first_value(st.0, #[trigger] src.indices@[q]) is Some,
                forall|q: int| 0 <= q < j ==> Some(#[trigger] ids@[q]) == first_value(st.0, src.indices@[q]),
            decreases src.indices.len() - j,
        {
            match lookup_pair(&remap, src.indices[j]) {
                Some(v) => ids.push(v),
                None => {
                    assert(first_value(st.0, ordering@[f as int].indices@[j as int]) is None);
                    return None;
                },
            }
            j = j + 1;
        }
        let ghost prev = new_factors@;
        new_factors.push(Factor { tensor: src.tensor, indices: ids });
        proof {
            assert forall|m: int, q: int| 0 <= m < f + 1 && 0 <= q < ordering@[m].indices@.len() implies Some(
                #[trigger] new_factors@[m].indices@[q],
            ) == first_value(st.0, ordering@[m].indices@[q]) by {
                if m < f {
                    assert(new_factors@[m] == prev[m]);
                }
            }
            assert forall|m: int, q: int| 0 <= m < f + 1 && 0 <= q < ordering@[m].indices@.len() implies first_value(
                st.0,
                #[trigger] ordering@[m].indices@[q],
            ) is Some by {
            }
        }
        f = f + 1;
    }
    let mut new_sums: Vec<Index> = Vec::new();
    let mut k: usize = 0;
    while k < sub.sum_indices.len()
        invariant
            k <= sub.sum_indices@.len(),
            index_ranges(new_sums@) == index_ranges(kept_sums(sub@.sum_indices.take(k as int), contracted_ids@)),
            st.0 == remap@,
            cs == candidate_setting(sub, ext_ids@, contracted_ids@, fix_contracted, is_left, pool@, contracted_count@),
            candidate_walk(ordering_ids(ordering@), cs) == Some(st),
            st.1 == contracted_map@,
            forall|m: int, j: int| 0 <= m < ordering@.len() && 0 <= j < ordering@[m].indices@.len() ==> first_value(
                st.0,
                #[trigger] ordering@[m].indices@[j],
            ) is Some,
            forall|m: int, j: int| 0 <= m < ordering@.len() && 0 <= j < ordering@[m].indices@.len() ==> Some(
                #[trigger] new_factors@[m].indices@[j],
            ) == first_value(st.0, ordering@[m].indices@[j]),
            new_factors@.len() == ordering@.len(),
            new_sums@ == renamed_kept(sub.sum_indices@.take(k as int), contracted_ids@, st.0),
            forall|m: int| 0 <= m < k && !contracted_ids@.contains((#[trigger] sub.sum_indices@[m]).id) ==> first_value(
                st.0,
                sub.sum_indices@[m].id,
            ) is Some,
        decreases sub.sum_indices.len() - k,
    {
        let idx = sub.sum_indices[k];
        assert(sub@.sum_indices.take(k + 1).drop_last() =~= sub@.sum_indices.take(k as int));
        if !contains_id(contracted_ids, idx.id) {
            match lookup_pair(&remap, idx.id) {
                Some(v) => {
                    let ghost prev = new_sums@;
                    new_sums.push(Index { id: v, range: idx.range });
                    assert(index_ranges(new_sums@) =~= index_ranges(prev).push(idx.range));
                },
                None => {
                    assert(first_value(st.0, sub.sum_indices@[k as int].id) is None);
                    return None;
                },
            }
        }
        k = k + 1;
    }
    assert(sub.sum_indices@.take(k as int) =~= sub.sum_indices@);
    assert(sub@.sum_indices.take(sub@.sum_indices.len() as int) =~= sub@.sum_indices);
    Some((Term { coeff, sum_indices: new_sums, factors: new_factors }, contracted_map))
}

/// Whether `gens` all permute `n` slots, checked.
#[verifier::loop_isolation(false)]
pub(crate) fn gens_fit_exec(gens: &Vec<SymGenerator>, n: usize) -> (r: bool)
    ensures
        r == gens_fit(gen_models(gens@), n as int),
{
    let ghost gm = gen_models(gens@);
    let mut g: usize = 0;
    while g < gens.len()
        invariant
            g <= gens@.len(),
            gm == gen_models(gens@),
            forall|x: int| 0 <= x < g ==> (#[trigger] gm[x]).perm.len() == n && crate::repr::perm_in_bounds(gm[x].perm, n as int),
        decreases gens.len() - g,
    {
        let perm = &gens[g].perm;
        assert(gm[g as int].perm == perm@);
        if perm.len() != n {
            assert(!gens_fit(gm, n as int)) by {
                assert(gm[g as int].perm.len() != n);
            }
            return false;
        }
        let mut k: usize = 0;
        while k < perm.len()
            invariant
                k <= perm@.len(),
                forall|m: int| 0 <= m < k ==> #[trigger] perm@[m] < n,
            decreases perm.len() - k,
        {
            if perm[k] >= n {
                assert(!gens_fit(gm, n as int)) by {
                    assert(gm[g as int].perm[k as int] >= n);
                    assert(!crate::repr::perm_in_bounds(gm[g as int].perm, n as int));
                }
                return false;
            }
            k = k + 1;
        }
        g = g + 1;
    }
    true
}

#[verifier::loop_isolation(false)]
/// Canonicalise one side of a split: over every choice of symmetry element
/// per factor and every order of factors that tie on (tensor, index
/// ranges), rename indices (`rename_candidate`) and keep the least candidate
/// under `term_lt`, with the contracted-index names it fixed (when
/// `fix_contracted` is `None`). `None` when a tensor, symmetry generator,
/// summation index, pool entry or fixed name that this needs is missing, or
/// when negating the coefficient overflows.
pub fn canonicalize_sub_term(
    sub: &Term,
    ext_ids: &[IndexId],
    ext_range: &[Index],
    contracted_ids: &[IndexId],
    fix_contracted: Option<&Vec<(IndexId, IndexId)>>,
    is_left: bool,
    pool: &Vec<(RangeId, Vec<IndexId>)>,
    tensors: &[TensorInfo],
) -> (r: Option<(Term, Vec<(IndexId, IndexId)>)>)
    ensures
        r matches Some(res) ==> res.0.factors@.len() == sub.factors@.len()
            && (res.0.coeff.pair() == sub.coeff.pair() || res.0.coeff.pair() == (-sub.coeff.num(), sub.coeff.den()))
            && index_ranges(res.0.sum_indices@) == index_ranges(kept_sums(sub@.sum_indices, contracted_ids@))
            && (fix_contracted is Some ==> res.1@.len() == 0)
            && tensors_nondecreasing(res.0.factors@)
            && is_rearrangement(res.0.factors@, sub.factors@),
{
    let n = sub.factors.len();
    // contracted summation entries per range
    let mut contracted_count: Vec<(RangeId, usize)> = Vec::new();
    if fix_contracted.is_none() || is_left {
        let mut k: usize = 0;
        while k < sub.sum_indices.len()
            invariant
                k <= sub.sum_indices@.len(),
            decreases sub.sum_indices.len() - k,
        {
            let idx = sub.sum_indices[k];
            if contains_id(contracted_ids, idx.id) {
                let c = counter_get(&contracted_count, idx.range);
                if c >= sub.sum_indices.len() {
                    return None;
                }
                contracted_count.push((idx.range, c + 1));
            }
            k = k + 1;
        }
    }
    // symmetry groups of the factors
    let mut sym_groups: Vec<Vec<(Vec<usize>, SymAction)>> = Vec::new();
    let mut combo_sizes: Vec<usize> = Vec::new();
    let mut i: usize = 0;
    while i < n
        invariant
            i <= n,
            n == sub.factors@.len(),
            sym_groups@.len() == i,
            combo_sizes@.len() == i,
            forall|a: int| 0 <= a < i ==> (#[trigger] sym_groups@[a])@.len() == combo_sizes@[a] && combo_sizes@[a] >= 1,
            forall|a: int, e: int| 0 <= a < i && 0 <= e < sym_groups@[a]@.len() ==> (#[trigger] sym_groups@[a]@[e]).0@.len()
                == sub.factors@[a].indices@.len() && crate::repr::perm_in_bounds(sym_groups@[a]@[e].0@, sub.factors@[a].indices@.len() as int),
        decreases n - i,
    {
        let f = &sub.factors[i];
        let t = f.tensor.0 as usize;
        if t >= tensors.len() {
            return None;
        }
        if !gens_fit_exec(&tensors[t].symmetry, f.indices.len()) {
            return None;
        }
        let group = enumerate_sym_group(&tensors[t].symmetry, f.indices.len());
        proof {
            assert forall|e: int| 0 <= e < group@.len() implies (#[trigger] group@[e]).0@.len() == f.indices@.len()
                && crate::repr::perm_in_bounds(group@[e].0@, f.indices@.len() as int) by {
                assert(crate::enumerate::elem_perms(group@)[e] == group@[e].0@);
            }
        }
        combo_sizes.push(group.len());
        sym_groups.push(group);
        i = i + 1;
    }
    let mut best: Option<(Term, Vec<(IndexId, IndexId)>)> = None;
    let mut combo: Vec<usize> = Vec::new();
    let mut i: usize = 0;
    while i < n
        invariant
            i <= n,
            combo@.len() == i,
            forall|a: int| 0 <= a < i ==> #[trigger] combo@[a] == 0,
        decreases n - i,
    {
        combo.push(0);
        i = i + 1;
    }
    let ghost cb: int = max_of(combo_sizes@);
    proof {
        assert forall|a: int| 0 <= a < n implies #[trigger] combo@[a] < combo_sizes@[a] by {
            assert(sym_groups@[a]@.len() == combo_sizes@[a]);
        }
        assert forall|a: int| 0 <= a < n implies #[trigger] combo_sizes@[a] >= 1 by {
            assert(sym_groups@[a]@.len() == combo_sizes@[a]);
        }
        lemma_max_of(combo_sizes@);
        lemma_bounded_by_max(combo@, combo_sizes@);
        crate::enumerate::lemma_rank_bound(combo@, cb);
    }
    loop
        invariant
            n == sub.factors@.len(),
            sym_groups@.len() == n,
            combo_sizes@.len() == n,
            combo@.len() == n,
            cb == max_of(combo_sizes@),
            cb >= 1,
            forall|a: int| 0 <= a < n ==> (#[trigger] sym_groups@[a])@.len() == combo_sizes@[a],
            forall|a: int| 0 <= a < n ==> #[trigger] combo_sizes@[a] >= 1,
            forall|a: int, e: int| 0 <= a < n && 0 <= e < sym_groups@[a]@.len() ==> (#[trigger] sym_groups@[a]@[e]).0@.len()
                == sub.factors@[a].indices@.len() && crate::repr::perm_in_bounds(sym_groups@[a]@[e].0@, sub.factors@[a].indices@.len() as int),
            forall|a: int| 0 <= a < n ==> #[trigger] combo@[a] < combo_sizes@[a],
            best matches Some(res) ==> res.0.factors@.len() == sub.factors@.len()
                && (res.0.coeff.pair() == sub.coeff.pair() || res.0.coeff.pair() == (-sub.coeff.num(), sub.coeff.den()))
                && index_ranges(res.0.sum_indices@) == index_ranges(kept_sums(sub@.sum_indices, contracted_ids@))
                && (fix_contracted is Some ==> res.1@.len() == 0)
            && tensors_nondecreasing(res.0.factors@)
            && is_rearrangement(res.0.factors@, sub.factors@),
        decreases crate::enumerate::base_pow(cb, n as nat) - crate::enumerate::rank(combo@, cb),
    {
        // coefficient under the chosen symmetry elements
        let mut action = SymAction::Identity;
        let mut k: usize = 0;
        while k < n
            invariant
                k <= n,
                sym_groups@.len() == n,
                combo@.len() == n,
                forall|a: int| 0 <= a < n ==> (#[trigger] sym_groups@[a])@.len() == combo_sizes@[a],
                combo_sizes@.len() == n,
                forall|a: int| 0 <= a < n ==> #[trigger] combo@[a] < combo_sizes@[a],
            decreases n - k,
        {
            action = action.combine(sym_groups[k][combo[k]].1);
            k = k + 1;
        }
        let flips = match action {
            SymAction::Negate | SymAction::NegateConjugate => true,
            _ => false,
        };
        if flips && sub.coeff.numer() == i64::MIN {
            return None;
        }
        let coeff = apply_action_to_coeff(sub.coeff, action);
        // permuted factors, keyed by (tensor, index ranges)
        let mut keyed: Vec<KeyedFactor> = Vec::new();
        let mut k: usize = 0;
        while k < n
            invariant
                k <= n,
                n == sub.factors@.len(),
                sym_groups@.len() == n,
                combo@.len() == n,
                combo_sizes@.len() == n,
                forall|a: int| 0 <= a < n ==> (#[trigger] sym_groups@[a])@.len() == combo_sizes@[a],
                forall|a: int| 0 <= a < n ==> #[trigger] combo@[a] < combo_sizes@[a],
                forall|a: int, e: int| 0 <= a < n && 0 <= e < sym_groups@[a]@.len() ==> (#[trigger] sym_groups@[a]@[e]).0@.len()
                    == sub.factors@[a].indices@.len() && crate::repr::perm_in_bounds(sym_groups@[a]@[e].0@, sub.factors@[a].indices@.len() as int),
                keyed@.len() == k,
                forall|m: int| 0 <= m < k ==> (#[trigger] keyed@[m]).tensor == sub.factors@[m].tensor
                    && keyed@[m].indices@.len() == sub.factors@[m].indices@.len(),
            decreases n - k,
        {
            let f = &sub.factors[k];
            let perm = &sym_groups[k][combo[k]].0;
            let indices = permute_ids(perm, &f.indices);
            let mut ranges: Vec<u32> = Vec::new();
            let mut j: usize = 0;
            while j < indices.len()
                invariant
                    j <= indices@.len(),
                decreases indices.len() - j,
            {
                let id = indices[j];
                let rg = match lookup_slice_range(ext_range, id) {
                    Some(rg) => rg,
                    None => match lookup_range(&sub.sum_indices, id) {
                        Some(rg) => rg,
                        None => RangeId(u32::MAX),
                    },
                };
                ranges.push(rg.0);
                j = j + 1;
            }
            keyed.push(KeyedFactor { tensor: f.tensor, ranges, indices });
            k = k + 1;
        }
        let order = stable_sort_order(&keyed);
        let mut perm_factors: Vec<KeyedFactor> = Vec::new();
        let mut k: usize = 0;
        while k < order.len()
            invariant
                k <= order@.len(),
                crate::sort::is_stable_sort_order(keyed@, order@),
                perm_factors@.len() == k,
                forall|m: int| 0 <= m < k ==> (#[trigger] perm_factors@[m]).tensor == keyed@[order@[m] as int].tensor
                    && perm_factors@[m].indices@.len() == keyed@[order@[m] as int].indices@.len(),
            decreases order.len() - k,
        {
            let src = &keyed[order[k]];
            perm_factors.push(KeyedFactor {
                tensor: src.tensor,
                ranges: crate::repr::copy_vec(&src.ranges),
                indices: crate::repr::copy_vec(&src.indices),
            });
            k = k + 1;
        }
        proof {
            assert forall|a: int, b: int| 0 <= a < b < perm_factors@.len() implies (#[trigger] perm_factors@[a]).tensor.0
                <= (#[trigger] perm_factors@[b]).tensor.0 by {
                assert(keyed@[order@[a] as int].spec_le(keyed@[order@[b] as int]));
            }
        }
        // tied groups: runs of equal keys, as (start, length)
        let mut groups: Vec<(usize, usize)> = Vec::new();
        let mut start: usize = 0;
        while start < perm_factors.len()
            invariant
                start <= perm_factors@.len(),
                group_cover(groups@, start as int),
                group_uniform(groups@, perm_factors@),
            decreases perm_factors.len() - start,
        {
            let mut end: usize = start + 1;
            while end < perm_factors.len() && perm_factors[end].tensor.0 == perm_factors[start].tensor.0
                && vec_eq(&perm_factors[end].ranges, &perm_factors[start].ranges)
                invariant
                    start < end <= perm_factors@.len(),
                    forall|i: int| start <= i < end ==> (#[trigger] perm_factors@[i]).tensor.0 == perm_factors@[start as int].tensor.0,
                decreases perm_factors.len() - end,
            {
                end = end + 1;
            }
            let ghost before = groups@;
            groups.push((start, end - start));
            proof {
                assert(groups@.drop_last() == before);
                lemma_group_start_push(before, (start, (end - start) as usize), before.len() as int);
                assert forall|g: int| 0 <= g < groups@.len() implies (#[trigger] groups@[g]).0 == group_start(groups@, g) && groups@[g].1 >= 1 by {
                    lemma_group_start_push(before, (start, (end - start) as usize), g);
                    if g < before.len() {
                        assert(groups@[g] == before[g]);
                    }
                }
                assert forall|g: int, i: int| 0 <= g < groups@.len() && groups@[g].0 <= i < groups@[g].0 + groups@[g].1 implies
                    #[trigger] perm_factors@[i].tensor.0 == perm_factors@[(#[trigger] groups@[g]).0 as int].tensor.0 by {
                    if g < before.len() {
                        assert(groups@[g] == before[g]);
                    }
                }
                assert(group_start(groups@, groups@.len() as int) == group_start(groups@, before.len() as int) + (end - start));
            }
            start = end;
        }
        // the permutations of each tied group, in lexicographic order
        let (group_perms, gsizes) = tie_permutations(&groups);
        let mut choice: Vec<usize> = Vec::new();
        let mut g: usize = 0;
        while g < groups.len()
            invariant
                g <= groups@.len(),
                choice@.len() == g,
                forall|a: int| 0 <= a < g ==> #[trigger] choice@[a] == 0,
            decreases groups.len() - g,
        {
            choice.push(0);
            g = g + 1;
        }
        proof {
            assert forall|m: int| 0 <= m < n implies (#[trigger] perm_factors@[m]).tensor == sub.factors@[order@[m] as int].tensor
                && perm_factors@[m].indices@.len() == sub.factors@[order@[m] as int].indices@.len() by {
                assert(keyed@[order@[m] as int].tensor == sub.factors@[order@[m] as int].tensor);
            }
        }
        let ghost gpm = group_perms@;
        let ghost gsz = gsizes@;
        let ghost gb: int = max_of(gsizes@);
        proof {
            assert forall|a: int| 0 <= a < groups@.len() implies #[trigger] gsz[a] >= 1 by {
                assert(group_perms@[a]@.len() == gsizes@[a] && gsizes@[a] >= 1);
            }
            assert forall|a: int| 0 <= a < groups@.len() implies #[trigger] choice@[a] < gsizes@[a] by {
                assert(group_perms@[a]@.len() == gsizes@[a] && gsizes@[a] >= 1);
            }
            lemma_max_of(gsizes@);
            lemma_bounded_by_max(choice@, gsizes@);
            crate::enumerate::lemma_rank_bound(choice@, gb);
        }
        loop
            invariant
                n == sub.factors@.len(),
                perm_factors@.len() == n,
                group_cover(groups@, n as int),
                group_perms@.len() == groups@.len(),
                gsizes@.len() == groups@.len(),
                choice@.len() == groups@.len(),
                gb == max_of(gsizes@),
                gb >= 1,
                group_perms@ == gpm,
                gsizes@ == gsz,
                forall|a: int| 0 <= a < groups@.len() ==> (#[trigger] gpm[a])@.len() == gsz[a],
                forall|a: int| 0 <= a < groups@.len() ==> #[trigger] gsz[a] >= 1,
                forall|a: int, q: int| 0 <= a < groups@.len() && 0 <= q < gpm[a]@.len() ==> (#[trigger] gpm[a]@[q])@.len()
                    == groups@[a].1 && crate::enumerate::bounded(gpm[a]@[q]@, groups@[a].1 as int) && gpm[a]@[q]@.no_duplicates(),
                forall|a: int| 0 <= a < groups@.len() ==> #[trigger] choice@[a] < gsz[a],
                coeff.pair() == sub.coeff.pair() || coeff.pair() == (-sub.coeff.num(), sub.coeff.den()),
                best matches Some(res) ==> res.0.factors@.len() == sub.factors@.len()
                    && (res.0.coeff.pair() == sub.coeff.pair() || res.0.coeff.pair() == (-sub.coeff.num(), sub.coeff.den()))
                    && index_ranges(res.0.sum_indices@) == index_ranges(kept_sums(sub@.sum_indices, contracted_ids@))
                    && (fix_contracted is Some ==> res.1@.len() == 0)
            && tensors_nondecreasing(res.0.factors@)
            && is_rearrangement(res.0.factors@, sub.factors@),
            decreases crate::enumerate::base_pow(gb, groups@.len() as nat) - crate::enumerate::rank(choice@, gb),
        {
            // the factor order for this choice of group permutations
            let (ordering, pos_g) = tie_ordering(&perm_factors, &groups, &group_perms, &choice, n);
            let ghost pos = pos_g@;
            let ghost sigma: Seq<int> = Seq::new(n as nat, |p: int| order@[pos[p]] as int);
            proof {
                assert forall|a: int, b: int| 0 <= a < b < n implies #[trigger] sigma[a] != #[trigger] sigma[b] by {
                    assert(pos[a] != pos[b]);
                    if pos[a] < pos[b] {
                        assert(order@[pos[a]] != order@[pos[b]]);
                    } else {
                        assert(order@[pos[b]] != order@[pos[a]]);
                    }
                }
                assert(rearranges(ordering@, sub.factors@, sigma));
            }
            match rename_candidate(sub, coeff, &ordering, ext_ids, contracted_ids, fix_contracted, is_left, pool, &contracted_count) {
                Some(candidate) => {
                    proof {
                        assert(rearranges(candidate.0.factors@, sub.factors@, sigma));
                    }
                    let better = match &best {
                        None => true,
                        Some(b) => term_lt(&candidate.0, &b.0),
                    };
                    if better {
                        if fix_contracted.is_none() {
                            best = Some(candidate);
                        } else {
                            best = Some((candidate.0, Vec::new()));
                        }
                    }
                },
                None => return None,
            }
            let ghost prev_choice = choice@;
            if !crate::enumerate::advance_choice_vector(&mut choice, &gsizes) {
                break;
            }
            proof {
                lemma_bounded_by_max(prev_choice, gsizes@);
                lemma_bounded_by_max(choice@, gsizes@);
                let p = choose|p: int| crate::enumerate::lex_lt_at(prev_choice, choice@, p);
                crate::enumerate::lemma_rank_lex(prev_choice, choice@, gb, p);
                crate::enumerate::lemma_rank_bound(choice@, gb);
            }
        }
        let ghost prev_combo = combo@;
        if !crate::enumerate::advance_choice_vector(&mut combo, &combo_sizes) {
            break;
        }
        proof {
            lemma_bounded_by_max(prev_combo, combo_sizes@);
            lemma_bounded_by_max(combo@, combo_sizes@);
            let p = choose|p: int| crate::enumerate::lex_lt_at(prev_combo, combo@, p);
            crate::enumerate::lemma_rank_lex(prev_combo, combo@, cb, p);
            crate::enumerate::lemma_rank_bound(combo@, cb);
        }
    }
    best
}

/// The largest of `s`, or 1 if it is empty.
pub open spec fn max_of(s: Seq<usize>) -> int
    decreases s.len(),
{
    if s.len() == 0 {
        1
    } else {
        let m = max_of(s.drop_last());
        if s.last() > m { s.last() as int } else { m }
    }
}

pub(crate) proof fn lemma_max_of(s: Seq<usize>)
    ensures
        max_of(s) >= 1,
        forall|i: int| 0 <= i < s.len() ==> #[trigger] s[i] <= max_of(s),
    decreases s.len(),
{
    if s.len() > 0 {
        lemma_max_of(s.drop_last());
        assert forall|i: int| 0 <= i < s.len() implies #[trigger] s[i] <= max_of(s) by {
            if i < s.len() - 1 {
                assert(s[i] == s.drop_last()[i]);
            }
        }
    }
}

pub(crate) proof fn lemma_bounded_by_max(c: Seq<usize>, sizes: Seq<usize>)
    requires
        c.len() == sizes.len(),
        forall|a: int| 0 <= a < c.len() ==> #[trigger] c[a] < sizes[a],
    ensures
        crate::enumerate::bounded(c, max_of(sizes)),
{
    lemma_max_of(sizes);
    assert forall|a: int| 0 <= a < c.len() implies #[trigger] c[a] < max_of(sizes) by {
        assert(sizes[a] <= max_of(sizes));
    }
}

/// The permutations of each tied group, in lexicographic order, and how
/// many each group has.
pub(crate) fn tie_permutations(groups: &Vec<(usize, usize)>) -> (r: (Vec<Vec<Vec<usize>>>, Vec<usize>))
    ensures
        r.0@.len() == groups@.len(),
        r.1@.len() == groups@.len(),
        forall|a: int| 0 <= a < groups@.len() ==> (#[trigger] r.0@[a])@.len() == r.1@[a] && r.1@[a] >= 1,
        forall|a: int, q: int| 0 <= a < groups@.len() && 0 <= q < r.0@[a]@.len() ==> (#[trigger] r.0@[a]@[q])@.len()
            == groups@[a].1 && crate::enumerate::bounded(r.0@[a]@[q]@, groups@[a].1 as int)
            && r.0@[a]@[q]@.no_duplicates(),
{
    let mut group_perms: Vec<Vec<Vec<usize>>> = Vec::new();
    let mut gsizes: Vec<usize> = Vec::new();
    let mut g: usize = 0;
    while g < groups.len()
        invariant
            g <= groups@.len(),
            group_perms@.len() == g,
            gsizes@.len() == g,
            forall|a: int| 0 <= a < g ==> (#[trigger] group_perms@[a])@.len() == gsizes@[a] && gsizes@[a] >= 1,
            forall|a: int, q: int| 0 <= a < g && 0 <= q < group_perms@[a]@.len() ==> (#[trigger] group_perms@[a]@[q])@.len()
                == groups@[a].1 && crate::enumerate::bounded(group_perms@[a]@[q]@, groups@[a].1 as int)
                && group_perms@[a]@[q]@.no_duplicates(),
        decreases groups.len() - g,
    {
        let perms = crate::enumerate::lex_permutations(groups[g].1);
        gsizes.push(perms.len());
        group_perms.push(perms);
        g = g + 1;
    }
    (group_perms, gsizes)
}

/// The factor order for one choice of permutation per tied group: group by
/// group, the group's keyed factors in the chosen order. Also gives, per
/// position, the keyed factor it came from.
#[verifier::loop_isolation(false)]
fn tie_ordering(
    perm_factors: &Vec<KeyedFactor>,
    groups: &Vec<(usize, usize)>,
    group_perms: &Vec<Vec<Vec<usize>>>,
    choice: &Vec<usize>,
    n: usize,
) -> (r: (Vec<Factor>, Ghost<Seq<int>>))
    requires
        perm_factors@.len() == n,
        group_cover(groups@, n as int),
        group_uniform(groups@, perm_factors@),
        forall|a: int, b: int| 0 <= a < b < perm_factors@.len() ==> (#[trigger] perm_factors@[a]).tensor.0
            <= (#[trigger] perm_factors@[b]).tensor.0,
        group_perms@.len() == groups@.len(),
        choice@.len() == groups@.len(),
        forall|a: int, q: int| 0 <= a < groups@.len() && 0 <= q < group_perms@[a]@.len() ==> (#[trigger] group_perms@[a]@[q])@.len()
            == groups@[a].1 && crate::enumerate::bounded(group_perms@[a]@[q]@, groups@[a].1 as int) && group_perms@[a]@[q]@.no_duplicates(),
        forall|a: int| 0 <= a < groups@.len() ==> #[trigger] choice@[a] < group_perms@[a]@.len(),
    ensures
        r.0@.len() == n,
        tensors_nondecreasing(r.0@),
        r.1@.len() == n,
        forall|p: int| 0 <= p < n ==> 0 <= #[trigger] r.1@[p] < n,
        forall|a: int, b: int| 0 <= a < b < n ==> #[trigger] r.1@[a] != #[trigger] r.1@[b],
        forall|p: int| 0 <= p < n ==> (#[trigger] r.0@[p]).tensor == perm_factors@[r.1@[p]].tensor
            && r.0@[p].indices@.len() == perm_factors@[r.1@[p]].indices@.len(),
{
    let mut ordering: Vec<Factor> = Vec::new();
    let ghost mut pos: Seq<int> = Seq::empty();
    let mut g: usize = 0;
    while g < groups.len()
        invariant
            g <= groups@.len(),
            perm_factors@.len() == n,
            group_cover(groups@, n as int),
            group_perms@.len() == groups@.len(),
            choice@.len() == groups@.len(),
            forall|a: int, q: int| 0 <= a < groups@.len() && 0 <= q < group_perms@[a]@.len() ==> (#[trigger] group_perms@[a]@[q])@.len()
                == groups@[a].1 && crate::enumerate::bounded(group_perms@[a]@[q]@, groups@[a].1 as int) && group_perms@[a]@[q]@.no_duplicates(),
            forall|a: int| 0 <= a < groups@.len() ==> #[trigger] choice@[a] < group_perms@[a]@.len(),
            ordering@.len() == group_start(groups@, g as int),
            tensors_nondecreasing(ordering@),
            g < groups@.len() ==> forall|k: int| 0 <= k < ordering@.len() ==> (#[trigger] ordering@[k]).tensor.0
                <= perm_factors@[groups@[g as int].0 as int].tensor.0,
            pos.len() == ordering@.len(),
            forall|p: int| 0 <= p < pos.len() ==> 0 <= #[trigger] pos[p] < group_start(groups@, g as int),
            forall|p: int| 0 <= p < pos.len() ==> (#[trigger] ordering@[p]).tensor == perm_factors@[pos[p]].tensor
                && ordering@[p].indices@.len() == perm_factors@[pos[p]].indices@.len(),
            forall|a: int, b: int| 0 <= a < b < pos.len() ==> #[trigger] pos[a] != #[trigger] pos[b],
        decreases groups.len() - g,
    {
        let (gs, gl) = groups[g];
        let gp = &group_perms[g][choice[g]];
        proof {
            lemma_group_start(groups@, n as int, g as int);
            assert(gp@ == group_perms@[g as int]@[choice@[g as int] as int]@);
        }
        let ghost g0 = group_start(groups@, g as int);
        let mut q: usize = 0;
        while q < gp.len()
            invariant
                q <= gp@.len(),
                gp@.len() == gl,
                crate::enumerate::bounded(gp@, gl as int),
                gs + gl <= n,
                perm_factors@.len() == n,
                ordering@.len() == group_start(groups@, g as int) + q,
                g < groups@.len(),
                gs == groups@[g as int].0,
                gl == groups@[g as int].1,
                tensors_nondecreasing(ordering@),
                forall|k: int| 0 <= k < ordering@.len() ==> (#[trigger] ordering@[k]).tensor.0
                    <= perm_factors@[gs as int].tensor.0,
                gp@.no_duplicates(),
                g0 == group_start(groups@, g as int),
                gs == g0,
                pos.len() == ordering@.len(),
                forall|p: int| 0 <= p < g0 ==> 0 <= #[trigger] pos[p] < gs,
                forall|p: int| g0 <= p < pos.len() ==> #[trigger] pos[p] == gs + gp@[p - g0],
                forall|p: int| 0 <= p < pos.len() ==> 0 <= #[trigger] pos[p] < n,
                forall|p: int| 0 <= p < pos.len() ==> (#[trigger] ordering@[p]).tensor == perm_factors@[pos[p]].tensor
                    && ordering@[p].indices@.len() == perm_factors@[pos[p]].indices@.len(),
                forall|a: int, b: int| 0 <= a < b < pos.len() ==> #[trigger] pos[a] != #[trigger] pos[b],
            decreases gp.len() - q,
        {
            let src = &perm_factors[gs + gp[q]];
            let ghost prev = ordering@;
            proof {
                assert(perm_factors@[gs + gp@[q as int]].tensor.0 == perm_factors@[groups@[g as int].0 as int].tensor.0);
            }
            ordering.push(Factor { tensor: src.tensor, indices: crate::repr::copy_vec(&src.indices) });
            proof {
                let pos_prev = pos;
                pos = pos.push(gs + gp@[q as int]);
                assert forall|p: int| g0 <= p < pos.len() implies #[trigger] pos[p] == gs + gp@[p - g0] by {
                    if p < pos_prev.len() {
                        assert(pos[p] == pos_prev[p]);
                    }
                }
                assert forall|a: int, b: int| 0 <= a < b < pos.len() implies #[trigger] pos[a] != #[trigger] pos[b] by {
                    if b < pos_prev.len() {
                        assert(pos[a] == pos_prev[a] && pos[b] == pos_prev[b]);
                    } else if a < g0 {
                        assert(pos[a] == pos_prev[a]);
                    } else {
                        assert(pos[a] == gs + gp@[a - g0]);
                        assert(gp@[a - g0] != gp@[q as int]);
                    }
                }
                assert forall|p: int| 0 <= p < pos.len() implies (#[trigger] ordering@[p]).tensor == perm_factors@[pos[p]].tensor
                    && ordering@[p].indices@.len() == perm_factors@[pos[p]].indices@.len() by {
                    if p < pos_prev.len() {
                        assert(ordering@[p] == prev[p]);
                        assert(pos[p] == pos_prev[p]);
                    }
                }
                assert forall|k: int| 0 <= k < ordering@.len() implies (#[trigger] ordering@[k]).tensor.0
                    <= perm_factors@[gs as int].tensor.0 by {
                    if k < prev.len() {
                        assert(ordering@[k] == prev[k]);
                    }
                }
                assert forall|a: int, b: int| 0 <= a < b < ordering@.len() implies (#[trigger] ordering@[a]).tensor.0
                    <= (#[trigger] ordering@[b]).tensor.0 by {
                    if b < prev.len() {
                        assert(ordering@[a] == prev[a] && ordering@[b] == prev[b]);
                    } else {
                        assert(ordering@[a] == prev[a]);
                    }
                }
            }
            q = q + 1;
        }
        proof {
            lemma_group_start_step(groups@, g as int);
            assert forall|p: int| 0 <= p < pos.len() implies 0 <= #[trigger] pos[p] < group_start(groups@, g + 1) by {
                if p >= g0 {
                    assert(pos[p] == gs + gp@[p - g0]);
                }
            }
            if g + 1 < groups@.len() {
                lemma_group_start(groups@, n as int, g + 1);
                assert(groups@[g + 1].0 == groups@[g as int].0 + groups@[g as int].1);
                assert(perm_factors@[gs as int].tensor.0 <= perm_factors@[groups@[g + 1].0 as int].tensor.0);
            }
        }
        g = g + 1;
    }
    proof {
        lemma_group_start_end(groups@, n as int);
    }
    (ordering, Ghost(pos))
}

/// `sigma` lists each position below `n` once.
pub open spec fn is_permutation(sigma: Seq<int>, n: int) -> bool {
    &&& sigma.len() == n
    &&& forall|k: int| 0 <= k < n ==> 0 <= #[trigger] sigma[k] < n
    &&& forall|a: int, b: int| 0 <= a < b < n ==> #[trigger] sigma[a] != #[trigger] sigma[b]
}

/// `fs` are the factors `orig` taken in the order `sigma`, each with its
/// tensor and its number of indices.
pub open spec fn rearranges(fs: Seq<Factor>, orig: Seq<Factor>, sigma: Seq<int>) -> bool {
    &&& is_permutation(sigma, orig.len() as int)
    &&& fs.len() == orig.len()
    &&& forall|k: int| 0 <= k < fs.len() ==> (#[trigger] fs[k]).tensor == orig[sigma[k]].tensor
        && fs[k].indices@.len() == orig[sigma[k]].indices@.len()
}

/// `fs` are the factors `orig` in some order.
pub open spec fn is_rearrangement(fs: Seq<Factor>, orig: Seq<Factor>) -> bool {
    exists|sigma: Seq<int>| #[trigger] rearranges(fs, orig, sigma)
}

/// The factors' tensor ids never decrease.
pub open spec fn tensors_nondecreasing(fs: Seq<Factor>) -> bool {
    forall|a: int, b: int| 0 <= a < b < fs.len() ==> (#[trigger] fs[a]).tensor.0 <= (#[trigger] fs[b]).tensor.0
}

/// Within each group, every keyed factor has the tensor of the group's first.
spec fn group_uniform(groups: Seq<(usize, usize)>, fs: Seq<KeyedFactor>) -> bool {
    forall|g: int, i: int| 0 <= g < groups.len() && groups[g].0 <= i < groups[g].0 + groups[g].1 ==>
        #[trigger] fs[i].tensor.0 == fs[(#[trigger] groups[g]).0 as int].tensor.0
}

/// Where group `g` starts: the total length of the groups before it.
pub open spec fn group_start(groups: Seq<(usize, usize)>, g: int) -> int
    decreases g,
{
    if g <= 0 {
        0
    } else {
        group_start(groups, g - 1) + groups[g - 1].1
    }
}

/// `groups` are consecutive non-empty runs covering `[0, end)`.
pub open spec fn group_cover(groups: Seq<(usize, usize)>, end: int) -> bool {
    &&& forall|g: int| 0 <= g < groups.len() ==> (#[trigger] groups[g]).0 == group_start(groups, g) && groups[g].1 >= 1
    &&& group_start(groups, groups.len() as int) == end
}

pub(crate) proof fn lemma_group_start(groups: Seq<(usize, usize)>, n: int, g: int)
    requires
        group_cover(groups, n),
        0 <= g < groups.len(),
    ensures
        groups[g].0 + groups[g].1 <= n,
        groups[g].0 == group_start(groups, g),
    decreases groups.len() - g,
{
    lemma_group_start_mono(groups, g + 1, groups.len() as int);
}

proof fn lemma_group_start_mono(groups: Seq<(usize, usize)>, a: int, b: int)
    requires
        0 <= a <= b <= groups.len(),
    ensures
        group_start(groups, a) <= group_start(groups, b),
    decreases b - a,
{
    if a < b {
        lemma_group_start_mono(groups, a, b - 1);
    }
}

pub(crate) proof fn lemma_group_start_push(groups: Seq<(usize, usize)>, x: (usize, usize), k: int)
    requires
        0 <= k <= groups.len(),
    ensures
        group_start(groups.push(x), k) == group_start(groups, k),
    decreases k,
{
    if k > 0 {
        lemma_group_start_push(groups, x, k - 1);
        assert(groups.push(x)[k - 1] == groups[k - 1]);
    }
}

pub(crate) proof fn lemma_group_start_step(groups: Seq<(usize, usize)>, g: int)
    requires
        0 <= g < groups.len(),
    ensures
        group_start(groups, g + 1) == group_start(groups, g) + groups[g].1,
{
}

pub(crate) proof fn lemma_group_start_end(groups: Seq<(usize, usize)>, n: int)
    requires
        group_cover(groups, n),
    ensures
        group_start(groups, groups.len() as int) == n,
{
}

} // verus!
