//! The top-level binary splits of a term, with the index pattern of the last
//! contraction step of each.
use vstd::prelude::*;

use crate::bits::{bit, bits_below, is_submask, lemma_bit_or, lemma_bit_single, lemma_bit_zero, lemma_low_mask, lemma_next_submask, lemma_split_smaller, lemma_union_over_bit, union_of_members, union_over};
use crate::rational::Rational;
use crate::repr::{copy_vec, factor_models, Factor, FactorModel, Index, IndexId, RangeId, TensorDef, Term, TermModel};
use crate::sort::{lemma_seq_le_total, lemma_seq_le_trans, seq_le, sort_u32, sorted_u32, stable_sort_order, vec_le, SortKey, is_stable_sort_order};

verus! {

pub type FactorSubset = u64;

#[derive(Debug, PartialEq, Eq, Hash)]
pub struct LastStepIndices {
    pub left_ext: u64,
    pub right_ext: u64,
    pub sums: Vec<RangeId>,
}

pub struct LastStepModel {
    pub left_ext: u64,
    pub right_ext: u64,
    pub sums: Seq<RangeId>,
}

impl View for LastStepIndices {
    type V = LastStepModel;

    open spec fn view(&self) -> LastStepModel {
        LastStepModel { left_ext: self.left_ext, right_ext: self.right_ext, sums: self.sums@ }
    }
}

impl Clone for LastStepIndices {
    fn clone(&self) -> (r: Self)
        ensures
            r@ == self@,
    {
        LastStepIndices { left_ext: self.left_ext, right_ext: self.right_ext, sums: copy_vec(&self.sums) }
    }
}

impl LastStepIndices {
    /// Equality of contents.
    pub fn same(&self, other: &LastStepIndices) -> (r: bool)
        ensures
            r == (self@ == other@),
    {
        if self.left_ext != other.left_ext || self.right_ext != other.right_ext
            || self.sums.len() != other.sums.len() {
            return false;
        }
        let mut i: usize = 0;
        while i < self.sums.len()
            invariant
                i <= self.sums@.len(),
                self.sums@.len() == other.sums@.len(),
                forall|k: int| 0 <= k < i ==> self.sums@[k] == other.sums@[k],
            decreases self.sums.len() - i,
        {
            if self.sums[i].0 != other.sums[i].0 {
                return false;
            }
            i = i + 1;
        }
        assert(self.sums@ =~= other.sums@);
        true
    }
}

#[derive(Debug, PartialEq, Eq)]
pub struct TermSplit {
    pub left_sub_term: Term,
    pub right_sub_term: Term,
    pub last_step: LastStepIndices,
}

impl Clone for TermSplit {
    fn clone(&self) -> (r: Self)
        ensures
            r.left_sub_term@ == self.left_sub_term@,
            r.right_sub_term@ == self.right_sub_term@,
            r.last_step@ == self.last_step@,
    {
        TermSplit {
            left_sub_term: self.left_sub_term.clone(),
            right_sub_term: self.right_sub_term.clone(),
            last_step: self.last_step.clone(),
        }
    }
}

pub open spec fn range_nums(s: Seq<RangeId>) -> Seq<u32> {
    s.map_values(|r: RangeId| r.0)
}

/// Order of splits: by left external mask, right external mask, contracted
/// ranges (lexicographically), and the factor counts of the two sides.
pub open spec fn split_le(a: TermSplit, b: TermSplit) -> bool {
    if a.last_step.left_ext != b.last_step.left_ext {
        a.last_step.left_ext < b.last_step.left_ext
    } else if a.last_step.right_ext != b.last_step.right_ext {
        a.last_step.right_ext < b.last_step.right_ext
    } else if range_nums(a.last_step.sums@) != range_nums(b.last_step.sums@) {
        seq_le(range_nums(a.last_step.sums@), range_nums(b.last_step.sums@))
    } else if a.left_sub_term.factors@.len() != b.left_sub_term.factors@.len() {
        a.left_sub_term.factors@.len() < b.left_sub_term.factors@.len()
    } else {
        a.right_sub_term.factors@.len() <= b.right_sub_term.factors@.len()
    }
}

fn range_nums_vec(v: &Vec<RangeId>) -> (r: Vec<u32>)
    ensures
        r@ == range_nums(v@),
{
    let mut out: Vec<u32> = Vec::new();
    let mut i: usize = 0;
    while i < v.len()
        invariant
            i <= v@.len(),
            out@ == range_nums(v@.take(i as int)),
        decreases v.len() - i,
    {
        out.push(v[i].0);
        i = i + 1;
        assert(out@ =~= range_nums(v@.take(i as int)));
    }
    assert(v@.take(v@.len() as int) =~= v@);
    out
}

impl SortKey for TermSplit {
    open spec fn spec_le(self, other: Self) -> bool {
        split_le(self, other)
    }

    proof fn lemma_le_total(a: Self, b: Self) {
        lemma_seq_le_total(range_nums(a.last_step.sums@), range_nums(b.last_step.sums@));
    }

    proof fn lemma_le_trans(a: Self, b: Self, c: Self) {
        let (x, y, z) = (
            range_nums(a.last_step.sums@),
            range_nums(b.last_step.sums@),
            range_nums(c.last_step.sums@),
        );
        if x != y && y != z && a.last_step.left_ext == b.last_step.left_ext
            && b.last_step.left_ext == c.last_step.left_ext && a.last_step.right_ext
            == b.last_step.right_ext && b.last_step.right_ext == c.last_step.right_ext {
            lemma_seq_le_trans(x, y, z);
            if x == z {
                crate::sort::lemma_seq_le_antisym(x, y);
            }
        }
    }

    fn exec_le(&self, other: &Self) -> (r: bool) {
        if self.last_step.left_ext != other.last_step.left_ext {
            return self.last_step.left_ext < other.last_step.left_ext;
        }
        if self.last_step.right_ext != other.last_step.right_ext {
            return self.last_step.right_ext < other.last_step.right_ext;
        }
        let a = range_nums_vec(&self.last_step.sums);
        let b = range_nums_vec(&other.last_step.sums);
        if !crate::sort::vec_eq(&a, &b) {
            return vec_le(&a, &b);
        }
        if self.left_sub_term.factors.len() != other.left_sub_term.factors.len() {
            return self.left_sub_term.factors.len() < other.left_sub_term.factors.len();
        }
        self.right_sub_term.factors.len() <= other.right_sub_term.factors.len()
    }
}


/// Order of last-step patterns: by left external mask, right external mask,
/// then the contracted ranges lexicographically.
pub open spec fn last_step_le(a: LastStepModel, b: LastStepModel) -> bool {
    if a.left_ext != b.left_ext {
        a.left_ext < b.left_ext
    } else if a.right_ext != b.right_ext {
        a.right_ext < b.right_ext
    } else {
        seq_le(range_nums(a.sums), range_nums(b.sums))
    }
}

pub proof fn lemma_last_step_le_trans(a: LastStepModel, b: LastStepModel, c: LastStepModel)
    requires
        last_step_le(a, b),
        last_step_le(b, c),
    ensures
        last_step_le(a, c),
{
    if a.left_ext == b.left_ext && b.left_ext == c.left_ext && a.right_ext == b.right_ext && b.right_ext == c.right_ext {
        lemma_seq_le_trans(range_nums(a.sums), range_nums(b.sums), range_nums(c.sums));
    }
}

/// `last_step_le` of two patterns.
pub fn last_step_le_exec(a: &LastStepIndices, b: &LastStepIndices) -> (r: bool)
    ensures
        r == last_step_le(a@, b@),
{
    if a.left_ext != b.left_ext {
        return a.left_ext < b.left_ext;
    }
    if a.right_ext != b.right_ext {
        return a.right_ext < b.right_ext;
    }
    let x = range_nums_vec(&a.sums);
    let y = range_nums_vec(&b.sums);
    vec_le(&x, &y)
}

// ---------------------------------------------------------------------------
// Index positions of a term
// ---------------------------------------------------------------------------

/// Last position of `id` in `idxs`, or -1.
pub open spec fn last_pos(idxs: Seq<Index>, id: IndexId) -> int
    decreases idxs.len(),
{
    if idxs.len() == 0 {
        -1
    } else if idxs.last().id == id {
        idxs.len() - 1
    } else {
        last_pos(idxs.drop_last(), id)
    }
}

/// Mask of the positions in `idxs` of the indices `fidx[..k]`.
pub open spec fn pos_mask_upto(idxs: Seq<Index>, fidx: Seq<IndexId>, k: int) -> u64
    decreases k,
{
    if k <= 0 {
        0
    } else {
        let p = last_pos(idxs, fidx[k - 1]);
        if 0 <= p < 64 {
            pos_mask_upto(idxs, fidx, k - 1) | (1u64 << (p as u64))
        } else {
            pos_mask_upto(idxs, fidx, k - 1)
        }
    }
}

pub open spec fn pos_masks(idxs: Seq<Index>, factors: Seq<FactorModel>) -> Seq<u64> {
    factors.map_values(|f: FactorModel| pos_mask_upto(idxs, f.indices, f.indices.len() as int))
}

pub proof fn lemma_last_pos(idxs: Seq<Index>, id: IndexId)
    ensures
        -1 <= last_pos(idxs, id) < idxs.len(),
        last_pos(idxs, id) >= 0 ==> idxs[last_pos(idxs, id)].id == id,
        last_pos(idxs, id) < 0 ==> forall|k: int| 0 <= k < idxs.len() ==> #[trigger] idxs[k].id != id,
        last_pos(idxs, id) >= 0 ==> forall|k: int| last_pos(idxs, id) < k < idxs.len() ==> #[trigger] idxs[k].id != id,
    decreases idxs.len(),
{
    if idxs.len() > 0 {
        lemma_last_pos(idxs.drop_last(), id);
        if idxs.last().id != id {
            assert forall|k: int| 0 <= k < idxs.len() - 1 implies #[trigger] idxs[k] == idxs.drop_last()[k] by {}
        }
    }
}

pub fn find_last_pos(idxs: &Vec<Index>, id: IndexId) -> (r: Option<usize>)
    ensures
        r matches Some(p) ==> p == last_pos(idxs@, id),
        r is None ==> last_pos(idxs@, id) < 0,
{
    proof {
        lemma_last_pos(idxs@, id);
    }
    let mut found: Option<usize> = None;
    let mut i: usize = 0;
    while i < idxs.len()
        invariant
            i <= idxs@.len(),
            found matches Some(p) ==> p == last_pos(idxs@.take(i as int), id),
            found is None ==> last_pos(idxs@.take(i as int), id) < 0,
        decreases idxs.len() - i,
    {
        assert(idxs@.take(i + 1).drop_last() =~= idxs@.take(i as int));
        if idxs[i].id.0 == id.0 {
            found = Some(i);
        }
        i = i + 1;
    }
    assert(idxs@.take(idxs@.len() as int) =~= idxs@);
    found
}

fn positions_mask(idxs: &Vec<Index>, fidx: &Vec<IndexId>) -> (r: u64)
    ensures
        r == pos_mask_upto(idxs@, fidx@, fidx@.len() as int),
{
    let mut m: u64 = 0;
    let mut j: usize = 0;
    while j < fidx.len()
        invariant
            j <= fidx@.len(),
            m == pos_mask_upto(idxs@, fidx@, j as int),
        decreases fidx.len() - j,
    {
        match find_last_pos(idxs, fidx[j]) {
            Some(p) => {
                if p < 64 {
                    m = m | (1u64 << (p as u64));
                }
            },
            None => {},
        }
        j = j + 1;
    }
    m
}

proof fn lemma_pos_mask_below(idxs: Seq<Index>, fidx: Seq<IndexId>, k: int)
    requires
        0 <= k <= fidx.len(),
    ensures
        bits_below(pos_mask_upto(idxs, fidx, k), idxs.len() as int),
    decreases k,
{
    if k > 0 {
        lemma_pos_mask_below(idxs, fidx, k - 1);
        let p = last_pos(idxs, fidx[k - 1]);
        lemma_last_pos(idxs, fidx[k - 1]);
        if 0 <= p < 64 {
            let prev = pos_mask_upto(idxs, fidx, k - 1);
            assert forall|c: u64| c < 64 && #[trigger] bit(prev | (1u64 << (p as u64)), c) implies c < idxs.len() by {
                lemma_bit_or(prev, 1u64 << (p as u64), c);
                lemma_bit_single(p as u64, c);
            }
        }
    } else {
        assert forall|c: u64| c < 64 && #[trigger] bit(0, c) implies c < idxs.len() by {
            lemma_bit_zero(c);
        }
    }
}

fn factor_positions(idxs: &Vec<Index>, factors: &Vec<Factor>) -> (r: Vec<u64>)
    ensures
        r@ == pos_masks(idxs@, factor_models(factors@)),
{
    let mut out: Vec<u64> = Vec::new();
    let mut i: usize = 0;
    while i < factors.len()
        invariant
            i <= factors@.len(),
            out@.len() == i,
            forall|k: int| 0 <= k < i ==> #[trigger] out@[k] == pos_mask_upto(idxs@, factors@[k].indices@, factors@[k].indices@.len() as int),
        decreases factors.len() - i,
    {
        out.push(positions_mask(idxs, &factors[i].indices));
        i = i + 1;
    }
    assert(out@ =~= pos_masks(idxs@, factor_models(factors@)));
    out
}

// ---------------------------------------------------------------------------
// Sub-terms
// ---------------------------------------------------------------------------

/// The factors at the members `i < k` of `subset`, in increasing order.
pub open spec fn selected_factors(factors: Seq<FactorModel>, subset: u64, k: int) -> Seq<FactorModel>
    decreases k,
{
    if k <= 0 {
        seq![]
    } else if bit(subset, (k - 1) as u64) {
        selected_factors(factors, subset, k - 1).push(factors[k - 1])
    } else {
        selected_factors(factors, subset, k - 1)
    }
}

/// `id` is an index of one of `factors`.
pub open spec fn id_present(factors: Seq<FactorModel>, id: IndexId) -> bool {
    exists|i: int, j: int| 0 <= i < factors.len() && 0 <= j < factors[i].indices.len() && #[trigger] factors[i].indices[j] == id
}

/// The indices of `idxs` that occur in `factors`, in order.
pub open spec fn keep_present(idxs: Seq<Index>, factors: Seq<FactorModel>) -> Seq<Index>
    decreases idxs.len(),
{
    if idxs.len() == 0 {
        seq![]
    } else if id_present(factors, idxs.last().id) {
        keep_present(idxs.drop_last(), factors).push(idxs.last())
    } else {
        keep_present(idxs.drop_last(), factors)
    }
}

/// The sub-term of `term` made of the factors in `subset`: its factors in
/// order, the summation indices that occur in them, and coefficient `coeff`.
pub open spec fn sub_term_spec(term: TermModel, subset: u64, coeff: Rational) -> TermModel {
    let fs = selected_factors(term.factors, subset, term.factors.len() as int);
    TermModel { coeff, sum_indices: keep_present(term.sum_indices, fs), factors: fs }
}

pub(crate) fn id_in_factors(factors: &Vec<Factor>, id: IndexId) -> (r: bool)
    ensures
        r == id_present(factor_models(factors@), id),
{
    let ghost fm = factor_models(factors@);
    let mut i: usize = 0;
    while i < factors.len()
        invariant
            i <= factors@.len(),
            fm == factor_models(factors@),
            forall|a: int, b: int| 0 <= a < i && 0 <= b < fm[a].indices.len() ==> #[trigger] fm[a].indices[b] != id,
        decreases factors.len() - i,
    {
        let mut j: usize = 0;
        while j < factors[i].indices.len()
            invariant
                i < factors@.len(),
                j <= factors@[i as int].indices@.len(),
                fm == factor_models(factors@),
                forall|a: int, b: int| 0 <= a < i && 0 <= b < fm[a].indices.len() ==> #[trigger] fm[a].indices[b] != id,
                forall|b: int| 0 <= b < j ==> #[trigger] fm[i as int].indices[b] != id,
            decreases factors@[i as int].indices@.len() - j,
        {
            if factors[i].indices[j].0 == id.0 {
                assert(fm[i as int].indices[j as int] == id);
                return true;
            }
            j = j + 1;
        }
        i = i + 1;
    }
    false
}

/// Build a sub-Term from a subset of factors.
///
/// The sub-term contains only the factors indicated by the bitmask, with
/// sum_indices filtered to those that actually appear in the subset's factors.
/// The coefficient is always 1.
pub fn make_sub_term(term: &Term, subset: FactorSubset) -> (r: Term)
    requires
        term.factors@.len() <= 64,
    ensures
        r@ == sub_term_spec(term@, subset, r.coeff),
        r.coeff.pair() == (1int, 1int),
{
    let mut factors: Vec<Factor> = Vec::new();
    let mut i: usize = 0;
    while i < term.factors.len()
        invariant
            i <= term.factors@.len(),
            term.factors@.len() <= 64,
            factor_models(factors@) == selected_factors(term@.factors, subset, i as int),
        decreases term.factors.len() - i,
    {
        if (subset >> (i as u64)) & 1 == 1 {
            let ghost prev = factors@;
            factors.push(term.factors[i].clone());
            assert(factor_models(factors@) =~= factor_models(prev).push(term@.factors[i as int]));
        }
        i = i + 1;
    }
    let ghost fs = factor_models(factors@);
    let mut sum_indices: Vec<Index> = Vec::new();
    let mut k: usize = 0;
    while k < term.sum_indices.len()
        invariant
            k <= term.sum_indices@.len(),
            fs == factor_models(factors@),
            sum_indices@ == keep_present(term.sum_indices@.take(k as int), fs),
        decreases term.sum_indices.len() - k,
    {
        let idx = term.sum_indices[k];
        assert(term.sum_indices@.take(k + 1).drop_last() =~= term.sum_indices@.take(k as int));
        if id_in_factors(&factors, idx.id) {
            sum_indices.push(idx);
        }
        k = k + 1;
    }
    assert(term.sum_indices@.take(term.sum_indices@.len() as int) =~= term.sum_indices@);
    Term { coeff: Rational::one(), sum_indices, factors }
}

/// Ranges of the summation indices at the set bits of `bits`, in increasing bit order.
pub open spec fn ranges_at_bits(sum_indices: Seq<Index>, bits: u64, k: int) -> Seq<RangeId>
    decreases k,
{
    if k <= 0 {
        seq![]
    } else if bit(bits, (k - 1) as u64) {
        ranges_at_bits(sum_indices, bits, k - 1).push(sum_indices[k - 1].range)
    } else {
        ranges_at_bits(sum_indices, bits, k - 1)
    }
}

/// The ranges of the sums contracted between two sides, in ascending order.
pub open spec fn contracted_ranges_spec(sum_indices: Seq<Index>, bits: u64) -> Seq<u32> {
    let n = if sum_indices.len() < 64 { sum_indices.len() as int } else { 64 };
    sorted_u32(range_nums(ranges_at_bits(sum_indices, bits, n)))
}

fn contracted_sum_ranges(term: &Term, left_sum_bits: u64, right_sum_bits: u64) -> (r: Vec<RangeId>)
    ensures
        range_nums(r@) == contracted_ranges_spec(term@.sum_indices, left_sum_bits & right_sum_bits),
{
    let bits = left_sum_bits & right_sum_bits;
    let n: usize = if term.sum_indices.len() < 64 { term.sum_indices.len() } else { 64 };
    let mut nums: Vec<u32> = Vec::new();
    let mut i: usize = 0;
    while i < n
        invariant
            i <= n,
            n <= term.sum_indices@.len(),
            n <= 64,
            nums@ == range_nums(ranges_at_bits(term@.sum_indices, bits, i as int)),
        decreases n - i,
    {
        if (bits >> (i as u64)) & 1 == 1 {
            nums.push(term.sum_indices[i].range.0);
            assert(nums@ =~= range_nums(ranges_at_bits(term@.sum_indices, bits, i + 1)));
        }
        i = i + 1;
    }
    let sorted = sort_u32(&nums);
    let mut out: Vec<RangeId> = Vec::new();
    let mut j: usize = 0;
    while j < sorted.len()
        invariant
            j <= sorted@.len(),
            range_nums(out@) == sorted@.take(j as int),
        decreases sorted.len() - j,
    {
        let ghost prev = out@;
        out.push(RangeId(sorted[j]));
        proof {
            assert(out@ == prev.push(RangeId(sorted@[j as int])));
            assert(range_nums(out@) =~= range_nums(prev).push(sorted@[j as int]));
            assert(sorted@.take(j + 1) =~= sorted@.take(j as int).push(sorted@[j as int]));
        }
        j = j + 1;
    }
    assert(sorted@.take(sorted@.len() as int) =~= sorted@);
    out
}

// ---------------------------------------------------------------------------
// Split enumeration
// ---------------------------------------------------------------------------

/// External-position masks of the members of `subset`.
pub open spec fn ext_mask_of(term: TermModel, ext: Seq<Index>, subset: u64) -> u64 {
    union_over(pos_masks(ext, term.factors), subset, term.factors.len() as int)
}

pub open spec fn sum_mask_of(term: TermModel, subset: u64) -> u64 {
    union_over(pos_masks(term.sum_indices, term.factors), subset, term.factors.len() as int)
}

/// The two factor subsets of a split, in the order the split presents them:
/// the side with the smaller external mask first.
pub open spec fn normalized_sides(term: TermModel, ext: Seq<Index>, l: u64, r: u64) -> (u64, u64) {
    if ext_mask_of(term, ext, l) > ext_mask_of(term, ext, r) {
        (r, l)
    } else {
        (l, r)
    }
}

/// `split` is the split of `term` into the factor subsets `sides`.
pub open spec fn split_matches(term: TermModel, ext: Seq<Index>, split: TermSplit, sides: (u64, u64)) -> bool {
    let (l, r) = sides;
    &&& split.left_sub_term@ == sub_term_spec(term, l, split.left_sub_term.coeff)
    &&& split.right_sub_term@ == sub_term_spec(term, r, split.right_sub_term.coeff)
    &&& split.left_sub_term.coeff.pair() == (1int, 1int)
    &&& split.right_sub_term.coeff.pair() == (1int, 1int)
    &&& split.last_step.left_ext == ext_mask_of(term, ext, l)
    &&& split.last_step.right_ext == ext_mask_of(term, ext, r)
    &&& range_nums(split.last_step.sums@) == contracted_ranges_spec(
        term.sum_indices,
        sum_mask_of(term, l) & sum_mask_of(term, r),
    )
}

/// The splits of `full` at `sub` and the submasks after it (each unordered
/// split once), as normalized (left, right) subsets, in enumeration order.
pub open spec fn split_sides(term: TermModel, ext: Seq<Index>, full: u64, sub: u64) -> Seq<(u64, u64)>
    decreases sub,
{
    if sub == 0 || !is_submask(sub, full) || sub == full {
        seq![]
    } else {
        proof {
            lemma_next_submask(sub, full);
        }
        let rest = split_sides(term, ext, full, ((sub - 1) as u64 & full) as u64);
        let r = (full ^ sub) as u64;
        if sub < r {
            seq![normalized_sides(term, ext, sub, r)] + rest
        } else {
            rest
        }
    }
}

/// `r` lists the splits `sides` in the order `order`, sorted stably by
/// `split_le`: `r[a]` is the split `sides[order[a]]`.
pub open spec fn splits_sorted_from(
    term: TermModel,
    ext: Seq<Index>,
    r: Seq<TermSplit>,
    sides: Seq<(u64, u64)>,
    order: Seq<usize>,
) -> bool {
    &&& order.len() == r.len()
    &&& sides.len() == r.len()
    &&& forall|a: int| 0 <= a < order.len() ==> #[trigger] order[a] < r.len()
    &&& forall|a: int, b: int| 0 <= a < b < order.len() ==> #[trigger] order[a] != #[trigger] order[b]
    &&& forall|a: int| 0 <= a < r.len() ==> split_matches(term, ext, #[trigger] r[a], sides[order[a] as int])
    &&& forall|a: int, b: int| 0 <= a < b < r.len() ==> split_le(#[trigger] r[a], #[trigger] r[b])
    &&& forall|a: int, b: int| 0 <= a < b < r.len() && split_le(#[trigger] r[b], #[trigger] r[a]) ==> order[a] < order[b]
}

/// The split sides of a term in enumeration order.
pub open spec fn term_split_sides(term: TermModel, ext: Seq<Index>) -> Seq<(u64, u64)> {
    let n = term.factors.len();
    let full = ((1u64 << (n as u64)) - 1) as u64;
    if n < 2 { seq![] } else { split_sides(term, ext, full, ((full - 1) as u64 & full) as u64) }
}

/// The top-level splits of a term, sorted by index pattern (stably).
pub open spec fn enumerate_splits_ok(term: TermModel, ext: Seq<Index>, r: Seq<TermSplit>) -> bool {
    exists|order: Seq<usize>| #[trigger] splits_sorted_from(term, ext, r, term_split_sides(term, ext), order)
}

pub fn enumerate_splits(term: &Term, def: &TensorDef) -> (r: Vec<TermSplit>)
    requires
        term.factors@.len() < 64,
    ensures
        term@.factors.len() < 2 ==> r@.len() == 0,
        enumerate_splits_ok(term@, def.ext_indices@, r@),
{
    let n = term.factors.len();
    if n < 2 {
        let r: Vec<TermSplit> = Vec::new();
        proof {
            let order: Seq<usize> = seq![];
            assert(splits_sorted_from(term@, def.ext_indices@, r@, term_split_sides(term@, def.ext_indices@), order));
        }
        return r;
    }
    let factor_sum_bits = factor_positions(&term.sum_indices, &term.factors);
    let factor_ext_bits = factor_positions(&def.ext_indices, &term.factors);
    proof {
        lemma_low_mask(n as u64, 0);
        crate::bits::lemma_bits_below_64(0);
    }
    let full: u64 = (1u64 << (n as u64)) - 1;
    let ghost first = ((full - 1) as u64 & full) as u64;
    let ghost tm = term@;
    let ghost ext = def.ext_indices@;
    assert(full & full == full) by (bit_vector);
    proof {
        lemma_low_mask(n as u64, 0);
        lemma_bit_zero(0);
        assert(full != 0);
        lemma_next_submask(full, full);
        assert forall|c: u64| c < 64 && #[trigger] bit(full, c) implies c < n by {
            lemma_low_mask(n as u64, c);
        }
    }
    let mut splits: Vec<TermSplit> = Vec::new();
    let ghost mut sides_done: Seq<(u64, u64)> = seq![];
    let mut left = (full - 1) & full;
    while left != 0
        invariant
            2 <= n < 64,
            n == term.factors@.len(),
            tm == term@,
            ext == def.ext_indices@,
            factor_sum_bits@ == pos_masks(tm.sum_indices, tm.factors),
            factor_ext_bits@ == pos_masks(ext, tm.factors),
            full == ((1u64 << (n as u64)) - 1) as u64,
            bits_below(full, n as int),
            left == 0 || (is_submask(left, full) && left != full),
            sides_done + split_sides(tm, ext, full, left) == split_sides(tm, ext, full, first),
            splits@.len() == sides_done.len(),
            forall|a: int| 0 <= a < splits@.len() ==> split_matches(tm, ext, #[trigger] splits@[a], sides_done[a]),
        decreases left,
    {
        proof {
            lemma_next_submask(left, full);
            lemma_split_smaller(left, full);
        }
        let right = full ^ left;
        let ghost rest = split_sides(tm, ext, full, ((left - 1) as u64 & full) as u64);
        if left < right {
            proof {
                assert forall|c: u64| c < 64 && #[trigger] bit(left, c) implies c < n by {
                    crate::bits::lemma_submask_bit(left, full, c);
                }
                assert forall|c: u64| c < 64 && #[trigger] bit(right, c) implies c < n by {
                    crate::bits::lemma_submask_bit(right, full, c);
                }
            }
            let left_ext = union_of_members(&factor_ext_bits, left);
            let right_ext = union_of_members(&factor_ext_bits, right);
            let (l, r, le, re) = if left_ext > right_ext {
                (right, left, right_ext, left_ext)
            } else {
                (left, right, left_ext, right_ext)
            };
            proof {
                assert(bits_below(l, n as int));
                assert(bits_below(r, n as int));
            }
            let left_sum_bits = union_of_members(&factor_sum_bits, l);
            let right_sum_bits = union_of_members(&factor_sum_bits, r);
            let sums = contracted_sum_ranges(term, left_sum_bits, right_sum_bits);
            let ls = make_sub_term(term, l);
            let rs = make_sub_term(term, r);
            let split = TermSplit {
                left_sub_term: ls,
                right_sub_term: rs,
                last_step: LastStepIndices { left_ext: le, right_ext: re, sums },
            };
            let ghost prev = splits@;
            splits.push(split);
            proof {
                let sd = normalized_sides(tm, ext, left, right);
                assert(split_matches(tm, ext, splits@.last(), sd));
                assert(split_sides(tm, ext, full, left) == seq![sd] + rest);
                sides_done = sides_done.push(sd);
                assert(sides_done + rest =~= (sides_done.drop_last() + (seq![sd] + rest)));
                assert forall|a: int| 0 <= a < splits@.len() implies split_matches(tm, ext, #[trigger] splits@[a], sides_done[a]) by {
                    if a < prev.len() {
                        assert(splits@[a] == prev[a]);
                    }
                }
            }
        } else {
            assert(split_sides(tm, ext, full, left) == rest);
        }
        left = (left - 1) & full;
    }
    assert(sides_done + split_sides(tm, ext, full, 0) =~= sides_done);
    let order = stable_sort_order(&splits);
    let mut out: Vec<TermSplit> = Vec::new();
    let mut k: usize = 0;
    while k < order.len()
        invariant
            k <= order@.len(),
            is_stable_sort_order(splits@, order@),
            out@.len() == k,
            forall|a: int| 0 <= a < k ==> (#[trigger] out@[a]).left_sub_term@ == splits@[order@[a] as int].left_sub_term@
                && out@[a].right_sub_term@ == splits@[order@[a] as int].right_sub_term@
                && out@[a].last_step@ == splits@[order@[a] as int].last_step@
                && out@[a].left_sub_term.coeff == splits@[order@[a] as int].left_sub_term.coeff
                && out@[a].right_sub_term.coeff == splits@[order@[a] as int].right_sub_term.coeff
                && out@[a].left_sub_term.factors@.len() == splits@[order@[a] as int].left_sub_term.factors@.len()
                && out@[a].right_sub_term.factors@.len() == splits@[order@[a] as int].right_sub_term.factors@.len(),
        decreases order.len() - k,
    {
        let c = splits[order[k]].clone();
        proof {
            assert(factor_models(c.left_sub_term.factors@).len() == c.left_sub_term.factors@.len());
            assert(factor_models(splits@[order@[k as int] as int].left_sub_term.factors@).len() == splits@[order@[k as int] as int].left_sub_term.factors@.len());
            assert(factor_models(c.right_sub_term.factors@).len() == c.right_sub_term.factors@.len());
            assert(factor_models(splits@[order@[k as int] as int].right_sub_term.factors@).len() == splits@[order@[k as int] as int].right_sub_term.factors@.len());
        }
        out.push(c);
        k = k + 1;
    }
    proof {
        let o = order@;
        assert forall|a: int, b: int| 0 <= a < b < out@.len() implies split_le(#[trigger] out@[a], #[trigger] out@[b]) by {
            assert(split_le(splits@[o[a] as int], splits@[o[b] as int]));
            assert(range_nums(out@[a].last_step.sums@) == range_nums(splits@[o[a] as int].last_step.sums@));
            assert(range_nums(out@[b].last_step.sums@) == range_nums(splits@[o[b] as int].last_step.sums@));
        }
        assert forall|a: int, b: int| 0 <= a < b < out@.len() && split_le(#[trigger] out@[b], #[trigger] out@[a]) implies o[a] < o[b] by {
            assert(range_nums(out@[a].last_step.sums@) == range_nums(splits@[o[a] as int].last_step.sums@));
            assert(range_nums(out@[b].last_step.sums@) == range_nums(splits@[o[b] as int].last_step.sums@));
            assert(split_le(splits@[o[b] as int], splits@[o[a] as int]));
        }
        assert forall|a: int| 0 <= a < out@.len() implies split_matches(tm, ext, #[trigger] out@[a], sides_done[o[a] as int]) by {
            assert(split_matches(tm, ext, splits@[o[a] as int], sides_done[o[a] as int]));
        }
        assert(splits_sorted_from(tm, ext, out@, term_split_sides(tm, ext), o));
    }
    out
}

} // verus!
