//! Product parenthesisation: all binary contraction trees of a term, with
//! their FLOP costs, by a memoised subset dynamic programme.
use vstd::prelude::*;

use crate::bits::{
    at_most_one_bit, bit, bits_below, has_at_most_one_bit, is_submask, lemma_bit_and,
    lemma_bit_not, lemma_bit_or, lemma_bit_single, lemma_bit_zero, lemma_low_mask,
    lemma_next_submask, lemma_split_smaller, lemma_submask_bit, lemma_submask_le, lemma_union_over_bit,
    product_fits, product_of_members, product_over, union_of_members, union_over,
};
use crate::cost::{contraction_cost, indices_in_bounds, max1};
use crate::rational::Rational;
use crate::repr::{Factor, FactorModel, Index, IndexId, Range, RangeId, TensorComputation, TensorDef, TensorId, TensorInfo, Term, TermModel};

verus! {

/// Bitmask of factors in a subset (up to 64 factors).
pub type FactorSubset = u64;

// ---------------------------------------------------------------------------
// Numbering of index ids by bit position
// ---------------------------------------------------------------------------

/// Position of the entry for `id` in an (id, bit) list, or -1.
pub open spec fn assoc_pos(list: Seq<(u32, int)>, id: u32) -> int
    decreases list.len(),
{
    if list.len() == 0 {
        -1
    } else if list.last().0 == id {
        list.len() - 1
    } else {
        assoc_pos(list.drop_last(), id)
    }
}

/// Records `id -> b`, replacing an earlier entry for `id`.
pub open spec fn assoc_put(list: Seq<(u32, int)>, id: u32, b: int) -> Seq<(u32, int)> {
    let p = assoc_pos(list, id);
    if p >= 0 {
        list.update(p, (id, b))
    } else {
        list.push((id, b))
    }
}

/// The bit numbering the index list gets: each id in turn is numbered with
/// the count of distinct ids numbered so far (a later occurrence of an id
/// renumbers it).
pub open spec fn bit_numbering(idxs: Seq<Index>) -> Seq<(u32, int)>
    decreases idxs.len(),
{
    if idxs.len() == 0 {
        seq![]
    } else {
        let l = bit_numbering(idxs.drop_last());
        assoc_put(l, idxs.last().id.0, l.len() as int)
    }
}

/// Bit number of `id` in the numbering of `idxs`, or -1 when `id` is not among them.
pub open spec fn bit_of(idxs: Seq<Index>, id: u32) -> int {
    let l = bit_numbering(idxs);
    let p = assoc_pos(l, id);
    if p >= 0 {
        l[p].1
    } else {
        -1
    }
}

/// Mask of the bits of the indices `fidx[..k]` in the numbering of `idxs`.
pub open spec fn factor_mask_upto(idxs: Seq<Index>, fidx: Seq<IndexId>, k: int) -> u64
    decreases k,
{
    if k <= 0 {
        0
    } else {
        let b = bit_of(idxs, fidx[k - 1].0);
        if 0 <= b < 64 {
            factor_mask_upto(idxs, fidx, k - 1) | (1u64 << (b as u64))
        } else {
            factor_mask_upto(idxs, fidx, k - 1)
        }
    }
}

pub open spec fn factor_mask(idxs: Seq<Index>, fidx: Seq<IndexId>) -> u64 {
    factor_mask_upto(idxs, fidx, fidx.len() as int)
}

pub open spec fn range_sizes(ranges: Seq<Range>, idxs: Seq<Index>) -> Seq<u64> {
    idxs.map_values(|idx: Index| ranges[idx.range.0 as int].size)
}

proof fn lemma_assoc_pos(list: Seq<(u32, int)>, id: u32)
    ensures
        -1 <= assoc_pos(list, id) < list.len(),
        assoc_pos(list, id) >= 0 ==> list[assoc_pos(list, id)].0 == id,
        assoc_pos(list, id) < 0 ==> forall|k: int| 0 <= k < list.len() ==> #[trigger] list[k].0 != id,
    decreases list.len(),
{
    if list.len() > 0 {
        lemma_assoc_pos(list.drop_last(), id);
        if list.last().0 != id && assoc_pos(list, id) < 0 {
            assert forall|k: int| 0 <= k < list.len() implies #[trigger] list[k].0 != id by {
                if k < list.len() - 1 {
                    assert(list[k] == list.drop_last()[k]);
                }
            }
        }
    }
}

/// Bit numbers are below the count of numbered ids, which is at most the list length.
proof fn lemma_bit_numbering_bounds(idxs: Seq<Index>)
    ensures
        bit_numbering(idxs).len() <= idxs.len(),
        forall|k: int|
            0 <= k < bit_numbering(idxs).len() ==> 0 <= #[trigger] bit_numbering(idxs)[k].1
                < idxs.len(),
    decreases idxs.len(),
{
    if idxs.len() > 0 {
        let l = bit_numbering(idxs.drop_last());
        lemma_bit_numbering_bounds(idxs.drop_last());
        lemma_assoc_pos(l, idxs.last().id.0);
    }
}

proof fn lemma_bit_of_bounds(idxs: Seq<Index>, id: u32)
    ensures
        -1 <= bit_of(idxs, id) < idxs.len(),
{
    lemma_bit_numbering_bounds(idxs);
    lemma_assoc_pos(bit_numbering(idxs), id);
}

/// A bit of a factor mask is the number of one of the factor's indices.
proof fn lemma_factor_mask_bits(idxs: Seq<Index>, fidx: Seq<IndexId>, k: int, c: u64)
    requires
        0 <= k <= fidx.len(),
        c < 64,
    ensures
        bit(factor_mask_upto(idxs, fidx, k), c) <==> exists|j: int|
            0 <= j < k && #[trigger] bit_of(idxs, fidx[j].0) == c,
    decreases k,
{
    if k <= 0 {
        lemma_bit_zero(c);
    } else {
        lemma_factor_mask_bits(idxs, fidx, k - 1, c);
        let b = bit_of(idxs, fidx[k - 1].0);
        lemma_bit_of_bounds(idxs, fidx[k - 1].0);
        if 0 <= b < 64 {
            lemma_bit_or(factor_mask_upto(idxs, fidx, k - 1), 1u64 << (b as u64), c);
            lemma_bit_single(b as u64, c);
        }
        if bit_of(idxs, fidx[k - 1].0) == c {
            assert(bit_of(idxs, fidx[(k - 1) as int].0) == c);
        }
    }
}

/// Bits of a factor mask are below the number of indices numbered.
proof fn lemma_factor_mask_below(idxs: Seq<Index>, fidx: Seq<IndexId>)
    ensures
        bits_below(factor_mask(idxs, fidx), idxs.len() as int),
{
    assert forall|c: u64| c < 64 && #[trigger] bit(factor_mask(idxs, fidx), c) implies c
        < idxs.len() by {
        lemma_factor_mask_bits(idxs, fidx, fidx.len() as int, c);
        let j = choose|j: int| 0 <= j < fidx.len() && #[trigger] bit_of(idxs, fidx[j].0) == c;
        lemma_bit_of_bounds(idxs, fidx[j].0);
    }
}

/// Position of the entry for `id` in the exec numbering list.
fn find_entry(list: &Vec<(u32, usize)>, id: u32) -> (r: Option<usize>)
    ensures
        r matches Some(p) ==> p < list@.len() && list@[p as int].0 == id,
        r is None ==> forall|k: int| 0 <= k < list@.len() ==> #[trigger] list@[k].0 != id,
{
    let mut i: usize = 0;
    while i < list.len()
        invariant
            i <= list@.len(),
            forall|k: int| 0 <= k < i ==> #[trigger] list@[k].0 != id,
        decreases list.len() - i,
    {
        if list[i].0 == id {
            return Some(i);
        }
        i = i + 1;
    }
    None
}

pub open spec fn numbering_view(list: Seq<(u32, usize)>) -> Seq<(u32, int)> {
    list.map_values(|e: (u32, usize)| (e.0, e.1 as int))
}

/// The list has at most one entry per id.
pub open spec fn keys_unique(list: Seq<(u32, int)>) -> bool {
    forall|a: int, b: int|
        0 <= a < list.len() && 0 <= b < list.len() && a != b ==> #[trigger] list[a].0
            != #[trigger] list[b].0
}

proof fn lemma_bit_numbering_unique(idxs: Seq<Index>)
    ensures
        keys_unique(bit_numbering(idxs)),
    decreases idxs.len(),
{
    if idxs.len() > 0 {
        let l = bit_numbering(idxs.drop_last());
        lemma_bit_numbering_unique(idxs.drop_last());
        lemma_assoc_pos(l, idxs.last().id.0);
    }
}

proof fn lemma_pos_of_unique(list: Seq<(u32, int)>, id: u32, p: int)
    requires
        keys_unique(list),
        0 <= p < list.len(),
        list[p].0 == id,
    ensures
        assoc_pos(list, id) == p,
{
    lemma_assoc_pos(list, id);
    let q = assoc_pos(list, id);
    if q < 0 {
        assert(list[p].0 != id);
    } else if q != p {
        assert(list[q].0 != list[p].0);
    }
}

/// Builds the bit numbering of `idxs` and the sizes of their ranges.
fn build_numbering(idxs: &Vec<Index>, ranges: &[Range]) -> (r: (Vec<(u32, usize)>, Vec<u64>))
    requires
        indices_in_bounds(ranges@, idxs@),
    ensures
        numbering_view(r.0@) == bit_numbering(idxs@),
        r.1@ == range_sizes(ranges@, idxs@),
{
    let mut list: Vec<(u32, usize)> = Vec::new();
    let mut sizes: Vec<u64> = Vec::new();
    let mut i: usize = 0;
    while i < idxs.len()
        invariant
            i <= idxs.len(),
            indices_in_bounds(ranges@, idxs@),
            numbering_view(list@) == bit_numbering(idxs@.take(i as int)),
            sizes@ == range_sizes(ranges@, idxs@.take(i as int)),
        decreases idxs.len() - i,
    {
        let idx = idxs[i];
        let ghost prev = idxs@.take(i as int);
        assert(idxs@.take(i + 1).drop_last() =~= prev);
        assert(idxs@.take(i + 1).last() == idx);
        let ghost l = bit_numbering(prev);
        proof {
            lemma_bit_numbering_unique(prev);
            lemma_assoc_pos(l, idx.id.0);
        }
        let b = list.len();
        match find_entry(&list, idx.id.0) {
            Some(p) => {
                proof {
                    assert(numbering_view(list@)[p as int].0 == idx.id.0);
                    lemma_pos_of_unique(l, idx.id.0, p as int);
                }
                list.set(p, (idx.id.0, b));
                assert(numbering_view(list@) =~= l.update(p as int, (idx.id.0, b as int)));
            },
            None => {
                proof {
                    assert forall|k: int| 0 <= k < l.len() implies #[trigger] l[k].0 != idx.id.0 by {
                        assert(l[k] == numbering_view(list@)[k]);
                    }
                    if assoc_pos(l, idx.id.0) >= 0 {
                        assert(l[assoc_pos(l, idx.id.0)].0 != idx.id.0);
                    }
                }
                list.push((idx.id.0, b));
                assert(numbering_view(list@) =~= l.push((idx.id.0, b as int)));
            },
        }
        assert(idx.range.0 < ranges@.len());
        sizes.push(ranges[idx.range.0 as usize].size);
        assert(sizes@ =~= range_sizes(ranges@, idxs@.take(i + 1)));
        i = i + 1;
    }
    assert(idxs@.take(idxs.len() as int) =~= idxs@);
    (list, sizes)
}

/// The bit of `id` in an exec numbering, or -1.
fn lookup_bit(list: &Vec<(u32, usize)>, id: u32) -> (r: Option<usize>)
    requires
        keys_unique(numbering_view(list@)),
    ensures
        r matches Some(b) ==> {
            let l = numbering_view(list@);
            &&& assoc_pos(l, id) >= 0
            &&& l[assoc_pos(l, id)].1 == b
        },
        r is None ==> assoc_pos(numbering_view(list@), id) < 0,
{
    let ghost l = numbering_view(list@);
    proof {
        lemma_assoc_pos(l, id);
    }
    match find_entry(list, id) {
        Some(p) => {
            proof {
                assert(l[p as int].0 == id);
                lemma_pos_of_unique(l, id, p as int);
            }
            Some(list[p].1)
        },
        None => {
            proof {
                if assoc_pos(l, id) >= 0 {
                    assert(list@[assoc_pos(l, id)].0 != id);
                }
            }
            None
        },
    }
}

/// Mask of the bits of a factor's indices in a numbering.
fn factor_bits(list: &Vec<(u32, usize)>, idxs: Ghost<Seq<Index>>, fidx: &Vec<IndexId>) -> (r: u64)
    requires
        numbering_view(list@) == bit_numbering(idxs@),
        idxs@.len() <= 64,
    ensures
        r == factor_mask(idxs@, fidx@),
{
    proof {
        lemma_bit_numbering_unique(idxs@);
    }
    let mut m: u64 = 0;
    let mut j: usize = 0;
    while j < fidx.len()
        invariant
            j <= fidx.len(),
            numbering_view(list@) == bit_numbering(idxs@),
            keys_unique(numbering_view(list@)),
            idxs@.len() <= 64,
            m == factor_mask_upto(idxs@, fidx@, j as int),
        decreases fidx.len() - j,
    {
        let id = fidx[j].0;
        proof {
            lemma_bit_of_bounds(idxs@, id);
        }
        match lookup_bit(list, id) {
            Some(b) => {
                assert(bit_of(idxs@, fidx@[j as int].0) == b);
                m = m | (1u64 << (b as u64));
            },
            None => {
                assert(bit_of(idxs@, fidx@[j as int].0) == -1);
            },
        }
        j = j + 1;
    }
    m
}

// ---------------------------------------------------------------------------
// Index information of a term
// ---------------------------------------------------------------------------

/// Precomputed index information for a term.
#[derive(Debug)]
pub struct IndexInfo {
    pub n_factors: usize,
    pub factor_sum_indices: Vec<u64>,
    pub factor_ext_indices: Vec<u64>,
    pub sum_sizes: Vec<u64>,
    pub ext_sizes: Vec<u64>,
}

pub struct IndexInfoModel {
    pub n_factors: int,
    pub factor_sum_indices: Seq<u64>,
    pub factor_ext_indices: Seq<u64>,
    pub sum_sizes: Seq<u64>,
    pub ext_sizes: Seq<u64>,
}

impl View for IndexInfo {
    type V = IndexInfoModel;

    open spec fn view(&self) -> IndexInfoModel {
        IndexInfoModel {
            n_factors: self.n_factors as int,
            factor_sum_indices: self.factor_sum_indices@,
            factor_ext_indices: self.factor_ext_indices@,
            sum_sizes: self.sum_sizes@,
            ext_sizes: self.ext_sizes@,
        }
    }
}

impl Clone for IndexInfo {
    fn clone(&self) -> (r: Self)
        ensures
            r@ == self@,
    {
        IndexInfo {
            n_factors: self.n_factors,
            factor_sum_indices: crate::repr::copy_vec(&self.factor_sum_indices),
            factor_ext_indices: crate::repr::copy_vec(&self.factor_ext_indices),
            sum_sizes: crate::repr::copy_vec(&self.sum_sizes),
            ext_sizes: crate::repr::copy_vec(&self.ext_sizes),
        }
    }
}

/// What `IndexInfo::new` computes for a term.
pub open spec fn index_info_spec(term: TermModel, ext: Seq<Index>, ranges: Seq<Range>) -> IndexInfoModel {
    IndexInfoModel {
        n_factors: term.factors.len() as int,
        factor_sum_indices: term.factors.map_values(
            |f: FactorModel| factor_mask(term.sum_indices, f.indices),
        ),
        factor_ext_indices: term.factors.map_values(|f: FactorModel| factor_mask(ext, f.indices)),
        sum_sizes: range_sizes(ranges, term.sum_indices),
        ext_sizes: range_sizes(ranges, ext),
    }
}

/// The shape invariants the dynamic programme relies on.
pub open spec fn info_wf(info: IndexInfoModel) -> bool {
    &&& 0 <= info.n_factors < 64
    &&& info.factor_sum_indices.len() == info.n_factors
    &&& info.factor_ext_indices.len() == info.n_factors
    &&& info.sum_sizes.len() <= 64
    &&& info.ext_sizes.len() <= 64
    &&& forall|i: int|
        0 <= i < info.n_factors ==> bits_below(
            #[trigger] info.factor_sum_indices[i],
            info.sum_sizes.len() as int,
        )
    &&& forall|i: int|
        0 <= i < info.n_factors ==> bits_below(
            #[trigger] info.factor_ext_indices[i],
            info.ext_sizes.len() as int,
        )
}

/// The input bounds under which `IndexInfo::new` is defined.
pub open spec fn index_info_inputs_ok(term: TermModel, ext: Seq<Index>, ranges: Seq<Range>) -> bool {
    &&& term.factors.len() < 64
    &&& term.sum_indices.len() <= 64
    &&& ext.len() <= 64
    &&& indices_in_bounds(ranges, term.sum_indices)
    &&& indices_in_bounds(ranges, ext)
}

pub proof fn lemma_index_info_wf(term: TermModel, ext: Seq<Index>, ranges: Seq<Range>)
    requires
        index_info_inputs_ok(term, ext, ranges),
    ensures
        info_wf(index_info_spec(term, ext, ranges)),
{
    let info = index_info_spec(term, ext, ranges);
    assert forall|i: int| 0 <= i < info.n_factors implies bits_below(
        #[trigger] info.factor_sum_indices[i],
        info.sum_sizes.len() as int,
    ) by {
        lemma_factor_mask_below(term.sum_indices, term.factors[i].indices);
    }
    assert forall|i: int| 0 <= i < info.n_factors implies bits_below(
        #[trigger] info.factor_ext_indices[i],
        info.ext_sizes.len() as int,
    ) by {
        lemma_factor_mask_below(ext, term.factors[i].indices);
    }
}

/// Union of the summation-index masks of the factors in `subset`.
pub open spec fn sum_bits_spec(info: IndexInfoModel, subset: u64) -> u64 {
    union_over(info.factor_sum_indices, subset, info.n_factors)
}

/// Union of the external-index masks of the factors in `subset`.
pub open spec fn ext_bits_spec(info: IndexInfoModel, subset: u64) -> u64 {
    union_over(info.factor_ext_indices, subset, info.n_factors)
}

impl IndexInfo {
    pub fn new(term: &Term, ext_indices: &[Index], ranges: &[Range]) -> (r: Self)
        requires
            index_info_inputs_ok(term@, ext_indices@, ranges@),
        ensures
            r@ == index_info_spec(term@, ext_indices@, ranges@),
            info_wf(r@),
    {
        let (sum_map, sum_sizes) = build_numbering(&term.sum_indices, ranges);
        let mut ext_vec: Vec<Index> = Vec::new();
        let mut k: usize = 0;
        while k < ext_indices.len()
            invariant
                k <= ext_indices@.len(),
                ext_vec@ == ext_indices@.take(k as int),
            decreases ext_indices@.len() - k,
        {
            ext_vec.push(ext_indices[k]);
            k = k + 1;
            assert(ext_vec@ =~= ext_indices@.take(k as int));
        }
        assert(ext_indices@.take(ext_indices@.len() as int) =~= ext_indices@);
        let (ext_map, ext_sizes) = build_numbering(&ext_vec, ranges);

        let n_factors = term.factors.len();
        let mut factor_sum_indices: Vec<u64> = Vec::new();
        let mut factor_ext_indices: Vec<u64> = Vec::new();
        let ghost tm = term@;
        let mut fi: usize = 0;
        while fi < n_factors
            invariant
                fi <= n_factors,
                n_factors == term.factors@.len(),
                tm == term@,
                index_info_inputs_ok(term@, ext_indices@, ranges@),
                numbering_view(sum_map@) == bit_numbering(term@.sum_indices),
                numbering_view(ext_map@) == bit_numbering(ext_indices@),
                factor_sum_indices@.len() == fi,
                factor_ext_indices@.len() == fi,
                forall|j: int|
                    0 <= j < fi ==> #[trigger] factor_sum_indices@[j] == factor_mask(
                        tm.sum_indices,
                        tm.factors[j].indices,
                    ),
                forall|j: int|
                    0 <= j < fi ==> #[trigger] factor_ext_indices@[j] == factor_mask(
                        ext_indices@,
                        tm.factors[j].indices,
                    ),
            decreases n_factors - fi,
        {
            let factor = &term.factors[fi];
            assert(tm.factors[fi as int] == factor@);
            let ms = factor_bits(&sum_map, Ghost(term@.sum_indices), &factor.indices);
            let me = factor_bits(&ext_map, Ghost(ext_indices@), &factor.indices);
            factor_sum_indices.push(ms);
            factor_ext_indices.push(me);
            fi = fi + 1;
        }
        let r = IndexInfo { n_factors, factor_sum_indices, factor_ext_indices, sum_sizes, ext_sizes };
        proof {
            let s = index_info_spec(term@, ext_indices@, ranges@);
            assert(r@.factor_sum_indices =~= s.factor_sum_indices);
            assert(r@.factor_ext_indices =~= s.factor_ext_indices);
            lemma_index_info_wf(term@, ext_indices@, ranges@);
        }
        r
    }

    pub fn sum_bits(&self, subset: FactorSubset) -> (r: u64)
        requires
            info_wf(self@),
            bits_below(subset, self.n_factors as int),
        ensures
            r == sum_bits_spec(self@, subset),
    {
        union_of_members(&self.factor_sum_indices, subset)
    }

    pub fn ext_bits(&self, subset: FactorSubset) -> (r: u64)
        requires
            info_wf(self@),
            bits_below(subset, self.n_factors as int),
        ensures
            r == ext_bits_spec(self@, subset),
    {
        union_of_members(&self.factor_ext_indices, subset)
    }

    pub fn size_product_sum(&self, mask: u64) -> (r: u64)
        requires
            info_wf(self@),
            bits_below(mask, self.sum_sizes.len() as int),
            product_fits(self.sum_sizes@, mask),
        ensures
            r == product_over(self.sum_sizes@, mask, self.sum_sizes.len() as int),
    {
        product_of_members(&self.sum_sizes, mask)
    }

    pub fn size_product_ext(&self, mask: u64) -> (r: u64)
        requires
            info_wf(self@),
            bits_below(mask, self.ext_sizes.len() as int),
            product_fits(self.ext_sizes@, mask),
        ensures
            r == product_over(self.ext_sizes@, mask, self.ext_sizes.len() as int),
    {
        product_of_members(&self.ext_sizes, mask)
    }
}

/// The sum bits of a subset are below the number of summation indices.
pub proof fn lemma_sum_bits_below(info: IndexInfoModel, subset: u64)
    requires
        info_wf(info),
    ensures
        bits_below(sum_bits_spec(info, subset), info.sum_sizes.len() as int),
        bits_below(ext_bits_spec(info, subset), info.ext_sizes.len() as int),
{
    assert forall|c: u64| c < 64 && #[trigger] bit(sum_bits_spec(info, subset), c) implies c
        < info.sum_sizes.len() by {
        lemma_union_over_bit(info.factor_sum_indices, subset, info.n_factors, c);
        let i = choose|i: int|
            0 <= i < info.n_factors && bit(subset, i as u64) && #[trigger] bit(
                info.factor_sum_indices[i],
                c,
            );
        assert(bits_below(info.factor_sum_indices[i], info.sum_sizes.len() as int));
    }
    assert forall|c: u64| c < 64 && #[trigger] bit(ext_bits_spec(info, subset), c) implies c
        < info.ext_sizes.len() by {
        lemma_union_over_bit(info.factor_ext_indices, subset, info.n_factors, c);
        let i = choose|i: int|
            0 <= i < info.n_factors && bit(subset, i as u64) && #[trigger] bit(
                info.factor_ext_indices[i],
                c,
            );
        assert(bits_below(info.factor_ext_indices[i], info.ext_sizes.len() as int));
    }
}


// ---------------------------------------------------------------------------
// The dynamic programme
// ---------------------------------------------------------------------------

/// One way to split a factor subset into two operands.
#[derive(Clone, Copy, Debug, PartialEq, Eq, Structural)]
pub struct Eval {
    pub left: FactorSubset,
    pub right: FactorSubset,
    pub contracted_sums: u64,
    pub cost: u64,
}

pub struct EvalModel {
    pub left: u64,
    pub right: u64,
    pub contracted_sums: u64,
    pub cost: int,
}

impl View for Eval {
    type V = EvalModel;

    open spec fn view(&self) -> EvalModel {
        EvalModel {
            left: self.left,
            right: self.right,
            contracted_sums: self.contracted_sums,
            cost: self.cost as int,
        }
    }
}

/// All parenthesizations for a factor subset with a given set of extized sums.
#[derive(Debug)]
pub struct Interm {
    /// Internal contractable sums (all_sums & !extized).
    pub sum_indices: u64,
    /// Definition ext indices involved in this subset.
    pub ext_indices: u64,
    /// Sums forced external by parent (free sum indices of this intermediate).
    pub extized_sums: u64,
    pub evals: Vec<Eval>,
    pub best_cost: u64,
}

pub struct IntermModel {
    pub sum_indices: u64,
    pub ext_indices: u64,
    pub extized_sums: u64,
    pub evals: Seq<EvalModel>,
    pub best_cost: int,
}

pub open spec fn eval_models(evals: Seq<Eval>) -> Seq<EvalModel> {
    evals.map_values(|e: Eval| e@)
}

impl View for Interm {
    type V = IntermModel;

    open spec fn view(&self) -> IntermModel {
        IntermModel {
            sum_indices: self.sum_indices,
            ext_indices: self.ext_indices,
            extized_sums: self.extized_sums,
            evals: eval_models(self.evals@),
            best_cost: self.best_cost as int,
        }
    }
}

/// The first proper submask of `s` in the descending enumeration.
pub open spec fn first_sub(s: u64) -> u64 {
    ((s - 1) as u64 & s) as u64
}

/// The submask after `sub` in the descending enumeration of the submasks of `s`.
pub open spec fn next_sub(sub: u64, s: u64) -> u64 {
    ((sub - 1) as u64 & s) as u64
}

/// Output size of the intermediate for `subset`: its definition external
/// indices and its extized sums (at least 1).
pub open spec fn ext_size_spec(info: IndexInfoModel, s: u64, e: u64) -> int {
    max1(
        product_over(info.ext_sizes, ext_bits_spec(info, s), info.ext_sizes.len() as int)
            * product_over(
            info.sum_sizes,
            sum_bits_spec(info, s) & e,
            info.sum_sizes.len() as int,
        ),
    )
}

/// Sums contracted when `s` is split into `l` and `s ^ l`: those on both
/// sides that are not extized.
pub open spec fn contracted_spec(info: IndexInfoModel, s: u64, e: u64, l: u64) -> u64 {
    (sum_bits_spec(info, l) & sum_bits_spec(info, (s ^ l) as u64)) & (sum_bits_spec(info, s)
        & !e)
}

/// Cost of the last contraction step of the split of `s` at `l`.
pub open spec fn step_cost_spec(info: IndexInfoModel, s: u64, e: u64, l: u64) -> int {
    contraction_cost(
        ext_size_spec(info, s, e),
        max1(
            product_over(
                info.sum_sizes,
                contracted_spec(info, s, e, l),
                info.sum_sizes.len() as int,
            ),
        ),
    )
}

/// The smallest cost of `list`, or `u64::MAX` for none.
pub open spec fn evals_min(list: Seq<EvalModel>) -> int
    decreases list.len(),
{
    if list.len() == 0 {
        u64::MAX as int
    } else {
        let m = evals_min(list.drop_last());
        if list.last().cost < m {
            list.last().cost
        } else {
            m
        }
    }
}

/// The evaluations of the splits of `s` at `sub` and the submasks after it,
/// each split counted once (left part numerically below right part).
pub open spec fn split_evals(info: IndexInfoModel, s: u64, e: u64, sub: u64) -> Seq<EvalModel>
    decreases s, 0int, sub,
{
    if sub == 0 || !is_submask(sub, s) || sub == s {
        seq![]
    } else {
        proof {
            lemma_next_submask(sub, s);
            lemma_split_smaller(sub, s);
        }
        let r = (s ^ sub) as u64;
        let rest = split_evals(info, s, e, next_sub(sub, s));
        if sub < r {
            let c = contracted_spec(info, s, e, sub);
            let ce = (e | c) as u64;
            seq![
                EvalModel {
                    left: sub,
                    right: r,
                    contracted_sums: c,
                    cost: step_cost_spec(info, s, e, sub) + best_cost_spec(info, sub, ce)
                        + best_cost_spec(info, r, ce),
                },
            ] + rest
        } else {
            rest
        }
    }
}

/// Optimal cost of evaluating subset `s` with extized sums `e`.
pub open spec fn best_cost_spec(info: IndexInfoModel, s: u64, e: u64) -> int
    decreases s, 1int, 0u64,
{
    if at_most_one_bit(s) {
        0
    } else {
        evals_min(split_evals(info, s, e, first_sub(s)))
    }
}

/// The memo entry the programme records for `(s, e)`.
pub open spec fn interm_spec(info: IndexInfoModel, s: u64, e: u64) -> IntermModel {
    IntermModel {
        sum_indices: sum_bits_spec(info, s) & !e,
        ext_indices: ext_bits_spec(info, s),
        extized_sums: sum_bits_spec(info, s) & e,
        evals: if at_most_one_bit(s) {
            seq![]
        } else {
            split_evals(info, s, e, first_sub(s))
        },
        best_cost: best_cost_spec(info, s, e),
    }
}

/// Every intermediate product and cost of the programme for `(s, e)` fits in `u64`.
pub open spec fn node_fits(info: IndexInfoModel, s: u64, e: u64) -> bool
    decreases s, 1int, 0u64,
{
    if at_most_one_bit(s) {
        true
    } else {
        &&& product_fits(info.ext_sizes, ext_bits_spec(info, s))
        &&& product_fits(info.sum_sizes, sum_bits_spec(info, s) & e)
        &&& product_over(info.ext_sizes, ext_bits_spec(info, s), info.ext_sizes.len() as int)
            * product_over(
            info.sum_sizes,
            sum_bits_spec(info, s) & e,
            info.sum_sizes.len() as int,
        ) <= u64::MAX
        &&& splits_fit(info, s, e, first_sub(s))
    }
}

pub open spec fn splits_fit(info: IndexInfoModel, s: u64, e: u64, sub: u64) -> bool
    decreases s, 0int, sub,
{
    if sub == 0 || !is_submask(sub, s) || sub == s {
        true
    } else {
        proof {
            lemma_next_submask(sub, s);
            lemma_split_smaller(sub, s);
        }
        let r = (s ^ sub) as u64;
        &&& splits_fit(info, s, e, next_sub(sub, s))
        &&& sub < r ==> {
            let c = contracted_spec(info, s, e, sub);
            let ce = (e | c) as u64;
            &&& node_fits(info, sub, ce)
            &&& node_fits(info, r, ce)
            &&& product_fits(info.sum_sizes, c)
            &&& step_cost_spec(info, s, e, sub) + best_cost_spec(info, sub, ce) + best_cost_spec(
                info,
                r,
                ce,
            ) <= u64::MAX
        }
    }
}

proof fn lemma_lowest_bit_facts(s: u64, sub: u64)
    requires
        s & ((s - 1) as u64) != 0,
        s != 0,
    ensures
        (s & ((!s + 1) as u64)) < (s ^ (s & ((!s + 1) as u64))),
        (sub & s == sub && sub != 0 && ((sub - 1) as u64 & s) == 0) ==> sub == (s & ((!s + 1) as u64)),
{
    assert((s & ((!s + 1) as u64)) < (s ^ (s & ((!s + 1) as u64)))) by (bit_vector)
        requires
            s & ((s - 1) as u64) != 0,
            s != 0,
    ;
    assert((sub & s == sub && sub != 0 && ((sub - 1) as u64 & s) == 0) ==> sub == (s & ((!s + 1) as u64))) by (bit_vector);
}

/// Walking down the submasks of `s` from `sub` meets a split whose part is
/// below its complement (at the latest the lowest bit of `s`).
proof fn lemma_split_evals_nonempty(info: IndexInfoModel, s: u64, e: u64, sub: u64)
    requires
        !at_most_one_bit(s),
        is_submask(sub, s),
        sub != 0,
        sub != s,
    ensures
        split_evals(info, s, e, sub).len() > 0,
    decreases sub,
{
    lemma_next_submask(sub, s);
    lemma_split_smaller(sub, s);
    lemma_lowest_bit_facts(s, sub);
    let r = (s ^ sub) as u64;
    if sub < r {
    } else {
        let nx = next_sub(sub, s);
        if nx == 0 {
            assert(sub & s == sub);
            assert(false);
        }
        assert(nx < sub);
        lemma_split_evals_nonempty(info, s, e, nx);
    }
}

/// A subset of two or more factors has at least one evaluation.
pub proof fn lemma_evals_nonempty(info: IndexInfoModel, s: u64, e: u64)
    requires
        !at_most_one_bit(s),
    ensures
        interm_spec(info, s, e).evals.len() > 0,
{
    let f = first_sub(s);
    assert(s != 0);
    assert(f != 0 && f & s == f && f != s) by (bit_vector)
        requires
            s & ((s - 1) as u64) != 0,
            s != 0,
            f == ((s - 1) as u64 & s) as u64,
    ;
    lemma_split_evals_nonempty(info, s, e, f);
}

/// Shape of every evaluation of `split_evals`: a split of `s` into a non-empty
/// part and its complement, left below right, contracting `contracted_spec`.
pub proof fn lemma_split_evals_props(info: IndexInfoModel, s: u64, e: u64, sub: u64)
    ensures
        forall|j: int|
            0 <= j < split_evals(info, s, e, sub).len() ==> {
                let ev = #[trigger] split_evals(info, s, e, sub)[j];
                &&& is_submask(ev.left, s)
                &&& ev.left != 0
                &&& ev.left != s
                &&& ev.left < s
                &&& ev.right == (s ^ ev.left) as u64
                &&& ev.right < s
                &&& ev.right != 0
                &&& is_submask(ev.right, s)
                &&& ev.left < ev.right
                &&& ev.contracted_sums == contracted_spec(info, s, e, ev.left)
            },
    decreases sub,
{
    if sub == 0 || !is_submask(sub, s) || sub == s {
    } else {
        lemma_next_submask(sub, s);
        lemma_split_smaller(sub, s);
        lemma_split_evals_props(info, s, e, next_sub(sub, s));
        let rest = split_evals(info, s, e, next_sub(sub, s));
        let r = (s ^ sub) as u64;
        if sub < r {
            let l = split_evals(info, s, e, sub);
            assert forall|j: int| 0 <= j < l.len() implies {
                let ev = #[trigger] l[j];
                &&& is_submask(ev.left, s)
                &&& ev.left != 0
                &&& ev.left != s
                &&& ev.left < s
                &&& ev.right == (s ^ ev.left) as u64
                &&& ev.right < s
                &&& ev.right != 0
                &&& is_submask(ev.right, s)
                &&& ev.left < ev.right
                &&& ev.contracted_sums == contracted_spec(info, s, e, ev.left)
            } by {
                if j > 0 {
                    assert(l[j] == rest[j - 1]);
                }
            }
        }
    }
}

/// Memo entry keyed by (factor subset, extized sums).
#[derive(Debug)]
pub struct MemoEntry {
    pub subset: FactorSubset,
    pub extized: u64,
    pub interm: Interm,
}

/// Every memo entry is what the programme defines for its key.
pub open spec fn memo_ok(info: IndexInfoModel, memo: Seq<MemoEntry>) -> bool {
    forall|k: int|
        0 <= k < memo.len() ==> (#[trigger] memo[k]).interm@ == interm_spec(
            info,
            memo[k].subset,
            memo[k].extized,
        ) && node_fits(info, memo[k].subset, memo[k].extized)
}

pub open spec fn memo_has(memo: Seq<MemoEntry>, s: u64, e: u64) -> bool {
    exists|k: int| 0 <= k < memo.len() && #[trigger] memo[k].subset == s && memo[k].extized == e
}

/// The operands of every recorded evaluation are recorded too.
pub open spec fn memo_closed(memo: Seq<MemoEntry>) -> bool {
    forall|k: int, j: int|
        0 <= k < memo.len() && 0 <= j < memo[k].interm@.evals.len() ==> {
            let ev = #[trigger] memo[k].interm@.evals[j];
            let ce = (memo[k].extized | ev.contracted_sums) as u64;
            &&& memo_has(memo, ev.left, ce)
            &&& memo_has(memo, ev.right, ce)
        }
}

pub open spec fn memo_grows(old: Seq<MemoEntry>, new: Seq<MemoEntry>) -> bool {
    &&& old.len() <= new.len()
    &&& forall|k: int| 0 <= k < old.len() ==> #[trigger] new[k] == old[k]
}

proof fn lemma_memo_has_grows(old: Seq<MemoEntry>, new: Seq<MemoEntry>, s: u64, e: u64)
    requires
        memo_grows(old, new),
        memo_has(old, s, e),
    ensures
        memo_has(new, s, e),
{
    let k = choose|k: int| 0 <= k < old.len() && #[trigger] old[k].subset == s && old[k].extized == e;
    assert(new[k] == old[k]);
}

fn find_memo(memo: &Vec<MemoEntry>, s: u64, e: u64) -> (r: Option<usize>)
    ensures
        r matches Some(k) ==> k < memo@.len() && memo@[k as int].subset == s && memo@[k as int].extized
            == e,
        r is None ==> !memo_has(memo@, s, e),
{
    let mut i: usize = 0;
    while i < memo.len()
        invariant
            i <= memo@.len(),
            forall|k: int| 0 <= k < i ==> !(#[trigger] memo@[k].subset == s && memo@[k].extized == e),
        decreases memo.len() - i,
    {
        if memo[i].subset == s && memo[i].extized == e {
            return Some(i);
        }
        i = i + 1;
    }
    None
}

proof fn lemma_submask_below(a: u64, b: u64, n: int)
    requires
        is_submask(a, b),
        bits_below(b, n),
    ensures
        bits_below(a, n),
{
    assert forall|i: u64| i < 64 && #[trigger] bit(a, i) implies i < n by {
        lemma_submask_bit(a, b, i);
    }
}

proof fn lemma_and_below(a: u64, b: u64, n: int)
    requires
        bits_below(a, n),
    ensures
        bits_below(a & b, n),
        bits_below(b & a, n),
{
    assert forall|i: u64| i < 64 && #[trigger] bit(a & b, i) implies i < n by {
        lemma_bit_and(a, b, i);
    }
    assert forall|i: u64| i < 64 && #[trigger] bit(b & a, i) implies i < n by {
        lemma_bit_and(b, a, i);
    }
}

/// Top-down recursive solver. Returns the best cost for the given subset
/// with the given set of extized (forced-external) sums, or `None` when an
/// intermediate value does not fit in `u64`.
fn solve(info: &IndexInfo, subset: FactorSubset, extized: u64, memoir: &mut Vec<MemoEntry>) -> (r:
    Option<u64>)
    requires
        info_wf(info@),
        bits_below(subset, info.n_factors as int),
        memo_ok(info@, old(memoir)@),
        memo_closed(old(memoir)@),
    ensures
        memo_ok(info@, final(memoir)@),
        memo_closed(final(memoir)@),
        memo_grows(old(memoir)@, final(memoir)@),
        r matches Some(v) ==> v == best_cost_spec(info@, subset, extized) && memo_has(
            final(memoir)@,
            subset,
            extized,
        ),
        r is Some <==> node_fits(info@, subset, extized),
    decreases subset,
{
    if let Some(k) = find_memo(memoir, subset, extized) {
        assert(memoir@[k as int].interm@ == interm_spec(info@, subset, extized));
        return Some(memoir[k].interm.best_cost);
    }
    let ghost i = info@;
    let all_sums = info.sum_bits(subset);
    let internal_sums = all_sums & !extized;
    let ext_bits = info.ext_bits(subset);
    proof {
        lemma_sum_bits_below(i, subset);
    }

    if has_at_most_one_bit(subset) {
        let ghost old_memo = memoir@;
        memoir.push(
            MemoEntry {
                subset,
                extized,
                interm: Interm {
                    sum_indices: internal_sums,
                    ext_indices: ext_bits,
                    extized_sums: all_sums & extized,
                    evals: Vec::new(),
                    best_cost: 0,
                },
            },
        );
        proof {
            let n = memoir@.len() - 1;
            assert(memoir@[n].interm@.evals =~= interm_spec(i, subset, extized).evals);
            assert(memoir@[n].subset == subset);
            assert forall|k: int| 0 <= k < memoir@.len() implies (#[trigger] memoir@[k]).interm@
                == interm_spec(i, memoir@[k].subset, memoir@[k].extized) by {
                if k < n {
                    assert(memoir@[k] == old_memo[k]);
                }
            }
            assert forall|k: int, j: int|
                0 <= k < memoir@.len() && 0 <= j < memoir@[k].interm@.evals.len() implies {
                let ev = #[trigger] memoir@[k].interm@.evals[j];
                let ce = (memoir@[k].extized | ev.contracted_sums) as u64;
                &&& memo_has(memoir@, ev.left, ce)
                &&& memo_has(memoir@, ev.right, ce)
            } by {
                assert(k < n);
                assert(memoir@[k] == old_memo[k]);
                let ev = old_memo[k].interm@.evals[j];
                let ce = (old_memo[k].extized | ev.contracted_sums) as u64;
                lemma_memo_has_grows(old_memo, memoir@, ev.left, ce);
                lemma_memo_has_grows(old_memo, memoir@, ev.right, ce);
            }
        }
        return Some(0);
    }
    proof {
        lemma_and_below(all_sums, extized, i.sum_sizes.len() as int);
    }
    let pe = match crate::bits::checked_product_of_members(&info.ext_sizes, ext_bits) {
        Some(v) => v,
        None => {
            return None;
        },
    };
    let ps = match crate::bits::checked_product_of_members(&info.sum_sizes, all_sums & extized) {
        Some(v) => v,
        None => {
            return None;
        },
    };
    let prod = match pe.checked_mul(ps) {
        Some(v) => v,
        None => {
            return None;
        },
    };
    let ext_size: u64 = if prod < 1 {
        1
    } else {
        prod
    };
    assert(ext_size == ext_size_spec(i, subset, extized));

    let mut evals: Vec<Eval> = Vec::new();
    let mut best_cost: u64 = u64::MAX;
    let ghost first = first_sub(subset);
    proof {
        lemma_next_submask(subset, subset);
        assert(subset & subset == subset) by (bit_vector);
        lemma_submask_le(first, subset);
    }
    let mut sub = (subset - 1) & subset;
    let ghost memo0 = memoir@;
    while sub != 0
        invariant
            info_wf(i),
            i == info@,
            bits_below(subset, i.n_factors),
            !at_most_one_bit(subset),
            subset != 0,
            all_sums == sum_bits_spec(i, subset),
            internal_sums == all_sums & !extized,
            ext_size == ext_size_spec(i, subset, extized),
            sub == 0 || (is_submask(sub, subset) && sub != subset),
            eval_models(evals@) + split_evals(i, subset, extized, sub) == split_evals(
                i,
                subset,
                extized,
                first,
            ),
            best_cost == evals_min(eval_models(evals@)),
            node_fits(i, subset, extized) ==> splits_fit(i, subset, extized, sub),
            splits_fit(i, subset, extized, sub) ==> splits_fit(i, subset, extized, first),
            product_fits(i.ext_sizes, ext_bits_spec(i, subset)),
            product_fits(i.sum_sizes, sum_bits_spec(i, subset) & extized),
            product_over(i.ext_sizes, ext_bits_spec(i, subset), i.ext_sizes.len() as int)
                * product_over(
                i.sum_sizes,
                sum_bits_spec(i, subset) & extized,
                i.sum_sizes.len() as int,
            ) <= u64::MAX,
            memo_ok(i, memoir@),
            memo_closed(memoir@),
            memo_grows(old(memoir)@, memoir@),
            !memo_has(memoir@, subset, extized) || true,
            forall|j: int|
                0 <= j < evals@.len() ==> {
                    let ev = #[trigger] evals@[j];
                    let ce = (extized | ev.contracted_sums) as u64;
                    &&& memo_has(memoir@, ev.left, ce)
                    &&& memo_has(memoir@, ev.right, ce)
                },
            first == first_sub(subset),
        decreases sub,
    {
        proof {
            lemma_next_submask(sub, subset);
            lemma_split_smaller(sub, subset);
        }
        let left = sub;
        let right = subset ^ sub;
        let ghost rest = split_evals(i, subset, extized, next_sub(sub, subset));
        if left < right {
            proof {
                lemma_submask_below(left, subset, i.n_factors);
                lemma_submask_below(right, subset, i.n_factors);
            }
            let sums_on_left = info.sum_bits(left);
            let sums_on_right = info.sum_bits(right);
            let contracted = sums_on_left & sums_on_right & internal_sums;
            assert(contracted == contracted_spec(i, subset, extized, sub));
            let child_extized = extized | contracted;
            let ghost before_left = memoir@;
            let left_cost = match solve(info, left, child_extized, memoir) {
                Some(v) => v,
                None => {
                    return None;
                },
            };
            let ghost before_right = memoir@;
            let right_cost = match solve(info, right, child_extized, memoir) {
                Some(v) => v,
                None => {
                    return None;
                },
            };
            proof {
                lemma_sum_bits_below(i, left);
                lemma_and_below(sums_on_left, sums_on_right, i.sum_sizes.len() as int);
                lemma_and_below(sums_on_left & sums_on_right, internal_sums, i.sum_sizes.len() as int);
            }
            let sp = match crate::bits::checked_product_of_members(&info.sum_sizes, contracted) {
                Some(v) => v,
                None => {
                    return None;
                },
            };
            let sum_size: u64 = if sp < 1 {
                1
            } else {
                sp
            };
            let lsc = if sum_size == 1 {
                ext_size
            } else {
                match 2u64.checked_mul(ext_size) {
                    Some(t) => match t.checked_mul(sum_size) {
                        Some(v) => v,
                        None => {
                            return None;
                        },
                    },
                    None => {
                        proof {
                            assert(2 * ext_size <= 2 * ext_size * sum_size) by (nonlinear_arith)
                                requires
                                    sum_size >= 1,
                            ;
                        }
                        return None;
                    },
                }
            };
            assert(lsc == step_cost_spec(i, subset, extized, sub));
            let total = match lsc.checked_add(left_cost) {
                Some(t) => match t.checked_add(right_cost) {
                    Some(v) => v,
                    None => {
                        return None;
                    },
                },
                None => {
                    return None;
                },
            };
            let ghost evs_before = evals@;
            evals.push(Eval { left, right, contracted_sums: contracted, cost: total });
            if total < best_cost {
                best_cost = total;
            }
            proof {
                assert(eval_models(evals@) =~= eval_models(evs_before).push(evals@.last()@));
                assert(eval_models(evals@).drop_last() =~= eval_models(evs_before));
                assert(split_evals(i, subset, extized, sub) == seq![evals@.last()@] + rest);
                assert(eval_models(evals@) + rest =~= eval_models(evs_before) + (seq![
                    evals@.last()@,
                ] + rest));
                lemma_memo_has_grows(before_right, memoir@, left, child_extized);
                assert forall|j: int| 0 <= j < evals@.len() implies {
                    let ev = #[trigger] evals@[j];
                    let ce = (extized | ev.contracted_sums) as u64;
                    &&& memo_has(memoir@, ev.left, ce)
                    &&& memo_has(memoir@, ev.right, ce)
                } by {
                    if j < evals@.len() - 1 {
                        let ev = evs_before[j];
                        assert(evals@[j] == ev);
                        let ce = (extized | ev.contracted_sums) as u64;
                        lemma_memo_has_grows(before_left, memoir@, ev.left, ce);
                        lemma_memo_has_grows(before_left, memoir@, ev.right, ce);
                    }
                }
            }
        } else {
            proof {
                assert(split_evals(i, subset, extized, sub) == rest);
            }
        }
        sub = (sub - 1) & subset;
    }
    let ghost old_memo = memoir@;
    let ghost evs = evals@;
    memoir.push(
        MemoEntry {
            subset,
            extized,
            interm: Interm {
                sum_indices: internal_sums,
                ext_indices: ext_bits,
                extized_sums: all_sums & extized,
                evals,
                best_cost,
            },
        },
    );
    proof {
        let n = memoir@.len() - 1;
        assert(eval_models(evs) =~= eval_models(evs) + split_evals(i, subset, extized, 0));
        assert(memoir@[n].interm@ == interm_spec(i, subset, extized));
        assert(memoir@[n].subset == subset);
        assert forall|k: int| 0 <= k < memoir@.len() implies (#[trigger] memoir@[k]).interm@
            == interm_spec(i, memoir@[k].subset, memoir@[k].extized) by {
            if k < n {
                assert(memoir@[k] == old_memo[k]);
            }
        }
        assert forall|k: int, j: int|
            0 <= k < memoir@.len() && 0 <= j < memoir@[k].interm@.evals.len() implies {
            let ev = #[trigger] memoir@[k].interm@.evals[j];
            let ce = (memoir@[k].extized | ev.contracted_sums) as u64;
            &&& memo_has(memoir@, ev.left, ce)
            &&& memo_has(memoir@, ev.right, ce)
        } by {
            if k < n {
                assert(memoir@[k] == old_memo[k]);
                let ev = old_memo[k].interm@.evals[j];
                let ce = (old_memo[k].extized | ev.contracted_sums) as u64;
                lemma_memo_has_grows(old_memo, memoir@, ev.left, ce);
                lemma_memo_has_grows(old_memo, memoir@, ev.right, ce);
            } else {
                let ev = evs[j];
                assert(memoir@[k].interm@.evals[j] == ev@);
                let ce = (extized | ev.contracted_sums) as u64;
                lemma_memo_has_grows(old_memo, memoir@, ev.left, ce);
                lemma_memo_has_grows(old_memo, memoir@, ev.right, ce);
            }
        }
        assert forall|k: int| 0 <= k < old(memoir)@.len() implies #[trigger] memoir@[k] == old(
            memoir,
        )@[k] by {
            assert(memoir@[k] == old_memo[k]);
        }
    }
    Some(best_cost)
}


/// The mask of the low `n` bits.
pub open spec fn full_mask(n: int) -> u64 {
    ((1u64 << (n as u64)) - 1) as u64
}

proof fn lemma_full_mask_below(n: int)
    requires
        0 < n < 64,
    ensures
        bits_below(full_mask(n), n),
        full_mask(n) != 0,
{
    assert forall|c: u64| c < 64 && #[trigger] bit(full_mask(n), c) implies c < n by {
        lemma_low_mask(n as u64, c);
    }
    lemma_low_mask(n as u64, 0);
    lemma_bit_zero(0);
}

/// Full parenthesization result for one term.
#[derive(Debug)]
pub struct ParenthResult {
    /// One entry per (factor_subset, extized_sums) key.
    pub memoir: Vec<MemoEntry>,
    pub info: IndexInfo,
}

/// The result holds the programme's entries for its index information, closed
/// under operands, and (for a non-empty term) the entry for the whole term.
pub open spec fn result_ok(r: &ParenthResult) -> bool {
    &&& info_wf(r.info@)
    &&& memo_ok(r.info@, r.memoir@)
    &&& memo_closed(r.memoir@)
    &&& r.info@.n_factors > 0 ==> memo_has(r.memoir@, full_mask(r.info@.n_factors), 0)
}

/// The inputs on which `parenthesize` computes without overflow.
pub open spec fn parenthesize_ok(term: TermModel, ext: Seq<Index>, ranges: Seq<Range>) -> bool {
    &&& index_info_inputs_ok(term, ext, ranges)
    &&& term.factors.len() > 0 ==> node_fits(
        index_info_spec(term, ext, ranges),
        full_mask(term.factors.len() as int),
        0,
    )
}

impl ParenthResult {
    /// The entry recorded for `(subset, extized)`.
    pub fn get(&self, subset: FactorSubset, extized: u64) -> (r: Option<&Interm>)
        ensures
            r matches Some(x) ==> exists|k: int|
                0 <= k < self.memoir@.len() && #[trigger] self.memoir@[k].subset == subset
                    && self.memoir@[k].extized == extized && *x == self.memoir@[k].interm,
            r is None ==> !memo_has(self.memoir@, subset, extized),
    {
        match find_memo(&self.memoir, subset, extized) {
            Some(k) => Some(&self.memoir[k].interm),
            None => None,
        }
    }

    pub fn contains_key(&self, subset: FactorSubset, extized: u64) -> (r: bool)
        ensures
            r == memo_has(self.memoir@, subset, extized),
    {
        find_memo(&self.memoir, subset, extized).is_some()
    }
}

/// Parenthesize a term: find all valid contraction trees via top-down
/// recursive DP with memoization.
///
/// The DP is keyed on `(factor_subset, extized_sums)` where `extized_sums`
/// is the set of sum indices forced external by the parent split.
pub fn parenthesize(term: &Term, ext_indices: &[Index], ranges: &[Range]) -> (r: ParenthResult)
    requires
        parenthesize_ok(term@, ext_indices@, ranges@),
    ensures
        r.info@ == index_info_spec(term@, ext_indices@, ranges@),
        result_ok(&r),
        term@.factors.len() == 0 ==> r.memoir@.len() == 0,
{
    match try_parenthesize(term, ext_indices, ranges) {
        Some(r) => r,
        None => {
            assert(false);
            ParenthResult { memoir: Vec::new(), info: IndexInfo::new(term, ext_indices, ranges) }
        },
    }
}

/// `parenthesize`, or `None` exactly when some intermediate cost or size of
/// the programme does not fit in `u64` (where `parenthesize` is not defined).
pub fn try_parenthesize(term: &Term, ext_indices: &[Index], ranges: &[Range]) -> (r: Option<
    ParenthResult,
>)
    requires
        index_info_inputs_ok(term@, ext_indices@, ranges@),
    ensures
        r is Some <==> parenthesize_ok(term@, ext_indices@, ranges@),
        r matches Some(res) ==> {
            &&& res.info@ == index_info_spec(term@, ext_indices@, ranges@)
            &&& result_ok(&res)
            &&& term@.factors.len() == 0 ==> res.memoir@.len() == 0
        },
{
    let info = IndexInfo::new(term, ext_indices, ranges);
    let n = info.n_factors;
    let mut memoir: Vec<MemoEntry> = Vec::new();

    if n == 0 {
        return Some(ParenthResult { memoir, info });
    }
    proof {
        lemma_full_mask_below(n as int);
        lemma_low_mask(n as u64, 0);
    }
    let full_mask_v = (1u64 << n as u64) - 1;
    match solve(&info, full_mask_v, 0, &mut memoir) {
        Some(_) => Some(ParenthResult { memoir, info }),
        None => None,
    }
}

// ---------------------------------------------------------------------------
// Extraction of the optimal contraction tree
// ---------------------------------------------------------------------------

/// Index of the first evaluation of least cost.
fn first_min_eval(evals: &Vec<Eval>) -> (r: Option<usize>)
    ensures
        r matches Some(k) ==> k < evals@.len() && (forall|j: int|
            0 <= j < evals@.len() ==> evals@[k as int].cost <= #[trigger] evals@[j].cost) && (
        forall|j: int| 0 <= j < k ==> #[trigger] evals@[j].cost > evals@[k as int].cost),
        r is None <==> evals@.len() == 0,
{
    if evals.len() == 0 {
        return None;
    }
    let mut best: usize = 0;
    let mut i: usize = 1;
    while i < evals.len()
        invariant
            1 <= i <= evals@.len(),
            best < i,
            forall|j: int| 0 <= j < i ==> evals@[best as int].cost <= #[trigger] evals@[j].cost,
            forall|j: int| 0 <= j < best ==> #[trigger] evals@[j].cost > evals@[best as int].cost,
        decreases evals.len() - i,
    {
        if evals[i].cost < evals[best].cost {
            best = i;
        }
        i = i + 1;
    }
    Some(best)
}

/// Position of the single set bit of a one-bit mask.
fn single_bit_position(m: u64) -> (r: usize)
    requires
        m != 0,
    ensures
        r < 64,
        bit(m, r as u64),
        forall|j: u64| j < r ==> !#[trigger] bit(m, j),
{
    let mut i: u64 = 0;
    while i < 64
        invariant
            i <= 64,
            forall|j: u64| j < i ==> !#[trigger] bit(m, j),
        decreases 64 - i,
    {
        if (m >> i) & 1 == 1 {
            return i as usize;
        }
        i = i + 1;
    }
    proof {
        assert forall|j: u64| j < 64 implies ((m >> j) & 1) == 0 by {
            assert(!bit(m, j));
            assert(((m >> j) & 1) != 1 ==> ((m >> j) & 1) == 0) by (bit_vector);
        }
        crate::bits::lemma_zero_when_clear(m);
    }
    0
}

/// Recursively collect all (subset, extized) pairs in the optimal eval tree.
fn collect_optimal_subsets(
    result: &ParenthResult,
    subset: FactorSubset,
    extized: u64,
    out: &mut Vec<(FactorSubset, u64)>,
)
    requires
        memo_closed(result.memoir@),
        memo_ok(result.info@, result.memoir@),
        memo_has(result.memoir@, subset, extized),
        bits_below(subset, result.info@.n_factors),
    ensures
        forall|k: int|
            old(out)@.len() <= k < final(out)@.len() ==> bits_below(
                (#[trigger] final(out)@[k]).0,
                result.info@.n_factors,
            ),
        final(out)@.len() >= old(out)@.len(),
        final(out)@.take(old(out)@.len() as int) == old(out)@,
        forall|k: int|
            old(out)@.len() <= k < final(out)@.len() ==> memo_has(
                result.memoir@,
                (#[trigger] final(out)@[k]).0,
                final(out)@[k].1,
            ) && !at_most_one_bit(final(out)@[k].0),
        final(out)@ == old(out)@ + optimal_subsets(result.info@, subset, extized),
    decreases subset,
{
    if has_at_most_one_bit(subset) {
        assert(old(out)@ + seq![] =~= old(out)@);
        return;
    }
    out.push((subset, extized));
    assert(out@.take(old(out)@.len() as int) =~= old(out)@);
    assert(out@ =~= old(out)@ + seq![(subset, extized)]);
    let interm = match result.get(subset, extized) {
        Some(x) => x,
        None => {
            return;
        },
    };
    let ghost k = choose|k: int|
        0 <= k < result.memoir@.len() && #[trigger] result.memoir@[k].subset == subset
            && result.memoir@[k].extized == extized && *interm == result.memoir@[k].interm;
    assert(interm@ == interm_spec(result.info@, subset, extized));
    let ghost evals = interm_spec(result.info@, subset, extized).evals;
    assert(interm.evals@.len() == evals.len());
    let best = match first_min_eval(&interm.evals) {
        Some(b) => b,
        None => {
            return;
        },
    };
    proof {
        assert forall|j: int| 0 <= j < evals.len() implies #[trigger] evals[j] == interm.evals@[j]@ by {
        }
        assert(is_first_min(evals, best as int));
        lemma_first_min_unique(evals, best as int);
    }
    let best_eval = interm.evals[best];
    let child_extized = extized | best_eval.contracted_sums;
    proof {
        assert(result.memoir@[k as int].interm@.evals[best as int] == best_eval@);
        assert(memo_has(result.memoir@, best_eval.left, child_extized));
        assert(memo_has(result.memoir@, best_eval.right, child_extized));
    }
    proof {
        crate::bits::lemma_bits_below_64(subset);
        assert(result.memoir@[k as int].interm@ == interm_spec(result.info@, subset, extized));
        lemma_split_evals_props(result.info@, subset, extized, first_sub(subset));
        lemma_submask_below(best_eval.left, subset, result.info@.n_factors);
        lemma_submask_below(best_eval.right, subset, result.info@.n_factors);
    }
    assert(evals[best as int] == best_eval@);
    if best_eval.left < subset && best_eval.right < subset {
        let ghost o1 = out@;
        collect_optimal_subsets(result, best_eval.left, child_extized, out);
        let ghost o2 = out@;
        collect_optimal_subsets(result, best_eval.right, child_extized, out);
        proof {
            let o0 = old(out)@;
            assert(out@ =~= o0 + seq![(subset, extized)] + optimal_subsets(result.info@, best_eval.left, child_extized)
                + optimal_subsets(result.info@, best_eval.right, child_extized));
            assert(o2.take(o1.len() as int) == o1);
            assert(out@.take(o2.len() as int) == o2);
            assert(out@.take(o0.len() as int) =~= o0) by {
                assert forall|k: int| 0 <= k < o0.len() implies out@[k] == o0[k] by {
                    assert(out@[k] == o2[k]);
                    assert(o2[k] == o1[k]);
                    assert(o1[k] == o0[k]);
                }
            }
            assert forall|k: int| o0.len() <= k < out@.len() implies memo_has(
                result.memoir@,
                (#[trigger] out@[k]).0,
                out@[k].1,
            ) && !at_most_one_bit(out@[k].0) && bits_below(out@[k].0, result.info@.n_factors) by {
                if k >= o2.len() {
                } else if k >= o1.len() {
                    assert(out@[k] == o2[k]);
                } else {
                    assert(out@[k] == o2[k]);
                    assert(o2[k] == o1[k]);
                }
            }
        }
    }
}


/// `k` is the first evaluation of least cost in `evals`.
pub open spec fn is_first_min(evals: Seq<EvalModel>, k: int) -> bool {
    &&& 0 <= k < evals.len()
    &&& forall|j: int| 0 <= j < evals.len() ==> evals[k].cost <= #[trigger] evals[j].cost
    &&& forall|j: int| 0 <= j < k ==> #[trigger] evals[j].cost > evals[k].cost
}

/// The position of the first evaluation of least cost (when there is one).
pub open spec fn first_min_pos(evals: Seq<EvalModel>) -> int {
    choose|k: int| is_first_min(evals, k)
}

proof fn lemma_first_min_unique(evals: Seq<EvalModel>, k: int)
    requires
        is_first_min(evals, k),
    ensures
        first_min_pos(evals) == k,
{
    let c = first_min_pos(evals);
    assert(is_first_min(evals, c));
    if c < k {
        assert(evals[c].cost > evals[k].cost);
    } else if k < c {
        assert(evals[k].cost > evals[c].cost);
    }
}

/// The pairs `(subset, extized)` met on the way down the optimal
/// evaluation tree from `subset`, in preorder; leaves are left out.
pub open spec fn optimal_subsets(info: IndexInfoModel, subset: u64, extized: u64) -> Seq<(u64, u64)>
    decreases subset,
{
    if at_most_one_bit(subset) {
        seq![]
    } else {
        let evals = interm_spec(info, subset, extized).evals;
        if evals.len() == 0 {
            seq![(subset, extized)]
        } else {
            let e = evals[first_min_pos(evals)];
            let child = extized | e.contracted_sums;
            if e.left < subset && e.right < subset {
                seq![(subset, extized)] + optimal_subsets(info, e.left, child) + optimal_subsets(info, e.right, child)
            } else {
                seq![(subset, extized)]
            }
        }
    }
}

proof fn lemma_first_min_exists(evals: Seq<EvalModel>)
    requires
        evals.len() > 0,
    ensures
        exists|k: int| is_first_min(evals, k),
    decreases evals.len(),
{
    let last = evals.len() - 1;
    if evals.len() == 1 {
        assert(is_first_min(evals, 0));
    } else {
        let d = evals.drop_last();
        lemma_first_min_exists(d);
        let m = choose|k: int| is_first_min(d, k);
        assert(d[m] == evals[m]);
        if evals[last].cost < evals[m].cost {
            assert forall|j: int| 0 <= j < evals.len() implies evals[last].cost <= #[trigger] evals[j].cost by {
                if j < last {
                    assert(d[j] == evals[j]);
                }
            }
            assert forall|j: int| 0 <= j < last implies #[trigger] evals[j].cost > evals[last].cost by {
                assert(d[j] == evals[j]);
            }
            assert(is_first_min(evals, last));
        } else {
            assert forall|j: int| 0 <= j < evals.len() implies evals[m].cost <= #[trigger] evals[j].cost by {
                if j < last {
                    assert(d[j] == evals[j]);
                }
            }
            assert forall|j: int| 0 <= j < m implies #[trigger] evals[j].cost > evals[m].cost by {
                assert(d[j] == evals[j]);
            }
            assert(is_first_min(evals, m));
        }
    }
}

/// The evaluation chosen for `(s, e)`: the first of least cost.
pub open spec fn chosen_eval(info: IndexInfoModel, s: u64, e: u64) -> EvalModel {
    interm_spec(info, s, e).evals[first_min_pos(interm_spec(info, s, e).evals)]
}

/// The chosen evaluation of a subset of two or more factors splits it into
/// two smaller parts.
proof fn lemma_chosen_eval(info: IndexInfoModel, s: u64, e: u64)
    requires
        !at_most_one_bit(s),
    ensures
        is_first_min(interm_spec(info, s, e).evals, first_min_pos(interm_spec(info, s, e).evals)),
        chosen_eval(info, s, e).left < s,
        chosen_eval(info, s, e).right < s,
        chosen_eval(info, s, e).left != 0,
        chosen_eval(info, s, e).right != 0,
        is_submask(chosen_eval(info, s, e).left, s),
        chosen_eval(info, s, e).right == (s ^ chosen_eval(info, s, e).left) as u64,
{
    let evals = interm_spec(info, s, e).evals;
    lemma_evals_nonempty(info, s, e);
    lemma_first_min_exists(evals);
    let k = choose|k: int| is_first_min(evals, k);
    lemma_first_min_unique(evals, k);
    lemma_split_evals_props(info, s, e, first_sub(s));
    assert(evals == split_evals(info, s, e, first_sub(s)));
}

proof fn lemma_popcount_disjoint(a: u64, b: u64, k: int)
    requires
        a & b == 0,
        0 <= k <= 64,
    ensures
        crate::bits::popcount_upto(a | b, k) == crate::bits::popcount_upto(a, k) + crate::bits::popcount_upto(b, k),
    decreases k,
{
    if k > 0 {
        lemma_popcount_disjoint(a, b, k - 1);
        let i = (k - 1) as u64;
        crate::bits::lemma_bit_or(a, b, i);
        crate::bits::lemma_bit_and(a, b, i);
        crate::bits::lemma_bit_zero(i);
    }
}

proof fn lemma_popcount_single_upto(x: u64, p: u64, k: int)
    requires
        p < 64,
        forall|i: u64| i < 64 ==> (#[trigger] bit(x, i) <==> i == p),
        0 <= k <= 64,
    ensures
        crate::bits::popcount_upto(x, k) == if k > p { 1int } else { 0int },
    decreases k,
{
    if k > 0 {
        lemma_popcount_single_upto(x, p, k - 1);
        assert(bit(x, (k - 1) as u64) <==> (k - 1) as u64 == p);
    }
}

/// A non-zero mask with at most one bit has exactly one.
proof fn lemma_popcount_one(x: u64)
    requires
        x != 0,
        at_most_one_bit(x),
    ensures
        crate::bits::popcount(x) == 1,
{
    if forall|j: u64| j < 64 ==> !#[trigger] bit(x, j) {
        assert forall|j: u64| j < 64 implies #[trigger] ((x >> j) & 1) == 0 by {
            assert(!bit(x, j));
            assert((x >> j) & 1 != 1 ==> (x >> j) & 1 == 0) by (bit_vector);
        }
        crate::bits::lemma_zero_when_clear(x);
    }
    let p = choose|j: u64| j < 64 && #[trigger] bit(x, j);
    assert forall|i: u64| i < 64 implies (#[trigger] bit(x, i) <==> i == p) by {
        assert((x & ((x - 1) as u64) == 0 && x != 0 && i < 64 && p < 64 && (x >> i) & 1 == 1 && (x >> p) & 1 == 1) ==> i == p)
            by (bit_vector);
    }
    lemma_popcount_single_upto(x, p, 64);
}

/// The low `n` bits number `n`.
proof fn lemma_popcount_full(n: int, k: int)
    requires
        0 < n < 64,
        0 <= k <= 64,
    ensures
        crate::bits::popcount_upto(full_mask(n), k) == if k < n { k } else { n },
    decreases k,
{
    if k > 0 {
        lemma_popcount_full(n, k - 1);
        crate::bits::lemma_low_mask(n as u64, (k - 1) as u64);
    }
}

/// The optimal evaluation tree of a subset of two or more factors has one
/// entry per contraction step: one fewer than the subset has factors.
pub proof fn lemma_optimal_subsets_len(info: IndexInfoModel, s: u64, e: u64)
    requires
        !at_most_one_bit(s),
    ensures
        optimal_subsets(info, s, e).len() == crate::bits::popcount(s) - 1,
    decreases s,
{
    lemma_chosen_eval(info, s, e);
    lemma_evals_nonempty(info, s, e);
    let ev = chosen_eval(info, s, e);
    let c = e | ev.contracted_sums;
    let l = ev.left;
    let r = ev.right;
    if !at_most_one_bit(l) {
        lemma_optimal_subsets_len(info, l, c);
    } else {
        lemma_popcount_one(l);
    }
    if !at_most_one_bit(r) {
        lemma_optimal_subsets_len(info, r, c);
    } else {
        lemma_popcount_one(r);
    }
    lemma_split_smaller(l, s);
    assert(r & l == 0 && r | l == s);
    assert(l & r == 0 && l | r == s) by (bit_vector)
        requires
            r & l == 0,
            r | l == s,
    ;
    lemma_popcount_disjoint(l, r, 64);
}

/// The optimal evaluation tree listed in preorder: it starts at `(s, e)`,
/// lists only subsets of two or more factors, every later entry is a proper
/// part of `s`, and the chosen children of each entry that are not single
/// factors come after it.
pub proof fn lemma_optimal_subsets_shape(info: IndexInfoModel, s: u64, e: u64)
    ensures
        ({
            let l = optimal_subsets(info, s, e);
            &&& !at_most_one_bit(s) ==> l.len() > 0 && l[0] == (s, e)
            &&& forall|j: int| 0 <= j < l.len() ==> !at_most_one_bit((#[trigger] l[j]).0) && l[j].0 <= s
            &&& forall|j: int| 0 < j < l.len() ==> (#[trigger] l[j]).0 < s
            &&& forall|j: int| 0 <= j < l.len() ==> {
                let ev = chosen_eval(info, (#[trigger] l[j]).0, l[j].1);
                let c = l[j].1 | ev.contracted_sums;
                &&& !at_most_one_bit(ev.left) ==> exists|j2: int| j < j2 < l.len() && l[j2] == (ev.left, c)
                &&& !at_most_one_bit(ev.right) ==> exists|j2: int| j < j2 < l.len() && l[j2] == (ev.right, c)
            }
        }),
    decreases s,
{
    let l = optimal_subsets(info, s, e);
    if !at_most_one_bit(s) {
        lemma_chosen_eval(info, s, e);
        lemma_evals_nonempty(info, s, e);
        let ev = chosen_eval(info, s, e);
        let c = e | ev.contracted_sums;
        lemma_optimal_subsets_shape(info, ev.left, c);
        lemma_optimal_subsets_shape(info, ev.right, c);
        let a = optimal_subsets(info, ev.left, c);
        let b = optimal_subsets(info, ev.right, c);
        assert(l == seq![(s, e)] + a + b);
        assert forall|j: int| 0 <= j < l.len() implies !at_most_one_bit((#[trigger] l[j]).0) && l[j].0 <= s by {
            if j > 0 && j < 1 + a.len() {
                assert(l[j] == a[j - 1]);
            } else if j >= 1 + a.len() {
                assert(l[j] == b[j - 1 - a.len()]);
            }
        }
        assert forall|j: int| 0 < j < l.len() implies (#[trigger] l[j]).0 < s by {
            if j < 1 + a.len() {
                assert(l[j] == a[j - 1]);
            } else {
                assert(l[j] == b[j - 1 - a.len()]);
            }
        }
        assert forall|j: int| 0 <= j < l.len() implies {
            let ev2 = chosen_eval(info, (#[trigger] l[j]).0, l[j].1);
            let c2 = l[j].1 | ev2.contracted_sums;
            &&& !at_most_one_bit(ev2.left) ==> exists|j2: int| j < j2 < l.len() && l[j2] == (ev2.left, c2)
            &&& !at_most_one_bit(ev2.right) ==> exists|j2: int| j < j2 < l.len() && l[j2] == (ev2.right, c2)
        } by {
            let ev2 = chosen_eval(info, l[j].0, l[j].1);
            let c2 = l[j].1 | ev2.contracted_sums;
            if j == 0 {
                if !at_most_one_bit(ev.left) {
                    assert(l[1] == a[0]);
                }
                if !at_most_one_bit(ev.right) {
                    assert(l[1 + a.len() as int] == b[0]);
                }
            } else if j < 1 + a.len() {
                let ja = j - 1;
                assert(l[j] == a[ja]);
                if !at_most_one_bit(ev2.left) {
                    let k = choose|j2: int| ja < j2 < a.len() && a[j2] == (ev2.left, c2);
                    assert(l[k + 1] == a[k]);
                }
                if !at_most_one_bit(ev2.right) {
                    let k = choose|j2: int| ja < j2 < a.len() && a[j2] == (ev2.right, c2);
                    assert(l[k + 1] == a[k]);
                }
            } else {
                let jb = j - 1 - a.len();
                assert(l[j] == b[jb]);
                if !at_most_one_bit(ev2.left) {
                    let k = choose|j2: int| jb < j2 < b.len() && b[j2] == (ev2.left, c2);
                    assert(l[k + 1 + a.len() as int] == b[k]);
                }
                if !at_most_one_bit(ev2.right) {
                    let k = choose|j2: int| jb < j2 < b.len() && b[j2] == (ev2.right, c2);
                    assert(l[k + 1 + a.len() as int] == b[k]);
                }
            }
        }
    }
}

/// Pairs of `v` in increasing order of the popcount of their first component,
/// keeping the order of pairs of equal popcount.
fn sort_pairs_by_popcount(v: &Vec<(u64, u64)>) -> (r: Vec<(u64, u64)>)
    ensures
        forall|k: int| 0 <= k < r@.len() ==> v@.contains(#[trigger] r@[k]),
        forall|a: int, b: int|
            0 <= a < b < r@.len() ==> crate::bits::popcount(#[trigger] r@[a].0) <= crate::bits::popcount(
                #[trigger] r@[b].0,
            ),
        r@ == by_popcount_below(v@, 65),
{
    let mut out: Vec<(u64, u64)> = Vec::new();
    let mut p: u32 = 0;
    while p <= 64
        invariant
            p <= 65,
            out@ == by_popcount_below(v@, p as int),
            forall|k: int| 0 <= k < out@.len() ==> v@.contains(#[trigger] out@[k]),
            forall|k: int| 0 <= k < out@.len() ==> crate::bits::popcount(#[trigger] out@[k].0) < p,
            forall|a: int, b: int|
                0 <= a < b < out@.len() ==> crate::bits::popcount(#[trigger] out@[a].0) <= crate::bits::popcount(
                    #[trigger] out@[b].0,
                ),
        decreases 65 - p,
    {
        let mut i: usize = 0;
        let ghost start = out@.len();
        while i < v.len()
            invariant
                i <= v@.len(),
                p <= 64,
                start <= out@.len(),
                forall|k: int| 0 <= k < out@.len() ==> v@.contains(#[trigger] out@[k]),
                forall|k: int| 0 <= k < start ==> crate::bits::popcount(#[trigger] out@[k].0) < p,
                forall|k: int| start <= k < out@.len() ==> crate::bits::popcount(#[trigger] out@[k].0) == p,
                out@ == by_popcount_below(v@, p as int) + with_popcount(v@.take(i as int), p as int),
                forall|a: int, b: int|
                    0 <= a < b < out@.len() ==> crate::bits::popcount(#[trigger] out@[a].0) <= crate::bits::popcount(
                        #[trigger] out@[b].0,
                    ),
            decreases v.len() - i,
        {
            let x = v[i];
            assert(v@.take(i + 1).drop_last() =~= v@.take(i as int));
            let ghost pre = by_popcount_below(v@, p as int);
            let ghost w = with_popcount(v@.take(i as int), p as int);
            assert((pre + w).push(x) =~= pre + w.push(x));
            if crate::bits::count_ones(x.0) == p {
                let ghost prev = out@;
                out.push(x);
                proof {
                    assert(v@[i as int] == x);
                    assert forall|k: int| 0 <= k < out@.len() implies v@.contains(#[trigger] out@[k]) by {
                        if k < prev.len() {
                            assert(out@[k] == prev[k]);
                        }
                    }
                }
            }
            i = i + 1;
        }
        assert(v@.take(i as int) =~= v@);
        p = p + 1;
    }
    out
}

/// `s` with each run of equal consecutive pairs kept once.
pub open spec fn dedup_runs(s: Seq<(u64, u64)>) -> Seq<(u64, u64)>
    decreases s.len(),
{
    if s.len() == 0 {
        seq![]
    } else {
        let rest = dedup_runs(s.drop_last());
        if rest.len() > 0 && rest.last() == s.last() {
            rest
        } else {
            rest.push(s.last())
        }
    }
}

/// The pairs of `v` whose first component has `p` set bits, in order.
pub open spec fn with_popcount(v: Seq<(u64, u64)>, p: int) -> Seq<(u64, u64)>
    decreases v.len(),
{
    if v.len() == 0 {
        seq![]
    } else if crate::bits::popcount(v.last().0) == p {
        with_popcount(v.drop_last(), p).push(v.last())
    } else {
        with_popcount(v.drop_last(), p)
    }
}

/// The pairs of `v` whose first component has fewer than `n` set bits,
/// grouped by popcount in increasing order, each group in the order of `v`.
pub open spec fn by_popcount_below(v: Seq<(u64, u64)>, n: int) -> Seq<(u64, u64)>
    decreases n,
{
    if n <= 0 {
        seq![]
    } else {
        by_popcount_below(v, n - 1) + with_popcount(v, n - 1)
    }
}

/// `v` without consecutive repeats.
fn dedup_pairs(v: &Vec<(u64, u64)>) -> (r: Vec<(u64, u64)>)
    ensures
        r@ == dedup_runs(v@),
        forall|k: int| 0 <= k < r@.len() ==> v@.contains(#[trigger] r@[k]),
        (forall|a: int, b: int|
            0 <= a < b < v@.len() ==> crate::bits::popcount(#[trigger] v@[a].0) <= crate::bits::popcount(
                #[trigger] v@[b].0,
            )) ==> forall|a: int, b: int|
            0 <= a < b < r@.len() ==> crate::bits::popcount(#[trigger] r@[a].0) <= crate::bits::popcount(
                #[trigger] r@[b].0,
            ),
{
    let mut out: Vec<(u64, u64)> = Vec::new();
    let ghost mut src: Seq<int> = seq![];
    let mut i: usize = 0;
    while i < v.len()
        invariant
            i <= v@.len(),
            src.len() == out@.len(),
            forall|k: int| 0 <= k < out@.len() ==> 0 <= #[trigger] src[k] < i && out@[k] == v@[src[k]],
            forall|a: int, b: int| 0 <= a < b < src.len() ==> #[trigger] src[a] < #[trigger] src[b],
            out@ == dedup_runs(v@.take(i as int)),
        decreases v.len() - i,
    {
        let x = v[i];
        assert(v@.take(i + 1).drop_last() =~= v@.take(i as int));
        let keep = if out.len() == 0 {
            true
        } else {
            let last = out[out.len() - 1];
            !(last.0 == x.0 && last.1 == x.1)
        };
        if keep {
            out.push(x);
            proof {
                src = src.push(i as int);
            }
        }
        i = i + 1;
    }
    proof {
        assert(v@.take(i as int) =~= v@);
        assert forall|k: int| 0 <= k < out@.len() implies v@.contains(#[trigger] out@[k]) by {
            assert(out@[k] == v@[src[k]]);
        }
        if forall|a: int, b: int|
            0 <= a < b < v@.len() ==> crate::bits::popcount(#[trigger] v@[a].0) <= crate::bits::popcount(
                #[trigger] v@[b].0,
            ) {
            assert forall|a: int, b: int| 0 <= a < b < out@.len() implies crate::bits::popcount(
                #[trigger] out@[a].0,
            ) <= crate::bits::popcount(#[trigger] out@[b].0) by {
                assert(out@[a] == v@[src[a]]);
                assert(out@[b] == v@[src[b]]);
                assert(src[a] < src[b]);
                assert(crate::bits::popcount(v@[src[a]].0) <= crate::bits::popcount(v@[src[b]].0));
            }
        }
    }
    out
}

/// Get the TensorId for a subset. For single-factor leaves, return the
/// original tensor; otherwise the tensor already made for the pair, if any.
fn get_tensor_id(
    subset_to_tensor: &Vec<((u64, u64), TensorId)>,
    factors: &Vec<Factor>,
    subset: FactorSubset,
    extized: u64,
) -> (r: Option<TensorId>)
    requires
        subset != 0,
        bits_below(subset, factors@.len() as int),
    ensures
        at_most_one_bit(subset) ==> (r matches Some(t) && exists|i: int|
            0 <= i < factors@.len() && bit(subset, i as u64) && t == #[trigger] factors@[i].tensor),
        !at_most_one_bit(subset) ==> (r is Some <==> exists|k: int|
            0 <= k < subset_to_tensor@.len() && #[trigger] subset_to_tensor@[k].0 == (subset, extized)),
        !at_most_one_bit(subset) ==> (r matches Some(t) ==> exists|k: int|
            0 <= k < subset_to_tensor@.len() && #[trigger] subset_to_tensor@[k].0 == (subset, extized)
                && subset_to_tensor@[k].1 == t),
{
    let one = has_at_most_one_bit(subset);
    if one {
        let idx = single_bit_position(subset);
        assert(idx < factors@.len());
        assert(bit(subset, idx as u64));
        let t = factors[idx].tensor;
        assert(t == factors@[idx as int].tensor);
        Some(t)
    } else {
        let mut k: usize = 0;
        while k < subset_to_tensor.len()
            invariant
                k <= subset_to_tensor@.len(),
                !at_most_one_bit(subset),
                forall|j: int| 0 <= j < k ==> #[trigger] subset_to_tensor@[j].0 != (subset, extized),
            decreases subset_to_tensor.len() - k,
        {
            let entry = subset_to_tensor[k];
            if entry.0.0 == subset && entry.0.1 == extized {
                return Some(entry.1);
            }
            k = k + 1;
        }
        None
    }
}

/// The (id, range) pairs of `map` at the set bits of `mask`, in increasing bit order.
pub open spec fn indices_at_bits_upto(mask: u64, map: Seq<Index>, k: int) -> Seq<Index>
    decreases k,
{
    if k <= 0 {
        seq![]
    } else if bit(mask, (k - 1) as u64) {
        indices_at_bits_upto(mask, map, k - 1).push(map[k - 1])
    } else {
        indices_at_bits_upto(mask, map, k - 1)
    }
}

fn indices_at_bits(mask: u64, map: &Vec<Index>) -> (r: Vec<Index>)
    requires
        map@.len() <= 64,
        bits_below(mask, map@.len() as int),
    ensures
        r@ == indices_at_bits_upto(mask, map@, map@.len() as int),
{
    let mut out: Vec<Index> = Vec::new();
    let mut i: usize = 0;
    while i < map.len()
        invariant
            i <= map@.len(),
            map@.len() <= 64,
            out@ == indices_at_bits_upto(mask, map@, i as int),
        decreases map.len() - i,
    {
        if (mask >> i as u64) & 1 == 1 {
            out.push(map[i]);
        }
        i = i + 1;
    }
    out
}

fn ids_of(v: &Vec<Index>) -> (r: Vec<IndexId>)
    ensures
        r@ == v@.map_values(|x: Index| x.id),
{
    let mut out: Vec<IndexId> = Vec::new();
    let mut i: usize = 0;
    while i < v.len()
        invariant
            i <= v@.len(),
            out@ == v@.take(i as int).map_values(|x: Index| x.id),
        decreases v.len() - i,
    {
        out.push(v[i].id);
        i = i + 1;
        assert(out@ =~= v@.take(i as int).map_values(|x: Index| x.id));
    }
    assert(v@.take(v@.len() as int) =~= v@);
    out
}

fn ranges_of(v: &Vec<Index>) -> (r: Vec<RangeId>)
    ensures
        r@ == v@.map_values(|x: Index| x.range),
{
    let mut out: Vec<RangeId> = Vec::new();
    let mut i: usize = 0;
    while i < v.len()
        invariant
            i <= v@.len(),
            out@ == v@.take(i as int).map_values(|x: Index| x.range),
        decreases v.len() - i,
    {
        out.push(v[i].range);
        i = i + 1;
        assert(out@ =~= v@.take(i as int).map_values(|x: Index| x.range));
    }
    assert(v@.take(v@.len() as int) =~= v@);
    out
}

/// Collect the IndexIds for an operand (its ext + extized sum indices).
fn collect_operand_indices(interm: &Interm, sum_map: &Vec<Index>, ext_map: &Vec<Index>) -> (r: Vec<
    IndexId,
>)
    requires
        sum_map@.len() <= 64,
        ext_map@.len() <= 64,
        bits_below(interm.ext_indices, ext_map@.len() as int),
        bits_below(interm.extized_sums, sum_map@.len() as int),
    ensures
        r@ == (indices_at_bits_upto(interm.ext_indices, ext_map@, ext_map@.len() as int)
            + indices_at_bits_upto(interm.extized_sums, sum_map@, sum_map@.len() as int)).map_values(
            |x: Index| x.id,
        ),
{
    let mut all = indices_at_bits(interm.ext_indices, ext_map);
    let sums = indices_at_bits(interm.extized_sums, sum_map);
    let ghost a = all@;
    let mut i: usize = 0;
    while i < sums.len()
        invariant
            i <= sums@.len(),
            all@ == a + sums@.take(i as int),
        decreases sums.len() - i,
    {
        all.push(sums[i]);
        i = i + 1;
        assert(all@ =~= a + sums@.take(i as int));
    }
    assert(sums@.take(sums@.len() as int) =~= sums@);
    ids_of(&all)
}

/// The operand for `subset`: a single factor is the term's own factor, with
/// its indices in their own order; a larger subset is the intermediate
/// `tensor` with `indices`.
fn operand_factor(term: &Term, subset: u64, tensor: TensorId, indices: Vec<IndexId>) -> (r: Factor)
    requires
        subset != 0,
        bits_below(subset, term.factors@.len() as int),
    ensures
        at_most_one_bit(subset) ==> exists|i: int| 0 <= i < term.factors@.len() && bit(subset, i as u64)
            && #[trigger] term.factors@[i]@ == r@,
        !at_most_one_bit(subset) ==> r.tensor == tensor && r.indices@ == indices@,
{
    if has_at_most_one_bit(subset) {
        let idx = single_bit_position(subset);
        assert(idx < term.factors@.len());
        let f = &term.factors[idx];
        let r = Factor { tensor: f.tensor, indices: crate::repr::copy_vec(&f.indices) };
        assert(term.factors@[idx as int]@ == r@);
        r
    } else {
        Factor { tensor, indices }
    }
}

/// A definition made for one contraction step, and the tensor registered for it.
pub open spec fn intermediate_def_ok(d: TensorDef, t: TensorInfo, id: int) -> bool {
    &&& d.base == t.id
    &&& t.id.0 == id as u32
    &&& t@.symmetry.len() == 0
    &&& t@.slots == d.ext_indices@.map_values(|x: Index| x.range)
    &&& d.terms@.len() == 1
    &&& d.terms@[0].factors@.len() == 2
}

/// An operand of the `k`-th extracted definition is ready: one of the term's
/// own factors (tensor and indices in their order), or the tensor of an
/// earlier extracted definition.
pub open spec fn operand_ready(f: FactorModel, term: TermModel, defs: Seq<TensorDef>, k: int) -> bool {
    ||| exists|i: int| 0 <= i < term.factors.len() && #[trigger] term.factors[i] == f
    ||| exists|m: int| 0 <= m < k && #[trigger] defs[m].base == f.tensor
}

/// Appending a definition whose operands are ready keeps every extracted
/// definition's operands ready.
proof fn lemma_ready_extend(term: TermModel, before: Seq<TensorDef>, d: TensorDef, after: Seq<TensorDef>)
    requires
        after == before.push(d),
        forall|k: int| 0 <= k < before.len() ==> operand_ready((#[trigger] before[k]).terms@[0].factors@[0]@, term, before, k)
            && operand_ready(before[k].terms@[0].factors@[1]@, term, before, k),
        operand_ready(d.terms@[0].factors@[0]@, term, before, before.len() as int),
        operand_ready(d.terms@[0].factors@[1]@, term, before, before.len() as int),
    ensures
        forall|k: int| 0 <= k < after.len() ==> operand_ready((#[trigger] after[k]).terms@[0].factors@[0]@, term, after, k)
            && operand_ready(after[k].terms@[0].factors@[1]@, term, after, k),
{
    assert forall|k: int| 0 <= k < after.len() implies operand_ready((#[trigger] after[k]).terms@[0].factors@[0]@, term, after, k)
        && operand_ready(after[k].terms@[0].factors@[1]@, term, after, k) by {
        let f0 = after[k].terms@[0].factors@[0]@;
        let f1 = after[k].terms@[0].factors@[1]@;
        let t0 = f0.tensor;
        let t1 = f1.tensor;
        if k < before.len() {
            assert(after[k] == before[k]);
            assert(operand_ready(f0, term, before, k));
            assert(operand_ready(f1, term, before, k));
        }
        if exists|m: int| 0 <= m < k && #[trigger] before[m].base == t0 {
            let m = choose|m: int| 0 <= m < k && #[trigger] before[m].base == t0;
            assert(after[m] == before[m]);
        }
        if exists|m: int| 0 <= m < k && #[trigger] before[m].base == t1 {
            let m = choose|m: int| 0 <= m < k && #[trigger] before[m].base == t1;
            assert(after[m] == before[m]);
        }
    }
}

/// The parenthesisation result belongs to a term with these factors and
/// summation indices, and these definition external indices.
pub open spec fn result_matches(r: &ParenthResult, term: TermModel, ext: Seq<Index>) -> bool {
    &&& result_ok(r)
    &&& r.info@.n_factors == term.factors.len()
    &&& r.info@.sum_sizes.len() == term.sum_indices.len()
    &&& r.info@.ext_sizes.len() == ext.len()
}

/// Extract the optimal contraction tree as a sequence of TensorDefs.
///
/// Walks the optimal eval chain from the full factor set down to individual
/// factors, creating an intermediate tensor and definition for each binary
/// contraction step. Returns the new definitions in evaluation order
/// (every operand before the step that uses it).
#[verifier::rlimit(100)]
#[verifier::spinoff_prover]
pub fn extract_optimal(
    result: &ParenthResult,
    term: &Term,
    ext_indices: &[Index],
    comp: &mut TensorComputation,
) -> (r: Vec<TensorDef>)
    requires
        result_matches(result, term@, ext_indices@),
    ensures
        result.info@.n_factors <= 1 ==> r@.len() == 0,
        final(comp).spec_ranges() == old(comp).spec_ranges(),
        final(comp).spec_definitions() == old(comp).spec_definitions(),
        final(comp).spec_tensors().len() == old(comp).spec_tensors().len() + r@.len(),
        final(comp).spec_tensors().take(old(comp).spec_tensors().len() as int) == old(
            comp,
        ).spec_tensors(),
        forall|k: int|
            0 <= k < r@.len() ==> intermediate_def_ok(
                #[trigger] r@[k],
                final(comp).spec_tensors()[old(comp).spec_tensors().len() + k],
                old(comp).spec_tensors().len() + k,
            ),
        forall|k: int| 0 <= k < r@.len() ==> operand_ready((#[trigger] r@[k]).terms@[0].factors@[0]@, term@, r@, k)
            && operand_ready(r@[k].terms@[0].factors@[1]@, term@, r@, k),
        result.info@.n_factors >= 2 ==> r@.len() == optimal_subsets(
            result.info@,
            full_mask(result.info@.n_factors),
            0,
        ).len(),
        result.info@.n_factors >= 2 ==> r@.len() == result.info@.n_factors - 1,
        result.info@.n_factors >= 2 ==> r@.len() > 0 && r@[r@.len() - 1].terms@[0].coeff == term.coeff && forall|k: int|
            0 <= k < r@.len() - 1 ==> (#[trigger] r@[k]).terms@[0].coeff.pair() == (1int, 1int),
{
    let n = result.info.n_factors;
    if n <= 1 {
        return Vec::new();
    }
    proof {
        lemma_full_mask_below(n as int);
        lemma_low_mask(n as u64, 0);
    }
    let full_mask_v: u64 = (1u64 << n as u64) - 1;
    let mut defs: Vec<TensorDef> = Vec::new();
    let mut subset_to_tensor: Vec<((u64, u64), TensorId)> = Vec::new();

    let sum_index_map = crate::repr::copy_vec(&term.sum_indices);
    let mut ext_index_map: Vec<Index> = Vec::new();
    let mut q: usize = 0;
    while q < ext_indices.len()
        invariant
            q <= ext_indices@.len(),
            ext_index_map@ == ext_indices@.take(q as int),
        decreases ext_indices@.len() - q,
    {
        ext_index_map.push(ext_indices[q]);
        q = q + 1;
        assert(ext_index_map@ =~= ext_indices@.take(q as int));
    }
    assert(ext_indices@.take(ext_indices@.len() as int) =~= ext_indices@);

    let mut collected: Vec<(u64, u64)> = Vec::new();
    collect_optimal_subsets(result, full_mask_v, 0, &mut collected);
    // Children come after their parent in the preorder list, so the
    // reversed list makes every operand before the step that uses it.
    let ghost tree = optimal_subsets(result.info@, full_mask_v, 0);
    assert(collected@ =~= tree);
    let mut pairs: Vec<(u64, u64)> = Vec::new();
    let mut c: usize = collected.len();
    while c > 0
        invariant
            c <= collected@.len(),
            collected@ == tree,
            pairs@.len() == collected@.len() - c,
            forall|k: int| 0 <= k < pairs@.len() ==> #[trigger] pairs@[k] == tree[tree.len() - 1 - k],
        decreases c,
    {
        c = c - 1;
        pairs.push(collected[c]);
    }
    proof {
        assert forall|k: int| 0 <= k < pairs@.len() implies memo_has(result.memoir@, (#[trigger] pairs@[k]).0, pairs@[k].1)
            && !at_most_one_bit(pairs@[k].0) && bits_below(pairs@[k].0, n as int) by {
            let j = tree.len() - 1 - k;
            assert(collected@.take(0) =~= Seq::<(u64, u64)>::empty());
            assert(collected@[j] == pairs@[k]);
        }
    }

    let ghost info = result.info@;
    let ghost old_comp = *comp;
    let ghost mut made: Seq<int> = Seq::empty();
    let mut pi: usize = 0;
    while pi < pairs.len()
        invariant
            pi <= pairs@.len(),
            result_matches(result, term@, ext_indices@),
            info == result.info@,
            sum_index_map@ == term@.sum_indices,
            ext_index_map@ == ext_indices@,
            n == info.n_factors,
            n == term@.factors.len(),
            1 < n < 64,
            forall|k: int| 0 <= k < pairs@.len() ==> memo_has(result.memoir@, (#[trigger] pairs@[k]).0, pairs@[k].1)
                && !at_most_one_bit(pairs@[k].0) && bits_below(pairs@[k].0, n as int),
            comp.spec_ranges() == old_comp.spec_ranges(),
            comp.spec_definitions() == old_comp.spec_definitions(),
            comp.spec_tensors().len() == old_comp.spec_tensors().len() + defs@.len(),
            comp.spec_tensors().take(old_comp.spec_tensors().len() as int) == old_comp.spec_tensors(),
            forall|k: int|
                0 <= k < defs@.len() ==> intermediate_def_ok(
                    #[trigger] defs@[k],
                    comp.spec_tensors()[old_comp.spec_tensors().len() + k],
                    old_comp.spec_tensors().len() + k,
                ),
            forall|k: int| 0 <= k < defs@.len() ==> operand_ready((#[trigger] defs@[k]).terms@[0].factors@[0]@, term@, defs@, k)
                && operand_ready(defs@[k].terms@[0].factors@[1]@, term@, defs@, k),
            made.len() == subset_to_tensor@.len(),
            forall|e: int| 0 <= e < made.len() ==> 0 <= #[trigger] made[e] < defs@.len()
                && defs@[made[e]].base == subset_to_tensor@[e].1,
            tree == optimal_subsets(info, full_mask_v, 0),
            full_mask_v == full_mask(n as int),
            pairs@.len() == tree.len(),
            forall|k: int| 0 <= k < pairs@.len() ==> #[trigger] pairs@[k] == tree[tree.len() - 1 - k],
            defs@.len() == pi,
            subset_to_tensor@.len() == pi,
            forall|e: int| 0 <= e < pi ==> #[trigger] subset_to_tensor@[e].0 == pairs@[e],
            forall|k: int| 0 <= k < pi ==> (pairs@[k].0 == full_mask_v ==> (#[trigger] defs@[k]).terms@[0].coeff == term.coeff)
                && (pairs@[k].0 != full_mask_v ==> defs@[k].terms@[0].coeff.pair() == (1int, 1int)),
        decreases pairs.len() - pi,
    {
        let (subset, extized) = pairs[pi];
        let ghost here = pi as int;
        let ghost pos = tree.len() - 1 - here;
        proof {
            assert(pairs@[here] == tree[pos]);
            lemma_optimal_subsets_shape(info, full_mask_v, 0);
        }
        pi = pi + 1;
        let interm = match result.get(subset, extized) {
            Some(x) => x,
            None => {
                proof {
                    assert(memo_has(result.memoir@, pairs@[here].0, pairs@[here].1));
                }
                continue;
            },
        };
        let ghost ki = choose|k: int|
            0 <= k < result.memoir@.len() && #[trigger] result.memoir@[k].subset == subset
                && result.memoir@[k].extized == extized && *interm == result.memoir@[k].interm;
        proof {
            assert(interm@ == interm_spec(info, subset, extized));
            lemma_sum_bits_below(info, subset);
            lemma_and_below(sum_bits_spec(info, subset), extized, info.sum_sizes.len() as int);
            lemma_split_evals_props(info, subset, extized, first_sub(subset));
        }
        let best = match first_min_eval(&interm.evals) {
            Some(b) => b,
            None => {
                proof {
                    lemma_evals_nonempty(info, subset, extized);
                }
                continue;
            },
        };
        let best_eval = interm.evals[best];
        let child_extized = extized | best_eval.contracted_sums;
        proof {
            let evs = interm_spec(info, subset, extized).evals;
            assert forall|j: int| 0 <= j < evs.len() implies #[trigger] evs[j] == interm.evals@[j]@ by {
            }
            assert(is_first_min(evs, best as int));
            lemma_first_min_unique(evs, best as int);
            assert(best_eval@ == chosen_eval(info, subset, extized));
            let cc = tree[pos].1 | chosen_eval(info, tree[pos].0, tree[pos].1).contracted_sums;
            assert(child_extized == cc);
            if !at_most_one_bit(best_eval.left) {
                let j2 = choose|j2: int| pos < j2 < tree.len() && tree[j2] == (best_eval.left, cc);
                let i2 = tree.len() - 1 - j2;
                assert(pairs@[i2] == tree[j2]);
                assert(subset_to_tensor@[i2].0 == (best_eval.left, child_extized));
            }
            if !at_most_one_bit(best_eval.right) {
                let j2 = choose|j2: int| pos < j2 < tree.len() && tree[j2] == (best_eval.right, cc);
                let i2 = tree.len() - 1 - j2;
                assert(pairs@[i2] == tree[j2]);
                assert(subset_to_tensor@[i2].0 == (best_eval.right, child_extized));
            }
        }
        proof {
            let ev = interm@.evals[best as int];
            assert(ev == best_eval@);
            assert(memo_has(result.memoir@, best_eval.left, child_extized));
            assert(memo_has(result.memoir@, best_eval.right, child_extized));
            crate::bits::lemma_bits_below_64(subset);
            lemma_submask_below(best_eval.left, subset, n as int);
            lemma_submask_below(best_eval.right, subset, n as int);
            lemma_sum_bits_below(info, best_eval.left);
            lemma_and_below(sum_bits_spec(info, best_eval.left), sum_bits_spec(info, best_eval.right), info.sum_sizes.len() as int);
            lemma_and_below(sum_bits_spec(info, best_eval.left) & sum_bits_spec(info, best_eval.right), sum_bits_spec(info, subset) & !extized, info.sum_sizes.len() as int);
        }
        let left_tensor = match get_tensor_id(&subset_to_tensor, &term.factors, best_eval.left, child_extized) {
            Some(t) => t,
            None => {
                proof {
                    assert(false);
                }
                continue;
            },
        };
        let right_tensor = match get_tensor_id(&subset_to_tensor, &term.factors, best_eval.right, child_extized) {
            Some(t) => t,
            None => {
                proof {
                    assert(false);
                }
                continue;
            },
        };

        // Free indices of this intermediate: def ext + extized sums
        let mut def_ext_indices = indices_at_bits(interm.ext_indices, &ext_index_map);
        let extized_list = indices_at_bits(interm.extized_sums, &sum_index_map);
        let mut e: usize = 0;
        while e < extized_list.len()
            invariant
                e <= extized_list@.len(),
            decreases extized_list.len() - e,
        {
            def_ext_indices.push(extized_list[e]);
            e = e + 1;
        }

        // Contracted summation indices for this step
        let step_sums = indices_at_bits(best_eval.contracted_sums, &sum_index_map);

        // Collect indices for left and right operand references
        let left_interm = match result.get(best_eval.left, child_extized) {
            Some(x) => x,
            None => {
                proof {
                    assert(false);
                }
                continue;
            },
        };
        let right_interm = match result.get(best_eval.right, child_extized) {
            Some(x) => x,
            None => {
                proof {
                    assert(false);
                }
                continue;
            },
        };
        proof {
            let kl = choose|k: int|
                0 <= k < result.memoir@.len() && #[trigger] result.memoir@[k].subset == best_eval.left
                    && result.memoir@[k].extized == child_extized && *left_interm == result.memoir@[k].interm;
            let kr = choose|k: int|
                0 <= k < result.memoir@.len() && #[trigger] result.memoir@[k].subset == best_eval.right
                    && result.memoir@[k].extized == child_extized && *right_interm == result.memoir@[k].interm;
            assert(left_interm@ == interm_spec(info, best_eval.left, child_extized));
            assert(right_interm@ == interm_spec(info, best_eval.right, child_extized));
            lemma_sum_bits_below(info, best_eval.right);
            lemma_and_below(sum_bits_spec(info, best_eval.left), child_extized, info.sum_sizes.len() as int);
            lemma_and_below(sum_bits_spec(info, best_eval.right), child_extized, info.sum_sizes.len() as int);
        }
        let left_indices = collect_operand_indices(left_interm, &sum_index_map, &ext_index_map);
        let right_indices = collect_operand_indices(right_interm, &sum_index_map, &ext_index_map);

        // Create new intermediate tensor
        let slots = ranges_of(&def_ext_indices);
        let ghost before = *comp;
        let new_tensor = comp.add_tensor(slots.as_slice(), Vec::new());

        let coeff = if subset == full_mask_v {
            term.coeff
        } else {
            Rational::one()
        };
        let left_factor = operand_factor(term, best_eval.left, left_tensor, left_indices);
        let right_factor = operand_factor(term, best_eval.right, right_tensor, right_indices);
        let mut factors: Vec<Factor> = Vec::new();
        factors.push(left_factor);
        factors.push(right_factor);
        let new_term = Term { coeff, sum_indices: step_sums, factors };
        let mut terms: Vec<Term> = Vec::new();
        terms.push(new_term);
        let def = TensorDef { base: new_tensor, ext_indices: def_ext_indices, terms };

        proof {
            assert(operand_ready(left_factor@, term@, defs@, defs@.len() as int)) by {
                if at_most_one_bit(best_eval.left) {
                    let i = choose|i: int| 0 <= i < term.factors@.len() && #[trigger] term.factors@[i]@ == left_factor@;
                    assert(term@.factors[i] == left_factor@);
                } else {
                    let e = choose|e: int| 0 <= e < subset_to_tensor@.len() && #[trigger] subset_to_tensor@[e].0
                        == (best_eval.left, child_extized) && subset_to_tensor@[e].1 == left_tensor;
                    assert(defs@[made[e]].base == left_tensor);
                }
            }
            assert(operand_ready(right_factor@, term@, defs@, defs@.len() as int)) by {
                if at_most_one_bit(best_eval.right) {
                    let i = choose|i: int| 0 <= i < term.factors@.len() && #[trigger] term.factors@[i]@ == right_factor@;
                    assert(term@.factors[i] == right_factor@);
                } else {
                    let e = choose|e: int| 0 <= e < subset_to_tensor@.len() && #[trigger] subset_to_tensor@[e].0
                        == (best_eval.right, child_extized) && subset_to_tensor@[e].1 == right_tensor;
                    assert(defs@[made[e]].base == right_tensor);
                }
            }
        }
        let ghost dg = def;
        let ghost stt_before = subset_to_tensor@;
        subset_to_tensor.push(((subset, extized), new_tensor));
        let ghost defs_before = defs@;
        defs.push(def);
        proof {
            lemma_ready_extend(term@, defs_before, dg, defs@);
            let made_before = made;
            made = made.push(defs_before.len() as int);
            assert forall|e: int| 0 <= e < made.len() implies 0 <= #[trigger] made[e] < defs@.len()
                && defs@[made[e]].base == subset_to_tensor@[e].1 by {
                if e < made_before.len() {
                    assert(made[e] == made_before[e]);
                    assert(subset_to_tensor@[e] == stt_before[e]);
                    assert(defs@[made[e]] == defs_before[made[e]]);
                }
            }
            let o = old_comp.spec_tensors().len();
            assert(comp.spec_tensors().take(o as int) =~= old_comp.spec_tensors()) by {
                assert(comp.spec_tensors().drop_last() == before.spec_tensors());
                assert forall|k: int| 0 <= k < o implies comp.spec_tensors()[k] == old_comp.spec_tensors()[k] by {
                    assert(before.spec_tensors().take(o as int)[k] == old_comp.spec_tensors()[k]);
                    assert(comp.spec_tensors().drop_last()[k] == before.spec_tensors()[k]);
                }
            }
            assert forall|k: int| 0 <= k < defs@.len() implies intermediate_def_ok(
                #[trigger] defs@[k],
                comp.spec_tensors()[o + k],
                o + k,
            ) by {
                if k < defs@.len() - 1 {
                    assert(defs@[k] == defs_before[k]);
                    assert(comp.spec_tensors()[o + k] == comp.spec_tensors().drop_last()[o + k]);
                    assert(comp.spec_tensors().drop_last()[o + k] == before.spec_tensors()[o + k]);
                } else {
                    assert(k == defs_before.len());
                    assert(comp.spec_tensors()[o + k] == comp.spec_tensors().last());
                    assert(before.spec_tensors().len() == o + k);
                    assert(new_tensor.0 == (o + k) as u32);
                    assert(defs@[k].base == new_tensor);
                    assert(comp.spec_tensors().last()@.id == new_tensor);
                    assert(comp.spec_tensors().last()@.slots == slots@);
                    assert(defs@[k].ext_indices@.map_values(|x: Index| x.range) == slots@);
                    assert(defs@[k].terms@.len() == 1);
                    assert(defs@[k].terms@[0].factors@.len() == 2);
                }
            }
        }
    }
    proof {
        let fm = full_mask_v;
        let nn = n as u64;
        assert(fm == ((1u64 << nn) - 1) as u64);
        assert(fm & ((fm - 1) as u64) != 0) by (bit_vector)
            requires
                fm == ((1u64 << nn) - 1) as u64,
                2 <= nn < 64,
        ;
        lemma_optimal_subsets_shape(info, fm, 0);
        lemma_optimal_subsets_len(info, fm, 0);
        lemma_popcount_full(n as int, 64);
        let last = pairs@.len() - 1;
        assert(pairs@[last] == tree[0]);
        assert forall|k: int| 0 <= k < defs@.len() - 1 implies (#[trigger] defs@[k]).terms@[0].coeff.pair() == (1int, 1int) by {
            assert(pairs@[k] == tree[tree.len() - 1 - k]);
            assert(tree[tree.len() - 1 - k].0 < fm);
        }
    }
    defs
}

} // verus!
