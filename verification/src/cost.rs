//! FLOP cost model of definitions and whole computations.
use vstd::prelude::*;

use crate::repr::{def_models, DefModel, Index, Range, TensorComputation, TensorDef, TermModel};

verus! {

/// Every index of `idxs` names a range of `ranges`.
pub open spec fn indices_in_bounds(ranges: Seq<Range>, idxs: Seq<Index>) -> bool {
    forall|k: int| 0 <= k < idxs.len() ==> (#[trigger] idxs[k]).range.0 < ranges.len()
}

/// Product of the sizes of the ranges of `idxs` (1 for no index).
pub open spec fn size_product(ranges: Seq<Range>, idxs: Seq<Index>) -> int
    decreases idxs.len(),
{
    if idxs.len() == 0 {
        1
    } else {
        size_product(ranges, idxs.drop_last()) * ranges[idxs.last().range.0 as int].size
    }
}

/// Every partial product of the sizes of `idxs`, taken left to right, fits in `u64`.
pub open spec fn products_fit(ranges: Seq<Range>, idxs: Seq<Index>) -> bool {
    &&& indices_in_bounds(ranges, idxs)
    &&& forall|k: int| 0 <= k <= idxs.len() ==> #[trigger] size_product(ranges, idxs.take(k))
        <= u64::MAX
}

pub open spec fn max1(x: int) -> int {
    if x < 1 {
        1
    } else {
        x
    }
}

/// Cost of one contraction producing `ext_size` outputs summed over `sum_size` values.
pub open spec fn contraction_cost(ext_size: int, sum_size: int) -> int {
    if sum_size == 1 {
        ext_size
    } else {
        2 * ext_size * sum_size
    }
}

/// Cost of one term: its contraction plus the addition into the output.
pub open spec fn term_cost(ranges: Seq<Range>, ext_size: int, term: TermModel) -> int {
    contraction_cost(ext_size, max1(size_product(ranges, term.sum_indices))) + ext_size
}

/// Sum of the costs of `terms`.
pub open spec fn terms_cost(ranges: Seq<Range>, ext_size: int, terms: Seq<TermModel>) -> int
    decreases terms.len(),
{
    if terms.len() == 0 {
        0
    } else {
        terms_cost(ranges, ext_size, terms.drop_last()) + term_cost(ranges, ext_size, terms.last())
    }
}

/// FLOP cost of evaluating a definition.
pub open spec fn def_cost_spec(def: DefModel, ranges: Seq<Range>) -> int {
    terms_cost(ranges, max1(size_product(ranges, def.ext_indices)), def.terms)
}

/// The cost of `def` can be computed in `u64` without overflow.
pub open spec fn def_cost_fits(def: DefModel, ranges: Seq<Range>) -> bool {
    &&& products_fit(ranges, def.ext_indices)
    &&& forall|k: int| 0 <= k < def.terms.len() ==> products_fit(
        ranges,
        #[trigger] def.terms[k].sum_indices,
    )
    &&& def_cost_spec(def, ranges) <= u64::MAX
}

/// Sum of the costs of `defs`.
pub open spec fn defs_cost(defs: Seq<DefModel>, ranges: Seq<Range>) -> int
    decreases defs.len(),
{
    if defs.len() == 0 {
        0
    } else {
        defs_cost(defs.drop_last(), ranges) + def_cost_spec(defs.last(), ranges)
    }
}

pub proof fn lemma_size_product_nonneg(ranges: Seq<Range>, idxs: Seq<Index>)
    ensures
        size_product(ranges, idxs) >= 0,
    decreases idxs.len(),
{
    if idxs.len() > 0 {
        lemma_size_product_nonneg(ranges, idxs.drop_last());
        let a = size_product(ranges, idxs.drop_last());
        let b = ranges[idxs.last().range.0 as int].size as int;
        assert(a * b >= 0) by (nonlinear_arith)
            requires
                a >= 0,
                b >= 0,
        ;
    }
}

proof fn lemma_terms_cost_monotone(ranges: Seq<Range>, ext_size: int, terms: Seq<TermModel>, k: int)
    requires
        0 <= k <= terms.len(),
        ext_size >= 1,
    ensures
        0 <= terms_cost(ranges, ext_size, terms.take(k)) <= terms_cost(ranges, ext_size, terms),
    decreases terms.len(),
{
    if terms.len() > 0 {
        lemma_term_cost_nonneg(ranges, ext_size, terms.last());
        if k == terms.len() {
            assert(terms.take(k) =~= terms);
            lemma_terms_cost_monotone(ranges, ext_size, terms.drop_last(), k - 1);
        } else {
            assert(terms.take(k) =~= terms.drop_last().take(k));
            lemma_terms_cost_monotone(ranges, ext_size, terms.drop_last(), k);
        }
    } else {
        assert(terms.take(k) =~= terms);
    }
}

proof fn lemma_term_cost_nonneg(ranges: Seq<Range>, ext_size: int, term: TermModel)
    requires
        ext_size >= 1,
    ensures
        term_cost(ranges, ext_size, term) >= ext_size,
{
    let s = max1(size_product(ranges, term.sum_indices));
    assert(2 * ext_size * s >= 0) by (nonlinear_arith)
        requires
            ext_size >= 1,
            s >= 1,
    ;
}

/// Product of the range sizes of `idxs`, multiplied left to right.
fn product_of_sizes(idxs: &Vec<Index>, ranges: &[Range]) -> (r: u64)
    requires
        products_fit(ranges@, idxs@),
    ensures
        r == size_product(ranges@, idxs@),
{
    let mut acc: u64 = 1;
    let mut i: usize = 0;
    while i < idxs.len()
        invariant
            i <= idxs.len(),
            products_fit(ranges@, idxs@),
            acc == size_product(ranges@, idxs@.take(i as int)),
        decreases idxs.len() - i,
    {
        let ghost prefix = idxs@.take(i as int);
        assert(idxs@.take(i + 1).drop_last() =~= prefix);
        assert(idxs@.take(i + 1).last() == idxs@[i as int]);
        assert(size_product(ranges@, idxs@.take(i + 1)) <= u64::MAX);
        let idx = idxs[i];
        assert(idxs@[i as int].range.0 < ranges@.len());
        acc = acc * ranges[idx.range.0 as usize].size;
        i = i + 1;
    }
    assert(idxs@.take(idxs.len() as int) =~= idxs@);
    acc
}

/// FLOP cost of evaluating one TensorDef.
///
/// For each term: contraction cost + addition into output.
/// - No summation: ext_size (copy/scale) + ext_size (addition)
/// - With summation: 2 * ext_size * sum_size (multiply-add) + ext_size (addition)
pub fn def_cost(def: &TensorDef, ranges: &[Range]) -> (r: u64)
    requires
        def_cost_fits(def@, ranges@),
    ensures
        r == def_cost_spec(def@, ranges@),
{
    let p = product_of_sizes(&def.ext_indices, ranges);
    let ext_size: u64 = if p < 1 {
        1
    } else {
        p
    };
    let ghost es = ext_size as int;
    let mut total: u64 = 0;
    let mut i: usize = 0;
    while i < def.terms.len()
        invariant
            i <= def.terms.len(),
            def_cost_fits(def@, ranges@),
            es == max1(size_product(ranges@, def@.ext_indices)),
            ext_size == es,
            es >= 1,
            total == terms_cost(ranges@, es, def@.terms.take(i as int)),
        decreases def.terms.len() - i,
    {
        let term = &def.terms[i];
        assert(def@.terms[i as int] == term@);
        assert(products_fit(ranges@, def@.terms[i as int].sum_indices));
        let sp = product_of_sizes(&term.sum_indices, ranges);
        let sum_size: u64 = if sp < 1 {
            1
        } else {
            sp
        };
        proof {
            assert(def@.terms.take(i + 1).drop_last() =~= def@.terms.take(i as int));
            assert(def@.terms.take(i + 1).last() == term@);
            lemma_terms_cost_monotone(ranges@, es, def@.terms, i + 1);
            lemma_term_cost_nonneg(ranges@, es, term@);
            assert(2 * ext_size <= 2 * ext_size * sum_size) by (nonlinear_arith)
                requires
                    sum_size >= 1,
            ;
        }
        let contraction = if sum_size == 1 {
            ext_size
        } else {
            2 * ext_size * sum_size
        };
        total = total + (contraction + ext_size);
        i = i + 1;
    }
    assert(def@.terms.take(def.terms.len() as int) =~= def@.terms);
    total
}

/// Total FLOP cost of an entire computation.
pub fn total_cost(comp: &TensorComputation) -> (r: u64)
    requires
        forall|k: int|
            0 <= k < comp.spec_definitions().len() ==> def_cost_fits(
                #[trigger] comp.spec_definitions()[k]@,
                comp.spec_ranges(),
            ),
        defs_cost(def_models(comp.spec_definitions()), comp.spec_ranges()) <= u64::MAX,
    ensures
        r == defs_cost(def_models(comp.spec_definitions()), comp.spec_ranges()),
{
    let defs = comp.definitions();
    let ranges = comp.ranges();
    let ghost models = def_models(comp.spec_definitions());
    let mut total: u64 = 0;
    let mut i: usize = 0;
    while i < defs.len()
        invariant
            i <= defs@.len(),
            defs@ == comp.spec_definitions(),
            ranges@ == comp.spec_ranges(),
            models == def_models(defs@),
            forall|k: int| 0 <= k < defs@.len() ==> def_cost_fits(#[trigger] defs@[k]@, ranges@),
            defs_cost(models, ranges@) <= u64::MAX,
            total == defs_cost(models.take(i as int), ranges@),
        decreases defs@.len() - i,
    {
        let c = def_cost(&defs[i], ranges);
        proof {
            assert(models.take(i + 1).drop_last() =~= models.take(i as int));
            assert(models.take(i + 1).last() == defs@[i as int]@);
            assert forall|j: int| 0 <= j < models.len() implies def_cost_spec(
                #[trigger] models[j],
                ranges@,
            ) >= 0 by {
                lemma_def_cost_nonneg(models[j], ranges@);
            }
            lemma_defs_cost_monotone(models, ranges@, i + 1);
        }
        total = total + c;
        i = i + 1;
    }
    assert(models.take(defs@.len() as int) =~= models);
    total
}

proof fn lemma_def_cost_nonneg(def: DefModel, ranges: Seq<Range>)
    ensures
        def_cost_spec(def, ranges) >= 0,
{
    lemma_terms_cost_monotone(ranges, max1(size_product(ranges, def.ext_indices)), def.terms, 0);
}

proof fn lemma_defs_cost_monotone(defs: Seq<DefModel>, ranges: Seq<Range>, k: int)
    requires
        0 <= k <= defs.len(),
        forall|j: int| 0 <= j < defs.len() ==> def_cost_spec(#[trigger] defs[j], ranges) >= 0,
    ensures
        0 <= defs_cost(defs.take(k), ranges) <= defs_cost(defs, ranges),
    decreases defs.len(),
{
    if defs.len() > 0 {
        assert(def_cost_spec(defs[defs.len() - 1], ranges) >= 0);
        if k == defs.len() {
            assert(defs.take(k) =~= defs);
            lemma_defs_cost_monotone(defs.drop_last(), ranges, k - 1);
        } else {
            assert(defs.take(k) =~= defs.drop_last().take(k));
            lemma_defs_cost_monotone(defs.drop_last(), ranges, k);
        }
    } else {
        assert(defs.take(k) =~= defs);
    }
}

/// The product of the range sizes of `idxs`, or `None` when an index names
/// no range or a partial product overflows.
fn checked_product_of_sizes(idxs: &Vec<Index>, ranges: &[Range]) -> (r: Option<u64>)
    ensures
        r is Some <==> products_fit(ranges@, idxs@),
        r matches Some(p) ==> p == size_product(ranges@, idxs@),
{
    let mut acc: u64 = 1;
    let mut i: usize = 0;
    assert(idxs@.take(0) =~= Seq::<Index>::empty());
    while i < idxs.len()
        invariant
            i <= idxs.len(),
            acc == size_product(ranges@, idxs@.take(i as int)),
            forall|k: int| 0 <= k < i ==> (#[trigger] idxs@[k]).range.0 < ranges@.len(),
            forall|k: int| 0 <= k <= i ==> #[trigger] size_product(ranges@, idxs@.take(k)) <= u64::MAX,
        decreases idxs.len() - i,
    {
        let idx = idxs[i];
        if idx.range.0 as usize >= ranges.len() {
            return None;
        }
        assert(idxs@.take(i + 1).drop_last() =~= idxs@.take(i as int));
        assert(idxs@.take(i + 1).last() == idxs@[i as int]);
        match acc.checked_mul(ranges[idx.range.0 as usize].size) {
            Some(p) => acc = p,
            None => {
                assert(size_product(ranges@, idxs@.take(i + 1)) > u64::MAX);
                return None;
            },
        }
        i = i + 1;
    }
    assert(idxs@.take(idxs.len() as int) =~= idxs@);
    Some(acc)
}

/// The cost of `def`, or `None` when it cannot be computed in `u64` (or an
/// index names no range).
pub fn checked_def_cost(def: &TensorDef, ranges: &[Range]) -> (r: Option<u64>)
    ensures
        r is Some <==> def_cost_fits(def@, ranges@),
        r matches Some(c) ==> c == def_cost_spec(def@, ranges@),
{
    if checked_product_of_sizes(&def.ext_indices, ranges).is_none() {
        return None;
    }
    let mut i: usize = 0;
    while i < def.terms.len()
        invariant
            i <= def.terms.len(),
            forall|k: int| 0 <= k < i ==> products_fit(ranges@, (#[trigger] def@.terms[k]).sum_indices),
        decreases def.terms.len() - i,
    {
        assert(def@.terms[i as int] == def.terms@[i as int]@);
        if checked_product_of_sizes(&def.terms[i].sum_indices, ranges).is_none() {
            assert(!products_fit(ranges@, def@.terms[i as int].sum_indices));
            return None;
        }
        i = i + 1;
    }
    let p = checked_product_of_sizes(&def.ext_indices, ranges).unwrap();
    let ext_size: u64 = if p < 1 {
        1
    } else {
        p
    };
    let ghost es = ext_size as int;
    let mut total: u64 = 0;
    let mut i: usize = 0;
    while i < def.terms.len()
        invariant
            i <= def.terms.len(),
            products_fit(ranges@, def@.ext_indices),
            forall|k: int| 0 <= k < def@.terms.len() ==> products_fit(ranges@, (#[trigger] def@.terms[k]).sum_indices),
            es == max1(size_product(ranges@, def@.ext_indices)),
            ext_size == es,
            es >= 1,
            total == terms_cost(ranges@, es, def@.terms.take(i as int)),
        decreases def.terms.len() - i,
    {
        let term = &def.terms[i];
        assert(def@.terms[i as int] == term@);
        let sp = checked_product_of_sizes(&term.sum_indices, ranges).unwrap();
        let sum_size: u64 = if sp < 1 {
            1
        } else {
            sp
        };
        proof {
            assert(def@.terms.take(i + 1).drop_last() =~= def@.terms.take(i as int));
            assert(def@.terms.take(i + 1).last() == term@);
            lemma_terms_cost_monotone(ranges@, es, def@.terms, i + 1);
            lemma_term_cost_nonneg(ranges@, es, term@);
        }
        let contraction = if sum_size == 1 {
            Some(ext_size)
        } else {
            match ext_size.checked_mul(2) {
                Some(x) => x.checked_mul(sum_size),
                None => None,
            }
        };
        let step = match contraction {
            Some(c) => c.checked_add(ext_size),
            None => None,
        };
        let next = match step {
            Some(t) => total.checked_add(t),
            None => None,
        };
        match next {
            Some(n) => total = n,
            None => {
                proof {
                    assert(2 * ext_size <= 2 * ext_size * sum_size) by (nonlinear_arith)
                        requires
                            sum_size >= 1,
                    ;
                    assert(terms_cost(ranges@, es, def@.terms.take(i + 1)) > u64::MAX);
                }
                return None;
            },
        }
        i = i + 1;
    }
    assert(def@.terms.take(def.terms.len() as int) =~= def@.terms);
    Some(total)
}

/// The total cost of `comp`, or `None` when it cannot be computed in `u64`
/// (or an index names no range): exactly when `total_cost` may not be called.
pub fn checked_total_cost(comp: &TensorComputation) -> (r: Option<u64>)
    ensures
        r is Some <==> (forall|k: int| 0 <= k < comp.spec_definitions().len() ==> def_cost_fits(
            #[trigger] comp.spec_definitions()[k]@,
            comp.spec_ranges(),
        )) && defs_cost(def_models(comp.spec_definitions()), comp.spec_ranges()) <= u64::MAX,
        r matches Some(c) ==> c == defs_cost(def_models(comp.spec_definitions()), comp.spec_ranges()),
{
    let defs = comp.definitions();
    let ranges = comp.ranges();
    let ghost models = def_models(comp.spec_definitions());
    let mut total: u64 = 0;
    let mut i: usize = 0;
    while i < defs.len()
        invariant
            i <= defs@.len(),
            defs@ == comp.spec_definitions(),
            ranges@ == comp.spec_ranges(),
            models == def_models(defs@),
            forall|k: int| 0 <= k < i ==> def_cost_fits(#[trigger] defs@[k]@, ranges@),
            total == defs_cost(models.take(i as int), ranges@),
        decreases defs@.len() - i,
    {
        let c = match checked_def_cost(&defs[i], ranges) {
            Some(c) => c,
            None => return None,
        };
        proof {
            assert(models.take(i + 1).drop_last() =~= models.take(i as int));
            assert(models.take(i + 1).last() == defs@[i as int]@);
        }
        match total.checked_add(c) {
            Some(t) => total = t,
            None => {
                proof {
                    assert forall|j: int| 0 <= j < models.len() implies def_cost_spec(#[trigger] models[j], ranges@) >= 0 by {
                        lemma_def_cost_nonneg(models[j], ranges@);
                    }
                    lemma_defs_cost_monotone(models, ranges@, i + 1);
                }
                return None;
            },
        }
        i = i + 1;
    }
    assert(models.take(defs@.len() as int) =~= models);
    Some(total)
}

} // verus!
