//! Greedy optimisation: repeatedly apply the most profitable factorization of
//! the leftmost definition that has one.
use vstd::prelude::*;

use crate::constr::{factorization_shape, factorizations, Factorization};
use crate::parenth::{try_parenthesize, ParenthResult};
use crate::repr::{
    def_models, gen_models, term_models, DefModel, Index, InfoModel, RangeId, SymGenerator, TensorComputation,
    TensorDef, TensorId, TermModel,
};
use crate::sort::{stable_sort_order, SortKey};

verus! {

/// The ranges of a list of indices.
pub open spec fn slot_ranges(idxs: Seq<Index>) -> Seq<RangeId> {
    idxs.map_values(|i: Index| i.range)
}

/// The terms of `terms[..k]` whose positions are not in `consumed`, in order.
pub open spec fn kept_terms(terms: Seq<TermModel>, consumed: Seq<usize>, k: int) -> Seq<TermModel>
    decreases k,
{
    if k <= 0 {
        seq![]
    } else if consumed.contains((k - 1) as usize) {
        kept_terms(terms, consumed, k - 1)
    } else {
        kept_terms(terms, consumed, k - 1).push(terms[k - 1])
    }
}

/// The definition `d` with the consumed terms replaced by `replacement`.
pub open spec fn factored_def(d: DefModel, fact: Factorization) -> DefModel {
    DefModel {
        base: d.base,
        ext_indices: d.ext_indices,
        terms: kept_terms(d.terms, fact.terms_consumed@, d.terms.len() as int).push(fact.replacement_term@),
    }
}

fn ranges_of_indices(idxs: &Vec<Index>) -> (r: Vec<RangeId>)
    ensures
        r@ == slot_ranges(idxs@),
{
    let mut out: Vec<RangeId> = Vec::new();
    let mut i: usize = 0;
    while i < idxs.len()
        invariant
            i <= idxs@.len(),
            out@ == slot_ranges(idxs@.take(i as int)),
        decreases idxs.len() - i,
    {
        out.push(idxs[i].range);
        i = i + 1;
        assert(out@ =~= slot_ranges(idxs@.take(i as int)));
    }
    assert(idxs@.take(idxs@.len() as int) =~= idxs@);
    out
}

fn usize_listed(list: &Vec<usize>, x: usize) -> (r: bool)
    ensures
        r == list@.contains(x),
{
    let mut i: usize = 0;
    while i < list.len()
        invariant
            i <= list@.len(),
            forall|k: int| 0 <= k < i ==> list@[k] != x,
        decreases list.len() - i,
    {
        if list[i] == x {
            return true;
        }
        i = i + 1;
    }
    false
}

/// Apply a factorization to a TensorComputation.
///
/// Replaces the definition at `def_index` with the factored version:
/// intermediates are inserted before it, consumed terms are removed,
/// and the replacement term is added.
///
/// Also registers the intermediate tensors in the computation.
pub fn apply_factorization(comp: &mut TensorComputation, def_index: usize, fact: &Factorization)
    requires
        def_index < old(comp).spec_definitions().len(),
    ensures
        final(comp).spec_ranges() == old(comp).spec_ranges(),
        final(comp).spec_tensors().len() == old(comp).spec_tensors().len() + fact.intermediates@.len(),
        forall|k: int| 0 <= k < old(comp).spec_tensors().len() ==> #[trigger] final(comp).spec_tensors()[k] == old(comp).spec_tensors()[k],
        forall|k: int| 0 <= k < fact.intermediates@.len() ==> (#[trigger] final(comp).spec_tensors()[old(comp).spec_tensors().len() + k])@ == (InfoModel {
            id: TensorId((old(comp).spec_tensors().len() + k) as u32),
            slots: slot_ranges(fact.intermediates@[k].ext_indices@),
            symmetry: Seq::<crate::repr::GenModel>::empty(),
        }),
        def_models(final(comp).spec_definitions()) == def_models(old(comp).spec_definitions().take(def_index as int))
            + def_models(fact.intermediates@)
            + seq![factored_def(old(comp).spec_definitions()[def_index as int]@, *fact)]
            + def_models(old(comp).spec_definitions().skip(def_index + 1)),
{
    let ghost old_tensors = comp.spec_tensors();
    let ghost old_defs = comp.spec_definitions();
    // Register intermediate tensors
    let mut i: usize = 0;
    while i < fact.intermediates.len()
        invariant
            i <= fact.intermediates@.len(),
            comp.spec_ranges() == old(comp).spec_ranges(),
            comp.spec_definitions() == old_defs,
            old_defs == old(comp).spec_definitions(),
            old_tensors == old(comp).spec_tensors(),
            comp.spec_tensors().len() == old_tensors.len() + i,
            forall|k: int| 0 <= k < old_tensors.len() ==> #[trigger] comp.spec_tensors()[k] == old_tensors[k],
            forall|k: int| 0 <= k < i ==> (#[trigger] comp.spec_tensors()[old_tensors.len() + k])@ == (InfoModel {
                id: TensorId((old_tensors.len() + k) as u32),
                slots: slot_ranges(fact.intermediates@[k].ext_indices@),
                symmetry: Seq::<crate::repr::GenModel>::empty(),
            }),
        decreases fact.intermediates.len() - i,
    {
        let slots = ranges_of_indices(&fact.intermediates[i].ext_indices);
        let ghost before = comp.spec_tensors();
        let empty: Vec<SymGenerator> = Vec::new();
        comp.add_tensor(slots.as_slice(), empty);
        proof {
            assert(gen_models(empty@) =~= Seq::<crate::repr::GenModel>::empty());
            assert forall|k: int| 0 <= k < old_tensors.len() implies #[trigger] comp.spec_tensors()[k] == old_tensors[k] by {
                assert(comp.spec_tensors().drop_last()[k] == before[k]);
            }
            assert forall|k: int| 0 <= k < i + 1 implies (#[trigger] comp.spec_tensors()[old_tensors.len() + k])@ == (InfoModel {
                id: TensorId((old_tensors.len() + k) as u32),
                slots: slot_ranges(fact.intermediates@[k].ext_indices@),
                symmetry: Seq::<crate::repr::GenModel>::empty(),
            }) by {
                if k < i {
                    assert(comp.spec_tensors().drop_last()[old_tensors.len() + k] == before[old_tensors.len() + k]);
                }
            }
        }
        i = i + 1;
    }
    let defs = comp.definitions_mut();
    let mut d = defs.remove(def_index);
    // Keep the terms that are not consumed, then add the replacement.
    let ghost dm = d@;
    let mut new_terms: Vec<crate::repr::Term> = Vec::new();
    let mut t: usize = 0;
    while t < d.terms.len()
        invariant
            t <= d.terms@.len(),
            dm == d@,
            term_models(new_terms@) == kept_terms(dm.terms, fact.terms_consumed@, t as int),
        decreases d.terms.len() - t,
    {
        if !usize_listed(&fact.terms_consumed, t) {
            let ghost prev = new_terms@;
            new_terms.push(d.terms[t].clone());
            assert(term_models(new_terms@) =~= term_models(prev).push(dm.terms[t as int]));
        }
        t = t + 1;
    }
    let ghost prev = new_terms@;
    new_terms.push(fact.replacement_term.clone());
    assert(term_models(new_terms@) =~= term_models(prev).push(fact.replacement_term@));
    d.terms = new_terms;
    assert(d@ == factored_def(dm, *fact));
    defs.insert(def_index, d);
    // Insert intermediate definitions before the target definition
    let ghost base = defs@;
    let mut i: usize = 0;
    while i < fact.intermediates.len()
        invariant
            i <= fact.intermediates@.len(),
            def_index < base.len(),
            defs@.len() == base.len() + i,
            base.len() == old_defs.len(),
            def_models(base) == def_models(old_defs.take(def_index as int)) + seq![factored_def(old_defs[def_index as int]@, *fact)]
                + def_models(old_defs.skip(def_index + 1)),
            def_models(defs@) == def_models(old_defs.take(def_index as int)) + def_models(fact.intermediates@.take(i as int))
                + seq![factored_def(old_defs[def_index as int]@, *fact)] + def_models(old_defs.skip(def_index + 1)),
        decreases fact.intermediates.len() - i,
    {
        let ghost before = defs@;
        let item = fact.intermediates[i].clone();
        let dl = defs.len();
        assert(def_index + i < dl);
        defs.insert(def_index + i, item);
        proof {
            let pre = def_models(old_defs.take(def_index as int));
            let mid = def_models(fact.intermediates@.take(i as int));
            let mid2 = def_models(fact.intermediates@.take(i + 1));
            assert(mid2 =~= mid.push(fact.intermediates@[i as int]@));
            assert(def_models(defs@) =~= def_models(before).insert(def_index + i, item@));
            assert(pre.len() == def_index);
            assert(def_models(defs@) =~= pre + mid2 + seq![factored_def(old_defs[def_index as int]@, *fact)]
                + def_models(old_defs.skip(def_index + 1)));
        }
        i = i + 1;
    }
    proof {
        assert(fact.intermediates@.take(fact.intermediates@.len() as int) =~= fact.intermediates@);
    }
}

fn indices_in_bounds_exec(ranges: &[crate::repr::Range], idxs: &Vec<Index>) -> (r: bool)
    ensures
        r == crate::cost::indices_in_bounds(ranges@, idxs@),
{
    let mut k: usize = 0;
    while k < idxs.len()
        invariant
            k <= idxs@.len(),
            forall|m: int| 0 <= m < k ==> (#[trigger] idxs@[m]).range.0 < ranges@.len(),
        decreases idxs.len() - k,
    {
        if idxs[k].range.0 as usize >= ranges.len() {
            return false;
        }
        k = k + 1;
    }
    true
}

/// Whether the index information of `term` can be computed.
fn parenthesize_inputs_ok(term: &crate::repr::Term, ext: &Vec<Index>, ranges: &[crate::repr::Range]) -> (r: bool)
    ensures
        r == crate::parenth::index_info_inputs_ok(term@, ext@, ranges@),
{
    term.factors.len() < 64 && term.sum_indices.len() <= 64 && ext.len() <= 64 && indices_in_bounds_exec(
        ranges,
        &term.sum_indices,
    ) && indices_in_bounds_exec(ranges, ext)
}

impl SortKey for Factorization {
    open spec fn spec_le(self, other: Self) -> bool {
        self.saving >= other.saving
    }

    proof fn lemma_le_total(a: Self, b: Self) {
    }

    proof fn lemma_le_trans(a: Self, b: Self, c: Self) {
    }

    fn exec_le(&self, other: &Self) -> (r: bool) {
        self.saving >= other.saving
    }
}

/// Find the leftmost TensorDef (starting from `start_from`) that has
/// profitable factorizations. Returns all of them sorted by saving descending.
/// A definition whose terms cannot be parenthesized or whose graphs cannot
/// be built without overflow or a missing lookup offers none.
pub fn next_decision(comp: &TensorComputation, start_from: usize) -> (r: Option<(usize, Vec<Factorization>)>)
    ensures
        r matches Some((i, fs)) ==> start_from <= i < comp.spec_definitions().len() && fs@.len() > 0
            && comp.spec_definitions()[i as int].terms@.len() >= 2
            && (forall|k: int| 0 <= k < fs@.len() ==> (#[trigger] fs@[k]).saving > 0)
            && (forall|a: int, b: int| 0 <= a < b < fs@.len() ==> (#[trigger] fs@[a]).saving >= (#[trigger] fs@[b]).saving)
            && (forall|k: int| 0 <= k < fs@.len() ==> factorization_shape(
                #[trigger] fs@[k],
                TensorId(comp.spec_tensors().len() as u32),
            )),
{
    let defs = comp.definitions();
    let mut i: usize = start_from;
    while i < defs.len()
        invariant
            defs@ == comp.spec_definitions(),
            start_from <= i,
        decreases defs.len() - i,
    {
        let def = &defs[i];
        if def.terms.len() >= 2 {
            let mut prs: Vec<ParenthResult> = Vec::new();
            let mut ok = true;
            let mut t: usize = 0;
            while t < def.terms.len()
                invariant
                    t <= def.terms@.len(),
                decreases def.terms.len() - t,
            {
                if parenthesize_inputs_ok(&def.terms[t], &def.ext_indices, comp.ranges()) {
                    match try_parenthesize(&def.terms[t], def.ext_indices.as_slice(), comp.ranges()) {
                        Some(pr) => prs.push(pr),
                        None => {
                            ok = false;
                        },
                    }
                } else {
                    ok = false;
                }
                t = t + 1;
            }
            if ok {
                let next_id = comp.next_tensor_id();
                match factorizations(def, prs.as_slice(), comp, next_id) {
                    Some(facts) => {
                        let mut profitable: Vec<Factorization> = Vec::new();
                        let mut k: usize = 0;
                        while k < facts.len()
                            invariant
                                k <= facts@.len(),
                                forall|m: int| 0 <= m < profitable@.len() ==> (#[trigger] profitable@[m]).saving > 0,
                                forall|m: int| 0 <= m < profitable@.len() ==> factorization_shape(#[trigger] profitable@[m], next_id),
                                forall|m: int| 0 <= m < facts@.len() ==> factorization_shape(#[trigger] facts@[m], next_id),
                            decreases facts.len() - k,
                        {
                            if facts[k].saving > 0 {
                                profitable.push(facts[k].clone());
                            }
                            k = k + 1;
                        }
                        if profitable.len() > 0 {
                            let order = stable_sort_order(&profitable);
                            let mut sorted: Vec<Factorization> = Vec::new();
                            let mut k: usize = 0;
                            while k < order.len()
                                invariant
                                    k <= order@.len(),
                                    crate::sort::is_stable_sort_order(profitable@, order@),
                                    forall|m: int| 0 <= m < profitable@.len() ==> (#[trigger] profitable@[m]).saving > 0,
                                    sorted@.len() == k,
                                    forall|m: int| 0 <= m < k ==> (#[trigger] sorted@[m]).saving == profitable@[order@[m] as int].saving,
                                    forall|m: int| 0 <= m < profitable@.len() ==> factorization_shape(#[trigger] profitable@[m], next_id),
                                    forall|m: int| 0 <= m < k ==> factorization_shape(#[trigger] sorted@[m], next_id),
                                decreases order.len() - k,
                            {
                                sorted.push(profitable[order[k]].clone());
                                k = k + 1;
                            }
                            proof {
                                assert forall|a: int, b: int| 0 <= a < b < sorted@.len() implies (#[trigger] sorted@[a]).saving >= (#[trigger] sorted@[b]).saving by {
                                    assert(profitable@[order@[a] as int].spec_le(profitable@[order@[b] as int]));
                                }
                            }
                            return Some((i, sorted));
                        }
                    },
                    None => {},
                }
            }
        }
        i = i + 1;
    }
    None
}

/// Greedy optimization: repeatedly find and apply the best factorization
/// for the leftmost TensorDef with profitable bicliques, until none remain.
///
/// Returns the number of factorizations applied.
pub fn greedy_optimize(comp: &mut TensorComputation) -> (r: usize)
    ensures
        final(comp).spec_ranges() == old(comp).spec_ranges(),
        final(comp).spec_tensors().len() >= old(comp).spec_tensors().len(),
        forall|k: int| 0 <= k < old(comp).spec_tensors().len() ==> #[trigger] final(comp).spec_tensors()[k] == old(comp).spec_tensors()[k],
        r == 0 ==> *final(comp) == *old(comp),
{
    let mut count: usize = 0;
    let mut start_from: usize = 0;
    // The counter cannot pass `usize::MAX`; each round applies one factorization.
    while count < usize::MAX
        invariant
            comp.spec_ranges() == old(comp).spec_ranges(),
            comp.spec_tensors().len() >= old(comp).spec_tensors().len(),
            forall|k: int| 0 <= k < old(comp).spec_tensors().len() ==> #[trigger] comp.spec_tensors()[k] == old(comp).spec_tensors()[k],
            count == 0 ==> *comp == *old(comp),
        decreases usize::MAX - count,
    {
        match next_decision(comp, start_from) {
            Some((def_idx, facts)) => {
                let ghost before = comp.spec_tensors();
                apply_factorization(comp, def_idx, &facts[0]);
                proof {
                    assert forall|k: int| 0 <= k < old(comp).spec_tensors().len() implies #[trigger] comp.spec_tensors()[k] == old(comp).spec_tensors()[k] by {
                        assert(comp.spec_tensors()[k] == before[k]);
                    }
                }
                count = count + 1;
                start_from = def_idx;
            },
            None => break,
        }
    }
    count
}


/// A position of the factorisation search: the computation so far, the
/// definition where the next decision is taken, and whether no decision is
/// left.
#[derive(Clone)]
pub struct SearchState {
    pub comp: TensorComputation,
    pub def_idx: usize,
    pub terminal: bool,
}

/// A search position is consistent: unless it is terminal, its decision
/// definition exists.
pub open spec fn search_state_ok(st: &SearchState) -> bool {
    !st.terminal ==> st.def_idx < st.comp.spec_definitions().len()
}

impl SearchState {
    /// The search position of `comp`, deciding from definition `start_from`
    /// on: at the first definition that offers a profitable factorisation,
    /// or terminal (at definition zero) when none does.
    pub fn new(comp: TensorComputation, start_from: usize) -> (r: Self)
        ensures
            r.comp == comp,
            search_state_ok(&r),
            !r.terminal ==> start_from <= r.def_idx,
            r.terminal ==> r.def_idx == 0,
    {
        match next_decision(&comp, start_from) {
            Some((def_idx, _)) => SearchState { comp, def_idx, terminal: false },
            None => SearchState { comp, def_idx: 0, terminal: true },
        }
    }

    /// The factorisations offered at this position (none when it is
    /// terminal), by saving, largest first.
    pub fn available_actions(&self) -> (r: Vec<Factorization>)
        ensures
            self.terminal ==> r@.len() == 0,
            forall|k: int| 0 <= k < r@.len() ==> factorization_shape(
                #[trigger] r@[k],
                TensorId(self.comp.spec_tensors().len() as u32),
            ),
            forall|a: int, b: int| 0 <= a < b < r@.len() ==> (#[trigger] r@[a]).saving >= (#[trigger] r@[b]).saving,
    {
        if self.terminal {
            return Vec::new();
        }
        match next_decision(&self.comp, self.def_idx) {
            Some((_, facts)) => facts,
            None => Vec::new(),
        }
    }

    /// Install `action` at the decision definition, then move to the next
    /// definition (from this one on) that offers a profitable
    /// factorisation, or become terminal.
    pub fn apply_action(&mut self, action: &Factorization)
        requires
            !old(self).terminal,
            search_state_ok(old(self)),
        ensures
            search_state_ok(final(self)),
            final(self).comp.spec_ranges() == old(self).comp.spec_ranges(),
            final(self).comp.spec_tensors().len() == old(self).comp.spec_tensors().len() + action.intermediates@.len(),
            def_models(final(self).comp.spec_definitions()) == def_models(
                old(self).comp.spec_definitions().take(old(self).def_idx as int),
            ) + def_models(action.intermediates@) + seq![factored_def(
                old(self).comp.spec_definitions()[old(self).def_idx as int]@,
                *action,
            )] + def_models(old(self).comp.spec_definitions().skip(old(self).def_idx + 1)),
            !final(self).terminal ==> old(self).def_idx <= final(self).def_idx,
            final(self).terminal ==> final(self).def_idx == old(self).def_idx,
    {
        apply_factorization(&mut self.comp, self.def_idx, action);
        match next_decision(&self.comp, self.def_idx) {
            Some((idx, _)) => self.def_idx = idx,
            None => self.terminal = true,
        }
    }

    /// Whether no decision is left.
    pub fn is_terminal(&self) -> (r: bool)
        ensures
            r == self.terminal,
    {
        self.terminal
    }
}

} // verus!
