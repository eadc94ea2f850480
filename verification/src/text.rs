//! Text forms of factors, terms, definitions and computations.
use vstd::prelude::*;
use vstd::string::StringExecFns;

use crate::message::{append_i64, append_u64, decimal, int_text};
use crate::rational::Rational;
use crate::repr::{def_models, DefModel, Factor, FactorModel, Index, IndexId, TensorComputation, TensorDef, Term, TermModel};

verus! {

/// The texts `parts`, with `sep` between consecutive ones.
pub open spec fn joined(parts: Seq<Seq<char>>, sep: Seq<char>) -> Seq<char>
    decreases parts.len(),
{
    if parts.len() == 0 {
        Seq::empty()
    } else if parts.len() == 1 {
        parts[0]
    } else {
        joined(parts.drop_last(), sep) + sep + parts.last()
    }
}

proof fn lemma_joined_step(parts: Seq<Seq<char>>, sep: Seq<char>, k: int)
    requires
        0 <= k < parts.len(),
    ensures
        joined(parts.take(k + 1), sep) == (if k == 0 { parts[0] } else { joined(parts.take(k), sep) + sep + parts[k] }),
{
    assert(parts.take(k + 1).drop_last() =~= parts.take(k));
}

/// Index ids in decimal, separated by ", ".
pub open spec fn ids_text(ids: Seq<IndexId>) -> Seq<char> {
    joined(ids.map_values(|i: IndexId| decimal(i.0 as nat)), seq![',', ' '])
}

/// The ids of indices in decimal, separated by ", ".
pub open spec fn index_ids_text(idxs: Seq<Index>) -> Seq<char> {
    ids_text(idxs.map_values(|i: Index| i.id))
}

/// A coefficient: its numerator, then `/` and its denominator unless that
/// is one.
pub open spec fn rational_text(c: Rational) -> Seq<char> {
    if c.den() == 1 {
        int_text(c.num())
    } else {
        int_text(c.num()) + seq!['/'] + decimal(c.den() as nat)
    }
}

/// A factor: its tensor id, then its index ids in brackets.
pub open spec fn factor_text(f: FactorModel) -> Seq<char> {
    decimal(f.tensor.0 as nat) + seq!['['] + ids_text(f.indices) + seq![']']
}

/// A term: the summation indices after a capital sigma (when there are
/// any), the coefficient unless it is one, then the factors joined by
/// " * "; a term of no factors, coefficient one and no summation reads "1".
pub open spec fn term_text(t: TermModel) -> Seq<char> {
    let one = t.coeff.num() == 1 && t.coeff.den() == 1;
    let sums = if t.sum_indices.len() == 0 {
        Seq::empty()
    } else {
        seq!['\u{3a3}', '['] + index_ids_text(t.sum_indices) + seq![']', ' ']
    };
    let coeff = if one {
        Seq::empty()
    } else if t.factors.len() == 0 {
        rational_text(t.coeff)
    } else {
        rational_text(t.coeff) + seq![' ', '*', ' ']
    };
    let body = if t.factors.len() == 0 {
        if one && t.sum_indices.len() == 0 {
            seq!['1']
        } else {
            Seq::empty()
        }
    } else {
        joined(t.factors.map_values(|f: FactorModel| factor_text(f)), seq![' ', '*', ' '])
    };
    sums + coeff + body
}

/// A definition: its tensor id, its external index ids in brackets, " = ",
/// then its terms joined by " + " (or "0" when it has none).
pub open spec fn def_text(d: DefModel) -> Seq<char> {
    let rhs = if d.terms.len() == 0 {
        seq!['0']
    } else {
        joined(d.terms.map_values(|t: TermModel| term_text(t)), seq![' ', '+', ' '])
    };
    decimal(d.base.0 as nat) + seq!['['] + index_ids_text(d.ext_indices) + seq![']', ' ', '=', ' '] + rhs
}

/// A computation: its definitions, one per line.
pub open spec fn computation_text(defs: Seq<DefModel>) -> Seq<char> {
    joined(defs.map_values(|d: DefModel| def_text(d)), seq!['\n'])
}

#[verifier::loop_isolation(false)]
fn append_ids(s: &mut String, ids: &Vec<IndexId>)
    ensures
        final(s)@ == old(s)@ + ids_text(ids@),
{
    proof {
        reveal_strlit(", ");
        assert(", "@ =~= seq![',', ' ']);
    }
    let ghost before = s@;
    let ghost sep = seq![',', ' '];
    let ghost parts = ids@.map_values(|i: IndexId| decimal(i.0 as nat));
    let mut k: usize = 0;
    while k < ids.len()
        invariant
            k <= ids@.len(),
            parts == ids@.map_values(|i: IndexId| decimal(i.0 as nat)),
            sep == seq![',', ' '],
            s@ == before + joined(parts.take(k as int), sep),
        decreases ids.len() - k,
    {
        let ghost mid = s@;
        if k > 0 {
            s.append(", ");
        }
        append_u64(s, ids[k].0 as u64);
        proof {
            lemma_joined_step(parts, sep, k as int);
            assert(parts[k as int] == decimal(ids@[k as int].0 as nat));
            if k == 0 {
                assert(parts.take(0) =~= Seq::<Seq<char>>::empty());
            }
            lemma_append_part(before, joined(parts.take(k as int), sep), sep, parts[k as int], mid, s@, k > 0);
        }
        k = k + 1;
    }
    assert(parts.take(ids@.len() as int) =~= parts);
}

fn append_index_ids(s: &mut String, idxs: &Vec<Index>)
    ensures
        final(s)@ == old(s)@ + index_ids_text(idxs@),
{
    let mut ids: Vec<IndexId> = Vec::new();
    let mut k: usize = 0;
    while k < idxs.len()
        invariant
            k <= idxs@.len(),
            ids@ == idxs@.take(k as int).map_values(|i: Index| i.id),
        decreases idxs.len() - k,
    {
        ids.push(idxs[k].id);
        k = k + 1;
        assert(ids@ =~= idxs@.take(k as int).map_values(|i: Index| i.id));
    }
    assert(idxs@.take(idxs@.len() as int) =~= idxs@);
    append_ids(s, &ids);
}

fn append_rational(s: &mut String, c: Rational)
    ensures
        final(s)@ == old(s)@ + rational_text(c),
{
    let ghost before = s@;
    append_i64(s, c.numer());
    let d = c.denom();
    if d != 1 {
        proof {
            reveal_strlit("/");
        }
        s.append("/");
        append_u64(s, d as u64);
    }
    assert(s@ =~= before + rational_text(c));
}

fn append_factor(s: &mut String, f: &Factor)
    ensures
        final(s)@ == old(s)@ + factor_text(f@),
{
    proof {
        reveal_strlit("[");
        reveal_strlit("]");
    }
    let ghost before = s@;
    append_u64(s, f.tensor.0 as u64);
    s.append("[");
    append_ids(s, &f.indices);
    s.append("]");
    assert(s@ =~= before + factor_text(f@));
}

fn append_term(s: &mut String, t: &Term)
    ensures
        final(s)@ == old(s)@ + term_text(t@),
{
    proof {
        reveal_strlit("\u{3a3}[");
        reveal_strlit("] ");
        reveal_strlit(" * ");
        reveal_strlit("1");
    }
    let ghost before = s@;
    let one = t.coeff.is_one();
    if t.sum_indices.len() > 0 {
        s.append("\u{3a3}[");
        append_index_ids(s, &t.sum_indices);
        s.append("] ");
    }
    let ghost after_sums = s@;
    if !one {
        append_rational(s, t.coeff);
        if t.factors.len() > 0 {
            s.append(" * ");
        }
    }
    let ghost after_coeff = s@;
    if t.factors.len() == 0 {
        if one && t.sum_indices.len() == 0 {
            s.append("1");
        }
    } else {
        append_factors(s, &t.factors);
        assert(t@.factors.map_values(|f: FactorModel| factor_text(f)) =~= t.factors@.map_values(|f: Factor| factor_text(f@)));
    }
    assert(s@ =~= before + term_text(t@));
}

fn append_def(s: &mut String, d: &TensorDef)
    ensures
        final(s)@ == old(s)@ + def_text(d@),
{
    proof {
        reveal_strlit("[");
        reveal_strlit("] = ");
        reveal_strlit("0");
        reveal_strlit(" + ");
    }
    let ghost before = s@;
    append_u64(s, d.base.0 as u64);
    s.append("[");
    append_index_ids(s, &d.ext_indices);
    s.append("] = ");
    let ghost head = s@;
    if d.terms.len() == 0 {
        s.append("0");
    } else {
        append_terms(s, &d.terms);
        assert(d@.terms.map_values(|t: TermModel| term_text(t)) =~= d.terms@.map_values(|t: Term| term_text(t@)));
    }
    assert(s@ =~= before + def_text(d@));
}

/// Appending the next part (after the separator, unless it is the first)
/// extends the joined text.
proof fn lemma_append_part(
    before: Seq<char>,
    done: Seq<char>,
    sep: Seq<char>,
    part: Seq<char>,
    mid: Seq<char>,
    after: Seq<char>,
    not_first: bool,
)
    requires
        mid == before + done,
        not_first ==> after == mid + sep + part,
        !not_first ==> after == mid + part,
        !not_first ==> done.len() == 0,
    ensures
        after == before + (if not_first { done + sep + part } else { part }),
{
    if not_first {
        assert(after =~= before + (done + sep + part));
    } else {
        assert(after =~= before + part);
    }
}

#[verifier::loop_isolation(false)]
fn append_factors(s: &mut String, fs: &Vec<Factor>)
    ensures
        final(s)@ == old(s)@ + joined(fs@.map_values(|f: Factor| factor_text(f@)), seq![' ', '*', ' ']),
{
    proof {
        reveal_strlit(" * ");
        assert(" * "@ =~= seq![' ', '*', ' ']);
    }
    let ghost before = s@;
    let ghost sep = seq![' ', '*', ' '];
    let ghost parts = fs@.map_values(|f: Factor| factor_text(f@));
    let mut k: usize = 0;
    while k < fs.len()
        invariant
            k <= fs@.len(),
            parts == fs@.map_values(|f: Factor| factor_text(f@)),
            sep == seq![' ', '*', ' '],
            s@ == before + joined(parts.take(k as int), sep),
        decreases fs.len() - k,
    {
        let ghost mid = s@;
        if k > 0 {
            s.append(" * ");
        }
        append_factor(s, &fs[k]);
        proof {
            lemma_joined_step(parts, sep, k as int);
            if k == 0 {
                assert(parts.take(0) =~= Seq::<Seq<char>>::empty());
            }
            lemma_append_part(before, joined(parts.take(k as int), sep), sep, parts[k as int], mid, s@, k > 0);
        }
        k = k + 1;
    }
    assert(parts.take(fs@.len() as int) =~= parts);
}

#[verifier::loop_isolation(false)]
fn append_terms(s: &mut String, ts: &Vec<Term>)
    ensures
        final(s)@ == old(s)@ + joined(ts@.map_values(|t: Term| term_text(t@)), seq![' ', '+', ' ']),
{
    proof {
        reveal_strlit(" + ");
        assert(" + "@ =~= seq![' ', '+', ' ']);
    }
    let ghost before = s@;
    let ghost sep = seq![' ', '+', ' '];
    let ghost parts = ts@.map_values(|t: Term| term_text(t@));
    let mut k: usize = 0;
    while k < ts.len()
        invariant
            k <= ts@.len(),
            parts == ts@.map_values(|t: Term| term_text(t@)),
            sep == seq![' ', '+', ' '],
            s@ == before + joined(parts.take(k as int), sep),
        decreases ts.len() - k,
    {
        let ghost mid = s@;
        if k > 0 {
            s.append(" + ");
        }
        append_term(s, &ts[k]);
        proof {
            lemma_joined_step(parts, sep, k as int);
            if k == 0 {
                assert(parts.take(0) =~= Seq::<Seq<char>>::empty());
            }
            lemma_append_part(before, joined(parts.take(k as int), sep), sep, parts[k as int], mid, s@, k > 0);
        }
        k = k + 1;
    }
    assert(parts.take(ts@.len() as int) =~= parts);
}

impl Factor {
    /// The factor as text, e.g. "3[0, 2]".
    pub fn to_string(&self) -> (r: String)
        ensures
            r@ == factor_text(self@),
    {
        let mut s = String::new();
        append_factor(&mut s, self);
        assert(s@ =~= factor_text(self@));
        s
    }
}

impl Term {
    /// The term as text (see `term_text`).
    pub fn to_string(&self) -> (r: String)
        ensures
            r@ == term_text(self@),
    {
        let mut s = String::new();
        append_term(&mut s, self);
        assert(s@ =~= term_text(self@));
        s
    }
}

impl TensorDef {
    /// The definition as text, e.g. "4[0, 1] = 0[0, 1] + 1[0, 1]".
    pub fn to_string(&self) -> (r: String)
        ensures
            r@ == def_text(self@),
    {
        let mut s = String::new();
        append_def(&mut s, self);
        assert(s@ =~= def_text(self@));
        s
    }
}

impl TensorComputation {
    /// The computation as text: its definitions, one per line.
    #[verifier::loop_isolation(false)]
    pub fn to_string(&self) -> (r: String)
        ensures
            r@ == computation_text(def_models(self.spec_definitions())),
    {
        proof {
            reveal_strlit("\n");
            assert("\n"@ =~= seq!['\n']);
        }
        let defs = self.definitions();
        let mut s = String::new();
        let ghost sep = seq!['\n'];
        let ghost parts = def_models(defs@).map_values(|d: DefModel| def_text(d));
        let mut k: usize = 0;
        while k < defs.len()
            invariant
                k <= defs@.len(),
                defs@ == self.spec_definitions(),
                parts == def_models(defs@).map_values(|d: DefModel| def_text(d)),
                parts.len() == defs@.len(),
                sep == seq!['\n'],
                s@ == joined(parts.take(k as int), sep),
            decreases defs.len() - k,
        {
            let ghost mid = s@;
            if k > 0 {
                s.append("\n");
            }
            append_def(&mut s, &defs[k]);
            proof {
                lemma_joined_step(parts, sep, k as int);
                assert(parts[k as int] == def_text(defs@[k as int]@));
                if k == 0 {
                    assert(parts.take(0) =~= Seq::<Seq<char>>::empty());
                }
                assert(mid =~= Seq::<char>::empty() + joined(parts.take(k as int), sep));
                lemma_append_part(Seq::empty(), joined(parts.take(k as int), sep), sep, parts[k as int], mid, s@, k > 0);
                assert(Seq::<char>::empty() + joined(parts.take(k + 1), sep) =~= joined(parts.take(k + 1), sep));
            }
            k = k + 1;
        }
        assert(parts.take(defs@.len() as int) =~= parts);
        s
    }
}

} // verus!
