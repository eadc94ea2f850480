//! Enumeration helpers: permutations in lexicographic order, mixed-radix
//! choice vectors, and the closure of a set of slot permutations.
//!
//! Termination of the enumerations rests on one counting argument: a
//! sequence of length `L` with entries below `b` is a digit string in base
//! `b`, so its value (`rank`) lies in `[0, b^L)`, and a lexicographic step
//! up strictly increases it.
use vstd::prelude::*;

use crate::repr::{gen_models, permute, perm_in_bounds, sym_combine, GenModel, SymAction, SymGenerator};

verus! {

/// `b` to the power `e`.
pub open spec fn base_pow(b: int, e: nat) -> int
    decreases e,
{
    if e == 0 {
        1
    } else {
        b * base_pow(b, (e - 1) as nat)
    }
}

/// Every entry of `s` is below `b`.
pub open spec fn bounded(s: Seq<usize>, b: int) -> bool {
    forall|i: int| 0 <= i < s.len() ==> #[trigger] s[i] < b
}

/// The value of `s` read as a base-`b` numeral, most significant digit first.
pub open spec fn rank(s: Seq<usize>, b: int) -> int
    decreases s.len(),
{
    if s.len() == 0 {
        0
    } else {
        s[0] * base_pow(b, (s.len() - 1) as nat) + rank(s.drop_first(), b)
    }
}

/// `s` and `t` agree before position `p` and `s[p] < t[p]`.
pub open spec fn lex_lt_at(s: Seq<usize>, t: Seq<usize>, p: int) -> bool {
    &&& s.len() == t.len()
    &&& 0 <= p < s.len()
    &&& s[p] < t[p]
    &&& forall|i: int| 0 <= i < p ==> #[trigger] s[i] == t[i]
}

/// `s` comes strictly before `t` in lexicographic order (same length).
pub open spec fn lex_lt(s: Seq<usize>, t: Seq<usize>) -> bool {
    exists|p: int| #[trigger] lex_lt_at(s, t, p)
}

proof fn lemma_base_pow_pos(b: int, e: nat)
    requires
        b >= 1,
    ensures
        base_pow(b, e) >= 1,
    decreases e,
{
    if e > 0 {
        lemma_base_pow_pos(b, (e - 1) as nat);
        assert(b * base_pow(b, (e - 1) as nat) >= 1) by (nonlinear_arith)
            requires
                b >= 1,
                base_pow(b, (e - 1) as nat) >= 1,
        ;
    }
}

/// A bounded numeral of length `L` is in `[0, b^L)`.
pub proof fn lemma_rank_bound(s: Seq<usize>, b: int)
    requires
        b >= 1,
        bounded(s, b),
    ensures
        0 <= rank(s, b) < base_pow(b, s.len() as nat),
    decreases s.len(),
{
    if s.len() > 0 {
        let t = s.drop_first();
        assert(bounded(t, b)) by {
            assert forall|i: int| 0 <= i < t.len() implies #[trigger] t[i] < b by {
                assert(t[i] == s[i + 1]);
            }
        }
        lemma_rank_bound(t, b);
        let p = base_pow(b, (s.len() - 1) as nat);
        lemma_base_pow_pos(b, (s.len() - 1) as nat);
        let d = s[0] as int;
        let r = rank(t, b);
        assert(0 <= d * p + r < b * p) by (nonlinear_arith)
            requires
                0 <= d < b,
                0 <= r < p,
                p >= 1,
        ;
    }
}

/// A lexicographic step up strictly increases the rank.
pub proof fn lemma_rank_lex(s: Seq<usize>, t: Seq<usize>, b: int, p: int)
    requires
        b >= 1,
        bounded(s, b),
        bounded(t, b),
        lex_lt_at(s, t, p),
    ensures
        rank(s, b) < rank(t, b),
    decreases p,
{
    let s1 = s.drop_first();
    let t1 = t.drop_first();
    assert(bounded(s1, b)) by {
        assert forall|i: int| 0 <= i < s1.len() implies #[trigger] s1[i] < b by {
            assert(s1[i] == s[i + 1]);
        }
    }
    assert(bounded(t1, b)) by {
        assert forall|i: int| 0 <= i < t1.len() implies #[trigger] t1[i] < b by {
            assert(t1[i] == t[i + 1]);
        }
    }
    let w = base_pow(b, (s.len() - 1) as nat);
    lemma_base_pow_pos(b, (s.len() - 1) as nat);
    lemma_rank_bound(s1, b);
    lemma_rank_bound(t1, b);
    if p == 0 {
        let ds = s[0] as int;
        let dt = t[0] as int;
        let rs = rank(s1, b);
        let rt = rank(t1, b);
        assert(ds * w + rs < dt * w + rt) by (nonlinear_arith)
            requires
                0 <= ds < dt,
                0 <= rs < w,
                0 <= rt,
                w >= 1,
        ;
    } else {
        assert(s[0] == t[0]);
        assert(lex_lt_at(s1, t1, p - 1)) by {
            assert forall|i: int| 0 <= i < p - 1 implies #[trigger] s1[i] == t1[i] by {
                assert(s[i + 1] == t[i + 1]);
            }
        }
        lemma_rank_lex(s1, t1, b, p - 1);
    }
}

/// Bounded numerals of the same length with the same rank are equal.
pub proof fn lemma_rank_injective(s: Seq<usize>, t: Seq<usize>, b: int)
    requires
        b >= 1,
        bounded(s, b),
        bounded(t, b),
        s.len() == t.len(),
        rank(s, b) == rank(t, b),
    ensures
        s == t,
    decreases s.len(),
{
    if s.len() > 0 {
        let s1 = s.drop_first();
        let t1 = t.drop_first();
        assert(bounded(s1, b)) by {
            assert forall|i: int| 0 <= i < s1.len() implies #[trigger] s1[i] < b by {
                assert(s1[i] == s[i + 1]);
            }
        }
        assert(bounded(t1, b)) by {
            assert forall|i: int| 0 <= i < t1.len() implies #[trigger] t1[i] < b by {
                assert(t1[i] == t[i + 1]);
            }
        }
        if s[0] != t[0] {
            let p: int = 0;
            if s[0] < t[0] {
                lemma_rank_lex(s, t, b, p);
            } else {
                lemma_rank_lex(t, s, b, p);
            }
        } else {
            lemma_rank_injective(s1, t1, b);
            assert(s =~= t) by {
                assert forall|i: int| 0 <= i < s.len() implies s[i] == t[i] by {
                    if i > 0 {
                        assert(s[i] == s1[i - 1]);
                        assert(t[i] == t1[i - 1]);
                    }
                }
            }
        }
    }
}

/// Pairwise distinct bounded sequences of length `n` number at most `b^n`.
pub proof fn lemma_distinct_count(seqs: Seq<Seq<usize>>, n: nat, b: int)
    requires
        b >= 1,
        forall|i: int| 0 <= i < seqs.len() ==> (#[trigger] seqs[i]).len() == n && bounded(seqs[i], b),
        forall|i: int, j: int| 0 <= i < j < seqs.len() ==> #[trigger] seqs[i] != #[trigger] seqs[j],
    ensures
        seqs.len() <= base_pow(b, n),
{
    let ranks = seqs.map_values(|s: Seq<usize>| rank(s, b));
    assert(ranks.no_duplicates()) by {
        assert forall|i: int, j: int| 0 <= i < ranks.len() && 0 <= j < ranks.len() && i != j implies ranks[i] != ranks[j] by {
            assert(ranks[i] == rank(seqs[i], b));
            assert(ranks[j] == rank(seqs[j], b));
            assert(seqs[i].len() == n && bounded(seqs[i], b));
            assert(seqs[j].len() == n && bounded(seqs[j], b));
            if ranks[i] == ranks[j] {
                lemma_rank_injective(seqs[i], seqs[j], b);
                if i < j {
                    assert(seqs[i] != seqs[j]);
                } else {
                    assert(seqs[j] != seqs[i]);
                }
            }
        }
    }
    ranks.unique_seq_to_set();
    let range = vstd::set_lib::set_int_range(0, base_pow(b, n));
    assert(ranks.to_set().subset_of(range)) by {
        assert forall|x: int| ranks.to_set().contains(x) implies range.contains(x) by {
            let i = choose|i: int| 0 <= i < ranks.len() && ranks[i] == x;
            assert(ranks[i] == rank(seqs[i], b));
            assert(seqs[i].len() == n && bounded(seqs[i], b));
            lemma_rank_bound(seqs[i], b);
        }
    }
    lemma_base_pow_pos(b, n);
    vstd::set_lib::lemma_int_range(0, base_pow(b, n));
    vstd::set_lib::lemma_len_subset(ranks.to_set(), range);
}

// ---------------------------------------------------------------------------
// Lexicographic permutation steps
// ---------------------------------------------------------------------------

/// Every entry of `t` occurs in `s`.
pub open spec fn entries_from(t: Seq<usize>, s: Seq<usize>) -> bool {
    forall|i: int| 0 <= i < t.len() ==> exists|j: int| 0 <= j < s.len() && #[trigger] t[i] == s[j]
}

/// Rearrange `perm` into the next permutation in lexicographic order.
/// Returns `false`, leaving `perm` unchanged, when it is already the last
/// (non-increasing) arrangement.
pub fn next_permutation(perm: &mut Vec<usize>) -> (r: bool)
    ensures
        r ==> lex_lt(old(perm)@, final(perm)@),
        r ==> entries_from(final(perm)@, old(perm)@),
        r ==> (old(perm)@.no_duplicates() ==> final(perm)@.no_duplicates()),
        final(perm)@.len() == old(perm)@.len(),
        !r ==> final(perm)@ == old(perm)@,
        !r ==> forall|i: int, j: int| 0 <= i < j < old(perm)@.len() ==> old(perm)@[i] >= old(perm)@[j],
{
    let len = perm.len();
    if len <= 1 {
        return false;
    }
    let ghost s = perm@;
    let mut i: usize = len - 1;
    while i > 0 && perm[i - 1] >= perm[i]
        invariant
            0 <= i < len,
            len == perm@.len(),
            perm@ == s,
            forall|a: int, b: int| i <= a < b < len ==> perm@[a] >= perm@[b],
        decreases i,
    {
        proof {
            assert forall|a: int, b: int| i - 1 <= a < b < len implies perm@[a] >= perm@[b] by {
                if a == i - 1 && b > i {
                    assert(perm@[i as int] >= perm@[b]);
                }
            }
        }
        i = i - 1;
    }
    if i == 0 {
        return false;
    }
    let pivot = i - 1;
    let mut j: usize = len - 1;
    while perm[j] <= perm[pivot]
        invariant
            i <= j < len,
            pivot == i - 1,
            len == perm@.len(),
            perm@ == s,
            perm@[pivot as int] < perm@[i as int],
            forall|k: int| j < k < len ==> perm@[k] <= perm@[pivot as int],
        decreases j,
    {
        j = j - 1;
    }
    let a = perm[pivot];
    let b = perm[j];
    perm.set(pivot, b);
    perm.set(j, a);
    let ghost swapped = perm@;
    assert(swapped == s.update(pivot as int, s[j as int]).update(j as int, s[pivot as int]));
    // reverse perm[i..]
    let mut lo: usize = i;
    let mut hi: usize = len - 1;
    while lo < hi
        invariant
            i <= lo,
            hi < len,
            lo <= hi + 1,
            lo - i == len - 1 - hi,
            len == perm@.len(),
            forall|k: int| 0 <= k < i ==> perm@[k] == swapped[k],
            forall|k: int| lo <= k <= hi ==> perm@[k] == swapped[k],
            forall|k: int| i <= k < lo ==> perm@[k] == swapped[len - 1 - (k - i)],
            forall|k: int| hi < k < len ==> perm@[k] == swapped[len - 1 - (k - i)],
        decreases hi + 1 - lo,
    {
        let x = perm[lo];
        let y = perm[hi];
        perm.set(lo, y);
        perm.set(hi, x);
        lo = lo + 1;
        hi = hi - 1;
    }
    proof {
        assert(perm@[pivot as int] == swapped[pivot as int]);
        assert forall|k: int| 0 <= k < pivot implies #[trigger] s[k] == perm@[k] by {
            assert(perm@[k] == swapped[k]);
        }
        assert(lex_lt_at(s, perm@, pivot as int));
        assert forall|k: int| 0 <= k < perm@.len() implies exists|m: int| 0 <= m < s.len() && #[trigger] perm@[k] == s[m] by {
            let w = if k < i { k } else { len - 1 - (k - i) };
            assert(perm@[k] == swapped[w]);
            if w == pivot {
                assert(perm@[k] == s[j as int]);
            } else if w == j {
                assert(perm@[k] == s[pivot as int]);
            } else {
                assert(perm@[k] == s[w]);
            }
        }
        if s.no_duplicates() {
            assert forall|k1: int, k2: int| 0 <= k1 < perm@.len() && 0 <= k2 < perm@.len() && k1 != k2 implies perm@[k1]
                != perm@[k2] by {
                let w1 = if k1 < i { k1 } else { len - 1 - (k1 - i) };
                let w2 = if k2 < i { k2 } else { len - 1 - (k2 - i) };
                assert(perm@[k1] == swapped[w1]);
                assert(perm@[k2] == swapped[w2]);
                let v1 = if w1 == pivot { j as int } else if w1 == j { pivot as int } else { w1 };
                let v2 = if w2 == pivot { j as int } else if w2 == j { pivot as int } else { w2 };
                assert(swapped[w1] == s[v1]);
                assert(swapped[w2] == s[v2]);
                assert(v1 != v2);
            }
        }
    }
    true
}

/// Step a mixed-radix counter (`choice[k] < sizes[k]`, last position
/// fastest). Returns `false` when it wraps around to all zeros, or when there
/// are no positions.
pub fn advance_choice_vector(choice: &mut Vec<usize>, sizes: &Vec<usize>) -> (r: bool)
    requires
        old(choice)@.len() == sizes@.len(),
        forall|k: int| 0 <= k < sizes@.len() ==> #[trigger] old(choice)@[k] < sizes@[k],
    ensures
        final(choice)@.len() == sizes@.len(),
        forall|k: int| 0 <= k < sizes@.len() ==> #[trigger] final(choice)@[k] < sizes@[k],
        r ==> lex_lt(old(choice)@, final(choice)@),
        !r ==> forall|k: int| 0 <= k < sizes@.len() ==> #[trigger] final(choice)@[k] == 0,
{
    if choice.len() == 0 {
        return false;
    }
    let ghost s = choice@;
    let mut position: usize = choice.len();
    while position > 0
        invariant
            position <= choice@.len(),
            choice@.len() == sizes@.len(),
            forall|k: int| 0 <= k < position ==> #[trigger] choice@[k] == s[k],
            forall|k: int| position <= k < choice@.len() ==> #[trigger] choice@[k] == 0,
            forall|k: int| 0 <= k < sizes@.len() ==> #[trigger] choice@[k] < sizes@[k],
            forall|k: int| 0 <= k < sizes@.len() ==> #[trigger] s[k] < sizes@[k],
            s.len() == sizes@.len(),
            s == old(choice)@,
        decreases position,
    {
        let p = position - 1;
        let v = choice[p] + 1;
        if v < sizes[p] {
            choice.set(p, v);
            proof {
                assert(choice@[p as int] == v);
                assert forall|k: int| 0 <= k < p implies #[trigger] s[k] == choice@[k] by {}
                assert(lex_lt_at(s, choice@, p as int));
                assert(lex_lt(s, choice@));
            }
            return true;
        }
        choice.set(p, 0);
        position = p;
    }
    false
}

/// All permutations of `0..k`, from the identity up in lexicographic order.
pub fn lex_permutations(k: usize) -> (r: Vec<Vec<usize>>)
    ensures
        r@.len() >= 1,
        r@[0]@ == Seq::new(k as nat, |i: int| i as usize),
        forall|a: int| 0 <= a < r@.len() ==> (#[trigger] r@[a])@.len() == k && bounded(r@[a]@, k as int)
            && r@[a]@.no_duplicates(),
        forall|a: int| 0 < a < r@.len() ==> lex_lt(r@[a - 1]@, #[trigger] r@[a]@),
{
    let mut perm: Vec<usize> = Vec::new();
    let mut i: usize = 0;
    while i < k
        invariant
            i <= k,
            perm@ == Seq::new(i as nat, |x: int| x as usize),
        decreases k - i,
    {
        perm.push(i);
        i = i + 1;
        assert(perm@ =~= Seq::new(i as nat, |x: int| x as usize));
    }
    let mut out: Vec<Vec<usize>> = Vec::new();
    out.push(perm.clone());
    let ghost b: int = if k == 0 { 1 } else { k as int };
    proof {
        lemma_rank_bound(perm@, b);
    }
    loop
        invariant
            b >= 1,
            b >= k,
            perm@.len() == k,
            bounded(perm@, b),
            bounded(perm@, k as int),
            out@.len() >= 1,
            out@[0]@ == Seq::new(k as nat, |i: int| i as usize),
            out@[out@.len() - 1]@ == perm@,
            perm@.no_duplicates(),
            forall|a: int| 0 <= a < out@.len() ==> (#[trigger] out@[a])@.len() == k && bounded(out@[a]@, k as int)
                && out@[a]@.no_duplicates(),
            forall|a: int| 0 < a < out@.len() ==> lex_lt(out@[a - 1]@, #[trigger] out@[a]@),
        decreases base_pow(b, k as nat) - rank(perm@, b),
    {
        let ghost prev = perm@;
        if !next_permutation(&mut perm) {
            break;
        }
        proof {
            assert(bounded(perm@, k as int)) by {
                assert forall|x: int| 0 <= x < perm@.len() implies #[trigger] perm@[x] < k by {
                    let m = choose|m: int| 0 <= m < prev.len() && perm@[x] == prev[m];
                }
            }
            let p = choose|p: int| lex_lt_at(prev, perm@, p);
            lemma_rank_lex(prev, perm@, b, p);
            lemma_rank_bound(perm@, b);
        }
        let ghost before = out@;
        out.push(perm.clone());
        proof {
            assert forall|a: int| 0 < a < out@.len() implies lex_lt(out@[a - 1]@, #[trigger] out@[a]@) by {
                if a < before.len() {
                    assert(out@[a] == before[a]);
                    assert(out@[a - 1] == before[a - 1]);
                }
            }
        }
    }
    out
}

// ---------------------------------------------------------------------------
// Symmetry groups
// ---------------------------------------------------------------------------

/// Every generator permutes `n` slots.
pub open spec fn gens_fit(gens: Seq<GenModel>, n: int) -> bool {
    forall|g: int| 0 <= g < gens.len() ==> (#[trigger] gens[g]).perm.len() == n && perm_in_bounds(gens[g].perm, n)
}

/// The identity permutation of `n` slots.
pub open spec fn identity_perm(n: nat) -> Seq<usize> {
    Seq::new(n, |i: int| i as usize)
}

/// `elems[x]` is generator `g` applied to the earlier element `elems[y]`,
/// with the actions combined.
pub open spec fn derived_at(gens: Seq<GenModel>, elems: Seq<(Vec<usize>, SymAction)>, x: int, y: int, g: int) -> bool {
    &&& 0 <= y < x
    &&& 0 <= g < gens.len()
    &&& elems[x].0@ == permute(gens[g].perm, elems[y].0@)
    &&& elems[x].1 == sym_combine(elems[y].1, gens[g].action)
}

pub open spec fn derived(gens: Seq<GenModel>, elems: Seq<(Vec<usize>, SymAction)>, x: int) -> bool {
    exists|y: int, g: int| #[trigger] derived_at(gens, elems, x, y, g)
}

pub open spec fn elem_perms(elems: Seq<(Vec<usize>, SymAction)>) -> Seq<Seq<usize>> {
    elems.map_values(|e: (Vec<usize>, SymAction)| e.0@)
}

/// `elems` is the closure of the identity under the generators, listed once
/// each in breadth-first order: it starts at the identity, has no repeated
/// permutation, is closed under applying any generator, and every later
/// element is a generator applied to an earlier one, with the actions
/// combined.
pub open spec fn sym_group_ok(gens: Seq<GenModel>, n: nat, elems: Seq<(Vec<usize>, SymAction)>) -> bool {
    let ps = elem_perms(elems);
    &&& elems.len() >= 1
    &&& ps[0] == identity_perm(n)
    &&& elems[0].1 == SymAction::Identity
    &&& forall|i: int| 0 <= i < ps.len() ==> (#[trigger] ps[i]).len() == n && perm_in_bounds(ps[i], n as int)
    &&& forall|i: int, j: int| 0 <= i < j < ps.len() ==> #[trigger] ps[i] != #[trigger] ps[j]
    &&& forall|i: int, g: int| 0 <= i < ps.len() && 0 <= g < gens.len() ==> ps.contains(
        #[trigger] permute(gens[g].perm, ps[i]),
    )
    &&& forall|i: int| 0 < i < elems.len() ==> #[trigger] derived(gens, elems, i)
}

/// `elems[x]` is generator `g` applied to `elems[y]`, where `(y, g)` is the
/// first pair (by element, then generator) whose image is not among the
/// elements before `x`: breadth-first discovery order.
pub open spec fn first_derived_at(gens: Seq<GenModel>, elems: Seq<(Vec<usize>, SymAction)>, x: int, y: int, g: int) -> bool {
    &&& derived_at(gens, elems, x, y, g)
    &&& forall|y2: int, g2: int| 0 <= y2 <= y && 0 <= g2 < gens.len() && (y2 < y || g2 < g) ==> elem_perms(elems).take(x).contains(
        #[trigger] permute(gens[g2].perm, elem_perms(elems)[y2]),
    )
}

pub open spec fn first_derived(gens: Seq<GenModel>, elems: Seq<(Vec<usize>, SymAction)>, x: int) -> bool {
    exists|y: int, g: int| #[trigger] first_derived_at(gens, elems, x, y, g)
}

/// `elems` is the symmetry group listed breadth-first: each later element
/// comes from the first pair whose image is new.
pub open spec fn bfs_listing(gens: Seq<GenModel>, n: nat, elems: Seq<(Vec<usize>, SymAction)>) -> bool {
    &&& sym_group_ok(gens, n, elems)
    &&& forall|x: int| 0 < x < elems.len() ==> #[trigger] first_derived(gens, elems, x)
}

/// The elements as plain values: permutation and action.
pub open spec fn elem_views(elems: Seq<(Vec<usize>, SymAction)>) -> Seq<(Seq<usize>, SymAction)> {
    elems.map_values(|e: (Vec<usize>, SymAction)| (e.0@, e.1))
}

proof fn lemma_bfs_prefix(gens: Seq<GenModel>, n: nat, a: Seq<(Vec<usize>, SymAction)>, b: Seq<(Vec<usize>, SymAction)>, x: int)
    requires
        bfs_listing(gens, n, a),
        bfs_listing(gens, n, b),
        0 <= x <= a.len(),
        x <= b.len(),
    ensures
        elem_views(a).take(x) == elem_views(b).take(x),
    decreases x,
{
    if x > 0 {
        lemma_bfs_prefix(gens, n, a, b, x - 1);
        let k = x - 1;
        let pa = elem_perms(a);
        let pb = elem_perms(b);
        assert forall|w: int| 0 <= w < k implies pa[w] == pb[w] && a[w].1 == b[w].1 by {
            assert(elem_views(a).take(k)[w] == elem_views(b).take(k)[w]);
        }
        assert(pa.take(k) =~= pb.take(k));
        if k > 0 {
            assert(first_derived(gens, a, k) && first_derived(gens, b, k));
            let (ya, ga) = choose|y: int, g: int| #[trigger] first_derived_at(gens, a, k, y, g);
            let (yb, gb) = choose|y: int, g: int| #[trigger] first_derived_at(gens, b, k, y, g);
            if ya < yb || (ya == yb && ga < gb) {
                assert(pb.take(k).contains(permute(gens[ga].perm, pb[ya])));
                assert(pa[k] == permute(gens[ga].perm, pa[ya]));
                let w = choose|w: int| 0 <= w < pb.take(k).len() && pb.take(k)[w] == permute(gens[ga].perm, pb[ya]);
                assert(pa[w] == pa[k]);
                assert(false);
            }
            if yb < ya || (ya == yb && gb < ga) {
                assert(pa.take(k).contains(permute(gens[gb].perm, pa[yb])));
                assert(pb[k] == permute(gens[gb].perm, pb[yb]));
                let w = choose|w: int| 0 <= w < pa.take(k).len() && pa.take(k)[w] == permute(gens[gb].perm, pa[yb]);
                assert(pb[w] == pb[k]);
                assert(false);
            }
            assert(ya == yb && ga == gb);
            assert(pa[k] == pb[k]);
            assert(a[k].1 == b[k].1);
        } else {
            assert(pa[0] == pb[0]);
        }
        assert(elem_views(a)[k] == (pa[k], a[k].1));
        assert(elem_views(b)[k] == (pb[k], b[k].1));
        assert(elem_views(a).take(x) =~= elem_views(b).take(x)) by {
            assert forall|w: int| 0 <= w < x implies elem_views(a).take(x)[w] == elem_views(b).take(x)[w] by {
                if w < k {
                    assert(elem_views(a).take(k)[w] == elem_views(b).take(k)[w]);
                }
            }
        }
    }
}

proof fn lemma_bfs_longer(gens: Seq<GenModel>, n: nat, a: Seq<(Vec<usize>, SymAction)>, b: Seq<(Vec<usize>, SymAction)>)
    requires
        bfs_listing(gens, n, a),
        bfs_listing(gens, n, b),
    ensures
        b.len() <= a.len(),
{
    if b.len() > a.len() {
        let x = a.len() as int;
        lemma_bfs_prefix(gens, n, a, b, x);
        let pa = elem_perms(a);
        let pb = elem_perms(b);
        assert forall|w: int| 0 <= w < x implies pa[w] == pb[w] by {
            assert(elem_views(a).take(x)[w] == elem_views(b).take(x)[w]);
        }
        assert(first_derived(gens, b, x));
        let (y, g) = choose|y: int, g: int| #[trigger] first_derived_at(gens, b, x, y, g);
        assert(pa.contains(permute(gens[g].perm, pa[y])));
        let w = choose|w: int| 0 <= w < pa.len() && pa[w] == permute(gens[g].perm, pa[y]);
        assert(pb[w] == pb[x]);
        assert(false);
    }
}

/// Two breadth-first listings of a group by the same generators agree.
pub proof fn lemma_bfs_listing_unique(gens: Seq<GenModel>, n: nat, a: Seq<(Vec<usize>, SymAction)>, b: Seq<(Vec<usize>, SymAction)>)
    requires
        bfs_listing(gens, n, a),
        bfs_listing(gens, n, b),
    ensures
        elem_views(a) == elem_views(b),
{
    lemma_bfs_longer(gens, n, a, b);
    lemma_bfs_longer(gens, n, b, a);
    lemma_bfs_prefix(gens, n, a, b, a.len() as int);
    assert(elem_views(a).take(a.len() as int) =~= elem_views(a));
    assert(elem_views(b).take(b.len() as int) =~= elem_views(b));
}

fn perm_listed(elems: &Vec<(Vec<usize>, SymAction)>, perm: &Vec<usize>) -> (r: bool)
    ensures
        r == elem_perms(elems@).contains(perm@),
{
    let ghost ps = elem_perms(elems@);
    let mut i: usize = 0;
    while i < elems.len()
        invariant
            i <= elems@.len(),
            ps == elem_perms(elems@),
            forall|k: int| 0 <= k < i ==> ps[k] != perm@,
        decreases elems.len() - i,
    {
        let e = &elems[i].0;
        if e.len() == perm.len() {
            let mut k: usize = 0;
            let mut same = true;
            while k < e.len()
                invariant
                    k <= e@.len(),
                    e@.len() == perm@.len(),
                    same == forall|m: int| 0 <= m < k ==> e@[m] == perm@[m],
                decreases e.len() - k,
            {
                if e[k] != perm[k] {
                    same = false;
                }
                k = k + 1;
            }
            if same {
                assert(e@ =~= perm@);
                assert(ps[i as int] == perm@);
                return true;
            }
        }
        i = i + 1;
    }
    false
}

/// The symmetry group of a tensor with `n` slots, generated breadth-first
/// from the identity by `generators`, each permutation listed once with the
/// action of its first derivation.
pub fn enumerate_sym_group(generators: &Vec<SymGenerator>, n: usize) -> (r: Vec<(Vec<usize>, SymAction)>)
    requires
        gens_fit(gen_models(generators@), n as int),
    ensures
        sym_group_ok(gen_models(generators@), n as nat, r@),
        bfs_listing(gen_models(generators@), n as nat, r@),
{
    let ghost gens = gen_models(generators@);
    let mut identity: Vec<usize> = Vec::new();
    let mut i: usize = 0;
    while i < n
        invariant
            i <= n,
            identity@ == Seq::new(i as nat, |x: int| x as usize),
        decreases n - i,
    {
        identity.push(i);
        i = i + 1;
        assert(identity@ =~= Seq::new(i as nat, |x: int| x as usize));
    }
    let mut elements: Vec<(Vec<usize>, SymAction)> = Vec::new();
    elements.push((identity, SymAction::Identity));
    let ghost b: int = if n == 0 { 1 } else { n as int };
    let mut cursor: usize = 0;
    proof {
        assert(elem_perms(elements@)[0] == identity_perm(n as nat));
    }
    while cursor < elements.len()
        invariant
            b >= 1,
            b >= n,
            gens == gen_models(generators@),
            gens_fit(gens, n as int),
            cursor <= elements@.len(),
            elements@.len() >= 1,
            elem_perms(elements@)[0] == identity_perm(n as nat),
            elements@[0].1 == SymAction::Identity,
            forall|x: int| 0 <= x < elements@.len() ==> (#[trigger] elem_perms(elements@)[x]).len() == n
                && perm_in_bounds(elem_perms(elements@)[x], n as int),
            forall|x: int, y: int| 0 <= x < y < elements@.len() ==> #[trigger] elem_perms(elements@)[x]
                != #[trigger] elem_perms(elements@)[y],
            forall|x: int, g: int| 0 <= x < cursor && 0 <= g < gens.len() ==> elem_perms(elements@).contains(
                #[trigger] permute(gens[g].perm, elem_perms(elements@)[x]),
            ),
            forall|x: int| 0 < x < elements@.len() ==> #[trigger] derived(gens, elements@, x),
            forall|x: int| 0 < x < elements@.len() ==> #[trigger] first_derived(gens, elements@, x),
        decreases base_pow(b, n as nat) - elements@.len(), elements@.len() - cursor,
    {
        let perm = elements[cursor].0.clone();
        let action = elements[cursor].1;
        let ghost c = cursor as int;
        proof {
            assert(perm@ == elem_perms(elements@)[c]);
        }
        let ghost len0 = elements@.len();
        let mut gi: usize = 0;
        while gi < generators.len()
            invariant
                b >= 1,
                b >= n,
                gens == gen_models(generators@),
                gens_fit(gens, n as int),
                0 <= c < len0 <= elements@.len(),
                cursor == c,
                gi <= generators@.len(),
                perm@ == elem_perms(elements@)[c],
                action == elements@[c].1,
                elem_perms(elements@)[0] == identity_perm(n as nat),
                elements@[0].1 == SymAction::Identity,
                forall|x: int| 0 <= x < elements@.len() ==> (#[trigger] elem_perms(elements@)[x]).len() == n
                    && perm_in_bounds(elem_perms(elements@)[x], n as int),
                forall|x: int, y: int| 0 <= x < y < elements@.len() ==> #[trigger] elem_perms(elements@)[x]
                    != #[trigger] elem_perms(elements@)[y],
                forall|x: int, g: int| 0 <= x < c && 0 <= g < gens.len() ==> elem_perms(elements@).contains(
                    #[trigger] permute(gens[g].perm, elem_perms(elements@)[x]),
                ),
                forall|g: int| 0 <= g < gi ==> elem_perms(elements@).contains(
                    #[trigger] permute(gens[g].perm, elem_perms(elements@)[c]),
                ),
                forall|x: int| 0 < x < elements@.len() ==> #[trigger] derived(gens, elements@, x),
                forall|x: int| 0 < x < elements@.len() ==> #[trigger] first_derived(gens, elements@, x),
                elements@.len() > len0 ==> elements@.len() <= base_pow(b, n as nat),
                elements@.len() >= len0,
            decreases generators@.len() - gi,
        {
            let gen = &generators[gi];
            let ghost gm = gens[gi as int];
            assert(gen.perm@ == gm.perm);
            let mut new_perm: Vec<usize> = Vec::new();
            let mut k: usize = 0;
            while k < gen.perm.len()
                invariant
                    k <= gen.perm@.len(),
                    gen.perm@.len() == n,
                    perm_in_bounds(gen.perm@, n as int),
                    perm@.len() == n,
                    new_perm@ == permute(gen.perm@, perm@).take(k as int),
                decreases gen.perm.len() - k,
            {
                new_perm.push(perm[gen.perm[k]]);
                k = k + 1;
                assert(new_perm@ =~= permute(gen.perm@, perm@).take(k as int));
            }
            assert(new_perm@ =~= permute(gen.perm@, perm@));
            let ghost before = elements@;
            if !perm_listed(&elements, &new_perm) {
                let new_action = action.combine(gen.action);
                elements.push((new_perm, new_action));
                proof {
                    let ps = elem_perms(elements@);
                    let pb = elem_perms(before);
                    assert forall|x: int| 0 <= x < before.len() implies #[trigger] ps[x] == pb[x] by {
                        assert(elements@[x] == before[x]);
                    }
                    assert(ps[before.len() as int] == permute(gm.perm, perm@));
                    assert(perm_in_bounds(ps[before.len() as int], n as int)) by {
                        assert forall|q: int| 0 <= q < n implies #[trigger] ps[before.len() as int][q] < n by {
                            assert(gm.perm[q] < n);
                            assert(perm@[gm.perm[q] as int] < n);
                        }
                    }
                    assert forall|x: int, y: int| 0 <= x < y < elements@.len() implies #[trigger] ps[x] != #[trigger] ps[y] by {
                        if y == before.len() {
                            assert(!pb.contains(ps[y]));
                            assert(pb[x] == ps[x]);
                        } else {
                            assert(pb[x] != pb[y]);
                        }
                    }
                    assert forall|x: int, g: int| 0 <= x < c && 0 <= g < gens.len() implies ps.contains(
                        #[trigger] permute(gens[g].perm, ps[x]),
                    ) by {
                        assert(pb.contains(permute(gens[g].perm, pb[x])));
                        let w = choose|w: int| 0 <= w < pb.len() && pb[w] == permute(gens[g].perm, pb[x]);
                        assert(ps[w] == pb[w]);
                    }
                    assert forall|g: int| 0 <= g <= gi implies ps.contains(
                        #[trigger] permute(gens[g].perm, ps[c]),
                    ) by {
                        if g < gi {
                            assert(pb.contains(permute(gens[g].perm, pb[c])));
                            let w = choose|w: int| 0 <= w < pb.len() && pb[w] == permute(gens[g].perm, pb[c]);
                            assert(ps[w] == pb[w]);
                        } else {
                            assert(ps[before.len() as int] == permute(gens[g].perm, ps[c]));
                        }
                    }
                    assert forall|x: int| 0 < x < elements@.len() implies #[trigger] derived(gens, elements@, x) by {
                        if x == before.len() {
                            assert(elements@[c] == before[c]);
                            assert(derived_at(gens, elements@, x, c, gi as int));
                        } else {
                            assert(derived(gens, before, x));
                            let (y, g) = choose|y: int, g: int| #[trigger] derived_at(gens, before, x, y, g);
                            assert(elements@[y] == before[y]);
                            assert(elements@[x] == before[x]);
                            assert(derived_at(gens, elements@, x, y, g));
                        }
                    }
                    assert(ps.take(before.len() as int) =~= pb);
                    assert(first_derived_at(gens, elements@, before.len() as int, c, gi as int)) by {
                        assert(elements@[c] == before[c]);
                        assert(derived_at(gens, elements@, before.len() as int, c, gi as int));
                        assert forall|y2: int, g2: int| 0 <= y2 <= c && 0 <= g2 < gens.len() && (y2 < c || g2 < gi)
                            implies ps.take(before.len() as int).contains(#[trigger] permute(gens[g2].perm, ps[y2])) by {
                            assert(ps[y2] == pb[y2]);
                            if y2 < c {
                                assert(pb.contains(permute(gens[g2].perm, pb[y2])));
                            } else {
                                assert(pb.contains(permute(gens[g2].perm, pb[c])));
                            }
                        }
                    }
                    assert forall|x: int| 0 < x < elements@.len() implies #[trigger] first_derived(gens, elements@, x) by {
                        if x < before.len() {
                            assert(first_derived(gens, before, x));
                            let (y, g) = choose|y: int, g: int| #[trigger] first_derived_at(gens, before, x, y, g);
                            assert(elements@[y] == before[y]);
                            assert(elements@[x] == before[x]);
                            assert(ps.take(x) =~= pb.take(x)) by {
                                assert forall|w: int| 0 <= w < x implies ps[w] == pb[w] by {
                                    assert(elements@[w] == before[w]);
                                }
                            }
                            assert forall|y2: int, g2: int| 0 <= y2 <= y && 0 <= g2 < gens.len() && (y2 < y || g2 < g)
                                implies ps.take(x).contains(#[trigger] permute(gens[g2].perm, ps[y2])) by {
                                assert(ps[y2] == pb[y2]);
                                assert(pb.take(x).contains(permute(gens[g2].perm, pb[y2])));
                            }
                            assert(first_derived_at(gens, elements@, x, y, g));
                        } else {
                            assert(first_derived_at(gens, elements@, x, c, gi as int));
                        }
                    }
                    assert forall|x: int| 0 <= x < ps.len() implies (#[trigger] ps[x]).len() == n && bounded(ps[x], b) by {
                        assert(perm_in_bounds(ps[x], n as int));
                        assert forall|q: int| 0 <= q < ps[x].len() implies #[trigger] ps[x][q] < b by {
                            assert(ps[x][q] < n);
                        }
                    }
                    lemma_distinct_count(ps, n as nat, b);
                }
            } else {
                proof {
                    assert(elem_perms(elements@).contains(permute(gens[gi as int].perm, elem_perms(elements@)[c])));
                }
            }
            gi = gi + 1;
        }
        cursor = cursor + 1;
    }
    elements
}

} // verus!
