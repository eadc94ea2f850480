//! Stable sorting by a key with a total preorder.
use vstd::prelude::*;

verus! {

/// A key type ordered by a total preorder.
pub trait SortKey: Sized {
    spec fn spec_le(self, other: Self) -> bool;

    proof fn lemma_le_total(a: Self, b: Self)
        ensures
            a.spec_le(b) || b.spec_le(a),
    ;

    proof fn lemma_le_trans(a: Self, b: Self, c: Self)
        requires
            a.spec_le(b),
            b.spec_le(c),
        ensures
            a.spec_le(c),
    ;

    fn exec_le(&self, other: &Self) -> (r: bool)
        ensures
            r == self.spec_le(*other),
    ;
}

/// `order` lists the positions of `keys` once each, in the order of a
/// stable sort: keys ascending, and equal keys in their original order.
pub open spec fn is_stable_sort_order<K: SortKey>(keys: Seq<K>, order: Seq<usize>) -> bool {
    &&& order.len() == keys.len()
    &&& forall|a: int| 0 <= a < order.len() ==> #[trigger] order[a] < keys.len()
    &&& forall|a: int, b: int|
        0 <= a < b < order.len() ==> #[trigger] order[a] != #[trigger] order[b]
    &&& forall|a: int, b: int|
        0 <= a < b < order.len() ==> keys[#[trigger] order[a] as int].spec_le(
            keys[#[trigger] order[b] as int],
        )
    &&& forall|a: int, b: int|
        0 <= a < b < order.len() && keys[#[trigger] order[b] as int].spec_le(
            keys[#[trigger] order[a] as int],
        ) ==> order[a] < order[b]
}

/// The positions of `keys` in stable sorted order (insertion sort).
pub fn stable_sort_order<K: SortKey>(keys: &Vec<K>) -> (r: Vec<usize>)
    ensures
        is_stable_sort_order(keys@, r@),
{
    let mut order: Vec<usize> = Vec::new();
    let mut i: usize = 0;
    while i < keys.len()
        invariant
            i <= keys@.len(),
            order@.len() == i,
            forall|a: int| 0 <= a < order@.len() ==> #[trigger] order@[a] < i,
            forall|a: int, b: int|
                0 <= a < b < order@.len() ==> #[trigger] order@[a] != #[trigger] order@[b],
            forall|a: int, b: int|
                0 <= a < b < order@.len() ==> keys@[#[trigger] order@[a] as int].spec_le(
                    keys@[#[trigger] order@[b] as int],
                ),
            forall|a: int, b: int|
                0 <= a < b < order@.len() && keys@[#[trigger] order@[b] as int].spec_le(
                    keys@[#[trigger] order@[a] as int],
                ) ==> order@[a] < order@[b],
        decreases keys@.len() - i,
    {
        let mut p: usize = order.len();
        while p > 0 && !keys[order[p - 1]].exec_le(&keys[i])
            invariant
                p <= order@.len(),
                order@.len() == i,
                i < keys@.len(),
                forall|a: int| 0 <= a < order@.len() ==> #[trigger] order@[a] < i,
                forall|k: int|
                    p <= k < order@.len() ==> !keys@[#[trigger] order@[k] as int].spec_le(
                        keys@[i as int],
                    ),
            decreases p,
        {
            p = p - 1;
        }
        let ghost old_order = order@;
        proof {
            assert forall|k: int| p <= k < old_order.len() implies keys@[i as int].spec_le(
                #[trigger] keys@[old_order[k] as int],
            ) by {
                K::lemma_le_total(keys@[i as int], keys@[old_order[k] as int]);
            }
            if p > 0 {
                assert forall|k: int| 0 <= k < p implies #[trigger] keys@[old_order[k] as int].spec_le(
                    keys@[i as int],
                ) by {
                    if k < p - 1 {
                        K::lemma_le_trans(
                            keys@[old_order[k] as int],
                            keys@[old_order[p - 1] as int],
                            keys@[i as int],
                        );
                    }
                }
            }
        }
        order.insert(p, i);
        proof {
            let n = order@;
            assert(n == old_order.insert(p as int, i));
            assert forall|a: int| 0 <= a < n.len() implies #[trigger] n[a] < i + 1 by {
                if a < p {
                    assert(n[a] == old_order[a]);
                } else if a > p {
                    assert(n[a] == old_order[a - 1]);
                }
            }
            assert forall|a: int, b: int| 0 <= a < b < n.len() implies #[trigger] n[a] != #[trigger] n[b] by {
                if a < p {
                    assert(n[a] == old_order[a]);
                } else if a > p {
                    assert(n[a] == old_order[a - 1]);
                }
                if b < p {
                    assert(n[b] == old_order[b]);
                } else if b > p {
                    assert(n[b] == old_order[b - 1]);
                }
            }
            assert forall|a: int, b: int| 0 <= a < b < n.len() implies keys@[#[trigger] n[a] as int].spec_le(
                keys@[#[trigger] n[b] as int],
            ) by {
                if a < p {
                    assert(n[a] == old_order[a]);
                } else if a > p {
                    assert(n[a] == old_order[a - 1]);
                }
                if b < p {
                    assert(n[b] == old_order[b]);
                } else if b > p {
                    assert(n[b] == old_order[b - 1]);
                }
            }
            assert forall|a: int, b: int|
                0 <= a < b < n.len() && keys@[#[trigger] n[b] as int].spec_le(
                    keys@[#[trigger] n[a] as int],
                ) implies n[a] < n[b] by {
                if a < p {
                    assert(n[a] == old_order[a]);
                } else if a > p {
                    assert(n[a] == old_order[a - 1]);
                }
                if b < p {
                    assert(n[b] == old_order[b]);
                } else if b > p {
                    assert(n[b] == old_order[b - 1]);
                }
            }
        }
        i = i + 1;
    }
    order
}

/// Lexicographic order of `u32` sequences (a proper prefix comes first).
pub open spec fn seq_le(a: Seq<u32>, b: Seq<u32>) -> bool
    decreases a.len(),
{
    if a.len() == 0 {
        true
    } else if b.len() == 0 {
        false
    } else if a[0] != b[0] {
        a[0] < b[0]
    } else {
        seq_le(a.drop_first(), b.drop_first())
    }
}

pub proof fn lemma_seq_le_total(a: Seq<u32>, b: Seq<u32>)
    ensures
        seq_le(a, b) || seq_le(b, a),
    decreases a.len(),
{
    if a.len() > 0 && b.len() > 0 && a[0] == b[0] {
        lemma_seq_le_total(a.drop_first(), b.drop_first());
    }
}

pub proof fn lemma_seq_le_trans(a: Seq<u32>, b: Seq<u32>, c: Seq<u32>)
    requires
        seq_le(a, b),
        seq_le(b, c),
    ensures
        seq_le(a, c),
    decreases a.len(),
{
    if a.len() > 0 && b.len() > 0 && c.len() > 0 && a[0] == b[0] && b[0] == c[0] {
        lemma_seq_le_trans(a.drop_first(), b.drop_first(), c.drop_first());
    }
}

pub proof fn lemma_seq_le_antisym(a: Seq<u32>, b: Seq<u32>)
    requires
        seq_le(a, b),
        seq_le(b, a),
    ensures
        a == b,
    decreases a.len(),
{
    if a.len() > 0 && b.len() > 0 {
        lemma_seq_le_antisym(a.drop_first(), b.drop_first());
        assert(a =~= seq![a[0]] + a.drop_first());
        assert(b =~= seq![b[0]] + b.drop_first());
    }
}

/// Lexicographic comparison of `u32` sequences.
pub fn vec_le(a: &Vec<u32>, b: &Vec<u32>) -> (r: bool)
    ensures
        r == seq_le(a@, b@),
{
    let mut i: usize = 0;
    assert(a@.subrange(0, a@.len() as int) =~= a@);
    assert(b@.subrange(0, b@.len() as int) =~= b@);
    while i < a.len() && i < b.len()
        invariant
            i <= a@.len(),
            i <= b@.len(),
            a@.subrange(0, i as int) == b@.subrange(0, i as int),
            seq_le(a@, b@) == seq_le(a@.subrange(i as int, a@.len() as int), b@.subrange(i as int, b@.len() as int)),
        decreases a.len() - i,
    {
        if a[i] != b[i] {
            proof {
                let sa = a@.subrange(i as int, a@.len() as int);
                let sb = b@.subrange(i as int, b@.len() as int);
                assert(sa[0] == a@[i as int]);
                assert(sb[0] == b@[i as int]);
            }
            return a[i] < b[i];
        }
        proof {
            let sa = a@.subrange(i as int, a@.len() as int);
            let sb = b@.subrange(i as int, b@.len() as int);
            assert(sa.drop_first() =~= a@.subrange(i + 1, a@.len() as int));
            assert(sb.drop_first() =~= b@.subrange(i + 1, b@.len() as int));
            assert(a@.subrange(0, i + 1) =~= a@.subrange(0, i as int).push(a@[i as int]));
            assert(b@.subrange(0, i + 1) =~= b@.subrange(0, i as int).push(b@[i as int]));
        }
        i = i + 1;
    }
    proof {
        let sa = a@.subrange(i as int, a@.len() as int);
        let sb = b@.subrange(i as int, b@.len() as int);
        if i == a.len() {
            assert(sa.len() == 0);
        } else {
            assert(sb.len() == 0);
        }
    }
    i == a.len()
}


/// Equality of `u32` vectors.
pub fn vec_eq(a: &Vec<u32>, b: &Vec<u32>) -> (r: bool)
    ensures
        r == (a@ == b@),
{
    if a.len() != b.len() {
        return false;
    }
    let mut i: usize = 0;
    while i < a.len()
        invariant
            i <= a@.len(),
            a@.len() == b@.len(),
            forall|k: int| 0 <= k < i ==> a@[k] == b@[k],
        decreases a.len() - i,
    {
        if a[i] != b[i] {
            return false;
        }
        i = i + 1;
    }
    assert(a@ =~= b@);
    true
}

/// `x` inserted into `s` before the first element not below it.
pub open spec fn insert_sorted(x: u32, s: Seq<u32>) -> Seq<u32>
    decreases s.len(),
{
    if s.len() == 0 {
        seq![x]
    } else if x <= s[0] {
        seq![x] + s
    } else {
        seq![s[0]] + insert_sorted(x, s.drop_first())
    }
}

/// `s` in ascending order.
pub open spec fn sorted_u32(s: Seq<u32>) -> Seq<u32>
    decreases s.len(),
{
    if s.len() == 0 {
        seq![]
    } else {
        insert_sorted(s.last(), sorted_u32(s.drop_last()))
    }
}

proof fn lemma_insert_at(x: u32, s: Seq<u32>, p: int)
    requires
        0 <= p <= s.len(),
        forall|k: int| 0 <= k < p ==> #[trigger] s[k] < x,
        p < s.len() ==> x <= s[p],
    ensures
        insert_sorted(x, s) == s.insert(p, x),
    decreases s.len(),
{
    if s.len() == 0 {
        assert(s.insert(p, x) =~= seq![x]);
    } else if p == 0 {
        assert(s.insert(0, x) =~= seq![x] + s);
    } else {
        assert(s[0] < x);
        let t = s.drop_first();
        assert forall|k: int| 0 <= k < p - 1 implies #[trigger] t[k] < x by {
            assert(t[k] == s[k + 1]);
        }
        lemma_insert_at(x, t, p - 1);
        assert(seq![s[0]] + t.insert(p - 1, x) =~= s.insert(p, x));
    }
}

/// `v` in ascending order.
pub fn sort_u32(v: &Vec<u32>) -> (r: Vec<u32>)
    ensures
        r@ == sorted_u32(v@),
{
    let mut out: Vec<u32> = Vec::new();
    let mut i: usize = 0;
    while i < v.len()
        invariant
            i <= v@.len(),
            out@ == sorted_u32(v@.take(i as int)),
        decreases v.len() - i,
    {
        let x = v[i];
        let mut p: usize = 0;
        while p < out.len() && out[p] < x
            invariant
                p <= out@.len(),
                forall|k: int| 0 <= k < p ==> #[trigger] out@[k] < x,
            decreases out.len() - p,
        {
            p = p + 1;
        }
        proof {
            lemma_insert_at(x, out@, p as int);
            assert(v@.take(i + 1).drop_last() =~= v@.take(i as int));
            assert(v@.take(i + 1).last() == x);
        }
        out.insert(p, x);
        i = i + 1;
    }
    assert(v@.take(v@.len() as int) =~= v@);
    out
}

/// Lexicographic order of `(u32, u32)` pairs.
pub open spec fn pair_lt(x: (u32, u32), y: (u32, u32)) -> bool {
    x.0 < y.0 || (x.0 == y.0 && x.1 < y.1)
}

/// Lexicographic order of sequences of pairs (a proper prefix comes first).
pub open spec fn pairs_le(a: Seq<(u32, u32)>, b: Seq<(u32, u32)>) -> bool
    decreases a.len(),
{
    if a.len() == 0 {
        true
    } else if b.len() == 0 {
        false
    } else if a[0] != b[0] {
        pair_lt(a[0], b[0])
    } else {
        pairs_le(a.drop_first(), b.drop_first())
    }
}

pub proof fn lemma_pairs_le_total(a: Seq<(u32, u32)>, b: Seq<(u32, u32)>)
    ensures
        pairs_le(a, b) || pairs_le(b, a),
    decreases a.len(),
{
    if a.len() > 0 && b.len() > 0 && a[0] == b[0] {
        lemma_pairs_le_total(a.drop_first(), b.drop_first());
    }
}

pub proof fn lemma_pairs_le_trans(a: Seq<(u32, u32)>, b: Seq<(u32, u32)>, c: Seq<(u32, u32)>)
    requires
        pairs_le(a, b),
        pairs_le(b, c),
    ensures
        pairs_le(a, c),
    decreases a.len(),
{
    if a.len() > 0 && b.len() > 0 && c.len() > 0 && a[0] == b[0] && b[0] == c[0] {
        lemma_pairs_le_trans(a.drop_first(), b.drop_first(), c.drop_first());
    }
}

/// Order of (tensor, index ids) keys: tensor, then index ids lexicographically.
pub open spec fn factor_key_lt(x: (u32, Seq<u32>), y: (u32, Seq<u32>)) -> bool {
    x.0 < y.0 || (x.0 == y.0 && seq_le(x.1, y.1) && x.1 != y.1)
}

/// Lexicographic order of sequences of factor keys.
pub open spec fn factor_keys_le(a: Seq<(u32, Seq<u32>)>, b: Seq<(u32, Seq<u32>)>) -> bool
    decreases a.len(),
{
    if a.len() == 0 {
        true
    } else if b.len() == 0 {
        false
    } else if a[0] != b[0] {
        factor_key_lt(a[0], b[0])
    } else {
        factor_keys_le(a.drop_first(), b.drop_first())
    }
}

proof fn lemma_factor_key_lt_asym(x: (u32, Seq<u32>), y: (u32, Seq<u32>))
    ensures
        !(factor_key_lt(x, y) && factor_key_lt(y, x)),
{
    if x.0 == y.0 && seq_le(x.1, y.1) && seq_le(y.1, x.1) {
        lemma_seq_le_antisym(x.1, y.1);
    }
}

pub proof fn lemma_factor_keys_le_total(a: Seq<(u32, Seq<u32>)>, b: Seq<(u32, Seq<u32>)>)
    ensures
        factor_keys_le(a, b) || factor_keys_le(b, a),
    decreases a.len(),
{
    if a.len() > 0 && b.len() > 0 {
        if a[0] == b[0] {
            lemma_factor_keys_le_total(a.drop_first(), b.drop_first());
        } else if a[0].0 == b[0].0 {
            lemma_seq_le_total(a[0].1, b[0].1);
            if a[0].1 == b[0].1 {
                assert(a[0] == b[0]);
            }
        }
    }
}

pub proof fn lemma_factor_keys_le_trans(a: Seq<(u32, Seq<u32>)>, b: Seq<(u32, Seq<u32>)>, c: Seq<(u32, Seq<u32>)>)
    requires
        factor_keys_le(a, b),
        factor_keys_le(b, c),
    ensures
        factor_keys_le(a, c),
    decreases a.len(),
{
    if a.len() > 0 && b.len() > 0 && c.len() > 0 {
        if a[0] == b[0] && b[0] == c[0] {
            lemma_factor_keys_le_trans(a.drop_first(), b.drop_first(), c.drop_first());
        } else if a[0] != b[0] && b[0] != c[0] {
            let (x, y, z) = (a[0], b[0], c[0]);
            if x.0 == y.0 && y.0 == z.0 {
                lemma_seq_le_trans(x.1, y.1, z.1);
                if x.1 == z.1 {
                    lemma_seq_le_antisym(x.1, y.1);
                }
            }
            if x == z {
                lemma_factor_key_lt_asym(x, y);
            }
        }
    }
}

pub proof fn lemma_pairs_le_antisym(a: Seq<(u32, u32)>, b: Seq<(u32, u32)>)
    requires
        pairs_le(a, b),
        pairs_le(b, a),
    ensures
        a == b,
    decreases a.len(),
{
    if a.len() > 0 && b.len() > 0 {
        lemma_pairs_le_antisym(a.drop_first(), b.drop_first());
        assert(a =~= seq![a[0]] + a.drop_first());
        assert(b =~= seq![b[0]] + b.drop_first());
    }
}

} // verus!
