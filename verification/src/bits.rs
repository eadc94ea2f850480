//! Bitmask sets over `u64`: membership, unions, and products over members.
use vstd::prelude::*;

verus! {

/// Bit `i` of `m` is set.
pub open spec fn bit(m: u64, i: u64) -> bool {
    (m >> i) & 1 == 1
}

/// Every set bit of `m` is below `n`.
pub open spec fn bits_below(m: u64, n: int) -> bool {
    forall|i: u64| i < 64 && #[trigger] bit(m, i) ==> i < n
}

/// `m` has at most one set bit.
pub open spec fn at_most_one_bit(m: u64) -> bool {
    m == 0 || m & ((m - 1) as u64) == 0
}

/// `a` is a subset of `b`.
pub open spec fn is_submask(a: u64, b: u64) -> bool {
    a & b == a
}

pub proof fn lemma_bit_or(x: u64, y: u64, i: u64)
    requires
        i < 64,
    ensures
        bit(x | y, i) == (bit(x, i) || bit(y, i)),
{
    assert(((x | y) >> i) & 1 == 1 <==> ((x >> i) & 1 == 1 || (y >> i) & 1 == 1)) by (bit_vector)
        requires
            i < 64,
    ;
}

pub proof fn lemma_bit_and(x: u64, y: u64, i: u64)
    requires
        i < 64,
    ensures
        bit(x & y, i) == (bit(x, i) && bit(y, i)),
{
    assert(((x & y) >> i) & 1 == 1 <==> ((x >> i) & 1 == 1 && (y >> i) & 1 == 1)) by (bit_vector)
        requires
            i < 64,
    ;
}



pub proof fn lemma_bit_not(x: u64, i: u64)
    requires
        i < 64,
    ensures
        bit(!x, i) == !bit(x, i),
{
    assert(((!x) >> i) & 1 == 1 <==> !((x >> i) & 1 == 1)) by (bit_vector)
        requires
            i < 64,
    ;
}

pub proof fn lemma_bit_zero(i: u64)
    ensures
        !bit(0, i),
{
    assert((0u64 >> i) & 1 != 1) by (bit_vector);
}

pub proof fn lemma_bit_single(j: u64, i: u64)
    requires
        j < 64,
        i < 64,
    ensures
        bit(1u64 << j, i) == (i == j),
{
    assert((((1u64 << j) >> i) & 1 == 1) <==> (i == j)) by (bit_vector)
        requires
            j < 64,
            i < 64,
    ;
}

/// Testing bit `j` with a single-bit mask.
pub proof fn lemma_bit_test(x: u64, j: u64)
    requires
        j < 64,
    ensures
        (x & (1u64 << j) != 0) == bit(x, j),
{
    assert((x & (1u64 << j) != 0) <==> ((x >> j) & 1 == 1)) by (bit_vector)
        requires
            j < 64,
    ;
}

/// The low `n` bits: bit `i` of `(1 << n) - 1` is set exactly when `i < n`.
pub proof fn lemma_low_mask(n: u64, i: u64)
    requires
        n < 64,
        i < 64,
    ensures
        bit(((1u64 << n) - 1) as u64, i) == (i < n),
        1u64 << n >= 1,
{
    assert(((((1u64 << n) - 1) as u64 >> i) & 1 == 1) <==> (i < n)) by (bit_vector)
        requires
            n < 64,
            i < 64,
    ;
    assert(1u64 << n >= 1) by (bit_vector)
        requires
            n < 64,
    ;
}

/// No bit at or above 64 can be asked of a mask: `bits_below(m, 64)` always holds.
pub proof fn lemma_bits_below_64(m: u64)
    ensures
        bits_below(m, 64),
{
}

/// The next submask in the descending enumeration is a smaller submask.
pub proof fn lemma_next_submask(sub: u64, s: u64)
    requires
        sub != 0,
    ensures
        ((sub - 1) as u64 & s) < sub || sub & s != sub,
        is_submask(((sub - 1) as u64 & s) as u64, s),
{
    assert(sub != 0 ==> ((((sub - 1) as u64 & s) < sub) || (sub & s != sub))) by (bit_vector);
    assert((((sub - 1) as u64 & s) & s) == ((sub - 1) as u64 & s)) by (bit_vector);
}

/// A non-empty proper part of `s` and its complement in `s` are both below `s`.
pub proof fn lemma_split_smaller(sub: u64, s: u64)
    requires
        sub != 0,
        sub != s,
        is_submask(sub, s),
    ensures
        sub < s,
        (s ^ sub) < s,
        (s ^ sub) != 0,
        is_submask((s ^ sub) as u64, s),
        (s ^ sub) & sub == 0,
        (s ^ sub) | sub == s,
{
    assert(sub != 0 && sub != s && (sub & s) == sub ==> sub < s && (s ^ sub) < s && (s ^ sub) != 0
        && ((s ^ sub) & s) == (s ^ sub) && ((s ^ sub) & sub) == 0 && ((s ^ sub) | sub) == s)
        by (bit_vector);
}

/// A submask of a submask is a submask, and submasks are no larger.
pub proof fn lemma_submask_le(a: u64, b: u64)
    requires
        is_submask(a, b),
    ensures
        a <= b,
{
    assert((a & b) == a ==> a <= b) by (bit_vector);
}

/// Membership in a submask.
pub proof fn lemma_submask_bit(a: u64, b: u64, i: u64)
    requires
        is_submask(a, b),
        i < 64,
        bit(a, i),
    ensures
        bit(b, i),
{
    lemma_bit_and(a, b, i);
}

/// `at_most_one_bit` is the same as `count_ones() <= 1`; for a one-bit mask the bit is unique.


/// A mask with all 64 bits clear is zero.
pub proof fn lemma_zero_when_clear(m: u64)
    requires
        forall|j: u64| j < 64 ==> #[trigger] ((m >> j) & 1) == 0,
    ensures
        m == 0,
{
    assert(((m >> 0u64) & 1) == 0);
    assert(((m >> 1u64) & 1) == 0);
    assert(((m >> 2u64) & 1) == 0);
    assert(((m >> 3u64) & 1) == 0);
    assert(((m >> 4u64) & 1) == 0);
    assert(((m >> 5u64) & 1) == 0);
    assert(((m >> 6u64) & 1) == 0);
    assert(((m >> 7u64) & 1) == 0);
    assert(((m >> 8u64) & 1) == 0);
    assert(((m >> 9u64) & 1) == 0);
    assert(((m >> 10u64) & 1) == 0);
    assert(((m >> 11u64) & 1) == 0);
    assert(((m >> 12u64) & 1) == 0);
    assert(((m >> 13u64) & 1) == 0);
    assert(((m >> 14u64) & 1) == 0);
    assert(((m >> 15u64) & 1) == 0);
    assert(((m >> 16u64) & 1) == 0);
    assert(((m >> 17u64) & 1) == 0);
    assert(((m >> 18u64) & 1) == 0);
    assert(((m >> 19u64) & 1) == 0);
    assert(((m >> 20u64) & 1) == 0);
    assert(((m >> 21u64) & 1) == 0);
    assert(((m >> 22u64) & 1) == 0);
    assert(((m >> 23u64) & 1) == 0);
    assert(((m >> 24u64) & 1) == 0);
    assert(((m >> 25u64) & 1) == 0);
    assert(((m >> 26u64) & 1) == 0);
    assert(((m >> 27u64) & 1) == 0);
    assert(((m >> 28u64) & 1) == 0);
    assert(((m >> 29u64) & 1) == 0);
    assert(((m >> 30u64) & 1) == 0);
    assert(((m >> 31u64) & 1) == 0);
    assert(((m >> 32u64) & 1) == 0);
    assert(((m >> 33u64) & 1) == 0);
    assert(((m >> 34u64) & 1) == 0);
    assert(((m >> 35u64) & 1) == 0);
    assert(((m >> 36u64) & 1) == 0);
    assert(((m >> 37u64) & 1) == 0);
    assert(((m >> 38u64) & 1) == 0);
    assert(((m >> 39u64) & 1) == 0);
    assert(((m >> 40u64) & 1) == 0);
    assert(((m >> 41u64) & 1) == 0);
    assert(((m >> 42u64) & 1) == 0);
    assert(((m >> 43u64) & 1) == 0);
    assert(((m >> 44u64) & 1) == 0);
    assert(((m >> 45u64) & 1) == 0);
    assert(((m >> 46u64) & 1) == 0);
    assert(((m >> 47u64) & 1) == 0);
    assert(((m >> 48u64) & 1) == 0);
    assert(((m >> 49u64) & 1) == 0);
    assert(((m >> 50u64) & 1) == 0);
    assert(((m >> 51u64) & 1) == 0);
    assert(((m >> 52u64) & 1) == 0);
    assert(((m >> 53u64) & 1) == 0);
    assert(((m >> 54u64) & 1) == 0);
    assert(((m >> 55u64) & 1) == 0);
    assert(((m >> 56u64) & 1) == 0);
    assert(((m >> 57u64) & 1) == 0);
    assert(((m >> 58u64) & 1) == 0);
    assert(((m >> 59u64) & 1) == 0);
    assert(((m >> 60u64) & 1) == 0);
    assert(((m >> 61u64) & 1) == 0);
    assert(((m >> 62u64) & 1) == 0);
    assert(((m >> 63u64) & 1) == 0);
    assert(((m >> 0u64) & 1) == 0 && ((m >> 1u64) & 1) == 0 && ((m >> 2u64) & 1) == 0 && ((m >> 3u64) & 1) == 0 && ((m >> 4u64) & 1) == 0 && ((m >> 5u64) & 1) == 0 && ((m >> 6u64) & 1) == 0 && ((m >> 7u64) & 1) == 0 && ((m >> 8u64) & 1) == 0 && ((m >> 9u64) & 1) == 0 && ((m >> 10u64) & 1) == 0 && ((m >> 11u64) & 1) == 0 && ((m >> 12u64) & 1) == 0 && ((m >> 13u64) & 1) == 0 && ((m >> 14u64) & 1) == 0 && ((m >> 15u64) & 1) == 0 && ((m >> 16u64) & 1) == 0 && ((m >> 17u64) & 1) == 0 && ((m >> 18u64) & 1) == 0 && ((m >> 19u64) & 1) == 0 && ((m >> 20u64) & 1) == 0 && ((m >> 21u64) & 1) == 0 && ((m >> 22u64) & 1) == 0 && ((m >> 23u64) & 1) == 0 && ((m >> 24u64) & 1) == 0 && ((m >> 25u64) & 1) == 0 && ((m >> 26u64) & 1) == 0 && ((m >> 27u64) & 1) == 0 && ((m >> 28u64) & 1) == 0 && ((m >> 29u64) & 1) == 0 && ((m >> 30u64) & 1) == 0 && ((m >> 31u64) & 1) == 0 && ((m >> 32u64) & 1) == 0 && ((m >> 33u64) & 1) == 0 && ((m >> 34u64) & 1) == 0 && ((m >> 35u64) & 1) == 0 && ((m >> 36u64) & 1) == 0 && ((m >> 37u64) & 1) == 0 && ((m >> 38u64) & 1) == 0 && ((m >> 39u64) & 1) == 0 && ((m >> 40u64) & 1) == 0 && ((m >> 41u64) & 1) == 0 && ((m >> 42u64) & 1) == 0 && ((m >> 43u64) & 1) == 0 && ((m >> 44u64) & 1) == 0 && ((m >> 45u64) & 1) == 0 && ((m >> 46u64) & 1) == 0 && ((m >> 47u64) & 1) == 0 && ((m >> 48u64) & 1) == 0 && ((m >> 49u64) & 1) == 0 && ((m >> 50u64) & 1) == 0 && ((m >> 51u64) & 1) == 0 && ((m >> 52u64) & 1) == 0 && ((m >> 53u64) & 1) == 0 && ((m >> 54u64) & 1) == 0 && ((m >> 55u64) & 1) == 0 && ((m >> 56u64) & 1) == 0 && ((m >> 57u64) & 1) == 0 && ((m >> 58u64) & 1) == 0 && ((m >> 59u64) & 1) == 0 && ((m >> 60u64) & 1) == 0 && ((m >> 61u64) & 1) == 0 && ((m >> 62u64) & 1) == 0 && ((m >> 63u64) & 1) == 0 ==> m == 0) by (bit_vector);
}

/// Union of `masks[i]` over the members `i < k` of `subset`.
pub open spec fn union_over(masks: Seq<u64>, subset: u64, k: int) -> u64
    decreases k,
{
    if k <= 0 {
        0
    } else if bit(subset, (k - 1) as u64) {
        union_over(masks, subset, k - 1) | masks[k - 1]
    } else {
        union_over(masks, subset, k - 1)
    }
}

/// A bit is in the union exactly when some member's mask has it.
pub proof fn lemma_union_over_bit(masks: Seq<u64>, subset: u64, k: int, c: u64)
    requires
        0 <= k <= masks.len(),
        k <= 64,
        c < 64,
    ensures
        bit(union_over(masks, subset, k), c) <==> exists|i: int|
            0 <= i < k && bit(subset, i as u64) && #[trigger] bit(masks[i], c),
    decreases k,
{
    if k <= 0 {
        lemma_bit_zero(c);
    } else {
        lemma_union_over_bit(masks, subset, k - 1, c);
        if bit(subset, (k - 1) as u64) {
            lemma_bit_or(union_over(masks, subset, k - 1), masks[k - 1], c);
            if bit(masks[k - 1], c) {
                assert(bit(masks[(k - 1) as int], c));
            }
        }
    }
}

/// Product over the members `i < k` of `mask` of `sizes[i]`.
pub open spec fn product_over(sizes: Seq<u64>, mask: u64, k: int) -> int
    decreases k,
{
    if k <= 0 {
        1
    } else if bit(mask, (k - 1) as u64) {
        product_over(sizes, mask, k - 1) * sizes[k - 1]
    } else {
        product_over(sizes, mask, k - 1)
    }
}

/// Every partial product of `product_over` fits in `u64`.
pub open spec fn product_fits(sizes: Seq<u64>, mask: u64) -> bool {
    forall|k: int| 0 <= k <= sizes.len() ==> #[trigger] product_over(sizes, mask, k) <= u64::MAX
}

/// Union of the masks of the members of `subset`.
pub fn union_of_members(masks: &Vec<u64>, subset: u64) -> (r: u64)
    requires
        masks.len() <= 64,
        bits_below(subset, masks.len() as int),
    ensures
        r == union_over(masks@, subset, masks.len() as int),
{
    let mut bits: u64 = 0;
    let mut i: usize = 0;
    while i < masks.len()
        invariant
            i <= masks.len(),
            masks.len() <= 64,
            bits == union_over(masks@, subset, i as int),
        decreases masks.len() - i,
    {
        proof {
            lemma_bit_test(subset, i as u64);
        }
        if subset & (1u64 << i as u64) != 0 {
            bits = bits | masks[i];
        }
        i = i + 1;
    }
    bits
}

/// Product of `sizes[i]` over the members `i` of `mask`, taken in increasing order.
pub fn product_of_members(sizes: &Vec<u64>, mask: u64) -> (r: u64)
    requires
        sizes.len() <= 64,
        bits_below(mask, sizes.len() as int),
        product_fits(sizes@, mask),
    ensures
        r == product_over(sizes@, mask, sizes.len() as int),
{
    let mut product: u64 = 1;
    let mut i: usize = 0;
    while i < sizes.len()
        invariant
            i <= sizes.len(),
            sizes.len() <= 64,
            product_fits(sizes@, mask),
            product == product_over(sizes@, mask, i as int),
        decreases sizes.len() - i,
    {
        proof {
            lemma_bit_test(mask, i as u64);
            assert(product_over(sizes@, mask, i + 1) <= u64::MAX);
        }
        if mask & (1u64 << i as u64) != 0 {
            product = product * sizes[i];
        }
        i = i + 1;
    }
    product
}

/// `product_of_members` for any mask: `None` when the product overflows `u64`.
pub fn checked_product_of_members(sizes: &Vec<u64>, mask: u64) -> (r: Option<u64>)
    requires
        sizes.len() <= 64,
        bits_below(mask, sizes.len() as int),
    ensures
        r matches Some(v) ==> v == product_over(sizes@, mask, sizes.len() as int) && product_fits(
            sizes@,
            mask,
        ),
        r is None ==> !product_fits(sizes@, mask),
{
    let mut product: u64 = 1;
    let mut i: usize = 0;
    while i < sizes.len()
        invariant
            i <= sizes.len(),
            sizes.len() <= 64,
            product == product_over(sizes@, mask, i as int),
            forall|k: int| 0 <= k <= i ==> #[trigger] product_over(sizes@, mask, k) <= u64::MAX,
        decreases sizes.len() - i,
    {
        proof {
            lemma_bit_test(mask, i as u64);
        }
        if mask & (1u64 << i as u64) != 0 {
            match product.checked_mul(sizes[i]) {
                Some(p) => {
                    product = p;
                },
                None => {
                    assert(product_over(sizes@, mask, i + 1) > u64::MAX);
                    return None;
                },
            }
        }
        i = i + 1;
    }
    Some(product)
}

/// Whether `m` has at most one set bit (the same as `m.count_ones() <= 1`).
pub fn has_at_most_one_bit(m: u64) -> (r: bool)
    ensures
        r == at_most_one_bit(m),
{
    m == 0 || m & (m - 1) == 0
}

/// Number of set bits.
pub open spec fn popcount_upto(m: u64, k: int) -> int
    decreases k,
{
    if k <= 0 {
        0
    } else {
        popcount_upto(m, k - 1) + if bit(m, (k - 1) as u64) {
            1int
        } else {
            0int
        }
    }
}

pub open spec fn popcount(m: u64) -> int {
    popcount_upto(m, 64)
}

pub fn count_ones(m: u64) -> (r: u32)
    ensures
        r == popcount(m),
        r <= 64,
{
    let mut c: u32 = 0;
    let mut i: u64 = 0;
    while i < 64
        invariant
            i <= 64,
            c == popcount_upto(m, i as int),
            c <= i,
        decreases 64 - i,
    {
        if (m >> i) & 1 == 1 {
            c = c + 1;
        }
        i = i + 1;
    }
    c
}

} // verus!
