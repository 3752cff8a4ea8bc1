//! Sixteen-bit membership masks: bit `i` of a mask stands for the member in
//! slot `i`.
use vstd::prelude::*;

verus! {

/// Bit `i` of `mask` is set.
pub open spec fn has_bit(mask: u16, i: int) -> bool {
    0 <= i < 16 && (mask >> (i as u16)) & 1u16 == 1u16
}

/// No bit at or above position `n` is set.
pub open spec fn bits_below(mask: u16, n: nat) -> bool {
    forall|i: int| #[trigger] has_bit(mask, i) ==> i < n
}

/// The positions below `n` whose bit is set in `mask`, in increasing order.
pub open spec fn set_indices(mask: u16, n: nat) -> Seq<u8>
    decreases n,
{
    if n == 0 {
        Seq::empty()
    } else {
        let rest = set_indices(mask, (n - 1) as nat);
        if has_bit(mask, n - 1) {
            rest.push((n - 1) as u8)
        } else {
            rest
        }
    }
}

/// How many of the positions below `n` are set in `mask`.
pub open spec fn count_set(mask: u16, n: nat) -> nat {
    set_indices(mask, n).len()
}

/// The mask with the bits at the listed positions set.
pub open spec fn mask_of(s: Seq<u8>) -> u16
    decreases s.len(),
{
    if s.len() == 0 {
        0u16
    } else {
        mask_of(s.drop_last()) | (1u16 << (s.last() as u16))
    }
}

/// The mask with exactly the bits below `n` set.
pub open spec fn full_mask(n: nat) -> u16 {
    ((1u16 << (n as u16)) - 1) as u16
}

pub proof fn lemma_test_bit(mask: u16, i: u16)
    requires
        i < 16,
    ensures
        (mask & (1u16 << i) != 0u16) == has_bit(mask, i as int),
{
    assert((mask & (1u16 << i) != 0u16) == ((mask >> i) & 1u16 == 1u16)) by (bit_vector)
        requires
            i < 16,
    ;
}

pub proof fn lemma_and_bit(a: u16, b: u16, i: u16)
    requires
        i < 16,
    ensures
        has_bit(a & b, i as int) == (has_bit(a, i as int) && has_bit(b, i as int)),
{
    assert((((a & b) >> i) & 1u16 == 1u16) == (((a >> i) & 1u16 == 1u16) && ((b >> i) & 1u16
        == 1u16))) by (bit_vector)
        requires
            i < 16,
    ;
}

pub proof fn lemma_or_bit(mask: u16, j: u16, i: u16)
    requires
        i < 16,
        j < 16,
    ensures
        has_bit(mask | (1u16 << j), i as int) == (has_bit(mask, i as int) || i == j),
{
    assert((((mask | (1u16 << j)) >> i) & 1u16 == 1u16) == (((mask >> i) & 1u16 == 1u16) || i
        == j)) by (bit_vector)
        requires
            i < 16,
            j < 16,
    ;
}

pub proof fn lemma_not_bit(mask: u16, i: u16)
    requires
        i < 16,
    ensures
        has_bit(!mask, i as int) == !has_bit(mask, i as int),
{
    assert((((!mask) >> i) & 1u16 == 1u16) == !((mask >> i) & 1u16 == 1u16)) by (bit_vector)
        requires
            i < 16,
    ;
}

pub proof fn lemma_zero_bit(i: u16)
    requires
        i < 16,
    ensures
        !has_bit(0u16, i as int),
{
    assert((0u16 >> i) & 1u16 != 1u16) by (bit_vector);
}

pub proof fn lemma_full_mask_bit(n: u16, i: u16)
    requires
        n < 16,
        i < 16,
    ensures
        has_bit(full_mask(n as nat), i as int) == (i < n),
{
    assert(((((1u16 << n) - 1u16) as u16 >> i) & 1u16 == 1u16) == (i < n)) by (bit_vector)
        requires
            n < 16,
            i < 16,
    ;
}

/// Two masks that agree on every bit are equal.
pub proof fn lemma_bits_equal(a: u16, b: u16)
    requires
        forall|i: int| 0 <= i < 16 ==> has_bit(a, i) == has_bit(b, i),
    ensures
        a == b,
{
    assert(has_bit(a, 0) == has_bit(b, 0));
    assert(has_bit(a, 1) == has_bit(b, 1));
    assert(has_bit(a, 2) == has_bit(b, 2));
    assert(has_bit(a, 3) == has_bit(b, 3));
    assert(has_bit(a, 4) == has_bit(b, 4));
    assert(has_bit(a, 5) == has_bit(b, 5));
    assert(has_bit(a, 6) == has_bit(b, 6));
    assert(has_bit(a, 7) == has_bit(b, 7));
    assert(has_bit(a, 8) == has_bit(b, 8));
    assert(has_bit(a, 9) == has_bit(b, 9));
    assert(has_bit(a, 10) == has_bit(b, 10));
    assert(has_bit(a, 11) == has_bit(b, 11));
    assert(has_bit(a, 12) == has_bit(b, 12));
    assert(has_bit(a, 13) == has_bit(b, 13));
    assert(has_bit(a, 14) == has_bit(b, 14));
    assert(has_bit(a, 15) == has_bit(b, 15));
    assert(a == b) by (bit_vector)
        requires
            ((a >> 0u16) & 1u16 == 1u16) == ((b >> 0u16) & 1u16 == 1u16),
            ((a >> 1u16) & 1u16 == 1u16) == ((b >> 1u16) & 1u16 == 1u16),
            ((a >> 2u16) & 1u16 == 1u16) == ((b >> 2u16) & 1u16 == 1u16),
            ((a >> 3u16) & 1u16 == 1u16) == ((b >> 3u16) & 1u16 == 1u16),
            ((a >> 4u16) & 1u16 == 1u16) == ((b >> 4u16) & 1u16 == 1u16),
            ((a >> 5u16) & 1u16 == 1u16) == ((b >> 5u16) & 1u16 == 1u16),
            ((a >> 6u16) & 1u16 == 1u16) == ((b >> 6u16) & 1u16 == 1u16),
            ((a >> 7u16) & 1u16 == 1u16) == ((b >> 7u16) & 1u16 == 1u16),
            ((a >> 8u16) & 1u16 == 1u16) == ((b >> 8u16) & 1u16 == 1u16),
            ((a >> 9u16) & 1u16 == 1u16) == ((b >> 9u16) & 1u16 == 1u16),
            ((a >> 10u16) & 1u16 == 1u16) == ((b >> 10u16) & 1u16 == 1u16),
            ((a >> 11u16) & 1u16 == 1u16) == ((b >> 11u16) & 1u16 == 1u16),
            ((a >> 12u16) & 1u16 == 1u16) == ((b >> 12u16) & 1u16 == 1u16),
            ((a >> 13u16) & 1u16 == 1u16) == ((b >> 13u16) & 1u16 == 1u16),
            ((a >> 14u16) & 1u16 == 1u16) == ((b >> 14u16) & 1u16 == 1u16),
            ((a >> 15u16) & 1u16 == 1u16) == ((b >> 15u16) & 1u16 == 1u16),
    ;
}


/// What `set_indices` holds: exactly the set positions below `n`, each once,
/// in increasing order.
pub proof fn lemma_set_indices(mask: u16, n: nat)
    requires
        n <= 16,
    ensures
        set_indices(mask, n).len() <= n,
        forall|k: int|
            0 <= k < set_indices(mask, n).len() ==> #[trigger] set_indices(mask, n)[k] < n
                && has_bit(mask, set_indices(mask, n)[k] as int),
        forall|k: int, l: int|
            0 <= k < l < set_indices(mask, n).len() ==> #[trigger] set_indices(mask, n)[k]
                < #[trigger] set_indices(mask, n)[l],
        forall|i: int|
            0 <= i < n && has_bit(mask, i) ==> #[trigger] set_indices(mask, n).contains(i as u8),
    decreases n,
{
    if n > 0 {
        let m = (n - 1) as nat;
        lemma_set_indices(mask, m);
        let rest = set_indices(mask, m);
        let s = set_indices(mask, n);
        assert forall|i: int| 0 <= i < n && has_bit(mask, i) implies #[trigger] s.contains(
            i as u8,
        ) by {
            if i < m {
                assert(rest.contains(i as u8));
                let k = choose|k: int| 0 <= k < rest.len() && rest[k] == i as u8;
                assert(s[k] == i as u8);
            } else {
                assert(s[s.len() - 1] == i as u8);
            }
        }
    }
}

/// Two masks that agree below `n` list the same positions below `n`.
pub proof fn lemma_set_indices_agree(a: u16, b: u16, n: nat)
    requires
        forall|i: int| 0 <= i < n ==> has_bit(a, i) == has_bit(b, i),
    ensures
        set_indices(a, n) == set_indices(b, n),
    decreases n,
{
    if n > 0 {
        lemma_set_indices_agree(a, b, (n - 1) as nat);
    }
}

/// Below `n`, a position is either set in `mask` or in its complement.
pub proof fn lemma_count_complement(mask: u16, n: nat)
    requires
        n <= 16,
    ensures
        count_set(mask, n) + count_set(!mask, n) == n,
    decreases n,
{
    if n > 0 {
        lemma_count_complement(mask, (n - 1) as nat);
        lemma_not_bit(mask, (n - 1) as u16);
    }
}

/// Setting a clear bit below `n` adds one to the count below `n`.
pub proof fn lemma_count_set_bit(mask: u16, j: u16, n: nat)
    requires
        j < n <= 16,
        !has_bit(mask, j as int),
    ensures
        count_set(mask | (1u16 << j), n) == count_set(mask, n) + 1,
    decreases n,
{
    let m = (n - 1) as nat;
    let set = mask | (1u16 << j);
    if m == j {
        assert forall|i: int| 0 <= i < m implies has_bit(set, i) == has_bit(mask, i) by {
            lemma_or_bit(mask, j, i as u16);
        }
        lemma_set_indices_agree(set, mask, m);
        lemma_or_bit(mask, j, j);
    } else {
        lemma_count_set_bit(mask, j, m);
        lemma_or_bit(mask, j, m as u16);
    }
}

/// No position is set in the empty mask.
pub proof fn lemma_count_zero(n: nat)
    requires
        n <= 16,
    ensures
        count_set(0u16, n) == 0,
    decreases n,
{
    if n > 0 {
        lemma_count_zero((n - 1) as nat);
        lemma_zero_bit((n - 1) as u16);
    }
}

/// Every position below `n` is set exactly when all `n` of them are counted.
pub proof fn lemma_count_all(mask: u16, n: nat)
    requires
        n <= 16,
    ensures
        (count_set(mask, n) == n) == (forall|i: int| 0 <= i < n ==> has_bit(mask, i)),
    decreases n,
{
    if n > 0 {
        let m = (n - 1) as nat;
        lemma_count_all(mask, m);
        lemma_set_indices(mask, m);
    }
}

/// A mask with no bit at or above `n` (for `n < 16`) is the full mask exactly
/// when every position below `n` is set.
pub proof fn lemma_full_mask(mask: u16, n: nat)
    requires
        n < 16,
        bits_below(mask, n),
    ensures
        (mask == full_mask(n)) == (forall|i: int| 0 <= i < n ==> has_bit(mask, i)),
{
    assert forall|i: int| 0 <= i < 16 implies has_bit(full_mask(n), i) == (i < n) by {
        lemma_full_mask_bit(n as u16, i as u16);
    }
    if forall|i: int| 0 <= i < n ==> has_bit(mask, i) {
        assert forall|i: int| 0 <= i < 16 implies has_bit(mask, i) == has_bit(full_mask(n), i) by {
            if has_bit(mask, i) {
                assert(i < n);
            }
        }
        lemma_bits_equal(mask, full_mask(n));
    }
}

/// The positions below `count` whose bit is set in `mask`, in increasing
/// order.
pub fn mask_to_indices(mask: u16, count: u8) -> (r: Vec<u8>)
    requires
        count <= 16,
    ensures
        r@ == set_indices(mask, count as nat),
{
    let mut r: Vec<u8> = Vec::new();
    let mut i: u8 = 0;
    while i < count
        invariant
            i <= count <= 16,
            r@ == set_indices(mask, i as nat),
        decreases count - i,
    {
        proof {
            lemma_test_bit(mask, i as u16);
        }
        if mask & (1u16 << i) != 0 {
            r.push(i);
        }
        i = i + 1;
    }
    r
}


/// The positions listed below `a` are the first ones listed below `b`, for
/// `a <= b`.
pub proof fn lemma_set_indices_prefix(mask: u16, a: nat, b: nat)
    requires
        a <= b,
    ensures
        set_indices(mask, a).len() <= set_indices(mask, b).len(),
        forall|j: int|
            0 <= j < set_indices(mask, a).len() ==> #[trigger] set_indices(mask, b)[j]
                == set_indices(mask, a)[j],
    decreases b - a,
{
    if a < b {
        lemma_set_indices_prefix(mask, a, (b - 1) as nat);
    }
}

/// The `i`-th position listed below `n` has exactly `i` listed positions
/// below it.
pub proof fn lemma_set_indices_rank(mask: u16, n: nat, i: int)
    requires
        n <= 16,
        0 <= i < set_indices(mask, n).len(),
    ensures
        set_indices(mask, n)[i] < n,
        has_bit(mask, set_indices(mask, n)[i] as int),
        count_set(mask, set_indices(mask, n)[i] as nat) == i,
{
    let s = set_indices(mask, n);
    lemma_set_indices(mask, n);
    let w = s[i] as nat;
    let below = set_indices(mask, w);
    let upto = set_indices(mask, w + 1);
    assert(upto == below.push(w as u8));
    lemma_set_indices_prefix(mask, w + 1, n);
    let r = below.len() as int;
    assert(upto[r] == w as u8);
    assert(s[r] == w as u8);
    if r < i {
        assert(s[r] < s[i]);
    } else if r > i {
        assert(s[i] < s[r]);
    }
}

} // verus!
