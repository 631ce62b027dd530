//! Pure topology functions of the mountain range.
//!
//! A mountain of height `h` (0-based) is a complete binary subtree that
//! occupies exactly `pow2(h + 1) - 1` consecutive node-index slots; its root
//! is a peak.  A node count is *valid* when the greedy decomposition — take
//! the largest mountain that fits, then repeat on the remainder — consumes it
//! exactly.  Every specification below is stated against that greedy
//! decomposition.

use crate::errors::MmrError;
use vstd::arithmetic::div_mod::{
    lemma_fundamental_div_mod, lemma_fundamental_div_mod_converse, lemma_mod_bound,
    lemma_mod_decreases,
};
use vstd::arithmetic::mul::lemma_mul_inequality;
use vstd::arithmetic::power2::*;
use vstd::prelude::*;

verus! {

broadcast use lemma_pow2_pos, lemma_pow2_unfold, lemma_pow2_strictly_increases;

/// Node counts are kept below `2^62` so that every intermediate index
/// computation fits in a `u64`.
pub const MAX_ELEMENTS: u64 = 0x4000_0000_0000_0000;

/// Number of binary digits of `n`: the position of its highest set bit,
/// plus one, and `0` for `n == 0`.
pub open spec fn bit_len(n: nat) -> nat
    decreases n,
{
    if n == 0 {
        0
    } else {
        1 + bit_len(n / 2)
    }
}

/// What the greedy mountain decomposition leaves unconsumed, starting from
/// the mountain of `pow2(k) - 1` nodes and shrinking.
pub open spec fn greedy_rest(n: int, k: nat) -> int
    decreases k,
{
    if k == 0 {
        n
    } else {
        let m = pow2(k) - 1;
        if m <= n {
            greedy_rest(n - m, (k - 1) as nat)
        } else {
            greedy_rest(n, (k - 1) as nat)
        }
    }
}

/// Total leaves of the mountains the greedy decomposition consumes:
/// a mountain of `pow2(k) - 1` nodes has `pow2(k - 1)` leaves.
pub open spec fn greedy_leaves(n: int, k: nat) -> int
    decreases k,
{
    if k == 0 {
        0
    } else {
        let m = pow2(k) - 1;
        if m <= n {
            pow2((k - 1) as nat) + greedy_leaves(n - m, (k - 1) as nat)
        } else {
            greedy_leaves(n, (k - 1) as nat)
        }
    }
}

/// Peak indices of the mountains the greedy decomposition consumes, each the
/// running total of consumed slots; `shift` is the slots consumed so far.
pub open spec fn greedy_peaks(n: int, k: nat, shift: int) -> Seq<int>
    decreases k,
{
    if k == 0 {
        Seq::empty()
    } else {
        let m = pow2(k) - 1;
        if m <= n {
            seq![shift + m] + greedy_peaks(n - m, (k - 1) as nat, shift + m)
        } else {
            greedy_peaks(n, (k - 1) as nat, shift)
        }
    }
}

/// A node count is valid when it decomposes exactly into whole mountains.
pub open spec fn is_valid_count(n: nat) -> bool {
    greedy_rest(n as int, bit_len(n)) == 0
}

/// The number of leaves among the first `n` nodes, for a valid count `n`.
pub open spec fn spec_leaf_count(n: nat) -> nat {
    greedy_leaves(n as int, bit_len(n)) as nat
}

/// The peak indices of a count, left to right; empty for an invalid count.
pub open spec fn spec_peaks(n: nat) -> Seq<int> {
    if is_valid_count(n) {
        greedy_peaks(n as int, bit_len(n), 0)
    } else {
        Seq::empty()
    }
}

/// Number of set bits of `n`.
pub open spec fn popcount(n: nat) -> nat
    decreases n,
{
    if n == 0 {
        0
    } else {
        n % 2 + popcount(n / 2)
    }
}

/// Number of consecutive least-significant one-bits of `n`.
pub open spec fn trailing_ones(n: nat) -> nat
    decreases n,
{
    if n % 2 == 1 {
        1 + trailing_ones(n / 2)
    } else {
        0
    }
}

/// The node count of a forest of `leaves` leaves: every leaf contributes one
/// node, and every merge of two mountains one internal node, which leaves
/// `2 * leaves - popcount(leaves)` nodes in total.
pub open spec fn count_of_leaves(leaves: nat) -> int {
    2 * leaves - popcount(leaves)
}

pub proof fn lemma_bit_len_bounds(n: nat)
    ensures
        n < pow2(bit_len(n)),
        n > 0 ==> pow2((bit_len(n) - 1) as nat) <= n,
    decreases n,
{
    lemma2_to64();
    if n > 0 {
        lemma_bit_len_bounds(n / 2);
    }
}

pub proof fn lemma_bit_len_le(n: nat, k: nat)
    requires
        n < pow2(k),
    ensures
        bit_len(n) <= k,
    decreases n,
{
    if n > 0 {
        lemma2_to64();
        lemma_bit_len_le(n / 2, (k - 1) as nat);
    }
}

/// Greedy decompositions that start at a mountain too large to fit agree
/// with those that start at the largest fitting one.
pub proof fn lemma_greedy_start(n: int, k1: nat, k2: nat, shift: int)
    requires
        k1 <= k2,
        n < pow2((k1 + 1) as nat) - 1,
    ensures
        greedy_rest(n, k2) == greedy_rest(n, k1),
        greedy_leaves(n, k2) == greedy_leaves(n, k1),
        greedy_peaks(n, k2, shift) == greedy_peaks(n, k1, shift),
    decreases k2,
{
    if k2 > k1 {
        if k1 + 1 < k2 {
            lemma_pow2_strictly_increases((k1 + 1) as nat, k2);
        }
        lemma_greedy_start(n, k1, (k2 - 1) as nat, shift);
    }
}

/// Number of binary digits of `num`: the position of the highest set bit
/// plus one, `0` for `num == 0`.
pub fn bit_length(num: u64) -> (r: u64)
    ensures
        r == bit_len(num as nat),
{
    let mut n: u64 = num;
    let mut b: u64 = 0;
    proof {
        lemma2_to64_rest();
        lemma_bit_len_le(num as nat, 64);
    }
    while n > 0
        invariant
            bit_len(num as nat) == b + bit_len(n as nat),
            bit_len(num as nat) <= 64,
        decreases n,
    {
        n = n / 2;
        b = b + 1;
    }
    b
}

/// `pow2(e)` as a machine integer.
fn exp2(e: u64) -> (r: u64)
    requires
        pow2(e as nat) <= u64::MAX,
    ensures
        r == pow2(e as nat),
{
    let mut r: u64 = 1;
    let mut i: u64 = 0;
    proof {
        lemma2_to64();
    }
    while i < e
        invariant
            i <= e,
            r == pow2(i as nat),
            pow2(e as nat) <= u64::MAX,
        decreases e - i,
    {
        proof {
            if i + 1 < e {
                lemma_pow2_strictly_increases((i + 1) as nat, e as nat);
            }
        }
        r = r * 2;
        i = i + 1;
    }
    r
}

/// Decompose `elements_count` greedily into mountains, from the largest
/// `pow2(h) - 1` size downward, and record each mountain's last node index
/// as its peak.  An indecomposable count yields an empty vector: callers
/// must treat "no peaks for a nonzero count" as an invalid count.
pub fn find_peaks(elements_count: u64) -> (peaks: Vec<u64>)
    requires
        elements_count < MAX_ELEMENTS,
    ensures
        peaks@.map_values(|p: u64| p as int) == spec_peaks(elements_count as nat),
{
    proof {
        lemma2_to64_rest();
        lemma_bit_len_le(elements_count as nat, 62);
    }
    let b = bit_length(elements_count);
    proof {
        if b < 62 {
            lemma_pow2_strictly_increases(b as nat, 62);
        }
    }
    let mut mountain_elements_count: u64 = exp2(b) - 1;
    let mut mountain_index_shift: u64 = 0;
    let mut remaining = elements_count;
    let mut peaks: Vec<u64> = Vec::new();
    let ghost mut k: nat = b as nat;

    while mountain_elements_count > 0
        invariant
            mountain_elements_count == pow2(k) - 1,
            mountain_index_shift + remaining == elements_count,
            elements_count < MAX_ELEMENTS,
            greedy_rest(elements_count as int, b as nat) == greedy_rest(remaining as int, k),
            greedy_peaks(elements_count as int, b as nat, 0) == peaks@.map_values(
                |p: u64| p as int,
            ) + greedy_peaks(remaining as int, k, mountain_index_shift as int),
        decreases k,
    {
        proof {
            assert(k >= 1) by {
                if k == 0 {
                    assert(pow2(0) == 1) by {
                        lemma2_to64();
                    }
                }
            }
        }
        if mountain_elements_count <= remaining {
            mountain_index_shift = mountain_index_shift + mountain_elements_count;
            let ghost old_map = peaks@.map_values(|p: u64| p as int);
            peaks.push(mountain_index_shift);
            proof {
                assert(peaks@.map_values(|p: u64| p as int) =~= old_map.push(
                    mountain_index_shift as int,
                ));
                assert(seq![mountain_index_shift as int] + greedy_peaks(
                    remaining as int - mountain_elements_count,
                    (k - 1) as nat,
                    mountain_index_shift as int,
                ) =~= Seq::<int>::empty().push(mountain_index_shift as int) + greedy_peaks(
                    remaining as int - mountain_elements_count,
                    (k - 1) as nat,
                    mountain_index_shift as int,
                ));
            }
            remaining = remaining - mountain_elements_count;
        }
        mountain_elements_count = mountain_elements_count / 2;
        proof {
            k = (k - 1) as nat;
        }
    }
    proof {
        assert(k == 0) by {
            if k >= 1 {
                lemma_pow2_pos((k - 1) as nat);
            }
        }
        if remaining > 0 {
            assert(!is_valid_count(elements_count as nat));
        }
    }
    if remaining > 0 {
        return Vec::new();
    }
    proof {
        assert(peaks@.map_values(|p: u64| p as int) =~= peaks@.map_values(|p: u64| p as int)
            + greedy_peaks(remaining as int, 0, mountain_index_shift as int));
    }
    peaks
}

/// The number of leaves among `elements_count` nodes: the same greedy
/// decomposition as [`find_peaks`], summing each consumed mountain's
/// `pow2(h - 1)` leaves.  Rejects a count that does not decompose.
pub fn elements_count_to_leaf_count(elements_count: u64) -> (r: Result<u64, MmrError>)
    requires
        elements_count < MAX_ELEMENTS,
    ensures
        r is Ok <==> is_valid_count(elements_count as nat),
        r matches Ok(l) ==> l == spec_leaf_count(elements_count as nat),
        r matches Err(e) ==> e == MmrError::InvalidCount,
{
    proof {
        lemma2_to64();
        lemma2_to64_rest();
        lemma_bit_len_le(elements_count as nat, 62);
    }
    let b = bit_length(elements_count);
    proof {
        if b < 62 {
            lemma_pow2_strictly_increases(b as nat, 62);
        }
        lemma_bit_len_bounds(elements_count as nat);
        lemma_greedy_start(elements_count as int, b as nat, (b + 1) as nat, 0);
    }
    let mut mountain_leaf_count: u64 = exp2(b);
    let mut leaf_count: u64 = 0;
    let mut remaining = elements_count;
    let ghost mut k: nat = (b + 1) as nat;

    while mountain_leaf_count > 0
        invariant
            k <= b + 1,
            b <= 62,
            k >= 1 ==> mountain_leaf_count == pow2((k - 1) as nat),
            k == 0 ==> mountain_leaf_count == 0,
            leaf_count + remaining <= elements_count < MAX_ELEMENTS,
            greedy_rest(elements_count as int, b as nat) == greedy_rest(remaining as int, k),
            greedy_leaves(elements_count as int, b as nat) == leaf_count + greedy_leaves(
                remaining as int,
                k,
            ),
        decreases k,
    {
        proof {
            assert(k >= 1);
            assert(2 * mountain_leaf_count - 1 == pow2(k) - 1);
            assert(pow2(k) <= pow2(63)) by {
                if k < 63 {
                    lemma_pow2_strictly_increases(k, 63);
                }
            }
            lemma2_to64_rest();
        }
        let mountain_elements_count: u64 = 2 * mountain_leaf_count - 1;
        if mountain_elements_count <= remaining {
            leaf_count = leaf_count + mountain_leaf_count;
            remaining = remaining - mountain_elements_count;
        }
        mountain_leaf_count = mountain_leaf_count / 2;
        proof {
            k = (k - 1) as nat;
        }
    }
    if remaining > 0 {
        return Err(MmrError::InvalidCount);
    }
    Ok(leaf_count)
}

/// Number of consecutive least-significant one-bits of `num`.
fn count_trailing_ones(num: u64) -> (r: u64)
    ensures
        r == trailing_ones(num as nat),
{
    let mut n: u64 = num;
    let mut count: u64 = 0;
    proof {
        lemma_trailing_ones_le_bit_len(num as nat);
        lemma2_to64_rest();
        lemma_bit_len_le(num as nat, 64);
    }
    while n % 2 == 1
        invariant
            trailing_ones(num as nat) == count + trailing_ones(n as nat),
            trailing_ones(num as nat) <= 64,
        decreases n,
    {
        n = n / 2;
        count = count + 1;
    }
    count
}

pub proof fn lemma_trailing_ones_le_bit_len(n: nat)
    ensures
        trailing_ones(n) <= bit_len(n),
    decreases n,
{
    if n % 2 == 1 {
        lemma_trailing_ones_le_bit_len(n / 2);
    }
}

/// How many merges the next append will perform: one for each consecutive
/// least-significant one-bit of the current leaf count, as two equal-height
/// mountains collapse pairwise in a binary-counter-increment pattern.
pub fn leaf_count_to_append_no_merges(leaf_count: u64) -> (r: u64)
    ensures
        r == trailing_ones(leaf_count as nat),
{
    count_trailing_ones(leaf_count)
}

/// How many leaves exist strictly before `element_index`; when the element
/// is itself a leaf this is its 0-based leaf rank.  An index of `0`, or one
/// that does not sit directly after a whole forest (i.e. is not a leaf), is
/// rejected.
pub fn element_index_to_leaf_index(element_index: u64) -> (r: Result<u64, MmrError>)
    requires
        element_index < MAX_ELEMENTS,
    ensures
        r is Ok <==> element_index >= 1 && is_valid_count((element_index - 1) as nat),
        r matches Ok(l) ==> l == spec_leaf_count((element_index - 1) as nat),
        r matches Err(e) ==> e == MmrError::InvalidIndex,
{
    if element_index == 0 {
        return Err(MmrError::InvalidIndex);
    }
    match elements_count_to_leaf_count(element_index - 1) {
        Ok(val) => Ok(val),
        Err(_) => Err(MmrError::InvalidIndex),
    }
}

pub proof fn lemma_popcount_le(n: nat)
    ensures
        popcount(n) <= n,
    decreases n,
{
    if n > 0 {
        lemma_popcount_le(n / 2);
    }
}

/// Adding a power of two above all set bits sets exactly one more bit.
pub proof fn lemma_popcount_add_pow2(l: nat, k: nat)
    requires
        l < pow2(k),
    ensures
        popcount(l + pow2(k)) == popcount(l) + 1,
    decreases k,
{
    lemma2_to64();
    if k > 0 {
        lemma_fundamental_div_mod(l as int, 2);
        lemma_fundamental_div_mod_converse(
            (l + pow2(k)) as int,
            2,
            (l / 2 + pow2((k - 1) as nat)) as int,
            (l % 2) as int,
        );
        lemma_popcount_add_pow2(l / 2, (k - 1) as nat);
    }
}

/// A forest of `l` leaves, one mountain per set bit of `l`, has
/// `count_of_leaves(l)` nodes, and the greedy decomposition recovers `l`.
#[verifier::rlimit(50)]
pub proof fn lemma_forest(l: nat, k: nat)
    requires
        l < pow2(k),
    ensures
        l <= count_of_leaves(l),
        count_of_leaves(l) <= pow2((k + 1) as nat) - 2,
        greedy_rest(count_of_leaves(l), k) == 0,
        greedy_leaves(count_of_leaves(l), k) == l,
    decreases k,
{
    lemma_popcount_le(l);
    if k == 0 {
        assert(pow2(0) == 1) by {
            lemma2_to64();
        }
        assert(popcount(0) == 0);
    } else {
        let kp = (k - 1) as nat;
        let m = pow2(k) - 1;
        if l < pow2(kp) {
            lemma_forest(l, kp);
            assert(count_of_leaves(l) <= pow2(k) - 2);
            assert(greedy_rest(count_of_leaves(l), k) == greedy_rest(count_of_leaves(l), kp));
            assert(greedy_leaves(count_of_leaves(l), k) == greedy_leaves(count_of_leaves(l), kp));
        } else {
            let l2 = (l - pow2(kp)) as nat;
            lemma_popcount_add_pow2(l2, kp);
            lemma_forest(l2, kp);
            assert(count_of_leaves(l) == m + count_of_leaves(l2));
            assert(m <= count_of_leaves(l));
            assert(greedy_rest(count_of_leaves(l), k) == greedy_rest(count_of_leaves(l2), kp));
            assert(greedy_leaves(count_of_leaves(l), k) == pow2(kp) + greedy_leaves(
                count_of_leaves(l2),
                kp,
            ));
        }
    }
}

/// Conversely, what the greedy decomposition of an exactly-decomposable
/// count yields as its leaf count maps back to that very count.
pub proof fn lemma_forest_inverse(n: int, k: nat)
    requires
        0 <= n,
        greedy_rest(n, k) == 0,
    ensures
        0 <= greedy_leaves(n, k) < pow2(k),
        count_of_leaves(greedy_leaves(n, k) as nat) == n,
    decreases k,
{
    lemma2_to64();
    if k > 0 {
        let m = pow2(k) - 1;
        if m <= n {
            lemma_forest_inverse(n - m, (k - 1) as nat);
            let l2 = greedy_leaves(n - m, (k - 1) as nat) as nat;
            lemma_popcount_add_pow2(l2, (k - 1) as nat);
        } else {
            lemma_forest_inverse(n, (k - 1) as nat);
        }
    }
}

/// Incrementing a counter turns its trailing one-bits to zero and sets one
/// bit above them.
pub proof fn lemma_popcount_increment(l: nat)
    ensures
        trailing_ones(l) <= popcount(l),
        popcount(l + 1) + trailing_ones(l) == popcount(l) + 1,
    decreases l,
{
    if l % 2 == 1 {
        lemma_popcount_increment(l / 2);
    }
}

/// The total node-index advance of the sibling walk strictly below height
/// `h`, for a leaf of leaf rank `l`: one slot past a right child, a whole
/// sibling mountain and one slot past a left child.
pub open spec fn path_shift(l: nat, h: nat) -> nat
    decreases h,
{
    if h == 0 {
        0
    } else {
        path_shift(l, (h - 1) as nat) + (if (l / pow2((h - 1) as nat)) % 2 == 1 {
            1nat
        } else {
            pow2(h)
        })
    }
}

/// One step of the binary expansion of `l` seen through powers of two.
pub proof fn lemma_mod_pow2_step(l: nat, h: nat)
    ensures
        (l / pow2(h)) % 2 == 1 ==> l % pow2((h + 1) as nat) == l % pow2(h) + pow2(h),
        (l / pow2(h)) % 2 == 0 ==> l % pow2((h + 1) as nat) == l % pow2(h),
        l / pow2((h + 1) as nat) == (l / pow2(h)) / 2,
{
    let p = pow2(h) as int;
    lemma_fundamental_div_mod(l as int, p);
    let q = l as int / p;
    let r = l as int % p;
    lemma_mod_bound(l as int, p);
    lemma_fundamental_div_mod(q, 2);
    let q2 = q / 2;
    let b = q % 2;
    lemma_mod_bound(q, 2);
    assert(l as int == q2 * (2 * p) + (b * p + r)) by (nonlinear_arith)
        requires
            l as int == p * q + r,
            q == 2 * q2 + b,
    ;
    assert(0 <= b * p + r < 2 * p) by (nonlinear_arith)
        requires
            0 <= b < 2,
            0 <= r < p,
    ;
    lemma_fundamental_div_mod_converse(l as int, 2 * p, q2, b * p + r);
    assert(b == 0 ==> b * p == 0) by (nonlinear_arith);
    assert(b == 1 ==> b * p == p) by (nonlinear_arith);
}

/// Set bits split cleanly at any cut point.
pub proof fn lemma_popcount_split(l: nat, h: nat)
    ensures
        popcount(l) == popcount(l % pow2(h)) + popcount(l / pow2(h)),
    decreases h,
{
    lemma2_to64();
    if h == 0 {
        lemma_fundamental_div_mod_converse(l as int, 1, l as int, 0);
    } else {
        let hp = (h - 1) as nat;
        lemma_popcount_split(l, hp);
        lemma_mod_pow2_step(l, hp);
        lemma_mod_bound(l as int, pow2(hp) as int);
        assert(popcount(l / pow2(hp)) == (l / pow2(hp)) % 2 + popcount((l / pow2(hp)) / 2));
        if (l / pow2(hp)) % 2 == 1 {
            lemma_popcount_add_pow2(l % pow2(hp), hp);
            assert(l % pow2(h) == l % pow2(hp) + pow2(hp));
        } else {
            assert(l % pow2(h) == l % pow2(hp));
        }
    }
}

/// The sibling walk has advanced past at least one full mountain per level:
/// a lower bound on `path_shift` in terms of the bits already consumed.
pub proof fn lemma_path_shift_lower(l: nat, h: nat)
    ensures
        path_shift(l, h) + 2 * (l % pow2(h)) + 2 >= pow2((h + 1) as nat) + popcount(l % pow2(h)),
    decreases h,
{
    lemma2_to64();
    if h > 0 {
        let hp = (h - 1) as nat;
        lemma_path_shift_lower(l, hp);
        lemma_mod_pow2_step(l, hp);
        lemma_mod_bound(l as int, pow2(hp) as int);
        if (l / pow2(hp)) % 2 == 1 {
            lemma_popcount_add_pow2(l % pow2(hp), hp);
        }
    }
}

/// At a right child the walk stands at least one whole sibling mountain
/// above the range's start.
pub proof fn lemma_right_step_bound(l: nat, h: nat)
    requires
        (l / pow2(h)) % 2 == 1,
    ensures
        2 * l + 1 + path_shift(l, h) >= pow2((h + 1) as nat) + popcount(l),
{
    lemma_path_shift_lower(l, h);
    lemma_popcount_split(l, h);
    let k = l / pow2(h);
    lemma_popcount_le(k);
    lemma_fundamental_div_mod(l as int, pow2(h) as int);
    lemma_mod_bound(l as int, pow2(h) as int);
    assert(2 * (pow2(h) as int * k) == pow2((h + 1) as nat) as int * k) by (nonlinear_arith)
        requires
            pow2((h + 1) as nat) == 2 * pow2(h),
    ;
    lemma_mul_inequality(2, pow2((h + 1) as nat) as int, k as int);
}

/// The sibling walk from node `current`, a node of height `height` whose
/// remaining leaf rank seen from that height is `leaf`, upward while the
/// current node lies within the first `ec` node slots.  A right child's
/// sibling lies one whole mountain below it, a left child's one whole
/// mountain above it.
pub open spec fn sibling_walk(current: int, leaf: nat, height: nat, ec: int) -> Seq<int>
    decreases (if current <= ec { (ec + 1 - current) as nat } else { 0nat }),
{
    if current > ec {
        Seq::empty()
    } else {
        let offset = pow2((height + 1) as nat) - 1;
        if leaf % 2 == 1 {
            seq![current - offset] + sibling_walk(current + 1, leaf / 2, (height + 1) as nat, ec)
        } else {
            seq![current + offset] + sibling_walk(
                current + offset + 1,
                leaf / 2,
                (height + 1) as nat,
                ec,
            )
        }
    }
}

/// The authentication path of leaf `e` among `ec` nodes: the sibling walk
/// from the leaf upward, with the final entry — the peak's nonexistent
/// sibling — discarded.
pub open spec fn spec_siblings(e: nat, ec: nat) -> Seq<int> {
    let walk = sibling_walk(e as int, spec_leaf_count((e - 1) as nat), 0, ec as int);
    if walk.len() == 0 {
        walk
    } else {
        walk.drop_last()
    }
}

/// Law: one append to a valid range of `ec` nodes and `lc` leaves performs
/// `trailing_ones(lc)` merges and so creates `1 + trailing_ones(lc)` nodes;
/// the resulting node count is again valid, and the leaf count derived from
/// it by greedy decomposition is exactly `lc + 1` — the derived and the
/// tracked leaf count can never drift apart.
pub proof fn lemma_append_counts(ec: nat, lc: nat)
    requires
        is_valid_count(ec),
        lc == spec_leaf_count(ec),
    ensures
        ec == count_of_leaves(lc),
        is_valid_count((ec + 1 + trailing_ones(lc)) as nat),
        spec_leaf_count((ec + 1 + trailing_ones(lc)) as nat) == lc + 1,
{
    lemma_bit_len_bounds(ec);
    lemma_forest_inverse(ec as int, bit_len(ec));
    lemma_popcount_increment(lc);
    let ec2: nat = (ec + 1 + trailing_ones(lc)) as nat;
    assert(ec2 as int == count_of_leaves((lc + 1) as nat));
    let b = bit_len((lc + 1) as nat);
    lemma_bit_len_bounds((lc + 1) as nat);
    lemma_forest((lc + 1) as nat, b);
    let b2 = bit_len(ec2);
    lemma_bit_len_bounds(ec2);
    if b2 <= b {
        lemma_greedy_start(ec2 as int, b2, b, 0);
    } else {
        lemma_greedy_start(ec2 as int, b, b2, 0);
    }
}

/// Every peak of the greedy decomposition lies in `(shift, shift + n]`, the
/// peaks increase strictly from left to right, and for a nonzero exactly
/// decomposed count the last peak is the count itself — the mountain sizes,
/// which are the successive differences, sum exactly to `n`.
pub proof fn lemma_greedy_peaks_shape(n: int, k: nat, shift: int)
    requires
        greedy_rest(n, k) == 0,
        0 <= n,
    ensures
        n == 0 ==> greedy_peaks(n, k, shift).len() == 0,
        n > 0 ==> greedy_peaks(n, k, shift).len() >= 1 && greedy_peaks(n, k, shift).last() == shift
            + n,
        forall|i: int|
            0 <= i < greedy_peaks(n, k, shift).len() ==> shift < #[trigger] greedy_peaks(
                n,
                k,
                shift,
            )[i] <= shift + n,
        forall|i: int|
            0 < i < greedy_peaks(n, k, shift).len() ==> greedy_peaks(n, k, shift)[i - 1]
                < #[trigger] greedy_peaks(n, k, shift)[i],
    decreases k,
{
    if k > 0 {
        let m = pow2(k) - 1;
        if m <= n {
            lemma_greedy_peaks_shape(n - m, (k - 1) as nat, shift + m);
        } else {
            lemma_greedy_peaks_shape(n, (k - 1) as nat, shift);
        }
    }
}

/// Every bit below the trailing-ones count is set.
pub proof fn lemma_trailing_ones_bits(l: nat, j: nat)
    requires
        j < trailing_ones(l),
    ensures
        (l / pow2(j)) % 2 == 1,
    decreases j,
{
    lemma2_to64();
    if j == 0 {
        lemma_fundamental_div_mod_converse(l as int, 1, l as int, 0);
    } else {
        lemma_trailing_ones_bits(l / 2, (j - 1) as nat);
        vstd::arithmetic::div_mod::lemma_div_denominator(l as int, 2, pow2((j - 1) as nat) as int);
    }
}

/// While the walk climbs through trailing one-bits it advances one slot per
/// level: each level is a right child whose parent sits directly above.
pub proof fn lemma_path_shift_ones(l: nat, j: nat)
    requires
        j <= trailing_ones(l),
    ensures
        path_shift(l, j) == j,
    decreases j,
{
    if j > 0 {
        lemma_path_shift_ones(l, (j - 1) as nat);
        lemma_trailing_ones_bits(l, (j - 1) as nat);
    }
}

/// Law: the peaks of `n` are strictly increasing positions ending at `n`
/// itself — the mountain sizes, their successive differences, sum exactly
/// to `n` — and the peak sequence is empty precisely when `n` is zero or
/// not expressible as a forest of whole mountains; the expressible counts
/// are exactly the values `count_of_leaves(l)`.
pub proof fn lemma_find_peaks_cover(n: nat)
    ensures
        spec_peaks(n).len() == 0 <==> (n == 0 || !is_valid_count(n)),
        n > 0 && is_valid_count(n) ==> spec_peaks(n).last() == n,
        forall|i: int| 0 <= i < spec_peaks(n).len() ==> 1 <= #[trigger] spec_peaks(n)[i] <= n,
        forall|i: int|
            0 < i < spec_peaks(n).len() ==> spec_peaks(n)[i - 1] < #[trigger] spec_peaks(n)[i],
        is_valid_count(n) <==> n == count_of_leaves(spec_leaf_count(n)),
{
    lemma_bit_len_bounds(n);
    if is_valid_count(n) {
        lemma_greedy_peaks_shape(n as int, bit_len(n), 0);
        lemma_forest_inverse(n as int, bit_len(n));
    } else {
        if n == count_of_leaves(spec_leaf_count(n)) {
            let l = spec_leaf_count(n);
            lemma_bit_len_bounds(l);
            lemma_forest(l, bit_len(l));
            if bit_len(l) <= bit_len(n) {
                lemma_greedy_start(n as int, bit_len(l), bit_len(n), 0);
            } else {
                lemma_greedy_start(n as int, bit_len(n), bit_len(l), 0);
            }
        }
    }
}

/// Casting a pushed machine integer commutes with casting the sequence.
proof fn lemma_map_cast_push(s: Seq<u64>, v: u64)
    ensures
        s.push(v).map_values(|x: u64| x as int) == s.map_values(|x: u64| x as int).push(v as int),
{
    assert(s.push(v).map_values(|x: u64| x as int) =~= s.map_values(|x: u64| x as int).push(
        v as int,
    ));
}

/// Moving the head of a suspended walk onto the prefix keeps the whole.
proof fn lemma_walk_shift(prefix: Seq<int>, sib: int, rest: Seq<int>)
    ensures
        prefix + (seq![sib] + rest) == prefix.push(sib) + rest,
{
    assert(prefix + (seq![sib] + rest) =~= prefix.push(sib) + rest);
}

/// Every entry of the sibling walk except the last lies in `[1, ec]`: a
/// right sibling is already fully built below the current node, and a kept
/// left sibling sits directly before the next node the walk visits.
pub proof fn lemma_walk_in_range(current: int, leaf: nat, height: nat, ec: int, l0: nat, e: int)
    requires
        e >= 1,
        e - 1 == count_of_leaves(l0),
        current == e + path_shift(l0, height),
        leaf == l0 / pow2(height),
    ensures
        forall|i: int|
            0 <= i < sibling_walk(current, leaf, height, ec).len() - 1 ==> 1 <= #[trigger] sibling_walk(
                current,
                leaf,
                height,
                ec,
            )[i] <= ec,
    decreases (if current <= ec { (ec + 1 - current) as nat } else { 0nat }),
{
    if current <= ec {
        let offset = pow2((height + 1) as nat) - 1;
        lemma_mod_pow2_step(l0, height);
        let nc = if leaf % 2 == 1 {
            current + 1
        } else {
            current + offset + 1
        };
        lemma_walk_in_range(nc, leaf / 2, (height + 1) as nat, ec, l0, e);
        if leaf % 2 == 1 {
            lemma_right_step_bound(l0, height);
        }
        let walk = sibling_walk(current, leaf, height, ec);
        let tail = sibling_walk(nc, leaf / 2, (height + 1) as nat, ec);
        assert forall|i: int| 0 <= i < walk.len() - 1 implies 1 <= #[trigger] walk[i] <= ec by {
            if i == 0 {
                assert(tail.len() >= 1);
                assert(nc <= ec);
            } else {
                assert(walk[i] == tail[i - 1]);
            }
        }
    }
}

/// The authentication path for `element_index`: the ordered sibling node
/// indices from the leaf upward to just below its peak.  Rejects an index
/// that is zero or does not denote a leaf.
#[verifier::rlimit(100)]
pub fn find_siblings(element_index: u64, elements_count: u64) -> (r: Result<Vec<u64>, MmrError>)
    requires
        elements_count < MAX_ELEMENTS,
        element_index < MAX_ELEMENTS,
    ensures
        r is Ok <==> element_index >= 1 && is_valid_count((element_index - 1) as nat),
        r matches Ok(s) ==> s@.map_values(|x: u64| x as int) == spec_siblings(
            element_index as nat,
            elements_count as nat,
        ),
        r matches Err(e) ==> e == MmrError::InvalidIndex,
{
    let mut leaf_index = match element_index_to_leaf_index(element_index) {
        Ok(val) => val,
        Err(e) => {
            return Err(e);
        },
    };
    let ghost l0: nat = leaf_index as nat;
    proof {
        lemma_bit_len_bounds((element_index - 1) as nat);
        lemma_forest_inverse(element_index - 1, bit_len((element_index - 1) as nat));
        lemma_popcount_le(l0);
        lemma2_to64();
    }
    let mut height: u64 = 0;
    let mut siblings: Vec<u64> = Vec::new();
    let mut current_element_index = element_index;
    let mut two_h: u64 = 1;

    while current_element_index <= elements_count
        invariant
            elements_count < MAX_ELEMENTS,
            1 <= element_index,
            element_index - 1 == count_of_leaves(l0),
            l0 <= element_index - 1,
            height <= 62,
            two_h == pow2(height as nat),
            leaf_index as nat == l0 / pow2(height as nat),
            current_element_index as int == element_index + path_shift(l0, height as nat),
            sibling_walk(element_index as int, l0, 0, elements_count as int) == siblings@.map_values(
                |x: u64| x as int,
            ) + sibling_walk(
                current_element_index as int,
                leaf_index as nat,
                height as nat,
                elements_count as int,
            ),
        decreases (if current_element_index <= elements_count {
            elements_count + 1 - current_element_index
        } else {
            0int
        }),
    {
        let ghost h: nat = height as nat;
        let ghost old_sib = siblings@;
        let ghost old_map = siblings@.map_values(|x: u64| x as int);
        proof {
            assert(2 * (two_h as int) <= 2 * (elements_count as int)) by {
                lemma_path_shift_lower(l0, h);
                lemma_mod_decreases(l0, pow2(h));
            }
            assert(height < 62) by {
                if height >= 62 {
                    lemma2_to64_rest();
                    if h + 1 > 63 {
                        lemma_pow2_strictly_increases(63, (h + 1) as nat);
                    }
                }
            }
            assert((l0 / pow2(h)) / 2 == l0 / pow2((h + 1) as nat) && ((l0 / pow2(h)) % 2 == 1
                ==> path_shift(l0, (h + 1) as nat) == path_shift(l0, h) + 1) && ((l0 / pow2(h)) % 2
                == 0 ==> path_shift(l0, (h + 1) as nat) == path_shift(l0, h) + pow2(
                (h + 1) as nat,
            ))) by {
                lemma_mod_pow2_step(l0, h);
            }
        }
        let siblings_offset: u64 = 2 * two_h - 1;
        if leaf_index % 2 == 1 {
            // a right child: its sibling mountain is fully built, below it
            proof {
                assert(current_element_index as int >= pow2((h + 1) as nat)) by {
                    lemma_right_step_bound(l0, h);
                }
            }
            siblings.push(current_element_index - siblings_offset);
            current_element_index = current_element_index + 1;
        } else {
            // a left child: its sibling's slot lies one mountain above
            siblings.push(current_element_index + siblings_offset);
            current_element_index = current_element_index + siblings_offset + 1;
        }
        proof {
            lemma_map_cast_push(old_sib, siblings@.last());
            assert(siblings@ == old_sib.push(siblings@.last()));
            lemma_walk_shift(
                old_map,
                siblings@.last() as int,
                sibling_walk(
                    current_element_index as int,
                    (leaf_index / 2) as nat,
                    (h + 1) as nat,
                    elements_count as int,
                ),
            );
        }
        leaf_index = leaf_index / 2;
        height = height + 1;
        two_h = 2 * two_h;
    }
    let ghost full_walk = sibling_walk(element_index as int, l0, 0, elements_count as int);
    proof {
        assert(sibling_walk(
            current_element_index as int,
            leaf_index as nat,
            height as nat,
            elements_count as int,
        ) =~= Seq::<int>::empty());
        assert(full_walk =~= siblings@.map_values(|x: u64| x as int));
    }
    let ghost before_pop = siblings@;
    siblings.pop();
    proof {
        if full_walk.len() > 0 {
            assert(siblings@.map_values(|x: u64| x as int) =~= full_walk.drop_last());
        } else {
            assert(siblings@.map_values(|x: u64| x as int) =~= full_walk);
        }
    }
    Ok(siblings)
}

/// Whether `x` occurs in `v`.
fn vec_contains(v: &Vec<u64>, x: u64) -> (b: bool)
    ensures
        b == v@.contains(x),
{
    let mut i: usize = 0;
    while i < v.len()
        invariant
            i <= v@.len(),
            forall|j: int| 0 <= j < i ==> v@[j] != x,
        decreases v@.len() - i,
    {
        if v[i] == x {
            return true;
        }
        i = i + 1;
    }
    proof {
        if v@.contains(x) {
            let j = choose|j: int| 0 <= j < v@.len() && v@[j] == x;
            assert(v@[j] != x);
        }
    }
    false
}

/// The distinct values of `array`, each kept once, in first-occurrence
/// order.
pub fn array_deduplicate(array: Vec<u64>) -> (r: Vec<u64>)
    ensures
        r@.no_duplicates(),
        forall|x: u64| array@.contains(x) <==> r@.contains(x),
{
    let mut result: Vec<u64> = Vec::new();
    let mut i: usize = 0;
    proof {
        assert(array@.take(0).len() == 0);
    }
    while i < array.len()
        invariant
            i <= array@.len(),
            result@.no_duplicates(),
            forall|x: u64| #[trigger] result@.contains(x) <==> array@.take(i as int).contains(x),
        decreases array@.len() - i,
    {
        let ghost old_result = result@;
        let x = array[i];
        if !vec_contains(&result, x) {
            result.push(x);
            proof {
                assert forall|y: u64| #[trigger] result@.contains(y) implies old_result.contains(y)
                    || y == x by {
                    let j = choose|j: int| 0 <= j < result@.len() && result@[j] == y;
                    if j < old_result.len() {
                        assert(old_result[j] == y);
                    }
                }
                assert(result@.no_duplicates());
            }
        }
        i = i + 1;
        proof {
            assert(array@.take(i as int).drop_last() =~= array@.take(i - 1));
            assert forall|y: u64| #[trigger] array@.take(i as int).contains(y) implies
                result@.contains(y) by {
                let j = choose|j: int|
                    0 <= j < array@.take(i as int).len() && array@.take(i as int)[j] == y;
                if j < i - 1 {
                    assert(array@.take(i - 1).contains(y)) by {
                        assert(array@.take(i - 1)[j] == y);
                    }
                    assert(old_result.contains(y));
                    let j2 = choose|j2: int|
                        0 <= j2 < old_result.len() && #[trigger] old_result[j2] == y;
                    assert(result@[j2] == y);
                } else {
                    if !old_result.contains(x) {
                        assert(result@[old_result.len() as int] == x);
                    }
                }
            }
            assert forall|y: u64| result@.contains(y) implies #[trigger] array@.take(
                i as int,
            ).contains(y) by {
                if old_result.contains(y) {
                    let j = choose|j: int|
                        0 <= j < array@.take(i - 1).len() && #[trigger] array@.take(i - 1)[j] == y;
                    assert(array@.take(i as int)[j] == y);
                } else {
                    assert(array@.take(i as int)[i - 1] == y);
                }
            }
        }
    }
    proof {
        assert(array@.take(array@.len() as int) =~= array@);
    }
    result
}

/// Walk the greedy decomposition of `ec` from the largest mountain down:
/// the rank (0-based, left to right) and 0-based height of the mountain
/// holding `e`.
pub open spec fn peak_info_rec(ec: int, e: int, k: nat, rank: nat) -> (nat, nat)
    decreases k,
{
    if k == 0 {
        (rank, 0)
    } else {
        let m = pow2(k) - 1;
        if m <= ec {
            if e <= m {
                (rank, (k - 1) as nat)
            } else {
                peak_info_rec(ec - m, e - m, (k - 1) as nat, rank + 1)
            }
        } else {
            peak_info_rec(ec, e, (k - 1) as nat, rank)
        }
    }
}

/// The mountain rank and height of the mountain holding node `e`, for a
/// valid count `ec` with `1 <= e <= ec`.
pub open spec fn spec_peak_info(ec: nat, e: nat) -> (nat, nat) {
    peak_info_rec(ec as int, e as int, bit_len(ec), 0)
}

proof fn lemma_peak_info_rec_locates(ec: int, e: int, k: nat, shift: int, rank: nat)
    requires
        greedy_rest(ec, k) == 0,
        1 <= e <= ec,
    ensures
        ({
            let pr = peak_info_rec(ec, e, k, rank);
            let s = greedy_peaks(ec, k, shift);
            &&& rank <= pr.0 < rank + s.len()
            &&& shift + e <= s[pr.0 - rank]
            &&& (if pr.0 == rank {
                shift
            } else {
                s[pr.0 - rank - 1]
            }) < shift + e
            &&& s[pr.0 - rank] - (if pr.0 == rank {
                shift
            } else {
                s[pr.0 - rank - 1]
            }) == pow2((pr.1 + 1) as nat) - 1
        }),
    decreases k,
{
    let m = pow2(k) - 1;
    if m <= ec && e > m {
        lemma_peak_info_rec_locates(ec - m, e - m, (k - 1) as nat, shift + m, (rank + 1) as nat);
        let pr = peak_info_rec(ec, e, k, rank);
        let s = greedy_peaks(ec, k, shift);
        let s2 = greedy_peaks(ec - m, (k - 1) as nat, shift + m);
        assert(s == seq![shift + m] + s2);
        assert(forall|j: int| 0 <= j < s2.len() ==> s[j + 1] == s2[j]);
    } else if m > ec {
        lemma_peak_info_rec_locates(ec, e, (k - 1) as nat, shift, rank);
    }
}

/// Law: `get_peak_info` locates `e` exactly.  The rank is a real peak rank;
/// `e` lies strictly after the previous peak and at or before its own; and
/// the reported height is that mountain's height — the mountain spans
/// `pow2(height + 1) - 1` slots.  In particular an index at or before the
/// first peak gets rank 0 with the first (largest) mountain's height, and
/// an index after the second-to-last peak gets the highest rank with the
/// last (smallest) mountain's height.
pub proof fn lemma_peak_info_locates(ec: nat, e: nat)
    requires
        is_valid_count(ec),
        1 <= e <= ec,
    ensures
        ({
            let (rank, height) = spec_peak_info(ec, e);
            let s = spec_peaks(ec);
            &&& rank < s.len()
            &&& (if rank == 0 {
                0
            } else {
                s[rank - 1]
            }) < e <= s[rank as int]
            &&& s[rank as int] - (if rank == 0 {
                0
            } else {
                s[rank - 1]
            }) == pow2((height + 1) as nat) - 1
        }),
{
    lemma_peak_info_rec_locates(ec as int, e as int, bit_len(ec), 0, 0);
}

/// Law: an index within the first (largest) mountain is ranked 0, at that
/// mountain's height; an index in the last (smallest) mountain gets the
/// highest rank, at that mountain's height.
pub proof fn lemma_peak_info_ends(ec: nat, e: nat)
    requires
        is_valid_count(ec),
        1 <= e <= ec,
    ensures
        e <= spec_peaks(ec)[0] ==> spec_peak_info(ec, e).0 == 0 && pow2(
            (spec_peak_info(ec, e).1 + 1) as nat,
        ) - 1 == spec_peaks(ec)[0],
        spec_peaks(ec).len() > 1 && e > spec_peaks(ec)[spec_peaks(ec).len() - 2]
            ==> spec_peak_info(ec, e).0 == spec_peaks(ec).len() - 1,
{
    lemma_peak_info_locates(ec, e);
    lemma_greedy_peaks_shape(ec as int, bit_len(ec), 0);
    let (rank, height) = spec_peak_info(ec, e);
    let s = spec_peaks(ec);
    if e <= s[0] && rank > 0 {
        assert(s[rank - 1] >= s[0]) by {
            if rank - 1 > 0 {
                lemma_peaks_sorted(ec, 0, rank - 1);
            }
        }
    }
    if s.len() > 1 && e > s[s.len() - 2] && rank < s.len() - 1 {
        assert(s[rank as int] <= s[s.len() - 2]) by {
            if rank < s.len() - 2 {
                lemma_peaks_sorted(ec, rank as int, s.len() - 2);
            }
        }
    }
}

/// Strictly increasing peaks, transitively.
proof fn lemma_peaks_sorted(ec: nat, i: int, j: int)
    requires
        is_valid_count(ec),
        0 <= i <= j < spec_peaks(ec).len(),
    ensures
        spec_peaks(ec)[i] <= spec_peaks(ec)[j],
    decreases j - i,
{
    lemma_greedy_peaks_shape(ec as int, bit_len(ec), 0);
    if i < j {
        lemma_peaks_sorted(ec, i, j - 1);
    }
}

/// Locate the mountain that holds `element_index`: its 0-based rank among
/// the peaks, left to right, and its 0-based height.
pub fn get_peak_info(elements_count: u64, element_index: u64) -> (r: (u64, u64))
    requires
        elements_count < MAX_ELEMENTS,
        is_valid_count(elements_count as nat),
        1 <= element_index <= elements_count,
    ensures
        r.0 == spec_peak_info(elements_count as nat, element_index as nat).0,
        r.1 == spec_peak_info(elements_count as nat, element_index as nat).1,
{
    proof {
        lemma2_to64_rest();
        lemma_bit_len_le(elements_count as nat, 62);
    }
    let b = bit_length(elements_count);
    proof {
        if b < 62 {
            lemma_pow2_strictly_increases(b as nat, 62);
        }
    }
    let mut mountain_height = b;
    let mut mountain_elements_count: u64 = exp2(b) - 1;
    let mut mountain_index: u64 = 0;
    let mut remaining_count = elements_count;
    let mut remaining_index = element_index;

    loop
        invariant
            b <= 62,
            mountain_height >= 1,
            mountain_elements_count == pow2(mountain_height as nat) - 1,
            mountain_index + mountain_height <= b,
            1 <= remaining_index <= remaining_count < MAX_ELEMENTS,
            greedy_rest(remaining_count as int, mountain_height as nat) == 0,
            spec_peak_info(elements_count as nat, element_index as nat) == peak_info_rec(
                remaining_count as int,
                remaining_index as int,
                mountain_height as nat,
                mountain_index as nat,
            ),
        decreases mountain_height,
    {
        proof {
            lemma2_to64();
            if mountain_height == 1 {
                assert(greedy_rest(remaining_count as int, 1) == 0);
                if 1 <= remaining_count as int {
                    assert(greedy_rest(remaining_count as int - 1, 0) == remaining_count - 1);
                }
                assert(remaining_count == 1 && remaining_index == 1);
            }
        }
        if mountain_elements_count <= remaining_count {
            if remaining_index <= mountain_elements_count {
                return (mountain_index, mountain_height - 1);
            }
            remaining_count = remaining_count - mountain_elements_count;
            remaining_index = remaining_index - mountain_elements_count;
            mountain_index = mountain_index + 1;
        }
        mountain_elements_count = mountain_elements_count / 2;
        mountain_height = mountain_height - 1;
    }
}

} // verus!
