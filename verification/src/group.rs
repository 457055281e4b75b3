//! Group matching: one fixed-width run of control bytes is examined as a
//! unit and summarised as a bitmask, one bit per byte.
//!
//! The matchers are pure transforms: bit `j` of the result reports on the
//! byte at `pos + j`, whatever that byte holds — callers are responsible for
//! keeping the window inside the control array.

use vstd::prelude::*;
use crate::ctrl::{is_full, is_vacant, EMPTY, GROUP_WIDTH};

verus! {

/// Bit `i` of the mask `m`.
pub open spec fn bit_set(m: u32, i: u32) -> bool {
    (m >> i) & 1 == 1
}

proof fn lemma_or_bit(m: u32, j: u32, i: u32)
    requires
        j < 32,
        i < 32,
    ensures
        bit_set(m | (1u32 << j), i) == (i == j || bit_set(m, i)),
        m | (1u32 << j) != 0,
{
    assert((((m | (1u32 << j)) >> i) & 1 == 1) == (i == j || ((m >> i) & 1 == 1)) && m | (1u32 << j)
        != 0) by (bit_vector)
        requires
            j < 32 && i < 32,
    ;
}

proof fn lemma_zero_bit(i: u32)
    ensures
        !bit_set(0, i),
{
    assert((0u32 >> i) & 1 != 1) by (bit_vector);
}

/// What it means for mask `m` to report, over the window of `GROUP_WIDTH`
/// bytes of `s` starting at `pos`, exactly the bytes equal to `t`.
pub open spec fn mask_reports_eq(m: u32, s: Seq<u8>, pos: int, t: u8) -> bool {
    &&& forall|j: int| 0 <= j < 16 ==> (bit_set(m, j as u32) <==> #[trigger] s[pos + j] == t)
    &&& forall|j: int| 16 <= j < 32 ==> !(#[trigger] bit_set(m, j as u32))
    &&& (m == 0 <==> forall|j: int| 0 <= j < 16 ==> #[trigger] s[pos + j] != t)
}

/// Bitmask of the bytes in the window at `pos` that equal `t` exactly
/// (the hash-fragment fast reject).
pub fn match_byte(ctrl: &Vec<u8>, pos: usize, t: u8) -> (m: u32)
    requires
        pos + GROUP_WIDTH <= ctrl@.len(),
    ensures
        mask_reports_eq(m, ctrl@, pos as int, t),
{
    let n = ctrl.len();
    let mut m: u32 = 0;
    let mut j: usize = 0;
    proof {
        assert forall|i: int| 0 <= i < 32 implies !(#[trigger] bit_set(0, i as u32)) by {
            lemma_zero_bit(i as u32);
        }
    }
    while j < GROUP_WIDTH
        invariant
            j <= 16,
            pos + 16 <= n,
            n == ctrl@.len(),
            forall|i: int| 0 <= i < j ==> (bit_set(m, i as u32) <==> #[trigger] ctrl@[pos + i] == t),
            forall|i: int| j <= i < 32 ==> !(#[trigger] bit_set(m, i as u32)),
            (m == 0 <==> forall|i: int| 0 <= i < j ==> #[trigger] ctrl@[pos + i] != t),
        decreases 16 - j,
    {
        let ghost m0 = m;
        if ctrl[pos + j] == t {
            m = m | (1u32 << (j as u32));
            proof {
                assert forall|i: int| 0 <= i < 32 implies #[trigger] bit_set(m, i as u32) == (i
                    == j || bit_set(m0, i as u32)) by {
                    lemma_or_bit(m0, j as u32, i as u32);
                }
                lemma_or_bit(m0, j as u32, 0);
            }
        }
        j += 1;
    }
    m
}

/// What it means for mask `m` to report exactly the FULL bytes of the window.
pub open spec fn mask_reports_full(m: u32, s: Seq<u8>, pos: int) -> bool {
    &&& forall|j: int| 0 <= j < 16 ==> (bit_set(m, j as u32) <==> is_full(#[trigger] s[pos + j]))
    &&& forall|j: int| 16 <= j < 32 ==> !(#[trigger] bit_set(m, j as u32))
    &&& (m == 0 <==> forall|j: int| 0 <= j < 16 ==> !is_full(#[trigger] s[pos + j]))
}

/// Bitmask of the FULL bytes in the window at `pos`.
pub fn match_full(ctrl: &Vec<u8>, pos: usize) -> (m: u32)
    requires
        pos + GROUP_WIDTH <= ctrl@.len(),
    ensures
        mask_reports_full(m, ctrl@, pos as int),
{
    let n = ctrl.len();
    let mut m: u32 = 0;
    let mut j: usize = 0;
    proof {
        assert forall|i: int| 0 <= i < 32 implies !(#[trigger] bit_set(0, i as u32)) by {
            lemma_zero_bit(i as u32);
        }
    }
    while j < GROUP_WIDTH
        invariant
            j <= 16,
            pos + 16 <= n,
            n == ctrl@.len(),
            forall|i: int|
                0 <= i < j ==> (bit_set(m, i as u32) <==> is_full(#[trigger] ctrl@[pos + i])),
            forall|i: int| j <= i < 32 ==> !(#[trigger] bit_set(m, i as u32)),
            (m == 0 <==> forall|i: int| 0 <= i < j ==> !is_full(#[trigger] ctrl@[pos + i])),
        decreases 16 - j,
    {
        let ghost m0 = m;
        if ctrl[pos + j] < 128 {
            m = m | (1u32 << (j as u32));
            proof {
                assert forall|i: int| 0 <= i < 32 implies #[trigger] bit_set(m, i as u32) == (i
                    == j || bit_set(m0, i as u32)) by {
                    lemma_or_bit(m0, j as u32, i as u32);
                }
                lemma_or_bit(m0, j as u32, 0);
            }
        }
        j += 1;
    }
    m
}

/// What it means for mask `m` to report exactly the EMPTY bytes of the window.
pub open spec fn mask_reports_empty(m: u32, s: Seq<u8>, pos: int) -> bool {
    &&& forall|j: int| 0 <= j < 16 ==> (bit_set(m, j as u32) <==> #[trigger] s[pos + j] == EMPTY)
    &&& forall|j: int| 16 <= j < 32 ==> !(#[trigger] bit_set(m, j as u32))
    &&& (m == 0 <==> forall|j: int| 0 <= j < 16 ==> #[trigger] s[pos + j] != EMPTY)
}

/// Bitmask of the EMPTY bytes in the window at `pos` (probe terminators).
pub fn match_empty(ctrl: &Vec<u8>, pos: usize) -> (m: u32)
    requires
        pos + GROUP_WIDTH <= ctrl@.len(),
    ensures
        mask_reports_empty(m, ctrl@, pos as int),
{
    match_byte(ctrl, pos, EMPTY)
}

/// What it means for mask `m` to report exactly the vacant bytes of the window.
pub open spec fn mask_reports_vacant(m: u32, s: Seq<u8>, pos: int) -> bool {
    &&& forall|j: int| 0 <= j < 16 ==> (bit_set(m, j as u32) <==> is_vacant(#[trigger] s[pos + j]))
    &&& forall|j: int| 16 <= j < 32 ==> !(#[trigger] bit_set(m, j as u32))
    &&& (m == 0 <==> forall|j: int| 0 <= j < 16 ==> !is_vacant(#[trigger] s[pos + j]))
}

/// Bitmask of the EMPTY-or-DELETED bytes in the window at `pos`
/// (candidate insertion slots).
pub fn match_empty_or_deleted(ctrl: &Vec<u8>, pos: usize) -> (m: u32)
    requires
        pos + GROUP_WIDTH <= ctrl@.len(),
    ensures
        mask_reports_vacant(m, ctrl@, pos as int),
{
    let n = ctrl.len();
    let mut m: u32 = 0;
    let mut j: usize = 0;
    proof {
        assert forall|i: int| 0 <= i < 32 implies !(#[trigger] bit_set(0, i as u32)) by {
            lemma_zero_bit(i as u32);
        }
    }
    while j < GROUP_WIDTH
        invariant
            j <= 16,
            pos + 16 <= n,
            n == ctrl@.len(),
            forall|i: int|
                0 <= i < j ==> (bit_set(m, i as u32) <==> is_vacant(#[trigger] ctrl@[pos + i])),
            forall|i: int| j <= i < 32 ==> !(#[trigger] bit_set(m, i as u32)),
            (m == 0 <==> forall|i: int| 0 <= i < j ==> !is_vacant(#[trigger] ctrl@[pos + i])),
        decreases 16 - j,
    {
        let ghost m0 = m;
        if ctrl[pos + j] >= 128 {
            m = m | (1u32 << (j as u32));
            proof {
                assert forall|i: int| 0 <= i < 32 implies #[trigger] bit_set(m, i as u32) == (i
                    == j || bit_set(m0, i as u32)) by {
                    lemma_or_bit(m0, j as u32, i as u32);
                }
                lemma_or_bit(m0, j as u32, 0);
            }
        }
        j += 1;
    }
    m
}

/// True when the mask reports at least one byte.
pub fn any_bit_set(m: u32) -> (r: bool)
    ensures
        r == (m != 0),
{
    m != 0
}

/// Index of the lowest reported byte, or `GROUP_WIDTH` when none of the low
/// sixteen bits is set.
pub fn trailing_zeros(m: u32) -> (r: usize)
    ensures
        r <= 16,
        r < 16 ==> bit_set(m, r as u32),
        forall|i: int| 0 <= i < r ==> !(#[trigger] bit_set(m, i as u32)),
{
    let mut j: usize = 0;
    while j < GROUP_WIDTH
        invariant
            j <= 16,
            forall|i: int| 0 <= i < j ==> !(#[trigger] bit_set(m, i as u32)),
        decreases 16 - j,
    {
        if (m >> (j as u32)) & 1 == 1 {
            return j;
        }
        j += 1;
    }
    GROUP_WIDTH
}

/// Index of the highest reported byte, or `GROUP_WIDTH` when none of the low
/// sixteen bits is set.
pub fn highest_set_bit(m: u32) -> (r: usize)
    ensures
        r <= 16,
        r < 16 ==> bit_set(m, r as u32),
        forall|i: int| r < i < 16 ==> !(#[trigger] bit_set(m, i as u32)),
        r == 16 ==> forall|i: int| 0 <= i < 16 ==> !(#[trigger] bit_set(m, i as u32)),
{
    let mut j: usize = GROUP_WIDTH;
    while j > 0
        invariant
            j <= 16,
            forall|i: int| j <= i < 16 ==> !(#[trigger] bit_set(m, i as u32)),
        decreases j,
    {
        j -= 1;
        if (m >> (j as u32)) & 1 == 1 {
            return j;
        }
    }
    GROUP_WIDTH
}

/// Number of unreported bytes above the highest reported one, over a
/// sixteen-bit window; `GROUP_WIDTH` when nothing is reported.
pub fn leading_zeros(m: u32) -> (r: usize)
    ensures
        r <= 16,
        r < 16 ==> bit_set(m, (15 - r) as u32),
        forall|i: int| 15 - r < i < 16 ==> !(#[trigger] bit_set(m, i as u32)),
        r == 16 ==> forall|i: int| 0 <= i < 16 ==> !(#[trigger] bit_set(m, i as u32)),
{
    let h = highest_set_bit(m);
    if h == GROUP_WIDTH {
        GROUP_WIDTH
    } else {
        15 - h
    }
}

} // verus!
