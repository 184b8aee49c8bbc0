//! Dealing a total over a number of parts as evenly as whole numbers allow.
//!
//! Every part receives the floor of the quotient, and the remainder is handed
//! out one unit each to the parts with the lowest indices.

use vstd::prelude::*;
use vstd::arithmetic::div_mod::lemma_fundamental_div_mod;

verus! {

/// The size of part `i` when `total` is dealt over `parts` parts.
pub open spec fn share(total: int, parts: int, i: int) -> int {
    total / parts + if i < total % parts {
        1int
    } else {
        0int
    }
}

/// The number of units dealt to the parts that come before part `i`.
pub open spec fn share_start(total: int, parts: int, i: int) -> int {
    i * (total / parts) + if i < total % parts {
        i
    } else {
        total % parts
    }
}

/// The sizes of the first `n` parts added up one by one.
pub open spec fn share_sum(total: int, parts: int, n: nat) -> int
    decreases n,
{
    if n == 0 {
        0
    } else {
        share_sum(total, parts, (n - 1) as nat) + share(total, parts, n - 1)
    }
}

/// Part `i` begins where part `i - 1` ends: the parts leave no gap and do
/// not overlap.
pub proof fn lemma_share_start_step(total: int, parts: int, i: int)
    requires
        0 <= total,
        0 < parts,
        0 <= i,
    ensures
        share_start(total, parts, i + 1) == share_start(total, parts, i) + share(total, parts, i),
        share_start(total, parts, 0) == 0,
{
    let base = total / parts;
    assert((i + 1) * base == i * base + base) by (nonlinear_arith);
    assert(0 * base == 0);
}

/// All the parts together hold exactly `total`.
pub proof fn lemma_share_start_total(total: int, parts: int)
    requires
        0 <= total,
        0 < parts,
    ensures
        share_start(total, parts, parts) == total,
{
    lemma_fundamental_div_mod(total, parts);
    assert(total % parts < parts);
    assert(parts * (total / parts) == (total / parts) * parts) by (nonlinear_arith);
}

/// Adding the sizes of the first `n` parts gives the start of part `n`.
pub proof fn lemma_share_sum(total: int, parts: int, n: nat)
    requires
        0 <= total,
        0 < parts,
    ensures
        share_sum(total, parts, n) == share_start(total, parts, n as int),
    decreases n,
{
    if n > 0 {
        lemma_share_sum(total, parts, (n - 1) as nat);
        lemma_share_start_step(total, parts, n - 1);
    } else {
        lemma_share_start_step(total, parts, 0);
    }
}

/// The sizes of all the parts add up to `total`, and exactly
/// `total % parts` of them, those with the lowest indices, are one larger
/// than the rest.
pub proof fn lemma_shares_cover_total(total: int, parts: int)
    requires
        0 <= total,
        0 < parts,
    ensures
        share_sum(total, parts, parts as nat) == total,
        forall|i: int|
            0 <= i < parts ==> (#[trigger] share(total, parts, i) == total / parts + 1 <==> i
                < total % parts),
        forall|i: int|
            0 <= i < parts ==> (#[trigger] share(total, parts, i) == total / parts <==> i >= total
                % parts),
        0 <= total % parts < parts,
{
    lemma_share_sum(total, parts, parts as nat);
    lemma_share_start_total(total, parts);
}

/// Bounds on where a part starts and how large it is.
pub proof fn lemma_share_bounds(total: int, parts: int, i: int)
    requires
        0 <= total,
        0 < parts,
        0 <= i <= parts,
    ensures
        0 <= share_start(total, parts, i) <= total,
        0 <= share(total, parts, i),
        i < parts ==> share_start(total, parts, i) + share(total, parts, i) <= total,
        total / parts <= share(total, parts, i) <= total / parts + 1,
    decreases parts - i,
{
    let base = total / parts;
    lemma_fundamental_div_mod(total, parts);
    assert(0 <= base) by (nonlinear_arith)
        requires
            0 <= total,
            0 < parts,
            base == total / parts,
    ;
    assert(0 <= i * base) by (nonlinear_arith)
        requires
            0 <= i,
            0 <= base,
    ;
    if i < parts {
        lemma_share_start_step(total, parts, i);
        lemma_share_bounds(total, parts, i + 1);
    } else {
        lemma_share_start_total(total, parts);
    }
}

/// A later part never starts before an earlier one.
pub proof fn lemma_share_start_monotonic(total: int, parts: int, i: int, j: int)
    requires
        0 <= total,
        0 < parts,
        0 <= i <= j <= parts,
    ensures
        share_start(total, parts, i) <= share_start(total, parts, j),
    decreases j - i,
{
    if i < j {
        lemma_share_start_monotonic(total, parts, i, j - 1);
        lemma_share_start_step(total, parts, j - 1);
        lemma_share_bounds(total, parts, j - 1);
    }
}

/// Where there are at least as many units as parts, no part is empty.
pub proof fn lemma_share_positive(total: int, parts: int, i: int)
    requires
        0 < parts <= total,
    ensures
        1 <= total / parts,
        1 <= share(total, parts, i),
{
    assert(1 <= total / parts) by (nonlinear_arith)
        requires
            0 < parts <= total,
    ;
}

/// Deals `total` over `parts` parts and returns the size of each part.
pub fn shares(total: u32, parts: u32) -> (sizes: Vec<u32>)
    requires
        parts > 0,
    ensures
        sizes.len() == parts,
        forall|i: int| 0 <= i < parts ==> sizes[i] == share(total as int, parts as int, i),
{
    let base: u32 = total / parts;
    let rem: u32 = total % parts;
    let mut sizes: Vec<u32> = Vec::with_capacity(parts as usize);
    let mut i: u32 = 0;
    while i < parts
        invariant
            parts > 0,
            i <= parts,
            base == total / parts,
            rem == total % parts,
            sizes.len() == i,
            forall|j: int| 0 <= j < i ==> sizes[j] == share(total as int, parts as int, j),
        decreases parts - i,
    {
        if i < rem {
            proof {
                lemma_fundamental_div_mod(total as int, parts as int);
                assert(parts * base >= base) by (nonlinear_arith)
                    requires
                        parts > 0,
                        base >= 0,
                ;
            }
            sizes.push(base + 1);
        } else {
            sizes.push(base);
        }
        i += 1;
    }
    sizes
}

} // verus!
