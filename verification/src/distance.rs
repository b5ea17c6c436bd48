//! The XOR metric on identifiers, folded into one machine word.

use vstd::prelude::*;

verus! {

/// The base-256 digit that position `i` contributes to the distance between
/// `a` and `b`: the XOR of the two bytes where both identifiers have one, and
/// `0xFF` where only the longer one does.
pub open spec fn xor_digit(a: Seq<u8>, b: Seq<u8>, i: int) -> usize {
    if 0 <= i < a.len() && i < b.len() {
        (a[i] ^ b[i]) as usize
    } else {
        255
    }
}

/// The accumulator after the first `n` digits: each step multiplies by 256 and
/// adds the next digit, wrapping at the width of `usize`.
pub open spec fn xor_fold(a: Seq<u8>, b: Seq<u8>, n: nat) -> usize
    decreases n,
{
    if n == 0 {
        0
    } else {
        xor_fold(a, b, (n - 1) as nat).wrapping_mul(256).wrapping_add(xor_digit(a, b, n - 1))
    }
}

/// The longer of the two lengths.
pub open spec fn longer_len(a: Seq<u8>, b: Seq<u8>) -> nat {
    if a.len() >= b.len() {
        a.len()
    } else {
        b.len()
    }
}

/// The distance between two identifiers.
pub open spec fn xor_distance_spec(a: Seq<u8>, b: Seq<u8>) -> usize {
    xor_fold(a, b, longer_len(a, b))
}

/// The number that the first `n` digits spell in base 256, most significant
/// digit first: the accumulator as it would be if it never wrapped.
pub open spec fn xor_number(a: Seq<u8>, b: Seq<u8>, n: nat) -> nat
    decreases n,
{
    if n == 0 {
        0
    } else {
        (xor_number(a, b, (n - 1) as nat) * 256 + xor_digit(a, b, n - 1)) as nat
    }
}

/// 256 to the power of `n`.
pub open spec fn pow256(n: nat) -> nat
    decreases n,
{
    if n == 0 {
        1
    } else {
        256 * pow256((n - 1) as nat)
    }
}

/// Computes the distance between two identifiers.
pub fn xor_distance(first_id: &[u8], second_id: &[u8]) -> (distance: usize)
    ensures
        distance == xor_distance_spec(first_id@, second_id@),
{
    let mut distance: usize = 0;
    let (min, max) = if first_id.len() <= second_id.len() {
        (first_id.len(), second_id.len())
    } else {
        (second_id.len(), first_id.len())
    };
    let mut i: usize = 0;
    while i < min
        invariant
            i <= min,
            min <= first_id@.len(),
            min <= second_id@.len(),
            distance == xor_fold(first_id@, second_id@, i as nat),
        decreases min - i,
    {
        let a: u8 = first_id[i];
        let b: u8 = second_id[i];
        distance = distance.wrapping_mul(256).wrapping_add((a ^ b) as usize);
        i += 1;
    }
    while i < max
        invariant
            min <= i <= max,
            min == first_id@.len() || min == second_id@.len(),
            max == longer_len(first_id@, second_id@),
            distance == xor_fold(first_id@, second_id@, i as nat),
        decreases max - i,
    {
        distance = distance.wrapping_mul(256).wrapping_add(255);
        i += 1;
    }
    distance
}

} // verus!
