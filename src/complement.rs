//! The base-pairing table: every nucleotide code, upper or lower case, maps to
//! the upper-case code of its partner; every other byte maps to itself.

use vstd::prelude::*;

verus! {

/// The complement of one byte.
pub open spec fn comp(b: u8) -> u8 {
    match b {
        65 | 97 => 84,  // A, a -> T
        66 | 98 => 86,  // B, b -> V
        67 | 99 => 71,  // C, c -> G
        68 | 100 => 72,  // D, d -> H
        71 | 103 => 67,  // G, g -> C
        72 | 104 => 68,  // H, h -> D
        75 | 107 => 77,  // K, k -> M
        77 | 109 => 75,  // M, m -> K
        110 => 78,  // n -> N
        82 | 114 => 89,  // R, r -> Y
        83 | 115 => 83,  // S, s -> S
        84 | 116 => 65,  // T, t -> A
        85 | 117 => 65,  // U, u -> A
        86 | 118 => 66,  // V, v -> B
        87 | 119 => 87,  // W, w -> W
        89 | 121 => 82,  // Y, y -> R
        _ => b,
    }
}

/// A byte that the complement sends back to itself when applied twice: every
/// byte outside the alphabet, and the upper-case codes but `U`.
pub open spec fn is_self_paired(b: u8) -> bool {
    comp(comp(b)) == b
}

/// Looks up the complement of `b`.
pub fn complement(b: u8) -> (r: u8)
    ensures
        r == comp(b),
{
    match b {
        65 | 97 => 84,  // A, a -> T
        66 | 98 => 86,  // B, b -> V
        67 | 99 => 71,  // C, c -> G
        68 | 100 => 72,  // D, d -> H
        71 | 103 => 67,  // G, g -> C
        72 | 104 => 68,  // H, h -> D
        75 | 107 => 77,  // K, k -> M
        77 | 109 => 75,  // M, m -> K
        110 => 78,  // n -> N
        82 | 114 => 89,  // R, r -> Y
        83 | 115 => 83,  // S, s -> S
        84 | 116 => 65,  // T, t -> A
        85 | 117 => 65,  // U, u -> A
        86 | 118 => 66,  // V, v -> B
        87 | 119 => 87,  // W, w -> W
        89 | 121 => 82,  // Y, y -> R
        _ => b,
    }
}

/// The complement leaves every byte outside the alphabet as it is, the
/// line break among them, and pairs the upper-case codes both ways.
pub proof fn lemma_complement_table()
    ensures
        comp(65) == 84 && comp(84) == 65,
        comp(67) == 71 && comp(71) == 67,
        comp(10) == 10 && comp(62) == 62,
        forall|b: u8| comp(b) == 10 <==> b == 10,  // \n \n
        forall|b: u8| 65 <= b <= 90 && b != 85 ==> #[trigger] is_self_paired(b),  // A, Z -> U
        forall|b: u8| (b < 65 || (90 < b && b < 97) || 122 < b) ==> #[trigger] comp(b) == b,  // A Z a z
{
}

} // verus!
