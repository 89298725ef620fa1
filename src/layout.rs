//! Where the line breaks of a content region stand, and how the reversal
//! pairs its positions. Positions count from the start of the content region;
//! a full line holds sixty nucleotides and then a line break.

use vstd::prelude::*;
use vstd::arithmetic::div_mod::{lemma_fundamental_div_mod, lemma_fundamental_div_mod_converse};
use crate::complement::comp;

verus! {

/// Whether position `x` of a content region holds a line break.
pub open spec fn is_break(x: int) -> bool {
    x % 61 == 60
}

/// How many nucleotides stand before position `x`.
pub open spec fn nuc_before(x: int) -> int {
    x - x / 61
}

/// The position of the nucleotide with index `k`.
pub open spec fn nuc_pos(k: int) -> int {
    k + k / 60
}

/// The position whose nucleotide lands at position `x` once the nucleotides of
/// a region of `len` bytes are reversed.
pub open spec fn mirror(len: int, x: int) -> int {
    nuc_pos(nuc_before(len) - 1 - nuc_before(x))
}

/// The reverse complement of a content region: line breaks stay where they
/// are, and the nucleotides are reversed in order and complemented.
pub open spec fn revcomp_content(c: Seq<u8>) -> Seq<u8> {
    Seq::new(
        c.len(),
        |x: int|
            if is_break(x) {
                c[x]
            } else {
                comp(c[mirror(c.len() as int, x)])
            },
    )
}

/// A region whose line breaks stand exactly where the layout puts them.
pub open spec fn is_wrapped(c: Seq<u8>) -> bool {
    forall|x: int| 0 <= x < c.len() ==> (#[trigger] c[x] == 10 <==> is_break(x))
}

/// Division with remainder, in the form the other lemmas use.
pub proof fn lemma_split(x: int, d: int)
    requires
        x >= 0,
        d > 0,
    ensures
        x == (x / d) * d + x % d,
        0 <= x % d < d,
        x / d >= 0,
{
    lemma_fundamental_div_mod(x, d);
    assert(x / d >= 0) by (nonlinear_arith)
        requires x >= 0, d > 0, x == d * (x / d) + x % d, 0 <= x % d < d;
    assert(d * (x / d) == (x / d) * d) by (nonlinear_arith);
}

/// Moving `n` positions along a line that does not end on the way.
pub proof fn lemma_same_line(x: int, n: int)
    requires
        x >= 0,
        n >= 0,
        x % 61 + n <= 60,
    ensures
        (x + n) / 61 == x / 61,
        (x + n) % 61 == x % 61 + n,
        nuc_before(x + n) == nuc_before(x) + n,
{
    lemma_split(x, 61);
    lemma_fundamental_div_mod_converse(x + n, 61, x / 61, x % 61 + n);
}

/// Stepping over a line break adds no nucleotide.
pub proof fn lemma_break_step(x: int)
    requires
        x >= 0,
        is_break(x),
    ensures
        nuc_before(x + 1) == nuc_before(x),
        (x + 1) % 61 == 0,
{
    lemma_split(x, 61);
    lemma_fundamental_div_mod_converse(x + 1, 61, x / 61 + 1, 0);
}

/// A position that holds a nucleotide is the position of its own index.
pub proof fn lemma_pos_of_nuc(y: int)
    requires
        y >= 0,
        !is_break(y),
    ensures
        nuc_pos(nuc_before(y)) == y,
        nuc_before(y) >= 0,
{
    lemma_split(y, 61);
    let a = y / 61;
    let b = y % 61;
    assert(nuc_before(y) == a * 60 + b) by (nonlinear_arith)
        requires y == a * 61 + b, nuc_before(y) == y - a;
    lemma_fundamental_div_mod_converse(nuc_before(y), 60, a, b);
}

/// The position of a nucleotide index holds no line break and has that index.
pub proof fn lemma_nuc_of_pos(k: int)
    requires
        k >= 0,
    ensures
        nuc_before(nuc_pos(k)) == k,
        !is_break(nuc_pos(k)),
        nuc_pos(k) >= k,
{
    lemma_split(k, 60);
    let a = k / 60;
    let b = k % 60;
    assert(nuc_pos(k) == a * 61 + b) by (nonlinear_arith)
        requires k == a * 60 + b, nuc_pos(k) == k + a;
    lemma_fundamental_div_mod_converse(nuc_pos(k), 61, a, b);
}

/// The count of nucleotides grows with the position, and by no more than it.
pub proof fn lemma_nuc_monotone(a: int, b: int)
    requires
        0 <= a <= b,
    ensures
        0 <= nuc_before(a) <= nuc_before(b),
        nuc_before(b) - nuc_before(a) <= b - a,
{
    lemma_split(a, 61);
    lemma_split(b, 61);
    assert(a / 61 <= b / 61) by (nonlinear_arith)
        requires a <= b, a == (a / 61) * 61 + a % 61, b == (b / 61) * 61 + b % 61,
            0 <= a % 61 < 61, 0 <= b % 61 < 61;
    assert(b / 61 - a / 61 <= b - a) by (nonlinear_arith)
        requires a <= b, a == (a / 61) * 61 + a % 61, b == (b / 61) * 61 + b % 61,
            0 <= a % 61 < 61, 0 <= b % 61 < 61;
}

/// The pairing of positions made by the reversal is its own inverse, and
/// sends a nucleotide position of a region to another one.
pub proof fn lemma_mirror_mirror(len: int, x: int)
    requires
        0 <= x < len,
        !is_break(x),
    ensures
        0 <= mirror(len, x) < len,
        !is_break(mirror(len, x)),
        mirror(len, mirror(len, x)) == x,
{
    lemma_same_line(x, 1);
    lemma_nuc_monotone(x + 1, len);
    lemma_nuc_monotone(0, x);
    let m = nuc_before(len) - 1 - nuc_before(x);
    lemma_nuc_of_pos(m);
    lemma_pos_of_nuc(x);
    if mirror(len, x) >= len {
        lemma_nuc_monotone(len, mirror(len, x));
    }
}

} // verus!
