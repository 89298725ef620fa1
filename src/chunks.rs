//! The fused step of the reversal: two equal spans from opposite ends of a
//! region trade places, read against each other, and are complemented.

use vstd::prelude::*;
use crate::complement::{comp, complement};

verus! {

/// `s` after the `n` bytes from `left` on and the `n` bytes that end at
/// `right_end` have been swapped end for end and complemented.
pub open spec fn swapped_chunks(s: Seq<u8>, left: int, right_end: int, n: int) -> Seq<u8> {
    Seq::new(
        s.len(),
        |p: int|
            if left <= p < left + n {
                comp(s[right_end - 1 - (p - left)])
            } else if right_end - n <= p < right_end {
                comp(s[left + (right_end - 1 - p)])
            } else {
                s[p]
            },
    )
}

/// For each `d < n`, the bytes at `left + d` and `right_end - 1 - d` are
/// exchanged and both complemented; the spans must not overlap.
pub fn reverse_chunks(buf: &mut [u8], left: usize, right_end: usize, n: usize)
    requires
        left + n <= right_end - n,
        n <= right_end <= old(buf)@.len(),
    ensures
        final(buf)@ == swapped_chunks(old(buf)@, left as int, right_end as int, n as int),
{
    let ghost s = buf@;
    let mut d: usize = 0;
    while d < n
        invariant
            d <= n,
            left + n <= right_end - n,
            n <= right_end <= s.len(),
            buf@.len() == s.len(),
            forall|p: int|
                0 <= p < s.len() ==> #[trigger] buf@[p] == (if left <= p < left + d {
                    comp(s[right_end - 1 - (p - left)])
                } else if right_end - d <= p < right_end {
                    comp(s[left + (right_end - 1 - p)])
                } else {
                    s[p]
                }),
        decreases n - d,
    {
        let a = buf[left + d];
        let b = buf[right_end - 1 - d];
        buf[right_end - 1 - d] = complement(a);
        buf[left + d] = complement(b);
        d = d + 1;
    }
    assert(buf@ =~= swapped_chunks(s, left as int, right_end as int, n as int));
}

/// Bytes in one group of the grouped path.
pub const GROUP: usize = 16;

/// Loads the group of `GROUP` bytes from `left` and the group that ends at
/// `right_end`, reverses each group and complements its lanes, and stores each
/// in the other's place.
fn reverse_group(buf: &mut [u8], left: usize, right_end: usize)
    requires
        left + GROUP <= right_end - GROUP,
        GROUP <= right_end <= old(buf)@.len(),
    ensures
        final(buf)@ == swapped_chunks(old(buf)@, left as int, right_end as int, GROUP as int),
{
    let ghost s = buf@;
    let right = right_end - GROUP;
    let mut lo = [0u8; 16];
    let mut hi = [0u8; 16];
    let mut t: usize = 0;
    while t < GROUP
        invariant
            t <= GROUP,
            buf@ == s,
            left + GROUP <= right,
            right == right_end - GROUP,
            right_end <= s.len(),
            forall|k: int| 0 <= k < t ==> lo@[k] == s[left + k] && hi@[k] == s[right + k],
        decreases GROUP - t,
    {
        lo[t] = buf[left + t];
        hi[t] = buf[right + t];
        t = t + 1;
    }
    t = 0;
    while t < GROUP
        invariant
            t <= GROUP,
            buf@.len() == s.len(),
            left + GROUP <= right,
            right == right_end - GROUP,
            right_end <= s.len(),
            forall|k: int| 0 <= k < GROUP ==> lo@[k] == s[left + k] && hi@[k] == s[right + k],
            forall|p: int|
                0 <= p < s.len() ==> #[trigger] buf@[p] == (if left <= p < left + t {
                    comp(s[right_end - 1 - (p - left)])
                } else if right <= p < right + t {
                    comp(s[left + (right_end - 1 - p)])
                } else {
                    s[p]
                }),
        decreases GROUP - t,
    {
        buf[right + t] = complement(lo[GROUP - 1 - t]);
        buf[left + t] = complement(hi[GROUP - 1 - t]);
        t = t + 1;
    }
    assert(buf@ =~= swapped_chunks(s, left as int, right_end as int, GROUP as int));
}

/// Swapping `d` bytes from each end and then the next `m` is swapping `d + m`.
proof fn lemma_swaps_compose(s: Seq<u8>, left: int, right_end: int, d: int, m: int)
    requires
        0 <= d,
        0 <= m,
        0 <= left,
        left + d + m <= right_end - d - m,
        right_end <= s.len(),
    ensures
        swapped_chunks(swapped_chunks(s, left, right_end, d), left + d, right_end - d, m)
            == swapped_chunks(s, left, right_end, d + m),
{
    assert(swapped_chunks(swapped_chunks(s, left, right_end, d), left + d, right_end - d, m)
        =~= swapped_chunks(s, left, right_end, d + m));
}

/// The same effect as `reverse_chunks`, reached a group of `GROUP` bytes from
/// each end at a time; the bytes that do not fill a group go one by one.
pub fn reverse_chunks_grouped(buf: &mut [u8], left: usize, right_end: usize, n: usize)
    requires
        left + n <= right_end - n,
        n <= right_end <= old(buf)@.len(),
    ensures
        final(buf)@ == swapped_chunks(old(buf)@, left as int, right_end as int, n as int),
{
    let ghost s = buf@;
    let mut d: usize = 0;
    while n - d >= GROUP
        invariant
            d <= n,
            left + n <= right_end - n,
            n <= right_end <= s.len(),
            buf@ == swapped_chunks(s, left as int, right_end as int, d as int),
        decreases n - d,
    {
        reverse_group(buf, left + d, right_end - d);
        proof {
            lemma_swaps_compose(s, left as int, right_end as int, d as int, GROUP as int);
        }
        d = d + GROUP;
    }
    reverse_chunks(buf, left + d, right_end - d, n - d);
    proof {
        lemma_swaps_compose(s, left as int, right_end as int, d as int, (n - d) as int);
    }
}

} // verus!
