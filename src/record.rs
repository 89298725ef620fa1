//! One record: a header line, then line-wrapped content, reversed and
//! complemented in place.

use vstd::prelude::*;
use crate::chunks::{reverse_chunks_grouped, swapped_chunks};
use crate::complement::{comp, complement, is_self_paired, lemma_complement_table};
use crate::search::{absent, find_byte, first_at};
use crate::layout::{
    is_break, is_wrapped, lemma_break_step, lemma_mirror_mirror, revcomp_content, lemma_pos_of_nuc, lemma_same_line, lemma_split, mirror, nuc_before,
};

verus! {

/// Content bytes on a full line; each line ends in one more byte, its break.
pub const LINE_LEN: usize = 60;

/// How many full lines one outer step of the reversal takes from each end.
pub const BLOCK_ROWS: usize = 4096;

/// What position `p` of `s` holds once the content region `[off, end)` has
/// been reversed and complemented.
pub open spec fn reversed_at(s: Seq<u8>, off: int, end: int, p: int) -> u8 {
    if is_break(p - off) {
        s[p]
    } else {
        comp(s[off + mirror(end - off, p - off)])
    }
}

/// The cursors `i` and `j` of the content region `[off, end)` have as many
/// nucleotides before `i` as from `j` on.
pub open spec fn balanced(off: int, end: int, i: int, j: int) -> bool {
    nuc_before(i - off) == nuc_before(end - off) - nuc_before(j - off)
}

/// Position `p` has been given its final value, and that value was read from
/// a position in `[lo, hi)`.
pub open spec fn settled(s: Seq<u8>, b: Seq<u8>, off: int, end: int, lo: int, hi: int, p: int) -> bool {
    &&& b[p] == reversed_at(s, off, end, p)
    &&& !is_break(p - off) ==> lo <= off + mirror(end - off, p - off) < hi
}

/// A chunk that the reversal takes from each end pairs its positions as the
/// layout says, and keeps the cursors balanced.
proof fn lemma_chunk_pairs(len: int, x: int, y: int, n: int)
    requires
        0 <= x,
        0 <= n,
        x + n <= y - n,
        y <= len,
        nuc_before(x) == nuc_before(len) - nuc_before(y),
        x % 61 + n <= 60,
        n <= y % 61,
    ensures
        nuc_before(x + n) == nuc_before(len) - nuc_before(y - n),
        forall|d: int|
            0 <= d < n ==> !is_break(x + d) && !is_break(y - 1 - d) && #[trigger] mirror(len, x + d)
                == y - 1 - d && mirror(len, y - 1 - d) == x + d,
{
    lemma_same_line(x, n);
    lemma_split(y, 61);
    lemma_fundamental_div_mod_converse_at(y - n, y / 61, y % 61 - n);
    lemma_same_line(y - n, n);
    assert forall|d: int| 0 <= d < n implies !is_break(x + d) && !is_break(y - 1 - d) && #[trigger] mirror(len, x + d)
        == y - 1 - d && mirror(len, y - 1 - d) == x + d by {
        lemma_same_line(x, d);
        lemma_same_line(y - n, n - 1 - d);
        lemma_pos_of_nuc(x + d);
        lemma_pos_of_nuc(y - 1 - d);
    }
}

/// Division by the width of a line, from a quotient and remainder in hand.
proof fn lemma_fundamental_div_mod_converse_at(x: int, q: int, r: int)
    requires
        0 <= r < 61,
        x == q * 61 + r,
    ensures
        x % 61 == r,
        x / 61 == q,
{
    vstd::arithmetic::div_mod::lemma_fundamental_div_mod_converse(x, 61, q, r);
}

/// Between the cursors `i` and `j` the bytes of `b` are those of `s`; the
/// positions that they have passed since `i0` and `j0` are settled.
pub open spec fn progress(s: Seq<u8>, b: Seq<u8>, off: int, end: int, i0: int, j0: int, i: int, j: int) -> bool {
    &&& b.len() == s.len()
    &&& forall|p: int|
        0 <= p < s.len() ==> if (i0 <= p < i || j <= p < j0) {
            settled(s, b, off, end, i0, j0, p)
        } else {
            #[trigger] b[p] == s[p]
        }
}

proof fn lemma_step_break(s: Seq<u8>, b: Seq<u8>, off: int, end: int, i0: int, j0: int, i: int, j: int, q: int)
    requires
        progress(s, b, off, end, i0, j0, i, j),
        i0 <= i < j <= j0,
        q == i || q == j - 1,
        is_break(q - off),
    ensures
        q == i ==> progress(s, b, off, end, i0, j0, i + 1, j),
        q == j - 1 ==> progress(s, b, off, end, i0, j0, i, j - 1),
{
}

proof fn lemma_step_middle(s: Seq<u8>, b: Seq<u8>, off: int, end: int, i0: int, j0: int, i: int, j: int)
    requires
        progress(s, b, off, end, i0, j0, i, j),
        0 <= off <= i0 <= i < j <= j0 <= end <= s.len(),
        j == i + 1,
        balanced(off, end, i, j),
        !is_break(i - off),
        (i - off) % 61 < 60,
    ensures
        progress(s, b.update(i, comp(b[i])), off, end, i0, j0, i + 1, j),
{
    lemma_same_line(i - off, 1);
    lemma_pos_of_nuc(i - off);
    assert(mirror(end - off, i - off) == i - off);
    let b2 = b.update(i, comp(b[i]));
    assert forall|p: int| 0 <= p < s.len() implies if (i0 <= p < i + 1 || j <= p < j0) {
        settled(s, b2, off, end, i0, j0, p)
    } else {
        #[trigger] b2[p] == s[p]
    } by {
        if p == i {
            assert(b[i] == s[i]);
            assert(b2[p] == reversed_at(s, off, end, p));
        } else {
            assert(b2[p] == b[p]);
        }
    }
}

proof fn lemma_step_chunk(
    s: Seq<u8>,
    b: Seq<u8>,
    off: int,
    end: int,
    i0: int,
    j0: int,
    i: int,
    j: int,
    n: int,
)
    requires
        progress(s, b, off, end, i0, j0, i, j),
        0 <= off <= i0 <= i,
        i + n <= j - n,
        j <= j0 <= end <= s.len(),
        0 <= n,
        balanced(off, end, i, j),
        (i - off) % 61 + n <= 60,
        n <= (j - off) % 61,
    ensures
        progress(s, swapped_chunks(b, i, j, n), off, end, i0, j0, i + n, j - n),
        balanced(off, end, i + n, j - n),
{
    lemma_chunk_pairs(end - off, i - off, j - off, n);
    let b2 = swapped_chunks(b, i, j, n);
    assert forall|p: int| 0 <= p < s.len() implies if (i0 <= p < i + n || j - n <= p < j0) {
        settled(s, b2, off, end, i0, j0, p)
    } else {
        #[trigger] b2[p] == s[p]
    } by {
        if i <= p < i + n {
            assert(mirror(end - off, (i - off) + (p - i)) == (j - off) - 1 - (p - i));
            let q = j - 1 - (p - i);
            assert(!(i0 <= q < i || j <= q < j0) && 0 <= q < s.len());
            assert(b[q] == s[q]);
        } else if j - n <= p < j {
            assert(mirror(end - off, (i - off) + (j - 1 - p)) == (j - off) - 1 - (j - 1 - p));
            let q = i + (j - 1 - p);
            assert(!(i0 <= q < i || j <= q < j0) && 0 <= q < s.len());
            assert(b[q] == s[q]);
        } else {
            assert(b2[p] == b[p]);
        }
    }
}

/// Moves the cursors `i` and `j` of the content region `[off, end)` towards
/// each other until `i` reaches `stop` or meets `j`, reversing and
/// complementing the bytes they pass. Each step takes the longest run of
/// nucleotides that ends at a line break on neither side; the break itself is
/// stepped over untouched.
pub fn reverse_complement_left_right(
    buf: &mut [u8],
    off: usize,
    end: usize,
    i: usize,
    j: usize,
    stop: usize,
) -> (r: (usize, usize))
    requires
        off <= i <= j <= end <= old(buf)@.len(),
        off < end,
        i < j ==> balanced(off as int, end as int, i as int, j as int),
    ensures
        i <= r.0 <= r.1 <= j,
        r.0 >= stop || r.0 == r.1,
        r.0 < r.1 ==> balanced(off as int, end as int, r.0 as int, r.1 as int),
        progress(old(buf)@, final(buf)@, off as int, end as int, i as int, j as int, r.0 as int, r.1 as int),
{
    let ghost s = buf@;
    let mut i = i;
    let mut j = j;
    let ghost i0 = i as int;
    let ghost j0 = j as int;
    while i < j && i < stop
        invariant
            off <= i0 <= i <= j <= j0 <= end <= s.len(),
            i < j ==> balanced(off as int, end as int, i as int, j as int),
            progress(s, buf@, off as int, end as int, i0, j0, i as int, j as int),
        decreases j - i,
    {
        let col = (i - off) % (LINE_LEN + 1);
        let ghost y = (j - off) as int;
        if col == LINE_LEN {
            proof {
                lemma_step_break(s, buf@, off as int, end as int, i0, j0, i as int, j as int, i as int);
                lemma_break_step(i - off);
            }
            i = i + 1;
        } else if (j - off) % (LINE_LEN + 1) == 0 {
            proof {
                lemma_split(y, 61);
                assert(y - 1 == (y / 61 - 1) * 61 + 60) by (nonlinear_arith)
                    requires y == (y / 61) * 61;
                lemma_fundamental_div_mod_converse_at(y - 1, y / 61 - 1, 60);
                lemma_step_break(s, buf@, off as int, end as int, i0, j0, i as int, j as int, j - 1);
                lemma_break_step(y - 1);
            }
            j = j - 1;
        } else if j - i == 1 {
            proof {
                lemma_step_middle(s, buf@, off as int, end as int, i0, j0, i as int, j as int);
            }
            let b = buf[i];
            buf[i] = complement(b);
            i = i + 1;
        } else {
            let mut n: usize = LINE_LEN - col;
            let right_col = (j - off) % (LINE_LEN + 1);
            if right_col < n {
                n = right_col;
            }
            if (j - i) / 2 < n {
                n = (j - i) / 2;
            }
            proof {
                lemma_step_chunk(s, buf@, off as int, end as int, i0, j0, i as int, j as int, n as int);
            }
            reverse_chunks_grouped(buf, i, j, n);
            i = i + n;
            j = j - n;
        }
    }
    (i, j)
}

/// A record once its content region, from `off` up to its last byte, has been
/// reversed and complemented; the header and the last byte stay as they are.
pub open spec fn revcomp_record(b: Seq<u8>, off: int) -> Seq<u8> {
    b.subrange(0, off) + revcomp_content(b.subrange(off, b.len() - 1)) + b.subrange(
        b.len() - 1,
        b.len() as int,
    )
}

/// Two runs of the reversal, one after the other, settle what each settled.
proof fn lemma_progress_compose(
    s: Seq<u8>,
    b1: Seq<u8>,
    b2: Seq<u8>,
    off: int,
    end: int,
    i: int,
    j: int,
    a: int,
    c: int,
)
    requires
        0 <= off <= i <= a <= c <= j <= end <= s.len(),
        progress(s, b1, off, end, off, end, i, j),
        progress(b1, b2, off, end, i, j, a, c),
    ensures
        progress(s, b2, off, end, off, end, a, c),
{
    assert forall|p: int| 0 <= p < s.len() implies if (off <= p < a || c <= p < end) {
        settled(s, b2, off, end, off, end, p)
    } else {
        #[trigger] b2[p] == s[p]
    } by {
        assert(b1[p] == b1[p] && b2[p] == b2[p]);
        if (i <= p < a || c <= p < j) && !is_break(p - off) {
            let q = off + mirror(end - off, p - off);
            assert(settled(b1, b2, off, end, i, j, p));
            assert(i <= q < j);
            assert(b1[q] == s[q]);
        }
    }
}

/// A record in the buffer that holds it: a header line whose break stands at
/// `content_offset - 1`, then the content region, then one last byte.
pub struct Sequence {
    pub buf: Vec<u8>,
    pub content_offset: usize,
}

impl Sequence {
    /// The header ends in a line break and at least one byte follows it.
    pub open spec fn wf(&self) -> bool {
        &&& 0 < self.content_offset < self.buf@.len() - 1
        &&& first_at(self.buf@, 10, self.content_offset - 1)
    }

    /// Takes the bytes of one record. There is none where `data` holds no line
    /// break, or where its first line break leaves no content before the last
    /// byte: an empty content region is malformed.
    pub fn from_slice(data: Vec<u8>) -> (r: Option<Sequence>)
        ensures
            r is None <==> absent(data@, 10) || exists|h: int|
                first_at(data@, 10, h) && h >= data@.len() - 2,
            r matches Some(q) ==> q.wf() && q.buf@ == data@,
    {
        match find_byte(10, data.as_slice()) {
            Some(pos) => {
                if data.len() >= 2 && pos < data.len() - 2 {
                    Some(Sequence { buf: data, content_offset: pos + 1 })
                } else {
                    None
                }
            },
            None => None,
        }
    }

    /// The bytes of the record.
    pub fn as_slice(&self) -> (r: &[u8])
        ensures
            r@ == self.buf@,
    {
        self.buf.as_slice()
    }

    /// The content region: the bytes after the header and before the last one.
    pub fn get_content(&self) -> (r: &[u8])
        requires
            self.wf(),
        ensures
            r@ == self.buf@.subrange(self.content_offset as int, self.buf@.len() - 1),
    {
        vstd::slice::slice_subrange(self.buf.as_slice(), self.content_offset, self.buf.len() - 1)
    }

    /// Reverses and complements the content region in place. Each outer step
    /// takes a block of `BLOCK_ROWS` lines from each end while two such blocks
    /// remain; then the cursors meet.
    pub fn reverse_complement(&mut self)
        requires
            old(self).wf(),
        ensures
            final(self).wf(),
            final(self).content_offset == old(self).content_offset,
            final(self).buf@ == revcomp_record(old(self).buf@, old(self).content_offset as int),
    {
        let ghost s = self.buf@;
        let off = self.content_offset;
        let end = self.buf.len() - 1;
        let block = BLOCK_ROWS * (LINE_LEN + 1);
        let buf = self.buf.as_mut_slice();
        let mut i = off;
        let mut j = end;
        while j - i >= 2 * block
            invariant
                buf@.len() == s.len(),
                off <= i <= j <= end,
                end == s.len() - 1,
                block == BLOCK_ROWS * (LINE_LEN + 1),
                i < j ==> balanced(off as int, end as int, i as int, j as int),
                progress(s, buf@, off as int, end as int, off as int, end as int, i as int, j as int),
            decreases j - i,
        {
            let ghost b1 = buf@;
            let (a, c) = reverse_complement_left_right(buf, off, end, i, j, i + block);
            proof {
                lemma_progress_compose(s, b1, buf@, off as int, end as int, i as int, j as int, a as int, c as int);
            }
            i = a;
            j = c;
        }
        let ghost b1 = buf@;
        let (a, c) = reverse_complement_left_right(buf, off, end, i, j, j);
        proof {
            lemma_progress_compose(s, b1, buf@, off as int, end as int, i as int, j as int, a as int, c as int);
            let r = revcomp_record(s, off as int);
            assert forall|p: int| 0 <= p < s.len() implies #[trigger] buf@[p] == r[p] by {
                if off <= p < end && !is_break(p - off) {
                    let q = off + mirror(end - off, p - off);
                    assert(off <= q < end);
                }
            }
            assert(buf@ =~= r);
        }
    }
}

/// Reversing and complementing a record twice gives the record back, where
/// every nucleotide of its content is one that the complement pairs both ways.
pub proof fn lemma_reverse_complement_involution(b: Seq<u8>, off: int)
    requires
        0 < off < b.len(),
        forall|x: int|
            off <= x < b.len() - 1 && !is_break(x - off) ==> #[trigger] is_self_paired(b[x]),
    ensures
        revcomp_record(revcomp_record(b, off), off) == b,
{
    let c = b.subrange(off, b.len() - 1);
    let r = revcomp_record(b, off);
    let c2 = r.subrange(off, r.len() - 1);
    assert(c2 =~= revcomp_content(c));
    let rr = revcomp_content(c2);
    assert forall|x: int| 0 <= x < c.len() implies #[trigger] rr[x] == c[x] by {
        if !is_break(x) {
            lemma_mirror_mirror(c.len() as int, x);
            assert(is_self_paired(b[off + x]));
        }
    }
    assert(revcomp_record(r, off) =~= b);
}

/// Reversing and complementing a record keeps its length, its header and its
/// last byte, and leaves a line break at exactly the positions of the content
/// region that held one, where the content is wrapped as the layout says.
pub proof fn lemma_reverse_complement_keeps_lines(b: Seq<u8>, off: int)
    requires
        0 < off < b.len(),
        is_wrapped(b.subrange(off, b.len() - 1)),
    ensures
        revcomp_record(b, off).len() == b.len(),
        forall|p: int|
            0 <= p < b.len() && !(off <= p < b.len() - 1) ==> #[trigger] revcomp_record(b, off)[p]
                == b[p],
        forall|p: int|
            off <= p < b.len() - 1 ==> (#[trigger] revcomp_record(b, off)[p] == 10 <==> b[p] == 10),
{
    lemma_complement_table();
    let c = b.subrange(off, b.len() - 1);
    let r = revcomp_record(b, off);
    assert forall|p: int| off <= p < b.len() - 1 implies (#[trigger] r[p] == 10 <==> b[p] == 10) by {
        let x = p - off;
        assert(c[x] == b[p]);
        if !is_break(x) {
            lemma_mirror_mirror(c.len() as int, x);
            assert(c[mirror(c.len() as int, x)] != 10);
        }
    }
}

} // verus!
