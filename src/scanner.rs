//! Cutting a stream of records into records as its bytes arrive. The reader
//! holds the bytes that it has been given and not yet handed out; a record
//! ends where the next one begins, at a `>` that is not its first byte, or at
//! the end of the stream.

use vstd::prelude::*;
use crate::record::{revcomp_record, Sequence};
use crate::search::{absent, find_byte, first_at};

verus! {

/// How many bytes a caller should read from the stream at a time; a shorter
/// read marks the end of the stream.
pub const READ_SIZE: usize = 65536;

/// `p` is where the first record of `s` ends: at the first `>` after its first
/// byte or, at the end of the stream, at the end of `s`.
pub open spec fn is_boundary(s: Seq<u8>, eof: bool, p: int) -> bool {
    &&& 0 < p <= s.len()
    &&& forall|k: int| 1 <= k < p ==> s[k] != 62
    &&& (p < s.len() && s[p] == 62) || (p == s.len() && eof)
}

/// The first record of `s` is complete: its end is a known `>`, or the stream
/// has ended and `s` is not empty.
pub open spec fn has_record(s: Seq<u8>, eof: bool) -> bool {
    (exists|k: int| 1 <= k < s.len() && s[k] == 62) || (eof && s.len() > 0)
}

/// A record whose header has no line break, or whose content region is empty.
pub open spec fn is_malformed(r: Seq<u8>) -> bool {
    absent(r, 10) || exists|h: int| first_at(r, 10, h) && h >= r.len() - 2
}

/// What the reader asks of its caller next.
pub enum Step {
    /// The next record, cut from the front of the buffer.
    Record(Sequence),
    /// The next record was cut from the front of the buffer, and its header
    /// ends in no line break or its content region is empty.
    Malformed,
    /// The buffer holds no complete record: read more of the stream.
    NeedInput,
    /// The stream has ended and every record was handed out.
    End,
}

/// The bytes of a stream that have been read and not yet handed out.
pub struct SequenceReader {
    pub buf: Vec<u8>,
    /// No byte of `buf` from index 1 up to this one is a `>`.
    pub scanned: usize,
    pub eof_reached: bool,
}

impl SequenceReader {
    pub open spec fn wf(&self) -> bool {
        &&& self.scanned <= self.buf@.len()
        &&& forall|k: int| 1 <= k < self.scanned ==> self.buf@[k] != 62
    }

    pub fn new() -> (r: SequenceReader)
        ensures
            r.wf(),
            r.buf@.len() == 0,
            !r.eof_reached,
    {
        SequenceReader { buf: Vec::new(), scanned: 0, eof_reached: false }
    }

    /// Appends bytes read from the stream; `eof` says that the stream has
    /// ended with them.
    pub fn push_input(&mut self, data: &[u8], eof: bool)
        requires
            old(self).wf(),
            old(self).buf@.len() + data@.len() <= usize::MAX,
        ensures
            final(self).wf(),
            final(self).buf@ == old(self).buf@ + data@,
            final(self).eof_reached == eof,
    {
        let ghost s = self.buf@;
        let mut k: usize = 0;
        while k < data.len()
            invariant
                k <= data@.len(),
                s.len() + data@.len() <= usize::MAX,
                self.buf@ == s + data@.subrange(0, k as int),
                self.scanned <= s.len(),
                forall|x: int| 1 <= x < self.scanned ==> s[x] != 62,
            decreases data@.len() - k,
        {
            self.buf.push(data[k]);
            k = k + 1;
        }
        assert(data@.subrange(0, data@.len() as int) =~= data@);
        self.eof_reached = eof;
    }

    /// Hands out the first record of the buffer where it is complete, and
    /// keeps the bytes after it.
    pub fn next(&mut self) -> (r: Step)
        requires
            old(self).wf(),
        ensures
            final(self).wf(),
            final(self).eof_reached == old(self).eof_reached,
            old(self).buf@.len() == 0 && old(self).eof_reached <==> r is End,
            !has_record(old(self).buf@, old(self).eof_reached) && !(r is End) <==> r is NeedInput,
            r is NeedInput || r is End ==> final(self).buf@ == old(self).buf@,
            match r {
                Step::Record(q) => {
                    &&& q.wf()
                    &&& is_boundary(old(self).buf@, old(self).eof_reached, q.buf@.len() as int)
                    &&& q.buf@ == old(self).buf@.subrange(0, q.buf@.len() as int)
                    &&& final(self).buf@ == old(self).buf@.subrange(
                        q.buf@.len() as int,
                        old(self).buf@.len() as int,
                    )
                },
                Step::Malformed => exists|p: int|
                    {
                        &&& is_boundary(old(self).buf@, old(self).eof_reached, p)
                        &&& is_malformed(old(self).buf@.subrange(0, p))
                        &&& final(self).buf@ == old(self).buf@.subrange(p, old(self).buf@.len() as int)
                    },
                _ => true,
            },
    {
        let len = self.buf.len();
        if len == 0 {
            if self.eof_reached {
                return Step::End;
            } else {
                return Step::NeedInput;
            }
        }
        let from: usize = if self.scanned < 1 { 1 } else { self.scanned };
        let ghost s = self.buf@;
        let pos: usize;
        match find_byte(62, vstd::slice::slice_subrange(self.buf.as_slice(), from, len)) {
            Some(k) => {
                pos = from + k;
                assert(s[pos as int] == 62);
            },
            None => {
                assert forall|k: int| 1 <= k < len implies s[k] != 62 by {
                    if k >= from {
                        assert(s.subrange(from as int, len as int)[k - from] == s[k]);
                    }
                }
                if !self.eof_reached {
                    self.scanned = len;
                    return Step::NeedInput;
                }
                pos = len;
            },
        }
        assert forall|k: int| 1 <= k < pos implies s[k] != 62 by {
            if k >= from {
                assert(s.subrange(from as int, len as int)[k - from] == s[k]);
            }
        }
        assert(is_boundary(s, self.eof_reached, pos as int));
        let mut rest = self.buf.split_off(pos);
        std::mem::swap(&mut self.buf, &mut rest);
        self.scanned = 0;
        assert(rest@ =~= s.subrange(0, pos as int));
        match Sequence::from_slice(rest) {
            Some(q) => Step::Record(q),
            None => {
                assert(is_malformed(s.subrange(0, pos as int)));
                Step::Malformed
            },
        }
    }
}

/// Where the reader cuts a record from the bytes it holds, the whole rest of
/// the stream is cut at the same place: `s` is what the reader holds, `t` what
/// the stream has yet to give, which is nothing once the end has been seen.
/// So the records handed out do not depend on how the reads were sized.
pub proof fn lemma_cut_independent_of_reads(s: Seq<u8>, t: Seq<u8>, eof: bool, p: int, q: int)
    requires
        is_boundary(s, eof, p),
        eof ==> t.len() == 0,
    ensures
        is_boundary(s + t, true, q) <==> q == p,
{
    let w = s + t;
    if p < s.len() {
        assert(w[p] == 62);
    } else {
        assert(w =~= s);
    }
    assert(is_boundary(w, true, p));
    if is_boundary(w, true, q) && q != p {
        if q < p {
            assert(w[q] == s[q]);
        } else {
            assert(w[p] == 62);
        }
    }
}

/// The index of the first `b` in `s` from `k` on, or the length of `s`.
pub open spec fn index_from(s: Seq<u8>, b: u8, k: int) -> int
    decreases s.len() - k,
{
    if k >= s.len() {
        s.len() as int
    } else if s[k] == b {
        k
    } else {
        index_from(s, b, k + 1)
    }
}

/// What one record becomes: its content reversed and complemented, or
/// nothing where it is malformed.
pub open spec fn record_output(r: Seq<u8>) -> Option<Seq<u8>> {
    let h = index_from(r, 10, 0);
    if h >= r.len() - 2 {
        None
    } else {
        Some(revcomp_record(r, h + 1))
    }
}

/// What a whole stream becomes, cut before each `>` that is not its first
/// byte, each record transformed; nothing where a record is malformed.
pub open spec fn stream_output(s: Seq<u8>) -> Option<Seq<u8>>
    decreases s.len(),
{
    if s.len() == 0 {
        Some(Seq::empty())
    } else {
        let p = index_from(s, 62, 1);
        if p <= 0 || p > s.len() {
            None
        } else {
            match (record_output(s.subrange(0, p)), stream_output(s.subrange(p, s.len() as int))) {
                (Some(a), Some(b)) => Some(a + b),
                _ => None,
            }
        }
    }
}

proof fn lemma_index_from(s: Seq<u8>, b: u8, k: int)
    requires
        0 <= k <= s.len(),
    ensures
        k <= index_from(s, b, k) <= s.len(),
        forall|i: int| k <= i < index_from(s, b, k) ==> s[i] != b,
        index_from(s, b, k) < s.len() ==> s[index_from(s, b, k)] == b,
    decreases s.len() - k,
{
    if k < s.len() && s[k] != b {
        lemma_index_from(s, b, k + 1);
    }
}

/// A record that `Sequence::from_slice` takes becomes what `reverse_complement`
/// makes of it, and one that it refuses becomes nothing.
pub proof fn lemma_record_output(r: Seq<u8>)
    ensures
        is_malformed(r) ==> record_output(r) is None,
        forall|h: int|
            first_at(r, 10, h) && h < r.len() - 2 ==> record_output(r) == Some(
                revcomp_record(r, h + 1),
            ),
{
    lemma_index_from(r, 10, 0);
    let h = index_from(r, 10, 0);
    if h < r.len() {
        assert(first_at(r, 10, h));
    }
    assert forall|h2: int| first_at(r, 10, h2) implies h2 == h by {
        if h2 < h {
        } else if h < h2 {
            assert(r[h] == 10);
        }
    }
}

/// The output of a stream is the output of the record that the reader cuts
/// from what it holds, followed by the output of everything after that cut.
/// `s` is what the reader holds and `t` what the stream has yet to give,
/// nothing once the end has been seen. As each call of `next` makes such a
/// cut, the records handed out and transformed, read in pieces of any size,
/// give the output of the whole stream read at once.
pub proof fn lemma_stream_output_step(s: Seq<u8>, t: Seq<u8>, eof: bool, p: int)
    requires
        is_boundary(s, eof, p),
        eof ==> t.len() == 0,
    ensures
        stream_output(s + t) == match (
            record_output(s.subrange(0, p)),
            stream_output(s.subrange(p, s.len() as int) + t),
        ) {
            (Some(a), Some(b)) => Some(a + b),
            _ => None,
        },
{
    let w = s + t;
    lemma_cut_independent_of_reads(s, t, eof, p, p);
    lemma_index_from(w, 62, 1);
    let q = index_from(w, 62, 1);
    if q < w.len() {
        assert(is_boundary(w, true, q));
    } else {
        assert(is_boundary(w, true, q));
    }
    lemma_cut_independent_of_reads(s, t, eof, p, q);
    assert(w.subrange(0, p) =~= s.subrange(0, p));
    assert(w.subrange(p, w.len() as int) =~= s.subrange(p, s.len() as int) + t);
}

/// An empty stream gives an empty output.
pub proof fn lemma_stream_output_empty()
    ensures
        stream_output(Seq::empty()) == Some(Seq::<u8>::empty()),
{
}

} // verus!
