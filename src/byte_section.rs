use crate::peek_seek::PeekSeek;
use vstd::prelude::*;
use vstd::bytes::{
    lemma_auto_spec_u64_to_from_le_bytes, spec_u64_from_le_bytes, spec_u64_to_le_bytes,
    spec_u64_to_le_bytes_open, spec_u64_to_le_bytes_to_open, u64_from_le_bytes,
};
use vstd::slice::{slice_subrange, SliceIndexSpec};

verus! {

/// Whether a scan for `target` that starts at `from` in `src` stops at `to`: every
/// byte passed over differs from `target`, and the byte at `to`, if any, equals it.
pub open spec fn stops_at_target(src: Seq<u8>, from: int, target: u8, to: int) -> bool {
    &&& from <= to <= src.len()
    &&& forall|i: int| from <= i < to ==> src[i] != target
    &&& to < src.len() ==> src[to] == target
}

/// A scan for a byte stops at one place only: the first occurrence of the target at
/// or after the start, or the end when there is none. Both target searches of
/// `ByteSection` end in `stops_at_target`, so the word-at-a-time search and the
/// byte-at-a-time one always agree on the count and on the final position.
pub proof fn lemma_stop_is_unique(src: Seq<u8>, from: int, target: u8, a: int, b: int)
    requires
        stops_at_target(src, from, target, a),
        stops_at_target(src, from, target, b),
    ensures
        a == b,
{
    if a < b {
        assert(src[a] == target);
    } else if b < a {
        assert(src[b] == target);
    }
}

/// A word with the low bit of every byte set.
pub const LOW_BITS: u64 = 0x0101_0101_0101_0101;

/// A word with the high bit of every byte set.
pub const HIGH_BITS: u64 = 0x8080_8080_8080_8080;

/// Whether one of the eight bytes of `x` is zero.
pub open spec fn has_zero_byte(x: u64) -> bool {
    ||| x & 0xff == 0
    ||| (x >> 8) & 0xff == 0
    ||| (x >> 16) & 0xff == 0
    ||| (x >> 24) & 0xff == 0
    ||| (x >> 32) & 0xff == 0
    ||| (x >> 40) & 0xff == 0
    ||| (x >> 48) & 0xff == 0
    ||| (x >> 56) & 0xff == 0
}

/// The word-parallel zero test flags every word that holds a zero byte.
proof fn lemma_zero_byte_flagged(x: u64)
    by (bit_vector)
    requires
        has_zero_byte(x),
    ensures
        x.wrapping_sub(LOW_BITS) & !x & HIGH_BITS != 0,
{
}

/// The byte `t` repeated in each of the eight bytes of a word.
pub open spec fn splat(t: u8) -> u64 {
    ((t as u64) * LOW_BITS) as u64
}

/// A word loaded from eight bytes, xored with the target byte in every lane, has
/// a zero byte wherever one of the eight bytes equals the target.
proof fn lemma_word_lanes(chunk: Seq<u8>, t: u8)
    requires
        chunk.len() == 8,
        !has_zero_byte(spec_u64_from_le_bytes(chunk) ^ splat(t)),
    ensures
        forall|j: int| 0 <= j < 8 ==> chunk[j] != t,
{
    let w = spec_u64_from_le_bytes(chunk);
    lemma_auto_spec_u64_to_from_le_bytes();
    spec_u64_to_le_bytes_to_open(w);
    assert(spec_u64_to_le_bytes(spec_u64_from_le_bytes(chunk)) == chunk);
    let lanes = spec_u64_to_le_bytes_open(w);
    assert(lanes =~= chunk);
    let x = w ^ splat(t);
    assert({
        &&& (x & 0xff == 0 <==> (w & 0xff) as u8 == t)
        &&& ((x >> 8) & 0xff == 0 <==> ((w >> 8) & 0xff) as u8 == t)
        &&& ((x >> 16) & 0xff == 0 <==> ((w >> 16) & 0xff) as u8 == t)
        &&& ((x >> 24) & 0xff == 0 <==> ((w >> 24) & 0xff) as u8 == t)
        &&& ((x >> 32) & 0xff == 0 <==> ((w >> 32) & 0xff) as u8 == t)
        &&& ((x >> 40) & 0xff == 0 <==> ((w >> 40) & 0xff) as u8 == t)
        &&& ((x >> 48) & 0xff == 0 <==> ((w >> 48) & 0xff) as u8 == t)
        &&& ((x >> 56) & 0xff == 0 <==> ((w >> 56) & 0xff) as u8 == t)
    }) by (bit_vector)
        requires
            x == w ^ splat(t),
    ;
}

/// A cursor over a byte slice; `n` is the number of bytes consumed so far.
pub struct ByteSection<'a> {
    pub n: usize,
    pub src: &'a [u8],
}

impl<'a> ByteSection<'a> {
    /// A cursor at the start of `buf`.
    pub fn new(buf: &'a [u8]) -> (r: ByteSection<'a>)
        ensures
            r.n == 0,
            r.src@ == buf@,
            r.wf(),
    {
        ByteSection { n: 0, src: buf }
    }

    /// Hands out the next `n` bytes (fewer at the end of the input) and moves past them.
    pub fn take(&mut self, n: usize) -> (r: &'a [u8])
        requires
            old(self).wf(),
        ensures
            final(self).wf(),
            final(self).src@ == old(self).src@,
            final(self).n == old(self).n + r@.len(),
            r@.len() == if n <= old(self).src@.len() - old(self).n {
                n as int
            } else {
                old(self).src@.len() - old(self).n
            },
            r@ == old(self).src@.subrange(old(self).n as int, final(self).n as int),
    {
        let end = if n <= self.src.len() - self.n {
            self.n + n
        } else {
            self.src.len()
        };
        let result = slice_subrange(self.src, self.n, end);
        self.n = end;
        result
    }

    /// The bytes not consumed yet.
    pub fn slice_to_end(&self) -> (r: &'a [u8])
        requires
            self.wf(),
        ensures
            r@ == self.remaining(),
    {
        slice_subrange(self.src, self.n, self.src.len())
    }

    /// The bytes consumed so far.
    pub fn slice_from_start(&self) -> (r: &'a [u8])
        requires
            self.wf(),
        ensures
            r@ == self.src@.subrange(0, self.n as int),
    {
        slice_subrange(self.src, 0, self.n)
    }

    /// Moves to the next occurrence of `target` (or to the end) one byte at a time,
    /// without consuming it, and returns how many bytes were passed over.
    pub fn skip_until_fallback(&mut self, target: u8) -> (r: usize)
        requires
            old(self).wf(),
        ensures
            final(self).wf(),
            final(self).src@ == old(self).src@,
            final(self).n == old(self).n + r,
            stops_at_target(old(self).src@, old(self).n as int, target, final(self).n as int),
    {
        let start = self.n;
        let maxn = self.src.len();
        let src = self.src;
        while self.n < maxn
            invariant
                self.src == old(self).src,
                start == old(self).n,
                self.src@ == src@,
                maxn == src@.len(),
                start <= self.n <= maxn,
                forall|i: int| start <= i < self.n ==> src@[i] != target,
            decreases maxn - self.n,
        {
            if src[self.n] == target {
                return self.n - start;
            }
            self.n += 1;
        }
        self.n - start
    }

    /// Moves to the next occurrence of `target` (or to the end), without consuming it,
    /// and returns how many bytes were passed over. Eight bytes at a time are loaded
    /// into a word and tested at once for the target; the word that holds a match,
    /// and the tail shorter than a word, are scanned byte by byte. The result is
    /// that of `skip_until_fallback`.
    pub fn skip_until_target(&mut self, target: u8) -> (r: usize)
        requires
            old(self).wf(),
        ensures
            final(self).wf(),
            final(self).src@ == old(self).src@,
            final(self).n == old(self).n + r,
            stops_at_target(old(self).src@, old(self).n as int, target, final(self).n as int),
    {
        let start = self.n;
        let maxn = self.src.len();
        let src = self.src;
        let mut i: usize = start;
        assert((target as u64) * LOW_BITS <= u64::MAX) by (bit_vector);
        let pattern: u64 = (target as u64) * LOW_BITS;
        while maxn - i >= 8
            invariant
                maxn == src@.len(),
                start <= i <= maxn,
                pattern == splat(target),
                forall|j: int| start <= j < i ==> src@[j] != target,
            decreases maxn - i,
        {
            let chunk = slice_subrange(src, i, i + 8);
            let x = u64_from_le_bytes(chunk) ^ pattern;
            if x.wrapping_sub(LOW_BITS) & !x & HIGH_BITS != 0 {
                break;
            }
            proof {
                if has_zero_byte(x) {
                    lemma_zero_byte_flagged(x);
                }
                lemma_word_lanes(chunk@, target);
                assert forall|j: int| start <= j < i + 8 implies src@[j] != target by {
                    if j >= i {
                        assert(src@[j] == chunk@[j - i]);
                    }
                }
            }
            i += 8;
        }
        while i < maxn && src[i] != target
            invariant
                maxn == src@.len(),
                start <= i <= maxn,
                forall|j: int| start <= j < i ==> src@[j] != target,
            decreases maxn - i,
        {
            i += 1;
        }
        self.n = i;
        i - start
    }
}

/// Indexing reads the underlying slice, counting from its start rather than from
/// the cursor.
impl<'a, I: std::slice::SliceIndex<[u8]>> std::ops::Index<I> for ByteSection<'a> {
    type Output = I::Output;

    fn index(&self, idx: I) -> (r: &I::Output) {
        self.src.index(idx)
    }
}

impl<'a, I: std::slice::SliceIndex<[u8]>> vstd::std_specs::core::IndexSpecImpl<I> for ByteSection<'a> {
    open spec fn index_req(&self, index: &I) -> bool {
        index.index_req(self.src)
    }
}

impl<'a> PeekSeek for ByteSection<'a> {
    type Item = u8;

    open spec fn wf(&self) -> bool {
        self.n <= self.src@.len()
    }

    open spec fn remaining(&self) -> Seq<u8> {
        self.src@.subrange(self.n as int, self.src@.len() as int)
    }

    open spec fn position(&self) -> nat {
        self.n as nat
    }

    open spec fn limit(&self) -> nat {
        self.src@.len()
    }

    proof fn lemma_wf_bounds(&self) {
        vstd::slice::axiom_spec_len(self.src);
    }

    fn peek(&self) -> (r: Option<u8>) {
        if self.n < self.src.len() {
            Some(self.src[self.n])
        } else {
            None
        }
    }

    fn next(&mut self) -> (r: Option<u8>) {
        if self.n < self.src.len() {
            let c = self.src[self.n];
            self.n += 1;
            Some(c)
        } else {
            None
        }
    }

    fn peek_next(&mut self, target: u8) -> (r: bool) {
        self.n < self.src.len() && self.src[self.n] == target
    }

    /// Jumps over up to `n` bytes at once.
    fn skip(&mut self, n: usize) -> (r: usize) {
        let k = if n <= self.src.len() - self.n {
            n
        } else {
            self.src.len() - self.n
        };
        self.n += k;
        k
    }

    fn skip_until<F: Fn(u8) -> bool>(&mut self, f: F) -> (r: usize) {
        let start = self.n;
        let maxn = self.src.len();
        let src = self.src;
        let ghost rest = self.remaining();
        while self.n < maxn
            invariant
                self.src == old(self).src,
                start == old(self).n,
                rest == old(self).remaining(),
                self.src == src,
                maxn == src@.len(),
                start <= self.n <= maxn,
                rest == src@.subrange(start as int, maxn as int),
                forall|c: u8| f.requires((c,)),
                forall|i: int| 0 <= i < self.n - start ==> f.ensures((rest[i],), false),
            decreases maxn - self.n,
        {
            if f(src[self.n]) {
                return self.n - start;
            }
            self.n += 1;
        }
        self.n - start
    }

    fn is_empty(&self) -> (r: bool) {
        self.n == self.src.len()
    }
}

} // verus!
