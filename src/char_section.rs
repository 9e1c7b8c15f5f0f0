use crate::peek_seek::{head_of, PeekSeek};
use vstd::prelude::*;
use vstd::string::{StrSliceExecFns, StringSliceAdditionalSpecFns};
use vstd::utf8::*;

verus! {

/// Encoding a concatenation encodes each part in turn.
pub proof fn lemma_encode_utf8_concat(a: Seq<char>, b: Seq<char>)
    ensures
        encode_utf8(a + b) == encode_utf8(a) + encode_utf8(b),
    decreases a.len(),
{
    if a.len() == 0 {
        assert(a + b =~= b);
        assert(encode_utf8(a) + encode_utf8(b) =~= encode_utf8(b));
    } else {
        assert((a + b).drop_first() =~= a.drop_first() + b);
        lemma_encode_utf8_concat(a.drop_first(), b);
        assert(encode_utf8(a + b) =~= encode_utf8(a) + encode_utf8(b));
    }
}

/// The end of an encoded prefix is a character boundary of the whole encoding.
proof fn lemma_prefix_end_is_boundary(a: Seq<char>, b: Seq<char>)
    ensures
        is_char_boundary(encode_utf8(a + b), encode_utf8(a).len() as int),
    decreases a.len(),
{
    let bytes = encode_utf8(a + b);
    encode_utf8_valid_utf8(a + b);
    if a.len() == 0 {
        assert(encode_utf8(a).len() == 0);
    } else {
        encode_utf8_first_scalar(a + b);
        assert((a + b).drop_first() =~= a.drop_first() + b);
        assert(pop_first_scalar(bytes) =~= encode_utf8(a.drop_first() + b));
        lemma_prefix_end_is_boundary(a.drop_first(), b);
        lemma_encode_utf8_concat(a, b);
        lemma_encode_utf8_len(b);
    }
}

/// There are never fewer bytes than characters, and no bytes only for no characters.
proof fn lemma_encode_utf8_len(a: Seq<char>)
    ensures
        a.len() <= encode_utf8(a).len(),
        encode_utf8(a).len() == 0 <==> a.len() == 0,
    decreases a.len(),
{
    if a.len() > 0 {
        lemma_encode_utf8_len(a.drop_first());
    }
}

/// The number of bytes in the UTF-8 encoding of `c`.
fn utf8_width(c: char) -> (r: usize)
    ensures
        r == encode_scalar(c as u32).len(),
        1 <= r <= 4,
{
    proof {
        char_is_scalar(c);
    }
    let v = c as u32;
    if v < 0x80 {
        1
    } else if v < 0x800 {
        2
    } else if v < 0x10000 {
        3
    } else {
        4
    }
}

/// A cursor over the characters of a string slice. `n` is the number of bytes of
/// the characters consumed so far; the next character is cached so that `peek`
/// does not decode.
pub struct CharSection<'a> {
    pub n: usize,
    pub s: &'a str,
    pub rest: &'a str,
    pub head: Option<char>,
    pub consumed: Ghost<nat>,
}

impl<'a> CharSection<'a> {
    /// A cursor at the start of `s`.
    pub fn new(s: &'a str) -> (r: Self)
        requires
            s.spec_bytes().len() <= usize::MAX,
        ensures
            r.wf(),
            r.s == s,
            r.n == 0,
            r.remaining() == s@,
            r.consumed_chars() == Seq::<char>::empty(),
    {
        let head = if s.is_empty() {
            None
        } else {
            Some(s.get_char(0))
        };
        let r = CharSection { n: 0, s, rest: s, head, consumed: Ghost(0) };
        assert(s@.skip(0) =~= s@);
        assert(s.spec_bytes().subrange(0, s.spec_bytes().len() as int) =~= s.spec_bytes());
        assert(s@.take(0) =~= Seq::<char>::empty());
        r
    }

    /// The characters consumed so far.
    pub open spec fn consumed_chars(&self) -> Seq<char> {
        self.s@.take(self.consumed@ as int)
    }

    /// The part of the text not consumed yet.
    pub fn after(&self) -> (r: &'a str)
        requires
            self.wf(),
        ensures
            r@ == self.remaining(),
            r.spec_bytes() == self.s.spec_bytes().subrange(
                self.n as int,
                self.s.spec_bytes().len() as int,
            ),
    {
        self.rest
    }
}

/// The position of a character cursor is the exact length in bytes of the
/// characters it has consumed, so it always falls on a character boundary of the
/// text; and those characters followed by the remaining ones make up the whole text.
pub proof fn lemma_position_is_encoded_length(c: &CharSection)
    requires
        c.wf(),
    ensures
        c.n == encode_utf8(c.consumed_chars()).len(),
        c.consumed_chars() + c.remaining() == c.s@,
        is_char_boundary(c.s.spec_bytes(), c.n as int),
{
    assert(c.consumed_chars() + c.remaining() =~= c.s@);
    lemma_prefix_end_is_boundary(c.consumed_chars(), c.remaining());
}

impl<'a> PeekSeek for CharSection<'a> {
    type Item = char;

    open spec fn wf(&self) -> bool {
        &&& self.consumed@ <= self.s@.len()
        &&& self.rest@ == self.s@.skip(self.consumed@ as int)
        &&& self.n == encode_utf8(self.s@.take(self.consumed@ as int)).len()
        &&& self.s.spec_bytes().len() <= usize::MAX
        &&& self.n <= self.s.spec_bytes().len()
        &&& self.rest.spec_bytes() == self.s.spec_bytes().subrange(
            self.n as int,
            self.s.spec_bytes().len() as int,
        )
        &&& self.head == head_of(self.rest@)
    }

    open spec fn remaining(&self) -> Seq<char> {
        self.s@.skip(self.consumed@ as int)
    }

    open spec fn position(&self) -> nat {
        self.n as nat
    }

    open spec fn limit(&self) -> nat {
        self.s.spec_bytes().len()
    }

    proof fn lemma_wf_bounds(&self) {
        lemma_encode_utf8_len(self.rest@);
    }

    fn peek(&self) -> (r: Option<char>) {
        self.head
    }

    fn next(&mut self) -> (r: Option<char>) {
        match self.head {
            None => None,
            Some(c) => {
                let w = utf8_width(c);
                let ghost bytes = self.rest.spec_bytes();
                let ghost chars = self.rest@;
                proof {
                    encode_utf8_valid_utf8(chars);
                    encode_utf8_first_scalar(chars);
                    assert(pop_first_scalar(bytes) =~= encode_utf8(chars.drop_first()));
                    assert(is_char_boundary(pop_first_scalar(bytes), 0));
                    assert(is_char_boundary(bytes, w as int));
                }
                let (_, tail) = self.rest.split_at(w);
                proof {
                    assert(tail.spec_bytes() =~= encode_utf8(chars.drop_first()));
                    encode_utf8_decode_utf8(tail@);
                    encode_utf8_decode_utf8(chars.drop_first());
                    let k = self.consumed@ as int;
                    assert(self.s@.take(k + 1) =~= self.s@.take(k) + seq![c]);
                    lemma_encode_utf8_concat(self.s@.take(k), seq![c]);
                    assert(encode_utf8(seq![c]) =~= encode_scalar(c as u32)) by {
                        let one = seq![c];
                        assert(one.drop_first() =~= Seq::<char>::empty());
                        assert(encode_utf8(one.drop_first()) =~= Seq::<u8>::empty());
                        assert(encode_utf8(one) == encode_scalar(one[0] as u32) + encode_utf8(
                            one.drop_first(),
                        ));
                    }
                    assert(self.s@.skip(k + 1) =~= self.s@.skip(k).drop_first());
                }
                self.rest = tail;
                self.n = self.n + w;
                self.consumed = Ghost(self.consumed@ + 1);
                self.head = if tail.is_empty() {
                    None
                } else {
                    Some(tail.get_char(0))
                };
                assert(self.rest.spec_bytes() =~= self.s.spec_bytes().subrange(
                    self.n as int,
                    self.s.spec_bytes().len() as int,
                ));
                Some(c)
            },
        }
    }

    fn peek_next(&mut self, target: char) -> (r: bool) {
        match self.head {
            Some(c) => c == target,
            None => false,
        }
    }
}

} // verus!
