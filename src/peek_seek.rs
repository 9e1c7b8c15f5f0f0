use vstd::prelude::*;

verus! {

/// The first item of `s`, if there is one.
pub open spec fn head_of<T>(s: Seq<T>) -> Option<T> {
    if s.len() > 0 {
        Some(s[0])
    } else {
        None
    }
}

/// A cursor that walks forward through an immutable sequence of items.
///
/// A cursor is described by the items it has not consumed yet (`remaining`), its
/// position in the sequence's own unit (`position`) and the length of the whole
/// sequence in that unit (`limit`). Every operation only moves the position forward.
pub trait PeekSeek: Sized {
    type Item: Copy + Eq;

    /// The cursor's internal invariant.
    spec fn wf(&self) -> bool;

    /// The items that are still to be consumed, in order.
    spec fn remaining(&self) -> Seq<Self::Item>;

    /// The current position, in the unit of the underlying sequence.
    spec fn position(&self) -> nat;

    /// The length of the underlying sequence, in the same unit as `position`.
    spec fn limit(&self) -> nat;

    /// A well-formed cursor never stands past the end, and it stands at the end
    /// exactly when no item remains.
    proof fn lemma_wf_bounds(&self)
        requires
            self.wf(),
        ensures
            self.position() <= self.limit(),
            self.remaining().len() == 0 <==> self.position() == self.limit(),
            self.remaining().len() <= self.limit() - self.position(),
            self.limit() <= usize::MAX,
    ;

    /// The item at the current position, without advancing.
    fn peek(&self) -> (r: Option<Self::Item>)
        requires
            self.wf(),
        ensures
            r == head_of(self.remaining()),
    ;

    /// Consumes and returns the item at the current position; does nothing at the end.
    fn next(&mut self) -> (r: Option<Self::Item>)
        requires
            old(self).wf(),
        ensures
            final(self).wf(),
            r == head_of(old(self).remaining()),
            old(self).remaining().len() == 0 ==> *final(self) == *old(self),
            old(self).remaining().len() > 0 ==> final(self).remaining() == old(
                self,
            ).remaining().drop_first() && old(self).position() < final(self).position(),
            final(self).limit() == old(self).limit(),
    ;

    /// Whether the item at the current position equals `target`.
    fn peek_next(&mut self, target: Self::Item) -> (r: bool)
        requires
            old(self).wf(),
        ensures
            *final(self) == *old(self),
            r == (head_of(old(self).remaining()) == Some(target)),
    ;

    /// Consumes the current item if it equals `target`, and tells whether it did.
    fn check_next(&mut self, target: Self::Item) -> (r: bool)
        requires
            old(self).wf(),
        ensures
            final(self).wf(),
            r == (head_of(old(self).remaining()) == Some(target)),
            r ==> final(self).remaining() == old(self).remaining().drop_first() && old(
                self,
            ).position() < final(self).position() && final(self).limit() == old(self).limit(),
            !r ==> *final(self) == *old(self),
    {
        if self.peek_next(target) {
            self.next();
            true
        } else {
            false
        }
    }

    /// Consumes the current item if `f` accepts it, and tells whether it did.
    fn check_next_pattern<F: Fn(Self::Item) -> bool>(&mut self, f: F) -> (r: bool)
        requires
            old(self).wf(),
            forall|c: Self::Item| f.requires((c,)),
        ensures
            final(self).wf(),
            old(self).remaining().len() == 0 ==> !r,
            old(self).remaining().len() > 0 ==> f.ensures((old(self).remaining()[0],), r),
            r ==> final(self).remaining() == old(self).remaining().drop_first() && old(
                self,
            ).position() < final(self).position() && final(self).limit() == old(self).limit(),
            !r ==> *final(self) == *old(self),
    {
        match self.peek() {
            Some(c) => {
                if f(c) {
                    self.next();
                    true
                } else {
                    false
                }
            },
            None => false,
        }
    }

    /// Whether `f` accepts the item at the current position; never advances.
    fn peek_next_pattern<F: FnOnce(Self::Item) -> bool>(&mut self, f: F) -> (r: bool)
        requires
            old(self).wf(),
            forall|c: Self::Item| f.requires((c,)),
        ensures
            *final(self) == *old(self),
            old(self).remaining().len() == 0 ==> !r,
            old(self).remaining().len() > 0 ==> f.ensures((old(self).remaining()[0],), r),
    {
        match self.peek() {
            Some(c) => f(c),
            None => false,
        }
    }

    /// Advances by up to `n` items and returns how many were passed over.
    fn skip(&mut self, n: usize) -> (r: usize)
        requires
            old(self).wf(),
        ensures
            final(self).wf(),
            r == if n <= old(self).remaining().len() {
                n as int
            } else {
                old(self).remaining().len() as int
            },
            final(self).remaining() == old(self).remaining().skip(r as int),
            old(self).position() <= final(self).position(),
            final(self).limit() == old(self).limit(),
            old(self).remaining().len() == 0 ==> *final(self) == *old(self),
    {
        let mut i: usize = 0;
        while i < n
            invariant
                self.wf(),
                i <= n,
                i <= old(self).remaining().len(),
                self.remaining() == old(self).remaining().skip(i as int),
                old(self).position() <= self.position(),
                self.limit() == old(self).limit(),
                old(self).remaining().len() == 0 ==> *self == *old(self),
            decreases n - i,
        {
            if self.next().is_none() {
                return i;
            }
            i += 1;
        }
        n
    }

    /// Advances past every leading item that `f` rejects, stopping before the first
    /// one it accepts (or at the end), and returns how many items were passed over.
    fn skip_until<F: Fn(Self::Item) -> bool>(&mut self, f: F) -> (r: usize)
        requires
            old(self).wf(),
            forall|c: Self::Item| f.requires((c,)),
        ensures
            final(self).wf(),
            r <= old(self).remaining().len(),
            final(self).remaining() == old(self).remaining().skip(r as int),
            forall|i: int| 0 <= i < r ==> f.ensures((old(self).remaining()[i],), false),
            r < old(self).remaining().len() ==> f.ensures((old(self).remaining()[r as int],), true),
            old(self).position() <= final(self).position(),
            final(self).limit() == old(self).limit(),
            old(self).remaining().len() == 0 ==> *final(self) == *old(self),
    {
        proof {
            self.lemma_wf_bounds();
        }
        let mut n: usize = 0;
        loop
            invariant
                self.wf(),
                old(self).remaining().len() <= usize::MAX,
                forall|c: Self::Item| f.requires((c,)),
                n <= old(self).remaining().len(),
                self.remaining() == old(self).remaining().skip(n as int),
                forall|i: int| 0 <= i < n ==> f.ensures((old(self).remaining()[i],), false),
                old(self).position() <= self.position(),
                self.limit() == old(self).limit(),
                old(self).remaining().len() == 0 ==> *self == *old(self),
            ensures
                self.wf(),
                n <= old(self).remaining().len(),
                self.remaining() == old(self).remaining().skip(n as int),
                forall|i: int| 0 <= i < n ==> f.ensures((old(self).remaining()[i],), false),
                n < old(self).remaining().len() ==> f.ensures((old(self).remaining()[n as int],), true),
                old(self).position() <= self.position(),
                self.limit() == old(self).limit(),
                old(self).remaining().len() == 0 ==> *self == *old(self),
            decreases old(self).remaining().len() - n,
        {
            match self.peek() {
                Some(c) => {
                    if f(c) {
                        break;
                    }
                    self.next();
                    n += 1;
                },
                None => break,
            }
        }
        n
    }

    /// Whether every item has been consumed.
    fn is_empty(&self) -> (r: bool)
        requires
            self.wf(),
        ensures
            r == (self.remaining().len() == 0),
    {
        self.peek().is_none()
    }
}

/// A cursor that reports a missing or wrong item as an error of the implementer's choosing.
pub trait FalliblePeekSeek: PeekSeek {
    type Error;

    /// The error for "the input ended", as a value.
    spec fn eof_value(&self) -> Self::Error;

    /// The error for "found `c`, which was not wanted", as a value.
    spec fn unexpected_value(&self, c: Self::Item) -> Self::Error;

    /// Builds the error for the end of the input.
    fn eof_error(&self) -> (e: Self::Error)
        ensures
            e == self.eof_value(),
    ;

    /// Builds the error for an unwanted item `c`.
    fn unexpected_error(&self, c: Self::Item) -> (e: Self::Error)
        ensures
            e == self.unexpected_value(c),
    ;

    /// Consumes one item, which must equal `target`.
    fn expect_next(&mut self, target: Self::Item) -> (r: Result<Self::Item, Self::Error>)
        requires
            old(self).wf(),
        ensures
            final(self).wf(),
            final(self).remaining() == if old(self).remaining().len() > 0 {
                old(self).remaining().drop_first()
            } else {
                old(self).remaining()
            },
            old(self).position() <= final(self).position(),
            final(self).limit() == old(self).limit(),
            old(self).remaining().len() == 0 ==> r == Err::<Self::Item, Self::Error>(
                final(self).eof_value(),
            ),
            old(self).remaining().len() > 0 && old(self).remaining()[0] == target ==> r == Ok::<
                Self::Item,
                Self::Error,
            >(target),
            old(self).remaining().len() > 0 && old(self).remaining()[0] != target ==> r == Err::<
                Self::Item,
                Self::Error,
            >(final(self).unexpected_value(old(self).remaining()[0])),
    {
        if self.peek_next(target) {
            self.next();
            Ok(target)
        } else {
            match self.next() {
                Some(c) => Err(self.unexpected_error(c)),
                None => Err(self.eof_error()),
            }
        }
    }

    /// Consumes one item, reporting the end of the input as an error.
    fn expect(&mut self) -> (r: Result<Self::Item, Self::Error>)
        requires
            old(self).wf(),
        ensures
            final(self).wf(),
            final(self).remaining() == if old(self).remaining().len() > 0 {
                old(self).remaining().drop_first()
            } else {
                old(self).remaining()
            },
            old(self).position() <= final(self).position(),
            final(self).limit() == old(self).limit(),
            old(self).remaining().len() == 0 ==> r == Err::<Self::Item, Self::Error>(
                final(self).eof_value(),
            ),
            old(self).remaining().len() > 0 ==> r == Ok::<Self::Item, Self::Error>(
                old(self).remaining()[0],
            ),
    {
        match self.next() {
            Some(c) => Ok(c),
            None => Err(self.eof_error()),
        }
    }

    /// Consumes one item, which `f` must accept.
    fn expect_next_pattern<F: Fn(Self::Item) -> bool>(&mut self, f: F) -> (r: Result<
        Self::Item,
        Self::Error,
    >)
        requires
            old(self).wf(),
            forall|c: Self::Item| f.requires((c,)),
        ensures
            final(self).wf(),
            final(self).remaining() == if old(self).remaining().len() > 0 {
                old(self).remaining().drop_first()
            } else {
                old(self).remaining()
            },
            old(self).position() <= final(self).position(),
            final(self).limit() == old(self).limit(),
            old(self).remaining().len() == 0 ==> r == Err::<Self::Item, Self::Error>(
                final(self).eof_value(),
            ),
            old(self).remaining().len() > 0 ==> {
                let c = old(self).remaining()[0];
                ||| f.ensures((c,), true) && r == Ok::<Self::Item, Self::Error>(c)
                ||| f.ensures((c,), false) && r == Err::<Self::Item, Self::Error>(
                    final(self).unexpected_value(c),
                )
            },
    {
        match self.next() {
            Some(c) => {
                if f(c) {
                    Ok(c)
                } else {
                    Err(self.unexpected_error(c))
                }
            },
            None => Err(self.eof_error()),
        }
    }
}

} // verus!
