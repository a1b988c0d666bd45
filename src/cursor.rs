use vstd::prelude::*;

use crate::error::DecodeError;

verus! {

/// A read position over an immutable byte region.
pub struct Cursor<'a> {
    bytes: &'a [u8],
    pos: usize,
}

impl<'a> Cursor<'a> {
    #[verifier::type_invariant]
    spec fn inv(self) -> bool {
        self.pos <= self.bytes@.len()
    }

    /// The whole byte region.
    pub closed spec fn data(self) -> Seq<u8> {
        self.bytes@
    }

    /// The read position, as an offset into `data()`.
    pub closed spec fn pos(self) -> nat {
        self.pos as nat
    }

    /// The bytes from the read position to the end of the region.
    pub open spec fn remaining(self) -> Seq<u8> {
        self.data().subrange(self.pos() as int, self.data().len() as int)
    }

    /// A cursor at the start of `bytes`.
    pub fn new(bytes: &'a [u8]) -> (c: Self)
        ensures
            c.data() == bytes@,
            c.pos() == 0,
    {
        Cursor { bytes, pos: 0 }
    }

    /// The read position.
    pub fn position(&self) -> (r: usize)
        ensures
            r == self.pos(),
    {
        self.pos
    }

    /// How many bytes are left to read.
    pub fn remaining_len(&self) -> (r: usize)
        ensures
            self.pos() <= self.data().len(),
            r == self.remaining().len(),
    {
        proof {
            use_type_invariant(self);
        }
        self.bytes.len() - self.pos
    }

    /// Reads one byte and advances past it.
    pub fn read_u8(&mut self) -> (r: Result<u8, DecodeError>)
        ensures
            final(self).data() == old(self).data(),
            old(self).pos() <= old(self).data().len(),
            old(self).remaining().len() == 0 ==> r == Err::<u8, DecodeError>(
                DecodeError::TruncatedInput,
            ) && final(self).pos() == old(self).pos(),
            old(self).remaining().len() > 0 ==> r == Ok::<u8, DecodeError>(old(self).remaining()[0])
                && final(self).pos() == old(self).pos() + 1,
    {
        proof {
            use_type_invariant(&*self);
        }
        if self.pos < self.bytes.len() {
            let b = self.bytes[self.pos];
            self.pos = self.pos + 1;
            Ok(b)
        } else {
            Err(DecodeError::TruncatedInput)
        }
    }
}

} // verus!
