use vstd::prelude::*;

use crate::cursor::Cursor;
use crate::error::{DecodeError, EncodeError};

verus! {

/// A type whose values can be written to and read back from a byte stream.
///
/// An implementation fixes its wire format through two spec functions over an
/// abstract model of its values, `spec_encode` and `spec_decode`, and proves
/// that they fit together: decoding an encoding gives the value back and
/// consumes exactly the encoding, whatever follows it; a decode consumes at
/// least one byte and never more than it was given; and any strict prefix of an
/// encoding is reported as truncated input. The executable `encode` and
/// `decode` are bound to the spec functions exactly.
///
/// That every encoding is at least one byte long is what lets a sequence decode
/// reject a declared count larger than the bytes that remain, before reading any
/// element.
pub trait Codec: Sized {
    /// The abstract value that the encoding represents.
    type Model;

    /// The abstract value of `self`.
    spec fn model(&self) -> Self::Model;

    /// The bytes that encode `m`, or the error that encoding `m` reports.
    spec fn spec_encode(m: Self::Model) -> Result<Seq<u8>, EncodeError>;

    /// The value read from the start of `data` and the number of bytes it takes,
    /// or the error that decoding reports.
    spec fn spec_decode(data: Seq<u8>) -> Result<(Self::Model, nat), DecodeError>;

    /// Decoding an encoding followed by any bytes gives the value back and
    /// consumes exactly the encoding.
    proof fn lemma_round_trip(m: Self::Model, rest: Seq<u8>)
        requires
            Self::spec_encode(m) is Ok,
        ensures
            Self::spec_decode(Self::spec_encode(m)->Ok_0 + rest) == Ok::<(Self::Model, nat), DecodeError>(
                (m, Self::spec_encode(m)->Ok_0.len()),
            ),
    ;

    /// A successful decode consumes at least one byte and no more than it was given.
    proof fn lemma_decode_consumes(data: Seq<u8>)
        ensures
            Self::spec_decode(data) is Ok ==> 1 <= Self::spec_decode(data)->Ok_0.1 <= data.len(),
    ;

    /// Decoding a strict prefix of an encoding fails with truncated input.
    proof fn lemma_truncated(m: Self::Model, n: nat)
        requires
            Self::spec_encode(m) is Ok,
            n < Self::spec_encode(m)->Ok_0.len(),
        ensures
            Self::spec_decode(Self::spec_encode(m)->Ok_0.take(n as int)) == Err::<
                (Self::Model, nat),
                DecodeError,
            >(DecodeError::TruncatedInput),
    ;

    /// Appends the encoding of `self` to `buffer`.
    ///
    /// On failure the bytes already in `buffer` are kept, and a part of the
    /// encoding may follow them.
    fn encode(&self, buffer: &mut Vec<u8>) -> (r: Result<(), EncodeError>)
        ensures
            match Self::spec_encode(self.model()) {
                Ok(bytes) => r is Ok && final(buffer)@ == old(buffer)@ + bytes,
                Err(e) => r == Err::<(), EncodeError>(e) && old(buffer)@.is_prefix_of(
                    final(buffer)@,
                ),
            },
    ;

    /// Reads a value at the cursor and advances the cursor past its bytes.
    ///
    /// On failure the read position is left somewhere in the region, and the
    /// error is the one `spec_decode` gives.
    fn decode(cursor: &mut Cursor) -> (r: Result<Self, DecodeError>)
        ensures
            final(cursor).data() == old(cursor).data(),
            match Self::spec_decode(old(cursor).remaining()) {
                Ok((m, k)) => r is Ok && r->Ok_0.model() == m && final(cursor).pos() == old(
                    cursor,
                ).pos() + k,
                Err(e) => r == Err::<Self, DecodeError>(e),
            },
    ;
}

} // verus!
