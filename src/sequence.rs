use vstd::prelude::*;

use crate::codec::Codec;
use crate::cursor::Cursor;
use crate::error::{DecodeError, EncodeError};
use crate::varint::VarInt;

verus! {

/// The encodings of the values of `s` back to back, in order, or the error of
/// the first value that cannot be encoded.
pub open spec fn encode_elems<T: Codec>(s: Seq<T::Model>) -> Result<Seq<u8>, EncodeError>
    decreases s.len(),
{
    if s.len() == 0 {
        Ok(Seq::empty())
    } else {
        match encode_elems::<T>(s.drop_last()) {
            Err(e) => Err(e),
            Ok(front) => match T::spec_encode(s.last()) {
                Err(e) => Err(e),
                Ok(bytes) => Ok(front + bytes),
            },
        }
    }
}

/// Reads `n` values back to back from the start of `data`: the values in order
/// and the number of bytes they take, or the error of the first value that
/// cannot be read.
pub open spec fn decode_elems<T: Codec>(n: nat, data: Seq<u8>) -> Result<
    (Seq<T::Model>, nat),
    DecodeError,
>
    decreases n,
{
    if n == 0 {
        Ok((Seq::empty(), 0))
    } else {
        match decode_elems::<T>((n - 1) as nat, data) {
            Err(e) => Err(e),
            Ok((s, k)) => match T::spec_decode(data.skip(k as int)) {
                Err(e) => Err(e),
                Ok((m, j)) => Ok((s.push(m), k + j)),
            },
        }
    }
}

/// Reading `n` values gives `n` values and takes between `n` bytes and all of
/// `data`.
pub proof fn lemma_decode_elems_bounds<T: Codec>(n: nat, data: Seq<u8>)
    ensures
        decode_elems::<T>(n, data) is Ok ==> decode_elems::<T>(n, data)->Ok_0.0.len() == n && n
            <= decode_elems::<T>(n, data)->Ok_0.1 <= data.len(),
    decreases n,
{
    if n > 0 {
        lemma_decode_elems_bounds::<T>((n - 1) as nat, data);
        if let Ok((s, k)) = decode_elems::<T>((n - 1) as nat, data) {
            T::lemma_decode_consumes(data.skip(k as int));
        }
    }
}

/// Once reading the first `i` values fails, reading more fails the same way.
proof fn lemma_decode_elems_err_persists<T: Codec>(i: nat, n: nat, data: Seq<u8>)
    requires
        i <= n,
        decode_elems::<T>(i, data) is Err,
    ensures
        decode_elems::<T>(n, data) == decode_elems::<T>(i, data),
    decreases n,
{
    if i < n {
        lemma_decode_elems_err_persists::<T>(i, (n - 1) as nat, data);
    }
}

/// Once encoding the first `i` values fails, encoding all of them fails the
/// same way.
proof fn lemma_encode_elems_err_persists<T: Codec>(s: Seq<T::Model>, i: nat)
    requires
        i <= s.len(),
        encode_elems::<T>(s.take(i as int)) is Err,
    ensures
        encode_elems::<T>(s) == encode_elems::<T>(s.take(i as int)),
    decreases s.len(),
{
    if i == s.len() {
        assert(s.take(i as int) =~= s);
    } else {
        assert(s.drop_last().take(i as int) =~= s.take(i as int));
        lemma_encode_elems_err_persists::<T>(s.drop_last(), i);
    }
}

/// Reading back the encodings of `s`, whatever follows them, gives `s` and
/// takes exactly the encodings.
pub proof fn lemma_elems_round_trip<T: Codec>(s: Seq<T::Model>, rest: Seq<u8>)
    requires
        encode_elems::<T>(s) is Ok,
    ensures
        decode_elems::<T>(s.len(), encode_elems::<T>(s)->Ok_0 + rest) == Ok::<
            (Seq<T::Model>, nat),
            DecodeError,
        >((s, encode_elems::<T>(s)->Ok_0.len())),
        encode_elems::<T>(s)->Ok_0.len() >= s.len(),
    decreases s.len(),
{
    let bytes = encode_elems::<T>(s)->Ok_0;
    if s.len() == 0 {
        assert(s =~= Seq::<T::Model>::empty());
    } else {
        let front = s.drop_last();
        let fb = encode_elems::<T>(front)->Ok_0;
        let lb = T::spec_encode(s.last())->Ok_0;
        assert(bytes + rest =~= fb + (lb + rest));
        lemma_elems_round_trip::<T>(front, lb + rest);
        assert((bytes + rest).skip(fb.len() as int) =~= lb + rest);
        T::lemma_round_trip(s.last(), rest);
        T::lemma_decode_consumes(lb + rest);
        assert(front.push(s.last()) =~= s);
    }
}

/// Reading the values of `s` from a strict prefix of their encodings fails
/// with truncated input.
proof fn lemma_elems_truncated<T: Codec>(s: Seq<T::Model>, cut: nat)
    requires
        encode_elems::<T>(s) is Ok,
        cut < encode_elems::<T>(s)->Ok_0.len(),
    ensures
        decode_elems::<T>(s.len(), encode_elems::<T>(s)->Ok_0.take(cut as int)) == Err::<
            (Seq<T::Model>, nat),
            DecodeError,
        >(DecodeError::TruncatedInput),
    decreases s.len(),
{
    let bytes = encode_elems::<T>(s)->Ok_0;
    let data = bytes.take(cut as int);
    let n = s.len();
    let front = s.drop_last();
    let fb = encode_elems::<T>(front)->Ok_0;
    let lb = T::spec_encode(s.last())->Ok_0;
    if cut < fb.len() {
        assert(data =~= fb.take(cut as int));
        lemma_elems_truncated::<T>(front, cut);
        lemma_decode_elems_err_persists::<T>((n - 1) as nat, n, data);
    } else {
        let part = lb.take(cut - fb.len());
        assert(data =~= fb + part);
        lemma_elems_round_trip::<T>(front, part);
        assert(data.skip(fb.len() as int) =~= part);
        T::lemma_truncated(s.last(), (cut - fb.len()) as nat);
    }
}

impl<T: Codec> Codec for Vec<T> {
    type Model = Seq<T::Model>;

    open spec fn model(&self) -> Seq<T::Model> {
        self@.map_values(|e: T| e.model())
    }

    /// A count prefix, then the elements back to back.
    open spec fn spec_encode(s: Seq<T::Model>) -> Result<Seq<u8>, EncodeError> {
        match VarInt::spec_encode(s.len()) {
            Err(e) => Err(e),
            Ok(count) => match encode_elems::<T>(s) {
                Err(e) => Err(e),
                Ok(bytes) => Ok(count + bytes),
            },
        }
    }

    /// A count that exceeds the bytes left after it cannot be met, as every
    /// element takes at least one byte: it is truncated input, found before any
    /// element is read.
    open spec fn spec_decode(data: Seq<u8>) -> Result<(Seq<T::Model>, nat), DecodeError> {
        match VarInt::spec_decode(data) {
            Err(e) => Err(e),
            Ok((n, k)) => if n > data.len() - k {
                Err(DecodeError::TruncatedInput)
            } else {
                match decode_elems::<T>(n, data.skip(k as int)) {
                    Err(e) => Err(e),
                    Ok((s, j)) => Ok((s, k + j)),
                }
            },
        }
    }

    proof fn lemma_round_trip(s: Seq<T::Model>, rest: Seq<u8>) {
        let count = VarInt::spec_encode(s.len())->Ok_0;
        let bytes = encode_elems::<T>(s)->Ok_0;
        let data = Self::spec_encode(s)->Ok_0 + rest;
        assert(data =~= count + (bytes + rest));
        VarInt::lemma_round_trip(s.len(), bytes + rest);
        lemma_elems_round_trip::<T>(s, rest);
        assert(data.skip(count.len() as int) =~= bytes + rest);
    }

    proof fn lemma_decode_consumes(data: Seq<u8>) {
        VarInt::lemma_decode_consumes(data);
        if let Ok((n, k)) = VarInt::spec_decode(data) {
            lemma_decode_elems_bounds::<T>(n, data.skip(k as int));
        }
    }

    proof fn lemma_truncated(s: Seq<T::Model>, cut: nat) {
        let count = VarInt::spec_encode(s.len())->Ok_0;
        let bytes = encode_elems::<T>(s)->Ok_0;
        let data = Self::spec_encode(s)->Ok_0.take(cut as int);
        if cut < count.len() {
            assert(data =~= count.take(cut as int));
            VarInt::lemma_truncated(s.len(), cut);
        } else {
            let part = bytes.take(cut - count.len());
            assert(data =~= count + part);
            VarInt::lemma_round_trip(s.len(), part);
            assert(data.skip(count.len() as int) =~= part);
            if s.len() <= part.len() {
                lemma_elems_truncated::<T>(s, (cut - count.len()) as nat);
            }
        }
    }

    fn encode(&self, buffer: &mut Vec<u8>) -> (r: Result<(), EncodeError>) {
        let count = VarInt(self.len() as u64);
        match count.encode(buffer) {
            Ok(()) => {},
            Err(e) => return Err(e),
        }
        let ghost start = buffer@;
        let ghost s = self.model();
        let mut i: usize = 0;
        while i < self.len()
            invariant
                i <= self.len(),
                s == self.model(),
                s.len() == self@.len(),
                start == old(buffer)@ + VarInt::spec_encode(s.len())->Ok_0,
                encode_elems::<T>(s.take(i as int)) is Ok,
                buffer@ == start + encode_elems::<T>(s.take(i as int))->Ok_0,
            decreases self.len() - i,
        {
            let ghost before = buffer@;
            assert(s.take(i + 1).drop_last() =~= s.take(i as int));
            assert(s.take(i + 1).last() == self@[i as int].model());
            match self[i].encode(buffer) {
                Ok(()) => {},
                Err(e) => {
                    proof {
                        lemma_encode_elems_err_persists::<T>(s, (i + 1) as nat);
                        assert(old(buffer)@.is_prefix_of(buffer@)) by {
                            assert(buffer@.take(before.len() as int) =~= before);
                            assert(before.take(old(buffer)@.len() as int) =~= old(buffer)@);
                        }
                    }
                    return Err(e);
                },
            }
            i = i + 1;
            assert(buffer@ =~= start + encode_elems::<T>(s.take(i as int))->Ok_0);
        }
        assert(s.take(self.len() as int) =~= s);
        assert(buffer@ =~= old(buffer)@ + Self::spec_encode(s)->Ok_0);
        Ok(())
    }

    fn decode(cursor: &mut Cursor) -> (r: Result<Self, DecodeError>) {
        let ghost data = old(cursor).remaining();
        let count = match VarInt::decode(cursor) {
            Ok(c) => c,
            Err(e) => return Err(e),
        };
        let ghost k: nat = (cursor.pos() - old(cursor).pos()) as nat;
        proof {
            VarInt::lemma_decode_consumes(data);
        }
        let avail = cursor.remaining_len();
        proof {
            assert(cursor.remaining() =~= data.skip(k as int));
        }
        if count.0 > avail as u64 {
            return Err(DecodeError::TruncatedInput);
        }
        let n = count.0 as usize;
        let ghost start = cursor.pos();
        let ghost body = cursor.remaining();
        let mut out: Vec<T> = Vec::new();
        let mut i: usize = 0;
        while i < n
            invariant
                i <= n,
                n == count.0,
                data == old(cursor).remaining(),
                VarInt::spec_decode(data) == Ok::<(nat, nat), DecodeError>((n as nat, k)),
                n <= data.len() - k,
                start == old(cursor).pos() + k,
                cursor.data() == old(cursor).data(),
                body == data.skip(k as int),
                decode_elems::<T>(i as nat, body) is Ok,
                out.model() == decode_elems::<T>(i as nat, body)->Ok_0.0,
                start + decode_elems::<T>(i as nat, body)->Ok_0.1 == cursor.pos(),
                cursor.remaining() == body.skip(decode_elems::<T>(i as nat, body)->Ok_0.1 as int),
                cursor.pos() <= cursor.data().len(),
            decreases n - i,
        {
            let ghost before = cursor.remaining();
            proof {
                T::lemma_decode_consumes(before);
            }
            match T::decode(cursor) {
                Ok(v) => {
                    let ghost done = decode_elems::<T>(i as nat, body)->Ok_0;
                    let ghost j = T::spec_decode(before)->Ok_0.1;
                    out.push(v);
                    proof {
                        assert(out.model() =~= done.0.push(v.model()));
                        assert(cursor.remaining() =~= before.skip(j as int));
                        assert(body.skip((done.1 + j) as int) =~= before.skip(j as int));
                    }
                },
                Err(e) => {
                    proof {
                        lemma_decode_elems_err_persists::<T>((i + 1) as nat, n as nat, body);
                    }
                    return Err(e);
                },
            }
            i = i + 1;
        }
        Ok(out)
    }
}

/// Decoding an encoded sequence gives its elements back in the positions they
/// had: no element is lost, added or moved.
pub proof fn lemma_sequence_order<T: Codec>(s: Seq<T::Model>)
    requires
        <Vec<T> as Codec>::spec_encode(s) is Ok,
    ensures
        <Vec<T> as Codec>::spec_decode(<Vec<T> as Codec>::spec_encode(s)->Ok_0) is Ok,
        ({
            let d = <Vec<T> as Codec>::spec_decode(<Vec<T> as Codec>::spec_encode(s)->Ok_0)->Ok_0.0;
            d.len() == s.len() && forall|i: int| 0 <= i < s.len() ==> d[i] == s[i]
        }),
{
    let bytes = <Vec<T> as Codec>::spec_encode(s)->Ok_0;
    <Vec<T> as Codec>::lemma_round_trip(s, Seq::empty());
    assert(bytes + Seq::<u8>::empty() =~= bytes);
}

/// The empty sequence encodes as the count zero alone, a single zero byte, and
/// that byte decodes to the empty sequence.
pub proof fn lemma_empty_sequence<T: Codec>()
    ensures
        <Vec<T> as Codec>::spec_encode(Seq::empty()) == VarInt::spec_encode(0),
        VarInt::spec_encode(0) == Ok::<Seq<u8>, EncodeError>(seq![0u8]),
        <Vec<T> as Codec>::spec_decode(seq![0u8]) == Ok::<(Seq<T::Model>, nat), DecodeError>(
            (Seq::empty(), 1),
        ),
{
    assert(VarInt::spec_encode(0)->Ok_0 + Seq::<u8>::empty() =~= seq![0u8]);
    assert(seq![0u8].skip(1) =~= Seq::<u8>::empty());
}

/// Dropping the last byte of an encoded sequence makes it truncated input:
/// the decode fails rather than return fewer elements.
pub proof fn lemma_last_byte_removed<T: Codec>(s: Seq<T::Model>)
    requires
        <Vec<T> as Codec>::spec_encode(s) is Ok,
    ensures
        <Vec<T> as Codec>::spec_decode(<Vec<T> as Codec>::spec_encode(s)->Ok_0.drop_last())
            == Err::<(Seq<T::Model>, nat), DecodeError>(DecodeError::TruncatedInput),
{
    let bytes = <Vec<T> as Codec>::spec_encode(s)->Ok_0;
    <Vec<T> as Codec>::lemma_round_trip(s, Seq::empty());
    <Vec<T> as Codec>::lemma_decode_consumes(bytes + Seq::<u8>::empty());
    <Vec<T> as Codec>::lemma_truncated(s, (bytes.len() - 1) as nat);
    assert(bytes.take(bytes.len() - 1) =~= bytes.drop_last());
}

/// A sequence of sequences survives encoding and decoding with its structure:
/// the outer count, each inner count and each element come back as they were,
/// and the decode consumes exactly the encoding.
pub proof fn lemma_nested_round_trip<T: Codec>(s: Seq<Seq<T::Model>>, rest: Seq<u8>)
    requires
        <Vec<Vec<T>> as Codec>::spec_encode(s) is Ok,
    ensures
        ({
            let bytes = <Vec<Vec<T>> as Codec>::spec_encode(s)->Ok_0;
            let r = <Vec<Vec<T>> as Codec>::spec_decode(bytes + rest);
            &&& r is Ok
            &&& r->Ok_0.1 == bytes.len()
            &&& r->Ok_0.0.len() == s.len()
            &&& forall|i: int|
                0 <= i < s.len() ==> #[trigger] r->Ok_0.0[i].len() == s[i].len() && forall|j: int|
                    0 <= j < s[i].len() ==> r->Ok_0.0[i][j] == s[i][j]
        }),
{
    <Vec<Vec<T>> as Codec>::lemma_round_trip(s, rest);
}

/// A declared count larger than the bytes that follow it is truncated input,
/// whatever those bytes are: the decode fails before reading any element.
pub proof fn lemma_oversized_count<T: Codec>(data: Seq<u8>)
    requires
        VarInt::spec_decode(data) is Ok,
        VarInt::spec_decode(data)->Ok_0.0 > data.len() - VarInt::spec_decode(data)->Ok_0.1,
    ensures
        <Vec<T> as Codec>::spec_decode(data) == Err::<(Seq<T::Model>, nat), DecodeError>(
            DecodeError::TruncatedInput,
        ),
{
}

} // verus!
