use vstd::prelude::*;

use crate::codec::Codec;
use crate::cursor::Cursor;
use crate::error::{DecodeError, EncodeError};

verus! {

/// 256 to the power `n`.
pub open spec fn pow256(n: nat) -> nat
    decreases n,
{
    if n == 0 {
        1
    } else {
        256 * pow256((n - 1) as nat)
    }
}

/// The number that the bytes `s` stand for, least significant byte first.
pub open spec fn le_value(s: Seq<u8>) -> nat
    decreases s.len(),
{
    if s.len() == 0 {
        0
    } else {
        s[0] as nat + 256 * le_value(s.drop_first())
    }
}

/// The `n` low-order bytes of `v`, least significant first.
pub open spec fn le_bytes(v: nat, n: nat) -> Seq<u8>
    decreases n,
{
    if n == 0 {
        Seq::empty()
    } else {
        seq![(v % 256) as u8] + le_bytes(v / 256, (n - 1) as nat)
    }
}

/// The number of value bytes that follow the marker byte `b`.
pub open spec fn width_after(b: u8) -> nat {
    if b < 0xfd {
        0
    } else if b == 0xfd {
        2
    } else if b == 0xfe {
        4
    } else {
        8
    }
}

/// The smallest value that may be written with `w` value bytes; a smaller one
/// has a shorter encoding and is rejected.
pub open spec fn least_for_width(w: nat) -> nat {
    if w == 2 {
        0xfd
    } else if w == 4 {
        0x1_0000
    } else {
        0x1_0000_0000
    }
}

proof fn lemma_pow256_values()
    ensures
        pow256(2) == 0x1_0000,
        pow256(4) == 0x1_0000_0000,
        pow256(7) == 0x100_0000_0000_0000,
        pow256(8) == 0x1_0000_0000_0000_0000,
{
    reveal_with_fuel(pow256, 9);
}

proof fn lemma_pow256_monotone(a: nat, b: nat)
    requires
        a <= b,
    ensures
        pow256(a) <= pow256(b),
    decreases b,
{
    if a < b {
        lemma_pow256_monotone(a, (b - 1) as nat);
    }
}

proof fn lemma_le_bytes_len(v: nat, n: nat)
    ensures
        le_bytes(v, n).len() == n,
    decreases n,
{
    if n > 0 {
        lemma_le_bytes_len(v / 256, (n - 1) as nat);
    }
}

proof fn lemma_le_round_trip(v: nat, n: nat)
    requires
        v < pow256(n),
    ensures
        le_value(le_bytes(v, n)) == v,
    decreases n,
{
    if n > 0 {
        let q = v / 256;
        assert(q < pow256((n - 1) as nat)) by (nonlinear_arith)
            requires
                v < 256 * pow256((n - 1) as nat),
                q == v / 256,
        ;
        lemma_le_round_trip(q, (n - 1) as nat);
        let s = le_bytes(v, n);
        assert(s.drop_first() =~= le_bytes(q, (n - 1) as nat));
        assert(v == v % 256 + 256 * q) by (nonlinear_arith)
            requires
                q == v / 256,
        ;
    }
}

proof fn lemma_le_value_bound(s: Seq<u8>)
    ensures
        le_value(s) < pow256(s.len()),
    decreases s.len(),
{
    if s.len() > 0 {
        let t = s.drop_first();
        lemma_le_value_bound(t);
        let a = s[0] as nat;
        let b = le_value(t);
        let p = pow256(t.len());
        assert(a + 256 * b < 256 * p) by (nonlinear_arith)
            requires
                a < 256,
                b < p,
        ;
    }
}

/// Appends the `w` low-order bytes of `v`, least significant first.
fn push_le(buffer: &mut Vec<u8>, v: u64, w: usize)
    ensures
        final(buffer)@ == old(buffer)@ + le_bytes(v as nat, w as nat),
{
    let ghost target = old(buffer)@ + le_bytes(v as nat, w as nat);
    let mut x: u64 = v;
    let mut i: usize = 0;
    while i < w
        invariant
            i <= w,
            buffer@ + le_bytes(x as nat, (w - i) as nat) == target,
        decreases w - i,
    {
        let ghost before = buffer@;
        let ghost k = (w - i) as nat;
        assert(le_bytes(x as nat, k) == seq![(x % 256) as u8] + le_bytes(
            (x / 256) as nat,
            (k - 1) as nat,
        ));
        buffer.push((x % 256) as u8);
        x = x / 256;
        i = i + 1;
        assert(before + (seq![buffer@.last()] + le_bytes(x as nat, (w - i) as nat))
            =~= buffer@ + le_bytes(x as nat, (w - i) as nat));
    }
}

/// Reads `w` bytes at the cursor as a little-endian number.
fn read_le(cursor: &mut Cursor, w: usize) -> (r: Result<u64, DecodeError>)
    requires
        1 <= w <= 8,
    ensures
        final(cursor).data() == old(cursor).data(),
        old(cursor).remaining().len() < w ==> r == Err::<u64, DecodeError>(
            DecodeError::TruncatedInput,
        ),
        old(cursor).remaining().len() >= w ==> r is Ok && r->Ok_0 as nat == le_value(
            old(cursor).remaining().take(w as int),
        ) && final(cursor).pos() == old(cursor).pos() + w,
{
    if cursor.remaining_len() < w {
        return Err(DecodeError::TruncatedInput);
    }
    let ghost src = old(cursor).remaining().take(w as int);
    let mut bytes: Vec<u8> = Vec::new();
    let mut i: usize = 0;
    while i < w
        invariant
            i <= w,
            cursor.data() == old(cursor).data(),
            cursor.pos() == old(cursor).pos() + i,
            old(cursor).pos() + w <= old(cursor).data().len(),
            src == old(cursor).remaining().take(w as int),
            bytes@ == src.take(i as int),
        decreases w - i,
    {
        let b = cursor.read_u8();
        bytes.push(b.unwrap());
        i = i + 1;
        assert(bytes@ =~= src.take(i as int));
    }
    assert(bytes@ =~= src);
    let mut acc: u64 = 0;
    let mut j: usize = w;
    while j > 0
        invariant
            j <= w <= 8,
            bytes@.len() == w,
            acc as nat == le_value(bytes@.subrange(j as int, w as int)),
        decreases j,
    {
        let ghost tail = bytes@.subrange(j as int, w as int);
        proof {
            lemma_le_value_bound(tail);
            lemma_pow256_monotone(tail.len(), 7);
            lemma_pow256_values();
            assert(bytes@.subrange(j - 1, w as int).drop_first() =~= tail);
        }
        acc = acc * 256 + bytes[j - 1] as u64;
        j = j - 1;
    }
    assert(bytes@.subrange(0, w as int) =~= bytes@);
    Ok(acc)
}

/// A non-negative integer in the compact variable-length form used for
/// element counts.
///
/// A value below `0xfd` is one byte. Larger values are a marker byte followed
/// by the value in little-endian order: `0xfd` and two bytes, `0xfe` and four,
/// `0xff` and eight. Each value has exactly one encoding: a marker followed by a
/// value that a shorter form could hold is rejected as malformed.
#[derive(Debug, Clone, Copy, PartialEq, Eq, Structural)]
pub struct VarInt(pub u64);

impl Codec for VarInt {
    type Model = nat;

    open spec fn model(&self) -> nat {
        self.0 as nat
    }

    open spec fn spec_encode(m: nat) -> Result<Seq<u8>, EncodeError> {
        if m < 0xfd {
            Ok(seq![m as u8])
        } else if m <= 0xffff {
            Ok(seq![0xfdu8] + le_bytes(m, 2))
        } else if m <= 0xffff_ffff {
            Ok(seq![0xfeu8] + le_bytes(m, 4))
        } else if m <= u64::MAX {
            Ok(seq![0xffu8] + le_bytes(m, 8))
        } else {
            Err(EncodeError::EncodeOverflow)
        }
    }

    open spec fn spec_decode(data: Seq<u8>) -> Result<(nat, nat), DecodeError> {
        if data.len() == 0 {
            Err(DecodeError::TruncatedInput)
        } else if data[0] < 0xfd {
            Ok((data[0] as nat, 1))
        } else {
            let w = width_after(data[0]);
            if data.len() < 1 + w {
                Err(DecodeError::TruncatedInput)
            } else {
                let v = le_value(data.subrange(1, (1 + w) as int));
                if v < least_for_width(w) {
                    Err(DecodeError::MalformedElement)
                } else {
                    Ok((v, 1 + w))
                }
            }
        }
    }

    proof fn lemma_round_trip(m: nat, rest: Seq<u8>) {
        lemma_pow256_values();
        let bytes = Self::spec_encode(m)->Ok_0;
        let data = bytes + rest;
        if m >= 0xfd {
            let w: nat = if m <= 0xffff {
                2
            } else if m <= 0xffff_ffff {
                4
            } else {
                8
            };
            lemma_le_bytes_len(m, w);
            lemma_le_round_trip(m, w);
            assert(data.subrange(1, (1 + w) as int) =~= le_bytes(m, w));
        }
    }

    proof fn lemma_decode_consumes(data: Seq<u8>) {
    }

    proof fn lemma_truncated(m: nat, n: nat) {
        let bytes = Self::spec_encode(m)->Ok_0;
        if m >= 0xfd {
            let w: nat = if m <= 0xffff {
                2
            } else if m <= 0xffff_ffff {
                4
            } else {
                8
            };
            lemma_le_bytes_len(m, w);
        }
    }

    fn encode(&self, buffer: &mut Vec<u8>) -> (r: Result<(), EncodeError>) {
        let v = self.0;
        if v < 0xfd {
            buffer.push(v as u8);
        } else if v <= 0xffff {
            buffer.push(0xfd);
            push_le(buffer, v, 2);
        } else if v <= 0xffff_ffff {
            buffer.push(0xfe);
            push_le(buffer, v, 4);
        } else {
            buffer.push(0xff);
            push_le(buffer, v, 8);
        }
        assert(final(buffer)@ =~= old(buffer)@ + Self::spec_encode(self.model())->Ok_0);
        Ok(())
    }

    fn decode(cursor: &mut Cursor) -> (r: Result<Self, DecodeError>) {
        let ghost data = old(cursor).remaining();
        let marker = match cursor.read_u8() {
            Ok(b) => b,
            Err(e) => return Err(e),
        };
        if marker < 0xfd {
            return Ok(VarInt(marker as u64));
        }
        let (w, least): (usize, u64) = if marker == 0xfd {
            (2, 0xfd)
        } else if marker == 0xfe {
            (4, 0x1_0000)
        } else {
            (8, 0x1_0000_0000)
        };
        let v = match read_le(cursor, w) {
            Ok(v) => v,
            Err(e) => return Err(e),
        };
        proof {
            assert(old(cursor).remaining().skip(1) =~= cursor.data().subrange(
                (old(cursor).pos() + 1) as int,
                cursor.data().len() as int,
            ));
        }
        assert(data.skip(1).take(w as int) =~= data.subrange(1, 1 + w));
        if v < least {
            Err(DecodeError::MalformedElement)
        } else {
            Ok(VarInt(v))
        }
    }
}

} // verus!
