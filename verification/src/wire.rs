use vstd::bytes::lemma_auto_spec_u16_to_from_le_bytes;
use vstd::bytes::lemma_auto_spec_u32_to_from_le_bytes;
use vstd::bytes::lemma_auto_spec_u64_to_from_le_bytes;
use vstd::bytes::spec_u16_from_le_bytes;
use vstd::bytes::spec_u16_to_le_bytes;
use vstd::bytes::spec_u32_from_le_bytes;
use vstd::bytes::spec_u32_to_le_bytes;
use vstd::bytes::spec_u64_from_le_bytes;
use vstd::bytes::spec_u64_to_le_bytes;
use vstd::prelude::*;

verus! {

/// The error type of the decoder of the `bincode` crate. Nothing of its
/// contents is used here.
#[verifier::external_type_specification]
#[verifier::external_body]
pub struct ExDecodeError(bincode::error::DecodeError);

/// The bytes that stand for an unsigned number: one byte for a number up to
/// 250; otherwise a marker byte (251, 252 or 253) followed by the number in
/// 2, 4 or 8 bytes, lowest byte first, in the smallest of these widths that
/// holds it.
pub open spec fn varint(v: u64) -> Seq<u8> {
    if v <= 250 {
        seq![v as u8]
    } else if v <= 0xffff {
        seq![251u8] + spec_u16_to_le_bytes(v as u16)
    } else if v <= 0xffff_ffff {
        seq![252u8] + spec_u32_to_le_bytes(v as u32)
    } else {
        seq![253u8] + spec_u64_to_le_bytes(v)
    }
}

/// The number of bytes that stand for `v`.
pub open spec fn varint_len(v: u64) -> nat {
    if v <= 250 {
        1
    } else if v <= 0xffff {
        3
    } else if v <= 0xffff_ffff {
        5
    } else {
        9
    }
}

/// What a reader finds at the start of `b` that goes by the marker byte
/// alone: the number and how many bytes it took. `None` if `b` is empty,
/// ends before the number does, or starts with a marker above 253. Such a
/// reader also takes a number written wider than it needs to be.
pub open spec fn varint_read(b: Seq<u8>) -> Option<(u64, nat)> {
    if b.len() == 0 {
        None
    } else if b[0] <= 250 {
        Some((b[0] as u64, 1))
    } else if b[0] == 251 {
        if b.len() >= 3 {
            Some((spec_u16_from_le_bytes(b.subrange(1, 3)) as u64, 3))
        } else {
            None
        }
    } else if b[0] == 252 {
        if b.len() >= 5 {
            Some((spec_u32_from_le_bytes(b.subrange(1, 5)) as u64, 5))
        } else {
            None
        }
    } else if b[0] == 253 {
        if b.len() >= 9 {
            Some((spec_u64_from_le_bytes(b.subrange(1, 9)), 9))
        } else {
            None
        }
    } else {
        None
    }
}

/// The unsigned number that stands for a signed one: 0, -1, 1, -2, 2, ...
/// are numbered 0, 1, 2, 3, 4, ...
pub open spec fn zigzag(v: i64) -> u64 {
    if v >= 0 {
        (2 * v) as u64
    } else {
        (-2 * v - 1) as u64
    }
}

/// The signed number that an unsigned one stands for.
pub open spec fn unzigzag(u: u64) -> i64 {
    if u % 2 == 0 {
        (u / 2) as i64
    } else {
        (-(u / 2) - 1) as i64
    }
}

/// A strict reader: what `varint_read` finds, but only if the number was
/// written in the smallest width that holds it.
pub open spec fn strict_read(b: Seq<u8>) -> Option<(u64, nat)> {
    match varint_read(b) {
        Some((v, n)) => if n == varint_len(v) {
            Some((v, n))
        } else {
            None
        },
        None => None,
    }
}

/// A strict reader of signed numbers.
pub open spec fn strict_read_signed(b: Seq<u8>) -> Option<(i64, nat)> {
    match strict_read(b) {
        Some((u, n)) => Some((unzigzag(u), n)),
        None => None,
    }
}

/// Calls `bincode::encode_to_vec` on an unsigned 64-bit number with
/// `bincode::config::standard()`. For that configuration the crate writes
/// numbers in their variable-length form, lowest byte first, into a vector,
/// which cannot fail. The contract claims that the bytes are `varint(v)`.
#[verifier::external_body]
fn encode_u64(v: u64) -> (bytes: Vec<u8>)
    ensures
        bytes@ == varint(v),
{
    match bincode::encode_to_vec(v, bincode::config::standard()) {
        Ok(bytes) => bytes,
        Err(_) => Vec::new(),
    }
}

/// Calls `bincode::encode_to_vec` on a signed 64-bit number with
/// `bincode::config::standard()`. The crate writes the zigzag image of the
/// number in variable-length form. The contract claims that the bytes are
/// `varint(zigzag(v))`.
#[verifier::external_body]
fn encode_i64(v: i64) -> (bytes: Vec<u8>)
    ensures
        bytes@ == varint(zigzag(v)),
{
    match bincode::encode_to_vec(v, bincode::config::standard()) {
        Ok(bytes) => bytes,
        Err(_) => Vec::new(),
    }
}

/// Calls `bincode::decode_from_slice` for an unsigned 64-bit number with
/// `bincode::config::standard()`. The contract claims that the call
/// succeeds exactly where `varint_read` finds a number, and then returns
/// that number and the count of bytes it took.
#[verifier::external_body]
fn decode_u64(bytes: &[u8]) -> (r: Result<(u64, usize), bincode::error::DecodeError>)
    ensures
        r is Ok == varint_read(bytes@) is Some,
        r matches Ok(p) ==> varint_read(bytes@) == Some((p.0, p.1 as nat)),
{
    bincode::decode_from_slice(bytes, bincode::config::standard())
}

/// Calls `bincode::decode_from_slice` for a signed 64-bit number with
/// `bincode::config::standard()`. The contract claims that the call
/// succeeds exactly where `varint_read` finds a number, and then returns
/// the signed number that this number stands for, and the count of bytes it
/// took.
#[verifier::external_body]
fn decode_i64(bytes: &[u8]) -> (r: Result<(i64, usize), bincode::error::DecodeError>)
    ensures
        r is Ok == varint_read(bytes@) is Some,
        r matches Ok(p) ==> varint_read(bytes@) matches Some(q) && p.0 == unzigzag(q.0) && p.1
            == q.1,
{
    bincode::decode_from_slice(bytes, bincode::config::standard())
}

/// The bytes of a number are as many as `varint_len` says.
pub proof fn lemma_varint_len(v: u64)
    ensures
        varint(v).len() == varint_len(v),
        varint_len(v) >= 1,
{
    lemma_auto_spec_u16_to_from_le_bytes();
    lemma_auto_spec_u32_to_from_le_bytes();
    lemma_auto_spec_u64_to_from_le_bytes();
}

/// Whatever follows them, the bytes of a number read back as that number.
pub proof fn lemma_read_written(v: u64, rest: Seq<u8>)
    ensures
        strict_read(varint(v) + rest) == Some((v, varint_len(v))),
{
    lemma_auto_spec_u16_to_from_le_bytes();
    lemma_auto_spec_u32_to_from_le_bytes();
    lemma_auto_spec_u64_to_from_le_bytes();
    let b = varint(v) + rest;
    assert(b[0] == varint(v)[0]);
    if v <= 250 {
    } else if v <= 0xffff {
        assert(b.subrange(1, 3) =~= spec_u16_to_le_bytes(v as u16));
    } else if v <= 0xffff_ffff {
        assert(b.subrange(1, 5) =~= spec_u32_to_le_bytes(v as u32));
    } else {
        assert(b.subrange(1, 9) =~= spec_u64_to_le_bytes(v));
    }
}

/// What a strict reader takes is exactly the bytes of the number it returns.
pub proof fn lemma_read_sound(b: Seq<u8>)
    ensures
        strict_read(b) matches Some(p) ==> p.1 == varint_len(p.0) && p.1 <= b.len() && b.take(
            p.1 as int,
        ) == varint(p.0),
{
    lemma_auto_spec_u16_to_from_le_bytes();
    lemma_auto_spec_u32_to_from_le_bytes();
    lemma_auto_spec_u64_to_from_le_bytes();
    if let Some(p) = strict_read(b) {
        let v = p.0;
        if b[0] <= 250 {
            assert(b.take(1) =~= seq![b[0]]);
        } else if b[0] == 251 {
            assert(b.take(3) =~= seq![251u8] + b.subrange(1, 3));
        } else if b[0] == 252 {
            assert(b.take(5) =~= seq![252u8] + b.subrange(1, 5));
        } else {
            assert(b.take(9) =~= seq![253u8] + b.subrange(1, 9));
        }
    }
}

/// Going to the unsigned image of a signed number and back changes nothing,
/// and neither does the other way round.
pub proof fn lemma_zigzag(v: i64, u: u64)
    ensures
        unzigzag(zigzag(v)) == v,
        zigzag(unzigzag(u)) == u,
{
}

/// The number of bytes that stand for `v`.
pub fn varint_width(v: u64) -> (n: usize)
    ensures
        n == varint_len(v),
{
    if v <= 250 {
        1
    } else if v <= 0xffff {
        3
    } else if v <= 0xffff_ffff {
        5
    } else {
        9
    }
}

/// The unsigned number that stands for `v`.
pub fn zigzag_of(v: i64) -> (u: u64)
    ensures
        u == zigzag(v),
{
    if v >= 0 {
        (v as u64) * 2
    } else {
        ((-(v + 1)) as u64) * 2 + 1
    }
}

/// Appends the bytes of `src` to `out`.
fn append_bytes(out: &mut Vec<u8>, src: &Vec<u8>)
    ensures
        final(out)@ == old(out)@ + src@,
{
    let mut i: usize = 0;
    while i < src.len()
        invariant
            0 <= i <= src@.len(),
            out@ == old(out)@ + src@.take(i as int),
        decreases src@.len() - i,
    {
        out.push(src[i]);
        i = i + 1;
        assert(out@ =~= old(out)@ + src@.take(i as int));
    }
    assert(src@.take(src@.len() as int) =~= src@);
}

/// Appends the bytes of an unsigned number to `out`.
pub fn write_u64(out: &mut Vec<u8>, v: u64)
    ensures
        final(out)@ == old(out)@ + varint(v),
{
    let bytes = encode_u64(v);
    append_bytes(out, &bytes);
}

/// Appends the bytes of a signed number to `out`.
pub fn write_i64(out: &mut Vec<u8>, v: i64)
    ensures
        final(out)@ == old(out)@ + varint(zigzag(v)),
{
    let bytes = encode_i64(v);
    append_bytes(out, &bytes);
}

/// Reads an unsigned number at position `pos` of `bytes`, strictly: a
/// number written wider than it needs to be is turned down. Returns the
/// number and the position behind it.
pub fn read_u64(bytes: &[u8], pos: usize) -> (r: Option<(u64, usize)>)
    requires
        pos <= bytes@.len(),
    ensures
        r is Some == strict_read(bytes@.skip(pos as int)) is Some,
        r matches Some(p) ==> strict_read(bytes@.skip(pos as int)) == Some(
            (p.0, (p.1 - pos) as nat),
        ) && pos < p.1 <= bytes@.len(),
{
    let rest = vstd::slice::slice_subrange(bytes, pos, bytes.len());
    assert(rest@ =~= bytes@.skip(pos as int));
    match decode_u64(rest) {
        Ok(p) => {
            proof {
                lemma_read_sound(rest@);
            }
            if p.1 == varint_width(p.0) {
                Some((p.0, pos + p.1))
            } else {
                None
            }
        },
        Err(_) => None,
    }
}

/// Reads a signed number at position `pos` of `bytes`, strictly. Returns
/// the number and the position behind it.
pub fn read_i64(bytes: &[u8], pos: usize) -> (r: Option<(i64, usize)>)
    requires
        pos <= bytes@.len(),
    ensures
        r is Some == strict_read_signed(bytes@.skip(pos as int)) is Some,
        r matches Some(p) ==> strict_read_signed(bytes@.skip(pos as int)) == Some(
            (p.0, (p.1 - pos) as nat),
        ) && pos < p.1 <= bytes@.len(),
{
    let rest = vstd::slice::slice_subrange(bytes, pos, bytes.len());
    assert(rest@ =~= bytes@.skip(pos as int));
    match decode_i64(rest) {
        Ok(p) => {
            proof {
                lemma_read_sound(rest@);
                let q = varint_read(rest@).unwrap();
                lemma_zigzag(p.0, q.0);
            }
            if p.1 == varint_width(zigzag_of(p.0)) {
                Some((p.0, pos + p.1))
            } else {
                None
            }
        },
        Err(_) => None,
    }
}

} // verus!
