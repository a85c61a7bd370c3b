//! Deterministic, lossless binary codec for [`Operation`] records.
//!
//! An encoded record is a tag byte (insert or delete), a little-endian 64-bit
//! key length, the key bytes, and — for an insert — a little-endian 64-bit
//! value length and the value bytes. Decoding accepts exactly the byte
//! strings that encoding produces: `decode(encode(op)) == op`, and a record
//! that decodes at all is the encoding of the operation it decodes to.

use vstd::prelude::*;
use crate::ops::{Operation, OperationModel};

verus! {

/// Tag byte of an encoded insert.
pub const TAG_INSERT: u8 = 1;

/// Tag byte of an encoded delete.
pub const TAG_DELETE: u8 = 2;

/// The eight little-endian bytes of `n`.
pub open spec fn le64(n: u64) -> Seq<u8> {
    seq![
        (n & 0xff) as u8,
        ((n >> 8) & 0xff) as u8,
        ((n >> 16) & 0xff) as u8,
        ((n >> 24) & 0xff) as u8,
        ((n >> 32) & 0xff) as u8,
        ((n >> 40) & 0xff) as u8,
        ((n >> 48) & 0xff) as u8,
        ((n >> 56) & 0xff) as u8,
    ]
}

/// The value of eight little-endian bytes.
pub open spec fn le64_val(b: Seq<u8>) -> u64
    recommends
        b.len() == 8,
{
    (b[0] as u64) | ((b[1] as u64) << 8) | ((b[2] as u64) << 16) | ((b[3] as u64) << 24)
        | ((b[4] as u64) << 32) | ((b[5] as u64) << 40) | ((b[6] as u64) << 48)
        | ((b[7] as u64) << 56)
}

pub proof fn lemma_le64_unpack(n: u64)
    ensures
        le64(n).len() == 8,
        le64_val(le64(n)) == n,
{
    assert((n & 0xff) < 256 && ((n >> 8) & 0xff) < 256 && ((n >> 16) & 0xff) < 256
        && ((n >> 24) & 0xff) < 256 && ((n >> 32) & 0xff) < 256 && ((n >> 40) & 0xff) < 256
        && ((n >> 48) & 0xff) < 256 && ((n >> 56) & 0xff) < 256) by (bit_vector);
    assert((n & 0xff) | (((n >> 8) & 0xff) << 8) | (((n >> 16) & 0xff) << 16)
        | (((n >> 24) & 0xff) << 24) | (((n >> 32) & 0xff) << 32) | (((n >> 40) & 0xff) << 40)
        | (((n >> 48) & 0xff) << 48) | (((n >> 56) & 0xff) << 56) == n) by (bit_vector);
}

pub proof fn lemma_le64_pack(b: Seq<u8>)
    requires
        b.len() == 8,
    ensures
        le64(le64_val(b)) == b,
{
    let x0 = b[0] as u64;
    let x1 = b[1] as u64;
    let x2 = b[2] as u64;
    let x3 = b[3] as u64;
    let x4 = b[4] as u64;
    let x5 = b[5] as u64;
    let x6 = b[6] as u64;
    let x7 = b[7] as u64;
    let n = x0 | (x1 << 8) | (x2 << 16) | (x3 << 24) | (x4 << 32) | (x5 << 40) | (x6 << 48)
        | (x7 << 56);
    assert(n == x0 | (x1 << 8) | (x2 << 16) | (x3 << 24) | (x4 << 32) | (x5 << 40) | (x6 << 48)
        | (x7 << 56) ==> x0 < 256 && x1 < 256 && x2 < 256 && x3 < 256 && x4 < 256 && x5 < 256
        && x6 < 256 && x7 < 256 ==> (n & 0xff) == x0 && ((n >> 8) & 0xff) == x1
        && ((n >> 16) & 0xff) == x2 && ((n >> 24) & 0xff) == x3 && ((n >> 32) & 0xff) == x4
        && ((n >> 40) & 0xff) == x5 && ((n >> 48) & 0xff) == x6 && ((n >> 56) & 0xff) == x7)
        by (bit_vector);
    assert(le64(n) =~= b);
}

/// The encoding of an operation.
pub open spec fn encode_spec(op: OperationModel) -> Seq<u8> {
    match op {
        OperationModel::Insert { key, val } => seq![TAG_INSERT] + le64(key.len() as u64) + key
            + le64(val.len() as u64) + val,
        OperationModel::Delete { key } => seq![TAG_DELETE] + le64(key.len() as u64) + key,
    }
}

/// The operation a byte string encodes, if it is exactly an encoding.
pub open spec fn decode_spec(b: Seq<u8>) -> Option<OperationModel> {
    if b.len() < 9 {
        None
    } else {
        let klen = le64_val(b.subrange(1, 9)) as int;
        if b[0] == TAG_INSERT {
            if klen + 17 > b.len() {
                None
            } else {
                let vlen = le64_val(b.subrange(9 + klen, 17 + klen)) as int;
                if b.len() == 17 + klen + vlen {
                    Some(OperationModel::Insert {
                        key: b.subrange(9, 9 + klen),
                        val: b.subrange(17 + klen, 17 + klen + vlen),
                    })
                } else {
                    None
                }
            }
        } else if b[0] == TAG_DELETE {
            if b.len() == 9 + klen {
                Some(OperationModel::Delete { key: b.subrange(9, 9 + klen) })
            } else {
                None
            }
        } else {
            None
        }
    }
}

/// The codec is lossless: decoding an encoding yields the operation back.
pub proof fn lemma_decode_encode(op: OperationModel)
    requires
        op.fits(),
    ensures
        decode_spec(encode_spec(op)) == Some(op),
{
    match op {
        OperationModel::Insert { key, val } => {
            let b = encode_spec(op);
            let kl = key.len() as int;
            let vl = val.len() as int;
            lemma_le64_unpack(key.len() as u64);
            lemma_le64_unpack(val.len() as u64);
            assert(b.len() == 17 + kl + vl);
            assert(b[0] == TAG_INSERT);
            assert(b.subrange(1, 9) =~= le64(key.len() as u64));
            assert(le64_val(b.subrange(1, 9)) as int == kl);
            assert(b.subrange(9 + kl, 17 + kl) =~= le64(val.len() as u64));
            assert(le64_val(b.subrange(9 + kl, 17 + kl)) as int == vl);
            assert(b.subrange(9, 9 + kl) =~= key);
            assert(b.subrange(17 + kl, 17 + kl + vl) =~= val);
        },
        OperationModel::Delete { key } => {
            let b = encode_spec(op);
            let kl = key.len() as int;
            lemma_le64_unpack(key.len() as u64);
            assert(b.len() == 9 + kl);
            assert(b[0] == TAG_DELETE);
            assert(b.subrange(1, 9) =~= le64(key.len() as u64));
            assert(le64_val(b.subrange(1, 9)) as int == kl);
            assert(b.subrange(9, 9 + kl) =~= key);
        },
    }
}

/// Decoding is strict: a byte string that decodes is exactly an encoding.
pub proof fn lemma_decode_strict(b: Seq<u8>)
    requires
        decode_spec(b) is Some,
    ensures
        decode_spec(b) matches Some(op) ==> op.fits() && b == encode_spec(op),
{
    let op = decode_spec(b)->Some_0;
    let klen = le64_val(b.subrange(1, 9)) as int;
    lemma_le64_pack(b.subrange(1, 9));
    if b[0] == TAG_INSERT {
        let vlen = le64_val(b.subrange(9 + klen, 17 + klen)) as int;
        lemma_le64_pack(b.subrange(9 + klen, 17 + klen));
        let key = b.subrange(9, 9 + klen);
        let val = b.subrange(17 + klen, 17 + klen + vlen);
        assert(key.len() as u64 == le64_val(b.subrange(1, 9)));
        assert(val.len() as u64 == le64_val(b.subrange(9 + klen, 17 + klen)));
        assert(encode_spec(op) =~= b);
    } else {
        let key = b.subrange(9, 9 + klen);
        assert(key.len() as u64 == le64_val(b.subrange(1, 9)));
        assert(encode_spec(op) =~= b);
    }
}

/// Distinct operations never share an encoding.
pub proof fn lemma_encode_injective(a: OperationModel, b: OperationModel)
    requires
        a.fits(),
        b.fits(),
        encode_spec(a) == encode_spec(b),
    ensures
        a == b,
{
    lemma_decode_encode(a);
    lemma_decode_encode(b);
}

/// Append the bytes of `src` to `dst`.
fn push_bytes(dst: &mut Vec<u8>, src: &Vec<u8>)
    ensures
        final(dst)@ == old(dst)@ + src@,
{
    let mut i: usize = 0;
    proof {
        assert(dst@ =~= dst@ + src@.subrange(0, 0));
    }
    while i < src.len()
        invariant
            i <= src@.len(),
            dst@ == old(dst)@ + src@.subrange(0, i as int),
        decreases src@.len() - i,
    {
        dst.push(src[i]);
        proof {
            assert(old(dst)@ + src@.subrange(0, i + 1) =~= (old(dst)@ + src@.subrange(
                0,
                i as int,
            )).push(src@[i as int]));
        }
        i = i + 1;
    }
    proof {
        assert(src@.subrange(0, src@.len() as int) =~= src@);
    }
}

/// Append the eight little-endian bytes of `n` to `dst`.
fn push_le64(dst: &mut Vec<u8>, n: u64)
    ensures
        final(dst)@ == old(dst)@ + le64(n),
{
    dst.push((n & 0xff) as u8);
    dst.push(((n >> 8) & 0xff) as u8);
    dst.push(((n >> 16) & 0xff) as u8);
    dst.push(((n >> 24) & 0xff) as u8);
    dst.push(((n >> 32) & 0xff) as u8);
    dst.push(((n >> 40) & 0xff) as u8);
    dst.push(((n >> 48) & 0xff) as u8);
    dst.push(((n >> 56) & 0xff) as u8);
    proof {
        assert(dst@ =~= old(dst)@ + le64(n));
    }
}

/// Copy `b[start..end]` into a fresh vector.
fn copy_range(b: &Vec<u8>, start: usize, end: usize) -> (r: Vec<u8>)
    requires
        start <= end <= b@.len(),
    ensures
        r@ == b@.subrange(start as int, end as int),
{
    let mut out: Vec<u8> = Vec::new();
    let mut i: usize = start;
    while i < end
        invariant
            start <= i <= end <= b@.len(),
            out@ == b@.subrange(start as int, i as int),
        decreases end - i,
    {
        out.push(b[i]);
        proof {
            assert(b@.subrange(start as int, i + 1) =~= b@.subrange(start as int, i as int).push(
                b@[i as int],
            ));
        }
        i = i + 1;
    }
    out
}

/// Read the little-endian 64-bit value at `b[off..off + 8]`.
fn read_le64(b: &Vec<u8>, off: usize) -> (r: u64)
    requires
        off + 8 <= b@.len(),
    ensures
        r == le64_val(b@.subrange(off as int, off + 8)),
{
    let blen = b.len();
    assert(off + 8 <= blen);
    let r = (b[off] as u64) | ((b[off + 1] as u64) << 8) | ((b[off + 2] as u64) << 16) | ((b[off
        + 3] as u64) << 24) | ((b[off + 4] as u64) << 32) | ((b[off + 5] as u64) << 40) | ((b[off
        + 6] as u64) << 48) | ((b[off + 7] as u64) << 56);
    proof {
        let s = b@.subrange(off as int, off + 8);
        assert(s[0] == b@[off as int] && s[1] == b@[off + 1] && s[2] == b@[off + 2] && s[3] == b@[
            off + 3] && s[4] == b@[off + 4] && s[5] == b@[off + 5] && s[6] == b@[off + 6] && s[7]
            == b@[off + 7]);
    }
    r
}

/// Encode an operation into its durable-log record form.
pub fn encode(op: &Operation) -> (r: Vec<u8>)
    ensures
        r@ == encode_spec(op@),
        op@.fits(),
{
    let mut out: Vec<u8> = Vec::new();
    match op {
        Operation::Insert { key, val } => {
            out.push(TAG_INSERT);
            push_le64(&mut out, key.len() as u64);
            push_bytes(&mut out, key);
            push_le64(&mut out, val.len() as u64);
            push_bytes(&mut out, val);
            proof {
                assert(out@ =~= encode_spec(op@));
            }
        },
        Operation::Delete { key } => {
            out.push(TAG_DELETE);
            push_le64(&mut out, key.len() as u64);
            push_bytes(&mut out, key);
            proof {
                assert(out@ =~= encode_spec(op@));
            }
        },
    }
    out
}

/// Decode a durable-log record; `None` on any byte string that `encode`
/// cannot have produced.
pub fn decode(bytes: &Vec<u8>) -> (r: Option<Operation>)
    ensures
        r matches Some(op) ==> decode_spec(bytes@) == Some(op@),
        r is None ==> decode_spec(bytes@) is None,
{
    let len = bytes.len();
    if len < 9 {
        return None;
    }
    let len64 = len as u64;
    let tag = bytes[0];
    let klen64 = read_le64(bytes, 1);
    if tag == TAG_INSERT {
        if len64 < 17 || klen64 > len64 - 17 {
            return None;
        }
        let klen = klen64 as usize;
        let key = copy_range(bytes, 9, 9 + klen);
        let vlen64 = read_le64(bytes, 9 + klen);
        if vlen64 != len64 - 17 - klen64 {
            return None;
        }
        let vlen = vlen64 as usize;
        let val = copy_range(bytes, 17 + klen, 17 + klen + vlen);
        Some(Operation::Insert { key, val })
    } else if tag == TAG_DELETE {
        if klen64 != len64 - 9 {
            return None;
        }
        let key = copy_range(bytes, 9, len);
        Some(Operation::Delete { key })
    } else {
        None
    }
}

} // verus!
