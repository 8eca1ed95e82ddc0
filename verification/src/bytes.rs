//! Byte-cursor primitives: big-endian reads out of a message buffer and
//! big-endian writes into an output buffer, both at an explicit position.

use vstd::prelude::*;

use crate::error::DnsError;

verus! {

/// The 16-bit big-endian value held by two bytes.
pub open spec fn u16_of(hi: u8, lo: u8) -> u16 {
    ((hi as u16) * 256 + (lo as u16)) as u16
}

/// The 32-bit big-endian value held by four bytes.
pub open spec fn u32_of(b0: u8, b1: u8, b2: u8, b3: u8) -> u32 {
    ((b0 as u32) * 0x1000000 + (b1 as u32) * 0x10000 + (b2 as u32) * 0x100 + (b3 as u32)) as u32
}

/// The two big-endian bytes of a 16-bit value.
pub open spec fn u16_bytes(v: u16) -> Seq<u8> {
    seq![(v / 256) as u8, (v % 256) as u8]
}

/// The four big-endian bytes of a 32-bit value.
pub open spec fn u32_bytes(v: u32) -> Seq<u8> {
    seq![
        (v / 0x1000000) as u8,
        ((v / 0x10000) % 256) as u8,
        ((v / 256) % 256) as u8,
        (v % 256) as u8,
    ]
}

/// `orig` with `data` written over the range starting at `index`.
pub open spec fn spliced(orig: Seq<u8>, index: int, data: Seq<u8>) -> Seq<u8> {
    orig.take(index) + data + orig.skip(index + data.len())
}

/// Reads the byte at `pos`; `Truncated` exactly when `pos` is past the end.
pub fn read_u8(buf: &[u8], pos: usize) -> (r: Result<u8, DnsError>)
    ensures
        match r {
            Ok(v) => pos < buf@.len() && v == buf@[pos as int],
            Err(e) => e == DnsError::Truncated && pos >= buf@.len(),
        },
{
    if pos < buf.len() {
        Ok(buf[pos])
    } else {
        Err(DnsError::Truncated)
    }
}

/// Reads the big-endian `u16` at `pos`; `Truncated` exactly when fewer than
/// two bytes remain.
pub fn read_u16_be(buf: &[u8], pos: usize) -> (r: Result<u16, DnsError>)
    ensures
        match r {
            Ok(v) => pos + 2 <= buf@.len() && v == u16_of(buf@[pos as int], buf@[pos + 1]),
            Err(e) => e == DnsError::Truncated && pos + 2 > buf@.len(),
        },
{
    if pos < buf.len() && buf.len() - pos >= 2 {
        let hi = buf[pos];
        let lo = buf[pos + 1];
        Ok((hi as u16) * 256 + (lo as u16))
    } else {
        Err(DnsError::Truncated)
    }
}

/// Reads the big-endian `u32` at `pos`; `Truncated` exactly when fewer than
/// four bytes remain.
pub fn read_u32_be(buf: &[u8], pos: usize) -> (r: Result<u32, DnsError>)
    ensures
        match r {
            Ok(v) => pos + 4 <= buf@.len() && v == u32_of(
                buf@[pos as int],
                buf@[pos + 1],
                buf@[pos + 2],
                buf@[pos + 3],
            ),
            Err(e) => e == DnsError::Truncated && pos + 4 > buf@.len(),
        },
{
    if pos < buf.len() && buf.len() - pos >= 4 {
        let b0 = buf[pos];
        let b1 = buf[pos + 1];
        let b2 = buf[pos + 2];
        let b3 = buf[pos + 3];
        Ok((b0 as u32) * 0x1000000 + (b1 as u32) * 0x10000 + (b2 as u32) * 0x100 + (b3 as u32))
    } else {
        Err(DnsError::Truncated)
    }
}

/// Appends the two big-endian bytes of `val` to a buffer under
/// construction.
pub fn append_u16(v: &mut Vec<u8>, val: u16)
    ensures
        final(v)@ == old(v)@ + u16_bytes(val),
{
    let ghost pre = v@;
    v.push((val / 256) as u8);
    v.push((val % 256) as u8);
    proof {
        assert(v@ =~= pre + u16_bytes(val));
    }
}

/// Appends the four big-endian bytes of `val` to a buffer under
/// construction.
pub fn append_u32(v: &mut Vec<u8>, val: u32)
    ensures
        final(v)@ == old(v)@ + u32_bytes(val),
{
    let ghost pre = v@;
    v.push((val / 0x1000000) as u8);
    v.push(((val / 0x10000) % 256) as u8);
    v.push(((val / 256) % 256) as u8);
    v.push((val % 256) as u8);
    proof {
        assert(v@ =~= pre + u32_bytes(val));
    }
}

/// Copies `data` into `out` starting at `index`; `BufferTooSmall` exactly
/// when it does not fit. On success the returned index is just past the copy
/// and every byte outside the written range is unchanged.
pub fn write_bytes(out: &mut Vec<u8>, index: usize, data: &Vec<u8>) -> (r: Result<usize, DnsError>)
    ensures
        match r {
            Ok(n) => index + data@.len() <= old(out)@.len() && n == index + data@.len()
                && final(out)@ == spliced(old(out)@, index as int, data@),
            Err(e) => e == DnsError::BufferTooSmall && index + data@.len() > old(out)@.len()
                && final(out)@ == old(out)@,
        },
{
    if index > out.len() || out.len() - index < data.len() {
        return Err(DnsError::BufferTooSmall);
    }
    let ghost orig = out@;
    proof {
        assert(spliced(orig, index as int, data@.take(0)) =~= orig);
    }
    let mut i: usize = 0;
    while i < data.len()
        invariant
            i <= data@.len(),
            index + data@.len() <= orig.len(),
            orig.len() <= usize::MAX,
            out@.len() == orig.len(),
            out@ == spliced(orig, index as int, data@.take(i as int)),
        decreases data@.len() - i,
    {
        let ghost prev = out@;
        out.set(index + i, data[i]);
        proof {
            assert(out@ =~= spliced(orig, index as int, data@.take(i + 1)));
        }
        i = i + 1;
    }
    proof {
        assert(data@.take(data@.len() as int) =~= data@);
    }
    Ok(index + data.len())
}

/// Writes `val` big-endian at `index`; `BufferTooSmall` exactly when the two
/// bytes do not fit. On success the returned index is just past the write and
/// every byte outside the written range is unchanged.
pub fn pack_u16(out: &mut Vec<u8>, index: usize, val: u16) -> (r: Result<usize, DnsError>)
    ensures
        match r {
            Ok(n) => index + 2 <= old(out)@.len() && n == index + 2 && final(out)@ == spliced(
                old(out)@,
                index as int,
                u16_bytes(val),
            ),
            Err(e) => e == DnsError::BufferTooSmall && index + 2 > old(out)@.len()
                && final(out)@ == old(out)@,
        },
{
    if index < out.len() && out.len() - index >= 2 {
        let hi = (val / 256) as u8;
        let lo = (val % 256) as u8;
        out.set(index, hi);
        out.set(index + 1, lo);
        proof {
            assert(out@ =~= spliced(old(out)@, index as int, u16_bytes(val)));
        }
        Ok(index + 2)
    } else {
        Err(DnsError::BufferTooSmall)
    }
}

} // verus!
