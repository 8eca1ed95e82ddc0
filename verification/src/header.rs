//! The fixed 12-byte DNS header: identifier, a bit-packed pair of flag bytes,
//! and the four section counts.

use vstd::prelude::*;

use crate::bytes::{append_u16, read_u16_be, spliced, u16_bytes, u16_of};
use crate::error::DnsError;

verus! {

/// The fixed header of every DNS message.
///
/// The nine small fields between `id` and `questions` are packed into two
/// bytes on the wire, most-significant bit first:
/// `message_type(1) opcode(4) authoritative_answer(1) truncated_message(1)
/// recursion_desired(1) recursion_available(1) zz(1) authed_data(1)
/// checking_disabled(1) rescode(4)`.
#[derive(Debug, Clone, Copy, PartialEq, Eq, Structural)]
pub struct DnsHeader {
    pub id: u16,

    pub message_type: u8,
    pub opcode: u8,
    pub authoritative_answer: u8,
    pub truncated_message: u8,
    pub recursion_desired: u8,
    pub recursion_available: u8,
    /// Reserved; zero on standard messages.
    pub zz: u8,
    pub authed_data: u8,
    pub checking_disabled: u8,
    pub rescode: u8,

    pub questions: u16,
    pub answers: u16,
    pub authorities: u16,
    pub resources: u16,
}

/// Every field fits the width of its slot in the packed flag bytes.
pub open spec fn header_wf(h: DnsHeader) -> bool {
    &&& h.message_type <= 1
    &&& h.opcode <= 15
    &&& h.authoritative_answer <= 1
    &&& h.truncated_message <= 1
    &&& h.recursion_desired <= 1
    &&& h.recursion_available <= 1
    &&& h.zz <= 1
    &&& h.authed_data <= 1
    &&& h.checking_disabled <= 1
    &&& h.rescode <= 15
}

/// The first packed flag byte of `h`.
pub open spec fn flags_hi(h: DnsHeader) -> u8 {
    (((h.message_type & 1) as u8) << 7u8) | (((h.opcode & 0xf) as u8) << 3u8) | (((
    h.authoritative_answer & 1) as u8) << 2u8) | (((h.truncated_message & 1) as u8) << 1u8) | (
    h.recursion_desired & 1)
}

/// The second packed flag byte of `h`.
pub open spec fn flags_lo(h: DnsHeader) -> u8 {
    (((h.recursion_available & 1) as u8) << 7u8) | (((h.zz & 1) as u8) << 6u8) | (((h.authed_data
        & 1) as u8) << 5u8) | (((h.checking_disabled & 1) as u8) << 4u8) | (h.rescode & 0xf)
}

/// The header read out of twelve bytes.
pub open spec fn header_of_bytes(b: Seq<u8>) -> DnsHeader
    recommends
        b.len() == 12,
{
    DnsHeader {
        id: u16_of(b[0], b[1]),
        message_type: (b[2] >> 7u8) & 1,
        opcode: (b[2] >> 3u8) & 0xf,
        authoritative_answer: (b[2] >> 2u8) & 1,
        truncated_message: (b[2] >> 1u8) & 1,
        recursion_desired: b[2] & 1,
        recursion_available: (b[3] >> 7u8) & 1,
        zz: (b[3] >> 6u8) & 1,
        authed_data: (b[3] >> 5u8) & 1,
        checking_disabled: (b[3] >> 4u8) & 1,
        rescode: b[3] & 0xf,
        questions: u16_of(b[4], b[5]),
        answers: u16_of(b[6], b[7]),
        authorities: u16_of(b[8], b[9]),
        resources: u16_of(b[10], b[11]),
    }
}

/// The twelve wire bytes of `h`.
pub open spec fn header_bytes(h: DnsHeader) -> Seq<u8> {
    u16_bytes(h.id) + seq![flags_hi(h), flags_lo(h)] + u16_bytes(h.questions) + u16_bytes(h.answers)
        + u16_bytes(h.authorities) + u16_bytes(h.resources)
}

/// Decoding any twelve bytes and packing the result reproduces those bytes.
pub proof fn lemma_header_bytes_round_trip(b: Seq<u8>)
    requires
        b.len() == 12,
    ensures
        header_bytes(header_of_bytes(b)) == b,
        header_wf(header_of_bytes(b)),
{
    let h = header_of_bytes(b);
    let b2 = b[2];
    let b3 = b[3];
    assert((((((b2 >> 7u8) & 1) & 1) as u8) << 7u8) | (((((b2 >> 3u8) & 0xf) & 0xf) as u8) << 3u8)
        | (((((b2 >> 2u8) & 1) & 1) as u8) << 2u8) | (((((b2 >> 1u8) & 1) & 1) as u8) << 1u8) | ((
    b2 & 1) & 1) == b2) by (bit_vector);
    assert((((((b3 >> 7u8) & 1) & 1) as u8) << 7u8) | (((((b3 >> 6u8) & 1) & 1) as u8) << 6u8) | ((
    (((b3 >> 5u8) & 1) & 1) as u8) << 5u8) | (((((b3 >> 4u8) & 1) & 1) as u8) << 4u8) | ((b3 & 0xf)
        & 0xf) == b3) by (bit_vector);
    assert((b2 >> 7u8) & 1 <= 1 && (b2 >> 3u8) & 0xf <= 15 && (b2 >> 2u8) & 1 <= 1 && (b2 >> 1u8)
        & 1 <= 1 && b2 & 1 <= 1) by (bit_vector);
    assert((b3 >> 7u8) & 1 <= 1 && (b3 >> 6u8) & 1 <= 1 && (b3 >> 5u8) & 1 <= 1 && (b3 >> 4u8) & 1
        <= 1 && b3 & 0xf <= 15) by (bit_vector);
    assert(u16_bytes(u16_of(b[0], b[1])) == seq![b[0], b[1]]);
    assert(u16_bytes(u16_of(b[4], b[5])) == seq![b[4], b[5]]);
    assert(u16_bytes(u16_of(b[6], b[7])) == seq![b[6], b[7]]);
    assert(u16_bytes(u16_of(b[8], b[9])) == seq![b[8], b[9]]);
    assert(u16_bytes(u16_of(b[10], b[11])) == seq![b[10], b[11]]);
    assert(header_bytes(h) =~= b);
}

/// Packing a well-formed header and decoding the twelve bytes gives the same
/// header back.
pub proof fn lemma_header_round_trip(h: DnsHeader)
    requires
        header_wf(h),
    ensures
        header_of_bytes(header_bytes(h)) == h,
{
    let b = header_bytes(h);
    let mt = h.message_type;
    let op = h.opcode;
    let aa = h.authoritative_answer;
    let tm = h.truncated_message;
    let rd = h.recursion_desired;
    let ra = h.recursion_available;
    let zz = h.zz;
    let ad = h.authed_data;
    let cd = h.checking_disabled;
    let rc = h.rescode;
    let hi = flags_hi(h);
    let lo = flags_lo(h);
    assert(b[2] == hi && b[3] == lo);
    assert(mt <= 1 && op <= 15 && aa <= 1 && tm <= 1 && rd <= 1 ==> {
        let v = (((mt & 1) as u8) << 7u8) | (((op & 0xf) as u8) << 3u8) | (((aa & 1) as u8) << 2u8)
            | (((tm & 1) as u8) << 1u8) | (rd & 1);
        (v >> 7u8) & 1 == mt && (v >> 3u8) & 0xf == op && (v >> 2u8) & 1 == aa && (v >> 1u8) & 1
            == tm && v & 1 == rd
    }) by (bit_vector);
    assert(ra <= 1 && zz <= 1 && ad <= 1 && cd <= 1 && rc <= 15 ==> {
        let v = (((ra & 1) as u8) << 7u8) | (((zz & 1) as u8) << 6u8) | (((ad & 1) as u8) << 5u8)
            | (((cd & 1) as u8) << 4u8) | (rc & 0xf);
        (v >> 7u8) & 1 == ra && (v >> 6u8) & 1 == zz && (v >> 5u8) & 1 == ad && (v >> 4u8) & 1 == cd
            && v & 0xf == rc
    }) by (bit_vector);
    assert(u16_of((h.id / 256) as u8, (h.id % 256) as u8) == h.id);
    assert(u16_of((h.questions / 256) as u8, (h.questions % 256) as u8) == h.questions);
    assert(u16_of((h.answers / 256) as u8, (h.answers % 256) as u8) == h.answers);
    assert(u16_of((h.authorities / 256) as u8, (h.authorities % 256) as u8) == h.authorities);
    assert(u16_of((h.resources / 256) as u8, (h.resources % 256) as u8) == h.resources);
}

/// Decodes the header at `pos`; `Truncated` exactly when fewer than twelve
/// bytes remain. On success the cursor lands just past the header and every
/// field equals its bit slot in the wire bytes.
pub fn parse_dns_header(buf: &[u8], pos: usize) -> (r: Result<(DnsHeader, usize), DnsError>)
    ensures
        match r {
            Ok((h, end)) => pos + 12 <= buf@.len() && end == pos + 12 && h == header_of_bytes(
                buf@.subrange(pos as int, pos + 12),
            ),
            Err(e) => e == DnsError::Truncated && pos + 12 > buf@.len(),
        },
{
    if pos >= buf.len() || buf.len() - pos < 12 {
        return Err(DnsError::Truncated);
    }
    let id = match read_u16_be(buf, pos) {
        Ok(v) => v,
        Err(e) => { return Err(e); },
    };
    let b2 = buf[pos + 2];
    let b3 = buf[pos + 3];
    let questions = match read_u16_be(buf, pos + 4) {
        Ok(v) => v,
        Err(e) => { return Err(e); },
    };
    let answers = match read_u16_be(buf, pos + 6) {
        Ok(v) => v,
        Err(e) => { return Err(e); },
    };
    let authorities = match read_u16_be(buf, pos + 8) {
        Ok(v) => v,
        Err(e) => { return Err(e); },
    };
    let resources = match read_u16_be(buf, pos + 10) {
        Ok(v) => v,
        Err(e) => { return Err(e); },
    };
    let h = DnsHeader {
        id,
        message_type: (b2 >> 7) & 1,
        opcode: (b2 >> 3) & 0xf,
        authoritative_answer: (b2 >> 2) & 1,
        truncated_message: (b2 >> 1) & 1,
        recursion_desired: b2 & 1,
        recursion_available: (b3 >> 7) & 1,
        zz: (b3 >> 6) & 1,
        authed_data: (b3 >> 5) & 1,
        checking_disabled: (b3 >> 4) & 1,
        rescode: b3 & 0xf,
        questions,
        answers,
        authorities,
        resources,
    };
    proof {
        let w = buf@.subrange(pos as int, pos + 12);
        assert(w[0] == buf@[pos as int] && w[1] == buf@[pos + 1] && w[2] == buf@[pos + 2] && w[3]
            == buf@[pos + 3] && w[4] == buf@[pos + 4] && w[5] == buf@[pos + 5] && w[6] == buf@[pos
            + 6] && w[7] == buf@[pos + 7] && w[8] == buf@[pos + 8] && w[9] == buf@[pos + 9] && w[10]
            == buf@[pos + 10] && w[11] == buf@[pos + 11]);
    }
    Ok((h, pos + 12))
}

/// Appends the twelve wire bytes of `header` to a buffer under
/// construction.
pub fn append_header(v: &mut Vec<u8>, header: &DnsHeader)
    ensures
        final(v)@ == old(v)@ + header_bytes(*header),
{
    let ghost base = v@;
    append_u16(v, header.id);
    let hi = ((header.message_type & 1) << 7) | ((header.opcode & 0xf) << 3) | ((
    header.authoritative_answer & 1) << 2) | ((header.truncated_message & 1) << 1) | (
    header.recursion_desired & 1);
    let lo = ((header.recursion_available & 1) << 7) | ((header.zz & 1) << 6) | ((header.authed_data
        & 1) << 5) | ((header.checking_disabled & 1) << 4) | (header.rescode & 0xf);
    v.push(hi);
    v.push(lo);
    append_u16(v, header.questions);
    append_u16(v, header.answers);
    append_u16(v, header.authorities);
    append_u16(v, header.resources);
    proof {
        assert(v@ =~= base + header_bytes(*header));
    }
}

/// Packs `h` into its twelve wire bytes at `index`; `BufferTooSmall` exactly
/// when they do not fit. Bytes outside the written range are unchanged.
pub fn pack_header(out: &mut Vec<u8>, index: usize, header: &DnsHeader) -> (r: Result<
    usize,
    DnsError,
>)
    ensures
        match r {
            Ok(n) => index + 12 <= old(out)@.len() && n == index + 12 && final(out)@ == spliced(
                old(out)@,
                index as int,
                header_bytes(*header),
            ),
            Err(e) => e == DnsError::BufferTooSmall && index + 12 > old(out)@.len() && final(out)@
                == old(out)@,
        },
{
    let mut v: Vec<u8> = Vec::new();
    append_header(&mut v, header);
    crate::bytes::write_bytes(out, index, &v)
}

} // verus!
