//! The fixed twelve-byte DNS message header (RFC 1035, section 4.1.1).
//!
//! ```text
//!  0  1  2  3  4  5  6  7  8  9 10 11 12 13 14 15
//! |                      ID                       |
//! |QR|   Opcode  |AA|TC|RD|RA|   Z    |   RCODE   |
//! |                    QDCOUNT                    |
//! |                    ANCOUNT                    |
//! |                    NSCOUNT                    |
//! |                    ARCOUNT                    |
//! ```
use crate::bits::{
    bit_at, bits_value, lemma_bit_at_bound, lemma_bit_in_byte, lemma_bits_agree,
    lemma_bits_in_byte, lemma_bits_u16, take_bit, take_nibble, take_u16, BitCursor,
};
use crate::error::ParseError;
use vstd::prelude::*;

verus! {

/// The kind of operation a message carries.
#[derive(Clone, Copy, Debug, PartialEq, Eq, Structural)]
pub enum Opcode {
    /// A standard query (QUERY, code 0).
    Query,
    /// An inverse query (IQUERY, code 1).
    InverseQuery,
    /// A server status request (STATUS, code 2).
    Status,
}

impl Opcode {
    /// The operation a four-bit code stands for, if any.
    pub open spec fn from_code(code: int) -> Option<Opcode> {
        if code == 0 {
            Some(Opcode::Query)
        } else if code == 1 {
            Some(Opcode::InverseQuery)
        } else if code == 2 {
            Some(Opcode::Status)
        } else {
            None
        }
    }

    /// The code this operation is written as.
    pub open spec fn code(self) -> u8 {
        match self {
            Opcode::Query => 0,
            Opcode::InverseQuery => 1,
            Opcode::Status => 2,
        }
    }

    /// Converts a raw code; codes outside the table are refused, never
    /// mapped to a neighbour.
    pub fn try_from(value: u8) -> (r: Result<Opcode, ParseError>)
        ensures
            r == match Opcode::from_code(value as int) {
                Some(op) => Ok::<Opcode, ParseError>(op),
                None => Err(ParseError::UnknownOpcode(value)),
            },
    {
        match value {
            0 => Ok(Opcode::Query),
            1 => Ok(Opcode::InverseQuery),
            2 => Ok(Opcode::Status),
            other => Err(ParseError::UnknownOpcode(other)),
        }
    }
}

/// The outcome a response reports.
#[derive(Clone, Copy, Debug, PartialEq, Eq, Structural)]
pub enum ResponseCode {
    /// No error condition (code 0).
    NoError,
    /// The server could not interpret the query (code 1).
    FormatError,
    /// The server could not process the query (code 2).
    ServerFailure,
    /// The queried domain name does not exist (code 3).
    NameError,
    /// The server does not support this kind of query (code 4).
    NotImplemented,
    /// The server refuses to perform the operation (code 5).
    Refused,
}

impl ResponseCode {
    /// The outcome a four-bit code stands for, if any.
    pub open spec fn from_code(code: int) -> Option<ResponseCode> {
        if code == 0 {
            Some(ResponseCode::NoError)
        } else if code == 1 {
            Some(ResponseCode::FormatError)
        } else if code == 2 {
            Some(ResponseCode::ServerFailure)
        } else if code == 3 {
            Some(ResponseCode::NameError)
        } else if code == 4 {
            Some(ResponseCode::NotImplemented)
        } else if code == 5 {
            Some(ResponseCode::Refused)
        } else {
            None
        }
    }

    /// The code this outcome is written as.
    pub open spec fn code(self) -> u8 {
        match self {
            ResponseCode::NoError => 0,
            ResponseCode::FormatError => 1,
            ResponseCode::ServerFailure => 2,
            ResponseCode::NameError => 3,
            ResponseCode::NotImplemented => 4,
            ResponseCode::Refused => 5,
        }
    }

    /// Converts a raw code; codes outside the table are refused.
    pub fn try_from(value: u8) -> (r: Result<ResponseCode, ParseError>)
        ensures
            r == match ResponseCode::from_code(value as int) {
                Some(rc) => Ok::<ResponseCode, ParseError>(rc),
                None => Err(ParseError::UnknownResponseCode(value)),
            },
    {
        match value {
            0 => Ok(ResponseCode::NoError),
            1 => Ok(ResponseCode::FormatError),
            2 => Ok(ResponseCode::ServerFailure),
            3 => Ok(ResponseCode::NameError),
            4 => Ok(ResponseCode::NotImplemented),
            5 => Ok(ResponseCode::Refused),
            other => Err(ParseError::UnknownResponseCode(other)),
        }
    }
}

/// The header every DNS message starts with.
#[derive(Clone, Copy, Debug, PartialEq, Eq, Structural)]
pub struct Header {
    /// Chosen by the sender of a query and copied into the reply.
    pub id: u16,
    /// True for a query; the wire bit (QR) is 1 for a response.
    pub is_query: bool,
    pub opcode: Opcode,
    pub authoritative_answer: bool,
    pub truncation: bool,
    pub recursion_desired: bool,
    pub recursion_available: bool,
    pub resp_code: ResponseCode,
    pub question_count: u16,
    pub answer_count: u16,
    pub name_server_count: u16,
    pub additional_records_count: u16,
}

/// The error for a field of `needed` bits of which `available` are there.
pub open spec fn short_by(needed: usize, available: int) -> ParseError {
    ParseError::InsufficientInput { needed, available: available as usize }
}

/// The first problem, if any, in the sixteen bits that follow the identifier
/// when they start at bit `s` of `data`: the fields are checked in wire order
/// (QR, opcode, four flags, three reserved bits, response code).
pub open spec fn flags_error(data: Seq<u8>, s: int) -> Option<ParseError> {
    let avail = 8 * data.len() - s;
    let op = bits_value(data, s + 1, 4);
    let rc = bits_value(data, s + 12, 4);
    if avail < 1 {
        Some(short_by(1, 0))
    } else if avail < 5 {
        Some(short_by(4, avail - 1))
    } else if Opcode::from_code(op as int) is None {
        Some(ParseError::UnknownOpcode(op as u8))
    } else if avail < 10 {
        Some(short_by(1, 0))
    } else if bit_at(data, s + 9) == 1 {
        Some(ParseError::ReservedBitsNonzero { position: (s + 9) as usize })
    } else if avail < 11 {
        Some(short_by(1, 0))
    } else if bit_at(data, s + 10) == 1 {
        Some(ParseError::ReservedBitsNonzero { position: (s + 10) as usize })
    } else if avail < 12 {
        Some(short_by(1, 0))
    } else if bit_at(data, s + 11) == 1 {
        Some(ParseError::ReservedBitsNonzero { position: (s + 11) as usize })
    } else if avail < 16 {
        Some(short_by(4, avail - 12))
    } else if ResponseCode::from_code(rc as int) is None {
        Some(ParseError::UnknownResponseCode(rc as u8))
    } else {
        None
    }
}

/// What decoding a header that starts at bit `start` of `data` gives: the
/// fields are read in wire order, and the first field that is missing or
/// invalid decides the error.
pub open spec fn decode_spec(data: Seq<u8>, start: int) -> Result<Header, ParseError> {
    let avail = 8 * data.len() - start;
    let field = |off: int, n: nat| bits_value(data, start + off, n);
    let flag = |off: int| bit_at(data, start + off) == 1;
    if avail < 16 {
        Err(short_by(16, avail))
    } else if flags_error(data, start + 16) is Some {
        Err(flags_error(data, start + 16).unwrap())
    } else if avail < 48 {
        Err(short_by(16, avail - 32))
    } else if avail < 64 {
        Err(short_by(16, avail - 48))
    } else if avail < 80 {
        Err(short_by(16, avail - 64))
    } else if avail < 96 {
        Err(short_by(16, avail - 80))
    } else {
        Ok(
            Header {
                id: field(0, 16) as u16,
                is_query: !flag(16),
                opcode: Opcode::from_code(field(17, 4) as int).unwrap(),
                authoritative_answer: flag(21),
                truncation: flag(22),
                recursion_desired: flag(23),
                recursion_available: flag(24),
                resp_code: ResponseCode::from_code(field(28, 4) as int).unwrap(),
                question_count: field(32, 16) as u16,
                answer_count: field(48, 16) as u16,
                name_server_count: field(64, 16) as u16,
                additional_records_count: field(80, 16) as u16,
            },
        )
    }
}

/// Reads one reserved bit and fails where it is not zero.
fn take_reserved_bit<'a>(i: BitCursor<'a>) -> (r: Result<BitCursor<'a>, ParseError>)
    requires
        i.wf(),
    ensures
        i.remaining() < 1 ==> r == Err::<BitCursor<'a>, ParseError>(short_by(1, i.remaining())),
        1 <= i.remaining() ==> {
            &&& r is Ok <==> bit_at(i.data@, i.bit_offset as int) == 0
            &&& r matches Ok(c) ==> c.wf() && c.data == i.data && c.bit_offset == i.bit_offset
                + 1
            &&& r matches Err(e) ==> e == (ParseError::ReservedBitsNonzero {
                position: i.bit_offset,
            })
        },
{
    let pos = i.bit_offset;
    let (c, set) = take_bit(i)?;
    proof {
        lemma_bit_at_bound(i.data@, i.bit_offset as int);
    }
    if set {
        Err(ParseError::ReservedBitsNonzero { position: pos })
    } else {
        Ok(c)
    }
}

/// Reads the sixteen bits after the identifier: QR, opcode, the four flags,
/// the reserved bits and the response code.
fn take_flags<'a>(i: BitCursor<'a>) -> (r: Result<
    (BitCursor<'a>, (bool, Opcode, bool, bool, bool, bool, ResponseCode)),
    ParseError,
>)
    requires
        i.wf(),
    ensures
        r matches Err(e) ==> flags_error(i.data@, i.bit_offset as int) == Some(e),
        r matches Ok((c, (qr, op, aa, tc, rd, ra, rc))) ==> {
            let d = i.data@;
            let s = i.bit_offset as int;
            &&& flags_error(d, s) is None
            &&& c.wf()
            &&& c.data == i.data
            &&& c.bit_offset == i.bit_offset + 16
            &&& qr == (bit_at(d, s) == 1)
            &&& Opcode::from_code(bits_value(d, s + 1, 4) as int) == Some(op)
            &&& aa == (bit_at(d, s + 5) == 1)
            &&& tc == (bit_at(d, s + 6) == 1)
            &&& rd == (bit_at(d, s + 7) == 1)
            &&& ra == (bit_at(d, s + 8) == 1)
            &&& ResponseCode::from_code(bits_value(d, s + 12, 4) as int) == Some(rc)
        },
{
    proof {
        lemma_bit_at_bound(i.data@, i.bit_offset + 9);
        lemma_bit_at_bound(i.data@, i.bit_offset + 10);
        lemma_bit_at_bound(i.data@, i.bit_offset + 11);
    }
    let (i1, qr) = take_bit(i)?;
    let (i2, op) = take_nibble(i1)?;
    let opcode = Opcode::try_from(op)?;
    let (i3, aa) = take_bit(i2)?;
    let (i4, tc) = take_bit(i3)?;
    let (i5, rd) = take_bit(i4)?;
    let (i6, ra) = take_bit(i5)?;
    let i7 = take_reserved_bit(i6)?;
    let i8 = take_reserved_bit(i7)?;
    let i9 = take_reserved_bit(i8)?;
    let (i10, rc) = take_nibble(i9)?;
    let resp_code = ResponseCode::try_from(rc)?;
    Ok((i10, (qr, opcode, aa, tc, rd, ra, resp_code)))
}

impl Header {
    /// Decodes a header from the cursor, field by field in wire order, and
    /// returns it with the cursor moved on by exactly 96 bits.
    pub fn deserialize<'a>(i: BitCursor<'a>) -> (r: Result<(BitCursor<'a>, Header), ParseError>)
        requires
            i.wf(),
        ensures
            r matches Ok((c, h)) ==> {
                &&& decode_spec(i.data@, i.bit_offset as int) == Ok::<Header, ParseError>(h)
                &&& c.wf()
                &&& c.data == i.data
                &&& c.bit_offset == i.bit_offset + 96
            },
            r matches Err(e) ==> decode_spec(i.data@, i.bit_offset as int) == Err::<
                Header,
                ParseError,
            >(e),
    {
        let (i1, id) = take_u16(i)?;
        let (i2, (qr, opcode, aa, tc, rd, ra, resp_code)) = take_flags(i1)?;
        let (i3, qdcount) = take_u16(i2)?;
        let (i4, ancount) = take_u16(i3)?;
        let (i5, nscount) = take_u16(i4)?;
        let (i6, arcount) = take_u16(i5)?;
        let header = Header {
            id,
            is_query: !qr,
            opcode,
            authoritative_answer: aa,
            truncation: tc,
            recursion_desired: rd,
            recursion_available: ra,
            resp_code,
            question_count: qdcount,
            answer_count: ancount,
            name_server_count: nscount,
            additional_records_count: arcount,
        };
        Ok((i6, header))
    }

    /// Decodes a header from the start of `bytes` and returns it with the
    /// byte offset at which the sections after it begin.
    pub fn decode(bytes: &[u8]) -> (r: Result<(Header, usize), ParseError>)
        requires
            8 * bytes@.len() <= usize::MAX,
        ensures
            r matches Ok((h, off)) ==> decode_spec(bytes@, 0) == Ok::<Header, ParseError>(h)
                && off == 12,
            r matches Err(e) ==> decode_spec(bytes@, 0) == Err::<Header, ParseError>(e),
    {
        let (c, h) = Header::deserialize(BitCursor::new(bytes, 0))?;
        Ok((h, c.byte_index()))
    }
}

/// One for a set flag, zero for a clear one.
pub open spec fn flag_bit(b: bool) -> u8 {
    if b {
        1
    } else {
        0
    }
}

/// The twelve bytes that `h` is written as on the wire, with the reserved
/// bits zero.
pub open spec fn encode_header(h: Header) -> Seq<u8> {
    let hi = (flag_bit(!h.is_query) << 7u8) | (h.opcode.code() << 3u8) | (flag_bit(
        h.authoritative_answer,
    ) << 2u8) | (flag_bit(h.truncation) << 1u8) | flag_bit(h.recursion_desired);
    let lo = (flag_bit(h.recursion_available) << 7u8) | h.resp_code.code();
    seq![
        (h.id >> 8u16) as u8,
        h.id as u8,
        hi,
        lo,
        (h.question_count >> 8u16) as u8,
        h.question_count as u8,
        (h.answer_count >> 8u16) as u8,
        h.answer_count as u8,
        (h.name_server_count >> 8u16) as u8,
        h.name_server_count as u8,
        (h.additional_records_count >> 8u16) as u8,
        h.additional_records_count as u8,
    ]
}

/// The two bytes of a big-endian sixteen-bit number read back as that number.
proof fn lemma_u16_bytes(v: u16)
    ensures
        ((v >> 8u16) as u8) as nat * 256 + (v as u8) as nat == v,
{
    assert((((v >> 8u16) as u8) as u32) * 256 + ((v as u8) as u32) == v as u32) by (bit_vector);
}

/// What the fields of an encoded header read back as, bit by bit.
proof fn lemma_encoded_fields(h: Header)
    ensures
        ({
            let d = encode_header(h);
            &&& bits_value(d, 0, 16) == h.id
            &&& bit_at(d, 16) == flag_bit(!h.is_query)
            &&& bits_value(d, 17, 4) == h.opcode.code()
            &&& bit_at(d, 21) == flag_bit(h.authoritative_answer)
            &&& bit_at(d, 22) == flag_bit(h.truncation)
            &&& bit_at(d, 23) == flag_bit(h.recursion_desired)
            &&& bit_at(d, 24) == flag_bit(h.recursion_available)
            &&& bit_at(d, 25) == 0
            &&& bit_at(d, 26) == 0
            &&& bit_at(d, 27) == 0
            &&& bits_value(d, 28, 4) == h.resp_code.code()
            &&& bits_value(d, 32, 16) == h.question_count
            &&& bits_value(d, 48, 16) == h.answer_count
            &&& bits_value(d, 64, 16) == h.name_server_count
            &&& bits_value(d, 80, 16) == h.additional_records_count
        }),
{
    let d = encode_header(h);
    lemma_bits_u16(d, 0);
    lemma_bits_u16(d, 4);
    lemma_bits_u16(d, 6);
    lemma_bits_u16(d, 8);
    lemma_bits_u16(d, 10);
    lemma_u16_bytes(h.id);
    lemma_u16_bytes(h.question_count);
    lemma_u16_bytes(h.answer_count);
    lemma_u16_bytes(h.name_server_count);
    lemma_u16_bytes(h.additional_records_count);
    let qr = flag_bit(!h.is_query);
    let op = h.opcode.code();
    let aa = flag_bit(h.authoritative_answer);
    let tc = flag_bit(h.truncation);
    let rd = flag_bit(h.recursion_desired);
    let ra = flag_bit(h.recursion_available);
    let rc = h.resp_code.code();
    let hi = d[2];
    let lo = d[3];
    assert(hi == (qr << 7u8) | (op << 3u8) | (aa << 2u8) | (tc << 1u8) | rd);
    assert(lo == (ra << 7u8) | rc);
    lemma_bit_in_byte(d, 2, 0);
    lemma_bits_in_byte(d, 2, 1, 4);
    lemma_bit_in_byte(d, 2, 5);
    lemma_bit_in_byte(d, 2, 6);
    lemma_bit_in_byte(d, 2, 7);
    lemma_bit_in_byte(d, 3, 0);
    lemma_bit_in_byte(d, 3, 1);
    lemma_bit_in_byte(d, 3, 2);
    lemma_bit_in_byte(d, 3, 3);
    lemma_bits_in_byte(d, 3, 4, 4);
    assert({
        &&& (hi >> 7u8) & 1u8 == qr
        &&& (hi >> 3u8) & (0xffu8 >> 4u8) == op
        &&& (hi >> 2u8) & 1u8 == aa
        &&& (hi >> 1u8) & 1u8 == tc
        &&& (hi >> 0u8) & 1u8 == rd
    }) by (bit_vector)
        requires
            hi == (qr << 7u8) | (op << 3u8) | (aa << 2u8) | (tc << 1u8) | rd,
            qr <= 1,
            op < 16,
            aa <= 1,
            tc <= 1,
            rd <= 1,
    ;
    assert({
        &&& (lo >> 7u8) & 1u8 == ra
        &&& (lo >> 6u8) & 1u8 == 0
        &&& (lo >> 5u8) & 1u8 == 0
        &&& (lo >> 4u8) & 1u8 == 0
        &&& (lo >> 0u8) & (0xffu8 >> 4u8) == rc
    }) by (bit_vector)
        requires
            lo == (ra << 7u8) | rc,
            ra <= 1,
            rc < 16,
    ;
}

/// Encoding a header and decoding the twelve bytes gives the header back,
/// for every opcode, response code, flag and count.
pub proof fn lemma_decode_encode(h: Header)
    ensures
        decode_spec(encode_header(h), 0) == Ok::<Header, ParseError>(h),
{
    lemma_encoded_fields(h);
}

/// A valid header with one of its three reserved bits set to one is refused
/// for that bit, and for no other reason.
pub proof fn lemma_reserved_bit_rejected(h: Header, j: u8)
    requires
        j < 3,
    ensures
        ({
            let d = encode_header(h);
            let bad = d.update(3, d[3] | (0x40u8 >> j));
            decode_spec(bad, 0) == Err::<Header, ParseError>(
                ParseError::ReservedBitsNonzero { position: (25 + j) as usize },
            )
        }),
{
    let d = encode_header(h);
    let lo = d[3];
    let bad = d.update(3, lo | (0x40u8 >> j));
    let ra = flag_bit(h.recursion_available);
    let rc = h.resp_code.code();
    lemma_encoded_fields(h);
    lemma_bits_agree(bad, d, 17, 4);
    lemma_bit_in_byte(bad, 3, 1);
    lemma_bit_in_byte(bad, 3, 2);
    lemma_bit_in_byte(bad, 3, 3);
    let lo2 = bad[3];
    assert({
        &&& (lo2 >> 6u8) & 1u8 == (if j == 0 { 1u8 } else { 0u8 })
        &&& (lo2 >> 5u8) & 1u8 == (if j == 1 { 1u8 } else { 0u8 })
        &&& (lo2 >> 4u8) & 1u8 == (if j == 2 { 1u8 } else { 0u8 })
    }) by (bit_vector)
        requires
            lo == (ra << 7u8) | rc,
            lo2 == lo | (0x40u8 >> j),
            rc < 16,
            j < 3,
    ;
}

/// A valid header whose opcode field is rewritten to a code outside the
/// table is refused with that code.
pub proof fn lemma_unknown_opcode_rejected(h: Header, code: u8)
    requires
        3 <= code < 16,
    ensures
        ({
            let d = encode_header(h);
            let bad = d.update(2, (d[2] & 0x87u8) | (code << 3u8));
            decode_spec(bad, 0) == Err::<Header, ParseError>(ParseError::UnknownOpcode(code))
        }),
{
    let d = encode_header(h);
    let hi = d[2];
    let bad = d.update(2, (hi & 0x87u8) | (code << 3u8));
    lemma_bits_in_byte(bad, 2, 1, 4);
    let hi2 = bad[2];
    assert((hi2 >> 3u8) & (0xffu8 >> 4u8) == code) by (bit_vector)
        requires
            hi2 == (hi & 0x87u8) | (code << 3u8),
            code < 16,
    ;
}

/// A valid header whose response code field is rewritten to a code outside
/// the table is refused with that code.
pub proof fn lemma_unknown_response_code_rejected(h: Header, code: u8)
    requires
        6 <= code < 16,
    ensures
        ({
            let d = encode_header(h);
            let bad = d.update(3, (d[3] & 0xf0u8) | code);
            decode_spec(bad, 0) == Err::<Header, ParseError>(
                ParseError::UnknownResponseCode(code),
            )
        }),
{
    let d = encode_header(h);
    let lo = d[3];
    let bad = d.update(3, (lo & 0xf0u8) | code);
    lemma_encoded_fields(h);
    lemma_bits_agree(bad, d, 17, 4);
    lemma_bit_in_byte(bad, 3, 1);
    lemma_bit_in_byte(bad, 3, 2);
    lemma_bit_in_byte(bad, 3, 3);
    lemma_bits_in_byte(bad, 3, 4, 4);
    lemma_bit_in_byte(d, 3, 1);
    lemma_bit_in_byte(d, 3, 2);
    lemma_bit_in_byte(d, 3, 3);
    let lo2 = bad[3];
    assert({
        &&& (lo2 >> 6u8) & 1u8 == (lo >> 6u8) & 1u8
        &&& (lo2 >> 5u8) & 1u8 == (lo >> 5u8) & 1u8
        &&& (lo2 >> 4u8) & 1u8 == (lo >> 4u8) & 1u8
        &&& (lo2 >> 0u8) & (0xffu8 >> 4u8) == code
    }) by (bit_vector)
        requires
            lo2 == (lo & 0xf0u8) | code,
            code < 16,
    ;
}

/// The error that decoding the first `m` bytes of a valid header gives: the
/// field that the end of the bytes cuts, with the bits of it that are there.
pub open spec fn truncation_error(m: nat) -> ParseError {
    if m < 2 {
        short_by(16, 8 * m as int)
    } else if m < 4 {
        short_by(1, 0)
    } else {
        short_by(16, (8 * m as int - 32) % 16)
    }
}

/// A valid header cut short of twelve bytes is refused as too short, at the
/// field where the bytes run out, and never decoded with missing bits as
/// zeros.
pub proof fn lemma_truncated_rejected(h: Header, m: nat)
    requires
        m < 12,
    ensures
        decode_spec(encode_header(h).subrange(0, m as int), 0) == Err::<Header, ParseError>(
            truncation_error(m),
        ),
{
    let d = encode_header(h);
    let t = d.subrange(0, m as int);
    lemma_encoded_fields(h);
    if m >= 3 {
        lemma_bits_agree(t, d, 17, 4);
    }
    if m >= 4 {
        lemma_bits_agree(t, d, 25, 1);
        lemma_bits_agree(t, d, 26, 1);
        lemma_bits_agree(t, d, 27, 1);
        lemma_bits_agree(t, d, 28, 4);
        reveal_with_fuel(bits_value, 2);
    }
}

} // verus!
