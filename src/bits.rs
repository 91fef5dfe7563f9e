//! A cursor over a byte buffer with bit granularity.
//!
//! Bits are numbered from the start of the buffer, most significant bit of
//! each byte first. A cursor is a plain value: extracting bits hands back a new
//! cursor and leaves the old one as it was, so a caller can retry from it.
use crate::error::ParseError;
use vstd::arithmetic::power2::{lemma2_to64, lemma_pow2_unfold, pow2};
use vstd::prelude::*;

verus! {

/// Bit `i` of `data`, counting from the most significant bit of `data[0]`.
pub open spec fn bit_at(data: Seq<u8>, i: int) -> nat {
    ((data[i / 8] >> ((7 - i % 8) as u8)) & 1u8) as nat
}

/// A bit is zero or one.
pub proof fn lemma_bit_at_bound(data: Seq<u8>, i: int)
    ensures
        bit_at(data, i) <= 1,
{
    let x = data[i / 8];
    let s = (7 - i % 8) as u8;
    assert((x >> s) & 1u8 <= 1u8) by (bit_vector);
}

/// The `n` bits of `data` that start at bit `start`, read as an unsigned
/// number, most significant bit first.
pub open spec fn bits_value(data: Seq<u8>, start: int, n: nat) -> nat
    decreases n,
{
    if n == 0 {
        0
    } else {
        bits_value(data, start, (n - 1) as nat) * 2 + bit_at(data, start + n - 1)
    }
}

/// Cutting whole bytes off the front of a buffer moves every bit position
/// back by eight per byte and changes no bit.
proof fn lemma_bits_value_drop_bytes(data: Seq<u8>, b: int, start: int, n: nat)
    requires
        0 <= b <= data.len(),
        0 <= start,
        start + n <= 8 * (data.len() - b),
    ensures
        bits_value(data.subrange(b, data.len() as int), start, n) == bits_value(
            data,
            start + 8 * b,
            n,
        ),
    decreases n,
{
    if n > 0 {
        lemma_bits_value_drop_bytes(data, b, start, (n - 1) as nat);
        let i = start + n - 1;
        assert((i + 8 * b) / 8 == i / 8 + b && (i + 8 * b) % 8 == i % 8) by (nonlinear_arith)
            requires
                i >= 0,
                b >= 0,
        ;
    }
}

/// Splitting one read of `a + b` bits into a read of `a` bits followed by a
/// read of `b` bits, and joining the two most significant first, gives the
/// same number.
pub proof fn lemma_split_read(data: Seq<u8>, start: int, a: nat, b: nat)
    ensures
        bits_value(data, start, a + b) == bits_value(data, start, a) * pow2(b) + bits_value(
            data,
            start + a,
            b,
        ),
    decreases b,
{
    if b == 0 {
        lemma2_to64();
    } else {
        lemma_split_read(data, start, a, (b - 1) as nat);
        lemma_pow2_unfold(b);
        let x = bits_value(data, start, a);
        let p = pow2((b - 1) as nat);
        let y = bits_value(data, start + a, (b - 1) as nat);
        assert((x * p + y) * 2 == x * (2 * p) + y * 2) by (nonlinear_arith);
    }
}

/// Two buffers whose bytes agree under a read give the same read.
pub proof fn lemma_bits_agree(d1: Seq<u8>, d2: Seq<u8>, start: int, n: nat)
    requires
        0 <= start,
        forall|k: int| start / 8 <= k <= (start + n - 1) / 8 ==> #[trigger] d1[k] == d2[k],
    ensures
        bits_value(d1, start, n) == bits_value(d2, start, n),
    decreases n,
{
    if n > 0 {
        lemma_bits_agree(d1, d2, start, (n - 1) as nat);
        let p = start + n - 1;
        assert(start / 8 <= p / 8 <= (start + n - 1) / 8);
        assert(d1[p / 8] == d2[p / 8]);
    }
}

/// Bit `j` of byte `k`, counting from its most significant bit.
pub proof fn lemma_bit_in_byte(data: Seq<u8>, k: int, j: int)
    requires
        0 <= j < 8,
    ensures
        bit_at(data, 8 * k + j) == ((data[k] >> ((7 - j) as u8)) & 1u8) as nat,
{
    assert((8 * k + j) / 8 == k && (8 * k + j) % 8 == j);
}

/// A read of `n` bits that stays inside byte `k`, starting `j` bits into it,
/// is that byte shifted right and masked.
pub proof fn lemma_bits_in_byte(data: Seq<u8>, k: int, j: nat, n: nat)
    requires
        0 <= k < data.len(),
        1 <= n,
        j + n <= 8,
    ensures
        bits_value(data, 8 * k + j, n) == ((data[k] >> ((8 - j - n) as u8)) & (0xffu8 >> ((8
            - n) as u8))) as nat,
    decreases n,
{
    let x = data[k];
    let p = 8 * k + j + n - 1;
    assert(p / 8 == k && p % 8 == j + n - 1);
    reveal_with_fuel(bits_value, 2);
    if n == 1 {
        let s = (7 - j) as u8;
        assert((x >> s) & 1u8 == (x >> s) & (0xffu8 >> 7u8)) by (bit_vector);
    } else {
        lemma_bits_in_byte(data, k, j, (n - 1) as nat);
        let s = (8 - j - n) as u8;
        let m = (8 - n) as u8;
        assert((((x >> ((s + 1) as u8)) & (0xffu8 >> ((m + 1) as u8))) as u16) * 2 + (((x >> s)
            & 1u8) as u16) == ((x >> s) & (0xffu8 >> m)) as u16) by (bit_vector)
            requires
                s <= m,
                m < 7,
        ;
    }
}

/// A read of the sixteen bits of bytes `k` and `k + 1` is the big-endian
/// number they form.
pub proof fn lemma_bits_u16(data: Seq<u8>, k: int)
    requires
        0 <= k,
        k + 1 < data.len(),
    ensures
        bits_value(data, 8 * k, 16) == data[k] as nat * 256 + data[k + 1] as nat,
{
    lemma_split_read(data, 8 * k, 8, 8);
    lemma_bits_in_byte(data, k, 0, 8);
    lemma_bits_in_byte(data, k + 1, 0, 8);
    let x = data[k];
    let y = data[k + 1];
    assert((x >> 0u8) & (0xffu8 >> 0u8) == x) by (bit_vector);
    assert((y >> 0u8) & (0xffu8 >> 0u8) == y) by (bit_vector);
    assert(8 * (k + 1) + 0 == 8 * k + 8);
    lemma2_to64();
}

/// An `n`-bit read is below `2^n`.
pub proof fn lemma_bits_value_bound(data: Seq<u8>, start: int, n: nat)
    ensures
        bits_value(data, start, n) < pow2(n),
    decreases n,
{
    if n == 0 {
        lemma2_to64();
    } else {
        lemma_bits_value_bound(data, start, (n - 1) as nat);
        lemma_pow2_unfold(n);
        let x = data[(start + n - 1) / 8];
        let s = (7 - (start + n - 1) % 8) as u8;
        assert((x >> s) & 1u8 <= 1u8) by (bit_vector);
    }
}

/// Relies on nom::bits::complete::take: with a bit offset below eight and a
/// count from one to sixteen it fails exactly when the input holds fewer than
/// `bit + n` bits, and otherwise returns the `n` bits that start at bit `bit`
/// of `input[0]`, most significant bit first.
#[verifier::external_body]
fn nom_take(input: &[u8], bit: usize, n: usize) -> (r: Option<u16>)
    requires
        bit < 8,
        1 <= n <= 16,
        8 * input@.len() <= usize::MAX,
    ensures
        r is Some <==> bit + n <= 8 * input@.len(),
        r matches Some(v) ==> v == bits_value(input@, bit as int, n as nat),
{
    match nom::bits::complete::take::<_, u16, usize, nom::error::Error<(&[u8], usize)>>(n)(
        (input, bit),
    ) {
        Ok((_, v)) => Some(v),
        Err(_) => None,
    }
}

/// A read position inside `data`, as an absolute bit offset.
#[derive(Clone, Copy, Debug)]
pub struct BitCursor<'a> {
    pub data: &'a [u8],
    pub bit_offset: usize,
}

impl<'a> BitCursor<'a> {
    /// The offset lies inside the buffer, and every bit offset of the buffer
    /// fits in a `usize`.
    pub open spec fn wf(&self) -> bool {
        &&& 8 * self.data@.len() <= usize::MAX
        &&& self.bit_offset <= 8 * self.data@.len()
    }

    /// How many bits are left after the offset.
    pub open spec fn remaining(&self) -> int {
        8 * self.data@.len() - self.bit_offset
    }

    /// A cursor at bit `bit_offset` of `data`.
    pub fn new(data: &'a [u8], bit_offset: usize) -> (r: Self)
        requires
            8 * data@.len() <= usize::MAX,
            bit_offset <= 8 * data@.len(),
        ensures
            r.wf(),
            r.data@ == data@,
            r.bit_offset == bit_offset,
    {
        BitCursor { data, bit_offset }
    }

    /// The number of whole bytes before the offset.
    pub fn byte_index(&self) -> (r: usize)
        ensures
            r == self.bit_offset / 8,
    {
        self.bit_offset / 8
    }

    /// The offset within the current byte, from zero to seven.
    pub fn bit_in_byte(&self) -> (r: usize)
        ensures
            r == self.bit_offset % 8,
    {
        self.bit_offset % 8
    }

    /// Reads the next `n` bits as a number, most significant bit first, and
    /// returns it with a cursor moved on by exactly `n` bits.
    pub fn extract_bits(&self, n: usize) -> (r: Result<(BitCursor<'a>, u16), ParseError>)
        requires
            self.wf(),
            1 <= n <= 16,
        ensures
            r is Ok <==> n <= self.remaining(),
            r matches Ok((c, v)) ==> {
                &&& c.wf()
                &&& c.data == self.data
                &&& c.bit_offset == self.bit_offset + n
                &&& v == bits_value(self.data@, self.bit_offset as int, n as nat)
            },
            r matches Err(e) ==> e == (ParseError::InsufficientInput {
                needed: n,
                available: self.remaining() as usize,
            }),
    {
        let byte = self.bit_offset / 8;
        let bit = self.bit_offset % 8;
        let rest = vstd::slice::slice_subrange(self.data, byte, self.data.len());
        proof {
            if n <= self.remaining() {
                lemma_bits_value_drop_bytes(self.data@, byte as int, bit as int, n as nat);
            }
        }
        match nom_take(rest, bit, n) {
            Some(v) => Ok((BitCursor { data: self.data, bit_offset: self.bit_offset + n }, v)),
            None => Err(
                ParseError::InsufficientInput {
                    needed: n,
                    available: self.data.len() * 8 - self.bit_offset,
                },
            ),
        }
    }

    /// Reads the next `n` bits and succeeds only where they equal `pattern`.
    /// On a mismatch no cursor is handed back: the caller still holds this
    /// one and may try another branch from it.
    pub fn expect_bits(&self, pattern: u16, n: usize) -> (r: Result<BitCursor<'a>, ParseError>)
        requires
            self.wf(),
            1 <= n <= 16,
        ensures
            n > self.remaining() ==> r == Err::<BitCursor<'a>, ParseError>(
                ParseError::InsufficientInput { needed: n, available: self.remaining() as usize },
            ),
            n <= self.remaining() ==> {
                let found = bits_value(self.data@, self.bit_offset as int, n as nat);
                &&& r is Ok <==> found == pattern
                &&& r matches Ok(c) ==> c.wf() && c.data == self.data && c.bit_offset
                    == self.bit_offset + n
                &&& r matches Err(e) ==> e == (ParseError::PatternMismatch {
                    expected: pattern,
                    found: found as u16,
                })
            },
    {
        match self.extract_bits(n) {
            Ok((c, v)) => {
                if v == pattern {
                    Ok(c)
                } else {
                    Err(ParseError::PatternMismatch { expected: pattern, found: v })
                }
            },
            Err(e) => Err(e),
        }
    }
}

/// Reads one bit: `true` when it is 1.
pub fn take_bit<'a>(i: BitCursor<'a>) -> (r: Result<(BitCursor<'a>, bool), ParseError>)
    requires
        i.wf(),
    ensures
        r is Ok <==> 1 <= i.remaining(),
        r matches Ok((c, one)) ==> {
            &&& c.wf()
            &&& c.data == i.data
            &&& c.bit_offset == i.bit_offset + 1
            &&& one == (bit_at(i.data@, i.bit_offset as int) == 1)
        },
        r matches Err(e) ==> e == (ParseError::InsufficientInput {
            needed: 1,
            available: i.remaining() as usize,
        }),
{
    match i.extract_bits(1) {
        Ok((c, v)) => {
            assert(bits_value(i.data@, i.bit_offset as int, 1) == bit_at(
                i.data@,
                i.bit_offset as int,
            )) by {
                reveal_with_fuel(bits_value, 2);
            }
            proof {
                lemma_bits_value_bound(i.data@, i.bit_offset as int, 1);
                lemma2_to64();
            }
            Ok((c, v != 0))
        },
        Err(e) => Err(e),
    }
}

/// Reads four bits as a number below 16.
pub fn take_nibble<'a>(i: BitCursor<'a>) -> (r: Result<(BitCursor<'a>, u8), ParseError>)
    requires
        i.wf(),
    ensures
        r is Ok <==> 4 <= i.remaining(),
        r matches Ok((c, v)) ==> {
            &&& c.wf()
            &&& c.data == i.data
            &&& c.bit_offset == i.bit_offset + 4
            &&& v == bits_value(i.data@, i.bit_offset as int, 4)
            &&& v < 16
        },
        r matches Err(e) ==> e == (ParseError::InsufficientInput {
            needed: 4,
            available: i.remaining() as usize,
        }),
{
    match i.extract_bits(4) {
        Ok((c, v)) => {
            proof {
                lemma_bits_value_bound(i.data@, i.bit_offset as int, 4);
                lemma2_to64();
            }
            Ok((c, v as u8))
        },
        Err(e) => Err(e),
    }
}

/// Reads sixteen bits as a number, most significant bit first.
pub fn take_u16<'a>(i: BitCursor<'a>) -> (r: Result<(BitCursor<'a>, u16), ParseError>)
    requires
        i.wf(),
    ensures
        r is Ok <==> 16 <= i.remaining(),
        r matches Ok((c, v)) ==> {
            &&& c.wf()
            &&& c.data == i.data
            &&& c.bit_offset == i.bit_offset + 16
            &&& v == bits_value(i.data@, i.bit_offset as int, 16)
        },
        r matches Err(e) ==> e == (ParseError::InsufficientInput {
            needed: 16,
            available: i.remaining() as usize,
        }),
{
    i.extract_bits(16)
}

} // verus!
