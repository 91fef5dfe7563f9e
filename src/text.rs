//! Lines of coordinate pairs such as `0,9 -> 5,9`, one per line.
//!
//! Each parser takes the bytes in front of it and returns what it read with
//! the bytes it left over; the spec functions give the same answer as a number
//! of bytes consumed.
use vstd::prelude::*;

verus! {

/// Why a line of coordinates could not be read.
#[derive(Clone, Copy, Debug, PartialEq, Eq, Structural)]
pub enum TextError {
    /// A number was expected and no digit came.
    NoDigits,
    /// The digits form a number above `u32::MAX`.
    TooLarge,
    /// The comma between the two coordinates of a point is missing.
    MissingComma,
    /// The ` -> ` between the two points of a line is missing.
    MissingArrow,
}

/// A point in the plane.
#[derive(Clone, Copy, Debug, PartialEq, Eq, Structural)]
pub struct Point {
    pub x: u32,
    pub y: u32,
}

/// A line from one point to another.
#[derive(Clone, Copy, Debug, PartialEq, Eq, Structural)]
pub struct Line(pub Point, pub Point);

/// An ASCII decimal digit.
pub open spec fn is_digit(b: u8) -> bool {
    0x30 <= b <= 0x39
}

/// The end of the run of digits that starts at `i`.
pub open spec fn digit_run(s: Seq<u8>, i: int) -> int
    decreases s.len() - i,
{
    if 0 <= i < s.len() && is_digit(s[i]) {
        digit_run(s, i + 1)
    } else {
        i
    }
}

/// The decimal number that the first `n` bytes of `s` spell.
pub open spec fn dec_value(s: Seq<u8>, n: int) -> nat
    decreases n,
{
    if n <= 0 {
        0
    } else {
        dec_value(s, n - 1) * 10 + (s[n - 1] - 0x30) as nat
    }
}

/// The number at the front of `s` and how many bytes it takes.
pub open spec fn number_spec(s: Seq<u8>) -> Result<(int, u32), TextError> {
    let k = digit_run(s, 0);
    if k == 0 {
        Err(TextError::NoDigits)
    } else if dec_value(s, k) > u32::MAX {
        Err(TextError::TooLarge)
    } else {
        Ok((k, dec_value(s, k) as u32))
    }
}

/// The point `x,y` at the front of `s` and how many bytes it takes.
pub open spec fn point_spec(s: Seq<u8>) -> Result<(int, Point), TextError> {
    match number_spec(s) {
        Err(e) => Err(e),
        Ok((k1, x)) => if k1 < s.len() && s[k1] == 0x2c {
            match number_spec(s.skip(k1 + 1)) {
                Err(e) => Err(e),
                Ok((k2, y)) => Ok((k1 + 1 + k2, Point { x, y })),
            }
        } else {
            Err(TextError::MissingComma)
        },
    }
}

/// `s` holds ` -> ` at `i`.
pub open spec fn arrow_at(s: Seq<u8>, i: int) -> bool {
    &&& 0 <= i
    &&& i + 4 <= s.len()
    &&& s.subrange(i, i + 4) == seq![0x20u8, 0x2du8, 0x3eu8, 0x20u8]
}

/// The line `p -> q` at the front of `s` and how many bytes it takes.
pub open spec fn line_spec(s: Seq<u8>) -> Result<(int, Line), TextError> {
    match point_spec(s) {
        Err(e) => Err(e),
        Ok((k1, p0)) => if arrow_at(s, k1) {
            match point_spec(s.skip(k1 + 4)) {
                Err(e) => Err(e),
                Ok((k2, p1)) => Ok((k1 + 4 + k2, Line(p0, p1))),
            }
        } else {
            Err(TextError::MissingArrow)
        },
    }
}

/// The length of the line ending (`\n` or `\r\n`) at the front of `s`, or
/// zero where there is none.
pub open spec fn line_ending_len(s: Seq<u8>) -> int {
    if s.len() >= 1 && s[0] == 0x0a {
        1
    } else if s.len() >= 2 && s[0] == 0x0d && s[1] == 0x0a {
        2
    } else {
        0
    }
}

/// The lines that follow, each after a line ending, up to the first place
/// where no line ending comes or no line follows it.
pub open spec fn more_lines(s: Seq<u8>) -> Seq<Line>
    decreases s.len(),
{
    let e = line_ending_len(s);
    if e == 0 {
        seq![]
    } else {
        match line_spec(s.skip(e)) {
            Ok((k, l)) => if 0 <= k && e + k <= s.len() {
                seq![l] + more_lines(s.skip(e + k))
            } else {
                seq![]
            },
            Err(_) => seq![],
        }
    }
}

/// A run of digits spells a number no smaller than any prefix of it.
proof fn lemma_dec_value_grows(s: Seq<u8>, n: int, m: int)
    requires
        0 <= n <= m <= s.len(),
        forall|j: int| n <= j < m ==> is_digit(#[trigger] s[j]),
    ensures
        dec_value(s, n) <= dec_value(s, m),
    decreases m - n,
{
    if n < m {
        lemma_dec_value_grows(s, n, m - 1);
    }
}

/// Reads a decimal `u32` from the front of `input`.
pub fn parse_numbers(input: &[u8]) -> (r: Result<(&[u8], u32), TextError>)
    ensures
        match number_spec(input@) {
            Ok((k, v)) => 0 < k <= input@.len() && (r matches Ok((rest, x)) && rest@ == input@.skip(
                k,
            ) && x == v),
            Err(e) => r == Err::<(&[u8], u32), TextError>(e),
        },
{
    let mut k: usize = 0;
    while k < input.len() && 0x30 <= input[k] && input[k] <= 0x39
        invariant
            0 <= k <= input@.len(),
            digit_run(input@, k as int) == digit_run(input@, 0),
            forall|j: int| 0 <= j < k ==> is_digit(#[trigger] input@[j]),
        decreases input.len() - k,
    {
        k = k + 1;
    }
    if k == 0 {
        return Err(TextError::NoDigits);
    }
    let mut acc: u32 = 0;
    let mut j: usize = 0;
    while j < k
        invariant
            0 <= j <= k <= input@.len(),
            k == digit_run(input@, 0),
            forall|i: int| 0 <= i < k ==> is_digit(#[trigger] input@[i]),
            acc == dec_value(input@, j as int),
        decreases k - j,
    {
        let d = (input[j] - 0x30) as u32;
        if acc > 429496729 || (acc == 429496729 && d > 5) {
            proof {
                lemma_dec_value_grows(input@, j + 1, k as int);
            }
            return Err(TextError::TooLarge);
        }
        acc = acc * 10 + d;
        j = j + 1;
    }
    Ok((vstd::slice::slice_subrange(input, k, input.len()), acc))
}

impl Point {
    /// Reads a point written `x,y` from the front of `input`.
    pub fn parse(input: &[u8]) -> (r: Result<(&[u8], Point), TextError>)
        ensures
            match point_spec(input@) {
                Ok((k, p)) => 0 < k <= input@.len() && (r matches Ok((rest, q)) && rest@
                    == input@.skip(k) && q == p),
                Err(e) => r == Err::<(&[u8], Point), TextError>(e),
            },
    {
        let (rest, x) = parse_numbers(input)?;
        let ghost k1 = number_spec(input@)->Ok_0.0;
        if rest.len() == 0 || rest[0] != 0x2c {
            assert(rest@.len() > 0 ==> rest@[0] == input@[k1]);
            return Err(TextError::MissingComma);
        }
        let after = vstd::slice::slice_subrange(rest, 1, rest.len());
        assert(after@ =~= input@.skip(k1 + 1));
        let (rest2, y) = parse_numbers(after)?;
        assert(rest2@ =~= input@.skip(k1 + 1 + number_spec(after@)->Ok_0.0));
        Ok((rest2, Point { x, y }))
    }
}

impl Line {
    /// Reads a line written `x0,y0 -> x1,y1` from the front of `input`.
    pub fn parse(input: &[u8]) -> (r: Result<(&[u8], Line), TextError>)
        ensures
            match line_spec(input@) {
                Ok((k, l)) => 0 < k <= input@.len() && (r matches Ok((rest, m)) && rest@
                    == input@.skip(k) && m == l),
                Err(e) => r == Err::<(&[u8], Line), TextError>(e),
            },
    {
        let (rest, p0) = Point::parse(input)?;
        let ghost k1 = point_spec(input@)->Ok_0.0;
        if rest.len() < 4 || rest[0] != 0x20 || rest[1] != 0x2d || rest[2] != 0x3e || rest[3]
            != 0x20 {
            assert(rest@.len() >= 4 ==> rest@.subrange(0, 4) =~= input@.subrange(k1, k1 + 4));
            return Err(TextError::MissingArrow);
        }
        assert(input@.subrange(k1, k1 + 4) =~= seq![0x20u8, 0x2du8, 0x3eu8, 0x20u8]);
        let after = vstd::slice::slice_subrange(rest, 4, rest.len());
        assert(after@ =~= input@.skip(k1 + 4));
        let (rest2, p1) = Point::parse(after)?;
        assert(rest2@ =~= input@.skip(k1 + 4 + point_spec(after@)->Ok_0.0));
        Ok((rest2, Line(p0, p1)))
    }
}

/// Reads lines separated by line endings: at least one line, then each line
/// that follows a line ending, up to the first place where that fails. What
/// is left after the last line is ignored.
pub fn parse_input(s: &[u8]) -> (r: Result<Vec<Line>, TextError>)
    ensures
        match line_spec(s@) {
            Ok((k, l)) => r matches Ok(v) && v@ == seq![l] + more_lines(s@.skip(k)),
            Err(e) => r == Err::<Vec<Line>, TextError>(e),
        },
{
    let (first_rest, first) = Line::parse(s)?;
    let mut lines: Vec<Line> = Vec::new();
    lines.push(first);
    let mut cur = first_rest;
    let ghost target = seq![first] + more_lines(first_rest@);
    assert(lines@ + more_lines(cur@) =~= target);
    loop
        invariant
            lines@ + more_lines(cur@) == target,
        ensures
            lines@ == target,
        decreases cur@.len(),
    {
        let e: usize = if cur.len() >= 1 && cur[0] == 0x0a {
            1
        } else if cur.len() >= 2 && cur[0] == 0x0d && cur[1] == 0x0a {
            2
        } else {
            0
        };
        assert(e == line_ending_len(cur@));
        if e == 0 {
            assert(lines@ =~= target);
            break ;
        }
        let after = vstd::slice::slice_subrange(cur, e, cur.len());
        assert(after@ =~= cur@.skip(e as int));
        match Line::parse(after) {
            Ok((rest, l)) => {
                let ghost k = line_spec(after@)->Ok_0.0;
                assert(rest@ =~= cur@.skip(e + k));
                assert(more_lines(cur@) == seq![l] + more_lines(rest@));
                lines.push(l);
                assert(lines@ + more_lines(rest@) =~= target);
                cur = rest;
            },
            Err(_) => {
                assert(more_lines(cur@) == Seq::<Line>::empty());
                assert(lines@ =~= target);
                break ;
            },
        }
    }
    Ok(lines)
}

} // verus!
