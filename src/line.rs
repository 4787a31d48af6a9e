//! The line format `<low>-<high> <target>: <password>`.
//!
//! `<low>` and `<high>` are decimal numbers, `<target>` is one lowercase ASCII
//! letter, and `<password>` is what follows the `": "` after the target, with
//! the whitespace (Unicode's White_Space) at its start and end removed; it may
//! be empty and may hold any other text.
//! A line is cut at its first `": "`, then at the first space before that,
//! then at the first `-` before that; the first cut that cannot be made, or
//! the first part that is malformed, decides the error.
use vstd::prelude::*;
use vstd::string::{StrSliceExecFns, StringSliceAdditionalSpecFns};
use vstd::utf8::{
    decode_utf8, encode_utf8, encode_utf8_decode_utf8, encode_utf8_valid_utf8, is_char_boundary,
    length_of_first_scalar, pop_first_scalar, valid_utf8,
};
use crate::policy::{PasswordPolicy, RangePolicy};

verus! {

// The ASCII codes that the line format uses.
pub const ZERO: u8 = 48;
pub const NINE: u8 = 57;
pub const LOWER_A: u8 = 97;
pub const LOWER_Z: u8 = 122;
pub const DASH: u8 = 45;
pub const SPACE: u8 = 32;
pub const COLON: u8 = 58;

/// Why a line could not be read as a policy and a password.
#[derive(PartialEq, Eq, Debug, Clone, Copy, Structural)]
pub enum ParseError {
    /// The line holds no `": "` to end the policy and start the password, or
    /// nothing stands before its first `": "`.
    ExpectedSubject,
    /// The policy starts with a space: the bounds are missing.
    ExpectedBounds,
    /// The bounds are not followed by a space and a target.
    ExpectedTarget,
    /// The text before the first `-` of the bounds is not a number that fits
    /// in `usize`, or, for a positional policy, it is zero (positions count
    /// from one).
    InvalidLowBound,
    /// The bounds hold no `-`, or the text after it is not a number that fits
    /// in `usize`, or, for a positional policy, it is zero.
    InvalidHighBound,
    /// The target is not a single lowercase ASCII letter.
    InvalidTarget,
}

/// An ASCII decimal digit.
pub open spec fn is_digit(c: u8) -> bool {
    ZERO <= c <= NINE
}

/// An ASCII lowercase letter.
pub open spec fn is_lower(c: u8) -> bool {
    LOWER_A <= c <= LOWER_Z
}

/// The first index in `i..end` where `b` holds `x`, or `end` if there is none.
pub open spec fn first_in(b: Seq<u8>, x: u8, i: int, end: int) -> int
    decreases end - i,
{
    if i >= end {
        end
    } else if b[i] == x {
        i
    } else {
        first_in(b, x, i + 1, end)
    }
}

/// The first index from `i` on where `b` holds `": "`, or the length of `b`
/// if there is none.
pub open spec fn first_delimiter(b: Seq<u8>, i: int) -> int
    decreases b.len() - i,
{
    if i + 1 >= b.len() {
        b.len() as int
    } else if b[i] == COLON && b[i + 1] == SPACE {
        i
    } else {
        first_delimiter(b, i + 1)
    }
}

/// The number that the decimal digits `d` write, most significant first.
pub open spec fn digits_value(d: Seq<u8>) -> nat
    decreases d.len(),
{
    if d.len() == 0 {
        0
    } else {
        digits_value(d.drop_last()) * 10 + (d.last() - ZERO) as nat
    }
}

/// True when `b[from..to]` is a nonempty run of decimal digits that writes a
/// number no larger than `usize::MAX`.
pub open spec fn is_number(b: Seq<u8>, from: int, to: int) -> bool {
    &&& from < to
    &&& forall|k: int| from <= k < to ==> is_digit(#[trigger] b[k])
    &&& digits_value(b.subrange(from, to)) <= usize::MAX
}

/// What a line holds, before the bounds are read as positions or as a range:
/// the low bound, the high bound, the target and where the password starts.
///
/// The line is cut at its first `": "` into policy and password, the policy
/// at its first space into bounds and target, and the bounds at their first
/// `-` into low and high.
pub open spec fn line_fields(b: Seq<u8>) -> Result<(nat, nat, u8, int), ParseError> {
    let colon = first_delimiter(b, 0);
    let space = first_in(b, SPACE, 0, colon);
    let dash = first_in(b, DASH, 0, space);
    if colon >= b.len() || colon == 0 {
        Err(ParseError::ExpectedSubject)
    } else if space == 0 {
        Err(ParseError::ExpectedBounds)
    } else if space + 1 >= colon {
        Err(ParseError::ExpectedTarget)
    } else if !is_number(b, 0, dash) {
        Err(ParseError::InvalidLowBound)
    } else if dash >= space || !is_number(b, dash + 1, space) {
        Err(ParseError::InvalidHighBound)
    } else if space + 2 != colon || !is_lower(b[space + 1]) {
        Err(ParseError::InvalidTarget)
    } else {
        Ok(
            (
                digits_value(b.subrange(0, dash)),
                digits_value(b.subrange(dash + 1, space)),
                b[space + 1],
                colon + 2,
            ),
        )
    }
}

/// Whitespace as Unicode's White_Space property has it: tab, line feed,
/// line tabulation, form feed, carriage return, space, next line, no-break
/// space, ogham space mark, the spaces from en quad to hair space, line
/// separator, paragraph separator, narrow no-break space, medium
/// mathematical space and ideographic space.
pub open spec fn is_white(c: char) -> bool {
    let u = c as u32;
    ||| 0x9 <= u <= 0xd
    ||| u == 0x20
    ||| u == 0x85
    ||| u == 0xa0
    ||| u == 0x1680
    ||| 0x2000 <= u <= 0x200a
    ||| u == 0x2028
    ||| u == 0x2029
    ||| u == 0x202f
    ||| u == 0x205f
    ||| u == 0x3000
}

/// `s` without the whitespace at its start.
pub open spec fn trim_start(s: Seq<char>) -> Seq<char>
    decreases s.len(),
{
    if s.len() > 0 && is_white(s[0]) {
        trim_start(s.drop_first())
    } else {
        s
    }
}

/// `s` without the whitespace at its end.
pub open spec fn trim_end(s: Seq<char>) -> Seq<char>
    decreases s.len(),
{
    if s.len() > 0 && is_white(s.last()) {
        trim_end(s.drop_last())
    } else {
        s
    }
}

/// `s` without the whitespace at its start and at its end.
pub open spec fn trim(s: Seq<char>) -> Seq<char> {
    trim_end(trim_start(s))
}

/// The password of a line whose password starts at byte `start`: the text
/// from there on, without the whitespace at its start and end.
pub open spec fn password_at(b: Seq<u8>, start: int) -> Seq<char> {
    trim(decode_utf8(b.subrange(start, b.len() as int)))
}

/// A line read with its bounds as one-based positions.
pub open spec fn positional_line(b: Seq<u8>) -> Result<(PasswordPolicy, Seq<char>), ParseError> {
    match line_fields(b) {
        Err(e) => Err(e),
        Ok((low, high, byte, start)) => {
            if low == 0 {
                Err(ParseError::InvalidLowBound)
            } else if high == 0 {
                Err(ParseError::InvalidHighBound)
            } else {
                Ok(
                    (
                        PasswordPolicy {
                            byte,
                            positions: [(low - 1) as usize, (high - 1) as usize],
                        },
                        password_at(b, start),
                    ),
                )
            }
        },
    }
}

/// A line read with its bounds as an inclusive range of counts.
pub open spec fn range_line(b: Seq<u8>) -> Result<(RangePolicy, Seq<char>), ParseError> {
    match line_fields(b) {
        Err(e) => Err(e),
        Ok((low, high, byte, start)) => Ok(
            (
                RangePolicy { byte, min: low as usize, max: high as usize },
                password_at(b, start),
            ),
        ),
    }
}

/// A run of digits writes a number at least as large as any of its prefixes.
proof fn lemma_value_grows(d: Seq<u8>, k: int)
    requires
        0 <= k <= d.len(),
    ensures
        digits_value(d.subrange(0, k)) <= digits_value(d),
    decreases d.len(),
{
    if k < d.len() {
        assert(d.drop_last().subrange(0, k) =~= d.subrange(0, k));
        lemma_value_grows(d.drop_last(), k);
        assert(digits_value(d.drop_last()) <= digits_value(d.drop_last()) * 10) by (nonlinear_arith);
    } else {
        assert(d.subrange(0, k) =~= d);
    }
}

/// The index of the first `x` in `b[..end]`, or `end`.
fn find_byte(b: &[u8], x: u8, end: usize) -> (r: usize)
    requires
        end <= b@.len(),
    ensures
        r == first_in(b@, x, 0, end as int),
        r <= end,
        r < end ==> b@[r as int] == x,
{
    let mut i: usize = 0;
    while i < end
        invariant
            i <= end <= b@.len(),
            first_in(b@, x, 0, end as int) == first_in(b@, x, i as int, end as int),
        decreases end - i,
    {
        if b[i] == x {
            return i;
        }
        i = i + 1;
    }
    end
}

/// The index of the first `": "` in `b`, or its length.
fn find_delimiter(b: &[u8]) -> (r: usize)
    ensures
        r == first_delimiter(b@, 0),
        r <= b@.len(),
        r < b@.len() ==> r + 1 < b@.len() && b@[r as int] == COLON && b@[r + 1] == SPACE,
{
    let mut i: usize = 0;
    while i < b.len() && b.len() - i > 1
        invariant
            i <= b@.len(),
            first_delimiter(b@, 0) == first_delimiter(b@, i as int),
        decreases b@.len() - i,
    {
        if b[i] == COLON && b[i + 1] == SPACE {
            return i;
        }
        i = i + 1;
    }
    b.len()
}

/// Reads `b[from..to]` as a decimal number, or `None` when it is not one or
/// it does not fit in `usize`.
fn read_number(b: &[u8], from: usize, to: usize) -> (r: Option<usize>)
    requires
        from <= to <= b@.len(),
    ensures
        match r {
            Some(v) => is_number(b@, from as int, to as int) && v == digits_value(
                b@.subrange(from as int, to as int),
            ),
            None => !is_number(b@, from as int, to as int),
        },
{
    if from == to {
        return None;
    }
    let mut i: usize = from;
    let mut v: usize = 0;
    while i < to
        invariant
            from <= i <= to <= b@.len(),
            forall|k: int| from <= k < i ==> is_digit(#[trigger] b@[k]),
            v == digits_value(b@.subrange(from as int, i as int)),
        decreases to - i,
    {
        if b[i] < ZERO || b[i] > NINE {
            return None;
        }
        let d = (b[i] - ZERO) as usize;
        proof {
            assert(b@.subrange(from as int, i + 1).drop_last() =~= b@.subrange(
                from as int,
                i as int,
            ));
        }
        if v > (usize::MAX - d) / 10 {
            proof {
                let all = b@.subrange(from as int, to as int);
                assert(all.subrange(0, i + 1 - from) =~= b@.subrange(from as int, i + 1));
                lemma_value_grows(all, i + 1 - from);
                assert(v * 10 + d > usize::MAX) by (nonlinear_arith)
                    requires
                        v > (usize::MAX - d) / 10,
                        d <= 9,
                ;
            }
            return None;
        }
        v = v * 10 + d;
        i = i + 1;
    }
    Some(v)
}

/// Past a prefix of ASCII bytes, a well-formed UTF-8 text may be cut.
proof fn lemma_ascii_prefix_boundary(b: Seq<u8>, k: int)
    requires
        valid_utf8(b),
        0 <= k <= b.len(),
        forall|i: int| 0 <= i < k ==> #[trigger] b[i] < 0x80,
    ensures
        is_char_boundary(b, k),
    decreases k,
{
    if k > 0 {
        let rest = pop_first_scalar(b);
        assert(b[0] < 0x80);
        assert(length_of_first_scalar(b) == 1);
        assert forall|i: int| 0 <= i < k - 1 implies #[trigger] rest[i] < 0x80 by {
            assert(rest[i] == b[i + 1]);
        }
        lemma_ascii_prefix_boundary(rest, k - 1);
    }
}

/// The fields of a line, with the bounds as written.
struct Fields {
    low: usize,
    high: usize,
    byte: u8,
    start: usize,
}

/// Reads a line up to the start of its password.
fn read_fields(line: &str) -> (r: Result<Fields, ParseError>)
    ensures
        match r {
            Ok(f) => {
                &&& line_fields(line.spec_bytes()) == Ok::<_, ParseError>(
                    (f.low as nat, f.high as nat, f.byte, f.start as int),
                )
                &&& f.start <= line.spec_bytes().len()
                &&& forall|i: int| 0 <= i < f.start ==> #[trigger] line.spec_bytes()[i] < 0x80
            },
            Err(e) => line_fields(line.spec_bytes()) == Err::<(nat, nat, u8, int), _>(e),
        },
{
    let b = line.as_bytes();
    let ghost bs = b@;
    let colon = find_delimiter(b);
    if colon >= b.len() || colon == 0 {
        return Err(ParseError::ExpectedSubject);
    }
    let space = find_byte(b, SPACE, colon);
    if space == 0 {
        return Err(ParseError::ExpectedBounds);
    }
    if space + 1 >= colon {
        return Err(ParseError::ExpectedTarget);
    }
    let dash = find_byte(b, DASH, space);
    let low = match read_number(b, 0, dash) {
        Some(v) => v,
        None => return Err(ParseError::InvalidLowBound),
    };
    if dash >= space {
        return Err(ParseError::InvalidHighBound);
    }
    let high = match read_number(b, dash + 1, space) {
        Some(v) => v,
        None => return Err(ParseError::InvalidHighBound),
    };
    let byte = b[space + 1];
    if space + 2 != colon || byte < LOWER_A || byte > LOWER_Z {
        return Err(ParseError::InvalidTarget);
    }
    let start = colon + 2;
    proof {
        assert forall|i: int| 0 <= i < start implies #[trigger] bs[i] < 0x80 by {
            if i < dash {
                assert(is_digit(bs[i]));
            } else if dash < i < space {
                assert(is_digit(bs[i]));
            }
        }
    }
    Ok(Fields { low, high, byte, start })
}

/// The text of `line` from byte `start` on, without the whitespace at its
/// start and end.
fn trimmed_password(line: &str, start: usize) -> (r: &str)
    requires
        start <= line.spec_bytes().len(),
        forall|i: int| 0 <= i < start ==> #[trigger] line.spec_bytes()[i] < 0x80,
    ensures
        r@ == password_at(line.spec_bytes(), start as int),
{
    let ghost bs = line.spec_bytes();
    proof {
        encode_utf8_valid_utf8(line@);
        lemma_ascii_prefix_boundary(bs, start as int);
    }
    let (_, rest) = line.split_at(start);
    proof {
        encode_utf8_decode_utf8(rest@);
        assert(rest.spec_bytes() =~= bs.subrange(start as int, bs.len() as int));
    }
    trim_str(rest)
}

/// `s` without the whitespace at its start and end.
fn trim_str(s: &str) -> (r: &str)
    ensures
        r@ == trim(s@),
{
    let n = s.unicode_len();
    proof {
        assert(s@.subrange(0, n as int) =~= s@);
    }
    let mut i: usize = 0;
    while i < n && is_white_char(s.get_char(i))
        invariant
            i <= n,
            n == s@.len(),
            trim_start(s@) == trim_start(s@.subrange(i as int, n as int)),
        decreases n - i,
    {
        proof {
            assert(s@.subrange(i as int, n as int).drop_first() =~= s@.subrange(i + 1, n as int));
        }
        i = i + 1;
    }
    let mut j: usize = n;
    while j > i && is_white_char(s.get_char(j - 1))
        invariant
            i <= j <= n,
            n == s@.len(),
            trim_start(s@) == s@.subrange(i as int, n as int),
            trim_end(s@.subrange(i as int, n as int)) == trim_end(s@.subrange(i as int, j as int)),
        decreases j,
    {
        proof {
            assert(s@.subrange(i as int, j as int).drop_last() =~= s@.subrange(i as int, j - 1));
        }
        j = j - 1;
    }
    s.substring_char(i, j)
}

/// True when `c` is whitespace.
fn is_white_char(c: char) -> (r: bool)
    ensures
        r == is_white(c),
{
    let u = c as u32;
    (0x9 <= u && u <= 0xd) || u == 0x20 || u == 0x85 || u == 0xa0 || u == 0x1680 || (0x2000 <= u
        && u <= 0x200a) || u == 0x2028 || u == 0x2029 || u == 0x202f || u == 0x205f || u == 0x3000
}

/// Reads a line whose bounds are one-based positions, such as `1-3 a: abcde`:
/// the policy, with its positions made zero-based, and the password.
pub fn parse_line(line: &str) -> (r: Result<(PasswordPolicy, &str), ParseError>)
    ensures
        match r {
            Ok((policy, password)) => positional_line(line.spec_bytes()) == Ok::<_, ParseError>(
                (policy, password@),
            ),
            Err(e) => positional_line(line.spec_bytes()) == Err::<(PasswordPolicy, Seq<char>), _>(e),
        },
{
    let f = read_fields(line)?;
    if f.low == 0 {
        return Err(ParseError::InvalidLowBound);
    }
    if f.high == 0 {
        return Err(ParseError::InvalidHighBound);
    }
    let password = trimmed_password(line, f.start);
    let policy = PasswordPolicy { byte: f.byte, positions: [f.low - 1, f.high - 1] };
    Ok((policy, password))
}

/// Reads a line whose bounds are an inclusive range of counts, such as
/// `1-3 a: abcde`: the policy and the password.
pub fn parse_range_line(line: &str) -> (r: Result<(RangePolicy, &str), ParseError>)
    ensures
        match r {
            Ok((policy, password)) => range_line(line.spec_bytes()) == Ok::<_, ParseError>(
                (policy, password@),
            ),
            Err(e) => range_line(line.spec_bytes()) == Err::<(RangePolicy, Seq<char>), _>(e),
        },
{
    let f = read_fields(line)?;
    let password = trimmed_password(line, f.start);
    let policy = RangePolicy { byte: f.byte, min: f.low, max: f.high };
    Ok((policy, password))
}

/// The decimal digits of `n`, most significant first, without leading zeros.
pub open spec fn decimal(n: nat) -> Seq<u8>
    decreases n,
{
    if n < 10 {
        seq![(ZERO + n) as u8]
    } else {
        decimal(n / 10).push((ZERO + n % 10) as u8)
    }
}

/// The text of a line that states `policy`, up to its password: the
/// positions are written one-based.
pub open spec fn positional_text(policy: PasswordPolicy) -> Seq<u8> {
    decimal((policy.positions@[0] + 1) as nat) + seq![DASH] + decimal((policy.positions@[1] + 1) as nat)
        + seq![SPACE, policy.byte, COLON, SPACE]
}

/// The text of a line that states `policy`, up to its password.
pub open spec fn range_text(policy: RangePolicy) -> Seq<u8> {
    decimal(policy.min as nat) + seq![DASH] + decimal(policy.max as nat)
        + seq![SPACE, policy.byte, COLON, SPACE]
}

proof fn lemma_decimal(n: nat)
    ensures
        decimal(n).len() >= 1,
        forall|k: int| 0 <= k < decimal(n).len() ==> is_digit(#[trigger] decimal(n)[k]),
        digits_value(decimal(n)) == n,
    decreases n,
{
    if n < 10 {
        assert(decimal(n).drop_last() =~= Seq::<u8>::empty());
        assert(digits_value(Seq::<u8>::empty()) == 0);
        assert(decimal(n).last() - ZERO == n);
    } else {
        lemma_decimal(n / 10);
        assert(decimal(n).drop_last() =~= decimal(n / 10));
        assert(decimal(n).last() - ZERO == n % 10);
        assert(n == (n / 10) * 10 + n % 10);
        assert(digits_value(decimal(n)) == digits_value(decimal(n / 10)) * 10 + n % 10);
    }
}

proof fn lemma_first_in(b: Seq<u8>, x: u8, i: int, j: int, end: int)
    requires
        i <= j <= end,
        forall|k: int| i <= k < j ==> #[trigger] b[k] != x,
        j == end || b[j] == x,
    ensures
        first_in(b, x, i, end) == j,
    decreases j - i,
{
    if i < j {
        lemma_first_in(b, x, i + 1, j, end);
    }
}

proof fn lemma_first_delimiter(b: Seq<u8>, i: int, j: int)
    requires
        0 <= i <= j < b.len() - 1,
        forall|k: int| i <= k < j ==> #[trigger] b[k] != COLON,
        b[j] == COLON,
        b[j + 1] == SPACE,
    ensures
        first_delimiter(b, i) == j,
    decreases j - i,
{
    if i < j {
        lemma_first_delimiter(b, i + 1, j);
    }
}

/// A nonempty run of decimal digits that writes a number no larger than
/// `usize::MAX`.
pub open spec fn is_numeral(d: Seq<u8>) -> bool {
    &&& d.len() > 0
    &&& forall|k: int| 0 <= k < d.len() ==> is_digit(#[trigger] d[k])
    &&& digits_value(d) <= usize::MAX
}

/// The line `<low>-<high> <target>: <password>` with the bounds written as
/// the digits `low` and `high`.
pub open spec fn policy_line(low: Seq<u8>, high: Seq<u8>, target: u8, password: Seq<u8>) -> Seq<u8> {
    low + seq![DASH] + high + seq![SPACE, target, COLON, SPACE] + password
}

/// A line of the form `<low>-<high> <target>: <password>` is read into the
/// numbers that its bounds write, its target and where its password starts.
proof fn lemma_fields_of_policy_line(low: Seq<u8>, high: Seq<u8>, byte: u8, password: Seq<u8>)
    requires
        is_numeral(low),
        is_numeral(high),
        is_lower(byte),
    ensures
        line_fields(policy_line(low, high, byte, password)) == Ok::<_, ParseError>(
            (digits_value(low), digits_value(high), byte, (low.len() + high.len() + 5) as int),
        ),
{
    let b = policy_line(low, high, byte, password);
    let l = low.len() as int;
    let h = high.len() as int;
    assert forall|k: int| 0 <= k < l implies is_digit(#[trigger] b[k]) by {
        assert(b[k] == low[k]);
    }
    assert forall|k: int| l + 1 <= k < l + 1 + h implies is_digit(#[trigger] b[k]) by {
        assert(b[k] == high[k - l - 1]);
    }
    assert(b[l] == DASH);
    assert(b[l + 1 + h] == SPACE);
    assert(b[l + 2 + h] == byte);
    assert(b[l + 3 + h] == COLON);
    assert(b[l + 4 + h] == SPACE);
    lemma_first_delimiter(b, 0, l + h + 3);
    lemma_first_in(b, SPACE, 0, l + h + 1, l + h + 3);
    lemma_first_in(b, DASH, 0, l, l + h + 1);
    assert(b.subrange(0, l) =~= low);
    assert(b.subrange(l + 1, l + 1 + h) =~= high);
}

proof fn lemma_first_in_found(b: Seq<u8>, x: u8, i: int, end: int)
    requires
        i <= end,
    ensures
        i <= first_in(b, x, i, end) <= end,
        first_in(b, x, i, end) < end ==> b[first_in(b, x, i, end)] == x,
    decreases end - i,
{
    if i < end && b[i] != x {
        lemma_first_in_found(b, x, i + 1, end);
    }
}

proof fn lemma_first_delimiter_found(b: Seq<u8>, i: int)
    requires
        0 <= i,
    ensures
        i <= first_delimiter(b, i) || first_delimiter(b, i) == b.len(),
        first_delimiter(b, i) <= b.len(),
        first_delimiter(b, i) < b.len() ==> first_delimiter(b, i) + 1 < b.len() && b[first_delimiter(
            b,
            i,
        )] == COLON && b[first_delimiter(b, i) + 1] == SPACE,
    decreases b.len() - i,
{
    if i + 1 < b.len() && !(b[i] == COLON && b[i + 1] == SPACE) {
        lemma_first_delimiter_found(b, i + 1);
    }
}

/// Whenever a line's fields are read, the line has the form
/// `<low>-<high> <target>: <password>`, with the bounds written by numerals.
proof fn lemma_fields_have_form(b: Seq<u8>)
    requires
        line_fields(b) is Ok,
    ensures
        exists|low: Seq<u8>, high: Seq<u8>, byte: u8, password: Seq<u8>|
            {
                &&& is_numeral(low)
                &&& is_numeral(high)
                &&& is_lower(byte)
                &&& b == #[trigger] policy_line(low, high, byte, password)
                &&& line_fields(b) == Ok::<_, ParseError>(
                    (digits_value(low), digits_value(high), byte, (low.len() + high.len() + 5) as int),
                )
            },
{
    let colon = first_delimiter(b, 0);
    let space = first_in(b, SPACE, 0, colon);
    let dash = first_in(b, DASH, 0, space);
    lemma_first_delimiter_found(b, 0);
    lemma_first_in_found(b, SPACE, 0, colon);
    lemma_first_in_found(b, DASH, 0, space);
    let low = b.subrange(0, dash);
    let high = b.subrange(dash + 1, space);
    let password = b.subrange(colon + 2, b.len() as int);
    assert(b =~= policy_line(low, high, b[space + 1], password));
    lemma_fields_of_policy_line(low, high, b[space + 1], password);
}

/// A line is read as a positional policy exactly when it has the form
/// `<low>-<high> <target>: <password>`, where the bounds are numerals that
/// write numbers from one to `usize::MAX` and the target is a lowercase
/// letter; every other line is rejected with an error.
pub proof fn lemma_positional_grammar(b: Seq<u8>)
    ensures
        positional_line(b) is Ok <==> exists|low: Seq<u8>, high: Seq<u8>, byte: u8, password: Seq<u8>|
            {
                &&& is_numeral(low)
                &&& is_numeral(high)
                &&& digits_value(low) >= 1
                &&& digits_value(high) >= 1
                &&& is_lower(byte)
                &&& b == #[trigger] policy_line(low, high, byte, password)
            },
{
    if line_fields(b) is Ok {
        lemma_fields_have_form(b);
    }
    if exists|low: Seq<u8>, high: Seq<u8>, byte: u8, password: Seq<u8>|
        {
            &&& is_numeral(low)
            &&& is_numeral(high)
            &&& digits_value(low) >= 1
            &&& digits_value(high) >= 1
            &&& is_lower(byte)
            &&& b == #[trigger] policy_line(low, high, byte, password)
        } {
        let (low, high, byte, password) = choose|
            low: Seq<u8>,
            high: Seq<u8>,
            byte: u8,
            password: Seq<u8>,
        |
            {
                &&& is_numeral(low)
                &&& is_numeral(high)
                &&& digits_value(low) >= 1
                &&& digits_value(high) >= 1
                &&& is_lower(byte)
                &&& b == #[trigger] policy_line(low, high, byte, password)
            };
        lemma_fields_of_policy_line(low, high, byte, password);
    }
}

/// A line is read as a range policy exactly when it has the form
/// `<low>-<high> <target>: <password>`, where the bounds are numerals that
/// write numbers no larger than `usize::MAX` and the target is a lowercase
/// letter; every other line is rejected with an error.
pub proof fn lemma_range_grammar(b: Seq<u8>)
    ensures
        range_line(b) is Ok <==> exists|low: Seq<u8>, high: Seq<u8>, byte: u8, password: Seq<u8>|
            {
                &&& is_numeral(low)
                &&& is_numeral(high)
                &&& is_lower(byte)
                &&& b == #[trigger] policy_line(low, high, byte, password)
            },
{
    if line_fields(b) is Ok {
        lemma_fields_have_form(b);
    }
    if exists|low: Seq<u8>, high: Seq<u8>, byte: u8, password: Seq<u8>|
        {
            &&& is_numeral(low)
            &&& is_numeral(high)
            &&& is_lower(byte)
            &&& b == #[trigger] policy_line(low, high, byte, password)
        } {
        let (low, high, byte, password) = choose|
            low: Seq<u8>,
            high: Seq<u8>,
            byte: u8,
            password: Seq<u8>,
        |
            {
                &&& is_numeral(low)
                &&& is_numeral(high)
                &&& is_lower(byte)
                &&& b == #[trigger] policy_line(low, high, byte, password)
            };
        lemma_fields_of_policy_line(low, high, byte, password);
    }
}

/// Writing a positional policy as a line and reading that line back gives
/// the same policy and the same password, for every policy whose one-based
/// positions fit in `usize` and whose target is a lowercase letter, and every
/// password without whitespace at its start or end.
pub proof fn lemma_positional_round_trip(policy: PasswordPolicy, password: Seq<char>)
    requires
        policy.positions@[0] < usize::MAX,
        policy.positions@[1] < usize::MAX,
        is_lower(policy.byte),
        trim(password) == password,
    ensures
        positional_line(positional_text(policy) + encode_utf8(password)) == Ok::<_, ParseError>(
            (policy, password),
        ),
{
    let low = decimal((policy.positions@[0] + 1) as nat);
    let high = decimal((policy.positions@[1] + 1) as nat);
    lemma_decimal((policy.positions@[0] + 1) as nat);
    lemma_decimal((policy.positions@[1] + 1) as nat);
    let pw = encode_utf8(password);
    let b = positional_text(policy) + pw;
    assert(b =~= policy_line(low, high, policy.byte, pw));
    lemma_fields_of_policy_line(low, high, policy.byte, pw);
    assert(b.subrange((low.len() + high.len() + 5) as int, b.len() as int) =~= pw);
    encode_utf8_decode_utf8(password);
    let back = PasswordPolicy {
        byte: policy.byte,
        positions: [policy.positions@[0], policy.positions@[1]],
    };
    assert(back.positions =~= policy.positions);
    assert(back == policy);
}

/// Writing a range policy as a line and reading that line back gives the
/// same policy and the same password, for every policy whose target is a
/// lowercase letter, and every password without whitespace at its start or
/// end.
pub proof fn lemma_range_round_trip(policy: RangePolicy, password: Seq<char>)
    requires
        is_lower(policy.byte),
        trim(password) == password,
    ensures
        range_line(range_text(policy) + encode_utf8(password)) == Ok::<_, ParseError>(
            (policy, password),
        ),
{
    let low = decimal(policy.min as nat);
    let high = decimal(policy.max as nat);
    lemma_decimal(policy.min as nat);
    lemma_decimal(policy.max as nat);
    let pw = encode_utf8(password);
    let b = range_text(policy) + pw;
    assert(b =~= policy_line(low, high, policy.byte, pw));
    lemma_fields_of_policy_line(low, high, policy.byte, pw);
    assert(b.subrange((low.len() + high.len() + 5) as int, b.len() as int) =~= pw);
    encode_utf8_decode_utf8(password);
}

} // verus!
