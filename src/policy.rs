//! The two kinds of policy and the rules that check a password against them.
use vstd::prelude::*;
use vstd::string::StringSliceAdditionalSpecFns;

verus! {

/// True when position `i` exists in `s` and holds the byte `b`.
/// A position past the end holds nothing, so it never matches.
pub open spec fn holds_at(s: Seq<u8>, i: int, b: u8) -> bool {
    0 <= i < s.len() && s[i] == b
}

/// The rule of a positional policy: exactly one of the two positions holds `b`.
pub open spec fn exactly_one_holds(s: Seq<u8>, b: u8, first: int, second: int) -> bool {
    holds_at(s, first, b) != holds_at(s, second, b)
}

/// How many bytes of `s` equal `b`.
pub open spec fn occurrences(s: Seq<u8>, b: u8) -> nat
    decreases s.len(),
{
    if s.len() == 0 {
        0
    } else {
        occurrences(s.drop_last(), b) + if s.last() == b {
            1nat
        } else {
            0nat
        }
    }
}

/// The rule of a range policy: `b` occurs between `min` and `max` times, both included.
pub open spec fn count_in_range(s: Seq<u8>, b: u8, min: int, max: int) -> bool {
    min <= occurrences(s, b) <= max
}

/// A policy that names two zero-based byte positions of the password: exactly
/// one of them must hold `byte`.
#[derive(PartialEq, Eq, Debug, Clone, Copy)]
pub struct PasswordPolicy {
    pub byte: u8,
    pub positions: [usize; 2],
}

impl PasswordPolicy {
    /// True when exactly one of the two positions of `password` holds the
    /// policy's byte. A position at or past the end of the password does not
    /// hold it, so the check never fails on a short password.
    pub fn is_valid(&self, password: &str) -> (r: bool)
        ensures
            r == exactly_one_holds(
                password.spec_bytes(),
                self.byte,
                self.positions@[0] as int,
                self.positions@[1] as int,
            ),
    {
        let bytes = password.as_bytes();
        let first = self.positions[0];
        let second = self.positions[1];
        let at_first = first < bytes.len() && bytes[first] == self.byte;
        let at_second = second < bytes.len() && bytes[second] == self.byte;
        at_first != at_second
    }
}

/// A policy that bounds how often `byte` occurs in the password, from `min` to
/// `max`, both included. A policy with `min > max` is accepted and no password
/// satisfies it.
#[derive(PartialEq, Eq, Debug, Clone, Copy)]
pub struct RangePolicy {
    pub byte: u8,
    pub min: usize,
    pub max: usize,
}

/// Counts the bytes of `bytes` that equal `b`.
fn count_byte(bytes: &[u8], b: u8) -> (n: usize)
    ensures
        n == occurrences(bytes@, b),
{
    let mut n: usize = 0;
    let mut i: usize = 0;
    while i < bytes.len()
        invariant
            i <= bytes@.len(),
            n == occurrences(bytes@.subrange(0, i as int), b),
            n <= i,
        decreases bytes@.len() - i,
    {
        proof {
            let next = bytes@.subrange(0, i + 1);
            assert(next.drop_last() =~= bytes@.subrange(0, i as int));
        }
        if bytes[i] == b {
            n = n + 1;
        }
        i = i + 1;
    }
    assert(bytes@.subrange(0, i as int) =~= bytes@);
    n
}

impl RangePolicy {
    /// True when the number of bytes of `password` equal to the policy's byte
    /// lies between `min` and `max`, both included.
    pub fn is_valid(&self, password: &str) -> (r: bool)
        ensures
            r == count_in_range(password.spec_bytes(), self.byte, self.min as int, self.max as int),
    {
        let n = count_byte(password.as_bytes(), self.byte);
        self.min <= n && n <= self.max
    }
}

/// An empty password satisfies no positional policy, and satisfies a range
/// policy exactly when that policy's minimum is zero.
pub proof fn lemma_empty_password(positional: PasswordPolicy, range: RangePolicy)
    ensures
        !exactly_one_holds(
            Seq::<u8>::empty(),
            positional.byte,
            positional.positions@[0] as int,
            positional.positions@[1] as int,
        ),
        count_in_range(Seq::<u8>::empty(), range.byte, range.min as int, range.max as int)
            <==> range.min == 0,
{
    assert(occurrences(Seq::<u8>::empty(), range.byte) == 0);
}

} // verus!
