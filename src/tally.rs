//! Counting the lines whose password satisfies the policy on the same line.
use vstd::prelude::*;
use vstd::string::StringSliceAdditionalSpecFns;
use vstd::utf8::encode_utf8;
use crate::line::{parse_line, parse_range_line, positional_line, range_line, ParseError};
use crate::policy::{count_in_range, exactly_one_holds};

verus! {

/// How the two bounds of a line are read.
#[derive(PartialEq, Eq, Debug, Clone, Copy, Structural)]
pub enum PolicyKind {
    /// As one-based positions, exactly one of which must hold the target.
    Positions,
    /// As an inclusive range for the number of times the target occurs.
    Range,
}

/// Whether the password of line `b` satisfies its policy, or why the line
/// cannot be read.
pub open spec fn line_verdict(kind: PolicyKind, b: Seq<u8>) -> Result<bool, ParseError> {
    match kind {
        PolicyKind::Positions => match positional_line(b) {
            Ok((p, password)) => Ok(
                exactly_one_holds(encode_utf8(password), p.byte, p.positions@[0] as int, p.positions@[1] as int),
            ),
            Err(e) => Err(e),
        },
        PolicyKind::Range => match range_line(b) {
            Ok((p, password)) => Ok(count_in_range(encode_utf8(password), p.byte, p.min as int, p.max as int)),
            Err(e) => Err(e),
        },
    }
}

/// The number of lines whose password satisfies their policy, or the index
/// of the first line that cannot be read and why.
pub open spec fn tally(kind: PolicyKind, lines: Seq<Seq<u8>>) -> Result<nat, (int, ParseError)>
    decreases lines.len(),
{
    if lines.len() == 0 {
        Ok(0)
    } else {
        match tally(kind, lines.drop_last()) {
            Err(e) => Err(e),
            Ok(n) => match line_verdict(kind, lines.last()) {
                Err(e) => Err((lines.len() - 1, e)),
                Ok(valid) => Ok(
                    n + if valid {
                        1nat
                    } else {
                        0nat
                    },
                ),
            },
        }
    }
}

/// The bytes of each line.
pub open spec fn line_bytes(lines: Seq<&str>) -> Seq<Seq<u8>> {
    lines.map_values(|l: &str| l.spec_bytes())
}

/// Once a line cannot be read, the lines after it do not change the outcome.
proof fn lemma_error_stays(kind: PolicyKind, lines: Seq<Seq<u8>>, k: int)
    requires
        0 <= k <= lines.len(),
        tally(kind, lines.subrange(0, k)) is Err,
    ensures
        tally(kind, lines) == tally(kind, lines.subrange(0, k)),
    decreases lines.len(),
{
    if k < lines.len() {
        assert(lines.drop_last().subrange(0, k) =~= lines.subrange(0, k));
        lemma_error_stays(kind, lines.drop_last(), k);
    } else {
        assert(lines.subrange(0, k) =~= lines);
    }
}

/// Reads one line and checks its password against its policy.
pub fn check_line(kind: PolicyKind, line: &str) -> (r: Result<bool, ParseError>)
    ensures
        r == line_verdict(kind, line.spec_bytes()),
{
    match kind {
        PolicyKind::Positions => {
            let (policy, password) = parse_line(line)?;
            Ok(policy.is_valid(password))
        },
        PolicyKind::Range => {
            let (policy, password) = parse_range_line(line)?;
            Ok(policy.is_valid(password))
        },
    }
}

/// Counts the lines whose password satisfies their policy. The first line
/// that cannot be read stops the count: its index and its error come back.
pub fn count_valid(kind: PolicyKind, lines: &[&str]) -> (r: Result<usize, (usize, ParseError)>)
    ensures
        match r {
            Ok(n) => tally(kind, line_bytes(lines@)) == Ok::<nat, (int, ParseError)>(n as nat),
            Err((i, e)) => tally(kind, line_bytes(lines@)) == Err::<nat, _>((i as int, e)),
        },
{
    let ghost all = line_bytes(lines@);
    let mut n: usize = 0;
    let mut i: usize = 0;
    while i < lines.len()
        invariant
            i <= lines@.len(),
            all == line_bytes(lines@),
            n <= i,
            tally(kind, all.subrange(0, i as int)) == Ok::<nat, (int, ParseError)>(n as nat),
        decreases lines@.len() - i,
    {
        let ghost done = all.subrange(0, i + 1);
        proof {
            assert(done.drop_last() =~= all.subrange(0, i as int));
            assert(done.last() == lines@[i as int].spec_bytes());
        }
        match check_line(kind, lines[i]) {
            Err(e) => {
                proof {
                    lemma_error_stays(kind, all, i + 1);
                }
                return Err((i, e));
            },
            Ok(valid) => {
                if valid {
                    n = n + 1;
                }
            },
        }
        i = i + 1;
    }
    proof {
        assert(all.subrange(0, i as int) =~= all);
    }
    Ok(n)
}

} // verus!
