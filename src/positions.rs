//! Single-line source positions, in codepoint units.
use vstd::prelude::*;

verus! {

/// A zero-based line number in a source file.
#[derive(Clone, Copy, Debug, PartialEq, Eq, Hash, Structural)]
pub struct LineNumber(pub usize);

/// A region of one line: columns `start_col` up to, not including,
/// `end_col`.
#[derive(Clone, Copy, Debug, PartialEq, Eq, Hash, Structural)]
pub struct SingleLineSpan {
    pub line: LineNumber,
    pub start_col: usize,
    pub end_col: usize,
}

/// The decimal digit `d`.
pub open spec fn digit_char(d: nat) -> char {
    seq!['0', '1', '2', '3', '4', '5', '6', '7', '8', '9'][d as int]
}

/// `n` in decimal, without sign or padding.
pub open spec fn decimal_text(n: nat) -> Seq<char>
    decreases n,
{
    if n < 10 {
        seq![digit_char(n)]
    } else {
        decimal_text(n / 10).push(digit_char(n % 10))
    }
}

/// Relies on the `Display` of `usize` (through `to_string`): the number in
/// decimal digits, with no sign or padding.
#[verifier::external_body]
pub(crate) fn decimal(n: usize) -> (r: String)
    ensures
        r@ == decimal_text(n as nat),
{
    n.to_string()
}

/// A compact description of a list of spans: "-" for none,
/// "line:start-end" for one, "line:start-line:end" from the first to the
/// last otherwise.
pub open spec fn spans_text(pos: Seq<SingleLineSpan>) -> Seq<char> {
    if pos.len() == 0 {
        "-"@
    } else if pos.len() == 1 {
        decimal_text(pos[0].line.0 as nat) + ":"@ + decimal_text(pos[0].start_col as nat) + "-"@
            + decimal_text(pos[0].end_col as nat)
    } else {
        decimal_text(pos[0].line.0 as nat) + ":"@ + decimal_text(pos[0].start_col as nat) + "-"@
            + decimal_text(pos.last().line.0 as nat) + ":"@ + decimal_text(pos.last().end_col as nat)
    }
}

/// Describe a list of spans compactly, for debugging.
pub fn dbg_pos(pos: &[SingleLineSpan]) -> (r: String)
    ensures
        r@ == spans_text(pos@),
{
    let mut res = String::new();
    if pos.len() == 0 {
        res.append("-");
        assert(res@ =~= "-"@);
        return res;
    }
    let first = pos[0];
    let last = pos[pos.len() - 1];
    res.append(decimal(first.line.0).as_str());
    res.append(":");
    res.append(decimal(first.start_col).as_str());
    res.append("-");
    if pos.len() == 1 {
        res.append(decimal(first.end_col).as_str());
    } else {
        res.append(decimal(last.line.0).as_str());
        res.append(":");
        res.append(decimal(last.end_col).as_str());
    }
    assert(res@ =~= spans_text(pos@));
    res
}

} // verus!
