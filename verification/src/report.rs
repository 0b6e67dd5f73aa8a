//! The lines that tell how a search goes and how it ended.

use vstd::prelude::*;
use vstd::string::{StringExecFns, StrSliceExecFns};
use num_format::{Locale, ToFormattedString};
use crate::solver::Node;
use crate::text::{board_text, decimal, digit, padded, push_decimal, push_spaces};

verus! {

/// The width of the column in which a count is shown.
pub const COLUMN: usize = 12;

/// The decimal digits of `v` in groups of three, with a comma between the
/// groups.
pub open spec fn grouped(v: nat) -> Seq<char>
    decreases v,
{
    if v < 1000 {
        decimal(v)
    } else {
        grouped(v / 1000) + seq![
            ',',
            digit((v / 100 % 10) as int),
            digit((v / 10 % 10) as int),
            digit((v % 10) as int),
        ]
    }
}

/// The text of a count in its column.
pub open spec fn column(v: nat) -> Seq<char> {
    padded(grouped(v), COLUMN as int)
}

/// Calls `to_formatted_string` of `num_format` with the English locale. That
/// locale separates groups of three digits by a comma; the contract says that
/// the result is the decimal digits of `n` grouped so.
#[verifier::external_body]
fn group_digits(n: usize) -> (s: String)
    ensures
        s@ == grouped(n as nat),
{
    n.to_formatted_string(&Locale::en)
}

/// The count `n` with its digits grouped, at the right end of its column.
pub fn count_column(n: usize) -> (s: String)
    ensures
        s@ == column(n as nat),
{
    let digits: String = group_digits(n);
    let len: usize = digits.as_str().unicode_len();
    let mut s = String::new();
    if len < COLUMN {
        push_spaces(&mut s, COLUMN - len);
    } else {
        push_spaces(&mut s, 0);
    }
    s.append(digits.as_str());
    assert(s@ =~= column(n as nat));
    s
}

/// Appends `label` and the column of the count `n` to `out`.
fn push_count(out: &mut String, label: &str, n: usize)
    ensures
        final(out)@ == old(out)@ + label@ + column(n as nat),
{
    out.append(label);
    let shown: String = count_column(n);
    out.append(shown.as_str());
}

/// The text of the progress line.
pub open spec fn progress_text(
    index: nat,
    open: nat,
    open_sorted: nat,
    open_deleted: nat,
    closed: nat,
) -> Seq<char> {
    "\u{1b}[1A';[2K;\rindex: "@ + column(index) + " | open: "@ + column(open) + " | open_sorted: "@
        + column(open_sorted) + " | open_deleted: "@ + column(open_deleted) + " | closed: "@
        + column(closed)
}

/// The line that tells how a search goes: the number of nodes expanded, of
/// live nodes in the frontier, of nodes in its priority structure, of
/// tombstones among these, and of closed boards.
pub fn progress_line(
    index: usize,
    open: usize,
    open_sorted: usize,
    open_deleted: usize,
    closed: usize,
) -> (s: String)
    ensures
        s@ == progress_text(
            index as nat,
            open as nat,
            open_sorted as nat,
            open_deleted as nat,
            closed as nat,
        ),
{
    let mut s = String::new();
    assert(s@ + "\u{1b}[1A';[2K;\rindex: "@ =~= "\u{1b}[1A';[2K;\rindex: "@);
    push_count(&mut s, "\u{1b}[1A';[2K;\rindex: ", index);
    push_count(&mut s, " | open: ", open);
    push_count(&mut s, " | open_sorted: ", open_sorted);
    push_count(&mut s, " | open_deleted: ", open_deleted);
    push_count(&mut s, " | closed: ", closed);
    s
}

/// The text of the lines that sum up a solved search.
pub open spec fn result_text(evaluated: nat, peak: nat, moves: nat) -> Seq<char> {
    "----- Results -----\nStates evalled:       "@ + column(evaluated) + "\nMax states in memory: "@
        + column(peak) + "\nX moves needed:       "@ + column(moves) + "\nVisualization: \n"@
}

/// The lines that sum up a solved search: the number of nodes expanded, the
/// largest number of open and closed nodes held, and the number of moves.
pub fn result_lines(evaluated: usize, peak: usize, moves: usize) -> (s: String)
    ensures
        s@ == result_text(evaluated as nat, peak as nat, moves as nat),
{
    let mut s = String::new();
    assert(s@ + "----- Results -----\nStates evalled:       "@
        =~= "----- Results -----\nStates evalled:       "@);
    push_count(&mut s, "----- Results -----\nStates evalled:       ", evaluated);
    push_count(&mut s, "\nMax states in memory: ", peak);
    push_count(&mut s, "\nX moves needed:       ", moves);
    s.append("\nVisualization: \n");
    s
}

/// The text of one step of a solution.
pub open spec fn step_text(node: Node) -> Seq<char> {
    "f("@ + decimal(node.f as nat) + ") = h("@ + decimal(node.g as nat) + ") + g("@ + decimal(
        node.h as nat,
    ) + ")\n"@ + board_text(node.board.data@, node.board.n as int, node.board.data@.len() as int)
        + "\n"@
}

/// One step of a solution: a line with the node's costs `f`, `g` and `h`, in
/// this order, and the node's board.
pub fn step_lines(node: &Node) -> (s: String)
    requires
        node.board.n > 0,
    ensures
        s@ == step_text(*node),
{
    let mut s = String::new();
    assert(s@ + "f("@ =~= "f("@);
    s.append("f(");
    push_decimal(&mut s, node.f);
    s.append(") = h(");
    push_decimal(&mut s, node.g);
    s.append(") + g(");
    push_decimal(&mut s, node.h);
    s.append(")\n");
    let board: String = node.board.text();
    s.append(board.as_str());
    s.append("\n");
    s
}

} // verus!
