//! The text form of a puzzle.
//!
//! A puzzle is written in lines. Lines that begin with `#` come first and are
//! skipped. The next line holds the size, a decimal number. Each line after
//! it holds one row: decimal labels separated by spaces, with anything from a
//! `#` on ignored. The rows end at the first line with nothing before its
//! `#`, or at the end of the text.

use vstd::prelude::*;
use crate::board::{Board, StateError, is_goal_table};

verus! {

/// The byte that ends a line.
pub const NEWLINE: u8 = 10;

/// The byte that separates labels.
pub const SPACE: u8 = 32;

/// The byte that starts a comment.
pub const HASH: u8 = 35;

/// The byte that may stand before a number.
pub const PLUS: u8 = 43;

/// The digit zero.
pub const ZERO: u8 = 48;

/// The digit nine.
pub const NINE: u8 = 57;

/// Why a text does not describe a board.
#[derive(Clone, Copy, PartialEq, Eq, Debug)]
pub enum FormatError {
    /// Every line is a comment.
    NoSize,
    /// The size line is not a decimal number that fits the machine.
    Size,
    /// Some label is not a decimal number up to 255.
    Tile,
    /// Some row does not hold as many labels as the size says: the number
    /// of labels found in the first such row, and the size.
    RowLength(usize, usize),
    /// The rows do not hold as many labels as the board has cells.
    Count,
    /// The size and the labels do not make a board.
    Board(StateError),
}

/// The first index from `from` on, below `end`, at which `mark` stands, or
/// `end` if it stands nowhere there.
pub open spec fn seek(text: Seq<u8>, from: int, end: int, mark: u8) -> int
    decreases end - from,
{
    if from >= end {
        end
    } else if text[from] == mark {
        from
    } else {
        seek(text, from + 1, end, mark)
    }
}

/// The value of the decimal digits between `from` and `to`, if there are
/// digits only.
pub open spec fn digits(text: Seq<u8>, from: int, to: int) -> Option<int>
    decreases to - from,
{
    if to <= from {
        Some(0)
    } else {
        match digits(text, from, to - 1) {
            Some(v) => if ZERO <= text[to - 1] <= NINE {
                Some(v * 10 + (text[to - 1] - ZERO))
            } else {
                None
            },
            None => None,
        }
    }
}

/// The number written between `from` and `to`: at least one decimal digit,
/// after a `+` or not, with a value of at most `limit`.
pub open spec fn number(text: Seq<u8>, from: int, to: int, limit: int) -> Option<int> {
    let start = if from < to && text[from] == PLUS {
        from + 1
    } else {
        from
    };
    if start >= to {
        None
    } else {
        match digits(text, start, to) {
            Some(v) => if v <= limit {
                Some(v)
            } else {
                None
            },
            None => None,
        }
    }
}

/// The labels written between `from` and `end`, separated by spaces.
pub open spec fn row(text: Seq<u8>, from: int, end: int) -> Option<Seq<u8>>
    decreases end - from,
{
    if from >= end {
        Some(Seq::empty())
    } else if text[from] == SPACE {
        row(text, from + 1, end)
    } else {
        let stop = seek(text, from + 1, end, SPACE);
        if stop <= from || stop > end {
            None
        } else {
            match number(text, from, stop, 255) {
                Some(v) => match row(text, stop, end) {
                    Some(rest) => Some(seq![v as u8] + rest),
                    None => None,
                },
                None => None,
            }
        }
    }
}

/// The labels of the rows written from the line that starts at `from` on,
/// for a board of size `n`.
pub open spec fn rows(text: Seq<u8>, from: int, n: int) -> Result<Seq<u8>, FormatError>
    decreases text.len() - from,
{
    let end = seek(text, from, text.len() as int, NEWLINE);
    let cut = seek(text, from, end, HASH);
    if cut <= from {
        Ok(Seq::empty())
    } else {
        match row(text, from, cut) {
            None => Err(FormatError::Tile),
            Some(r) => if r.len() != n {
                Err(FormatError::RowLength(r.len() as usize, n as usize))
            } else if end >= text.len() || end < from {
                Ok(r)
            } else {
                match rows(text, end + 1, n) {
                    Ok(rest) => Ok(r + rest),
                    Err(e) => Err(e),
                }
            },
        }
    }
}

/// The size written on the first line from `from` on that is no comment,
/// and the index at which the line after it starts, or -1 if no line
/// follows.
pub open spec fn header(text: Seq<u8>, from: int) -> Result<(int, int), FormatError>
    decreases text.len() - from,
{
    let end = seek(text, from, text.len() as int, NEWLINE);
    if from < text.len() && text[from] == HASH {
        if end >= text.len() || end < from {
            Err(FormatError::NoSize)
        } else {
            header(text, end + 1)
        }
    } else {
        match number(text, from, end, usize::MAX as int) {
            None => Err(FormatError::Size),
            Some(n) => Ok(
                (
                    n,
                    if end < text.len() {
                        end + 1
                    } else {
                        -1
                    },
                ),
            ),
        }
    }
}

/// The size and the labels that `text` describes.
pub open spec fn parsed(text: Seq<u8>) -> Result<(int, Seq<u8>), FormatError> {
    match header(text, 0) {
        Err(e) => Err(e),
        Ok((n, next)) => {
            let tiles = if next < 0 {
                Ok(Seq::empty())
            } else {
                rows(text, next, n)
            };
            match tiles {
                Err(e) => Err(e),
                Ok(t) => if t.len() != n * n {
                    Err(FormatError::Count)
                } else {
                    Ok((n, t))
                },
            }
        },
    }
}

/// Digits that have a value have one up to every index before, and it is no
/// larger.
pub proof fn lemma_digits_grow(text: Seq<u8>, from: int, mid: int, to: int)
    requires
        from <= mid <= to,
        digits(text, from, to).is_some(),
    ensures
        digits(text, from, mid).is_some(),
        0 <= digits(text, from, mid).unwrap() <= digits(text, from, to).unwrap(),
        forall|i: int| from <= i < to ==> ZERO <= #[trigger] text[i] <= NINE,
    decreases to - from,
{
    if to > from {
        if mid < to {
            lemma_digits_grow(text, from, mid, to - 1);
        } else {
            lemma_digits_grow(text, from, to - 1, to - 1);
        }
    }
}

/// The first index from `from` on, below `end`, at which `mark` stands.
fn find(text: &[u8], from: usize, end: usize, mark: u8) -> (r: usize)
    requires
        from <= end <= text@.len(),
    ensures
        r == seek(text@, from as int, end as int, mark),
        from <= r <= end,
{
    let mut i: usize = from;
    while i < end && text[i] != mark
        invariant
            from <= i <= end <= text@.len(),
            seek(text@, from as int, end as int, mark) == seek(text@, i as int, end as int, mark),
        decreases end - i,
    {
        i += 1;
    }
    i
}

/// The number written between `from` and `to`, if it is one of at most
/// `limit`.
fn read_number(text: &[u8], from: usize, to: usize, limit: usize) -> (r: Option<usize>)
    requires
        from <= to <= text@.len(),
    ensures
        match r {
            Some(v) => number(text@, from as int, to as int, limit as int) == Some(v as int),
            None => number(text@, from as int, to as int, limit as int).is_none(),
        },
{
    let start: usize = if from < to && text[from] == PLUS {
        from + 1
    } else {
        from
    };
    if start >= to {
        return None;
    }
    let mut v: usize = 0;
    let mut i: usize = start;
    while i < to
        invariant
            from <= start <= i <= to <= text@.len(),
            start < to,
            start == if from < to && text@[from as int] == PLUS {
                from + 1
            } else {
                from as int
            },
            digits(text@, start as int, i as int) == Some(v as int),
            v <= limit,
        decreases to - i,
    {
        let c: u8 = text[i];
        if c < ZERO || c > NINE {
            proof {
                if digits(text@, start as int, to as int).is_some() {
                    lemma_digits_grow(text@, start as int, to as int, to as int);
                }
            }
            return None;
        }
        let d: usize = (c - ZERO) as usize;
        if v > limit / 10 || d > limit - v * 10 {
            proof {
                if digits(text@, start as int, to as int).is_some() {
                    lemma_digits_grow(text@, start as int, i + 1, to as int);
                }
            }
            return None;
        }
        v = v * 10 + d;
        i += 1;
    }
    Some(v)
}

/// The labels written between `from` and `end`.
fn read_row(text: &[u8], from: usize, end: usize) -> (r: Option<Vec<u8>>)
    requires
        from <= end <= text@.len(),
    ensures
        match r {
            Some(labels) => row(text@, from as int, end as int) == Some(labels@),
            None => row(text@, from as int, end as int).is_none(),
        },
{
    let mut out: Vec<u8> = Vec::new();
    let mut i: usize = from;
    while i < end
        invariant
            from <= i <= end <= text@.len(),
            row(text@, from as int, end as int) == match row(text@, i as int, end as int) {
                Some(rest) => Some(out@ + rest),
                None => None,
            },
        decreases end - i,
    {
        if text[i] == SPACE {
            i += 1;
        } else {
            let stop: usize = find(text, i + 1, end, SPACE);
            match read_number(text, i, stop, 255) {
                None => {
                    return None;
                },
                Some(v) => {
                    let ghost before = out@;
                    out.push(v as u8);
                    proof {
                        match row(text@, stop as int, end as int) {
                            Some(rest) => {
                                assert(before + (seq![v as u8] + rest) =~= out@ + rest);
                            },
                            None => {},
                        }
                    }
                    i = stop;
                },
            }
        }
    }
    assert(out@ + Seq::<u8>::empty() =~= out@);
    Some(out)
}

/// The labels of the rows written from the line that starts at `from` on.
fn read_rows(text: &[u8], from: usize, n: usize) -> (r: Result<Vec<u8>, FormatError>)
    requires
        from <= text@.len(),
    ensures
        match r {
            Ok(tiles) => rows(text@, from as int, n as int) == Ok::<Seq<u8>, FormatError>(tiles@),
            Err(e) => rows(text@, from as int, n as int) == Err::<Seq<u8>, FormatError>(e) && !(e is Board),
        },
{
    let len: usize = text.len();
    let mut out: Vec<u8> = Vec::new();
    let mut i: usize = from;
    loop
        invariant
            from <= i <= len,
            len == text@.len(),
            rows(text@, from as int, n as int) == match rows(text@, i as int, n as int) {
                Ok(rest) => Ok::<Seq<u8>, FormatError>(out@ + rest),
                Err(e) => Err(e),
            },
        decreases len - i,
    {
        let end: usize = find(text, i, len, NEWLINE);
        let cut: usize = find(text, i, end, HASH);
        if cut <= i {
            assert(out@ + Seq::<u8>::empty() =~= out@);
            return Ok(out);
        }
        match read_row(text, i, cut) {
            None => {
                return Err(FormatError::Tile);
            },
            Some(mut labels) => {
                if labels.len() != n {
                    return Err(FormatError::RowLength(labels.len(), n));
                }
                let ghost before = out@;
                let ghost line = labels@;
                out.append(&mut labels);
                if end >= len {
                    return Ok(out);
                }
                proof {
                    match rows(text@, end + 1, n as int) {
                        Ok(rest) => {
                            assert(before + (line + rest) =~= out@ + rest);
                        },
                        Err(e) => {},
                    }
                }
                i = end + 1;
            },
        }
    }
}

/// The size on the first line that is no comment, and where the line after
/// it starts.
fn read_header(text: &[u8]) -> (r: Result<(usize, Option<usize>), FormatError>)
    ensures
        match r {
            Ok((n, next)) => {
                &&& header(text@, 0) == Ok::<(int, int), FormatError>(
                    (
                        n as int,
                        match next {
                            Some(at) => at as int,
                            None => -1,
                        },
                    ),
                )
                &&& next.is_some() ==> next.unwrap() <= text@.len()
            },
            Err(e) => header(text@, 0) == Err::<(int, int), FormatError>(e) && !(e is Board),
        },
{
    let len: usize = text.len();
    let mut i: usize = 0;
    loop
        invariant
            i <= len,
            len == text@.len(),
            header(text@, 0) == header(text@, i as int),
        decreases len - i,
    {
        let end: usize = find(text, i, len, NEWLINE);
        if i < len && text[i] == HASH {
            if end >= len {
                return Err(FormatError::NoSize);
            }
            i = end + 1;
        } else {
            return match read_number(text, i, end, usize::MAX) {
                None => Err(FormatError::Size),
                Some(n) => Ok(
                    (
                        n,
                        if end < len {
                            Some(end + 1)
                        } else {
                            None
                        },
                    ),
                ),
            };
        }
    }
}

/// The size and the labels that `text` describes.
pub fn parse(text: &[u8]) -> (r: Result<(usize, Vec<u8>), FormatError>)
    ensures
        match r {
            Ok((n, tiles)) => parsed(text@) == Ok::<(int, Seq<u8>), FormatError>((n as int, tiles@)),
            Err(e) => parsed(text@) == Err::<(int, Seq<u8>), FormatError>(e) && !(e is Board),
        },
{
    let (n, next) = match read_header(text) {
        Err(e) => {
            return Err(e);
        },
        Ok(found) => found,
    };
    let tiles: Vec<u8> = match next {
        None => Vec::new(),
        Some(at) => match read_rows(text, at, n) {
            Err(e) => {
                return Err(e);
            },
            Ok(tiles) => tiles,
        },
    };
    assert((n as u128) * (n as u128) <= 0xffff_ffff_ffff_ffff * 0xffff_ffff_ffff_ffff)
        by (nonlinear_arith)
        requires
            n <= 0xffff_ffff_ffff_ffff,
    ;
    if (tiles.len() as u128) != (n as u128) * (n as u128) {
        return Err(FormatError::Count);
    }
    Ok((n, tiles))
}

impl Board {
    /// The board that `text` describes.
    ///
    /// A text that does not follow the format is answered with what is wrong
    /// with it, and so is a text whose size and labels do not make a board.
    pub fn from_text(text: &[u8]) -> (r: Result<Board, FormatError>)
        ensures
            match r {
                Ok(board) => {
                    &&& parsed(text@) == Ok::<(int, Seq<u8>), FormatError>((board.n as int, board.data@))
                    &&& board.wf()
                    &&& is_goal_table(board.desired_positions@, board.n as int)
                },
                Err(FormatError::Board(e)) => {
                    &&& parsed(text@) is Ok
                    &&& Board::refusal(parsed(text@)->Ok_0.0, parsed(text@)->Ok_0.1) == Some(e)
                },
                Err(e) => parsed(text@) == Err::<(int, Seq<u8>), FormatError>(e),
            },
    {
        match parse(text) {
            Err(e) => Err(e),
            Ok((n, tiles)) => match Board::new(n, tiles) {
                Ok(board) => Ok(board),
                Err(e) => Err(FormatError::Board(e)),
            },
        }
    }
}

} // verus!
