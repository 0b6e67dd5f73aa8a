//! Boards, cells and numbers as text.

use vstd::prelude::*;
use vstd::string::StringExecFns;
use crate::board::Board;
use crate::position::Position;

verus! {

/// The character of the decimal digit `d`.
pub open spec fn digit(d: int) -> char {
    if d == 0 {
        '0'
    } else if d == 1 {
        '1'
    } else if d == 2 {
        '2'
    } else if d == 3 {
        '3'
    } else if d == 4 {
        '4'
    } else if d == 5 {
        '5'
    } else if d == 6 {
        '6'
    } else if d == 7 {
        '7'
    } else if d == 8 {
        '8'
    } else {
        '9'
    }
}

/// The decimal digits of `v`, without leading zeros.
pub open spec fn decimal(v: nat) -> Seq<char>
    decreases v,
{
    if v < 10 {
        seq![digit(v as int)]
    } else {
        decimal(v / 10).push(digit((v % 10) as int))
    }
}

/// `count` spaces.
pub open spec fn spaces(count: int) -> Seq<char> {
    Seq::new(
        if count > 0 {
            count as nat
        } else {
            0
        },
        |i: int| ' ',
    )
}

/// `s` moved to the right end of a column of `width` characters; a longer
/// `s` stays as it is.
pub open spec fn padded(s: Seq<char>, width: int) -> Seq<char> {
    spaces(width - s.len()) + s
}

/// The text of one tile: the blank as a dash, a label in a column of two,
/// and a space behind either.
pub open spec fn tile_text(tile: u8) -> Seq<char> {
    if tile == 0 {
        seq![' ', '-', ' ']
    } else {
        padded(decimal(tile as nat), 2).push(' ')
    }
}

/// The text of the first `k` tiles of a board of width `n`: the tiles of a
/// row one behind the other, and a line feed behind every row but the last.
pub open spec fn board_text(tiles: Seq<u8>, n: int, k: int) -> Seq<char>
    decreases k,
{
    if k <= 0 {
        Seq::empty()
    } else {
        board_text(tiles, n, k - 1) + tile_text(tiles[k - 1]) + if (k - 1) % n == n - 1 && k
            != tiles.len() {
            seq!['\n']
        } else {
            Seq::empty()
        }
    }
}

/// The text of a cell: its column, a dash, its row.
pub open spec fn position_text(p: Position) -> Seq<char> {
    decimal(p.x as nat) + seq!['-'] + decimal(p.y as nat)
}

/// The digit `d` as text.
fn digit_str(d: usize) -> (s: &'static str)
    requires
        d < 10,
    ensures
        s@ == seq![digit(d as int)],
{
    proof {
        reveal_strlit("0");
        reveal_strlit("1");
        reveal_strlit("2");
        reveal_strlit("3");
        reveal_strlit("4");
        reveal_strlit("5");
        reveal_strlit("6");
        reveal_strlit("7");
        reveal_strlit("8");
        reveal_strlit("9");
    }
    let s = if d == 0 {
        "0"
    } else if d == 1 {
        "1"
    } else if d == 2 {
        "2"
    } else if d == 3 {
        "3"
    } else if d == 4 {
        "4"
    } else if d == 5 {
        "5"
    } else if d == 6 {
        "6"
    } else if d == 7 {
        "7"
    } else if d == 8 {
        "8"
    } else {
        "9"
    };
    assert(s@ =~= seq![digit(d as int)]);
    s
}

/// Appends the decimal digits of `v` to `out`.
pub fn push_decimal(out: &mut String, v: usize)
    ensures
        final(out)@ == old(out)@ + decimal(v as nat),
    decreases v,
{
    if v >= 10 {
        push_decimal(out, v / 10);
    }
    out.append(digit_str(v % 10));
    assert(out@ =~= old(out)@ + decimal(v as nat));
}

/// Appends `count` spaces to `out`.
pub fn push_spaces(out: &mut String, count: usize)
    ensures
        final(out)@ == old(out)@ + spaces(count as int),
{
    let mut k: usize = 0;
    assert(out@ =~= old(out)@ + spaces(0));
    while k < count
        invariant
            k <= count,
            out@ == old(out)@ + spaces(k as int),
        decreases count - k,
    {
        proof {
            reveal_strlit(" ");
        }
        out.append(" ");
        k += 1;
        assert(out@ =~= old(out)@ + spaces(k as int));
    }
}

impl Position {
    /// The cell as text: its column, a dash, its row.
    pub fn text(&self) -> (s: String)
        ensures
            s@ == position_text(*self),
    {
        let mut s = String::new();
        push_decimal(&mut s, self.x);
        proof {
            reveal_strlit("-");
        }
        s.append("-");
        push_decimal(&mut s, self.y);
        assert(s@ =~= position_text(*self));
        s
    }
}

impl Board {
    /// The board as text, one row to a line: the blank as a dash, a label in
    /// a column of two, and a space behind either.
    pub fn text(&self) -> (s: String)
        requires
            self.n > 0,
        ensures
            s@ == board_text(self.data@, self.n as int, self.data@.len() as int),
    {
        let mut s = String::new();
        let len: usize = self.data.len();
        let mut i: usize = 0;
        while i < len
            invariant
                self.n > 0,
                len == self.data.len(),
                i <= len,
                s@ == board_text(self.data@, self.n as int, i as int),
            decreases len - i,
        {
            let ghost before = s@;
            let tile: u8 = self.data[i];
            if tile != 0 {
                if tile < 10 {
                    push_spaces(&mut s, 1);
                }
                let ghost mid = s@;
                push_decimal(&mut s, tile as usize);
                proof {
                    reveal_strlit(" ");
                    lemma_decimal_len(tile as nat);
                    assert(mid =~= before + spaces(2 - decimal(tile as nat).len()));
                }
                s.append(" ");
                assert(s@ =~= before + tile_text(tile));
            } else {
                proof {
                    reveal_strlit(" - ");
                }
                s.append(" - ");
                assert(s@ =~= before + tile_text(tile));
            }
            if i % self.n == self.n - 1 && i != len - 1 {
                proof {
                    reveal_strlit("\n");
                }
                s.append("\n");
                assert(s@ =~= before + tile_text(tile) + seq!['\n']);
            } else {
                assert(s@ =~= before + tile_text(tile) + Seq::<char>::empty());
            }
            i += 1;
        }
        s
    }
}

/// A number below ten has one decimal digit, any other has more.
pub proof fn lemma_decimal_len(v: nat)
    ensures
        v < 10 ==> decimal(v).len() == 1,
        v >= 10 ==> decimal(v).len() >= 2,
    decreases v,
{
    if v >= 10 {
        lemma_decimal_len(v / 10);
    }
}

} // verus!
