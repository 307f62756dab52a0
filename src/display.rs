use crate::sudoku_state::SudokuState;
use crate::sudoku_value::SudokuValue;
use vstd::prelude::*;

verus! {

/// The line above, between and below the bands of three rows.
pub open spec fn separator_text() -> Seq<char> {
    "+-------+-------+-------+\n"@
}

impl SudokuState {
    /// The character shown for column `x` of row `y`.
    pub open spec fn shown(self, x: int, y: int) -> char {
        self.values@[y]@[x].char_of()
    }

    /// The first `x` cells of row `y` as shown, with `| ` before each block.
    pub open spec fn row_prefix(self, y: int, x: int) -> Seq<char>
        decreases x,
    {
        if x <= 0 {
            Seq::empty()
        } else {
            self.row_prefix(y, x - 1) + (if (x - 1) % 3 == 0 {
                "| "@
            } else {
                Seq::empty()
            }) + seq![self.shown(x - 1, y), ' ']
        }
    }

    /// Row `y` as shown, with its closing bar and line break.
    pub open spec fn row_text(self, y: int) -> Seq<char> {
        self.row_prefix(y, 9) + "|\n"@
    }

    /// The first `n` rows as shown, with a separator line before each band.
    pub open spec fn rows_text(self, n: int) -> Seq<char>
        decreases n,
    {
        if n <= 0 {
            Seq::empty()
        } else {
            self.rows_text(n - 1) + (if (n - 1) % 3 == 0 {
                separator_text()
            } else {
                Seq::empty()
            }) + self.row_text(n - 1)
        }
    }

    /// The grid as shown: nine rows in three bands between separator lines.
    pub open spec fn shown_text(self) -> Seq<char> {
        self.rows_text(9) + separator_text()
    }

    /// The grid drawn in boxes: a separator line around each band of three
    /// rows, `| ` before each block of three cells, each cell as its digit or
    /// `_` followed by a space.
    pub fn to_string(&self) -> (r: String)
        ensures
            r@ == self.shown_text(),
    {
        let mut ret = String::new();
        let mut y: usize = 0;
        while y < 9
            invariant
                y <= 9,
                ret@ == self.rows_text(y as int),
            decreases 9 - y,
        {
            if y % 3 == 0 {
                ret.append("+-------+-------+-------+\n");
            }
            let mut x: usize = 0;
            let ghost start = ret@;
            while x < 9
                invariant
                    y < 9,
                    x <= 9,
                    ret@ == start + self.row_prefix(y as int, x as int),
                decreases 9 - x,
            {
                if x % 3 == 0 {
                    ret.append("| ");
                }
                ret.append(cell_str(self.values[y][x]));
                ret.append(" ");
                proof {
                    reveal_strlit(" ");
                }
                assert(ret@ =~= start + self.row_prefix(y as int, x + 1));
                x = x + 1;
            }
            ret.append("|\n");
            assert(ret@ =~= self.rows_text(y + 1));
            y = y + 1;
        }
        ret.append("+-------+-------+-------+\n");
        ret
    }
}

/// The one-character text that shows a value.
fn cell_str(v: SudokuValue) -> (r: &'static str)
    ensures
        r@ == seq![v.char_of()],
{
    match v {
        SudokuValue::Empty => {
            proof {
                reveal_strlit("_");
            }
            "_"
        },
        SudokuValue::One => {
            proof {
                reveal_strlit("1");
            }
            "1"
        },
        SudokuValue::Two => {
            proof {
                reveal_strlit("2");
            }
            "2"
        },
        SudokuValue::Three => {
            proof {
                reveal_strlit("3");
            }
            "3"
        },
        SudokuValue::Four => {
            proof {
                reveal_strlit("4");
            }
            "4"
        },
        SudokuValue::Five => {
            proof {
                reveal_strlit("5");
            }
            "5"
        },
        SudokuValue::Six => {
            proof {
                reveal_strlit("6");
            }
            "6"
        },
        SudokuValue::Seven => {
            proof {
                reveal_strlit("7");
            }
            "7"
        },
        SudokuValue::Eight => {
            proof {
                reveal_strlit("8");
            }
            "8"
        },
        SudokuValue::Nine => {
            proof {
                reveal_strlit("9");
            }
            "9"
        },
    }
}

} // verus!
