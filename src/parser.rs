use crate::point::on_grid;
use crate::sudoku_state::SudokuState;
use crate::sudoku_value::SudokuValue;
use vstd::prelude::*;
use vstd::string::StrSliceExecFns;

verus! {

/// What a cell character stands for: a digit from `1` to `9`, or an empty cell
/// for `_` and `0`; nothing for any other character.
pub open spec fn cell_char_value(c: char) -> Option<SudokuValue> {
    if '1' <= c <= '9' {
        Some(SudokuValue::of_digit(c as int - '0' as int))
    } else if c == '0' || c == '_' {
        Some(SudokuValue::Empty)
    } else {
        None
    }
}

/// The position of the first line break at or after `i`, or the length of `s`.
pub open spec fn line_end(s: Seq<char>, i: int) -> int
    decreases s.len() - i,
{
    if i >= s.len() {
        s.len() as int
    } else if s[i] == '\n' {
        i
    } else {
        line_end(s, i + 1)
    }
}

/// The position where line `r` of `s` starts.
pub open spec fn line_start(s: Seq<char>, r: nat) -> int
    decreases r,
{
    if r == 0 {
        0
    } else {
        line_end(s, line_start(s, (r - 1) as nat)) + 1
    }
}

/// The text from `a` to `b` is a row: nine cell characters with one space
/// between each two, then nothing but spaces.
pub open spec fn is_row_text(s: Seq<char>, a: int, b: int) -> bool {
    &&& 0 <= a
    &&& a + 17 <= b <= s.len()
    &&& forall|i: int| 0 <= i < 9 ==> (#[trigger] cell_char_value(s[a + 2 * i])) is Some
    &&& forall|i: int| 0 <= i < 8 ==> #[trigger] s[a + 2 * i + 1] == ' '
    &&& forall|j: int| a + 17 <= j < b ==> #[trigger] s[j] == ' '
}

/// Line `r` of `s` is a row, and unless it is the last of the nine it ends in
/// a line break.
pub open spec fn row_ok(s: Seq<char>, r: nat) -> bool {
    &&& line_start(s, r) <= s.len()
    &&& is_row_text(s, line_start(s, r), line_end(s, line_start(s, r)))
    &&& r < 8 ==> line_end(s, line_start(s, r)) < s.len()
}

/// The text is a grid: nine rows separated by single line breaks, then nothing
/// but line breaks.
pub open spec fn is_grid_text(s: Seq<char>) -> bool {
    &&& forall|r: nat| r < 9 ==> #[trigger] row_ok(s, r)
    &&& forall|j: int| line_end(s, line_start(s, 8)) <= j < s.len() ==> #[trigger] s[j] == '\n'
}

/// The value that a grid text gives to column `x` of row `y`.
pub open spec fn text_cell(s: Seq<char>, x: int, y: int) -> SudokuValue {
    match cell_char_value(s[line_start(s, y as nat) + 2 * x]) {
        Some(v) => v,
        None => SudokuValue::Empty,
    }
}

/// The value of a cell character, if it is one.
fn cell_value(c: char) -> (r: Option<SudokuValue>)
    ensures
        r == cell_char_value(c),
{
    if c == '_' || c == '0' {
        Some(SudokuValue::Empty)
    } else if '1' <= c && c <= '9' {
        let v = SudokuValue::from_digit(c);
        proof {
            v.lemma_digit_range();
        }
        Some(v)
    } else {
        None
    }
}

/// The position of the first line break at or after `i`, or the length.
fn find_line_end(chars: &Vec<char>, i: usize) -> (r: usize)
    requires
        i <= chars@.len(),
    ensures
        r == line_end(chars@, i as int),
        i <= r <= chars@.len(),
        forall|j: int| i <= j < r ==> #[trigger] chars@[j] != '\n',
{
    let mut j = i;
    while j < chars.len() && chars[j] != '\n'
        invariant
            i <= j <= chars@.len(),
            line_end(chars@, j as int) == line_end(chars@, i as int),
            forall|l: int| i <= l < j ==> #[trigger] chars@[l] != '\n',
        decreases chars@.len() - j,
    {
        j = j + 1;
    }
    j
}

/// Reads one row that starts at `a` and ends at `b`.
fn parse_row(chars: &Vec<char>, a: usize, b: usize) -> (r: Option<[SudokuValue; 9]>)
    requires
        a <= b <= chars@.len(),
    ensures
        r is Some <==> is_row_text(chars@, a as int, b as int),
        r matches Some(row) ==> forall|x: int|
            0 <= x < 9 ==> cell_char_value(chars@[a + 2 * x]) == Some(#[trigger] row@[x]),
{
    if b - a < 17 {
        return None;
    }
    let mut row = [SudokuValue::Empty; 9];
    let mut x: usize = 0;
    while x < 9
        invariant
            a + 17 <= b <= chars@.len(),
            x <= 9,
            forall|i: int| 0 <= i < x ==> cell_char_value(chars@[a + 2 * i]) == Some(#[trigger] row@[i]),
            forall|i: int| 0 <= i < x && i < 8 ==> #[trigger] chars@[a + 2 * i + 1] == ' ',
        decreases 9 - x,
    {
        match cell_value(chars[a + 2 * x]) {
            Some(v) => {
                row[x] = v;
            },
            None => {
                return None;
            },
        }
        if x < 8 && chars[a + 2 * x + 1] != ' ' {
            return None;
        }
        x = x + 1;
    }
    let mut j = a + 17;
    while j < b
        invariant
            a + 17 <= j <= b <= chars@.len(),
            forall|l: int| a + 17 <= l < j ==> #[trigger] chars@[l] == ' ',
        decreases b - j,
    {
        if chars[j] != ' ' {
            return None;
        }
        j = j + 1;
    }
    assert forall|i: int| 0 <= i < 9 implies (#[trigger] cell_char_value(chars@[a + 2 * i])) is Some by {
        assert(cell_char_value(chars@[a + 2 * i]) == Some(row@[i]));
    }
    Some(row)
}

impl SudokuState {
    /// Reads a grid text: nine rows of nine cells, `1` to `9` for a digit and
    /// `_` or `0` for an empty cell, single spaces between the cells, single
    /// line breaks between the rows, and any number of spaces after a row and
    /// of line breaks after the last one. Anything else gives `None`.
    pub fn parse(input: &str) -> (r: Option<SudokuState>)
        ensures
            r is Some <==> is_grid_text(input@),
            r matches Some(g) ==> forall|x: int, y: int|
                on_grid(x, y) ==> #[trigger] g.values@[y]@[x] == text_cell(input@, x, y),
    {
        let n = input.unicode_len();
        let mut chars: Vec<char> = Vec::new();
        let mut k: usize = 0;
        while k < n
            invariant
                n == input@.len(),
                k <= n,
                chars@ == input@.subrange(0, k as int),
            decreases n - k,
        {
            chars.push(input.get_char(k));
            k = k + 1;
        }
        assert(chars@ =~= input@);
        let ghost s = chars@;
        let mut values = [[SudokuValue::Empty; 9]; 9];
        let mut pos: usize = 0;
        let mut y: usize = 0;
        while y < 9
            invariant
                s == chars@,
                s == input@,
                y <= 9,
                pos <= s.len(),
                y < 9 ==> pos == line_start(s, y as nat),
                forall|r: nat| r < y ==> #[trigger] row_ok(s, r),
                forall|x: int, r: int|
                    0 <= x < 9 && 0 <= r < y ==> #[trigger] values@[r]@[x] == text_cell(s, x, r),
                y == 9 ==> pos == line_end(s, line_start(s, 8)),
            decreases 9 - y,
        {
            let end = find_line_end(&chars, pos);
            let row = match parse_row(&chars, pos, end) {
                Some(row) => row,
                None => {
                    proof {
                        assert(!row_ok(s, y as nat));
                    }
                    return None;
                },
            };
            proof {
                assert forall|x: int| 0 <= x < 9 implies #[trigger] row@[x] == text_cell(s, x, y as int) by {
                    assert(cell_char_value(s[pos + 2 * x]) == Some(row@[x]));
                }
            }
            values[y] = row;
            if y < 8 {
                if end >= chars.len() {
                    proof {
                        assert(!row_ok(s, y as nat));
                    }
                    return None;
                }
                proof {
                    assert(line_start(s, (y + 1) as nat) == end + 1);
                }
                pos = end + 1;
            } else {
                pos = end;
            }
            y = y + 1;
        }
        let mut j = pos;
        while j < chars.len()
            invariant
                s == chars@,
                s == input@,
                pos == line_end(s, line_start(s, 8)),
                forall|r: nat| r < 9 ==> #[trigger] row_ok(s, r),
                forall|x: int, r: int|
                    0 <= x < 9 && 0 <= r < 9 ==> #[trigger] values@[r]@[x] == text_cell(s, x, r),
                pos <= j <= s.len(),
                forall|l: int| pos <= l < j ==> #[trigger] s[l] == '\n',
            decreases s.len() - j,
        {
            if chars[j] != '\n' {
                proof {
                    assert(s[j as int] != '\n');
                }
                return None;
            }
            j = j + 1;
        }
        Some(SudokuState { values })
    }

    /// Reads a grid text that `parse` accepts.
    pub fn new(input_str: &str) -> (r: SudokuState)
        requires
            is_grid_text(input_str@),
        ensures
            forall|x: int, y: int|
                on_grid(x, y) ==> #[trigger] r.values@[y]@[x] == text_cell(input_str@, x, y),
    {
        match SudokuState::parse(input_str) {
            Some(g) => g,
            None => {
                proof {
                    assert(false);
                }
                SudokuState { values: [[SudokuValue::Empty; 9]; 9] }
            },
        }
    }
}

} // verus!
