use vstd::prelude::*;

verus! {

/// The content of one cell: empty, or one of the digits one to nine.
#[derive(Debug, Clone, Copy, PartialEq, Eq, Structural)]
pub enum SudokuValue {
    Empty,
    One,
    Two,
    Three,
    Four,
    Five,
    Six,
    Seven,
    Eight,
    Nine,
}

impl SudokuValue {
    /// The digit that the value stands for; zero for an empty cell.
    pub open spec fn digit(self) -> int {
        match self {
            SudokuValue::Empty => 0,
            SudokuValue::One => 1,
            SudokuValue::Two => 2,
            SudokuValue::Three => 3,
            SudokuValue::Four => 4,
            SudokuValue::Five => 5,
            SudokuValue::Six => 6,
            SudokuValue::Seven => 7,
            SudokuValue::Eight => 8,
            SudokuValue::Nine => 9,
        }
    }

    /// The value whose digit is `d`; `Empty` outside one to nine.
    pub open spec fn of_digit(d: int) -> SudokuValue {
        if d == 1 {
            SudokuValue::One
        } else if d == 2 {
            SudokuValue::Two
        } else if d == 3 {
            SudokuValue::Three
        } else if d == 4 {
            SudokuValue::Four
        } else if d == 5 {
            SudokuValue::Five
        } else if d == 6 {
            SudokuValue::Six
        } else if d == 7 {
            SudokuValue::Seven
        } else if d == 8 {
            SudokuValue::Eight
        } else if d == 9 {
            SudokuValue::Nine
        } else {
            SudokuValue::Empty
        }
    }

    /// The character for the value: its digit, or `_` when empty.
    pub open spec fn char_of(self) -> char {
        match self {
            SudokuValue::Empty => '_',
            SudokuValue::One => '1',
            SudokuValue::Two => '2',
            SudokuValue::Three => '3',
            SudokuValue::Four => '4',
            SudokuValue::Five => '5',
            SudokuValue::Six => '6',
            SudokuValue::Seven => '7',
            SudokuValue::Eight => '8',
            SudokuValue::Nine => '9',
        }
    }

    /// Digits run from zero to nine, zero only for `Empty`, and name their value.
    pub proof fn lemma_digit_range(self)
        ensures
            0 <= self.digit() <= 9,
            Self::of_digit(self.digit()) == self,
            self.digit() == 0 <==> self == SudokuValue::Empty,
    {
    }

    /// Reads a digit character; every other character reads as an empty cell.
    pub fn from_digit(c: char) -> (r: SudokuValue)
        ensures
            '1' <= c <= '9' ==> r.digit() == c as int - '0' as int,
            !('1' <= c <= '9') ==> r == SudokuValue::Empty,
    {
        match c {
            '1' => SudokuValue::One,
            '2' => SudokuValue::Two,
            '3' => SudokuValue::Three,
            '4' => SudokuValue::Four,
            '5' => SudokuValue::Five,
            '6' => SudokuValue::Six,
            '7' => SudokuValue::Seven,
            '8' => SudokuValue::Eight,
            '9' => SudokuValue::Nine,
            _ => SudokuValue::Empty,
        }
    }

    /// The nine digits, in ascending order.
    pub fn all_values() -> (r: [SudokuValue; 9])
        ensures
            forall|i: int| 0 <= i < 9 ==> #[trigger] r@[i].digit() == i + 1,
    {
        [
            SudokuValue::One,
            SudokuValue::Two,
            SudokuValue::Three,
            SudokuValue::Four,
            SudokuValue::Five,
            SudokuValue::Six,
            SudokuValue::Seven,
            SudokuValue::Eight,
            SudokuValue::Nine,
        ]
    }

    /// The character that shows the value: its digit, or `_` when empty.
    pub fn to_char(&self) -> (r: char)
        ensures
            r == self.char_of(),
    {
        match self {
            SudokuValue::Empty => '_',
            SudokuValue::One => '1',
            SudokuValue::Two => '2',
            SudokuValue::Three => '3',
            SudokuValue::Four => '4',
            SudokuValue::Five => '5',
            SudokuValue::Six => '6',
            SudokuValue::Seven => '7',
            SudokuValue::Eight => '8',
            SudokuValue::Nine => '9',
        }
    }
}

} // verus!
