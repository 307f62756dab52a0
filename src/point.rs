use itertools::Itertools;
use vstd::prelude::*;

verus! {

/// A cell coordinate: column, then row, each in `0..9` for a cell of the grid.
#[derive(Debug, Clone, Copy, PartialEq, Eq, Structural)]
pub struct SudokuPoint(pub u8, pub u8);

/// Relies on itertools::Itertools::cartesian_product over two ranges: every pair
/// `(a, b)` with `a < n` and `b < m`, with `a` in the outer position, so the
/// pair at position `k` is `(k / m, k % m)`.
#[verifier::external_body]
fn index_pairs(n: u8, m: u8) -> (r: Vec<(u8, u8)>)
    ensures
        r@.len() == n * m,
        forall|k: int|
            0 <= k < n * m ==> (#[trigger] r@[k]).0 as int == k / (m as int) && r@[k].1 as int == k
                % (m as int),
{
    (0..n).cartesian_product(0..m).collect()
}

/// The `i`-th cell of peer group `k`: rows are groups `0..9`, columns `9..18`
/// and blocks `18..27` (block `b` has its top-left corner at column `3 * (b / 3)`
/// and row `3 * (b % 3)`).
pub open spec fn group_cell(k: int, i: int) -> (int, int) {
    if k < 9 {
        (i, k)
    } else if k < 18 {
        (k - 9, i)
    } else {
        (i / 3 + (k - 18) / 3 * 3, i % 3 + (k - 18) % 3 * 3)
    }
}

/// Whether two cells share a row, a column or a block.
pub open spec fn same_group(x1: int, y1: int, x2: int, y2: int) -> bool {
    x1 == x2 || y1 == y2 || (x1 / 3 == x2 / 3 && y1 / 3 == y2 / 3)
}

/// Whether `(x, y)` lies on the grid.
pub open spec fn on_grid(x: int, y: int) -> bool {
    0 <= x < 9 && 0 <= y < 9
}

impl SudokuPoint {
    pub open spec fn x(self) -> int {
        self.0 as int
    }

    pub open spec fn y(self) -> int {
        self.1 as int
    }

    /// The point lies on the grid.
    pub open spec fn wf(self) -> bool {
        on_grid(self.x(), self.y())
    }

    /// The point is the `(x, y)` of the model.
    pub open spec fn is(self, c: (int, int)) -> bool {
        self.x() == c.0 && self.y() == c.1
    }

    /// Every cell of the grid once, column by column: the `k`-th point is
    /// `(k / 9, k % 9)`.
    pub fn all_points() -> (r: Vec<SudokuPoint>)
        ensures
            r@.len() == 81,
            forall|k: int| 0 <= k < 81 ==> (#[trigger] r@[k]).x() == k / 9 && r@[k].y() == k % 9,
    {
        let pairs = index_pairs(9, 9);
        let mut r: Vec<SudokuPoint> = Vec::new();
        let mut k: usize = 0;
        while k < pairs.len()
            invariant
                pairs@.len() == 81,
                forall|j: int|
                    0 <= j < 81 ==> (#[trigger] pairs@[j]).0 as int == j / 9 && pairs@[j].1 as int
                        == j % 9,
                k <= 81,
                r@.len() == k,
                forall|j: int| 0 <= j < k ==> (#[trigger] r@[j]).x() == j / 9 && r@[j].y() == j % 9,
            decreases 81 - k,
        {
            let (i, j) = pairs[k];
            r.push(SudokuPoint(i, j));
            k = k + 1;
        }
        r
    }

    /// The nine rows, from top to bottom, each from left to right.
    pub fn get_horizontal_lines() -> (r: Vec<[SudokuPoint; 9]>)
        ensures
            r@.len() == 9,
            forall|y: int, i: int|
                0 <= y < 9 && 0 <= i < 9 ==> (#[trigger] r@[y]@[i]).is(group_cell(y, i)),
    {
        let mut r: Vec<[SudokuPoint; 9]> = Vec::new();
        let mut y: u8 = 0;
        while y < 9
            invariant
                y <= 9,
                r@.len() == y,
                forall|k: int, i: int|
                    0 <= k < y && 0 <= i < 9 ==> (#[trigger] r@[k]@[i]).is(group_cell(k, i)),
            decreases 9 - y,
        {
            let line = SudokuPoint(0, y).get_horizontal_matching();
            r.push(line);
            y = y + 1;
        }
        r
    }

    /// The nine columns, from left to right, each from top to bottom.
    pub fn get_vertical_lines() -> (r: Vec<[SudokuPoint; 9]>)
        ensures
            r@.len() == 9,
            forall|x: int, i: int|
                0 <= x < 9 && 0 <= i < 9 ==> (#[trigger] r@[x]@[i]).is(group_cell(x + 9, i)),
    {
        let mut r: Vec<[SudokuPoint; 9]> = Vec::new();
        let mut x: u8 = 0;
        while x < 9
            invariant
                x <= 9,
                r@.len() == x,
                forall|k: int, i: int|
                    0 <= k < x && 0 <= i < 9 ==> (#[trigger] r@[k]@[i]).is(group_cell(k + 9, i)),
            decreases 9 - x,
        {
            let line = SudokuPoint(x, 0).get_vertical_matching();
            r.push(line);
            x = x + 1;
        }
        r
    }

    /// The nine 3x3 blocks; block `b` starts at column `3 * (b / 3)` and row
    /// `3 * (b % 3)`.
    pub fn get_blocks() -> (r: Vec<[SudokuPoint; 9]>)
        ensures
            r@.len() == 9,
            forall|b: int, i: int|
                0 <= b < 9 && 0 <= i < 9 ==> (#[trigger] r@[b]@[i]).is(group_cell(b + 18, i)),
    {
        let starts = index_pairs(3, 3);
        let mut r: Vec<[SudokuPoint; 9]> = Vec::new();
        let mut b: usize = 0;
        while b < starts.len()
            invariant
                starts@.len() == 9,
                forall|j: int|
                    0 <= j < 9 ==> (#[trigger] starts@[j]).0 as int == j / 3 && starts@[j].1 as int
                        == j % 3,
                b <= 9,
                r@.len() == b,
                forall|k: int, i: int|
                    0 <= k < b && 0 <= i < 9 ==> (#[trigger] r@[k]@[i]).is(group_cell(k + 18, i)),
            decreases 9 - b,
        {
            let (sx, sy) = starts[b];
            let block = SudokuPoint(sx * 3, sy * 3).get_block_matching();
            r.push(block);
            b = b + 1;
        }
        r
    }

    /// The row through the point, from left to right.
    pub fn get_horizontal_matching(&self) -> (r: [SudokuPoint; 9])
        requires
            self.wf(),
        ensures
            forall|i: int| 0 <= i < 9 ==> (#[trigger] r@[i]).is(group_cell(self.y(), i)),
    {
        let y = self.1;
        [
            SudokuPoint(0, y),
            SudokuPoint(1, y),
            SudokuPoint(2, y),
            SudokuPoint(3, y),
            SudokuPoint(4, y),
            SudokuPoint(5, y),
            SudokuPoint(6, y),
            SudokuPoint(7, y),
            SudokuPoint(8, y),
        ]
    }

    /// The column through the point, from top to bottom.
    pub fn get_vertical_matching(&self) -> (r: [SudokuPoint; 9])
        requires
            self.wf(),
        ensures
            forall|i: int| 0 <= i < 9 ==> (#[trigger] r@[i]).is(group_cell(self.x() + 9, i)),
    {
        let x = self.0;
        [
            SudokuPoint(x, 0),
            SudokuPoint(x, 1),
            SudokuPoint(x, 2),
            SudokuPoint(x, 3),
            SudokuPoint(x, 4),
            SudokuPoint(x, 5),
            SudokuPoint(x, 6),
            SudokuPoint(x, 7),
            SudokuPoint(x, 8),
        ]
    }

    /// The block that holds the point, column by column.
    pub fn get_block_matching(&self) -> (r: [SudokuPoint; 9])
        requires
            self.wf(),
        ensures
            forall|i: int|
                0 <= i < 9 ==> (#[trigger] r@[i]).is(
                    group_cell(18 + self.x() / 3 * 3 + self.y() / 3, i),
                ),
    {
        let rounded_x = self.0 / 3 * 3;
        let rounded_y = self.1 / 3 * 3;
        let offsets = index_pairs(3, 3);
        let mut r = [SudokuPoint(0, 0); 9];
        let mut i: usize = 0;
        while i < 9
            invariant
                offsets@.len() == 9,
                forall|j: int|
                    0 <= j < 9 ==> (#[trigger] offsets@[j]).0 as int == j / 3 && offsets@[j].1 as int
                        == j % 3,
                rounded_x == self.0 / 3 * 3,
                rounded_y == self.1 / 3 * 3,
                self.wf(),
                i <= 9,
                forall|j: int|
                    0 <= j < i ==> (#[trigger] r@[j]).is(
                        group_cell(18 + self.x() / 3 * 3 + self.y() / 3, j),
                    ),
            decreases 9 - i,
        {
            let (ox, oy) = offsets[i];
            r[i] = SudokuPoint(ox + rounded_x, oy + rounded_y);
            i = i + 1;
        }
        r
    }
}

} // verus!
