use crate::point::{group_cell, on_grid, same_group, SudokuPoint};
use crate::sudoku_value::SudokuValue;
use vstd::prelude::*;
use vstd::set_lib::{lemma_int_range, lemma_subset_equality, set_int_range};

verus! {

/// The puzzle admits no solution.
#[derive(Debug)]
pub struct SudokuError();

/// A 9x9 grid; `values[y][x]` is the cell in column `x` and row `y`.
#[derive(Clone, Copy)]
pub struct SudokuState {
    pub values: [[SudokuValue; 9]; 9],
}

impl SudokuState {
    /// The digit in column `x`, row `y`; zero for an empty cell.
    pub open spec fn at(self, x: int, y: int) -> int {
        self.values@[y]@[x].digit()
    }

    /// The digit in the cell `c`, given as column and row.
    pub open spec fn at_cell(self, c: (int, int)) -> int {
        self.at(c.0, c.1)
    }

    /// No cell is empty.
    pub open spec fn is_complete(self) -> bool {
        forall|x: int, y: int| on_grid(x, y) ==> #[trigger] self.at(x, y) != 0
    }

    /// No digit occurs twice in a row, a column or a block.
    pub open spec fn is_consistent(self) -> bool {
        forall|x1: int, y1: int, x2: int, y2: int|
            on_grid(x1, y1) && on_grid(x2, y2) && same_group(x1, y1, x2, y2) && (x1 != x2 || y1
                != y2) && #[trigger] self.at(x1, y1) != 0 ==> self.at(x1, y1) != #[trigger] self.at(
                x2,
                y2,
            )
    }

    /// Complete and consistent.
    pub open spec fn is_solved(self) -> bool {
        self.is_complete() && self.is_consistent()
    }

    /// Every filled cell of `g` holds the same digit here.
    pub open spec fn extends(self, g: SudokuState) -> bool {
        forall|x: int, y: int| on_grid(x, y) && g.at(x, y) != 0 ==> #[trigger] self.at(x, y) == g.at(x, y)
    }

    /// The two grids hold the same digit in every cell.
    pub open spec fn same_grid(self, g: SudokuState) -> bool {
        forall|x: int, y: int| on_grid(x, y) ==> #[trigger] self.at(x, y) == g.at(x, y)
    }

    /// A solved grid that keeps every digit of `g`.
    pub open spec fn is_solution_of(self, g: SudokuState) -> bool {
        self.is_solved() && self.extends(g)
    }

    /// `v` lists every solution of the grid exactly once, and nothing else.
    pub open spec fn solution_list(self, v: Seq<SudokuState>) -> bool {
        &&& forall|i: int| 0 <= i < v.len() ==> (#[trigger] v[i]).is_solution_of(self)
        &&& forall|s: SudokuState| #[trigger]
            s.is_solution_of(self) ==> exists|i: int| 0 <= i < v.len() && (#[trigger] v[i]).same_grid(s)
        &&& forall|i: int, j: int|
            0 <= i < v.len() && 0 <= j < v.len() && i != j ==> !(#[trigger] v[i]).same_grid(
                #[trigger] v[j],
            )
    }

    /// The grid has no solution.
    pub open spec fn unsolvable(self) -> bool {
        forall|s: SudokuState| !(#[trigger] s.is_solution_of(self))
    }

    /// `d` may go in the empty cell `(x, y)`: no cell of its row, column or block holds it.
    pub open spec fn is_candidate(self, x: int, y: int, d: int) -> bool {
        &&& 1 <= d <= 9
        &&& self.at(x, y) == 0
        &&& forall|x2: int, y2: int|
            on_grid(x2, y2) && same_group(x, y, x2, y2) ==> #[trigger] self.at(x2, y2) != d
    }

    /// The candidates of `(x, y)` up to `n`, in ascending order.
    pub open spec fn candidates_upto(self, x: int, y: int, n: int) -> Seq<int>
        decreases n,
    {
        if n <= 0 {
            Seq::empty()
        } else if self.is_candidate(x, y, n) {
            self.candidates_upto(x, y, n - 1).push(n)
        } else {
            self.candidates_upto(x, y, n - 1)
        }
    }

    /// The candidates of `(x, y)`, in ascending order.
    pub open spec fn candidates(self, x: int, y: int) -> Seq<int> {
        self.candidates_upto(x, y, 9)
    }

    /// The number of empty cells among the first `k` in column-by-column order.
    pub open spec fn empties_upto(self, k: int) -> nat
        decreases k,
    {
        if k <= 0 {
            0
        } else {
            self.empties_upto(k - 1) + if self.at((k - 1) / 9, (k - 1) % 9) == 0 {
                1nat
            } else {
                0nat
            }
        }
    }

    /// The number of empty cells.
    pub open spec fn empties(self) -> nat {
        self.empties_upto(81)
    }

    /// `new` keeps every digit of this grid, is consistent, and every solution
    /// of this grid is one of `new`.
    pub open spec fn refined_by(self, new: SudokuState) -> bool {
        &&& new.extends(self)
        &&& new.is_consistent()
        &&& forall|s: SudokuState| #[trigger] s.is_solution_of(self) ==> s.extends(new)
    }

    /// The cells among the first `n` of group `k` where `d` is a candidate, in order.
    pub open spec fn group_candidates(self, k: int, d: int, n: int) -> Seq<(int, int)>
        decreases n,
    {
        if n <= 0 {
            Seq::empty()
        } else if self.is_candidate(group_cell(k, n - 1).0, group_cell(k, n - 1).1, d) {
            self.group_candidates(k, d, n - 1).push(group_cell(k, n - 1))
        } else {
            self.group_candidates(k, d, n - 1)
        }
    }

    /// The points among the first `n` of `points` where `d` is a candidate, in order.
    pub open spec fn candidate_points(self, points: Seq<SudokuPoint>, d: int, n: int) -> Seq<SudokuPoint>
        decreases n,
    {
        if n <= 0 {
            Seq::empty()
        } else if self.is_candidate(points[n - 1].x(), points[n - 1].y(), d) {
            self.candidate_points(points, d, n - 1).push(points[n - 1])
        } else {
            self.candidate_points(points, d, n - 1)
        }
    }

    /// `b` is this grid with digit `d` written into cell `c`.
    pub open spec fn with_digit(self, b: SudokuState, c: (int, int), d: int) -> bool {
        forall|x: int, y: int| on_grid(x, y) ==> #[trigger] b.at(x, y) == if x == c.0 && y == c.1 {
            d
        } else {
            self.at(x, y)
        }
    }

    /// `b` is this grid after the hidden-single rule for digit `d` on group `k`:
    /// where `d` is a candidate in exactly one cell of the group it is placed
    /// there, and otherwise nothing changes.
    pub open spec fn hidden_step(self, b: SudokuState, k: int, d: int) -> bool {
        if self.group_candidates(k, d, 9).len() == 1 {
            self.with_digit(b, self.group_candidates(k, d, 9)[0], d)
        } else {
            b.same_grid(self)
        }
    }

    /// `t` runs from this grid to `b` by the hidden-single rule on group `k`
    /// for the digits one to `n`, in ascending order, each step on the grid the
    /// previous one left.
    pub open spec fn hidden_trace(self, t: Seq<SudokuState>, b: SudokuState, k: int, n: int) -> bool {
        &&& t.len() == n + 1
        &&& t[0] == self
        &&& t[n] == b
        &&& forall|j: int| 0 <= j < n ==> (#[trigger] t[j]).hidden_step(t[j + 1], k, j + 1)
    }

    /// `b` is this grid after the hidden-single rule on group `k` for the digits
    /// one to `n`, in ascending order.
    pub open spec fn hidden_upto(self, b: SudokuState, k: int, n: int) -> bool {
        exists|t: Seq<SudokuState>| #[trigger] self.hidden_trace(t, b, k, n)
    }

    /// `t` runs from this grid to `b` by the hidden-single rule on groups `k0`
    /// to `k0 + n - 1`, in order, each group for all nine digits.
    pub open spec fn groups_trace(self, t: Seq<SudokuState>, b: SudokuState, k0: int, n: int) -> bool {
        &&& t.len() == n + 1
        &&& t[0] == self
        &&& t[n] == b
        &&& forall|j: int| 0 <= j < n ==> (#[trigger] t[j]).hidden_upto(t[j + 1], k0 + j, 9)
    }

    /// `b` is this grid after the hidden-single rule on groups `k0` to
    /// `k0 + n - 1`, in order.
    pub open spec fn groups_upto(self, b: SudokuState, k0: int, n: int) -> bool {
        exists|t: Seq<SudokuState>| #[trigger] self.groups_trace(t, b, k0, n)
    }

    /// No digit is a candidate in exactly one cell of group `k`.
    pub open spec fn no_hidden_single(self, k: int) -> bool {
        forall|d: int| 1 <= d <= 9 ==> #[trigger] self.group_candidates(k, d, 9).len() != 1
    }

    /// Propagation can do nothing here: every empty cell has two candidates or
    /// more, and no group has a hidden single.
    pub open spec fn is_fixed_point(self) -> bool {
        &&& forall|x: int, y: int| on_grid(x, y) && #[trigger] self.at(x, y) == 0 ==> self.candidates(x, y).len() >= 2
        &&& forall|k: int| 0 <= k < 27 ==> #[trigger] self.no_hidden_single(k)
    }

    /// The grids of `v` come in ascending order of their digit at `(x, y)`.
    pub open spec fn ascending_at(v: Seq<SudokuState>, x: int, y: int) -> bool {
        forall|i: int, j: int| 0 <= i < j < v.len() ==> (#[trigger] v[i]).at(x, y) <= (#[trigger] v[j]).at(x, y)
    }

    /// `(x, y)` is an empty cell with no more candidates than any other empty cell.
    #[verifier::opaque]
    pub open spec fn fewest_candidates(self, x: int, y: int) -> bool {
        &&& on_grid(x, y)
        &&& self.at(x, y) == 0
        &&& forall|q: int, w: int|
            on_grid(q, w) && #[trigger] self.at(q, w) == 0 ==> self.candidates(x, y).len() <= self.candidates(q, w).len()
    }

    /// The grids of `v` come in ascending order of their digit at `(x, y)`, an
    /// empty cell of this grid with the fewest candidates.
    pub open spec fn branches_in_order(self, v: Seq<SudokuState>, x: int, y: int) -> bool {
        self.fewest_candidates(x, y) && Self::ascending_at(v, x, y)
    }

    /// The value of the cell at the point.
    pub fn get(&self, point: &SudokuPoint) -> (r: SudokuValue)
        requires
            point.wf(),
        ensures
            r == self.values@[point.y()]@[point.x()],
            r.digit() == self.at(point.x(), point.y()),
    {
        self.values[point.1 as usize][point.0 as usize]
    }

    /// Writes the value into the cell at the point; no other cell changes.
    pub fn set(&mut self, point: &SudokuPoint, value: SudokuValue)
        requires
            point.wf(),
        ensures
            forall|x: int, y: int|
                on_grid(x, y) ==> #[trigger] final(self).at(x, y) == if x == point.x() && y
                    == point.y() {
                    value.digit()
                } else {
                    old(self).at(x, y)
                },
    {
        let y = point.1 as usize;
        let x = point.0 as usize;
        let mut row = self.values[y];
        row[x] = value;
        self.values[y] = row;
    }

    /// All solutions of the grid, each once; an error when it has none.
    pub fn solve(&self) -> (r: Result<Vec<SudokuState>, SudokuError>)
        ensures
            r matches Ok(v) ==> v@.len() > 0 && self.solution_list(v@),
            r is Err ==> self.unsolvable(),
            r matches Ok(v) ==> v@.len() == 1 || exists|x: int, y: int|
                on_grid(x, y) && self.at(x, y) == 0 && #[trigger] Self::ascending_at(v@, x, y),
        decreases self.empties(), 1nat,
    {
        if !self.has_no_conflicts() {
            proof {
                self.lemma_conflict_unsolvable();
            }
            return Err(SudokuError());
        }
        let mut solution = *self;
        match solution.reduce_while_you_can() {
            Ok(()) => {},
            Err(e) => {
                return Err(e);
            },
        }
        proof {
            self.lemma_empties_mono(solution, 81);
            solution.lemma_empties_zero();
        }
        if solution.empty_count() > 0 {
            let res = solution.split_solutions();
            proof {
                self.lemma_refined_same_solutions(solution);
                if res is Ok {
                    let v = res->Ok_0;
                    let (x, y) = choose|x: int, y: int| solution.fewest_candidates(x, y) && #[trigger] Self::ascending_at(v@, x, y);
                    reveal(SudokuState::fewest_candidates);
                    assert(self.at(x, y) == 0);
                    assert(Self::ascending_at(v@, x, y));
                }
            }
            res
        } else {
            let ret = vec![solution];
            proof {
                assert(solution.is_solution_of(*self));
                assert forall|s: SudokuState| #[trigger] s.is_solution_of(*self) implies exists|i: int|
                    0 <= i < ret@.len() && (#[trigger] ret@[i]).same_grid(s) by {
                    assert(s.extends(solution));
                    assert(ret@[0].same_grid(s));
                }
            }
            Ok(ret)
        }
    }

    /// Branches on the empty cell with the fewest candidates: each candidate in
    /// turn is placed in a copy of the grid, which is solved; the solutions of
    /// all branches are gathered.
    #[verifier::rlimit(40)]
    fn split_solutions(&self) -> (r: Result<Vec<SudokuState>, SudokuError>)
        requires
            self.is_consistent(),
            !self.is_complete(),
        ensures
            r matches Ok(v) ==> v@.len() > 0 && self.solution_list(v@),
            r is Err ==> self.unsolvable(),
            r matches Ok(v) ==> exists|x: int, y: int| self.fewest_candidates(x, y) && #[trigger] Self::ascending_at(v@, x, y),
        decreases self.empties(), 0nat,
    {
        let point = self.find_best_split_point();
        let ghost x = point.x();
        let ghost y = point.y();
        let values = self.find_allowed_values_at_point(&point);
        let ghost c = self.candidates(x, y);
        proof {
            reveal(SudokuState::fewest_candidates);
            self.lemma_candidates_upto(x, y, 9);
            assert(values@.map_values(|v: SudokuValue| v.digit()).len() == values@.len());
            self.lemma_at_range();
        }
        let mut ret: Vec<SudokuState> = Vec::new();
        proof {
            assert forall|s: SudokuState| #[trigger] s.is_solution_of(*self) implies !(0 < c.len() ==> s.at(x, y) < c[0]) by {
                self.lemma_solution_value_is_candidate(s, x, y);
                let jj = choose|jj: int| 0 <= jj < c.len() && c[jj] == s.at(x, y);
                if jj > 0 {
                    assert(c[0] < c[jj]);
                }
            }
        }
        let mut i: usize = 0;
        while i < values.len()
            invariant
                self.is_consistent(),
                point.wf(),
                x == point.x(),
                y == point.y(),
                self.at(x, y) == 0,
                values@.map_values(|v: SudokuValue| v.digit()) == c,
                c == self.candidates(x, y),
                values@.len() == c.len(),
                c.len() <= 9,
                forall|j: int| 0 <= j < c.len() ==> self.is_candidate(x, y, #[trigger] c[j]),
                forall|j: int, l: int| 0 <= j < l < c.len() ==> #[trigger] c[j] < #[trigger] c[l],
                forall|d: int| 1 <= d <= 9 && #[trigger] self.is_candidate(x, y, d) ==> exists|j: int| 0 <= j < c.len() && c[j] == d,
                i <= values@.len(),
                forall|j: int| 0 <= j < ret@.len() ==> (#[trigger] ret@[j]).is_solution_of(*self),
                forall|j: int| 0 <= j < ret@.len() ==> (i < c.len() ==> (#[trigger] ret@[j]).at(x, y) < c[i as int]),
                forall|j: int, l: int| 0 <= j < ret@.len() && 0 <= l < ret@.len() && j != l ==> !(#[trigger] ret@[j]).same_grid(#[trigger] ret@[l]),
                forall|j: int, l: int| 0 <= j < l < ret@.len() ==> (#[trigger] ret@[j]).at(x, y) <= (#[trigger] ret@[l]).at(x, y),
                self.fewest_candidates(x, y),
                forall|s: SudokuState| #[trigger] s.is_solution_of(*self) && (i < c.len() ==> s.at(x, y) < c[i as int]) ==> exists|j: int|
                    0 <= j < ret@.len() && (#[trigger] ret@[j]).same_grid(s),
            decreases values@.len() - i,
        {
            let value = values[i];
            let ghost d = value.digit();
            proof {
                assert(values@.map_values(|v: SudokuValue| v.digit())[i as int] == d);
            }
            let mut clone = *self;
            clone.set(&point, value);
            proof {
                self.lemma_child(clone, x, y, d);
                let j = x * 9 + y;
                assert(j / 9 == x && j % 9 == y);
                self.lemma_empties_strict(clone, 81, j);
            }
            match clone.solve() {
                Ok(mut solutions) => {
                    let ghost old_ret = ret@;
                    let ghost sols = solutions@;
                    ret.append(&mut solutions);
                    proof {
                        assert(ret@ == old_ret + sols);
                        assert forall|j: int| 0 <= j < ret@.len() implies (#[trigger] ret@[j]).is_solution_of(*self)
                            && (i + 1 < c.len() ==> ret@[j].at(x, y) < c[i + 1]) by {
                            if j >= old_ret.len() {
                                assert(ret@[j] == sols[j - old_ret.len()]);
                            }
                        }
                        assert forall|j: int, l: int| 0 <= j < l < ret@.len() implies (#[trigger] ret@[j]).at(x, y) <= (#[trigger] ret@[l]).at(x, y) by {
                            if l >= old_ret.len() {
                                assert(ret@[l] == sols[l - old_ret.len()]);
                                if j >= old_ret.len() {
                                    assert(ret@[j] == sols[j - old_ret.len()]);
                                }
                            }
                        }
                        assert forall|j: int, l: int| 0 <= j < ret@.len() && 0 <= l < ret@.len() && j != l implies !(#[trigger] ret@[j]).same_grid(#[trigger] ret@[l]) by {
                            if ret@[j].same_grid(ret@[l]) {
                                if j < old_ret.len() && l >= old_ret.len() {
                                    assert(ret@[l] == sols[l - old_ret.len()]);
                                    assert(ret@[l].at(x, y) == d);
                                } else if j >= old_ret.len() && l < old_ret.len() {
                                    assert(ret@[j] == sols[j - old_ret.len()]);
                                    assert(ret@[j].at(x, y) == d);
                                } else if j >= old_ret.len() && l >= old_ret.len() {
                                    assert(ret@[j] == sols[j - old_ret.len()]);
                                    assert(ret@[l] == sols[l - old_ret.len()]);
                                }
                            }
                        }
                        assert forall|s: SudokuState| #[trigger] s.is_solution_of(*self) && (i + 1 < c.len() ==> s.at(x, y) < c[i + 1]) implies exists|j: int|
                            0 <= j < ret@.len() && (#[trigger] ret@[j]).same_grid(s) by {
                            self.lemma_solution_value_is_candidate(s, x, y);
                            if s.at(x, y) < d {
                                let j = choose|j: int| 0 <= j < old_ret.len() && (#[trigger] old_ret[j]).same_grid(s);
                                assert(ret@[j] == old_ret[j]);
                            } else if s.at(x, y) == d {
                                assert(s.is_solution_of(clone));
                                let j = choose|j: int| 0 <= j < sols.len() && (#[trigger] sols[j]).same_grid(s);
                                assert(ret@[old_ret.len() + j] == sols[j]);
                            } else {
                                let jj = choose|jj: int| 0 <= jj < c.len() && c[jj] == s.at(x, y);
                                if jj <= i {
                                    assert(c[jj] <= c[i as int]);
                                }
                            }
                        }
                    }
                },
                Err(_) => {
                    proof {
                        assert forall|s: SudokuState| #[trigger] s.is_solution_of(*self) && (i + 1 < c.len() ==> s.at(x, y) < c[i + 1]) implies exists|j: int|
                            0 <= j < ret@.len() && (#[trigger] ret@[j]).same_grid(s) by {
                            self.lemma_solution_value_is_candidate(s, x, y);
                            if s.at(x, y) == d {
                                assert(s.is_solution_of(clone));
                            } else if s.at(x, y) > d {
                                let jj = choose|jj: int| 0 <= jj < c.len() && c[jj] == s.at(x, y);
                                if jj <= i {
                                    assert(c[jj] <= c[i as int]);
                                }
                            }
                        }
                        assert forall|j: int| 0 <= j < ret@.len() && i + 1 < c.len() implies (#[trigger] ret@[j]).at(x, y) < c[i + 1] by {
                        }
                    }
                },
            }
            i = i + 1;
        }
        if ret.len() > 0 {
            proof {
                assert(Self::ascending_at(ret@, x, y));
                assert(self.branches_in_order(ret@, x, y));
                assert(self.fewest_candidates(x, y));
            }
            let result: Result<Vec<SudokuState>, SudokuError> = Ok(ret);
            proof {
                assert(result->Ok_0@ == ret@);
                assert(self.fewest_candidates(x, y) && Self::ascending_at(result->Ok_0@, x, y));
            }
            result
        } else {
            proof {
                assert forall|s: SudokuState| !(#[trigger] s.is_solution_of(*self)) by {
                    if s.is_solution_of(*self) {
                        self.lemma_solution_value_is_candidate(s, x, y);
                    }
                }
            }
            Err(SudokuError())
        }
    }

    /// The empty cell with the fewest candidates; on a tie, the last such cell
    /// in column-by-column order.
    fn find_best_split_point(&self) -> (r: SudokuPoint)
        requires
            !self.is_complete(),
        ensures
            r.wf(),
            self.at(r.x(), r.y()) == 0,
            forall|x: int, y: int|
                on_grid(x, y) && #[trigger] self.at(x, y) == 0 ==> self.candidates(r.x(), r.y()).len() <= self.candidates(x, y).len(),
    {
        let points = SudokuPoint::all_points();
        let mut best = points[0];
        let mut best_len = self.find_allowed_values_at_point(&best).len();
        let mut k: usize = 1;
        while k < points.len()
            invariant
                points@.len() == 81,
                forall|j: int| 0 <= j < 81 ==> (#[trigger] points@[j]).x() == j / 9 && points@[j].y() == j % 9,
                1 <= k <= 81,
                best.wf(),
                best_len == self.candidates(best.x(), best.y()).len(),
                self.at(best.x(), best.y()) != 0 ==> forall|j: int| 0 <= j < k ==> #[trigger] self.at(j / 9, j % 9) != 0,
                self.at(best.x(), best.y()) == 0 ==> forall|j: int|
                    0 <= j < k && #[trigger] self.at(j / 9, j % 9) == 0 ==> best_len <= self.candidates(j / 9, j % 9).len(),
            decreases 81 - k,
        {
            let p = points[k];
            let p_len = self.find_allowed_values_at_point(&p).len();
            if self.get(&best) != SudokuValue::Empty {
                best = p;
                best_len = p_len;
            } else if self.get(&p) != SudokuValue::Empty || best_len < p_len {
            } else {
                best = p;
                best_len = p_len;
            }
            k = k + 1;
        }
        proof {
            let (ex, ey) = choose|ex: int, ey: int| on_grid(ex, ey) && #[trigger] self.at(ex, ey) == 0;
            let e = ex * 9 + ey;
            assert(e / 9 == ex && e % 9 == ey);
            assert(self.at(e / 9, e % 9) == 0);
            assert forall|x: int, y: int| on_grid(x, y) && #[trigger] self.at(x, y) == 0 implies self.candidates(best.x(), best.y()).len() <= self.candidates(x, y).len() by {
                let j = x * 9 + y;
                assert(j / 9 == x && j % 9 == y);
                assert(self.at(j / 9, j % 9) == 0);
            }
        }
        best
    }

    /// Whether no digit occurs twice in a row, a column or a block.
    pub fn has_no_conflicts(&self) -> (r: bool)
        ensures
            r == self.is_consistent(),
    {
        let points = SudokuPoint::all_points();
        let mut k: usize = 0;
        while k < points.len()
            invariant
                points@.len() == 81,
                forall|j: int| 0 <= j < 81 ==> (#[trigger] points@[j]).x() == j / 9 && points@[j].y() == j % 9,
                k <= 81,
                forall|j: int| 0 <= j < k ==> #[trigger] self.no_conflict_at(j / 9, j % 9),
            decreases 81 - k,
        {
            let p = points[k];
            let value = self.get(&p);
            if value != SudokuValue::Empty {
                let row = p.get_horizontal_matching();
                let column = p.get_vertical_matching();
                let block = p.get_block_matching();
                let clash = self.conflicts_in(&p, value, &row) || self.conflicts_in(&p, value, &column)
                    || self.conflicts_in(&p, value, &block);
                proof {
                    lemma_groups_through(p.x(), p.y());
                }
                if clash {
                    return false;
                }
                proof {
                    assert forall|x2: int, y2: int|
                        on_grid(x2, y2) && same_group(p.x(), p.y(), x2, y2) && (p.x() != x2 || p.y() != y2) implies
                            #[trigger] self.at(x2, y2) != self.at(p.x(), p.y()) by {
                        lemma_peer_in_groups(p.x(), p.y(), x2, y2);
                        if y2 == p.y() {
                            assert(row@[x2].is((x2, y2)));
                        } else if x2 == p.x() {
                            assert(column@[y2].is((x2, y2)));
                        } else {
                            assert(block@[x2 % 3 * 3 + y2 % 3].is((x2, y2)));
                        }
                    }
                }
            }
            assert(self.no_conflict_at(k as int / 9, k as int % 9));
            k = k + 1;
        }
        proof {
            assert forall|x1: int, y1: int, x2: int, y2: int|
                on_grid(x1, y1) && on_grid(x2, y2) && same_group(x1, y1, x2, y2) && (x1 != x2 || y1 != y2)
                    && #[trigger] self.at(x1, y1) != 0 implies self.at(x1, y1) != #[trigger] self.at(x2, y2) by {
                let j = x1 * 9 + y1;
                assert(j / 9 == x1 && j % 9 == y1);
                assert(self.no_conflict_at(j / 9, j % 9));
            }
        }
        true
    }

    /// Whether a point of `points` other than `p` holds `value`.
    fn conflicts_in(&self, p: &SudokuPoint, value: SudokuValue, points: &[SudokuPoint; 9]) -> (r: bool)
        requires
            p.wf(),
            forall|i: int| 0 <= i < 9 ==> (#[trigger] points@[i]).wf() && same_group(p.x(), p.y(), points@[i].x(), points@[i].y()),
        ensures
            !r <==> forall|i: int| 0 <= i < 9 && #[trigger] points@[i] != *p ==> self.at(points@[i].x(), points@[i].y()) != value.digit(),
            r ==> !self.is_consistent() || value.digit() != self.at(p.x(), p.y()) || value.digit() == 0,
    {
        let mut i: usize = 0;
        while i < 9
            invariant
                p.wf(),
                forall|i: int| 0 <= i < 9 ==> (#[trigger] points@[i]).wf() && same_group(p.x(), p.y(), points@[i].x(), points@[i].y()),
                i <= 9,
                forall|j: int| 0 <= j < i && #[trigger] points@[j] != *p ==> self.at(points@[j].x(), points@[j].y()) != value.digit(),
            decreases 9 - i,
        {
            let q = points[i];
            if q != *p && self.get(&q) == value {
                return true;
            }
            i = i + 1;
        }
        false
    }

    /// Every peer group of a solved grid holds each digit from one to nine in
    /// exactly one of its nine cells.
    pub proof fn law_solved_groups_hold_each_digit_once(self, k: int, d: int)
        requires
            self.is_solved(),
            0 <= k < 27,
            1 <= d <= 9,
        ensures
            exists|i: int|
                0 <= i < 9 && self.at_cell(#[trigger] group_cell(k, i)) == d && forall|j: int|
                    0 <= j < 9 && j != i ==> self.at_cell(#[trigger] group_cell(k, j)) != d,
    {
        self.lemma_group_holds_digit(k, d);
        lemma_group_cells(k);
        let i = choose|i: int| 0 <= i < 9 && self.at_cell(group_cell(k, i)) == d;
        assert forall|j: int| 0 <= j < 9 && j != i implies self.at_cell(#[trigger] group_cell(k, j)) != d by {
            let ci = group_cell(k, i);
            let cj = group_cell(k, j);
            assert(ci != cj);
            assert(same_group(ci.0, ci.1, cj.0, cj.1));
        }
    }

    /// Every listed solution is solved and keeps each filled cell of the puzzle.
    pub proof fn law_solutions_are_valid_and_faithful(self, v: Seq<SudokuState>, i: int, x: int, y: int)
        requires
            self.solution_list(v),
            0 <= i < v.len(),
            on_grid(x, y),
        ensures
            v[i].is_solved(),
            self.at(x, y) != 0 ==> v[i].at(x, y) == self.at(x, y),
    {
    }

    /// A puzzle whose solutions are all the grid `s` gets a list of exactly one
    /// solution, which is `s`.
    pub proof fn law_unique_solution(self, s: SudokuState, v: Seq<SudokuState>)
        requires
            s.is_solution_of(self),
            forall|t: SudokuState| #[trigger] t.is_solution_of(self) ==> t.same_grid(s),
            self.solution_list(v),
        ensures
            v.len() == 1,
            v[0].same_grid(s),
    {
        let i = choose|i: int| 0 <= i < v.len() && (#[trigger] v[i]).same_grid(s);
        if v.len() > 1 {
            let j = if i == 0 { 1int } else { 0int };
            assert(v[j].is_solution_of(self));
            assert(v[j].same_grid(s));
            assert(v[i].same_grid(v[j]));
        }
    }

    /// A puzzle with two different solutions gets a list that holds both, at
    /// two different places.
    pub proof fn law_ambiguous_puzzle(self, s1: SudokuState, s2: SudokuState, v: Seq<SudokuState>)
        requires
            s1.is_solution_of(self),
            s2.is_solution_of(self),
            !s1.same_grid(s2),
            self.solution_list(v),
        ensures
            v.len() >= 2,
            exists|i: int, j: int|
                0 <= i < v.len() && 0 <= j < v.len() && i != j && (#[trigger] v[i]).same_grid(s1)
                    && (#[trigger] v[j]).same_grid(s2),
    {
        let i = choose|i: int| 0 <= i < v.len() && (#[trigger] v[i]).same_grid(s1);
        let j = choose|j: int| 0 <= j < v.len() && (#[trigger] v[j]).same_grid(s2);
        if i == j {
            assert forall|x: int, y: int| on_grid(x, y) implies #[trigger] s1.at(x, y) == s2.at(x, y) by {
                assert(v[i].at(x, y) == s1.at(x, y));
                assert(v[j].at(x, y) == s2.at(x, y));
            }
        }
    }

    /// A grid with the same digit twice in a row, a column or a block has no
    /// solution, so no list of its solutions holds any grid.
    pub proof fn law_conflicting_grid_is_unsolvable(self, v: Seq<SudokuState>)
        requires
            !self.is_consistent(),
        ensures
            self.unsolvable(),
            self.solution_list(v) ==> v.len() == 0,
    {
        self.lemma_conflict_unsolvable();
        if self.solution_list(v) && v.len() > 0 {
            assert(v[0].is_solution_of(self));
        }
    }

    /// A solved grid is its own and only solution.
    pub proof fn law_solved_grid_is_fixed_point(self, v: Seq<SudokuState>)
        requires
            self.is_solved(),
            self.solution_list(v),
        ensures
            v.len() == 1,
            v[0].same_grid(self),
    {
        assert(self.is_solution_of(self));
        assert forall|t: SudokuState| #[trigger] t.is_solution_of(self) implies t.same_grid(self) by {}
        self.law_unique_solution(self, v);
    }

    /// The values at the given points, in their order.
    fn get_values_at_points(&self, points: &[SudokuPoint; 9]) -> (r: Vec<SudokuValue>)
        requires
            forall|i: int| 0 <= i < 9 ==> (#[trigger] points@[i]).wf(),
        ensures
            r@.len() == 9,
            forall|i: int| 0 <= i < 9 ==> (#[trigger] r@[i]).digit() == self.at(points@[i].x(), points@[i].y()),
    {
        let mut r: Vec<SudokuValue> = Vec::new();
        let mut i: usize = 0;
        while i < 9
            invariant
                forall|j: int| 0 <= j < 9 ==> (#[trigger] points@[j]).wf(),
                i <= 9,
                r@.len() == i,
                forall|j: int| 0 <= j < i ==> (#[trigger] r@[j]).digit() == self.at(points@[j].x(), points@[j].y()),
            decreases 9 - i,
        {
            r.push(self.get(&points[i]));
            i = i + 1;
        }
        r
    }

    /// The values in the row of the point, from left to right.
    fn find_horizontal_matching_point(&self, point: &SudokuPoint) -> (r: Vec<SudokuValue>)
        requires
            point.wf(),
        ensures
            r@.len() == 9,
            forall|i: int| 0 <= i < 9 ==> (#[trigger] r@[i]).digit() == self.at_cell(group_cell(point.y(), i)),
    {
        self.get_values_at_points(&point.get_horizontal_matching())
    }

    /// The values in the column of the point, from top to bottom.
    fn find_vertical_matching_point(&self, point: &SudokuPoint) -> (r: Vec<SudokuValue>)
        requires
            point.wf(),
        ensures
            r@.len() == 9,
            forall|i: int| 0 <= i < 9 ==> (#[trigger] r@[i]).digit() == self.at_cell(group_cell(point.x() + 9, i)),
    {
        self.get_values_at_points(&point.get_vertical_matching())
    }

    /// The values in the block of the point.
    fn find_block_matching_point(&self, point: &SudokuPoint) -> (r: Vec<SudokuValue>)
        requires
            point.wf(),
        ensures
            r@.len() == 9,
            forall|i: int|
                0 <= i < 9 ==> (#[trigger] r@[i]).digit() == self.at_cell(
                    group_cell(block_of(point.x(), point.y()), i),
                ),
    {
        self.get_values_at_points(&point.get_block_matching())
    }

    /// The candidates of the point, in ascending order; none for a filled cell.
    pub fn find_allowed_values_at_point(&self, point: &SudokuPoint) -> (r: Vec<SudokuValue>)
        requires
            point.wf(),
        ensures
            r@.map_values(|v: SudokuValue| v.digit()) == self.candidates(point.x(), point.y()),
    {
        let x = Ghost(point.x());
        let y = Ghost(point.y());
        if self.get(point) != SudokuValue::Empty {
            proof {
                self.lemma_candidates_of_filled(x@, y@, 9);
            }
            let r: Vec<SudokuValue> = Vec::new();
            assert(r@.map_values(|v: SudokuValue| v.digit()) =~= Seq::<int>::empty());
            return r;
        }
        let horizontal = self.find_horizontal_matching_point(point);
        let vertical = self.find_vertical_matching_point(point);
        let block = self.find_block_matching_point(point);
        proof {
            lemma_groups_through(x@, y@);
        }
        let all = SudokuValue::all_values();
        let mut r: Vec<SudokuValue> = Vec::new();
        let mut i: usize = 0;
        while i < 9
            invariant
                point.wf(),
                x@ == point.x(),
                y@ == point.y(),
                self.at(x@, y@) == 0,
                forall|j: int| 0 <= j < 9 ==> #[trigger] all@[j].digit() == j + 1,
                horizontal@.len() == 9,
                vertical@.len() == 9,
                block@.len() == 9,
                forall|j: int| 0 <= j < 9 ==> (#[trigger] horizontal@[j]).digit() == self.at_cell(group_cell(y@, j)),
                forall|j: int| 0 <= j < 9 ==> (#[trigger] vertical@[j]).digit() == self.at_cell(group_cell(x@ + 9, j)),
                forall|j: int| 0 <= j < 9 ==> (#[trigger] block@[j]).digit() == self.at_cell(group_cell(block_of(x@, y@), j)),
                forall|j: int|
                    0 <= j < 9 ==> #[trigger] group_cell(y@, j) == (j, y@) && group_cell(x@ + 9, j) == (x@, j),
                forall|j: int|
                    0 <= j < 9 ==> on_grid(#[trigger] group_cell(block_of(x@, y@), j).0, group_cell(block_of(x@, y@), j).1)
                        && same_group(x@, y@, group_cell(block_of(x@, y@), j).0, group_cell(block_of(x@, y@), j).1),
                i <= 9,
                r@.map_values(|v: SudokuValue| v.digit()) == self.candidates_upto(x@, y@, i as int),
            decreases 9 - i,
        {
            let value = all[i];
            let d = Ghost(i as int + 1);
            let found = contains_value(&horizontal, value) || contains_value(&vertical, value)
                || contains_value(&block, value);
            proof {
                if found {
                    assert(!self.is_candidate(x@, y@, d@)) by {
                        if contains_value_spec(horizontal@, d@) {
                            let j = choose|j: int| 0 <= j < 9 && (#[trigger] horizontal@[j]).digit() == d@;
                            assert(self.at(j, y@) == d@);
                        } else if contains_value_spec(vertical@, d@) {
                            let j = choose|j: int| 0 <= j < 9 && (#[trigger] vertical@[j]).digit() == d@;
                            assert(self.at(x@, j) == d@);
                        } else {
                            let j = choose|j: int| 0 <= j < 9 && (#[trigger] block@[j]).digit() == d@;
                            let c = group_cell(block_of(x@, y@), j);
                            assert(self.at(c.0, c.1) == d@);
                        }
                    }
                } else {
                    assert forall|x2: int, y2: int|
                        on_grid(x2, y2) && same_group(x@, y@, x2, y2) implies #[trigger] self.at(x2, y2) != d@ by {
                        lemma_peer_in_groups(x@, y@, x2, y2);
                        if y2 == y@ {
                            assert(horizontal@[x2].digit() == self.at(x2, y2));
                        } else if x2 == x@ {
                            assert(vertical@[y2].digit() == self.at(x2, y2));
                        } else {
                            assert(block@[x2 % 3 * 3 + y2 % 3].digit() == self.at(x2, y2));
                        }
                    }
                    assert(self.is_candidate(x@, y@, d@));
                }
            }
            if !found {
                r.push(value);
            }
            i = i + 1;
            assert(r@.map_values(|v: SudokuValue| v.digit()) =~= self.candidates_upto(x@, y@, i as int));
        }
        r
    }

    /// Applies the naked-single rule at the point: an empty cell with one
    /// candidate gets it; an empty cell with none shows that the grid has no
    /// solution.
    pub fn reduce_at_point(&mut self, point: &SudokuPoint) -> (r: Result<(), SudokuError>)
        requires
            point.wf(),
            old(self).is_consistent(),
        ensures
            r is Err <==> old(self).at(point.x(), point.y()) == 0 && old(self).candidates(point.x(), point.y()).len() == 0,
            forall|x2: int, y2: int|
                on_grid(x2, y2) ==> #[trigger] final(self).at(x2, y2) == if x2 == point.x() && y2 == point.y()
                    && old(self).at(x2, y2) == 0 && old(self).candidates(x2, y2).len() == 1 {
                    old(self).candidates(x2, y2)[0]
                } else {
                    old(self).at(x2, y2)
                },
            final(self).is_consistent(),
            r is Ok ==> old(self).refined_by(*final(self)),
            r is Err ==> old(self).unsolvable(),
    {
        let ghost x = point.x();
        let ghost y = point.y();
        let ghost before = *self;
        proof {
            before.lemma_refined_refl();
        }
        if self.get(point) == SudokuValue::Empty {
            let values = self.find_allowed_values_at_point(point);
            proof {
                before.lemma_candidates_upto(x, y, 9);
                assert(values@.map_values(|v: SudokuValue| v.digit()).len() == values@.len());
            }
            if values.len() == 1 {
                let value = values[0];
                proof {
                    assert(values@.map_values(|v: SudokuValue| v.digit())[0] == value.digit());
                    assert forall|s: SudokuState| #[trigger] s.is_solution_of(before) implies s.at(x, y)
                        == value.digit() by {
                        before.lemma_solution_value_is_candidate(s, x, y);
                    }
                }
                self.set(point, value);
                proof {
                    before.lemma_place_candidate(*self, x, y, value.digit());
                }
            } else if values.len() == 0 {
                proof {
                    assert forall|s: SudokuState| !(#[trigger] s.is_solution_of(before)) by {
                        if s.is_solution_of(before) {
                            before.lemma_solution_value_is_candidate(s, x, y);
                        }
                    }
                }
                return Err(SudokuError());
            }
        }
        Ok(())
    }

    /// The points among `points` where `value` is a candidate.
    fn get_points_that_can_be_value(&self, points: &[SudokuPoint; 9], value: SudokuValue) -> (r: Vec<SudokuPoint>)
        requires
            forall|i: int| 0 <= i < 9 ==> (#[trigger] points@[i]).wf(),
        ensures
            forall|j: int|
                0 <= j < r@.len() ==> self.is_candidate((#[trigger] r@[j]).x(), r@[j].y(), value.digit())
                    && index_in(points@, r@[j]),
            forall|i: int|
                0 <= i < 9 && self.is_candidate((#[trigger] points@[i]).x(), points@[i].y(), value.digit())
                    ==> index_in(r@, points@[i]),
            r@ == self.candidate_points(points@, value.digit(), 9),
    {
        let mut r: Vec<SudokuPoint> = Vec::new();
        let mut i: usize = 0;
        while i < 9
            invariant
                forall|l: int| 0 <= l < 9 ==> (#[trigger] points@[l]).wf(),
                i <= 9,
                forall|j: int|
                    0 <= j < r@.len() ==> self.is_candidate((#[trigger] r@[j]).x(), r@[j].y(), value.digit())
                        && index_in(points@, r@[j]),
                forall|l: int|
                    0 <= l < i && self.is_candidate((#[trigger] points@[l]).x(), points@[l].y(), value.digit())
                        ==> index_in(r@, points@[l]),
                r@ == self.candidate_points(points@, value.digit(), i as int),
            decreases 9 - i,
        {
            let point = points[i];
            let values = self.find_allowed_values_at_point(&point);
            let found = contains_value(&values, value);
            proof {
                let c = self.candidates(point.x(), point.y());
                self.lemma_candidates_upto(point.x(), point.y(), 9);
                assert(values@.map_values(|v: SudokuValue| v.digit()).len() == values@.len());
                if found {
                    let j = choose|j: int| 0 <= j < values@.len() && (#[trigger] values@[j]).digit() == value.digit();
                    assert(values@.map_values(|v: SudokuValue| v.digit())[j] == value.digit());
                    assert(self.is_candidate(point.x(), point.y(), c[j]));
                } else if self.is_candidate(point.x(), point.y(), value.digit()) {
                    let j = choose|j: int| 0 <= j < c.len() && c[j] == value.digit();
                    assert(values@.map_values(|v: SudokuValue| v.digit())[j] == values@[j].digit());
                }
                assert(points@[i as int] == point);
                assert(index_in(points@, point));
            }
            let ghost r0 = r@;
            if found {
                r.push(point);
                proof {
                    assert(r@[r0.len() as int] == point);
                    assert(index_in(r@, point));
                    assert forall|j: int| 0 <= j < r0.len() implies r@[j] == r0[j] by {}
                    assert forall|l: int| 0 <= l < i && index_in(r0, points@[l]) implies index_in(r@, points@[l]) by {
                        let j = choose|j: int| 0 <= j < r0.len() && r0[j] == points@[l];
                        assert(r@[j] == points@[l]);
                    }
                }
            }
            i = i + 1;
            assert(r@ =~= self.candidate_points(points@, value.digit(), i as int));
        }
        r
    }

    /// Applies the hidden-single rule to one peer group: a digit that is a
    /// candidate in exactly one cell of the group is placed there.
    fn reduce_ruled_points(&mut self, points: [SudokuPoint; 9])
        requires
            old(self).is_consistent(),
            exists|k: int| #[trigger] lists_group(points, k),
        ensures
            old(self).refined_by(*final(self)),
            forall|k: int|
                #[trigger] lists_group(points, k) ==> old(self).hidden_upto(*final(self), k, 9) && (old(self).no_hidden_single(k)
                    <==> final(self).same_grid(*old(self))),
    {
        let ghost k = choose|k: int| #[trigger] lists_group(points, k);
        let ghost before = *self;
        proof {
            before.lemma_refined_refl();
            lemma_group_cells(k);
        }
        let all = SudokuValue::all_values();
        let ghost mut trace: Seq<SudokuState> = seq![*self];
        let mut n: usize = 0;
        while n < 9
            invariant
                0 <= k < 27,
                forall|i: int| 0 <= i < 9 ==> (#[trigger] points@[i]).is(group_cell(k, i)),
                forall|i: int| 0 <= i < 9 ==> on_grid(#[trigger] group_cell(k, i).0, group_cell(k, i).1),
                forall|i: int, j: int|
                    0 <= i < 9 && 0 <= j < 9 ==> same_group(
                        #[trigger] group_cell(k, i).0,
                        group_cell(k, i).1,
                        #[trigger] group_cell(k, j).0,
                        group_cell(k, j).1,
                    ),
                forall|j: int| 0 <= j < 9 ==> #[trigger] all@[j].digit() == j + 1,
                n <= 9,
                before.refined_by(*self),
                lists_group(points, k),
                before.hidden_trace(trace, *self, k, n as int),
                (forall|d: int| 1 <= d <= n ==> #[trigger] before.group_candidates(k, d, 9).len() != 1) ==> self.same_grid(before),
                self.same_grid(before) ==> forall|d: int| 1 <= d <= n ==> #[trigger] before.group_candidates(k, d, 9).len() != 1,
            decreases 9 - n,
        {
            let value = all[n];
            let matching = self.get_points_that_can_be_value(&points, value);
            let ghost cur = *self;
            let ghost d = value.digit();
            proof {
                assert(d == n + 1);
                cur.lemma_candidate_points_group(points, k, d, 9);
                cur.lemma_group_candidates(k, d, 9);
                if cur.same_grid(before) {
                    cur.lemma_same_grid_candidates(before);
                }
            }
            if matching.len() == 1 {
                let m = matching[0];
                proof {
                    assert(index_in(matching@, matching@[0]));
                    let im = choose|im: int| 0 <= im < points@.len() && points@[im] == m;
                    assert(points@[im].is(group_cell(k, im)));
                    assert forall|i: int|
                        0 <= i < 9 && cur.is_candidate(#[trigger] group_cell(k, i).0, group_cell(k, i).1, d) implies group_cell(k, i) == (m.x(), m.y()) by {
                        assert(points@[i].is(group_cell(k, i)));
                        let j = choose|j: int| 0 <= j < matching@.len() && matching@[j] == points@[i];
                    }
                    cur.lemma_hidden_single(k, im, d);
                }
                self.set(&m, value);
                proof {
                    cur.lemma_place_candidate(*self, m.x(), m.y(), d);
                    before.lemma_refined_trans(cur, *self);
                    assert(cur.with_digit(*self, cur.group_candidates(k, d, 9)[0], d));
                    assert(cur.hidden_step(*self, k, d));
                    if self.same_grid(before) {
                        before.lemma_sandwich(cur, *self);
                        assert(self.at(m.x(), m.y()) == d);
                    }
                }
            } else {
                proof {
                    assert(cur.hidden_step(*self, k, d));
                }
            }
            proof {
                assert(cur.hidden_step(*self, k, n + 1));
                let t2 = trace.push(*self);
                assert forall|j: int| 0 <= j < n + 1 implies (#[trigger] t2[j]).hidden_step(t2[j + 1], k, j + 1) by {
                    if j < n {
                        assert(t2[j] == trace[j] && t2[j + 1] == trace[j + 1]);
                    }
                }
                assert(before.hidden_trace(t2, *self, k, n + 1));
                if forall|d2: int| 1 <= d2 <= n + 1 ==> #[trigger] before.group_candidates(k, d2, 9).len() != 1 {
                    assert(cur.same_grid(before));
                    assert(before.group_candidates(k, d, 9).len() != 1);
                }
                if self.same_grid(before) {
                    before.lemma_sandwich(cur, *self);
                }
            }
            proof {
                trace = trace.push(*self);
            }
            n = n + 1;
        }
        proof {
            assert(before.hidden_trace(trace, *self, k, 9));
            assert forall|k2: int| #[trigger] lists_group(points, k2) implies k2 == k by {
                lemma_lists_group_unique(points, k, k2);
            }
        }
    }

    /// Applies the hidden-single rule to every row, from top to bottom.
    fn reduce_horizontal_lines(&mut self)
        requires
            old(self).is_consistent(),
        ensures
            old(self).refined_by(*final(self)),
            old(self).groups_upto(*final(self), 0, 9),
            (forall|k: int| 0 <= k < 9 ==> #[trigger] old(self).no_hidden_single(k)) <==> final(self).same_grid(*old(self)),
    {
        let lines = SudokuPoint::get_horizontal_lines();
        self.reduce_group_list(&lines, Ghost(0));
    }

    /// Applies the hidden-single rule to every column, from left to right.
    fn reduce_vertical_lines(&mut self)
        requires
            old(self).is_consistent(),
        ensures
            old(self).refined_by(*final(self)),
            old(self).groups_upto(*final(self), 9, 9),
            (forall|k: int| 9 <= k < 18 ==> #[trigger] old(self).no_hidden_single(k)) <==> final(self).same_grid(*old(self)),
    {
        let lines = SudokuPoint::get_vertical_lines();
        self.reduce_group_list(&lines, Ghost(9));
    }

    /// Applies the hidden-single rule to every block, in the order of `get_blocks`.
    pub fn reduce_blocks(&mut self)
        requires
            old(self).is_consistent(),
        ensures
            old(self).refined_by(*final(self)),
            old(self).groups_upto(*final(self), 18, 9),
            (forall|k: int| 18 <= k < 27 ==> #[trigger] old(self).no_hidden_single(k)) <==> final(self).same_grid(*old(self)),
    {
        let blocks = SudokuPoint::get_blocks();
        self.reduce_group_list(&blocks, Ghost(18));
    }

    /// Applies the hidden-single rule to the nine groups `k0` to `k0 + 8`, in order.
    fn reduce_group_list(&mut self, groups: &Vec<[SudokuPoint; 9]>, k0: Ghost<int>)
        requires
            old(self).is_consistent(),
            0 <= k0@ <= 18,
            groups@.len() == 9,
            forall|g: int, j: int| 0 <= g < 9 && 0 <= j < 9 ==> (#[trigger] groups@[g]@[j]).is(group_cell(k0@ + g, j)),
        ensures
            old(self).refined_by(*final(self)),
            old(self).groups_upto(*final(self), k0@, 9),
            (forall|k: int| k0@ <= k < k0@ + 9 ==> #[trigger] old(self).no_hidden_single(k)) <==> final(self).same_grid(*old(self)),
    {
        let ghost before = *self;
        let ghost k0 = k0@;
        let ghost mut trace: Seq<SudokuState> = seq![*self];
        proof {
            before.lemma_refined_refl();
        }
        let mut i: usize = 0;
        while i < 9
            invariant
                0 <= k0 <= 18,
                groups@.len() == 9,
                forall|g: int, j: int| 0 <= g < 9 && 0 <= j < 9 ==> (#[trigger] groups@[g]@[j]).is(group_cell(k0 + g, j)),
                i <= 9,
                before.refined_by(*self),
                before.groups_trace(trace, *self, k0, i as int),
                (forall|k: int| k0 <= k < k0 + i ==> #[trigger] before.no_hidden_single(k)) ==> self.same_grid(before),
                self.same_grid(before) ==> forall|k: int| k0 <= k < k0 + i ==> #[trigger] before.no_hidden_single(k),
            decreases 9 - i,
        {
            let ghost cur = *self;
            let ghost kk = k0 + i;
            assert(lists_group(groups@[i as int], kk));
            self.reduce_ruled_points(groups[i]);
            proof {
                assert(cur.hidden_upto(*self, kk, 9));
                before.lemma_groups_trace_push(trace, cur, *self, k0, i as int);
                before.lemma_group_step_same(cur, *self, k0, i as int);
                before.lemma_refined_trans(cur, *self);
                trace = trace.push(*self);
            }
            i = i + 1;
        }
        proof {
            assert(before.groups_trace(trace, *self, k0, 9));
        }
    }

    /// One pass of propagation: the naked-single rule at every cell, then the
    /// hidden-single rule on every row, column and block.
    #[verifier::rlimit(60)]
    fn reduce_once(&mut self) -> (r: Result<(), SudokuError>)
        requires
            old(self).is_consistent(),
        ensures
            final(self).is_consistent(),
            r is Ok ==> old(self).refined_by(*final(self)),
            r is Err ==> old(self).unsolvable(),
            (exists|x: int, y: int| on_grid(x, y) && #[trigger] old(self).at(x, y) == 0 && old(self).candidates(x, y).len() == 0)
                ==> r is Err,
            old(self).is_fixed_point() ==> r is Ok && final(self).same_grid(*old(self)),
            r is Ok && final(self).same_grid(*old(self)) ==> old(self).is_fixed_point(),
            r is Ok && !old(self).is_fixed_point() ==> final(self).empties() < old(self).empties(),
    {
        let ghost before = *self;
        match self.reduce_each_point() {
            Ok(()) => {},
            Err(e) => {
                return Err(e);
            },
        }
        let ghost m1 = *self;
        self.reduce_horizontal_lines();
        proof {
            before.lemma_refined_trans(m1, *self);
        }
        let ghost m2 = *self;
        self.reduce_vertical_lines();
        proof {
            before.lemma_refined_trans(m2, *self);
        }
        let ghost m3 = *self;
        self.reduce_blocks();
        proof {
            before.lemma_refined_trans(m3, *self);
            before.lemma_pass_end(m1, m2, m3, *self);
        }
        Ok(())
    }

    /// Applies the naked-single rule at every cell, column by column; stops
    /// at the first empty cell without candidates.
    fn reduce_each_point(&mut self) -> (r: Result<(), SudokuError>)
        requires
            old(self).is_consistent(),
        ensures
            final(self).is_consistent(),
            r is Ok ==> old(self).refined_by(*final(self)) && final(self).sweep_state(*old(self), 81),
            r is Err ==> old(self).unsolvable() && !old(self).is_fixed_point(),
    {
        let ghost before = *self;
        proof {
            before.lemma_refined_refl();
        }
        proof {
            before.lemma_sweep_start();
        }
        let points = SudokuPoint::all_points();
        let mut k: usize = 0;
        while k < points.len()
            invariant
                points@.len() == 81,
                forall|j: int| 0 <= j < 81 ==> (#[trigger] points@[j]).x() == j / 9 && points@[j].y() == j % 9,
                k <= 81,
                before == *old(self),
                before.refined_by(*self),
                self.sweep_state(before, k as int),
            decreases 81 - k,
        {
            let ghost cur = *self;
            match self.reduce_at_point(&points[k]) {
                Ok(()) => {
                    proof {
                        before.lemma_sweep_step(cur, *self, k as int);
                        before.lemma_refined_trans(cur, *self);
                    }
                },
                Err(e) => {
                    proof {
                        before.lemma_unsolvable_back(cur);
                        assert(before.unsolvable());
                        assert(self.is_consistent());
                        if before.is_fixed_point() {
                            before.lemma_sweep_fixed(cur, k as int);
                        }
                    }
                    return Err(e);
                },
            }
            k = k + 1;
        }
        Ok(())
    }

    /// After the naked-single rule has been applied to the first `k` cells of
    /// this grid, `before` being the grid the sweep started from: the other cells
    /// are untouched, none of the first `k` was empty without candidates in
    /// `before`, and the grid is unchanged exactly when each of them that was
    /// empty had two candidates or more.
    #[verifier::opaque]
    pub open spec fn sweep_state(self, before: SudokuState, k: int) -> bool {
        &&& forall|j: int| k <= j < 81 ==> #[trigger] self.at(j / 9, j % 9) == before.at(j / 9, j % 9)
        &&& forall|j: int| 0 <= j < k ==> !(#[trigger] before.at(j / 9, j % 9) == 0 && before.candidates(j / 9, j % 9).len() == 0)
        &&& self.same_grid(before) ==> before.naked_done(k)
        &&& before.naked_done(81) ==> self.same_grid(before)
    }

    /// A sweep starts with nothing done.
    pub proof fn lemma_sweep_start(self)
        ensures
            self.sweep_state(self, 0),
    {
        reveal(SudokuState::sweep_state);
    }

    /// Every empty cell among the first `k` has two candidates or more.
    pub open spec fn naked_done(self, k: int) -> bool {
        forall|j: int| 0 <= j < k && #[trigger] self.at(j / 9, j % 9) == 0 ==> self.candidates(j / 9, j % 9).len() >= 2
    }

    /// The naked-single rule on cell `k` carries the sweep one cell further.
    pub proof fn lemma_sweep_step(self, cur: SudokuState, new: SudokuState, k: int)
        requires
            0 <= k < 81,
            self.refined_by(cur),
            cur.refined_by(new),
            cur.sweep_state(self, k),
            !(cur.at(k / 9, k % 9) == 0 && cur.candidates(k / 9, k % 9).len() == 0),
            forall|x2: int, y2: int|
                on_grid(x2, y2) ==> #[trigger] new.at(x2, y2) == if x2 == k / 9 && y2 == k % 9 && cur.at(x2, y2) == 0
                    && cur.candidates(x2, y2).len() == 1 {
                    cur.candidates(x2, y2)[0]
                } else {
                    cur.at(x2, y2)
                },
        ensures
            new.sweep_state(self, k + 1),
    {
        reveal(SudokuState::sweep_state);
        let x = k / 9;
        let y = k % 9;
        assert(cur.at(x, y) == self.at(x, y));
        if self.at(x, y) == 0 {
            self.lemma_candidates_shrink(cur, x, y);
        }
        cur.lemma_candidates_upto(x, y, 9);
        assert forall|j: int| k + 1 <= j < 81 implies #[trigger] new.at(j / 9, j % 9) == self.at(j / 9, j % 9) by {
            assert(cur.at(j / 9, j % 9) == self.at(j / 9, j % 9));
        }
        if new.same_grid(self) {
            self.lemma_sandwich(cur, new);
            self.lemma_same_grid_candidates(cur);
            assert(new.at(x, y) == self.at(x, y));
        }
        if self.naked_done(81) {
            assert(cur.same_grid(self));
            self.lemma_same_grid_candidates(cur);
            assert forall|x2: int, y2: int| on_grid(x2, y2) implies #[trigger] new.at(x2, y2) == self.at(x2, y2) by {
                if x2 == x && y2 == y && cur.at(x2, y2) == 0 {
                    assert(self.at(x, y) == 0);
                    assert(self.candidates(x, y).len() >= 2);
                }
                assert(cur.at(x2, y2) == self.at(x2, y2));
            }
        }
    }

    /// On a fixed point the sweep changes nothing and meets no empty cell
    /// without candidates.
    pub proof fn lemma_sweep_fixed(self, cur: SudokuState, k: int)
        requires
            self.is_fixed_point(),
            0 <= k < 81,
            cur.sweep_state(self, k),
        ensures
            cur.same_grid(self),
            !(cur.at(k / 9, k % 9) == 0 && cur.candidates(k / 9, k % 9).len() == 0),
    {
        reveal(SudokuState::sweep_state);
        assert(self.naked_done(81)) by {
            assert forall|j: int| 0 <= j < 81 && #[trigger] self.at(j / 9, j % 9) == 0 implies self.candidates(j / 9, j % 9).len() >= 2 by {
                assert(on_grid(j / 9, j % 9));
            }
        }
        self.lemma_same_grid_candidates(cur);
        assert(on_grid(k / 9, k % 9));
    }

    /// How a whole pass ends: unchanged exactly on a fixed point.
    pub proof fn lemma_pass_end(self, m1: SudokuState, m2: SudokuState, m3: SudokuState, b: SudokuState)
        requires
            self.refined_by(m1),
            m1.refined_by(m2),
            m2.refined_by(m3),
            m3.refined_by(b),
            self.refined_by(m3),
            self.refined_by(b),
            self.refined_by(m2),
            m1.sweep_state(self, 81),
            (forall|k: int| 0 <= k < 9 ==> #[trigger] m1.no_hidden_single(k)) <==> m2.same_grid(m1),
            (forall|k: int| 9 <= k < 18 ==> #[trigger] m2.no_hidden_single(k)) <==> m3.same_grid(m2),
            (forall|k: int| 18 <= k < 27 ==> #[trigger] m3.no_hidden_single(k)) <==> b.same_grid(m3),
        ensures
            forall|x: int, y: int| on_grid(x, y) ==> !(#[trigger] self.at(x, y) == 0 && self.candidates(x, y).len() == 0),
            self.is_fixed_point() ==> b.same_grid(self),
            b.same_grid(self) ==> self.is_fixed_point(),
            !self.is_fixed_point() ==> b.empties() < self.empties(),
    {
        reveal(SudokuState::sweep_state);
        assert forall|x: int, y: int| on_grid(x, y) implies !(#[trigger] self.at(x, y) == 0 && self.candidates(x, y).len() == 0) by {
            let j = x * 9 + y;
            assert(j / 9 == x && j % 9 == y);
            assert(!(self.at(j / 9, j % 9) == 0 && self.candidates(j / 9, j % 9).len() == 0));
        }
        if self.is_fixed_point() {
            assert(self.naked_done(81)) by {
                assert forall|j: int| 0 <= j < 81 && #[trigger] self.at(j / 9, j % 9) == 0 implies self.candidates(j / 9, j % 9).len() >= 2 by {
                    assert(on_grid(j / 9, j % 9));
                }
            }
            assert(m1.same_grid(self));
            self.lemma_same_grid_candidates(m1);
            assert forall|k: int| 0 <= k < 9 implies #[trigger] m1.no_hidden_single(k) by {
                assert(self.no_hidden_single(k));
            }
            assert(m2.same_grid(m1));
            assert(m2.same_grid(self)) by {
                assert forall|x: int, y: int| on_grid(x, y) implies #[trigger] m2.at(x, y) == self.at(x, y) by {
                    assert(m2.at(x, y) == m1.at(x, y));
                    assert(m1.at(x, y) == self.at(x, y));
                }
            }
            self.lemma_same_grid_candidates(m2);
            assert forall|k: int| 9 <= k < 18 implies #[trigger] m2.no_hidden_single(k) by {
                assert(self.no_hidden_single(k));
            }
            assert(m3.same_grid(self)) by {
                assert forall|x: int, y: int| on_grid(x, y) implies #[trigger] m3.at(x, y) == self.at(x, y) by {
                    assert(m3.at(x, y) == m2.at(x, y));
                    assert(m2.at(x, y) == self.at(x, y));
                }
            }
            self.lemma_same_grid_candidates(m3);
            assert forall|k: int| 18 <= k < 27 implies #[trigger] m3.no_hidden_single(k) by {
                assert(self.no_hidden_single(k));
            }
            assert forall|x: int, y: int| on_grid(x, y) implies #[trigger] b.at(x, y) == self.at(x, y) by {
                assert(b.at(x, y) == m3.at(x, y));
                assert(m3.at(x, y) == self.at(x, y));
            }
        }
        if b.same_grid(self) {
            self.lemma_sandwich(m3, b);
            self.lemma_sandwich(m2, m3);
            self.lemma_sandwich(m1, m2);
            assert(self.naked_done(81));
            assert forall|x: int, y: int| on_grid(x, y) && #[trigger] self.at(x, y) == 0 implies self.candidates(x, y).len() >= 2 by {
                let j = x * 9 + y;
                assert(j / 9 == x && j % 9 == y);
                assert(self.at(j / 9, j % 9) == 0);
            }
            self.lemma_same_grid_candidates(m1);
            self.lemma_same_grid_candidates(m2);
            self.lemma_same_grid_candidates(m3);
            assert forall|k: int| 0 <= k < 27 implies #[trigger] self.no_hidden_single(k) by {
                if k < 9 {
                    assert(m1.no_hidden_single(k));
                } else if k < 18 {
                    assert(m2.no_hidden_single(k));
                } else {
                    assert(m3.no_hidden_single(k));
                }
            }
        }
        if !self.is_fixed_point() {
            self.lemma_changed_has_fewer_empties(b);
        }
    }

    /// Propagates until a pass leaves the number of empty cells unchanged.
    fn reduce_while_you_can(&mut self) -> (r: Result<(), SudokuError>)
        requires
            old(self).is_consistent(),
        ensures
            final(self).is_consistent(),
            r is Ok ==> old(self).refined_by(*final(self)) && final(self).is_fixed_point(),
            r is Err ==> old(self).unsolvable(),
            old(self).is_fixed_point() ==> r is Ok && final(self).same_grid(*old(self)),
    {
        let ghost before = *self;
        proof {
            before.lemma_refined_refl();
        }
        loop
            invariant
                before == *old(self),
                before.refined_by(*self),
                before.is_fixed_point() ==> self.same_grid(before),
            ensures
                before.refined_by(*self),
                self.is_fixed_point(),
                before.is_fixed_point() ==> self.same_grid(before),
            decreases self.empties(),
        {
            let start_count = self.empty_count();
            let ghost cur = *self;
            proof {
                if before.is_fixed_point() {
                    before.lemma_same_grid_candidates(cur);
                }
            }
            match self.reduce_once() {
                Ok(()) => {
                    proof {
                        before.lemma_refined_trans(cur, *self);
                        cur.lemma_empties_mono(*self, 81);
                        if before.is_fixed_point() {
                            assert forall|x: int, y: int| on_grid(x, y) implies #[trigger] self.at(x, y) == before.at(x, y) by {
                                assert(self.at(x, y) == cur.at(x, y));
                                assert(cur.at(x, y) == before.at(x, y));
                            }
                            self.lemma_same_grid_candidates(cur);
                        }
                    }
                },
                Err(e) => {
                    proof {
                        before.lemma_unsolvable_back(cur);
                    }
                    return Err(e);
                },
            }
            if self.empty_count() == start_count {
                proof {
                    if !self.same_grid(cur) {
                        cur.lemma_changed_has_fewer_empties(*self);
                    }
                    cur.lemma_same_grid_candidates(*self);
                }
                break;
            }
        }
        Ok(())
    }

    /// A digit that is a candidate in exactly one cell `i` of a peer group
    /// stands there in every solution.
    pub proof fn lemma_hidden_single(self, k: int, i: int, d: int)
        requires
            self.is_consistent(),
            0 <= k < 27,
            0 <= i < 9,
            self.is_candidate(group_cell(k, i).0, group_cell(k, i).1, d),
            forall|j: int|
                0 <= j < 9 && self.is_candidate(#[trigger] group_cell(k, j).0, group_cell(k, j).1, d) ==> group_cell(k, j)
                    == group_cell(k, i),
        ensures
            forall|s: SudokuState| #[trigger] s.is_solution_of(self) ==> s.at_cell(group_cell(k, i)) == d,
    {
        lemma_group_cells(k);
        let m = group_cell(k, i);
        assert forall|s: SudokuState| #[trigger] s.is_solution_of(self) implies s.at_cell(m) == d by {
            s.lemma_group_holds_digit(k, d);
            let j = choose|j: int| 0 <= j < 9 && s.at_cell(group_cell(k, j)) == d;
            let c = group_cell(k, j);
            assert(same_group(m.0, m.1, c.0, c.1));
            if self.at(c.0, c.1) != 0 {
                assert(self.at(c.0, c.1) == d);
                assert(false);
            }
            self.lemma_solution_value_is_candidate(s, c.0, c.1);
        }
    }

    /// The filled cell `(x, y)` shares its digit with no other cell of its groups.
    pub open spec fn no_conflict_at(self, x: int, y: int) -> bool {
        self.at(x, y) != 0 ==> forall|x2: int, y2: int|
            on_grid(x2, y2) && same_group(x, y, x2, y2) && (x != x2 || y != y2) ==> #[trigger] self.at(x2, y2)
                != self.at(x, y)
    }

    /// A grid with two equal digits in one group has no solution.
    pub proof fn lemma_conflict_unsolvable(self)
        requires
            !self.is_consistent(),
        ensures
            self.unsolvable(),
    {
        let (x1, y1, x2, y2) = choose|x1: int, y1: int, x2: int, y2: int|
            !(on_grid(x1, y1) && on_grid(x2, y2) && same_group(x1, y1, x2, y2) && (x1 != x2 || y1 != y2)
                && #[trigger] self.at(x1, y1) != 0 ==> self.at(x1, y1) != #[trigger] self.at(x2, y2));
        assert forall|s: SudokuState| !(#[trigger] s.is_solution_of(self)) by {
            if s.is_solution_of(self) {
                assert(s.at(x1, y1) == self.at(x1, y1));
                assert(s.at(x2, y2) == self.at(x2, y2));
            }
        }
    }

    /// A refinement has the same solutions.
    pub proof fn lemma_refined_same_solutions(self, b: SudokuState)
        requires
            self.refined_by(b),
        ensures
            forall|s: SudokuState| #[trigger] s.is_solution_of(self) <==> s.is_solution_of(b),
    {
    }

    /// Placing candidate `d` at `(x, y)` gives a consistent grid whose solutions
    /// are those of the grid with `d` there.
    pub proof fn lemma_child(self, child: SudokuState, x: int, y: int, d: int)
        requires
            self.is_consistent(),
            on_grid(x, y),
            self.is_candidate(x, y, d),
            forall|x2: int, y2: int|
                on_grid(x2, y2) ==> #[trigger] child.at(x2, y2) == if x2 == x && y2 == y {
                    d
                } else {
                    self.at(x2, y2)
                },
        ensures
            child.is_consistent(),
            child.extends(self),
            child.at(x, y) == d,
            forall|s: SudokuState| #[trigger] s.is_solution_of(child) <==> s.is_solution_of(self) && s.at(x, y) == d,
    {
        assert forall|x1: int, y1: int, x2: int, y2: int|
            on_grid(x1, y1) && on_grid(x2, y2) && same_group(x1, y1, x2, y2) && (x1 != x2 || y1 != y2)
                && #[trigger] child.at(x1, y1) != 0 implies child.at(x1, y1) != #[trigger] child.at(x2, y2) by {
            if x1 == x && y1 == y {
                assert(self.at(x2, y2) != d);
            } else if x2 == x && y2 == y {
                assert(same_group(x2, y2, x1, y1));
                assert(self.at(x1, y1) != d);
            } else {
                assert(self.at(x1, y1) != 0);
            }
        }
    }

    /// Grids with the same digits have the same candidates.
    pub proof fn lemma_same_grid_candidates(self, b: SudokuState)
        requires
            self.same_grid(b),
        ensures
            forall|x: int, y: int, d: int| on_grid(x, y) ==> #[trigger] self.is_candidate(x, y, d) == b.is_candidate(x, y, d),
            forall|x: int, y: int| on_grid(x, y) ==> #[trigger] self.candidates(x, y) == b.candidates(x, y),
            forall|k: int, d: int| 0 <= k < 27 ==> #[trigger] self.group_candidates(k, d, 9) == b.group_candidates(k, d, 9),
            self.empties() == b.empties(),
            self.is_fixed_point() == b.is_fixed_point(),
            forall|k: int| 0 <= k < 27 ==> #[trigger] self.no_hidden_single(k) == b.no_hidden_single(k),
    {
        assert forall|x: int, y: int, d: int| on_grid(x, y) implies #[trigger] self.is_candidate(x, y, d) == b.is_candidate(x, y, d) by {
            assert(self.at(x, y) == b.at(x, y));
            if self.is_candidate(x, y, d) && !b.is_candidate(x, y, d) {
                let (x2, y2) = choose|x2: int, y2: int|
                    !(on_grid(x2, y2) && same_group(x, y, x2, y2) ==> #[trigger] b.at(x2, y2) != d);
                assert(self.at(x2, y2) == b.at(x2, y2));
            }
            if !self.is_candidate(x, y, d) && b.is_candidate(x, y, d) {
                let (x2, y2) = choose|x2: int, y2: int|
                    !(on_grid(x2, y2) && same_group(x, y, x2, y2) ==> #[trigger] self.at(x2, y2) != d);
                assert(self.at(x2, y2) == b.at(x2, y2));
            }
        }
        assert forall|x: int, y: int| on_grid(x, y) implies #[trigger] self.candidates(x, y) == b.candidates(x, y) by {
            self.lemma_same_candidates_upto(b, x, y, 9);
        }
        assert forall|k: int, d: int| 0 <= k < 27 implies #[trigger] self.group_candidates(k, d, 9) == b.group_candidates(k, d, 9) by {
            lemma_group_cells(k);
            self.lemma_same_group_candidates(b, k, d, 9);
        }
        assert forall|k: int| 0 <= k < 27 implies #[trigger] self.no_hidden_single(k) == b.no_hidden_single(k) by {
            if self.no_hidden_single(k) {
                assert forall|d: int| 1 <= d <= 9 implies #[trigger] b.group_candidates(k, d, 9).len() != 1 by {
                    assert(self.group_candidates(k, d, 9).len() != 1);
                }
            }
            if b.no_hidden_single(k) {
                assert forall|d: int| 1 <= d <= 9 implies #[trigger] self.group_candidates(k, d, 9).len() != 1 by {
                    assert(b.group_candidates(k, d, 9).len() != 1);
                }
            }
        }
        if self.is_fixed_point() {
            assert forall|x: int, y: int| on_grid(x, y) && #[trigger] b.at(x, y) == 0 implies b.candidates(x, y).len() >= 2 by {
                assert(self.at(x, y) == b.at(x, y));
            }
            assert forall|k: int| 0 <= k < 27 implies #[trigger] b.no_hidden_single(k) by {
                assert(self.no_hidden_single(k));
            }
        }
        if b.is_fixed_point() {
            assert forall|x: int, y: int| on_grid(x, y) && #[trigger] self.at(x, y) == 0 implies self.candidates(x, y).len() >= 2 by {
                assert(self.at(x, y) == b.at(x, y));
            }
            assert forall|k: int| 0 <= k < 27 implies #[trigger] self.no_hidden_single(k) by {
                assert(b.no_hidden_single(k));
            }
        }
        self.lemma_empties_mono(b, 81);
        b.lemma_empties_mono(self, 81);
    }

    proof fn lemma_same_candidates_upto(self, b: SudokuState, x: int, y: int, n: int)
        requires
            on_grid(x, y),
            forall|x: int, y: int, d: int| on_grid(x, y) ==> #[trigger] self.is_candidate(x, y, d) == b.is_candidate(x, y, d),
        ensures
            self.candidates_upto(x, y, n) == b.candidates_upto(x, y, n),
        decreases n,
    {
        if n > 0 {
            self.lemma_same_candidates_upto(b, x, y, n - 1);
        }
    }

    proof fn lemma_same_group_candidates(self, b: SudokuState, k: int, d: int, n: int)
        requires
            n <= 9,
            forall|i: int| 0 <= i < 9 ==> on_grid(#[trigger] group_cell(k, i).0, group_cell(k, i).1),
            forall|x: int, y: int, d: int| on_grid(x, y) ==> #[trigger] self.is_candidate(x, y, d) == b.is_candidate(x, y, d),
        ensures
            self.group_candidates(k, d, n) == b.group_candidates(k, d, n),
        decreases n,
    {
        if n > 0 {
            self.lemma_same_group_candidates(b, k, d, n - 1);
            let c = group_cell(k, n - 1);
            assert(on_grid(c.0, c.1));
        }
    }

    /// The candidate cells of a group are cells of the group, in order, and
    /// every cell of the group where `d` is a candidate is among them.
    pub proof fn lemma_group_candidates(self, k: int, d: int, n: int)
        requires
            0 <= n <= 9,
        ensures
            self.group_candidates(k, d, n).len() <= n,
            forall|j: int|
                0 <= j < self.group_candidates(k, d, n).len() ==> self.is_candidate(
                    (#[trigger] self.group_candidates(k, d, n)[j]).0,
                    self.group_candidates(k, d, n)[j].1,
                    d,
                ),
            forall|i: int|
                0 <= i < n && self.is_candidate(#[trigger] group_cell(k, i).0, group_cell(k, i).1, d) ==> exists|j: int|
                    0 <= j < self.group_candidates(k, d, n).len() && self.group_candidates(k, d, n)[j] == group_cell(k, i),
        decreases n,
    {
        if n > 0 {
            self.lemma_group_candidates(k, d, n - 1);
            let g = self.group_candidates(k, d, n - 1);
            let gn = self.group_candidates(k, d, n);
            assert forall|i: int|
                0 <= i < n && self.is_candidate(#[trigger] group_cell(k, i).0, group_cell(k, i).1, d) implies exists|j: int|
                    0 <= j < gn.len() && gn[j] == group_cell(k, i) by {
                if i < n - 1 {
                    let j = choose|j: int| 0 <= j < g.len() && g[j] == group_cell(k, i);
                    assert(gn[j] == g[j]);
                } else {
                    assert(gn[g.len() as int] == group_cell(k, i));
                }
            }
        }
    }

    /// On the points of a group, the candidate points are its candidate cells.
    pub proof fn lemma_candidate_points_group(self, points: [SudokuPoint; 9], k: int, d: int, n: int)
        requires
            lists_group(points, k),
            0 <= n <= 9,
        ensures
            self.candidate_points(points@, d, n).len() == self.group_candidates(k, d, n).len(),
            forall|j: int|
                0 <= j < self.group_candidates(k, d, n).len() ==> (#[trigger] self.candidate_points(points@, d, n)[j]).is(
                    self.group_candidates(k, d, n)[j],
                ),
        decreases n,
    {
        if n > 0 {
            self.lemma_candidate_points_group(points, k, d, n - 1);
            assert(points@[n - 1].is(group_cell(k, n - 1)));
        }
    }

    /// One more group extends a trace of hidden-single passes.
    pub proof fn lemma_groups_trace_push(self, t: Seq<SudokuState>, m: SudokuState, b: SudokuState, k0: int, n: int)
        requires
            0 <= n,
            self.groups_trace(t, m, k0, n),
            m.hidden_upto(b, k0 + n, 9),
        ensures
            self.groups_trace(t.push(b), b, k0, n + 1),
    {
        let t2 = t.push(b);
        assert forall|j: int| 0 <= j < n + 1 implies (#[trigger] t2[j]).hidden_upto(t2[j + 1], k0 + j, 9) by {
            if j < n {
                assert(t2[j] == t[j] && t2[j + 1] == t[j + 1]);
            }
        }
    }

    /// A pass over one more group leaves the grid unchanged exactly when none
    /// of the groups so far has a hidden single.
    pub proof fn lemma_group_step_same(self, m: SudokuState, b: SudokuState, k0: int, n: int)
        requires
            self.refined_by(m),
            m.refined_by(b),
            0 <= k0 <= 18,
            0 <= n < 9,
            (forall|k: int| k0 <= k < k0 + n ==> #[trigger] self.no_hidden_single(k)) ==> m.same_grid(self),
            m.same_grid(self) ==> forall|k: int| k0 <= k < k0 + n ==> #[trigger] self.no_hidden_single(k),
            m.no_hidden_single(k0 + n) <==> b.same_grid(m),
        ensures
            (forall|k: int| k0 <= k < k0 + n + 1 ==> #[trigger] self.no_hidden_single(k)) ==> b.same_grid(self),
            b.same_grid(self) ==> forall|k: int| k0 <= k < k0 + n + 1 ==> #[trigger] self.no_hidden_single(k),
    {
        if forall|k: int| k0 <= k < k0 + n + 1 ==> #[trigger] self.no_hidden_single(k) {
            assert(m.same_grid(self));
            self.lemma_same_grid_candidates(m);
            assert(self.no_hidden_single(k0 + n));
            assert(b.same_grid(m));
            assert forall|x: int, y: int| on_grid(x, y) implies #[trigger] b.at(x, y) == self.at(x, y) by {
                assert(b.at(x, y) == m.at(x, y));
                assert(m.at(x, y) == self.at(x, y));
            }
        }
        if b.same_grid(self) {
            self.lemma_sandwich(m, b);
            self.lemma_same_grid_candidates(m);
            assert(m.no_hidden_single(k0 + n));
        }
    }

    /// A grid between two grids with the same digits has those digits too.
    pub proof fn lemma_sandwich(self, b: SudokuState, c: SudokuState)
        requires
            b.extends(self),
            c.extends(b),
            c.same_grid(self),
        ensures
            b.same_grid(self),
            c.same_grid(b),
    {
        assert forall|x: int, y: int| on_grid(x, y) implies #[trigger] b.at(x, y) == self.at(x, y) by {
            if self.at(x, y) == 0 && b.at(x, y) != 0 {
                assert(c.at(x, y) == b.at(x, y));
            }
        }
    }

    /// A grid that keeps every digit of this one and holds more has fewer empty cells.
    pub proof fn lemma_changed_has_fewer_empties(self, b: SudokuState)
        requires
            b.extends(self),
            !b.same_grid(self),
        ensures
            b.empties() < self.empties(),
    {
        let (x, y) = choose|x: int, y: int| on_grid(x, y) && #[trigger] b.at(x, y) != self.at(x, y);
        let j = x * 9 + y;
        assert(j / 9 == x && j % 9 == y);
        self.lemma_empties_strict(b, 81, j);
    }

    /// Where a cell stays empty, its candidates can only shrink as other cells fill.
    pub proof fn lemma_candidates_shrink(self, b: SudokuState, x: int, y: int)
        requires
            b.extends(self),
            on_grid(x, y),
            b.at(x, y) == 0,
        ensures
            forall|d: int| #[trigger] b.is_candidate(x, y, d) ==> self.is_candidate(x, y, d),
            self.candidates(x, y).len() == 0 ==> b.candidates(x, y).len() == 0,
            self.candidates(x, y).len() == 1 ==> b.candidates(x, y).len() <= 1,
    {
        assert forall|d: int| #[trigger] b.is_candidate(x, y, d) implies self.is_candidate(x, y, d) by {
            assert forall|x2: int, y2: int| on_grid(x2, y2) && same_group(x, y, x2, y2) implies #[trigger] self.at(x2, y2) != d by {
                if self.at(x2, y2) != 0 {
                    assert(b.at(x2, y2) == self.at(x2, y2));
                }
            }
        }
        self.lemma_candidates_upto(x, y, 9);
        b.lemma_candidates_upto(x, y, 9);
        let cb = b.candidates(x, y);
        let ca = self.candidates(x, y);
        if cb.len() > 0 {
            assert(self.is_candidate(x, y, cb[0]));
            let j = choose|j: int| 0 <= j < ca.len() && ca[j] == cb[0];
            if cb.len() > 1 {
                assert(self.is_candidate(x, y, cb[1]));
                let j2 = choose|j2: int| 0 <= j2 < ca.len() && ca[j2] == cb[1];
                assert(cb[0] < cb[1]);
            }
        }
    }

    /// A grid whose refinement has no solution has none either.
    pub proof fn lemma_unsolvable_back(self, b: SudokuState)
        requires
            self.refined_by(b),
            b.unsolvable(),
        ensures
            self.unsolvable(),
    {
        assert forall|s: SudokuState| !(#[trigger] s.is_solution_of(self)) by {
            if s.is_solution_of(self) {
                assert(s.is_solution_of(b));
            }
        }
    }

    /// A grid that keeps every digit of another has no more empty cells.
    pub proof fn lemma_empties_mono(self, b: SudokuState, k: int)
        requires
            b.extends(self),
            0 <= k <= 81,
        ensures
            b.empties_upto(k) <= self.empties_upto(k),
        decreases k,
    {
        if k > 0 {
            self.lemma_empties_mono(b, k - 1);
            let x = (k - 1) / 9;
            let y = (k - 1) % 9;
            if self.at(x, y) != 0 {
                assert(b.at(x, y) == self.at(x, y));
            }
        }
    }

    /// Filling one more cell leaves strictly fewer empty cells.
    pub proof fn lemma_empties_strict(self, b: SudokuState, k: int, j: int)
        requires
            b.extends(self),
            0 <= j < k <= 81,
            self.at(j / 9, j % 9) == 0,
            b.at(j / 9, j % 9) != 0,
        ensures
            b.empties_upto(k) < self.empties_upto(k),
        decreases k,
    {
        if j == k - 1 {
            self.lemma_empties_mono(b, k - 1);
        } else {
            self.lemma_empties_strict(b, k - 1, j);
            let x = (k - 1) / 9;
            let y = (k - 1) % 9;
            if self.at(x, y) != 0 {
                assert(b.at(x, y) == self.at(x, y));
            }
        }
    }

    /// No cell among the first `k` is empty exactly when none is counted.
    pub proof fn lemma_empties_upto_zero(self, k: int)
        requires
            0 <= k <= 81,
        ensures
            self.empties_upto(k) == 0 <==> forall|j: int| 0 <= j < k ==> #[trigger] self.at(j / 9, j % 9) != 0,
        decreases k,
    {
        if k > 0 {
            self.lemma_empties_upto_zero(k - 1);
        }
    }

    /// A grid is complete exactly when it has no empty cell.
    pub proof fn lemma_empties_zero(self)
        ensures
            self.empties() == 0 <==> self.is_complete(),
    {
        self.lemma_empties_upto_zero(81);
        if self.empties() == 0 {
            assert forall|x: int, y: int| on_grid(x, y) implies #[trigger] self.at(x, y) != 0 by {
                let j = x * 9 + y;
                assert(j / 9 == x && j % 9 == y);
                assert(self.at(j / 9, j % 9) != 0);
            }
        }
        if self.is_complete() {
            assert forall|j: int| 0 <= j < 81 implies #[trigger] self.at(j / 9, j % 9) != 0 by {
                assert(on_grid(j / 9, j % 9));
            }
        }
    }

    /// In a solved grid every peer group holds every digit.
    pub proof fn lemma_group_holds_digit(self, k: int, d: int)
        requires
            self.is_solved(),
            0 <= k < 27,
            1 <= d <= 9,
        ensures
            exists|i: int| 0 <= i < 9 && self.at_cell(group_cell(k, i)) == d,
    {
        lemma_group_cells(k);
        self.lemma_at_range();
        let q = Seq::new(9, |i: int| self.at_cell(group_cell(k, i)));
        assert(q.no_duplicates()) by {
            assert forall|i: int, j: int| 0 <= i < q.len() && 0 <= j < q.len() && i != j implies q[i] != q[j] by {
                let ci = group_cell(k, i);
                let cj = group_cell(k, j);
                assert(ci != cj);
                assert(same_group(ci.0, ci.1, cj.0, cj.1));
                assert(self.at(ci.0, ci.1) != 0);
            }
        }
        q.unique_seq_to_set();
        lemma_int_range(1, 10);
        assert(q.to_set().subset_of(set_int_range(1, 10))) by {
            assert forall|v: int| q.to_set().contains(v) implies set_int_range(1, 10).contains(v) by {
                let i = choose|i: int| 0 <= i < q.len() && q[i] == v;
                let ci = group_cell(k, i);
                assert(self.at(ci.0, ci.1) != 0);
            }
        }
        lemma_subset_equality(q.to_set(), set_int_range(1, 10));
        assert(set_int_range(1, 10).contains(d));
        assert(q.to_set().contains(d));
        let i = choose|i: int| 0 <= i < q.len() && q[i] == d;
        assert(self.at_cell(group_cell(k, i)) == d);
    }

    /// Every cell holds a digit from zero to nine.
    pub proof fn lemma_at_range(self)
        ensures
            forall|x: int, y: int| on_grid(x, y) ==> 0 <= #[trigger] self.at(x, y) <= 9,
    {
        assert forall|x: int, y: int| on_grid(x, y) implies 0 <= #[trigger] self.at(x, y) <= 9 by {
            self.values@[y]@[x].lemma_digit_range();
        }
    }

    /// Every candidate list holds exactly the candidates, in ascending order.
    pub proof fn lemma_candidates_upto(self, x: int, y: int, n: int)
        requires
            0 <= n <= 9,
        ensures
            self.candidates_upto(x, y, n).len() <= n,
            forall|j: int|
                0 <= j < self.candidates_upto(x, y, n).len() ==> self.is_candidate(x, y, #[trigger] self.candidates_upto(x, y, n)[j]) && self.candidates_upto(x, y, n)[j] <= n,
            forall|i: int, j: int|
                0 <= i < j < self.candidates_upto(x, y, n).len() ==> #[trigger] self.candidates_upto(x, y, n)[i] < #[trigger] self.candidates_upto(x, y, n)[j],
            forall|d: int|
                1 <= d <= n && #[trigger] self.is_candidate(x, y, d) ==> exists|j: int|
                    0 <= j < self.candidates_upto(x, y, n).len() && self.candidates_upto(x, y, n)[j] == d,
        decreases n,
    {
        if n > 0 {
            self.lemma_candidates_upto(x, y, n - 1);
            let c = self.candidates_upto(x, y, n - 1);
            let cn = self.candidates_upto(x, y, n);
            if self.is_candidate(x, y, n) {
                assert(cn[c.len() as int] == n);
            }
            assert forall|d: int| 1 <= d <= n && #[trigger] self.is_candidate(x, y, d) implies exists|j: int|
                0 <= j < cn.len() && cn[j] == d by {
                if d < n {
                    let j = choose|j: int| 0 <= j < c.len() && c[j] == d;
                    assert(cn[j] == d);
                } else {
                    assert(cn[c.len() as int] == n);
                }
            }
        }
    }

    /// In a solution, an empty cell of the grid holds one of its candidates.
    pub proof fn lemma_solution_value_is_candidate(self, s: SudokuState, x: int, y: int)
        requires
            s.is_solution_of(self),
            on_grid(x, y),
            self.at(x, y) == 0,
        ensures
            self.is_candidate(x, y, s.at(x, y)),
    {
        s.values@[y]@[x].lemma_digit_range();
        assert forall|x2: int, y2: int|
            on_grid(x2, y2) && same_group(x, y, x2, y2) implies #[trigger] self.at(x2, y2) != s.at(x, y) by {
            s.values@[y2]@[x2].lemma_digit_range();
            self.values@[y2]@[x2].lemma_digit_range();
            if self.at(x2, y2) != 0 {
                assert(s.at(x2, y2) == self.at(x2, y2));
            }
        }
    }

    /// Placing a candidate that every solution holds there refines the grid.
    pub proof fn lemma_place_candidate(self, new: SudokuState, x: int, y: int, d: int)
        requires
            self.is_consistent(),
            on_grid(x, y),
            self.is_candidate(x, y, d),
            forall|x2: int, y2: int|
                on_grid(x2, y2) ==> #[trigger] new.at(x2, y2) == if x2 == x && y2 == y {
                    d
                } else {
                    self.at(x2, y2)
                },
            forall|s: SudokuState| #[trigger] s.is_solution_of(self) ==> s.at(x, y) == d,
        ensures
            self.refined_by(new),
    {
        assert forall|x1: int, y1: int, x2: int, y2: int|
            on_grid(x1, y1) && on_grid(x2, y2) && same_group(x1, y1, x2, y2) && (x1 != x2 || y1 != y2)
                && #[trigger] new.at(x1, y1) != 0 implies new.at(x1, y1) != #[trigger] new.at(x2, y2) by {
            if x1 == x && y1 == y {
                assert(self.at(x2, y2) != d);
            } else if x2 == x && y2 == y {
                assert(same_group(x2, y2, x1, y1));
                assert(self.at(x1, y1) != d);
            } else {
                assert(self.at(x1, y1) != 0);
            }
        }
    }

    /// Refinement is reflexive on consistent grids.
    pub proof fn lemma_refined_refl(self)
        requires
            self.is_consistent(),
        ensures
            self.refined_by(self),
    {
    }

    /// Refinement is transitive.
    pub proof fn lemma_refined_trans(self, b: SudokuState, c: SudokuState)
        requires
            self.refined_by(b),
            b.refined_by(c),
        ensures
            self.refined_by(c),
    {
        assert forall|s: SudokuState| #[trigger] s.is_solution_of(self) implies s.extends(c) by {
            assert(s.is_solution_of(b));
        }
    }

    /// A filled cell has no candidates.
    proof fn lemma_candidates_of_filled(self, x: int, y: int, n: int)
        requires
            self.at(x, y) != 0,
        ensures
            self.candidates_upto(x, y, n) == Seq::<int>::empty(),
        decreases n,
    {
        if n > 0 {
            self.lemma_candidates_of_filled(x, y, n - 1);
        }
    }

    /// The number of empty cells.
    pub fn empty_count(&self) -> (r: usize)
        ensures
            r == self.empties(),
    {
        let points = SudokuPoint::all_points();
        let mut count: usize = 0;
        let mut k: usize = 0;
        while k < points.len()
            invariant
                points@.len() == 81,
                forall|j: int|
                    0 <= j < 81 ==> (#[trigger] points@[j]).x() == j / 9 && points@[j].y() == j % 9,
                k <= 81,
                count == self.empties_upto(k as int),
                count <= k,
            decreases 81 - k,
        {
            if self.get(&points[k]) == SudokuValue::Empty {
                count = count + 1;
            }
            k = k + 1;
        }
        count
    }
}


/// The nine points are the cells of peer group `k`, in order.
pub open spec fn lists_group(points: [SudokuPoint; 9], k: int) -> bool {
    0 <= k < 27 && forall|i: int| 0 <= i < 9 ==> (#[trigger] points@[i]).is(group_cell(k, i))
}

/// The peer group of blocks that holds `(x, y)`.
pub open spec fn block_of(x: int, y: int) -> int {
    18 + x / 3 * 3 + y / 3
}

/// The cells of a peer group lie on the grid, are pairwise distinct, and share a group.
pub proof fn lemma_group_cells(k: int)
    requires
        0 <= k < 27,
    ensures
        forall|i: int| 0 <= i < 9 ==> on_grid(#[trigger] group_cell(k, i).0, group_cell(k, i).1),
        forall|i: int, j: int|
            0 <= i < 9 && 0 <= j < 9 && i != j ==> #[trigger] group_cell(k, i) != #[trigger] group_cell(k, j),
        forall|i: int, j: int|
            0 <= i < 9 && 0 <= j < 9 ==> same_group(
                #[trigger] group_cell(k, i).0,
                group_cell(k, i).1,
                #[trigger] group_cell(k, j).0,
                group_cell(k, j).1,
            ),
{
}

/// The row, the column and the block through `(x, y)` are groups of cells that
/// share a group with it.
pub proof fn lemma_groups_through(x: int, y: int)
    requires
        on_grid(x, y),
    ensures
        forall|i: int|
            0 <= i < 9 ==> #[trigger] group_cell(y, i) == (i, y) && group_cell(x + 9, i) == (x, i),
        forall|i: int|
            0 <= i < 9 ==> on_grid(#[trigger] group_cell(block_of(x, y), i).0, group_cell(block_of(x, y), i).1)
                && same_group(x, y, group_cell(block_of(x, y), i).0, group_cell(block_of(x, y), i).1),
        0 <= block_of(x, y) - 18 < 9,
{
}

/// A cell that shares a group with `(x, y)` lies in its row, its column or its block.
pub proof fn lemma_peer_in_groups(x: int, y: int, x2: int, y2: int)
    requires
        on_grid(x, y),
        on_grid(x2, y2),
        same_group(x, y, x2, y2),
    ensures
        y2 == y || x2 == x || group_cell(block_of(x, y), x2 % 3 * 3 + y2 % 3) == (x2, y2),
        0 <= x2 % 3 * 3 + y2 % 3 < 9,
{
}


/// Nine points list at most one group.
pub proof fn lemma_lists_group_unique(points: [SudokuPoint; 9], k1: int, k2: int)
    requires
        lists_group(points, k1),
        lists_group(points, k2),
    ensures
        k1 == k2,
{
    assert(points@[0].is(group_cell(k1, 0)) && points@[0].is(group_cell(k2, 0)));
    assert(points@[1].is(group_cell(k1, 1)) && points@[1].is(group_cell(k2, 1)));
    assert(points@[3].is(group_cell(k1, 3)) && points@[3].is(group_cell(k2, 3)));
}

/// `p` occurs in `ps`.
pub open spec fn index_in(ps: Seq<SudokuPoint>, p: SudokuPoint) -> bool {
    exists|j: int| 0 <= j < ps.len() && ps[j] == p
}

/// Some value in `values` has digit `d`.
pub open spec fn contains_value_spec(values: Seq<SudokuValue>, d: int) -> bool {
    exists|j: int| 0 <= j < values.len() && (#[trigger] values[j]).digit() == d
}

/// Whether one of the values equals `value`.
fn contains_value(values: &Vec<SudokuValue>, value: SudokuValue) -> (r: bool)
    ensures
        r == contains_value_spec(values@, value.digit()),
{
    let mut i: usize = 0;
    while i < values.len()
        invariant
            i <= values@.len(),
            forall|j: int| 0 <= j < i ==> (#[trigger] values@[j]).digit() != value.digit(),
        decreases values@.len() - i,
    {
        if values[i] == value {
            return true;
        }
        i = i + 1;
    }
    false
}

} // verus!
