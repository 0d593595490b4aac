//! A 3x3 block of cells.  The block enforces "each value at most once in
//! the block", keeps per-internal-line candidate masks, and surfaces the
//! forced deductions the solver consumes: naked singles, hidden singles
//! and pointing candidates.

use crate::cell::{cell_after_elim, Cell};
use crate::masks::{
    lemma_mask_clear, lemma_mask_clear_twice, lemma_mask_full_empty, lemma_mask_set, mask_count,
    mask_has, mask_test, count_mask_values, FULL_MASK,
};
use crate::utility::{
    CellPossibleValues, Directional, DirectionalCandidate, PrintCell, SingleCandidate, SudokuError,
};
use vstd::prelude::*;

verus! {

/// The render snapshot of one cell: its value and given flag, or value
/// 0 and the number of remaining candidates.
pub open spec fn spec_print_cell(c: Cell) -> PrintCell {
    match c.value {
        Some(v) => PrintCell { value: v, number_of_candidates: 0, is_given: c.is_given },
        None => PrintCell {
            value: 0,
            number_of_candidates: mask_count(c.candidates) as u8,
            is_given: false,
        },
    }
}

#[derive(Debug, Copy, Clone)]
pub struct Group {
    pub cells: [[Cell; 3]; 3],
    pub group_values: u16,
    pub group_candidates: [[u16; 3]; 2],
}

impl Group {
    /// Every cell is structurally sound.
    pub open spec fn cells_wf(&self) -> bool {
        forall|r: int, c: int| 0 <= r < 3 && 0 <= c < 3 ==> (#[trigger] self.cells[r][c]).wf()
    }

    /// Some cell of the block holds value `v`.
    pub open spec fn contains_value(&self, v: u8) -> bool {
        exists|r: int, c: int|
            0 <= r < 3 && 0 <= c < 3 && (#[trigger] self.cells[r][c]).value == Some(v)
    }

    /// The placed mask records exactly the values the cells hold.
    pub open spec fn placed_matches_cells(&self) -> bool {
        forall|v: u8|
            1 <= v <= 9 ==> ((#[trigger] mask_has(self.group_values, v as u16))
                <==> self.contains_value(v))
    }

    /// No value occurs in two different cells of the block.
    pub open spec fn values_unique(&self) -> bool {
        forall|r1: int, c1: int, r2: int, c2: int|
            0 <= r1 < 3 && 0 <= c1 < 3 && 0 <= r2 < 3 && 0 <= c2 < 3 && !(r1 == r2 && c1 == c2)
                && (#[trigger] self.cells[r1][c1]).value is Some
                && (#[trigger] self.cells[r2][c2]).value is Some
                ==> self.cells[r1][c1].value != self.cells[r2][c2].value
    }

    /// A placed value is no longer a candidate of any empty cell.
    pub open spec fn placed_eliminated(&self) -> bool {
        forall|r: int, c: int, v: u8|
            0 <= r < 3 && 0 <= c < 3 && 1 <= v <= 9 && mask_has(self.group_values, v as u16)
                && self.cells[r][c].value is None
                ==> !(#[trigger] mask_has(self.cells[r][c].candidates, v as u16))
    }

    /// A placed value is cleared from every internal line mask.
    pub open spec fn lines_eliminated(&self) -> bool {
        forall|k: int, idx: int, v: u8|
            0 <= k < 2 && 0 <= idx < 3 && 1 <= v <= 9 && mask_has(self.group_values, v as u16)
                ==> !(#[trigger] mask_has(self.group_candidates[k][idx], v as u16))
    }

    /// The block's invariant.
    pub open spec fn wf(&self) -> bool {
        &&& self.cells_wf()
        &&& self.placed_matches_cells()
        &&& self.values_unique()
        &&& self.placed_eliminated()
        &&& self.lines_eliminated()
    }

    /// All nine values are placed.
    pub open spec fn is_complete_spec(&self) -> bool {
        mask_count(self.group_values) == 9
    }

    /// The consistency checks of `set_value`: the assignment is refused
    /// iff the block is complete, the value is already placed here, or
    /// the target cell no longer admits the value.
    pub open spec fn rejects_value(&self, row: int, col: int, val: u8) -> bool {
        ||| self.is_complete_spec()
        ||| mask_has(self.group_values, val as u16)
        ||| !mask_has(self.cells[row][col].candidates, val as u16)
    }

    pub fn is_complete(&self) -> (r: bool)
        ensures
            r == self.is_complete_spec(),
    {
        count_mask_values(self.group_values) == 9
    }

    /// Place `val` at the cell (`row`, `col`).  On success the value is
    /// recorded in the placed mask and eliminated from every internal
    /// line mask and every still-empty cell of the block; a rejected
    /// assignment reports the consistency violation and leaves the
    /// block untouched.
    pub fn set_value(&mut self, row: usize, col: usize, val: u8, is_given: bool) -> (r: Result<
        (),
        SudokuError,
    >)
        requires
            row < 3,
            col < 3,
            1 <= val <= 9,
        ensures
            r is Err <==> old(self).rejects_value(row as int, col as int, val),
            r is Err ==> *final(self) == *old(self),
            r is Ok ==> final(self).group_values == old(self).group_values | (1u16 << (
            val as u16)),
            r is Ok ==> final(self).cells[row as int][col as int] == (Cell {
                value: Some(val),
                is_given,
                candidates: 0u16,
            }),
            r is Ok ==> forall|r2: int, c2: int|
                0 <= r2 < 3 && 0 <= c2 < 3 && !(r2 == row && c2 == col)
                    ==> (#[trigger] final(self).cells[r2][c2]) == cell_after_elim(
                    old(self).cells[r2][c2],
                    val,
                ),
            r is Ok ==> forall|k: int, idx: int|
                0 <= k < 2 && 0 <= idx < 3 ==> (#[trigger] final(self).group_candidates[k][idx])
                    == (old(self).group_candidates[k][idx] & !(1u16 << (val as u16))),
            r is Ok && old(self).wf() ==> final(self).wf(),
    {
        if self.is_complete() {
            return Err(SudokuError::ConsistencyViolation);
        }
        if mask_test(self.group_values, val) {
            return Err(SudokuError::ConsistencyViolation);
        }
        if !self.cells[row][col].can_set_value(val) {
            return Err(SudokuError::ConsistencyViolation);
        }
        let ghost prev = *self;
        let mut cell = self.cells[row][col];
        cell.set_value(val, is_given);
        let mut cell_row = self.cells[row];
        cell_row[col] = cell;
        self.cells[row] = cell_row;
        self.group_values = self.group_values | (1u16 << (val as u16));
        proof {
            lemma_mask_set(prev.group_values, val as u16);
        }
        self.propagate_changes(val);
        proof {
            if prev.wf() {
                self.lemma_set_value_preserves_wf(prev, row as int, col as int, val, is_given);
            }
        }
        Ok(())
    }

    /// If `val` is placed in this block, clear it from every internal
    /// line mask and from the candidates of every still-empty cell;
    /// otherwise do nothing.
    pub fn propagate_changes(&mut self, val: u8)
        requires
            1 <= val <= 9,
        ensures
            final(self).group_values == old(self).group_values,
            !mask_has(old(self).group_values, val as u16) ==> *final(self) == *old(self),
            mask_has(old(self).group_values, val as u16) ==> forall|r: int, c: int|
                0 <= r < 3 && 0 <= c < 3 ==> (#[trigger] final(self).cells[r][c])
                    == cell_after_elim(old(self).cells[r][c], val),
            mask_has(old(self).group_values, val as u16) ==> forall|k: int, idx: int|
                0 <= k < 2 && 0 <= idx < 3 ==> (#[trigger] final(self).group_candidates[k][idx])
                    == (old(self).group_candidates[k][idx] & !(1u16 << (val as u16))),
    {
        if mask_test(self.group_values, val) {
            let mut gc = self.group_candidates;
            let mut idx: usize = 0;
            while idx < 3
                invariant
                    idx <= 3,
                    1 <= val <= 9,
                    forall|k: int, j: int|
                        0 <= k < 2 && 0 <= j < 3 && j < idx ==> (#[trigger] gc[k][j]) == (
                        old(self).group_candidates[k][j] & !(1u16 << (val as u16))),
                    forall|k: int, j: int|
                        0 <= k < 2 && 0 <= j < 3 && j >= idx ==> (#[trigger] gc[k][j])
                            == old(self).group_candidates[k][j],
                decreases 3 - idx,
            {
                let mut line = gc[0];
                line[idx] = line[idx] & !(1u16 << (val as u16));
                gc[0] = line;
                let mut line2 = gc[1];
                line2[idx] = line2[idx] & !(1u16 << (val as u16));
                gc[1] = line2;
                idx += 1;
            }
            self.group_candidates = gc;
            let mut cells = self.cells;
            let mut row: usize = 0;
            while row < 3
                invariant
                    row <= 3,
                    1 <= val <= 9,
                    forall|r: int, c: int|
                        0 <= r < 3 && 0 <= c < 3 && r < row ==> (#[trigger] cells[r][c])
                            == cell_after_elim(old(self).cells[r][c], val),
                    forall|r: int, c: int|
                        0 <= r < 3 && 0 <= c < 3 && r >= row ==> (#[trigger] cells[r][c])
                            == old(self).cells[r][c],
                decreases 3 - row,
            {
                let mut col: usize = 0;
                while col < 3
                    invariant
                        row < 3,
                        col <= 3,
                        1 <= val <= 9,
                        forall|r: int, c: int|
                            0 <= r < 3 && 0 <= c < 3 && r < row ==> (#[trigger] cells[r][c])
                                == cell_after_elim(old(self).cells[r][c], val),
                        forall|c: int|
                            0 <= c < 3 && c < col ==> (#[trigger] cells[row as int][c])
                                == cell_after_elim(old(self).cells[row as int][c], val),
                        forall|c: int|
                            0 <= c < 3 && c >= col ==> (#[trigger] cells[row as int][c])
                                == old(self).cells[row as int][c],
                        forall|r: int, c: int|
                            0 <= r < 3 && 0 <= c < 3 && r > row ==> (#[trigger] cells[r][c])
                                == old(self).cells[r][c],
                    decreases 3 - col,
                {
                    let mut cell = cells[row][col];
                    if !cell.has_value() {
                        cell.clear_candidate(val);
                        let mut cell_row = cells[row];
                        cell_row[col] = cell;
                        cells[row] = cell_row;
                    }
                    col += 1;
                }
                row += 1;
            }
            self.cells = cells;
        }
    }

    /// Elimination handed in from a sibling block: `val` became
    /// impossible on the given internal row and/or internal column.
    /// Clears the matching line masks and the candidates of every
    /// still-empty cell on those lines; the placed mask is untouched.
    pub fn recive_propagation(&mut self, row: Option<u8>, col: Option<u8>, val: u8)
        requires
            1 <= val <= 9,
            row is Some ==> row->0 < 3,
            col is Some ==> col->0 < 3,
        ensures
            final(self).group_values == old(self).group_values,
            forall|k: int, idx: int|
                0 <= k < 2 && 0 <= idx < 3 ==> (#[trigger] final(self).group_candidates[k][idx])
                    == (if (k == 0 && row == Some(idx as u8)) || (k == 1 && col == Some(
                    idx as u8)) {
                    old(self).group_candidates[k][idx] & !(1u16 << (val as u16))
                } else {
                    old(self).group_candidates[k][idx]
                }),
            forall|r: int, c: int|
                0 <= r < 3 && 0 <= c < 3 ==> (#[trigger] final(self).cells[r][c]) == (if row
                    == Some(r as u8) || col == Some(c as u8) {
                    cell_after_elim(old(self).cells[r][c], val)
                } else {
                    old(self).cells[r][c]
                }),
    {
        let ghost prev = *self;
        if let Some(c) = col {
            let mut line = self.group_candidates[1];
            line[c as usize] = line[c as usize] & !(1u16 << (val as u16));
            let mut gc = self.group_candidates;
            gc[1] = line;
            self.group_candidates = gc;
            let mut cells = self.cells;
            let mut r: usize = 0;
            while r < 3
                invariant
                    r <= 3,
                    1 <= val <= 9,
                    (c as int) < 3,
                    forall|rr: int, cc: int|
                        0 <= rr < 3 && 0 <= cc < 3 && (rr >= r || cc != c as int) ==> (
                        #[trigger] cells[rr][cc]) == prev.cells[rr][cc],
                    forall|rr: int|
                        0 <= rr < 3 && rr < r ==> (#[trigger] cells[rr][c as int])
                            == cell_after_elim(prev.cells[rr][c as int], val),
                decreases 3 - r,
            {
                let mut cell = cells[r][c as usize];
                if !cell.has_value() {
                    cell.clear_candidate(val);
                    let mut cell_row = cells[r];
                    cell_row[c as usize] = cell;
                    cells[r] = cell_row;
                }
                r += 1;
            }
            self.cells = cells;
        }
        let ghost mid = *self;
        if let Some(rr) = row {
            let mut line = self.group_candidates[0];
            line[rr as usize] = line[rr as usize] & !(1u16 << (val as u16));
            let mut gc = self.group_candidates;
            gc[0] = line;
            self.group_candidates = gc;
            let mut cells = self.cells;
            let mut cidx: usize = 0;
            while cidx < 3
                invariant
                    cidx <= 3,
                    1 <= val <= 9,
                    (rr as int) < 3,
                    forall|r2: int, c2: int|
                        0 <= r2 < 3 && 0 <= c2 < 3 && (r2 != rr as int || c2 >= cidx) ==> (
                        #[trigger] cells[r2][c2]) == mid.cells[r2][c2],
                    forall|c2: int|
                        0 <= c2 < 3 && c2 < cidx ==> (#[trigger] cells[rr as int][c2])
                            == cell_after_elim(mid.cells[rr as int][c2], val),
                decreases 3 - cidx,
            {
                let mut cell = cells[rr as usize][cidx];
                if !cell.has_value() {
                    cell.clear_candidate(val);
                    let mut cell_row = cells[rr as usize];
                    cell_row[cidx] = cell;
                    cells[rr as usize] = cell_row;
                }
                cidx += 1;
            }
            self.cells = cells;
        }
        proof {
            assert forall|r2: int, c2: int| 0 <= r2 < 3 && 0 <= c2 < 3 implies (
            #[trigger] self.cells[r2][c2]) == (if row == Some(r2 as u8) || col == Some(c2 as u8) {
                cell_after_elim(prev.cells[r2][c2], val)
            } else {
                prev.cells[r2][c2]
            }) by {
                if row == Some(r2 as u8) && col == Some(c2 as u8) {
                    lemma_mask_clear_twice(prev.cells[r2][c2].candidates, val as u16);
                }
            }
        }
    }

    /// The values 1..=9 the block has not placed yet, ascending.
    fn get_remaining_group_values(&self) -> (r: Vec<u8>)
        ensures
            r@ == crate::masks::mask_values(!self.group_values & FULL_MASK),
            forall|i: int|
                0 <= i < r@.len() ==> 1 <= #[trigger] r@[i] <= 9 && !mask_has(
                    self.group_values,
                    r@[i] as u16,
                ),
    {
        let missing = !self.group_values & FULL_MASK;
        let mut values: Vec<u8> = Vec::new();
        let mut val: u16 = 1;
        proof {
            crate::masks::lemma_mask_missing(self.group_values);
        }
        while val < 10
            invariant
                1 <= val <= 10,
                values@ == crate::masks::mask_values_below(missing, val as int),
                missing == !self.group_values & FULL_MASK,
                forall|i: int|
                    0 <= i < values@.len() ==> 1 <= #[trigger] values@[i] <= 9 && !mask_has(
                        self.group_values,
                        values@[i] as u16,
                    ),
            decreases 10 - val,
        {
            if (missing >> val) & 1u16 == 1u16 {
                proof {
                    crate::masks::lemma_mask_missing(self.group_values);
                }
                values.push(val as u8);
            }
            val += 1;
        }
        values
    }

    /// The naked singles of the first `n` cells in row-major order, as
    /// queue entries carrying absolute coordinates.
    pub open spec fn naked_singles_upto(&self, gr: int, gc: int, n: int) -> Seq<SingleCandidate>
        decreases n,
    {
        if n <= 0 {
            Seq::empty()
        } else {
            self.naked_singles_upto(gr, gc, n - 1) + (match self.cells[(n - 1) / 3][(n
                - 1) % 3].spec_single_candidate() {
                Some(v) => seq![
                    SingleCandidate {
                        row: (3 * gr + (n - 1) / 3) as usize,
                        column: (3 * gc + (n - 1) % 3) as usize,
                        value: v,
                    },
                ],
                None => Seq::empty(),
            })
        }
    }

    /// No cell of the block is a naked single.
    pub open spec fn no_naked_single(&self) -> bool {
        forall|r: int, c: int|
            0 <= r < 3 && 0 <= c < 3 ==> (#[trigger] self.cells[r][c]).spec_single_candidate()
                is None
    }

    /// A naked-single scan that found nothing means no cell below `n`
    /// is a naked single.
    pub proof fn lemma_no_naked_singles(&self, gr: int, gc: int, n: int)
        requires
            0 <= n <= 9,
            self.naked_singles_upto(gr, gc, n).len() == 0,
        ensures
            forall|k: int|
                0 <= k < n ==> (#[trigger] self.cells[k / 3][k % 3]).spec_single_candidate()
                    is None,
        decreases n,
    {
        if n > 0 {
            self.lemma_no_naked_singles(gr, gc, n - 1);
        }
    }

    /// Conversely, a block without a naked single yields an empty scan.
    pub proof fn lemma_naked_singles_none(&self, gr: int, gc: int, n: int)
        requires
            0 <= n <= 9,
            self.no_naked_single(),
        ensures
            self.naked_singles_upto(gr, gc, n).len() == 0,
        decreases n,
    {
        if n > 0 {
            self.lemma_naked_singles_none(gr, gc, n - 1);
            crate::indices::lemma_split_div3(n - 1);
            assert(self.cells[(n - 1) / 3][(n - 1) % 3].spec_single_candidate() is None);
        }
    }

    /// A hidden-single pass over values none of which has a unique
    /// admitting cell leaves any queue unchanged.
    pub proof fn lemma_hidden_fold_identity(
        &self,
        gr: int,
        gc: int,
        q: Seq<SingleCandidate>,
        vals: Seq<u8>,
    )
        requires
            forall|k: int|
                0 <= k < vals.len() ==> self.admit_cells_upto(#[trigger] vals[k], 9).len() != 1,
        ensures
            self.hidden_singles_fold(gr, gc, q, vals) == q,
        decreases vals.len(),
    {
        if vals.len() > 0 {
            assert(self.admit_cells_upto(vals[0], 9).len() != 1);
            self.lemma_hidden_fold_identity(gr, gc, q, vals.drop_first());
        }
    }

    /// Append the naked singles of this block to the queue: one entry
    /// for every empty cell with exactly one candidate left, in
    /// row-major cell order.  Does nothing on a complete block.
    pub fn get_single_candidates(
        &self,
        queue: &mut Vec<SingleCandidate>,
        grid_row: usize,
        grid_col: usize,
    )
        requires
            grid_row < 3,
            grid_col < 3,
        ensures
            self.is_complete_spec() ==> final(queue)@ == old(queue)@,
            !self.is_complete_spec() ==> final(queue)@ == old(queue)@ + self.naked_singles_upto(
                grid_row as int,
                grid_col as int,
                9,
            ),
            old(queue)@.is_prefix_of(final(queue)@),
            forall|i: int|
                old(queue)@.len() <= i < final(queue)@.len() ==> {
                    let e = #[trigger] final(queue)@[i];
                    e.row < 9 && e.column < 9 && 1 <= e.value <= 9
                },
            self.no_naked_single() ==> final(queue)@ == old(queue)@,
    {
        if self.is_complete() {
            return ;
        }
        let ghost gr = grid_row as int;
        let ghost gc = grid_col as int;
        let mut row: usize = 0;
        while row < 3
            invariant
                row <= 3,
                grid_row < 3,
                grid_col < 3,
                queue@ == old(queue)@ + self.naked_singles_upto(gr, gc, 3 * row),
                gr == grid_row as int,
                gc == grid_col as int,
                forall|i: int|
                    old(queue)@.len() <= i < queue@.len() ==> {
                        let e = #[trigger] queue@[i];
                        e.row < 9 && e.column < 9 && 1 <= e.value <= 9
                    },
            decreases 3 - row,
        {
            let mut col: usize = 0;
            while col < 3
                invariant
                    row < 3,
                    col <= 3,
                    grid_row < 3,
                    grid_col < 3,
                    queue@ == old(queue)@ + self.naked_singles_upto(gr, gc, 3 * row + col),
                    gr == grid_row as int,
                    gc == grid_col as int,
                    forall|i: int|
                        old(queue)@.len() <= i < queue@.len() ==> {
                            let e = #[trigger] queue@[i];
                            e.row < 9 && e.column < 9 && 1 <= e.value <= 9
                        },
                decreases 3 - col,
            {
                proof {
                    crate::indices::lemma_compose_div3(row as int, col as int);
                }
                if !self.cells[row][col].has_value() {
                    if let Some(val) = self.cells[row][col].is_single_candidate() {
                        proof {
                            let m = self.cells[row as int][col as int].candidates;
                            crate::masks::lemma_mask_values_below_contains(
                                m,
                                10,
                                crate::masks::mask_values(m)[0],
                            );
                        }
                        queue.push(
                            SingleCandidate {
                                row: grid_row * 3 + row,
                                column: grid_col * 3 + col,
                                value: val,
                            },
                        );
                    }
                }
                col += 1;
            }
            row += 1;
        }
        proof {
            if self.no_naked_single() {
                self.lemma_naked_singles_none(gr, gc, 9);
                assert(queue@ =~= old(queue)@);
            }
        }
    }

    /// The flattened row-major indices (0..9) of the first `n` cells
    /// that are empty and still admit `val`.
    pub open spec fn admit_cells_upto(&self, val: u8, n: int) -> Seq<usize>
        decreases n,
    {
        if n <= 0 {
            Seq::empty()
        } else {
            self.admit_cells_upto(val, n - 1) + (if self.cells[(n - 1) / 3][(n - 1) % 3].value
                is None && mask_has(self.cells[(n - 1) / 3][(n - 1) % 3].candidates, val as u16) {
                seq![(n - 1) as usize]
            } else {
                Seq::<usize>::empty()
            })
        }
    }

    /// The queue entry a hidden single on `val` produces, assuming the
    /// block admits `val` in exactly one cell.
    pub open spec fn hidden_single_entry(&self, gr: int, gc: int, val: u8) -> SingleCandidate {
        let k = self.admit_cells_upto(val, 9)[0] as int;
        SingleCandidate { row: (3 * gr + k / 3) as usize, column: (3 * gc + k % 3) as usize, value: val }
    }

    /// One pass of the hidden-single scan over the values `vals`: for
    /// each value admitted by exactly one empty cell, the corresponding
    /// entry is queued unless an identical entry is already present.
    pub open spec fn hidden_singles_fold(
        &self,
        gr: int,
        gc: int,
        q: Seq<SingleCandidate>,
        vals: Seq<u8>,
    ) -> Seq<SingleCandidate>
        decreases vals.len(),
    {
        if vals.len() == 0 {
            q
        } else {
            let e = self.hidden_single_entry(gr, gc, vals[0]);
            let q1 = if self.admit_cells_upto(vals[0], 9).len() == 1 && !q.contains(e) {
                q.push(e)
            } else {
                q
            };
            self.hidden_singles_fold(gr, gc, q1, vals.drop_first())
        }
    }

    /// No unplaced value of the block is admitted by exactly one empty
    /// cell: the hidden-single scan can find nothing here.
    pub open spec fn no_hidden_single(&self) -> bool {
        forall|v: u8|
            1 <= v <= 9 && !mask_has(self.group_values, v as u16) ==> (
            #[trigger] self.admit_cells_upto(v, 9)).len() != 1
    }

    /// A hidden-single pass over `vals` starting from an empty queue
    /// only stays empty if none of those values has a unique admitting
    /// cell.
    pub proof fn lemma_no_hidden_singles(&self, gr: int, gc: int, vals: Seq<u8>, k: int)
        requires
            self.hidden_singles_fold(gr, gc, Seq::empty(), vals).len() == 0,
            0 <= k < vals.len(),
        ensures
            self.admit_cells_upto(vals[k], 9).len() != 1,
        decreases vals.len(),
    {
        let e = self.hidden_single_entry(gr, gc, vals[0]);
        let q1 = if self.admit_cells_upto(vals[0], 9).len() == 1 {
            Seq::<SingleCandidate>::empty().push(e)
        } else {
            Seq::<SingleCandidate>::empty()
        };
        assert(!Seq::<SingleCandidate>::empty().contains(e));
        self.lemma_hidden_fold_grows(gr, gc, q1, vals.drop_first());
        assert(self.admit_cells_upto(vals[0], 9).len() != 1);
        if k > 0 {
            assert(q1 =~= Seq::<SingleCandidate>::empty());
            self.lemma_no_hidden_singles(gr, gc, vals.drop_first(), k - 1);
            assert(vals.drop_first()[k - 1] == vals[k]);
        }
    }

    /// The hidden-single fold never shortens the queue.
    pub proof fn lemma_hidden_fold_grows(
        &self,
        gr: int,
        gc: int,
        q: Seq<SingleCandidate>,
        vals: Seq<u8>,
    )
        ensures
            self.hidden_singles_fold(gr, gc, q, vals).len() >= q.len(),
        decreases vals.len(),
    {
        if vals.len() > 0 {
            let e = self.hidden_single_entry(gr, gc, vals[0]);
            let q1 = if self.admit_cells_upto(vals[0], 9).len() == 1 && !q.contains(e) {
                q.push(e)
            } else {
                q
            };
            self.lemma_hidden_fold_grows(gr, gc, q1, vals.drop_first());
        }
    }

    /// Append the hidden singles of this block: for every value the
    /// block has not placed and that exactly one empty cell still
    /// admits, queue that cell and value, unless an identical entry is
    /// already queued.  Does nothing on a complete block.
    pub fn get_single_candidate_possible_cell_value(
        &self,
        queue: &mut Vec<SingleCandidate>,
        grid_row: usize,
        grid_col: usize,
    )
        requires
            grid_row < 3,
            grid_col < 3,
        ensures
            self.is_complete_spec() ==> final(queue)@ == old(queue)@,
            !self.is_complete_spec() ==> final(queue)@ == self.hidden_singles_fold(
                grid_row as int,
                grid_col as int,
                old(queue)@,
                crate::masks::mask_values(!self.group_values & FULL_MASK),
            ),
            final(queue)@.len() >= old(queue)@.len(),
            forall|i: int| 0 <= i < old(queue)@.len() ==> final(queue)@[i] == old(queue)@[i],
            forall|i: int|
                old(queue)@.len() <= i < final(queue)@.len() ==> {
                    let e = #[trigger] final(queue)@[i];
                    e.row < 9 && e.column < 9 && 1 <= e.value <= 9
                },
            old(queue)@.len() == 0 && final(queue)@.len() == 0 && !self.is_complete_spec()
                ==> self.no_hidden_single(),
            self.no_hidden_single() ==> final(queue)@ == old(queue)@,
    {
        if self.is_complete() {
            return ;
        }
        let ghost gr = grid_row as int;
        let ghost gc = grid_col as int;
        let ghost target = self.hidden_singles_fold(
            gr,
            gc,
            old(queue)@,
            crate::masks::mask_values(!self.group_values & FULL_MASK),
        );
        let remaining_values = self.get_remaining_group_values();
        proof {
            assert(remaining_values@.skip(0) =~= remaining_values@);
        }
        let mut i: usize = 0;
        while i < remaining_values.len()
            invariant
                i <= remaining_values.len(),
                grid_row < 3,
                grid_col < 3,
                gr == grid_row as int,
                gc == grid_col as int,
                remaining_values@ == crate::masks::mask_values(!self.group_values & FULL_MASK),
                forall|j: int|
                    0 <= j < remaining_values@.len() ==> 1 <= #[trigger] remaining_values@[j] <= 9,
                self.hidden_singles_fold(gr, gc, queue@, remaining_values@.skip(i as int))
                    == target,
                queue@.len() >= old(queue)@.len(),
                forall|ii: int| 0 <= ii < old(queue)@.len() ==> queue@[ii] == old(queue)@[ii],
                forall|ii: int|
                    old(queue)@.len() <= ii < queue@.len() ==> {
                        let e = #[trigger] queue@[ii];
                        e.row < 9 && e.column < 9 && 1 <= e.value <= 9
                    },
            decreases remaining_values.len() - i,
        {
            let val = remaining_values[i];
            let ghost qs = queue@;
            let mut possible: Vec<usize> = Vec::new();
            let mut row: usize = 0;
            while row < 3
                invariant
                    row <= 3,
                    1 <= val <= 9,
                    possible@ == self.admit_cells_upto(val, 3 * row),
                    forall|j: int| 0 <= j < possible@.len() ==> #[trigger] possible@[j] < 9,
                decreases 3 - row,
            {
                let mut col: usize = 0;
                while col < 3
                    invariant
                        row < 3,
                        col <= 3,
                        1 <= val <= 9,
                        possible@ == self.admit_cells_upto(val, 3 * row + col),
                        forall|j: int| 0 <= j < possible@.len() ==> #[trigger] possible@[j] < 9,
                    decreases 3 - col,
                {
                    proof {
                        crate::indices::lemma_compose_div3(row as int, col as int);
                    }
                    if !self.cells[row][col].has_value() && self.cells[row][col].can_set_value(val)
                    {
                        possible.push(3 * row + col);
                    }
                    col += 1;
                }
                row += 1;
            }
            if possible.len() == 1 {
                let k = possible[0];
                let cand = SingleCandidate {
                    row: grid_row * 3 + k / 3,
                    column: grid_col * 3 + k % 3,
                    value: val,
                };
                proof {
                    assert(cand == self.hidden_single_entry(gr, gc, val));
                }
                let mut already_in_queue = false;
                let mut j: usize = 0;
                while j < queue.len()
                    invariant
                        j <= queue@.len(),
                        already_in_queue == exists|jj: int|
                            0 <= jj < j && #[trigger] queue@[jj] == cand,
                    decreases queue@.len() - j,
                {
                    let e = queue[j];
                    if e.row == cand.row && e.column == cand.column && e.value == cand.value {
                        already_in_queue = true;
                    }
                    j += 1;
                }
                proof {
                    assert(already_in_queue == queue@.contains(cand));
                }
                if !already_in_queue {
                    queue.push(cand);
                }
            }
            proof {
                let vals_rest = remaining_values@.skip(i as int);
                assert(vals_rest[0] == remaining_values@[i as int]);
                assert(vals_rest.drop_first() =~= remaining_values@.skip(i as int + 1));
                assert(self.hidden_singles_fold(gr, gc, qs, vals_rest) == target);
            }
            i += 1;
        }
        proof {
            assert(remaining_values@.skip(remaining_values@.len() as int) =~= Seq::<u8>::empty());
            if self.no_hidden_single() {
                assert forall|k: int|
                    0 <= k < remaining_values@.len() implies self.admit_cells_upto(
                    #[trigger] remaining_values@[k],
                    9,
                ).len() != 1 by {
                    assert(1 <= remaining_values@[k] <= 9 && !mask_has(
                        self.group_values,
                        remaining_values@[k] as u16,
                    ));
                }
                self.lemma_hidden_fold_identity(gr, gc, old(queue)@, remaining_values@);
            }
            if old(queue)@.len() == 0 && queue@.len() == 0 {
                let vals = crate::masks::mask_values(!self.group_values & FULL_MASK);
                assert(old(queue)@ =~= Seq::<SingleCandidate>::empty());
                assert forall|v: u8|
                    1 <= v <= 9 && !mask_has(self.group_values, v as u16) implies (
                #[trigger] self.admit_cells_upto(v, 9)).len() != 1 by {
                    crate::masks::lemma_mask_missing(self.group_values);
                    crate::masks::lemma_mask_values_below_contains(
                        !self.group_values & FULL_MASK,
                        10,
                        v,
                    );
                    assert(vals.contains(v));
                    let k = choose|k: int| 0 <= k < vals.len() && vals[k] == v;
                    self.lemma_no_hidden_singles(gr, gc, vals, k);
                }
            }
        }
    }

    /// The internal line indices (0..3) among the first `n` lines of
    /// kind `k` (0 for rows, 1 for columns) whose mask still admits
    /// `val`.
    pub open spec fn admit_lines_upto(&self, k: int, val: u8, n: int) -> Seq<u8>
        decreases n,
    {
        if n <= 0 {
            Seq::empty()
        } else {
            self.admit_lines_upto(k, val, n - 1) + (if mask_has(
                self.group_candidates[k][n - 1],
                val as u16,
            ) {
                seq![(n - 1) as u8]
            } else {
                Seq::<u8>::empty()
            })
        }
    }

    /// The pointing candidates one unplaced value contributes: a
    /// row-directed entry if exactly one internal row still admits it,
    /// and a column-directed entry if exactly one internal column does.
    pub open spec fn directional_step(
        &self,
        gr: int,
        gc: int,
        q: Seq<DirectionalCandidate>,
        val: u8,
    ) -> Seq<DirectionalCandidate> {
        if mask_has(self.group_values, val as u16) {
            q
        } else {
            let rows = self.admit_lines_upto(0, val, 3);
            let cols = self.admit_lines_upto(1, val, 3);
            let q1 = if rows.len() == 1 {
                q.push(
                    DirectionalCandidate {
                        direction: Directional::Row,
                        index: (rows[0] + 3 * gr) as u8,
                        grid_row: gr as usize,
                        grid_col: gc as usize,
                        value: val,
                    },
                )
            } else {
                q
            };
            if cols.len() == 1 {
                q1.push(
                    DirectionalCandidate {
                        direction: Directional::Column,
                        index: (cols[0] + 3 * gc) as u8,
                        grid_row: gr as usize,
                        grid_col: gc as usize,
                        value: val,
                    },
                )
            } else {
                q1
            }
        }
    }

    /// The pointing candidates of the values 1..`val`, in ascending
    /// value order, appended to `q`.
    pub open spec fn directional_fold(
        &self,
        gr: int,
        gc: int,
        q: Seq<DirectionalCandidate>,
        val: int,
    ) -> Seq<DirectionalCandidate>
        decreases val,
    {
        if val <= 1 {
            q
        } else {
            self.directional_step(
                gr,
                gc,
                self.directional_fold(gr, gc, q, val - 1),
                (val - 1) as u8,
            )
        }
    }

    /// No unplaced value is confined to a single internal row or a
    /// single internal column: the pointing scan can find nothing here.
    pub open spec fn no_pointing_candidate(&self) -> bool {
        forall|v: u8|
            1 <= v <= 9 && !mask_has(self.group_values, v as u16) ==> (
            #[trigger] self.admit_lines_upto(0, v, 3)).len() != 1 && self.admit_lines_upto(
                1,
                v,
                3,
            ).len() != 1
    }

    /// A pointing pass over the values below `n` of a block without a
    /// pointing candidate leaves any queue unchanged.
    pub proof fn lemma_directional_fold_identity(
        &self,
        gr: int,
        gc: int,
        q: Seq<DirectionalCandidate>,
        n: int,
    )
        requires
            1 <= n <= 10,
            self.no_pointing_candidate(),
        ensures
            self.directional_fold(gr, gc, q, n) == q,
        decreases n,
    {
        if n > 1 {
            self.lemma_directional_fold_identity(gr, gc, q, n - 1);
            let w = (n - 1) as u8;
            if !mask_has(self.group_values, w as u16) {
                assert(self.admit_lines_upto(0, w, 3).len() != 1);
                assert(self.admit_lines_upto(1, w, 3).len() != 1);
            }
        }
    }

    /// A pointing pass over the values below `n` starting from an empty
    /// queue only stays empty if none of them is confined to one line.
    pub proof fn lemma_no_pointing_candidates(&self, gr: int, gc: int, n: int)
        requires
            1 <= n <= 10,
            self.directional_fold(gr, gc, Seq::empty(), n).len() == 0,
        ensures
            forall|v: u8|
                1 <= v < n && !mask_has(self.group_values, v as u16) ==> (
                #[trigger] self.admit_lines_upto(0, v, 3)).len() != 1 && self.admit_lines_upto(
                    1,
                    v,
                    3,
                ).len() != 1,
        decreases n,
    {
        if n > 1 {
            let prev = self.directional_fold(gr, gc, Seq::empty(), n - 1);
            let w = (n - 1) as u8;
            assert(self.directional_step(gr, gc, prev, w).len() >= prev.len());
            self.lemma_no_pointing_candidates(gr, gc, n - 1);
            assert forall|v: u8|
                1 <= v < n && !mask_has(self.group_values, v as u16) implies (
            #[trigger] self.admit_lines_upto(0, v, 3)).len() != 1 && self.admit_lines_upto(
                1,
                v,
                3,
            ).len() != 1 by {
                if v == w {
                    assert(self.directional_step(gr, gc, prev, w).len() == 0);
                }
            }
        }
    }

    /// Append this block's pointing candidates: for every value not
    /// placed here, if exactly one internal row (or column) still
    /// admits it, the value must land on that line within this block,
    /// so it can be eliminated from the same absolute line elsewhere.
    /// Does nothing on a complete block.
    pub fn get_directional_candidates(
        &self,
        queue: &mut Vec<DirectionalCandidate>,
        grid_row: usize,
        grid_col: usize,
    )
        requires
            grid_row < 3,
            grid_col < 3,
        ensures
            self.is_complete_spec() ==> final(queue)@ == old(queue)@,
            !self.is_complete_spec() ==> final(queue)@ == self.directional_fold(
                grid_row as int,
                grid_col as int,
                old(queue)@,
                10,
            ),
            final(queue)@.len() >= old(queue)@.len(),
            forall|i: int| 0 <= i < old(queue)@.len() ==> final(queue)@[i] == old(queue)@[i],
            forall|i: int|
                old(queue)@.len() <= i < final(queue)@.len() ==> {
                    let e = #[trigger] final(queue)@[i];
                    e.grid_row < 3 && e.grid_col < 3 && e.index < 9 && 1 <= e.value <= 9
                },
            old(queue)@.len() == 0 && final(queue)@.len() == 0 && !self.is_complete_spec()
                ==> self.no_pointing_candidate(),
            self.no_pointing_candidate() ==> final(queue)@ == old(queue)@,
    {
        if self.is_complete() {
            return ;
        }
        let ghost gr = grid_row as int;
        let ghost gc = grid_col as int;
        let mut val: u8 = 1;
        while val < 10
            invariant
                1 <= val <= 10,
                grid_row < 3,
                grid_col < 3,
                gr == grid_row as int,
                gc == grid_col as int,
                queue@ == self.directional_fold(gr, gc, old(queue)@, val as int),
                queue@.len() >= old(queue)@.len(),
                forall|ii: int| 0 <= ii < old(queue)@.len() ==> queue@[ii] == old(queue)@[ii],
                forall|ii: int|
                    old(queue)@.len() <= ii < queue@.len() ==> {
                        let e = #[trigger] queue@[ii];
                        e.grid_row < 3 && e.grid_col < 3 && e.index < 9 && 1 <= e.value <= 9
                    },
            decreases 10 - val,
        {
            if mask_test(self.group_values, val) {
                val += 1;
                continue ;
            }
            let mut row_count: Vec<u8> = Vec::new();
            let mut col_count: Vec<u8> = Vec::new();
            let mut idx: usize = 0;
            while idx < 3
                invariant
                    idx <= 3,
                    1 <= val <= 9,
                    row_count@ == self.admit_lines_upto(0, val, idx as int),
                    col_count@ == self.admit_lines_upto(1, val, idx as int),
                    forall|j: int| 0 <= j < row_count@.len() ==> #[trigger] row_count@[j] < 3,
                    forall|j: int| 0 <= j < col_count@.len() ==> #[trigger] col_count@[j] < 3,
                decreases 3 - idx,
            {
                if mask_test(self.group_candidates[0][idx], val) {
                    row_count.push(idx as u8);
                }
                if mask_test(self.group_candidates[1][idx], val) {
                    col_count.push(idx as u8);
                }
                idx += 1;
            }
            if row_count.len() == 1 {
                queue.push(
                    DirectionalCandidate {
                        direction: Directional::Row,
                        index: row_count[0] + (grid_row as u8 * 3),
                        grid_row,
                        grid_col,
                        value: val,
                    },
                );
            }
            if col_count.len() == 1 {
                queue.push(
                    DirectionalCandidate {
                        direction: Directional::Column,
                        index: col_count[0] + (grid_col as u8 * 3),
                        grid_row,
                        grid_col,
                        value: val,
                    },
                );
            }
            val += 1;
        }
        proof {
            if old(queue)@.len() == 0 && queue@.len() == 0 {
                assert(old(queue)@ =~= Seq::<DirectionalCandidate>::empty());
                self.lemma_no_pointing_candidates(gr, gc, 10);
            }
            if self.no_pointing_candidate() {
                self.lemma_directional_fold_identity(gr, gc, old(queue)@, 10);
            }
        }
    }

    /// Write this block's nine cells into the 9x9 snapshot buffer at
    /// the block's absolute position; the rest of the buffer is left
    /// alone.
    pub fn get_group_cell_values(
        &self,
        buffer: &mut [[PrintCell; 9]; 9],
        grid_row: usize,
        grid_col: usize,
    )
        requires
            grid_row < 3,
            grid_col < 3,
        ensures
            forall|r: int, c: int|
                0 <= r < 9 && 0 <= c < 9 ==> (#[trigger] final(buffer)[r][c]) == (if 3 * grid_row
                    <= r < 3 * grid_row + 3 && 3 * grid_col <= c < 3 * grid_col + 3 {
                    spec_print_cell(self.cells[r - 3 * grid_row][c - 3 * grid_col])
                } else {
                    old(buffer)[r][c]
                }),
    {
        let mut buf = *buffer;
        let mut row: usize = 0;
        while row < 3
            invariant
                row <= 3,
                grid_row < 3,
                grid_col < 3,
                forall|r: int, c: int|
                    0 <= r < 9 && 0 <= c < 9 ==> (#[trigger] buf[r][c]) == (if 3 * grid_row <= r
                        < 3 * grid_row + 3 && 3 * grid_col <= c < 3 * grid_col + 3 && r - 3
                        * grid_row < row {
                        spec_print_cell(self.cells[r - 3 * grid_row][c - 3 * grid_col])
                    } else {
                        old(buffer)[r][c]
                    }),
            decreases 3 - row,
        {
            let mut col: usize = 0;
            while col < 3
                invariant
                    row < 3,
                    col <= 3,
                    grid_row < 3,
                    grid_col < 3,
                    forall|r: int, c: int|
                        0 <= r < 9 && 0 <= c < 9 ==> (#[trigger] buf[r][c]) == (if 3 * grid_row
                            <= r < 3 * grid_row + 3 && 3 * grid_col <= c < 3 * grid_col + 3 && (r
                            - 3 * grid_row < row || (r - 3 * grid_row == row && c - 3 * grid_col
                            < col)) {
                            spec_print_cell(self.cells[r - 3 * grid_row][c - 3 * grid_col])
                        } else {
                            old(buffer)[r][c]
                        }),
                decreases 3 - col,
            {
                let pc = match self.cells[row][col].get_value() {
                    Some(val) => PrintCell {
                        value: val,
                        number_of_candidates: 0,
                        is_given: self.cells[row][col].is_given,
                    },
                    None => PrintCell {
                        value: 0,
                        number_of_candidates: self.cells[row][col].get_number_of_candidates(),
                        is_given: false,
                    },
                };
                let mut buf_row = buf[grid_row * 3 + row];
                buf_row[grid_col * 3 + col] = pc;
                buf[grid_row * 3 + row] = buf_row;
                col += 1;
            }
            row += 1;
        }
        *buffer = buf;
    }

    /// The flattened row-major indices (0..9) of the first `n` cells
    /// that are still empty.
    pub open spec fn empty_cells_upto(&self, n: int) -> Seq<usize>
        decreases n,
    {
        if n <= 0 {
            Seq::empty()
        } else {
            self.empty_cells_upto(n - 1) + (if self.cells[(n - 1) / 3][(n - 1) % 3].value
                is None {
                seq![(n - 1) as usize]
            } else {
                Seq::<usize>::empty()
            })
        }
    }

    /// The indices listed by `empty_cells_upto` stay below `n`.
    pub proof fn lemma_empty_cells_bounds(&self, n: int)
        requires
            0 <= n <= 9,
        ensures
            forall|k: int|
                0 <= k < self.empty_cells_upto(n).len() ==> (#[trigger] self.empty_cells_upto(
                    n,
                )[k]) < n,
        decreases n,
    {
        if n > 0 {
            self.lemma_empty_cells_bounds(n - 1);
            assert forall|k: int| 0 <= k < self.empty_cells_upto(n).len() implies (
            #[trigger] self.empty_cells_upto(n)[k]) < n by {
                if k < self.empty_cells_upto(n - 1).len() {
                    assert(self.empty_cells_upto(n)[k] == self.empty_cells_upto(n - 1)[k]);
                }
            }
        }
    }

    /// Append a diagnostic entry for every still-empty cell of this
    /// block, in row-major cell order: its absolute coordinates and
    /// the values it still admits, ascending.
    pub fn get_remaining_values(
        &self,
        buffer: &mut Vec<CellPossibleValues>,
        grid_row: usize,
        grid_col: usize,
    )
        requires
            grid_row < 3,
            grid_col < 3,
        ensures
            final(buffer)@.len() == old(buffer)@.len() + self.empty_cells_upto(9).len(),
            forall|k: int|
                0 <= k < self.empty_cells_upto(9).len() ==> {
                    let e = #[trigger] final(buffer)@[old(buffer)@.len() + k];
                    let idx = self.empty_cells_upto(9)[k] as int;
                    e.row as int == 3 * (grid_row as int) + idx / 3 && e.column as int == 3 * (
                    grid_col as int) + idx % 3 && e.value@ == crate::masks::mask_values(
                        self.cells[idx / 3][idx % 3].candidates,
                    )
                },
            final(buffer)@.len() >= old(buffer)@.len(),
            forall|i: int| 0 <= i < old(buffer)@.len() ==> final(buffer)@[i] == old(buffer)@[i],
            forall|i: int|
                old(buffer)@.len() <= i < final(buffer)@.len() ==> {
                    let e = #[trigger] final(buffer)@[i];
                    let lr = e.row as int - 3 * (grid_row as int);
                    let lc = e.column as int - 3 * (grid_col as int);
                    0 <= lr < 3 && 0 <= lc < 3 && self.cells[lr][lc].value is None && e.value@
                        == crate::masks::mask_values(self.cells[lr][lc].candidates)
                },
            forall|lr: int, lc: int|
                0 <= lr < 3 && 0 <= lc < 3 && (#[trigger] self.cells[lr][lc]).value is None
                    ==> exists|i: int|
                    old(buffer)@.len() <= i < final(buffer)@.len()
                        && (#[trigger] final(buffer)@[i]).row as int == 3 * (grid_row as int) + lr
                        && final(buffer)@[i].column as int == 3 * (grid_col as int) + lc,
    {
        let ghost base = buffer@.len();
        let mut row: usize = 0;
        while row < 3
            invariant
                row <= 3,
                grid_row < 3,
                grid_col < 3,
                base == old(buffer)@.len(),
                buffer@.len() >= base,
                buffer@.len() == base + self.empty_cells_upto(3 * row).len(),
                forall|k: int|
                    0 <= k < self.empty_cells_upto(3 * row).len() ==> {
                        let e = #[trigger] buffer@[base + k];
                        let idx = self.empty_cells_upto(3 * row)[k] as int;
                        e.row as int == 3 * (grid_row as int) + idx / 3 && e.column as int == 3
                            * (grid_col as int) + idx % 3 && e.value@
                            == crate::masks::mask_values(self.cells[idx / 3][idx % 3].candidates)
                    },
                forall|i: int| 0 <= i < base ==> buffer@[i] == old(buffer)@[i],
                forall|i: int|
                    base <= i < buffer@.len() ==> {
                        let e = #[trigger] buffer@[i];
                        let lr = e.row as int - 3 * (grid_row as int);
                        let lc = e.column as int - 3 * (grid_col as int);
                        0 <= lr < 3 && 0 <= lc < 3 && self.cells[lr][lc].value is None && e.value@
                            == crate::masks::mask_values(self.cells[lr][lc].candidates)
                    },
                forall|lr: int, lc: int|
                    0 <= lr < 3 && 0 <= lc < 3 && lr < row && (#[trigger] self.cells[lr][lc]).value
                        is None ==> exists|i: int|
                        base <= i < buffer@.len() && (#[trigger] buffer@[i]).row as int == 3 * (
                        grid_row as int) + lr && buffer@[i].column as int == 3 * (grid_col as int)
                            + lc,
            decreases 3 - row,
        {
            let mut col: usize = 0;
            while col < 3
                invariant
                    row < 3,
                    col <= 3,
                    grid_row < 3,
                    grid_col < 3,
                    base == old(buffer)@.len(),
                    buffer@.len() >= base,
                    buffer@.len() == base + self.empty_cells_upto(3 * row + col).len(),
                    forall|k: int|
                        0 <= k < self.empty_cells_upto(3 * row + col).len() ==> {
                            let e = #[trigger] buffer@[base + k];
                            let idx = self.empty_cells_upto(3 * row + col)[k] as int;
                            e.row as int == 3 * (grid_row as int) + idx / 3 && e.column as int
                                == 3 * (grid_col as int) + idx % 3 && e.value@
                                == crate::masks::mask_values(
                                self.cells[idx / 3][idx % 3].candidates,
                            )
                        },
                    forall|i: int| 0 <= i < base ==> buffer@[i] == old(buffer)@[i],
                    forall|i: int|
                        base <= i < buffer@.len() ==> {
                            let e = #[trigger] buffer@[i];
                            let lr = e.row as int - 3 * (grid_row as int);
                            let lc = e.column as int - 3 * (grid_col as int);
                            0 <= lr < 3 && 0 <= lc < 3 && self.cells[lr][lc].value is None
                                && e.value@ == crate::masks::mask_values(
                                self.cells[lr][lc].candidates,
                            )
                        },
                    forall|lr: int, lc: int|
                        0 <= lr < 3 && 0 <= lc < 3 && (lr < row || (lr == row && lc < col)) && (
                        #[trigger] self.cells[lr][lc]).value is None ==> exists|i: int|
                            base <= i < buffer@.len() && (#[trigger] buffer@[i]).row as int == 3 * (
                            grid_row as int) + lr && buffer@[i].column as int == 3 * (
                            grid_col as int) + lc,
                decreases 3 - col,
            {
                let ghost prev = buffer@;
                let ghost at = prev.len() as int;
                if !self.cells[row][col].has_value() {
                    let entry = CellPossibleValues {
                        row: grid_row * 3 + row,
                        column: grid_col * 3 + col,
                        value: self.cells[row][col].get_possible_values(),
                    };
                    buffer.push(entry);
                }
                proof {
                    crate::indices::lemma_compose_div3(row as int, col as int);
                    let n1 = 3 * (row as int) + col as int + 1;
                    assert forall|k: int|
                        0 <= k < self.empty_cells_upto(n1).len() implies {
                        let e = #[trigger] buffer@[base + k];
                        let idx = self.empty_cells_upto(n1)[k] as int;
                        e.row as int == 3 * (grid_row as int) + idx / 3 && e.column as int == 3
                            * (grid_col as int) + idx % 3 && e.value@
                            == crate::masks::mask_values(self.cells[idx / 3][idx % 3].candidates)
                    } by {
                        if k < self.empty_cells_upto(n1 - 1).len() {
                            assert(buffer@[base + k] == prev[base + k]);
                            assert(self.empty_cells_upto(n1)[k] == self.empty_cells_upto(
                                n1 - 1,
                            )[k]);
                        }
                    }
                    assert forall|lr: int, lc: int|
                        0 <= lr < 3 && 0 <= lc < 3 && (lr < row as int || (lr == row as int && lc
                            < col as int + 1)) && (#[trigger] self.cells[lr][lc]).value
                            is None implies exists|i: int|
                        base <= i < buffer@.len() && (#[trigger] buffer@[i]).row as int == 3 * (
                        grid_row as int) + lr && buffer@[i].column as int == 3 * (grid_col as int)
                            + lc by {
                        if lr == row as int && lc == col as int {
                            assert(buffer@[at].row as int == 3 * (grid_row as int) + lr);
                            assert(buffer@[at].column as int == 3 * (grid_col as int) + lc);
                        } else {
                            let i = choose|i: int|
                                base <= i < prev.len() && (#[trigger] prev[i]).row as int == 3 * (
                                grid_row as int) + lr && prev[i].column as int == 3 * (
                                grid_col as int) + lc;
                            assert(buffer@[i] == prev[i]);
                        }
                    }
                }
                col += 1;
            }
            row += 1;
        }
    }

    /// `set_value`'s success path re-establishes the block invariant.
    proof fn lemma_set_value_preserves_wf(
        &self,
        prev: Group,
        row: int,
        col: int,
        val: u8,
        is_given: bool,
    )
        requires
            prev.wf(),
            0 <= row < 3,
            0 <= col < 3,
            1 <= val <= 9,
            !prev.is_complete_spec(),
            !mask_has(prev.group_values, val as u16),
            mask_has(prev.cells[row][col].candidates, val as u16),
            self.group_values == prev.group_values | (1u16 << (val as u16)),
            self.cells[row][col] == (Cell { value: Some(val), is_given, candidates: 0u16 }),
            forall|r2: int, c2: int|
                0 <= r2 < 3 && 0 <= c2 < 3 && !(r2 == row && c2 == col)
                    ==> (#[trigger] self.cells[r2][c2]) == cell_after_elim(
                    prev.cells[r2][c2],
                    val,
                ),
            forall|k: int, idx: int|
                0 <= k < 2 && 0 <= idx < 3 ==> (#[trigger] self.group_candidates[k][idx]) == (
                prev.group_candidates[k][idx] & !(1u16 << (val as u16))),
        ensures
            self.wf(),
    {
        lemma_mask_set(prev.group_values, val as u16);
        lemma_mask_full_empty();
        // the target cell was empty: a filled cell has no candidates left
        assert(prev.cells[row][col].value is None);
        // cells stay structurally sound
        assert forall|r: int, c: int| 0 <= r < 3 && 0 <= c < 3 implies (
        #[trigger] self.cells[r][c]).wf() by {
            assert(prev.cells[r][c].wf());
            crate::masks::lemma_mask_bounded(prev.cells[r][c].candidates, val as u16);
        }
        // the placed mask still records exactly the held values
        assert forall|v: u8| 1 <= v <= 9 implies ((#[trigger] mask_has(
            self.group_values,
            v as u16,
        )) <==> self.contains_value(v)) by {
            if v == val {
                assert(self.cells[row][col].value == Some(v));
                assert(self.contains_value(v));
            } else {
                if mask_has(self.group_values, v as u16) {
                    let (r, c) = choose|r: int, c: int|
                        0 <= r < 3 && 0 <= c < 3 && (#[trigger] prev.cells[r][c]).value == Some(v);
                    assert(self.cells[r][c].value == Some(v));
                }
                if self.contains_value(v) {
                    let (r, c) = choose|r: int, c: int|
                        0 <= r < 3 && 0 <= c < 3 && (#[trigger] self.cells[r][c]).value == Some(v);
                    assert(prev.cells[r][c].value == Some(v));
                    assert(prev.contains_value(v));
                }
            }
        }
        // no value occurs twice
        assert forall|r1: int, c1: int, r2: int, c2: int|
            0 <= r1 < 3 && 0 <= c1 < 3 && 0 <= r2 < 3 && 0 <= c2 < 3 && !(r1 == r2 && c1 == c2)
                && (#[trigger] self.cells[r1][c1]).value is Some
                && (#[trigger] self.cells[r2][c2]).value is Some implies self.cells[r1][c1].value
            != self.cells[r2][c2].value by {
            if r1 == row && c1 == col {
                assert(prev.cells[r2][c2].value is Some);
                assert(prev.contains_value(prev.cells[r2][c2].value->0));
            } else if r2 == row && c2 == col {
                assert(prev.cells[r1][c1].value is Some);
                assert(prev.contains_value(prev.cells[r1][c1].value->0));
            } else {
                assert(prev.cells[r1][c1].value is Some);
                assert(prev.cells[r2][c2].value is Some);
            }
        }
        // placed values are eliminated from empty cells
        assert forall|r: int, c: int, v: u8|
            0 <= r < 3 && 0 <= c < 3 && 1 <= v <= 9 && mask_has(self.group_values, v as u16)
                && self.cells[r][c].value is None implies !(#[trigger] mask_has(
            self.cells[r][c].candidates,
            v as u16,
        )) by {
            assert(!(r == row && c == col));
            assert(prev.cells[r][c].value is None);
            lemma_mask_clear(prev.cells[r][c].candidates, val as u16);
        }
        // placed values are cleared from every line mask
        assert forall|k: int, idx: int, v: u8|
            0 <= k < 2 && 0 <= idx < 3 && 1 <= v <= 9 && mask_has(self.group_values, v as u16)
                implies !(#[trigger] mask_has(self.group_candidates[k][idx], v as u16)) by {
            lemma_mask_clear(prev.group_candidates[k][idx], val as u16);
        }
    }
}

impl Default for Group {
    /// A fresh block: nine fresh cells, nothing placed, every internal
    /// line still admitting every value.
    fn default() -> (r: Self)
        ensures
            forall|row: int, c: int|
                0 <= row < 3 && 0 <= c < 3 ==> (#[trigger] r.cells[row][c]) == (Cell {
                    value: None,
                    is_given: false,
                    candidates: FULL_MASK,
                }),
            r.group_values == 0u16,
            forall|k: int, idx: int|
                0 <= k < 2 && 0 <= idx < 3 ==> (#[trigger] r.group_candidates[k][idx])
                    == FULL_MASK,
            r.wf(),
    {
        let cell = Cell { value: None, is_given: false, candidates: FULL_MASK };
        let line = [cell, cell, cell];
        let g = Group {
            cells: [line, line, line],
            group_values: 0,
            group_candidates: [[FULL_MASK, FULL_MASK, FULL_MASK], [FULL_MASK, FULL_MASK, FULL_MASK]],
        };
        proof {
            lemma_mask_full_empty();
            crate::masks::lemma_mask_bounded(FULL_MASK, 1);
        }
        g
    }
}

} // verus!
