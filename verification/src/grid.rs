//! The full 9x9 grid: a 3x3 array of blocks.  An assignment is
//! dispatched to the owning block and then fanned out to the other
//! blocks sharing the same absolute row or column; the solving loop
//! interleaves the three deduction heuristics until the grid is
//! complete or stalls.

use crate::cell::{cell_after_elim, Cell};
use crate::group::{spec_print_cell, Group};
use crate::indices::{lemma_compose_div3, lemma_split_div3};
use crate::masks::{lemma_mask_clear, lemma_mask_full_empty, mask_has};
use crate::utility::{
    CellPossibleValues, Directional, DirectionalCandidate, PrintCell, SingleCandidate, SudokuError,
};
use vstd::prelude::*;

verus! {

broadcast use vstd::array::group_array_axioms;

/// Cell `a` does not conflict with cell `b`: if `a` holds a value, `b`
/// neither holds the same value nor, while empty, still counts it as a
/// candidate.
pub open spec fn excludes(a: Cell, b: Cell) -> bool {
    a.value is Some ==> {
        &&& b.value != a.value
        &&& (b.value is None ==> !mask_has(b.candidates, a.value->0 as u16))
    }
}

/// The cell at (`rr`, `cc`) after assigning `val` at (`row`, `col`):
/// the target cell is filled, every other cell sharing its row, column
/// or block loses the candidate, and all remaining cells are untouched.
pub open spec fn spec_assign_cell(
    g: Grid,
    row: int,
    col: int,
    val: u8,
    is_given: bool,
    rr: int,
    cc: int,
) -> Cell {
    if rr == row && cc == col {
        Cell { value: Some(val), is_given, candidates: 0u16 }
    } else if rr == row || cc == col || (rr / 3 == row / 3 && cc / 3 == col / 3) {
        cell_after_elim(g.cell_at(rr, cc), val)
    } else {
        g.cell_at(rr, cc)
    }
}

#[derive(Debug, Copy, Clone)]
pub struct Grid {
    pub sudoku_group: [[Group; 3]; 3],
}

/// One given applied to the 9x9 cell model, exactly as `set_value`
/// applies it: the target cell is filled as given, every cell sharing
/// its row, column or block loses the candidate.
pub open spec fn cells_after_assign(
    cells: Seq<Seq<Cell>>,
    row: int,
    col: int,
    val: u8,
) -> Seq<Seq<Cell>> {
    Seq::new(
        9,
        |rr: int|
            Seq::new(
                9,
                |cc: int|
                    if rr == row && cc == col {
                        Cell { value: Some(val), is_given: true, candidates: 0u16 }
                    } else if rr == row || cc == col || (rr / 3 == row / 3 && cc / 3 == col / 3) {
                        cell_after_elim(cells[rr][cc], val)
                    } else {
                        cells[rr][cc]
                    },
            ),
    )
}

/// In a well-formed grid an assignment is rejected exactly when the
/// target cell no longer admits the value.
pub open spec fn given_rejected(cells: Seq<Seq<Cell>>, e: SingleCandidate) -> bool {
    !mask_has(cells[e.row as int][e.column as int].candidates, e.value as u16)
}

/// The givens apply in order without a consistency violation: each one
/// still has its candidate bit in the state the previous givens left.
pub open spec fn givens_all_accepted(cells: Seq<Seq<Cell>>, givens: Seq<SingleCandidate>) -> bool
    decreases givens.len(),
{
    if givens.len() == 0 {
        true
    } else {
        !given_rejected(cells, givens[0]) && givens_all_accepted(
            cells_after_assign(
                cells,
                givens[0].row as int,
                givens[0].column as int,
                givens[0].value,
            ),
            givens.drop_first(),
        )
    }
}

/// In a well-formed grid the three consistency checks of `set_value`
/// come down to the target cell's candidate bit.
proof fn lemma_wf_rejects_is_candidate(g: Grid, row: int, col: int, val: u8)
    requires
        g.wf(),
        0 <= row < 9,
        0 <= col < 9,
        1 <= val <= 9,
    ensures
        g.group_at(row, col).rejects_value(row % 3, col % 3, val) <==> !mask_has(
            g.cell_at(row, col).candidates,
            val as u16,
        ),
{
    lemma_split_div3(row);
    lemma_split_div3(col);
    lemma_mask_full_empty();
    let b = g.sudoku_group[row / 3][col / 3];
    assert(b.wf());
    if b.is_complete_spec() {
        crate::masks::lemma_full_count_has_all(b.group_values, val as u16);
    }
    if mask_has(b.group_values, val as u16) {
        if g.cell_at(row, col).value is Some {
            assert(g.cell_at(row, col).wf());
        } else {
            assert(!mask_has(b.cells[row % 3][col % 3].candidates, val as u16));
        }
    }
}

/// `next` extends `prev` by deduction only: every cell filled in
/// `prev` keeps its value and given flag, and every cell filled beyond
/// `prev` was deduced, never marked as given.
pub open spec fn extends_by_deduction(next: Grid, prev: Grid) -> bool {
    forall|r: int, c: int|
        0 <= r < 9 && 0 <= c < 9 ==> {
            let pc = prev.cell_at(r, c);
            let nc = #[trigger] next.cell_at(r, c);
            &&& (pc.value is Some ==> nc.value == pc.value && nc.is_given == pc.is_given)
            &&& (pc.value is None && nc.value is Some ==> !nc.is_given)
        }
}

/// Extension by deduction is transitive.
proof fn lemma_extends_trans(a: Grid, b: Grid, c: Grid)
    requires
        extends_by_deduction(b, a),
        extends_by_deduction(c, b),
    ensures
        extends_by_deduction(c, a),
{
    assert forall|r: int, cc: int| 0 <= r < 9 && 0 <= cc < 9 implies {
        let pc = a.cell_at(r, cc);
        let nc = #[trigger] c.cell_at(r, cc);
        &&& (pc.value is Some ==> nc.value == pc.value && nc.is_given == pc.is_given)
        &&& (pc.value is None && nc.value is Some ==> !nc.is_given)
    } by {
        assert(b.cell_at(r, cc) == b.cell_at(r, cc));
    }
}

/// A successful deduced assignment extends the grid by deduction.
proof fn lemma_assign_extends(prev: Grid, next: Grid, row: int, col: int, val: u8)
    requires
        prev.wf(),
        0 <= row < 9,
        0 <= col < 9,
        1 <= val <= 9,
        mask_has(prev.cell_at(row, col).candidates, val as u16),
        forall|rr: int, cc: int|
            0 <= rr < 9 && 0 <= cc < 9 ==> (#[trigger] next.cell_at(rr, cc)) == spec_assign_cell(
                prev,
                row,
                col,
                val,
                false,
                rr,
                cc,
            ),
    ensures
        extends_by_deduction(next, prev),
{
    lemma_mask_full_empty();
    lemma_split_div3(row);
    lemma_split_div3(col);
    assert(prev.sudoku_group[row / 3][col / 3].wf());
    assert(prev.cell_at(row, col).wf());
    assert(prev.cell_at(row, col).value is None);
}

impl Grid {
    /// The block owning absolute coordinates (`r`, `c`).
    pub open spec fn group_at(&self, r: int, c: int) -> Group {
        self.sudoku_group[r / 3][c / 3]
    }

    /// The cell at absolute coordinates (`r`, `c`).
    pub open spec fn cell_at(&self, r: int, c: int) -> Cell {
        self.sudoku_group[r / 3][c / 3].cells[r % 3][c % 3]
    }

    /// The value at absolute coordinates (`r`, `c`), if any.
    pub open spec fn value_at(&self, r: int, c: int) -> Option<u8> {
        self.cell_at(r, c).value
    }

    /// The grid's 9x9 cell model: row `r` of the model holds the cells
    /// of absolute row `r`.
    pub open spec fn spec_cells(&self) -> Seq<Seq<Cell>> {
        Seq::new(9, |r: int| Seq::new(9, |c: int| self.cell_at(r, c)))
    }

    /// Every block satisfies the block invariant.
    pub open spec fn groups_wf(&self) -> bool {
        forall|gr: int, gc: int|
            0 <= gr < 3 && 0 <= gc < 3 ==> (#[trigger] self.sudoku_group[gr][gc]).wf()
    }

    /// No two cells of one absolute row conflict.
    pub open spec fn row_consistent(&self) -> bool {
        forall|r: int, c1: int, c2: int|
            0 <= r < 9 && 0 <= c1 < 9 && 0 <= c2 < 9 && c1 != c2 ==> #[trigger] excludes(
                self.cell_at(r, c1),
                self.cell_at(r, c2),
            )
    }

    /// No two cells of one absolute column conflict.
    pub open spec fn col_consistent(&self) -> bool {
        forall|r1: int, r2: int, c: int|
            0 <= r1 < 9 && 0 <= r2 < 9 && 0 <= c < 9 && r1 != r2 ==> #[trigger] excludes(
                self.cell_at(r1, c),
                self.cell_at(r2, c),
            )
    }

    /// The grid invariant: sound blocks, and no conflicts along any
    /// absolute row or column.  Together with the block invariant this
    /// is the uniqueness guarantee: every value occurs at most once in
    /// each row, column and block of every reachable grid.
    pub open spec fn wf(&self) -> bool {
        &&& self.groups_wf()
        &&& self.row_consistent()
        &&& self.col_consistent()
    }

    /// Value `v` is placed somewhere in absolute row `r`.
    pub open spec fn value_in_row(&self, r: int, v: u8) -> bool {
        exists|c: int| 0 <= c < 9 && (#[trigger] self.cell_at(r, c)).value == Some(v)
    }

    /// Value `v` is placed somewhere in absolute column `c`.
    pub open spec fn value_in_col(&self, c: int, v: u8) -> bool {
        exists|r: int| 0 <= r < 9 && (#[trigger] self.cell_at(r, c)).value == Some(v)
    }

    /// Candidate exactness: every empty cell's candidate set is exactly
    /// {1..9} minus the values already placed in its row, its column
    /// and its block.  A fresh grid has it, and every assignment keeps
    /// it; a pointing elimination deliberately clears candidates beyond
    /// this set, so it is an invariant of loading, not of solving.
    pub open spec fn candidates_exact(&self) -> bool {
        forall|r: int, c: int, v: u8|
            0 <= r < 9 && 0 <= c < 9 && 1 <= v <= 9 && self.cell_at(r, c).value is None ==> ((
            #[trigger] mask_has(self.cell_at(r, c).candidates, v as u16)) <==> (!self.value_in_row(
                r,
                v,
            ) && !self.value_in_col(c, v) && !self.sudoku_group[r / 3][c / 3].contains_value(v)))
    }

    /// No incomplete block offers a hidden single or a pointing
    /// candidate: together with `no_forced_cell` this is the state a
    /// stalled solve leaves behind, with none of the three heuristics
    /// able to make progress.
    pub open spec fn no_block_deduction(&self) -> bool {
        forall|gr: int, gc: int|
            0 <= gr < 3 && 0 <= gc < 3 && !(#[trigger] self.sudoku_group[gr][gc]).is_complete_spec()
                ==> self.sudoku_group[gr][gc].no_hidden_single()
                && self.sudoku_group[gr][gc].no_pointing_candidate()
    }

    /// No empty cell has exactly one candidate left: the shape a solve
    /// pass that found no single leaves behind, every empty cell
    /// keeping zero or at least two candidates.
    pub open spec fn no_forced_cell(&self) -> bool {
        forall|r: int, c: int|
            0 <= r < 9 && 0 <= c < 9 && (#[trigger] self.cell_at(r, c)).value is None
                ==> crate::masks::mask_count(self.cell_at(r, c).candidates) != 1
    }

    /// Every block has placed all nine values.
    pub open spec fn is_complete_spec(&self) -> bool {
        forall|gr: int, gc: int|
            0 <= gr < 3 && 0 <= gc < 3 ==> (#[trigger] self.sudoku_group[gr][gc]).is_complete_spec()
    }

    pub fn is_complete(&self) -> (r: bool)
        ensures
            r == self.is_complete_spec(),
    {
        let mut row: usize = 0;
        while row < 3
            invariant
                row <= 3,
                forall|gr: int, gc: int|
                    0 <= gr < 3 && 0 <= gc < 3 && gr < row ==> (#[trigger] self.sudoku_group[gr][gc]).is_complete_spec(),
            decreases 3 - row,
        {
            let mut col: usize = 0;
            while col < 3
                invariant
                    row < 3,
                    col <= 3,
                    forall|gr: int, gc: int|
                        0 <= gr < 3 && 0 <= gc < 3 && gr < row ==> (#[trigger] self.sudoku_group[gr][gc]).is_complete_spec(),
                    forall|gc: int|
                        0 <= gc < 3 && gc < col ==> (#[trigger] self.sudoku_group[row as int][gc]).is_complete_spec(),
                decreases 3 - col,
            {
                if !self.sudoku_group[row][col].is_complete() {
                    return false;
                }
                col += 1;
            }
            row += 1;
        }
        true
    }

    /// Assign `val` at absolute (`row`, `column`): dispatch to the
    /// owning block, then fan the elimination out to the two other
    /// blocks sharing the absolute row and the two sharing the absolute
    /// column.  A rejected assignment is the consistency-violation
    /// error and leaves the grid untouched.
    pub fn set_value(&mut self, row: usize, column: usize, val: u8, is_given: bool) -> (r: Result<
        (),
        SudokuError,
    >)
        requires
            row < 9,
            column < 9,
            1 <= val <= 9,
        ensures
            r is Err <==> old(self).group_at(row as int, column as int).rejects_value(
                row as int % 3,
                column as int % 3,
                val,
            ),
            r is Err ==> *final(self) == *old(self),
            r is Ok ==> forall|rr: int, cc: int|
                0 <= rr < 9 && 0 <= cc < 9 ==> (#[trigger] final(self).cell_at(rr, cc))
                    == spec_assign_cell(
                    *old(self),
                    row as int,
                    column as int,
                    val,
                    is_given,
                    rr,
                    cc,
                ),
            r is Ok ==> forall|gr: int, gc: int|
                0 <= gr < 3 && 0 <= gc < 3 ==> (#[trigger] final(self).sudoku_group[gr][gc]).group_values
                    == (if gr == row as int / 3 && gc == column as int / 3 {
                    old(self).sudoku_group[gr][gc].group_values | (1u16 << (val as u16))
                } else {
                    old(self).sudoku_group[gr][gc].group_values
                }),
            r is Ok ==> forall|gr: int, gc: int, k: int, idx: int|
                0 <= gr < 3 && 0 <= gc < 3 && 0 <= k < 2 && 0 <= idx < 3
                    ==> (#[trigger] final(self).sudoku_group[gr][gc].group_candidates[k][idx])
                    == (if (gr == row as int / 3 && gc == column as int / 3) || (k == 0 && gr
                    == row as int / 3 && idx == row as int % 3) || (k == 1 && gc == column as int
                    / 3 && idx == column as int % 3) {
                    old(self).sudoku_group[gr][gc].group_candidates[k][idx] & !(1u16 << (
                    val as u16))
                } else {
                    old(self).sudoku_group[gr][gc].group_candidates[k][idx]
                }),
            old(self).wf() && r is Ok ==> final(self).wf(),
            old(self).wf() && old(self).candidates_exact() && r is Ok
                ==> final(self).candidates_exact(),
    {
        let grid_row = row / 3;
        let grid_col = column / 3;
        let cell_row = row % 3;
        let cell_col = column % 3;
        let mut g = self.sudoku_group[grid_row][grid_col];
        if let Err(e) = g.set_value(cell_row, cell_col, val, is_given) {
            return Err(e);
        }
        let ghost prev = *self;
        let mut band = self.sudoku_group[grid_row];
        band[grid_col] = g;
        self.sudoku_group[grid_row] = band;
        self.propagate_changes(row, column, val);
        proof {
            let rowi = row as int;
            let coli = column as int;
            lemma_split_div3(rowi);
            lemma_split_div3(coli);
            assert forall|rr: int, cc: int| 0 <= rr < 9 && 0 <= cc < 9 implies (
            #[trigger] self.cell_at(rr, cc)) == spec_assign_cell(
                prev,
                rowi,
                coli,
                val,
                is_given,
                rr,
                cc,
            ) by {
                lemma_split_div3(rr);
                lemma_split_div3(cc);
            }
            if prev.wf() {
                assert(self.groups_wf());
                lemma_assign_keeps_consistency(prev, *self, rowi, coli, val, is_given);
                if prev.candidates_exact() {
                    lemma_assign_keeps_exactness(prev, *self, rowi, coli, val, is_given);
                }
            }
        }
        Ok(())
    }

    /// The naked singles of the first `n` blocks, block-major, as the
    /// block scans emit them; complete blocks contribute nothing.
    pub open spec fn naked_entries_upto(&self, n: int) -> Seq<SingleCandidate>
        decreases n,
    {
        if n <= 0 {
            Seq::empty()
        } else {
            self.naked_entries_upto(n - 1) + ({
                let g = self.sudoku_group[(n - 1) / 3][(n - 1) % 3];
                if g.is_complete_spec() {
                    Seq::empty()
                } else {
                    g.naked_singles_upto((n - 1) / 3, (n - 1) % 3, 9)
                }
            })
        }
    }

    /// A grid whose incomplete blocks have no naked single yields an
    /// empty block-major scan.
    proof fn lemma_naked_entries_none(&self, n: int)
        requires
            0 <= n <= 9,
            forall|gr: int, gc: int|
                0 <= gr < 3 && 0 <= gc < 3 && !(#[trigger] self.sudoku_group[gr][gc]).is_complete_spec()
                    ==> self.sudoku_group[gr][gc].no_naked_single(),
        ensures
            self.naked_entries_upto(n).len() == 0,
        decreases n,
    {
        if n > 0 {
            self.lemma_naked_entries_none(n - 1);
            lemma_split_div3(n - 1);
            let g = self.sudoku_group[(n - 1) / 3][(n - 1) % 3];
            if !g.is_complete_spec() {
                g.lemma_naked_singles_none((n - 1) / 3, (n - 1) % 3, 9);
            }
        }
    }

    /// Collect the naked singles of every block: block-major, exactly
    /// what the nine block scans emit.  The queue must be handed in
    /// empty, stays empty on a complete grid, and stays empty exactly
    /// when no incomplete block has a naked single.
    fn get_single_candidates(&self, queue: &mut Vec<SingleCandidate>)
        requires
            old(queue)@.len() == 0,
        ensures
            self.is_complete_spec() ==> final(queue)@ == old(queue)@,
            !self.is_complete_spec() ==> final(queue)@ == old(queue)@ + self.naked_entries_upto(
                9,
            ),
            forall|i: int|
                0 <= i < final(queue)@.len() ==> {
                    let e = #[trigger] final(queue)@[i];
                    e.row < 9 && e.column < 9 && 1 <= e.value <= 9
                },
            final(queue)@.len() == 0 ==> forall|gr: int, gc: int|
                0 <= gr < 3 && 0 <= gc < 3 && !(#[trigger] self.sudoku_group[gr][gc]).is_complete_spec()
                    ==> self.sudoku_group[gr][gc].no_naked_single(),
            (forall|gr: int, gc: int|
                0 <= gr < 3 && 0 <= gc < 3 && !(#[trigger] self.sudoku_group[gr][gc]).is_complete_spec()
                    ==> self.sudoku_group[gr][gc].no_naked_single()) ==> final(queue)@ == old(
                queue,
            )@,
    {
        if self.is_complete() {
            return ;
        }
        let mut grid_row: usize = 0;
        while grid_row < 3
            invariant
                grid_row <= 3,
                old(queue)@.len() == 0,
                queue@ == old(queue)@ + self.naked_entries_upto(3 * grid_row),
                forall|i: int|
                    0 <= i < queue@.len() ==> {
                        let e = #[trigger] queue@[i];
                        e.row < 9 && e.column < 9 && 1 <= e.value <= 9
                    },
                queue@.len() == 0 ==> forall|gr: int, gc: int|
                    0 <= gr < 3 && 0 <= gc < 3 && gr < grid_row && !(
                    #[trigger] self.sudoku_group[gr][gc]).is_complete_spec()
                        ==> self.sudoku_group[gr][gc].no_naked_single(),
            decreases 3 - grid_row,
        {
            let mut grid_col: usize = 0;
            while grid_col < 3
                invariant
                    grid_row < 3,
                    grid_col <= 3,
                    old(queue)@.len() == 0,
                    queue@ == old(queue)@ + self.naked_entries_upto(3 * grid_row + grid_col),
                    forall|i: int|
                        0 <= i < queue@.len() ==> {
                            let e = #[trigger] queue@[i];
                            e.row < 9 && e.column < 9 && 1 <= e.value <= 9
                        },
                    queue@.len() == 0 ==> forall|gr: int, gc: int|
                        0 <= gr < 3 && 0 <= gc < 3 && (gr < grid_row || (gr == grid_row && gc
                            < grid_col)) && !(#[trigger] self.sudoku_group[gr][gc]).is_complete_spec()
                            ==> self.sudoku_group[gr][gc].no_naked_single(),
                decreases 3 - grid_col,
            {
                proof {
                    lemma_compose_div3(grid_row as int, grid_col as int);
                }
                self.sudoku_group[grid_row][grid_col].get_single_candidates(
                    queue,
                    grid_row,
                    grid_col,
                );
                proof {
                    assert(queue@ =~= old(queue)@ + self.naked_entries_upto(
                        3 * grid_row + grid_col + 1,
                    ));
                    if queue@.len() == 0 {
                        let b = self.sudoku_group[grid_row as int][grid_col as int];
                        if !b.is_complete_spec() {
                            b.lemma_no_naked_singles(grid_row as int, grid_col as int, 9);
                            assert forall|r: int, c: int| 0 <= r < 3 && 0 <= c < 3 implies (
                            #[trigger] b.cells[r][c]).spec_single_candidate() is None by {
                                lemma_compose_div3(r, c);
                                assert(b.cells[(3 * r + c) / 3][(3 * r + c) % 3].spec_single_candidate()
                                    is None);
                            }
                        }
                    }
                }
                grid_col += 1;
            }
            grid_row += 1;
        }
        proof {
            if forall|gr: int, gc: int|
                0 <= gr < 3 && 0 <= gc < 3 && !(#[trigger] self.sudoku_group[gr][gc]).is_complete_spec()
                    ==> self.sudoku_group[gr][gc].no_naked_single() {
                self.lemma_naked_entries_none(9);
                assert(queue@ =~= old(queue)@);
            }
        }
    }

    /// Collect the hidden singles of every block, block-major,
    /// deduplicating against whatever is already queued.
    fn get_single_candidate_possible_cell_value(&self, queue: &mut Vec<SingleCandidate>)
        ensures
            final(queue)@.len() >= old(queue)@.len(),
            forall|i: int| 0 <= i < old(queue)@.len() ==> final(queue)@[i] == old(queue)@[i],
            forall|i: int|
                old(queue)@.len() <= i < final(queue)@.len() ==> {
                    let e = #[trigger] final(queue)@[i];
                    e.row < 9 && e.column < 9 && 1 <= e.value <= 9
                },
            old(queue)@.len() == 0 && final(queue)@.len() == 0 ==> forall|gr: int, gc: int|
                0 <= gr < 3 && 0 <= gc < 3 && !(#[trigger] self.sudoku_group[gr][gc]).is_complete_spec()
                    ==> self.sudoku_group[gr][gc].no_hidden_single(),
            (forall|gr: int, gc: int|
                0 <= gr < 3 && 0 <= gc < 3 && !(#[trigger] self.sudoku_group[gr][gc]).is_complete_spec()
                    ==> self.sudoku_group[gr][gc].no_hidden_single())
                ==> final(queue)@ == old(queue)@,
    {
        let mut grid_row: usize = 0;
        while grid_row < 3
            invariant
                grid_row <= 3,
                queue@.len() >= old(queue)@.len(),
                forall|i: int| 0 <= i < old(queue)@.len() ==> queue@[i] == old(queue)@[i],
                forall|i: int|
                    old(queue)@.len() <= i < queue@.len() ==> {
                        let e = #[trigger] queue@[i];
                        e.row < 9 && e.column < 9 && 1 <= e.value <= 9
                    },
                old(queue)@.len() == 0 && queue@.len() == 0 ==> forall|gr: int, gc: int|
                    0 <= gr < 3 && 0 <= gc < 3 && gr < grid_row && !(
                    #[trigger] self.sudoku_group[gr][gc]).is_complete_spec()
                        ==> self.sudoku_group[gr][gc].no_hidden_single(),
                (forall|gr: int, gc: int|
                    0 <= gr < 3 && 0 <= gc < 3 && !(#[trigger] self.sudoku_group[gr][gc]).is_complete_spec()
                        ==> self.sudoku_group[gr][gc].no_hidden_single()) ==> queue@
                    == old(queue)@,
            decreases 3 - grid_row,
        {
            let mut grid_col: usize = 0;
            while grid_col < 3
                invariant
                    grid_row < 3,
                    grid_col <= 3,
                    queue@.len() >= old(queue)@.len(),
                    forall|i: int| 0 <= i < old(queue)@.len() ==> queue@[i] == old(queue)@[i],
                    forall|i: int|
                        old(queue)@.len() <= i < queue@.len() ==> {
                            let e = #[trigger] queue@[i];
                            e.row < 9 && e.column < 9 && 1 <= e.value <= 9
                        },
                    old(queue)@.len() == 0 && queue@.len() == 0 ==> forall|gr: int, gc: int|
                        0 <= gr < 3 && 0 <= gc < 3 && (gr < grid_row || (gr == grid_row && gc
                            < grid_col)) && !(#[trigger] self.sudoku_group[gr][gc]).is_complete_spec()
                            ==> self.sudoku_group[gr][gc].no_hidden_single(),
                    (forall|gr: int, gc: int|
                        0 <= gr < 3 && 0 <= gc < 3 && !(#[trigger] self.sudoku_group[gr][gc]).is_complete_spec()
                            ==> self.sudoku_group[gr][gc].no_hidden_single())
                        ==> queue@ == old(queue)@,
                decreases 3 - grid_col,
            {
                self.sudoku_group[grid_row][grid_col].get_single_candidate_possible_cell_value(
                    queue,
                    grid_row,
                    grid_col,
                );
                grid_col += 1;
            }
            grid_row += 1;
        }
    }

    /// Collect the pointing candidates of every block, block-major.
    fn get_directional_candidates(&self, queue: &mut Vec<DirectionalCandidate>)
        ensures
            final(queue)@.len() >= old(queue)@.len(),
            forall|i: int| 0 <= i < old(queue)@.len() ==> final(queue)@[i] == old(queue)@[i],
            forall|i: int|
                old(queue)@.len() <= i < final(queue)@.len() ==> {
                    let e = #[trigger] final(queue)@[i];
                    e.grid_row < 3 && e.grid_col < 3 && e.index < 9 && 1 <= e.value <= 9
                },
            old(queue)@.len() == 0 && final(queue)@.len() == 0 ==> forall|gr: int, gc: int|
                0 <= gr < 3 && 0 <= gc < 3 && !(#[trigger] self.sudoku_group[gr][gc]).is_complete_spec()
                    ==> self.sudoku_group[gr][gc].no_pointing_candidate(),
            (forall|gr: int, gc: int|
                0 <= gr < 3 && 0 <= gc < 3 && !(#[trigger] self.sudoku_group[gr][gc]).is_complete_spec()
                    ==> self.sudoku_group[gr][gc].no_pointing_candidate())
                ==> final(queue)@ == old(queue)@,
    {
        let mut grid_row: usize = 0;
        while grid_row < 3
            invariant
                grid_row <= 3,
                queue@.len() >= old(queue)@.len(),
                forall|i: int| 0 <= i < old(queue)@.len() ==> queue@[i] == old(queue)@[i],
                forall|i: int|
                    old(queue)@.len() <= i < queue@.len() ==> {
                        let e = #[trigger] queue@[i];
                        e.grid_row < 3 && e.grid_col < 3 && e.index < 9 && 1 <= e.value <= 9
                    },
                old(queue)@.len() == 0 && queue@.len() == 0 ==> forall|gr: int, gc: int|
                    0 <= gr < 3 && 0 <= gc < 3 && gr < grid_row && !(
                    #[trigger] self.sudoku_group[gr][gc]).is_complete_spec()
                        ==> self.sudoku_group[gr][gc].no_pointing_candidate(),
                (forall|gr: int, gc: int|
                    0 <= gr < 3 && 0 <= gc < 3 && !(#[trigger] self.sudoku_group[gr][gc]).is_complete_spec()
                        ==> self.sudoku_group[gr][gc].no_pointing_candidate()) ==> queue@
                    == old(queue)@,
            decreases 3 - grid_row,
        {
            let mut grid_col: usize = 0;
            while grid_col < 3
                invariant
                    grid_row < 3,
                    grid_col <= 3,
                    queue@.len() >= old(queue)@.len(),
                    forall|i: int| 0 <= i < old(queue)@.len() ==> queue@[i] == old(queue)@[i],
                    forall|i: int|
                        old(queue)@.len() <= i < queue@.len() ==> {
                            let e = #[trigger] queue@[i];
                            e.grid_row < 3 && e.grid_col < 3 && e.index < 9 && 1 <= e.value <= 9
                        },
                    old(queue)@.len() == 0 && queue@.len() == 0 ==> forall|gr: int, gc: int|
                        0 <= gr < 3 && 0 <= gc < 3 && (gr < grid_row || (gr == grid_row && gc
                            < grid_col)) && !(#[trigger] self.sudoku_group[gr][gc]).is_complete_spec()
                            ==> self.sudoku_group[gr][gc].no_pointing_candidate(),
                    (forall|gr: int, gc: int|
                        0 <= gr < 3 && 0 <= gc < 3 && !(#[trigger] self.sudoku_group[gr][gc]).is_complete_spec()
                            ==> self.sudoku_group[gr][gc].no_pointing_candidate()) ==> queue@
                        == old(queue)@,
                decreases 3 - grid_col,
            {
                self.sudoku_group[grid_row][grid_col].get_directional_candidates(
                    queue,
                    grid_row,
                    grid_col,
                );
                grid_col += 1;
            }
            grid_row += 1;
        }
    }

    /// Apply one pointing candidate: every still-empty cell on the
    /// candidate's absolute line loses the value in every block sharing
    /// that line except the originating block, which is not touched.
    /// The grid invariant is preserved whatever the candidate claims.
    fn apply_directional_candidate(&mut self, dc: &DirectionalCandidate)
        requires
            old(self).wf(),
            dc.grid_row < 3,
            dc.grid_col < 3,
            dc.index < 9,
            1 <= dc.value <= 9,
        ensures
            final(self).wf(),
            forall|gr: int, gc: int|
                0 <= gr < 3 && 0 <= gc < 3 ==> (#[trigger] final(self).sudoku_group[gr][gc]).group_values
                    == old(self).sudoku_group[gr][gc].group_values,
            forall|rr: int, cc: int|
                0 <= rr < 9 && 0 <= cc < 9 ==> (#[trigger] final(self).cell_at(rr, cc)) == (if (
                dc.direction == Directional::Row && rr == 3 * (dc.grid_row as int) + (
                dc.index as int) % 3 && cc / 3 != dc.grid_col as int) || (dc.direction
                    == Directional::Column && cc == 3 * (dc.grid_col as int) + (dc.index as int)
                    % 3 && rr / 3 != dc.grid_row as int) {
                    cell_after_elim(old(self).cell_at(rr, cc), dc.value)
                } else {
                    old(self).cell_at(rr, cc)
                }),
    {
        let internal = (dc.index % 3) as u8;
        let mut j: usize = 0;
        while j < 3
            invariant
                j <= 3,
                self.wf(),
                dc.grid_row < 3,
                dc.grid_col < 3,
                dc.index < 9,
                1 <= dc.value <= 9,
                internal as int == (dc.index as int) % 3,
                internal < 3,
                forall|gr: int, gc: int|
                    0 <= gr < 3 && 0 <= gc < 3 ==> (#[trigger] self.sudoku_group[gr][gc]).group_values
                        == old(self).sudoku_group[gr][gc].group_values,
                dc.direction == Directional::Row ==> forall|gr: int, gc: int|
                    0 <= gr < 3 && 0 <= gc < 3 && !(gr == dc.grid_row && gc < j && gc
                        != dc.grid_col) ==> (#[trigger] self.sudoku_group[gr][gc]) == old(
                        self,
                    ).sudoku_group[gr][gc],
                dc.direction == Directional::Row ==> forall|gc: int|
                    0 <= gc < 3 && gc < j && gc != dc.grid_col ==> row_elim_applied(
                        #[trigger] self.sudoku_group[dc.grid_row as int][gc],
                        old(self).sudoku_group[dc.grid_row as int][gc],
                        internal as int,
                        dc.value,
                    ),
                dc.direction == Directional::Column ==> forall|gr: int, gc: int|
                    0 <= gr < 3 && 0 <= gc < 3 && !(gc == dc.grid_col && gr < j && gr
                        != dc.grid_row) ==> (#[trigger] self.sudoku_group[gr][gc]) == old(
                        self,
                    ).sudoku_group[gr][gc],
                dc.direction == Directional::Column ==> forall|gr: int|
                    0 <= gr < 3 && gr < j && gr != dc.grid_row ==> col_elim_applied(
                        #[trigger] self.sudoku_group[gr][dc.grid_col as int],
                        old(self).sudoku_group[gr][dc.grid_col as int],
                        internal as int,
                        dc.value,
                    ),
            decreases 3 - j,
        {
            let skip = match dc.direction {
                Directional::Row => j == dc.grid_col,
                Directional::Column => j == dc.grid_row,
            };
            if !skip {
                let ghost before = *self;
                let (gr, gc) = match dc.direction {
                    Directional::Row => (dc.grid_row, j),
                    Directional::Column => (j, dc.grid_col),
                };
                let mut g = self.sudoku_group[gr][gc];
                match dc.direction {
                    Directional::Row => g.recive_propagation(Some(internal), None, dc.value),
                    Directional::Column => g.recive_propagation(None, Some(internal), dc.value),
                }
                let mut band = self.sudoku_group[gr];
                band[gc] = g;
                self.sudoku_group[gr] = band;
                proof {
                    assert forall|gr2: int, gc2: int| 0 <= gr2 < 3 && 0 <= gc2 < 3 implies (
                    #[trigger] self.sudoku_group[gr2][gc2]).wf() by {
                        if gr2 == gr && gc2 == gc {
                            lemma_group_shrink_keeps_wf(
                                before.sudoku_group[gr2][gc2],
                                self.sudoku_group[gr2][gc2],
                                dc.value,
                            );
                        }
                    }
                    assert forall|rr: int, cc: int| 0 <= rr < 9 && 0 <= cc < 9 implies (
                    #[trigger] self.cell_at(rr, cc)) == before.cell_at(rr, cc) || self.cell_at(
                        rr,
                        cc,
                    ) == cell_after_elim(before.cell_at(rr, cc), dc.value) by {
                        lemma_split_div3(rr);
                        lemma_split_div3(cc);
                    }
                    lemma_shrink_keeps_consistency(before, *self, dc.value);
                }
            }
            j += 1;
        }
        proof {
            assert forall|rr: int, cc: int| 0 <= rr < 9 && 0 <= cc < 9 implies (
            #[trigger] self.cell_at(rr, cc)) == (if (dc.direction == Directional::Row && rr == 3 * (
            dc.grid_row as int) + (dc.index as int) % 3 && cc / 3 != dc.grid_col as int) || (
            dc.direction == Directional::Column && cc == 3 * (dc.grid_col as int) + (
            dc.index as int) % 3 && rr / 3 != dc.grid_row as int) {
                cell_after_elim(old(self).cell_at(rr, cc), dc.value)
            } else {
                old(self).cell_at(rr, cc)
            }) by {
                lemma_split_div3(rr);
                lemma_split_div3(cc);
                lemma_compose_div3(dc.grid_row as int, (dc.index as int) % 3);
                lemma_compose_div3(dc.grid_col as int, (dc.index as int) % 3);
            }
        }
    }

    /// The fixpoint solving loop.  Each pass collects every naked and
    /// hidden single, applies them all, then recomputes and applies the
    /// pointing candidates.  Stops when the grid is complete, when a
    /// pass finds no deduction at all, or when the iteration cap of 30
    /// passes is exceeded; an assignment that violates consistency
    /// aborts with the fatal error class.  Returns whether the grid is
    /// complete and how many passes ran.  Solving only ever extends the
    /// grid: given cells and earlier deductions are never touched, new
    /// values are never marked as given, a grid that offers no
    /// deduction at all comes back unchanged after a single pass, and a
    /// stall below the cap leaves a grid in which none of the three
    /// heuristics can fire.
    pub fn solve(&mut self) -> (r: Result<(bool, u8), SudokuError>)
        requires
            old(self).wf(),
        ensures
            final(self).wf(),
            extends_by_deduction(*final(self), *old(self)),
            old(self).is_complete_spec() ==> r == Ok::<(bool, u8), SudokuError>((true, 0u8))
                && *final(self) == *old(self),
            r is Ok ==> r->Ok_0.0 == final(self).is_complete_spec(),
            r is Ok ==> r->Ok_0.1 <= 31,
            r is Ok && r->Ok_0.0 ==> r->Ok_0.1 <= 30,
            r is Ok ==> (r->Ok_0.1 == 0 <==> old(self).is_complete_spec()),
            r is Ok && !r->Ok_0.0 && r->Ok_0.1 <= 30
                ==> final(self).no_forced_cell() && final(self).no_block_deduction(),
            !old(self).is_complete_spec() && old(self).no_forced_cell()
                && old(self).no_block_deduction() ==> r == Ok::<(bool, u8), SudokuError>((
            false,
            1u8,
            )) && *final(self) == *old(self),
    {
        if self.is_complete() {
            return Ok((true, 0));
        }
        let mut single_candidate_queue: Vec<SingleCandidate> = Vec::new();
        let mut directional_candidate_queue: Vec<DirectionalCandidate> = Vec::new();
        let mut count: u8 = 0;
        while !self.is_complete()
            invariant_except_break
                count <= 30,
                single_candidate_queue@.len() == 0,
                directional_candidate_queue@.len() == 0,
                self.wf(),
                !old(self).is_complete_spec(),
                extends_by_deduction(*self, *old(self)),
                count == 0 ==> *self == *old(self),
                !old(self).is_complete_spec() && old(self).no_forced_cell()
                    && old(self).no_block_deduction() ==> count == 0,
            ensures
                self.wf(),
                count <= 31,
                1 <= count,
                extends_by_deduction(*self, *old(self)),
                self.is_complete_spec() ==> count <= 30,
                count <= 30 ==> self.is_complete_spec() || (self.no_forced_cell()
                    && self.no_block_deduction()),
                !old(self).is_complete_spec() && old(self).no_forced_cell()
                    && old(self).no_block_deduction() ==> count == 1 && *self == *old(self),
            decreases 31 - count,
        {
            count += 1;
            if count > 30 {
                break ;
            }
            self.get_single_candidates(&mut single_candidate_queue);
            self.get_single_candidate_possible_cell_value(&mut single_candidate_queue);
            proof {
                if !old(self).is_complete_spec() && old(self).no_forced_cell()
                    && old(self).no_block_deduction() {
                    assert(*self == *old(self));
                    assert forall|gr: int, gc: int|
                        0 <= gr < 3 && 0 <= gc < 3 && !(#[trigger] self.sudoku_group[gr][gc]).is_complete_spec() implies self.sudoku_group[gr][gc].no_naked_single() by {
                        let b = self.sudoku_group[gr][gc];
                        assert forall|r2: int, c2: int| 0 <= r2 < 3 && 0 <= c2 < 3 implies (
                        #[trigger] b.cells[r2][c2]).spec_single_candidate() is None by {
                            lemma_compose_div3(gr, r2);
                            lemma_compose_div3(gc, c2);
                            assert(self.cell_at(3 * gr + r2, 3 * gc + c2) == b.cells[r2][c2]);
                        }
                    }
                    assert(single_candidate_queue@.len() == 0);
                }
            }
            if single_candidate_queue.is_empty() {
                self.get_directional_candidates(&mut directional_candidate_queue);
                if directional_candidate_queue.is_empty() {
                    proof {
                        assert forall|rr: int, cc: int|
                            0 <= rr < 9 && 0 <= cc < 9 && (#[trigger] self.cell_at(rr, cc)).value
                                is None implies crate::masks::mask_count(
                            self.cell_at(rr, cc).candidates,
                        ) != 1 by {
                            lemma_split_div3(rr);
                            lemma_split_div3(cc);
                            let b = self.sudoku_group[rr / 3][cc / 3];
                            assert(b.wf());
                            if b.is_complete_spec() {
                                assert forall|w: u16| !mask_has(
                                    self.cell_at(rr, cc).candidates,
                                    w,
                                ) by {
                                    if 1 <= w && w <= 9 {
                                        crate::masks::lemma_full_count_has_all(b.group_values, w);
                                        let v = w as u8;
                                        assert(mask_has(b.group_values, v as u16));
                                        assert(b.cells[rr % 3][cc % 3].value is None);
                                        assert(!mask_has(
                                            b.cells[rr % 3][cc % 3].candidates,
                                            v as u16,
                                        ));
                                    }
                                }
                                crate::masks::lemma_mask_values_empty(
                                    self.cell_at(rr, cc).candidates,
                                    10,
                                );
                            } else {
                                assert(b.no_naked_single());
                                assert(b.cells[rr % 3][cc % 3].spec_single_candidate() is None);
                            }
                        }
                        assert(self.no_block_deduction());
                    }
                    break ;
                }
            }
            let mut i: usize = single_candidate_queue.len();
            while i > 0
                invariant
                    i <= single_candidate_queue@.len(),
                    self.wf(),
                    !old(self).is_complete_spec(),
                    extends_by_deduction(*self, *old(self)),
                    old(self).no_forced_cell() && old(self).no_block_deduction()
                        ==> single_candidate_queue@.len() == 0,
                    forall|k: int|
                        0 <= k < single_candidate_queue@.len() ==> {
                            let e = #[trigger] single_candidate_queue@[k];
                            e.row < 9 && e.column < 9 && 1 <= e.value <= 9
                        },
                decreases i,
            {
                i -= 1;
                let sc = single_candidate_queue[i];
                let ghost mid = *self;
                if let Err(e) = self.set_value(sc.row, sc.column, sc.value, false) {
                    return Err(e);
                }
                proof {
                    lemma_split_div3(sc.row as int);
                    lemma_split_div3(sc.column as int);
                    lemma_assign_extends(mid, *self, sc.row as int, sc.column as int, sc.value);
                    lemma_extends_trans(*old(self), mid, *self);
                }
            }
            single_candidate_queue.clear();
            directional_candidate_queue.clear();
            self.get_directional_candidates(&mut directional_candidate_queue);
            let mut d: usize = directional_candidate_queue.len();
            while d > 0
                invariant
                    d <= directional_candidate_queue@.len(),
                    self.wf(),
                    extends_by_deduction(*self, *old(self)),
                    forall|k: int|
                        0 <= k < directional_candidate_queue@.len() ==> {
                            let e = #[trigger] directional_candidate_queue@[k];
                            e.grid_row < 3 && e.grid_col < 3 && e.index < 9 && 1 <= e.value <= 9
                        },
                decreases d,
            {
                d -= 1;
                let dc = directional_candidate_queue[d];
                let ghost mid = *self;
                self.apply_directional_candidate(&dc);
                proof {
                    assert forall|rr: int, cc: int| 0 <= rr < 9 && 0 <= cc < 9 implies {
                        let pc = mid.cell_at(rr, cc);
                        let nc = #[trigger] self.cell_at(rr, cc);
                        &&& (pc.value is Some ==> nc.value == pc.value && nc.is_given
                            == pc.is_given)
                        &&& (pc.value is None && nc.value is Some ==> !nc.is_given)
                    } by {}
                    assert(extends_by_deduction(*self, mid));
                    lemma_extends_trans(*old(self), mid, *self);
                }
            }
            directional_candidate_queue.clear();
        }
        Ok((self.is_complete(), count))
    }

    /// Load a puzzle from its byte lines: every given cell the lines
    /// describe is assigned with `is_given` set, in reading order.  The
    /// result is the consistency-violation error exactly when some
    /// given, applied after the ones before it, no longer has its
    /// candidate bit; on success every parsed given is present in the
    /// grid.
    pub fn load_from_lines(&mut self, lines: &Vec<Vec<u8>>) -> (r: Result<(), SudokuError>)
        requires
            old(self).wf(),
        ensures
            final(self).wf(),
            r is Err <==> !givens_all_accepted(
                old(self).spec_cells(),
                crate::loader::givens_of_lines(lines.deep_view(), 0),
            ),
            r is Ok ==> forall|i: int|
                0 <= i < crate::loader::givens_of_lines(lines.deep_view(), 0).len() ==> {
                    let e = #[trigger] crate::loader::givens_of_lines(lines.deep_view(), 0)[i];
                    final(self).cell_at(e.row as int, e.column as int).value == Some(e.value)
                        && final(self).cell_at(e.row as int, e.column as int).is_given
                },
    {
        let givens = crate::loader::parse_given_cells(lines);
        proof {
            assert(givens@.skip(0) =~= givens@);
        }
        let mut i: usize = 0;
        while i < givens.len()
            invariant
                i <= givens@.len(),
                self.wf(),
                givens@ == crate::loader::givens_of_lines(lines.deep_view(), 0),
                givens_all_accepted(old(self).spec_cells(), givens@) <==> givens_all_accepted(
                    self.spec_cells(),
                    givens@.skip(i as int),
                ),
                forall|j: int|
                    0 <= j < givens@.len() ==> {
                        let e = #[trigger] givens@[j];
                        e.row < 9 && e.column < 9 && 1 <= e.value <= 9
                    },
                forall|j: int|
                    0 <= j < i ==> {
                        let e = #[trigger] givens@[j];
                        self.cell_at(e.row as int, e.column as int).value == Some(e.value)
                            && self.cell_at(e.row as int, e.column as int).is_given
                    },
            decreases givens@.len() - i,
        {
            let gv = givens[i];
            let ghost before = *self;
            let ghost rest = givens@.skip(i as int);
            proof {
                lemma_wf_rejects_is_candidate(before, gv.row as int, gv.column as int, gv.value);
                assert(rest[0] == givens@[i as int]);
                assert(rest.drop_first() =~= givens@.skip(i as int + 1));
            }
            if let Err(e) = self.set_value(gv.row, gv.column, gv.value, true) {
                proof {
                    assert(given_rejected(before.spec_cells(), gv));
                    assert(!givens_all_accepted(before.spec_cells(), rest));
                }
                return Err(e);
            }
            proof {
                assert(!given_rejected(before.spec_cells(), gv));
                assert(self.spec_cells() =~~= cells_after_assign(
                    before.spec_cells(),
                    gv.row as int,
                    gv.column as int,
                    gv.value,
                ));
                lemma_mask_full_empty();
                let rowi = gv.row as int;
                let coli = gv.column as int;
                lemma_split_div3(rowi);
                lemma_split_div3(coli);
                assert(before.sudoku_group[rowi / 3][coli / 3].wf());
                assert(before.cell_at(rowi, coli).wf());
                assert(before.cell_at(rowi, coli).value is None);
                assert forall|j: int| 0 <= j < i + 1 implies {
                    let e = #[trigger] givens@[j];
                    self.cell_at(e.row as int, e.column as int).value == Some(e.value)
                        && self.cell_at(e.row as int, e.column as int).is_given
                } by {
                    let e = givens@[j];
                    lemma_split_div3(e.row as int);
                    lemma_split_div3(e.column as int);
                    if j < i {
                        assert(before.cell_at(e.row as int, e.column as int).value == Some(
                            e.value,
                        ));
                        assert(!(e.row as int == rowi && e.column as int == coli));
                    }
                }
            }
            i += 1;
        }
        proof {
            assert(givens@.skip(givens@.len() as int) =~= Seq::<SingleCandidate>::empty());
        }
        Ok(())
    }

    /// The read-only render snapshot: for every cell either its value
    /// and given flag, or value 0 and its number of remaining
    /// candidates.
    pub fn get_grid_cell_values(&self) -> (r: [[PrintCell; 9]; 9])
        ensures
            forall|rr: int, cc: int|
                0 <= rr < 9 && 0 <= cc < 9 ==> (#[trigger] r[rr][cc]) == spec_print_cell(
                    self.cell_at(rr, cc),
                ),
    {
        let mut grid_values = [[PrintCell {
            value: 0,
            number_of_candidates: 0,
            is_given: false,
        }; 9]; 9];
        let mut grid_row: usize = 0;
        while grid_row < 3
            invariant
                grid_row <= 3,
                forall|rr: int, cc: int|
                    0 <= rr < 9 && 0 <= cc < 9 && rr / 3 < grid_row ==> (
                    #[trigger] grid_values[rr][cc]) == spec_print_cell(self.cell_at(rr, cc)),
            decreases 3 - grid_row,
        {
            let mut grid_col: usize = 0;
            while grid_col < 3
                invariant
                    grid_row < 3,
                    grid_col <= 3,
                    forall|rr: int, cc: int|
                        0 <= rr < 9 && 0 <= cc < 9 && (rr / 3 < grid_row || (rr / 3 == grid_row
                            && cc / 3 < grid_col)) ==> (#[trigger] grid_values[rr][cc])
                            == spec_print_cell(self.cell_at(rr, cc)),
                decreases 3 - grid_col,
            {
                let ghost before = grid_values;
                self.sudoku_group[grid_row][grid_col].get_group_cell_values(
                    &mut grid_values,
                    grid_row,
                    grid_col,
                );
                proof {
                    assert forall|rr: int, cc: int|
                        0 <= rr < 9 && 0 <= cc < 9 && (rr / 3 < grid_row || (rr / 3 == grid_row
                            && cc / 3 < grid_col + 1)) implies (#[trigger] grid_values[rr][cc])
                        == spec_print_cell(self.cell_at(rr, cc)) by {
                        lemma_split_div3(rr);
                        lemma_split_div3(cc);
                    }
                }
                grid_col += 1;
            }
            grid_row += 1;
        }
        proof {
            assert forall|rr: int, cc: int| 0 <= rr < 9 && 0 <= cc < 9 implies (
            #[trigger] grid_values[rr][cc]) == spec_print_cell(self.cell_at(rr, cc)) by {
                lemma_split_div3(rr);
            }
        }
        grid_values
    }

    /// The absolute coordinates of block (`gr`, `gc`)'s first `n`
    /// cells that are still empty, in row-major cell order.
    pub open spec fn block_empty_coords(&self, gr: int, gc: int, n: int) -> Seq<(usize, usize)>
        decreases n,
    {
        if n <= 0 {
            Seq::empty()
        } else {
            self.block_empty_coords(gr, gc, n - 1) + (if self.sudoku_group[gr][gc].cells[(n - 1)
                / 3][(n - 1) % 3].value is None {
                seq![(((3 * gr + (n - 1) / 3) as usize), ((3 * gc + (n - 1) % 3) as usize))]
            } else {
                Seq::<(usize, usize)>::empty()
            })
        }
    }

    /// The diagnostics layout: the coordinates of every still-empty
    /// cell, block-major over the first `n` blocks, row-major within
    /// each block.
    pub open spec fn empty_coords_upto(&self, n: int) -> Seq<(usize, usize)>
        decreases n,
    {
        if n <= 0 {
            Seq::empty()
        } else {
            self.empty_coords_upto(n - 1) + self.block_empty_coords((n - 1) / 3, (n - 1) % 3, 9)
        }
    }

    /// A block's coordinate list matches its flattened empty-cell
    /// indices entry by entry.
    proof fn lemma_block_empty_coords(&self, gr: int, gc: int, n: int)
        requires
            0 <= gr < 3,
            0 <= gc < 3,
            0 <= n <= 9,
        ensures
            self.block_empty_coords(gr, gc, n).len()
                == self.sudoku_group[gr][gc].empty_cells_upto(n).len(),
            forall|k: int|
                0 <= k < self.block_empty_coords(gr, gc, n).len() ==> {
                    let idx = self.sudoku_group[gr][gc].empty_cells_upto(n)[k] as int;
                    (#[trigger] self.block_empty_coords(gr, gc, n)[k]) == (((3 * gr + idx
                        / 3) as usize, (3 * gc + idx % 3) as usize))
                },
        decreases n,
    {
        if n > 0 {
            self.lemma_block_empty_coords(gr, gc, n - 1);
            assert forall|k: int| 0 <= k < self.block_empty_coords(gr, gc, n).len() implies {
                let idx = self.sudoku_group[gr][gc].empty_cells_upto(n)[k] as int;
                (#[trigger] self.block_empty_coords(gr, gc, n)[k]) == (((3 * gr + idx
                    / 3) as usize, (3 * gc + idx % 3) as usize))
            } by {
                if k < self.block_empty_coords(gr, gc, n - 1).len() {
                    assert(self.block_empty_coords(gr, gc, n)[k] == self.block_empty_coords(
                        gr,
                        gc,
                        n - 1,
                    )[k]);
                    assert(self.sudoku_group[gr][gc].empty_cells_upto(n)[k]
                        == self.sudoku_group[gr][gc].empty_cells_upto(n - 1)[k]);
                }
            }
        }
    }

    /// Fill `buffer` with the diagnostic for every still-empty cell,
    /// block-major over blocks and row-major within each block:
    /// exactly one entry per empty cell, holding its coordinates and
    /// its remaining values, ascending.  Whatever the buffer held
    /// before is discarded.
    pub fn get_remaining_values(&self, buffer: &mut Vec<CellPossibleValues>)
        ensures
            final(buffer)@.len() == self.empty_coords_upto(9).len(),
            forall|k: int|
                0 <= k < self.empty_coords_upto(9).len() ==> {
                    let e = #[trigger] final(buffer)@[k];
                    let rc = self.empty_coords_upto(9)[k];
                    e.row == rc.0 && e.column == rc.1 && e.value@ == crate::masks::mask_values(
                        self.cell_at(rc.0 as int, rc.1 as int).candidates,
                    )
                },
            forall|i: int|
                0 <= i < final(buffer)@.len() ==> {
                    let e = #[trigger] final(buffer)@[i];
                    e.row < 9 && e.column < 9 && self.cell_at(e.row as int, e.column as int).value
                        is None && e.value@ == crate::masks::mask_values(
                        self.cell_at(e.row as int, e.column as int).candidates,
                    )
                },
            forall|rr: int, cc: int|
                0 <= rr < 9 && 0 <= cc < 9 && (#[trigger] self.cell_at(rr, cc)).value is None
                    ==> exists|i: int|
                    0 <= i < final(buffer)@.len() && (#[trigger] final(buffer)@[i]).row as int == rr
                        && final(buffer)@[i].column as int == cc,
    {
        buffer.clear();
        let mut grid_row: usize = 0;
        while grid_row < 3
            invariant
                grid_row <= 3,
                forall|i: int|
                    0 <= i < buffer@.len() ==> {
                        let e = #[trigger] buffer@[i];
                        e.row < 9 && e.column < 9 && self.cell_at(
                            e.row as int,
                            e.column as int,
                        ).value is None && e.value@ == crate::masks::mask_values(
                            self.cell_at(e.row as int, e.column as int).candidates,
                        )
                    },
                forall|rr: int, cc: int|
                    0 <= rr < 9 && 0 <= cc < 9 && rr / 3 < grid_row && (#[trigger] self.cell_at(
                        rr,
                        cc,
                    )).value is None ==> exists|i: int|
                        0 <= i < buffer@.len() && (#[trigger] buffer@[i]).row as int == rr
                            && buffer@[i].column as int == cc,
                buffer@.len() == self.empty_coords_upto(3 * grid_row).len(),
                forall|k: int|
                    0 <= k < self.empty_coords_upto(3 * grid_row).len() ==> {
                        let e = #[trigger] buffer@[k];
                        let rc = self.empty_coords_upto(3 * grid_row)[k];
                        e.row == rc.0 && e.column == rc.1 && e.value@
                            == crate::masks::mask_values(
                            self.cell_at(rc.0 as int, rc.1 as int).candidates,
                        )
                    },
            decreases 3 - grid_row,
        {
            let mut grid_col: usize = 0;
            while grid_col < 3
                invariant
                    grid_row < 3,
                    grid_col <= 3,
                    forall|i: int|
                        0 <= i < buffer@.len() ==> {
                            let e = #[trigger] buffer@[i];
                            e.row < 9 && e.column < 9 && self.cell_at(
                                e.row as int,
                                e.column as int,
                            ).value is None && e.value@ == crate::masks::mask_values(
                                self.cell_at(e.row as int, e.column as int).candidates,
                            )
                        },
                    forall|rr: int, cc: int|
                        0 <= rr < 9 && 0 <= cc < 9 && (rr / 3 < grid_row || (rr / 3 == grid_row
                            && cc / 3 < grid_col)) && (#[trigger] self.cell_at(rr, cc)).value
                            is None ==> exists|i: int|
                            0 <= i < buffer@.len() && (#[trigger] buffer@[i]).row as int == rr
                                && buffer@[i].column as int == cc,
                    buffer@.len() == self.empty_coords_upto(3 * grid_row + grid_col).len(),
                    forall|k: int|
                        0 <= k < self.empty_coords_upto(3 * grid_row + grid_col).len() ==> {
                            let e = #[trigger] buffer@[k];
                            let rc = self.empty_coords_upto(3 * grid_row + grid_col)[k];
                            e.row == rc.0 && e.column == rc.1 && e.value@
                                == crate::masks::mask_values(
                                self.cell_at(rc.0 as int, rc.1 as int).candidates,
                            )
                        },
                decreases 3 - grid_col,
            {
                let ghost prev = buffer@;
                self.sudoku_group[grid_row][grid_col].get_remaining_values(
                    buffer,
                    grid_row,
                    grid_col,
                );
                proof {
                    lemma_compose_div3(grid_row as int, grid_col as int);
                    let b = 3 * (grid_row as int) + grid_col as int;
                    let g = self.sudoku_group[grid_row as int][grid_col as int];
                    self.lemma_block_empty_coords(grid_row as int, grid_col as int, 9);
                    g.lemma_empty_cells_bounds(9);
                    assert forall|k: int| 0 <= k < self.empty_coords_upto(b + 1).len() implies {
                        let e = #[trigger] buffer@[k];
                        let rc = self.empty_coords_upto(b + 1)[k];
                        e.row == rc.0 && e.column == rc.1 && e.value@
                            == crate::masks::mask_values(
                            self.cell_at(rc.0 as int, rc.1 as int).candidates,
                        )
                    } by {
                        if k < prev.len() {
                            assert(buffer@[k] == prev[k]);
                            assert(self.empty_coords_upto(b + 1)[k] == self.empty_coords_upto(
                                b,
                            )[k]);
                        } else {
                            let kk = k - prev.len();
                            let idx = g.empty_cells_upto(9)[kk] as int;
                            lemma_split_div3(idx);
                            lemma_compose_div3(grid_row as int, idx / 3);
                            lemma_compose_div3(grid_col as int, idx % 3);
                            let rc = self.empty_coords_upto(b + 1)[k];
                            assert(rc == self.block_empty_coords(
                                grid_row as int,
                                grid_col as int,
                                9,
                            )[kk]);
                            assert(rc.0 as int == 3 * (grid_row as int) + idx / 3);
                            assert(rc.1 as int == 3 * (grid_col as int) + idx % 3);
                            assert(buffer@[prev.len() + kk] == buffer@[k]);
                            assert(buffer@[k].row as int == 3 * (grid_row as int) + idx / 3);
                            assert(buffer@[k].value@ == crate::masks::mask_values(
                                g.cells[idx / 3][idx % 3].candidates,
                            ));
                            assert(self.cell_at(
                                3 * (grid_row as int) + idx / 3,
                                3 * (grid_col as int) + idx % 3,
                            ) == g.cells[idx / 3][idx % 3]);
                        }
                    }
                    assert forall|i: int| 0 <= i < buffer@.len() implies {
                        let e = #[trigger] buffer@[i];
                        e.row < 9 && e.column < 9 && self.cell_at(
                            e.row as int,
                            e.column as int,
                        ).value is None && e.value@ == crate::masks::mask_values(
                            self.cell_at(e.row as int, e.column as int).candidates,
                        )
                    } by {
                        if i >= prev.len() {
                            let e = buffer@[i];
                            let lr = e.row as int - 3 * (grid_row as int);
                            let lc = e.column as int - 3 * (grid_col as int);
                            lemma_compose_div3(grid_row as int, lr);
                            lemma_compose_div3(grid_col as int, lc);
                        }
                    }
                    assert forall|rr: int, cc: int|
                        0 <= rr < 9 && 0 <= cc < 9 && (rr / 3 < grid_row || (rr / 3 == grid_row
                            && cc / 3 < grid_col + 1)) && (#[trigger] self.cell_at(rr, cc)).value
                        is None implies exists|i: int|
                        0 <= i < buffer@.len() && (#[trigger] buffer@[i]).row as int == rr
                            && buffer@[i].column as int == cc by {
                        lemma_split_div3(rr);
                        lemma_split_div3(cc);
                        if rr / 3 == grid_row && cc / 3 == grid_col {
                            let lr = rr % 3;
                            let lc = cc % 3;
                            let g = self.sudoku_group[grid_row as int][grid_col as int];
                            assert(g.cells[lr][lc].value is None);
                            let i = choose|i: int|
                                prev.len() <= i < buffer@.len() && (#[trigger] buffer@[i]).row as int
                                    == 3 * (grid_row as int) + lr && buffer@[i].column as int == 3
                                    * (grid_col as int) + lc;
                            assert(buffer@[i].row as int == rr);
                        } else {
                            let i = choose|i: int|
                                0 <= i < prev.len() && (#[trigger] prev[i]).row as int == rr
                                    && prev[i].column as int == cc;
                            assert(buffer@[i] == prev[i]);
                        }
                    }
                }
                grid_col += 1;
            }
            grid_row += 1;
        }
        proof {
            assert forall|rr: int, cc: int|
                0 <= rr < 9 && 0 <= cc < 9 && (#[trigger] self.cell_at(rr, cc)).value
                is None implies exists|i: int|
                0 <= i < buffer@.len() && (#[trigger] buffer@[i]).row as int == rr
                    && buffer@[i].column as int == cc by {
                lemma_split_div3(rr);
            }
        }
    }

    /// Fan an assignment at absolute (`row`, `column`) out to the
    /// sibling blocks: the two other blocks of the same block row learn
    /// that `val` left their shared absolute row, the two other blocks
    /// of the same block column that it left their shared absolute
    /// column.  The owning block itself is not touched.
    fn propagate_changes(&mut self, row: usize, column: usize, val: u8)
        requires
            row < 9,
            column < 9,
            1 <= val <= 9,
        ensures
            forall|gr: int, gc: int|
                0 <= gr < 3 && 0 <= gc < 3 ==> (#[trigger] final(self).sudoku_group[gr][gc]).group_values
                    == old(self).sudoku_group[gr][gc].group_values,
            forall|gr: int, gc: int|
                0 <= gr < 3 && 0 <= gc < 3 && old(self).sudoku_group[gr][gc].wf() ==> (
                #[trigger] final(self).sudoku_group[gr][gc]).wf(),
            forall|rr: int, cc: int|
                0 <= rr < 9 && 0 <= cc < 9 ==> (#[trigger] final(self).cell_at(rr, cc)) == (if (rr
                    == row && cc / 3 != column as int / 3) || (cc == column && rr / 3
                    != row as int / 3) {
                    cell_after_elim(old(self).cell_at(rr, cc), val)
                } else {
                    old(self).cell_at(rr, cc)
                }),
            forall|gr: int, gc: int, k: int, idx: int|
                0 <= gr < 3 && 0 <= gc < 3 && 0 <= k < 2 && 0 <= idx < 3
                    ==> (#[trigger] final(self).sudoku_group[gr][gc].group_candidates[k][idx])
                    == (if (k == 0 && gr == row as int
                    / 3 && gc != column as int / 3 && idx == row as int % 3) || (k == 1 && gc
                    == column as int / 3 && gr != row as int / 3 && idx == column as int % 3) {
                    old(self).sudoku_group[gr][gc].group_candidates[k][idx] & !(1u16 << (
                    val as u16))
                } else {
                    old(self).sudoku_group[gr][gc].group_candidates[k][idx]
                }),
    {
        let grid_row = row / 3;
        let grid_col = column / 3;
        let lr = (row % 3) as u8;
        let lc = (column % 3) as u8;
        let mut j: usize = 0;
        while j < 3
            invariant
                j <= 3,
                grid_row == row as int / 3,
                grid_col == column as int / 3,
                lr == row as int % 3,
                lc == column as int % 3,
                row < 9,
                column < 9,
                1 <= val <= 9,
                forall|gr: int, gc: int|
                    0 <= gr < 3 && 0 <= gc < 3 && !(gr == grid_row && gc < j && gc != grid_col)
                        ==> (#[trigger] self.sudoku_group[gr][gc]) == old(self).sudoku_group[gr][gc],
                forall|gc: int|
                    0 <= gc < 3 && gc < j && gc != grid_col ==> row_elim_applied(
                        #[trigger] self.sudoku_group[grid_row as int][gc],
                        old(self).sudoku_group[grid_row as int][gc],
                        lr as int,
                        val,
                    ),
            decreases 3 - j,
        {
            if j != grid_col {
                let mut g = self.sudoku_group[grid_row][j];
                g.recive_propagation(Some(lr), None, val);
                let mut band = self.sudoku_group[grid_row];
                band[j] = g;
                self.sudoku_group[grid_row] = band;
            }
            j += 1;
        }
        let ghost mid = *self;
        let mut i: usize = 0;
        while i < 3
            invariant
                i <= 3,
                grid_row == row as int / 3,
                grid_col == column as int / 3,
                lr == row as int % 3,
                lc == column as int % 3,
                row < 9,
                column < 9,
                1 <= val <= 9,
                forall|gr: int, gc: int|
                    0 <= gr < 3 && 0 <= gc < 3 && !(gc == grid_col && gr < i && gr != grid_row)
                        ==> (#[trigger] self.sudoku_group[gr][gc]) == mid.sudoku_group[gr][gc],
                forall|gr: int|
                    0 <= gr < 3 && gr < i && gr != grid_row ==> col_elim_applied(
                        #[trigger] self.sudoku_group[gr][grid_col as int],
                        mid.sudoku_group[gr][grid_col as int],
                        lc as int,
                        val,
                    ),
            decreases 3 - i,
        {
            if i != grid_row {
                let mut g = self.sudoku_group[i][grid_col];
                g.recive_propagation(None, Some(lc), val);
                let mut band = self.sudoku_group[i];
                band[grid_col] = g;
                self.sudoku_group[i] = band;
            }
            i += 1;
        }
        proof {
            lemma_split_div3(row as int);
            lemma_split_div3(column as int);
            assert forall|rr: int, cc: int| 0 <= rr < 9 && 0 <= cc < 9 implies (
            #[trigger] self.cell_at(rr, cc)) == (if (rr == row && cc / 3 != column as int / 3) || (
            cc == column && rr / 3 != row as int / 3) {
                cell_after_elim(old(self).cell_at(rr, cc), val)
            } else {
                old(self).cell_at(rr, cc)
            }) by {
                lemma_split_div3(rr);
                lemma_split_div3(cc);
            }
            assert forall|gr: int, gc: int|
                0 <= gr < 3 && 0 <= gc < 3 && old(self).sudoku_group[gr][gc].wf() implies (
            #[trigger] self.sudoku_group[gr][gc]).wf() by {
                lemma_group_shrink_keeps_wf(
                    old(self).sudoku_group[gr][gc],
                    mid.sudoku_group[gr][gc],
                    val,
                );
                lemma_group_shrink_keeps_wf(
                    mid.sudoku_group[gr][gc],
                    self.sudoku_group[gr][gc],
                    val,
                );
            }
        }
    }
}

/// The block matches `gold` with `val` eliminated along internal row `lr`.
pub open spec fn row_elim_applied(gnew: Group, gold: Group, lr: int, val: u8) -> bool {
    &&& gnew.group_values == gold.group_values
    &&& forall|r2: int, c2: int|
        0 <= r2 < 3 && 0 <= c2 < 3 ==> (#[trigger] gnew.cells[r2][c2]) == (if r2 == lr {
            cell_after_elim(gold.cells[r2][c2], val)
        } else {
            gold.cells[r2][c2]
        })
    &&& forall|k: int, idx: int|
        0 <= k < 2 && 0 <= idx < 3 ==> (#[trigger] gnew.group_candidates[k][idx]) == (if k == 0
            && idx == lr {
            gold.group_candidates[k][idx] & !(1u16 << (val as u16))
        } else {
            gold.group_candidates[k][idx]
        })
}

/// The block matches `gold` with `val` eliminated along internal column `lc`.
pub open spec fn col_elim_applied(gnew: Group, gold: Group, lc: int, val: u8) -> bool {
    &&& gnew.group_values == gold.group_values
    &&& forall|r2: int, c2: int|
        0 <= r2 < 3 && 0 <= c2 < 3 ==> (#[trigger] gnew.cells[r2][c2]) == (if c2 == lc {
            cell_after_elim(gold.cells[r2][c2], val)
        } else {
            gold.cells[r2][c2]
        })
    &&& forall|k: int, idx: int|
        0 <= k < 2 && 0 <= idx < 3 ==> (#[trigger] gnew.group_candidates[k][idx]) == (if k == 1
            && idx == lc {
            gold.group_candidates[k][idx] & !(1u16 << (val as u16))
        } else {
            gold.group_candidates[k][idx]
        })
}

/// A block whose placed mask is unchanged while cell candidates and
/// line masks at most lose `val` keeps its invariant.
proof fn lemma_group_shrink_keeps_wf(gold: Group, gnew: Group, val: u8)
    requires
        1 <= val <= 9,
        gold.wf(),
        gnew.group_values == gold.group_values,
        forall|r: int, c: int|
            0 <= r < 3 && 0 <= c < 3 ==> (#[trigger] gnew.cells[r][c]) == gold.cells[r][c] || (
            #[trigger] gnew.cells[r][c]) == cell_after_elim(gold.cells[r][c], val),
        forall|k: int, idx: int|
            0 <= k < 2 && 0 <= idx < 3 ==> (#[trigger] gnew.group_candidates[k][idx])
                == gold.group_candidates[k][idx] || (#[trigger] gnew.group_candidates[k][idx]) == (
            gold.group_candidates[k][idx] & !(1u16 << (val as u16))),
    ensures
        gnew.wf(),
{
    assert forall|r: int, c: int| 0 <= r < 3 && 0 <= c < 3 implies (
    #[trigger] gnew.cells[r][c]).wf() by {
        assert(gold.cells[r][c].wf());
        crate::masks::lemma_mask_bounded(gold.cells[r][c].candidates, val as u16);
    }
    assert forall|v: u8| 1 <= v <= 9 implies ((#[trigger] mask_has(gnew.group_values, v as u16))
        <==> gnew.contains_value(v)) by {
        if mask_has(gold.group_values, v as u16) {
            let (r, c) = choose|r: int, c: int|
                0 <= r < 3 && 0 <= c < 3 && (#[trigger] gold.cells[r][c]).value == Some(v);
            assert(gnew.cells[r][c].value == Some(v));
        }
        if gnew.contains_value(v) {
            let (r, c) = choose|r: int, c: int|
                0 <= r < 3 && 0 <= c < 3 && (#[trigger] gnew.cells[r][c]).value == Some(v);
            assert(gold.cells[r][c].value == Some(v));
            assert(gold.contains_value(v));
        }
    }
    assert forall|r1: int, c1: int, r2: int, c2: int|
        0 <= r1 < 3 && 0 <= c1 < 3 && 0 <= r2 < 3 && 0 <= c2 < 3 && !(r1 == r2 && c1 == c2) && (
        #[trigger] gnew.cells[r1][c1]).value is Some && (#[trigger] gnew.cells[r2][c2]).value
        is Some implies gnew.cells[r1][c1].value != gnew.cells[r2][c2].value by {
        assert(gold.cells[r1][c1].value is Some);
        assert(gold.cells[r2][c2].value is Some);
    }
    assert forall|r: int, c: int, v: u8|
        0 <= r < 3 && 0 <= c < 3 && 1 <= v <= 9 && mask_has(gnew.group_values, v as u16)
            && gnew.cells[r][c].value is None implies !(#[trigger] mask_has(
        gnew.cells[r][c].candidates,
        v as u16,
    )) by {
        assert(gold.cells[r][c].value is None);
        lemma_mask_clear(gold.cells[r][c].candidates, val as u16);
    }
    assert forall|k: int, idx: int, v: u8|
        0 <= k < 2 && 0 <= idx < 3 && 1 <= v <= 9 && mask_has(gnew.group_values, v as u16) implies !(
    #[trigger] mask_has(gnew.group_candidates[k][idx], v as u16)) by {
        lemma_mask_clear(gold.group_candidates[k][idx], val as u16);
    }
}

/// Law: in a well-formed grid every value occurs at most once in each
/// row, column and block — two distinct cells that share a row, a
/// column or a block never hold the same value.  Every grid this
/// library hands out is well-formed: `default` establishes `wf` and
/// every mutating method preserves it.
pub proof fn lemma_uniqueness(g: Grid, r1: int, c1: int, r2: int, c2: int)
    requires
        g.wf(),
        0 <= r1 < 9,
        0 <= c1 < 9,
        0 <= r2 < 9,
        0 <= c2 < 9,
        !(r1 == r2 && c1 == c2),
        r1 == r2 || c1 == c2 || (r1 / 3 == r2 / 3 && c1 / 3 == c2 / 3),
        g.cell_at(r1, c1).value is Some,
        g.cell_at(r2, c2).value is Some,
    ensures
        g.cell_at(r1, c1).value != g.cell_at(r2, c2).value,
{
    lemma_split_div3(r1);
    lemma_split_div3(c1);
    lemma_split_div3(r2);
    lemma_split_div3(c2);
    if r1 == r2 {
        assert(excludes(g.cell_at(r1, c1), g.cell_at(r2, c2)));
    } else if c1 == c2 {
        assert(excludes(g.cell_at(r1, c1), g.cell_at(r2, c2)));
    } else {
        let b = g.sudoku_group[r1 / 3][c1 / 3];
        assert(b.wf());
        assert(g.cell_at(r1, c1) == b.cells[r1 % 3][c1 % 3]);
        assert(g.cell_at(r2, c2) == b.cells[r2 % 3][c2 % 3]);
    }
}

/// Law: an assignment onto an already-filled cell, or of a value the
/// owning block already placed (in particular any assignment into a
/// complete block), is rejected by `set_value` as a consistency
/// violation and leaves the grid untouched.
pub proof fn lemma_assign_guard(g: Grid, row: int, col: int, val: u8)
    requires
        g.wf(),
        0 <= row < 9,
        0 <= col < 9,
        1 <= val <= 9,
        g.cell_at(row, col).value is Some || mask_has(
            g.group_at(row, col).group_values,
            val as u16,
        ) || g.group_at(row, col).is_complete_spec(),
    ensures
        g.group_at(row, col).rejects_value(row % 3, col % 3, val),
{
    lemma_split_div3(row);
    lemma_split_div3(col);
    lemma_mask_full_empty();
    if g.cell_at(row, col).value is Some {
        assert(g.sudoku_group[row / 3][col / 3].wf());
        assert(g.cell_at(row, col).wf());
        assert(g.cell_at(row, col).candidates == 0u16);
    }
}

/// Law: an assignment keeps candidate exactness — after `set_value`
/// succeeds on a grid whose empty cells' candidate sets equal {1..9}
/// minus the values placed in their row, column and block, the empty
/// cells of the new grid have that shape again, now accounting for the
/// new value.
proof fn lemma_assign_keeps_exactness(
    prev: Grid,
    next: Grid,
    row: int,
    col: int,
    val: u8,
    is_given: bool,
)
    requires
        prev.wf(),
        prev.candidates_exact(),
        0 <= row < 9,
        0 <= col < 9,
        1 <= val <= 9,
        mask_has(prev.cell_at(row, col).candidates, val as u16),
        forall|rr: int, cc: int|
            0 <= rr < 9 && 0 <= cc < 9 ==> (#[trigger] next.cell_at(rr, cc)) == spec_assign_cell(
                prev,
                row,
                col,
                val,
                is_given,
                rr,
                cc,
            ),
    ensures
        next.candidates_exact(),
{
    lemma_mask_full_empty();
    lemma_split_div3(row);
    lemma_split_div3(col);
    assert(prev.sudoku_group[row / 3][col / 3].wf());
    assert(prev.cell_at(row, col).wf());
    assert(prev.cell_at(row, col).value is None);
    // values change only at the target cell
    assert forall|rr: int, cc: int| 0 <= rr < 9 && 0 <= cc < 9 implies (#[trigger] next.cell_at(
        rr,
        cc,
    )).value == (if rr == row && cc == col {
        Some(val)
    } else {
        prev.cell_at(rr, cc).value
    }) by {
        lemma_split_div3(rr);
        lemma_split_div3(cc);
    }
    assert forall|r: int, c: int, v: u8|
        0 <= r < 9 && 0 <= c < 9 && 1 <= v <= 9 && next.cell_at(r, c).value is None implies ((
    #[trigger] mask_has(next.cell_at(r, c).candidates, v as u16)) <==> (!next.value_in_row(r, v)
        && !next.value_in_col(c, v) && !next.sudoku_group[r / 3][c / 3].contains_value(v))) by {
        lemma_split_div3(r);
        lemma_split_div3(c);
        lemma_mask_clear(prev.cell_at(r, c).candidates, val as u16);
        assert(!(r == row && c == col));
        assert(prev.cell_at(r, c).value is None);
        // how each of the three houses changed
        assert(next.value_in_row(r, v) <==> (prev.value_in_row(r, v) || (v == val && r == row)))
            by {
            if prev.value_in_row(r, v) {
                let cw = choose|cw: int|
                    0 <= cw < 9 && (#[trigger] prev.cell_at(r, cw)).value == Some(v);
                assert(next.cell_at(r, cw).value == Some(v));
            }
            if v == val && r == row {
                assert(next.cell_at(row, col).value == Some(val));
            }
            if next.value_in_row(r, v) {
                let cw = choose|cw: int|
                    0 <= cw < 9 && (#[trigger] next.cell_at(r, cw)).value == Some(v);
                if !(r == row && cw == col) {
                    assert(prev.cell_at(r, cw).value == Some(v));
                }
            }
        }
        assert(next.value_in_col(c, v) <==> (prev.value_in_col(c, v) || (v == val && c == col)))
            by {
            if prev.value_in_col(c, v) {
                let rw = choose|rw: int|
                    0 <= rw < 9 && (#[trigger] prev.cell_at(rw, c)).value == Some(v);
                assert(next.cell_at(rw, c).value == Some(v));
            }
            if v == val && c == col {
                assert(next.cell_at(row, col).value == Some(val));
            }
            if next.value_in_col(c, v) {
                let rw = choose|rw: int|
                    0 <= rw < 9 && (#[trigger] next.cell_at(rw, c)).value == Some(v);
                if !(rw == row && c == col) {
                    assert(prev.cell_at(rw, c).value == Some(v));
                }
            }
        }
        let gr = r / 3;
        let gc = c / 3;
        assert(next.sudoku_group[gr][gc].contains_value(v) <==> (
        prev.sudoku_group[gr][gc].contains_value(v) || (v == val && gr == row / 3 && gc == col
            / 3))) by {
            if prev.sudoku_group[gr][gc].contains_value(v) {
                let (r2, c2) = choose|r2: int, c2: int|
                    0 <= r2 < 3 && 0 <= c2 < 3 && (#[trigger] prev.sudoku_group[gr][gc].cells[r2][c2]).value
                        == Some(v);
                lemma_compose_div3(gr, r2);
                lemma_compose_div3(gc, c2);
                assert(prev.cell_at(3 * gr + r2, 3 * gc + c2).value == Some(v));
                assert(next.cell_at(3 * gr + r2, 3 * gc + c2).value == Some(v));
                assert(next.sudoku_group[gr][gc].cells[r2][c2].value == Some(v));
            }
            if v == val && gr == row / 3 && gc == col / 3 {
                assert(next.cell_at(row, col).value == Some(val));
                assert(next.sudoku_group[gr][gc].cells[row % 3][col % 3].value == Some(v));
            }
            if next.sudoku_group[gr][gc].contains_value(v) {
                let (r2, c2) = choose|r2: int, c2: int|
                    0 <= r2 < 3 && 0 <= c2 < 3 && (#[trigger] next.sudoku_group[gr][gc].cells[r2][c2]).value
                        == Some(v);
                lemma_compose_div3(gr, r2);
                lemma_compose_div3(gc, c2);
                assert(next.cell_at(3 * gr + r2, 3 * gc + c2).value == Some(v));
                if !(3 * gr + r2 == row && 3 * gc + c2 == col) {
                    assert(prev.cell_at(3 * gr + r2, 3 * gc + c2).value == Some(v));
                    assert(prev.sudoku_group[gr][gc].cells[r2][c2].value == Some(v));
                }
            }
        }
        // and how this cell's candidate mask changed
        if r == row || c == col || (gr == row / 3 && gc == col / 3) {
            assert(next.cell_at(r, c) == cell_after_elim(prev.cell_at(r, c), val));
        } else {
            assert(next.cell_at(r, c) == prev.cell_at(r, c));
        }
    }
}

/// A grid whose cell values are unchanged while candidates at most lose
/// `val` keeps its rows and columns free of conflicts.
proof fn lemma_shrink_keeps_consistency(prev: Grid, next: Grid, val: u8)
    requires
        1 <= val <= 9,
        prev.row_consistent(),
        prev.col_consistent(),
        forall|rr: int, cc: int|
            0 <= rr < 9 && 0 <= cc < 9 ==> (#[trigger] next.cell_at(rr, cc)) == prev.cell_at(
                rr,
                cc,
            ) || next.cell_at(rr, cc) == cell_after_elim(prev.cell_at(rr, cc), val),
    ensures
        next.row_consistent(),
        next.col_consistent(),
{
    assert forall|r: int, c1: int, c2: int|
        0 <= r < 9 && 0 <= c1 < 9 && 0 <= c2 < 9 && c1 != c2 implies #[trigger] excludes(
        next.cell_at(r, c1),
        next.cell_at(r, c2),
    ) by {
        assert(excludes(prev.cell_at(r, c1), prev.cell_at(r, c2)));
        lemma_mask_clear(prev.cell_at(r, c2).candidates, val as u16);
    }
    assert forall|r1: int, r2: int, c: int|
        0 <= r1 < 9 && 0 <= r2 < 9 && 0 <= c < 9 && r1 != r2 implies #[trigger] excludes(
        next.cell_at(r1, c),
        next.cell_at(r2, c),
    ) by {
        assert(excludes(prev.cell_at(r1, c), prev.cell_at(r2, c)));
        lemma_mask_clear(prev.cell_at(r2, c).candidates, val as u16);
    }
}

/// After a successful assignment the grid's rows and columns are still
/// free of conflicts.
proof fn lemma_assign_keeps_consistency(
    prev: Grid,
    next: Grid,
    row: int,
    col: int,
    val: u8,
    is_given: bool,
)
    requires
        prev.wf(),
        0 <= row < 9,
        0 <= col < 9,
        1 <= val <= 9,
        mask_has(prev.cell_at(row, col).candidates, val as u16),
        forall|rr: int, cc: int|
            0 <= rr < 9 && 0 <= cc < 9 ==> (#[trigger] next.cell_at(rr, cc)) == spec_assign_cell(
                prev,
                row,
                col,
                val,
                is_given,
                rr,
                cc,
            ),
    ensures
        next.row_consistent(),
        next.col_consistent(),
{
    lemma_mask_full_empty();
    // the target cell was empty beforehand
    lemma_split_div3(row);
    lemma_split_div3(col);
    assert(prev.cell_at(row, col).wf());
    assert(prev.cell_at(row, col).value is None);
    // no cell of the target's row or column already held `val`
    assert forall|c2: int| 0 <= c2 < 9 && c2 != col implies prev.cell_at(row, c2).value != Some(
        val,
    ) by {
        assert(excludes(prev.cell_at(row, c2), prev.cell_at(row, col)));
    }
    assert forall|r2: int| 0 <= r2 < 9 && r2 != row implies prev.cell_at(r2, col).value != Some(
        val,
    ) by {
        assert(excludes(prev.cell_at(r2, col), prev.cell_at(row, col)));
    }
    assert forall|r: int, c1: int, c2: int|
        0 <= r < 9 && 0 <= c1 < 9 && 0 <= c2 < 9 && c1 != c2 implies #[trigger] excludes(
        next.cell_at(r, c1),
        next.cell_at(r, c2),
    ) by {
        lemma_exclusion_step(prev, next, row, col, val, is_given, r, c1, r, c2);
    }
    assert forall|r1: int, r2: int, c: int|
        0 <= r1 < 9 && 0 <= r2 < 9 && 0 <= c < 9 && r1 != r2 implies #[trigger] excludes(
        next.cell_at(r1, c),
        next.cell_at(r2, c),
    ) by {
        lemma_exclusion_step(prev, next, row, col, val, is_given, r1, c, r2, c);
    }
}

/// One pair of distinct cells sharing a row or a column stays free of
/// conflicts across an assignment.
proof fn lemma_exclusion_step(
    prev: Grid,
    next: Grid,
    row: int,
    col: int,
    val: u8,
    is_given: bool,
    r1: int,
    c1: int,
    r2: int,
    c2: int,
)
    requires
        prev.wf(),
        0 <= row < 9,
        0 <= col < 9,
        1 <= val <= 9,
        mask_has(prev.cell_at(row, col).candidates, val as u16),
        prev.cell_at(row, col).value is None,
        0 <= r1 < 9,
        0 <= c1 < 9,
        0 <= r2 < 9,
        0 <= c2 < 9,
        !(r1 == r2 && c1 == c2),
        r1 == r2 || c1 == c2,
        forall|rr: int, cc: int|
            0 <= rr < 9 && 0 <= cc < 9 ==> (#[trigger] next.cell_at(rr, cc)) == spec_assign_cell(
                prev,
                row,
                col,
                val,
                is_given,
                rr,
                cc,
            ),
        forall|cc: int| 0 <= cc < 9 && cc != col ==> prev.cell_at(row, cc).value != Some(val),
        forall|rr: int| 0 <= rr < 9 && rr != row ==> prev.cell_at(rr, col).value != Some(val),
    ensures
        excludes(next.cell_at(r1, c1), next.cell_at(r2, c2)),
{
    let a_old = prev.cell_at(r1, c1);
    let b_old = prev.cell_at(r2, c2);
    let a_new = next.cell_at(r1, c1);
    let b_new = next.cell_at(r2, c2);
    lemma_split_div3(row);
    lemma_split_div3(col);
    lemma_split_div3(r1);
    lemma_split_div3(c1);
    lemma_split_div3(r2);
    lemma_split_div3(c2);
    lemma_mask_clear(b_old.candidates, val as u16);
    if r1 == r2 {
        assert(excludes(a_old, b_old));
    } else {
        assert(excludes(a_old, b_old));
    }
    if r1 == row && c1 == col {
        // the newly assigned cell against a neighbour on its row or column
        assert(b_new.value != Some(val));
    } else if a_new.value is Some {
        assert(a_new.value == a_old.value);
        if r2 == row && c2 == col {
            // a neighbour against the newly assigned cell: values differ
            if r1 == r2 {
                assert(prev.cell_at(row, c1).value != Some(val));
            } else {
                assert(prev.cell_at(r1, col).value != Some(val));
            }
        } else {
            assert(b_new.value == b_old.value);
        }
    }
}

impl Default for Grid {
    /// A fresh grid: nine fresh blocks, fully empty, every candidate
    /// open everywhere.
    fn default() -> (r: Self)
        ensures
            forall|rr: int, cc: int|
                0 <= rr < 9 && 0 <= cc < 9 ==> (#[trigger] r.cell_at(rr, cc)) == (Cell {
                    value: None,
                    is_given: false,
                    candidates: crate::masks::FULL_MASK,
                }),
            forall|gr: int, gc: int|
                0 <= gr < 3 && 0 <= gc < 3 ==> (#[trigger] r.sudoku_group[gr][gc]).group_values
                    == 0u16,
            r.wf(),
            r.candidates_exact(),
            !r.is_complete_spec(),
    {
        let g = Group::default();
        let band = [g, g, g];
        let grid = Grid { sudoku_group: [band, band, band] };
        proof {
            lemma_mask_full_empty();
            assert forall|gr: int, gc: int| 0 <= gr < 3 && 0 <= gc < 3 implies (
            #[trigger] grid.sudoku_group[gr][gc]) == g by {
                assert(grid.sudoku_group[gr] == band);
                assert(band[gc] == g);
            }
            assert forall|rr: int, cc: int| 0 <= rr < 9 && 0 <= cc < 9 implies (
            #[trigger] grid.cell_at(rr, cc)) == (Cell {
                value: None,
                is_given: false,
                candidates: crate::masks::FULL_MASK,
            }) by {
                lemma_split_div3(rr);
                lemma_split_div3(cc);
                assert(grid.sudoku_group[rr / 3][cc / 3] == g);
            }
            crate::masks::lemma_mask_count_zero(10);
            assert(!grid.sudoku_group[0][0].is_complete_spec());
        }
        grid
    }
}

} // verus!
