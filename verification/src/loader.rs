//! Parsing puzzle text into given-cell assignments.  Each non-blank
//! line's digit characters map, in order of appearance, to columns 0..9
//! of the current row; other characters are skipped without consuming a
//! column, a digit 0 leaves its column blank, and at most nine rows and
//! nine digits per line are read.

use crate::utility::SingleCandidate;
use vstd::prelude::*;

verus! {

broadcast use vstd::prelude::Seq::add_empty_right;

/// ASCII whitespace, the characters a blank line may consist of.
pub open spec fn is_space(b: u8) -> bool {
    b == 32 || (9 <= b <= 13)
}

/// A digit character `0`..`9`.
pub open spec fn is_digit(b: u8) -> bool {
    48 <= b <= 57
}

/// A line of nothing but whitespace, skipped without consuming a row.
pub open spec fn is_blank_line(line: Seq<u8>) -> bool {
    forall|p: int| 0 <= p < line.len() ==> is_space(#[trigger] line[p])
}

/// The values of the digit characters of a line, in order.
pub open spec fn digit_values(line: Seq<u8>) -> Seq<u8>
    decreases line.len(),
{
    if line.len() == 0 {
        Seq::empty()
    } else {
        (if is_digit(line[0]) {
            seq![(line[0] - 48) as u8]
        } else {
            Seq::<u8>::empty()
        }) + digit_values(line.drop_first())
    }
}

/// The given-cell assignments produced by the digit values `d` starting
/// at column `col` of row `row`: each non-zero digit claims its column,
/// and columns from 9 on are ignored.
pub open spec fn givens_of_digits(d: Seq<u8>, row: int, col: int) -> Seq<SingleCandidate>
    decreases d.len(),
{
    if d.len() == 0 || col >= 9 {
        Seq::empty()
    } else {
        (if d[0] != 0 {
            seq![SingleCandidate { row: row as usize, column: col as usize, value: d[0] }]
        } else {
            Seq::<SingleCandidate>::empty()
        }) + givens_of_digits(d.drop_first(), row, col + 1)
    }
}

/// The given-cell assignments of the whole input, reading rows from
/// `row` on: blank lines are skipped, a line with at least one digit
/// consumes a row, and reading stops after row 8.
pub open spec fn givens_of_lines(lines: Seq<Seq<u8>>, row: int) -> Seq<SingleCandidate>
    decreases lines.len(),
{
    if lines.len() == 0 || row >= 9 {
        Seq::empty()
    } else if is_blank_line(lines[0]) {
        givens_of_lines(lines.drop_first(), row)
    } else {
        givens_of_digits(digit_values(lines[0]), row, 0) + givens_of_lines(
            lines.drop_first(),
            if digit_values(lines[0]).len() > 0 {
                row + 1
            } else {
                row
            },
        )
    }
}

/// Extract the given-cell assignments from the puzzle's byte lines.
pub fn parse_given_cells(lines: &Vec<Vec<u8>>) -> (r: Vec<SingleCandidate>)
    ensures
        r@ == givens_of_lines(lines.deep_view(), 0),
        forall|i: int|
            0 <= i < r@.len() ==> {
                let e = #[trigger] r@[i];
                e.row < 9 && e.column < 9 && 1 <= e.value <= 9
            },
{
    let ghost all = lines.deep_view();
    let mut result: Vec<SingleCandidate> = Vec::new();
    let mut row: usize = 0;
    let mut li: usize = 0;
    proof {
        assert(all.skip(0) =~= all);
    }
    while li < lines.len()
        invariant_except_break
            li <= lines@.len(),
            all == lines.deep_view(),
            row <= 9,
            givens_of_lines(all, 0) == result@ + givens_of_lines(all.skip(li as int), row as int),
            forall|i: int|
                0 <= i < result@.len() ==> {
                    let e = #[trigger] result@[i];
                    e.row < 9 && e.column < 9 && 1 <= e.value <= 9
                },
        ensures
            result@ == givens_of_lines(all, 0),
            forall|i: int|
                0 <= i < result@.len() ==> {
                    let e = #[trigger] result@[i];
                    e.row < 9 && e.column < 9 && 1 <= e.value <= 9
                },
        decreases lines@.len() - li,
    {
        if row >= 9 {
            break ;
        }
        let line = &lines[li];
        let ghost lineseq = all[li as int];
        proof {
            assert(lineseq =~= line@);
            assert(all.skip(li as int)[0] == lineseq);
            assert(all.skip(li as int).drop_first() =~= all.skip(li as int + 1));
        }
        let mut blank = true;
        let mut bi: usize = 0;
        while bi < line.len()
            invariant
                bi <= line@.len(),
                lineseq == line@,
                blank == (forall|p: int| 0 <= p < bi ==> is_space(#[trigger] lineseq[p])),
            decreases line@.len() - bi,
        {
            let b = line[bi];
            if !(b == 32 || (9 <= b && b <= 13)) {
                blank = false;
            }
            bi += 1;
        }
        if blank {
            li += 1;
            continue ;
        }
        let ghost base = result@;
        let ghost row_g = row as int;
        let ghost mut dseen = Seq::<u8>::empty();
        let mut col: usize = 0;
        let mut p: usize = 0;
        proof {
            assert(lineseq.skip(0) =~= lineseq);
            assert(digit_values(lineseq) =~= dseen + digit_values(lineseq.skip(0)));
        }
        while p < line.len()
            invariant_except_break
                p <= line@.len(),
                lineseq == line@,
                col <= 9,
                row_g == row as int,
                row < 9,
                digit_values(lineseq) == dseen + digit_values(lineseq.skip(p as int)),
                col == dseen.len() || (col == 9 && dseen.len() >= 9),
                col as int <= dseen.len(),
                base + givens_of_digits(digit_values(lineseq), row_g, 0) == result@
                    + givens_of_digits(digit_values(lineseq.skip(p as int)), row_g, col as int),
                result@.len() >= base.len(),
                forall|i: int| 0 <= i < base.len() ==> result@[i] == base[i],
                forall|i: int|
                    0 <= i < result@.len() ==> {
                        let e = #[trigger] result@[i];
                        e.row < 9 && e.column < 9 && 1 <= e.value <= 9
                    },
            ensures
                result@ == base + givens_of_digits(digit_values(lineseq), row_g, 0),
                (col > 0) == (digit_values(lineseq).len() > 0),
                row_g == row as int,
                forall|i: int|
                    0 <= i < result@.len() ==> {
                        let e = #[trigger] result@[i];
                        e.row < 9 && e.column < 9 && 1 <= e.value <= 9
                    },
            decreases line@.len() - p,
        {
            let b = line[p];
            proof {
                assert(lineseq.skip(p as int)[0] == lineseq[p as int]);
                assert(lineseq.skip(p as int).drop_first() =~= lineseq.skip(p as int + 1));
            }
            if 48 <= b && b <= 57 {
                if col >= 9 {
                    break ;
                }
                let val = b - 48;
                let ghost before = result@;
                let ghost col0 = col as int;
                if val != 0 {
                    result.push(SingleCandidate { row, column: col, value: val });
                }
                proof {
                    let rest = digit_values(lineseq.skip(p as int + 1));
                    let dv_here = digit_values(lineseq.skip(p as int));
                    assert(dv_here == seq![val] + rest);
                    assert(dv_here[0] == val);
                    assert(dv_here.drop_first() =~= rest);
                    assert(givens_of_digits(dv_here, row_g, col0) == (if val != 0 {
                        seq![SingleCandidate { row: row, column: col, value: val }]
                    } else {
                        Seq::<SingleCandidate>::empty()
                    }) + givens_of_digits(rest, row_g, col0 + 1));
                    assert(result@ + givens_of_digits(rest, row_g, col0 + 1) =~= before
                        + givens_of_digits(dv_here, row_g, col0));
                    dseen = dseen + seq![val];
                    assert(digit_values(lineseq) =~= dseen + rest);
                }
                col += 1;
            }
            p += 1;
        }
        proof {
            assert(lineseq.skip(lineseq.len() as int) =~= Seq::<u8>::empty());
        }
        if col > 0 {
            row += 1;
        }
        li += 1;
    }
    result
}

} // verus!
