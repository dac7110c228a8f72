//! The rows that a word count prints: for each file the tallies that were
//! asked for, each in a column of eight characters, and a row of totals.

use vstd::prelude::*;
use vstd::string::*;
use crate::count::FileInfo;
use crate::text::{chars_of, decimal, decimal_string};

verus! {

/// The tallies to print.
#[derive(Debug, Clone, Copy, PartialEq, Eq)]
pub struct Columns {
    pub lines: bool,
    pub words: bool,
    pub bytes: bool,
    pub chars: bool,
}

/// The width of a column.
pub const COLUMN_WIDTH: usize = 8;

impl Columns {
    /// The columns to print where these were asked for: these, or lines,
    /// words and bytes where none was asked for.
    pub open spec fn spec_or_default(self) -> Columns {
        if !self.lines && !self.words && !self.bytes && !self.chars {
            Columns { lines: true, words: true, bytes: true, chars: false }
        } else {
            self
        }
    }

    /// The columns to print where these were asked for: these, or lines,
    /// words and bytes where none was asked for.
    pub fn or_default(self) -> (columns: Columns)
        ensures
            columns == self.spec_or_default(),
    {
        if !self.lines && !self.words && !self.bytes && !self.chars {
            Columns { lines: true, words: true, bytes: true, chars: false }
        } else {
            self
        }
    }
}

/// `count` spaces.
pub open spec fn spaces(count: nat) -> Seq<char> {
    Seq::new(count, |i: int| ' ')
}

/// `n` in decimal, moved to the right of a column by spaces before it. A
/// numeral that is wider than the column stands as it is.
pub open spec fn cell(n: nat) -> Seq<char> {
    let numeral = decimal(n);
    if numeral.len() < COLUMN_WIDTH {
        spaces((COLUMN_WIDTH - numeral.len()) as nat) + numeral
    } else {
        numeral
    }
}

/// The cell of `n` if the column is printed, else nothing.
pub open spec fn cell_if(printed: bool, n: nat) -> Seq<char> {
    if printed {
        cell(n)
    } else {
        Seq::empty()
    }
}

/// The cells of a row: lines, words, bytes and characters, in this order,
/// as far as they are printed.
pub open spec fn cells(info: FileInfo, columns: Columns) -> Seq<char> {
    cell_if(columns.lines, info.num_lines as nat) + cell_if(columns.words, info.num_words as nat)
        + cell_if(columns.bytes, info.num_bytes as nat) + cell_if(
        columns.chars,
        info.num_chars as nat,
    )
}

/// The row of one file: its cells, then a space and the file's name, unless
/// the name is `-`.
pub open spec fn file_row_text(info: FileInfo, columns: Columns, name: Seq<char>) -> Seq<char> {
    if name == seq!['-'] {
        cells(info, columns)
    } else {
        cells(info, columns) + seq![' '] + name
    }
}

/// The row of the totals: their cells, then ` total`.
pub open spec fn total_row_text(total: FileInfo, columns: Columns) -> Seq<char> {
    cells(total, columns) + " total"@
}

/// `a + b` where the column is printed and `a` where it is not.
pub open spec fn sum_if(printed: bool, a: usize, b: usize) -> int {
    if printed {
        a + b
    } else {
        a as int
    }
}

/// The totals after one more file: in each printed column the sum, in the
/// others the total as it was. There are none if a sum is above `usize::MAX`.
pub open spec fn totals_with(total: FileInfo, info: FileInfo, columns: Columns) -> Option<
    FileInfo,
> {
    let lines = sum_if(columns.lines, total.num_lines, info.num_lines);
    let words = sum_if(columns.words, total.num_words, info.num_words);
    let bytes = sum_if(columns.bytes, total.num_bytes, info.num_bytes);
    let chars = sum_if(columns.chars, total.num_chars, info.num_chars);
    if lines <= usize::MAX && words <= usize::MAX && bytes <= usize::MAX && chars <= usize::MAX {
        Some(
            FileInfo {
                num_lines: lines as usize,
                num_words: words as usize,
                num_bytes: bytes as usize,
                num_chars: chars as usize,
            },
        )
    } else {
        None
    }
}

/// Adds `b` to `a` where the column is printed.
fn add_if(printed: bool, a: usize, b: usize) -> (sum: Option<usize>)
    ensures
        sum is Some <==> sum_if(printed, a, b) <= usize::MAX,
        sum is Some ==> sum->Some_0 == sum_if(printed, a, b),
{
    if !printed {
        Some(a)
    } else if b <= usize::MAX - a {
        Some(a + b)
    } else {
        None
    }
}

/// Adds the tallies of one file to the totals, in the printed columns.
pub fn add_to_totals(total: &FileInfo, info: &FileInfo, columns: &Columns) -> (res: Option<
    FileInfo,
>)
    ensures
        res == totals_with(*total, *info, *columns),
{
    let lines = add_if(columns.lines, total.num_lines, info.num_lines);
    let words = add_if(columns.words, total.num_words, info.num_words);
    let bytes = add_if(columns.bytes, total.num_bytes, info.num_bytes);
    let chars = add_if(columns.chars, total.num_chars, info.num_chars);
    match (lines, words, bytes, chars) {
        (Some(num_lines), Some(num_words), Some(num_bytes), Some(num_chars)) => Some(
            FileInfo { num_lines, num_words, num_bytes, num_chars },
        ),
        _ => None,
    }
}

/// Appends the cell of `n` to `row` if the column is printed.
fn push_cell(row: &mut String, printed: bool, n: usize)
    ensures
        final(row)@ == old(row)@ + cell_if(printed, n as nat),
{
    if printed {
        let numeral = decimal_string(n);
        let width = chars_of(numeral.as_str()).len();
        let ghost start = row@;
        let mut i: usize = width;
        while i < COLUMN_WIDTH
            invariant
                width <= i,
                i <= COLUMN_WIDTH || i == width,
                row@ == start + spaces((i - width) as nat),
            decreases COLUMN_WIDTH - i,
        {
            proof {
                reveal_strlit(" ");
                assert(" "@ =~= seq![' ']);
                assert(spaces((i + 1 - width) as nat) =~= spaces((i - width) as nat) + seq![' ']);
            }
            row.append(" ");
            assert(row@ =~= start + spaces((i + 1 - width) as nat));
            i += 1;
        }
        row.append(numeral.as_str());
        assert(row@ =~= start + cell(n as nat));
    } else {
        assert(row@ =~= row@ + Seq::<char>::empty());
    }
}

/// The cells of a row.
fn row_cells(info: &FileInfo, columns: &Columns) -> (row: String)
    ensures
        row@ == cells(*info, *columns),
{
    let mut row = String::new();
    push_cell(&mut row, columns.lines, info.num_lines);
    push_cell(&mut row, columns.words, info.num_words);
    push_cell(&mut row, columns.bytes, info.num_bytes);
    push_cell(&mut row, columns.chars, info.num_chars);
    assert(row@ =~= cells(*info, *columns));
    row
}

/// The row of one file, without a line end.
pub fn file_row(info: &FileInfo, columns: &Columns, name: &str) -> (row: String)
    ensures
        row@ == file_row_text(*info, *columns, name@),
{
    let mut row = row_cells(info, columns);
    let letters = chars_of(name);
    if letters.len() == 1 && letters[0] == '-' {
        assert(name@ =~= seq!['-']);
    } else {
        proof {
            reveal_strlit(" ");
            assert(" "@ =~= seq![' ']);
        }
        row.append(" ");
        row.append(name);
    }
    row
}

/// The row of the totals, without a line end.
pub fn total_row(total: &FileInfo, columns: &Columns) -> (row: String)
    ensures
        row@ == total_row_text(*total, *columns),
{
    let mut row = row_cells(total, columns);
    row.append(" total");
    row
}

} // verus!
