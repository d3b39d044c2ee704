//! Plain-text tables for the terminal.
use vstd::prelude::*;

use crate::text::join;
use crate::text::pad_right;
use crate::text::push_repeat;
use crate::text::repeat_char;
use crate::text::trim;
use crate::text::trim_str;

verus! {

/// The length in bytes of the UTF-8 encoding of `s`, as `str::len` reports it.
pub open spec fn byte_len(s: Seq<char>) -> nat {
    (vstd::utf8::encode_utf8(s).len() as usize) as nat
}

/// The table as nested sequences of cell texts.
pub open spec fn table_view(data: Seq<Vec<String>>) -> Seq<Seq<Seq<char>>> {
    data.map_values(|row: Vec<String>| row@.map_values(|c: String| c@))
}

/// The byte length of cell `i` of `row`, or zero where the row is shorter.
pub open spec fn cell_len(row: Seq<Seq<char>>, i: int) -> nat {
    if 0 <= i < row.len() {
        byte_len(row[i])
    } else {
        0
    }
}

/// The width of column `i`: the largest byte length of a cell in it.
pub open spec fn col_width(rows: Seq<Seq<Seq<char>>>, i: int) -> nat
    decreases rows.len(),
{
    if rows.len() == 0 {
        0
    } else {
        let w = col_width(rows.drop_last(), i);
        let c = cell_len(rows.last(), i);
        if w < c {
            c
        } else {
            w
        }
    }
}

/// One table row: each cell padded with spaces to its column's width,
/// cells separated by `" | "`.
pub open spec fn format_row(row: Seq<Seq<char>>, rows: Seq<Seq<Seq<char>>>) -> Seq<char> {
    join(Seq::new(row.len(), |j: int| pad_right(row[j], col_width(rows, j))), seq![' ', '|', ' '])
}

/// The first `k` rows, each on its own line; a row is put on a new line
/// only once the text so far is non-empty.
pub open spec fn table_lines(rows: Seq<Seq<Seq<char>>>, k: nat) -> Seq<char>
    decreases k,
{
    if k == 0 {
        Seq::empty()
    } else {
        let acc = table_lines(rows, (k - 1) as nat);
        let line = format_row(rows[k - 1], rows);
        if acc.len() == 0 {
            line
        } else {
            acc + seq!['\n'] + line
        }
    }
}

/// Whether no row is longer than the first one.
pub open spec fn rows_fit_first(rows: Seq<Seq<Seq<char>>>) -> bool {
    rows.len() > 0 ==> forall|k: int| 0 <= k < rows.len() ==> #[trigger] rows[k].len() <= rows[0].len()
}

/// Column widths of the table, one per cell of the first row.
fn column_widths(data: &Vec<Vec<String>>) -> (widths: Vec<usize>)
    requires
        data.len() > 0,
        rows_fit_first(table_view(data@)),
    ensures
        widths.len() == data[0].len(),
        forall|j: int| 0 <= j < widths.len() ==> widths[j] == col_width(table_view(data@), j),
{
    let ghost rows = table_view(data@);
    let n = data[0].len();
    let mut widths: Vec<usize> = Vec::new();
    while widths.len() < n
        invariant
            widths.len() <= n,
            forall|j: int| 0 <= j < widths.len() ==> widths[j] == 0,
        decreases n - widths.len(),
    {
        widths.push(0);
    }
    let mut k: usize = 0;
    while k < data.len()
        invariant
            k <= data.len(),
            n == data[0].len(),
            rows == table_view(data@),
            rows_fit_first(rows),
            widths.len() == n,
            forall|j: int| 0 <= j < n ==> widths[j] == col_width(rows.take(k as int), j),
        decreases data.len() - k,
    {
        let row = &data[k];
        assert(rows[k as int].len() == row.len());
        assert(row.len() <= n);
        let ghost before = widths@;
        let mut i: usize = 0;
        while i < row.len()
            invariant
                i <= row.len(),
                row.len() <= n,
                widths.len() == n,
                rows == table_view(data@),
                k < data.len(),
                before.len() == n,
                row == data[k as int],
                forall|j: int|
                    0 <= j < n ==> widths[j] as nat == if j < i {
                        let c = cell_len(rows[k as int], j);
                        if before[j] < c {
                            c
                        } else {
                            before[j] as nat
                        }
                    } else {
                        before[j] as nat
                    },
            decreases row.len() - i,
        {
            let cell = row[i].as_str();
            let l = cell.len();
            assert(rows[k as int][i as int] == row[i as int]@);
            assert(cell_len(rows[k as int], i as int) == l);
            if l > widths[i] {
                widths.set(i, l);
            }
            i = i + 1;
        }
        proof {
            assert(rows.take(k + 1).drop_last() =~= rows.take(k as int));
            assert(rows.take(k + 1).last() == rows[k as int]);
            assert forall|j: int| 0 <= j < n implies widths[j] == col_width(rows.take(k + 1), j) by {
                if j >= row.len() {
                    assert(cell_len(rows[k as int], j) == 0);
                }
            }
        }
        k = k + 1;
    }
    assert(rows.take(data.len() as int) =~= rows);
    widths
}

/// One row of the table, cells padded to the widths and separated by `" | "`.
fn format_one_row(row: &Vec<String>, widths: &Vec<usize>, rows: Ghost<Seq<Seq<Seq<char>>>>) -> (line: String)
    requires
        row.len() <= widths.len(),
        forall|j: int| 0 <= j < row.len() ==> widths[j] == col_width(rows@, j),
    ensures
        line@ == format_row(row@.map_values(|c: String| c@), rows@),
{
    let ghost r = row@.map_values(|c: String| c@);
    let ghost f = |j: int| pad_right(r[j], col_width(rows@, j));
    let mut line = String::new();
    let mut i: usize = 0;
    while i < row.len()
        invariant
            i <= row.len(),
            row.len() <= widths.len(),
            r == row@.map_values(|c: String| c@),
            f == (|j: int| pad_right(r[j], col_width(rows@, j))),
            forall|j: int| 0 <= j < row.len() ==> widths[j] == col_width(rows@, j),
            line@ == join(Seq::new(i as nat, f), seq![' ', '|', ' ']),
        decreases row.len() - i,
    {
        proof {
            reveal_strlit(" | ");
            crate::text::lemma_join_push(Seq::new(i as nat, f), seq![' ', '|', ' '], f(i as int));
            assert(Seq::new(i as nat, f).push(f(i as int)) =~= Seq::new((i + 1) as nat, f));
        }
        if i > 0 {
            line.append(" | ");
        }
        let cell = row[i].as_str();
        line.append(cell);
        let chars = cell.unicode_len();
        if chars < widths[i] {
            push_repeat(&mut line, ' ', widths[i] - chars);
        }
        i = i + 1;
    }
    line
}

/// Formats a table for printing.
///
/// Each row is a list of cells. Every cell is padded with spaces to the width
/// of its column (the largest byte length of a cell in that column), cells are
/// separated by `" | "`, and rows by newlines. Leading and trailing whitespace
/// of the whole text is removed. An empty table gives an empty string.
pub fn format_table(data: Vec<Vec<String>>) -> (s: String)
    requires
        rows_fit_first(table_view(data@)),
    ensures
        s@ == if data.len() == 0 {
            Seq::empty()
        } else {
            trim(table_lines(table_view(data@), data.len() as nat))
        },
{
    if data.len() == 0 {
        return String::new();
    }
    let ghost rows = table_view(data@);
    let widths = column_widths(&data);
    let mut result = String::new();
    let mut k: usize = 0;
    while k < data.len()
        invariant
            k <= data.len(),
            rows == table_view(data@),
            rows_fit_first(rows),
            widths.len() == data[0].len(),
            forall|j: int| 0 <= j < widths.len() ==> widths[j] == col_width(rows, j),
            result@ == table_lines(rows, k as nat),
        decreases data.len() - k,
    {
        assert(rows[k as int].len() <= rows[0].len());
        let line = format_one_row(&data[k], &widths, Ghost(rows));
        assert(rows[k as int] == data[k as int]@.map_values(|c: String| c@));
        if !result.as_str().is_empty() {
            crate::text::push_char(&mut result, '\n');
        }
        result.append(line.as_str());
        assert(result@ =~= table_lines(rows, (k + 1) as nat));
        k = k + 1;
    }
    trim_str(result.as_str())
}

} // verus!
