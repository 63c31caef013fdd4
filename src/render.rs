use vstd::prelude::*;
use crate::cell::{Cell, CellV, int_text, nat_digits, digit_char, i32_len, text_len};
use crate::table::entry_view;

verus! {

/// `n` copies of `c`.
pub open spec fn run(c: char, n: nat) -> Seq<char> {
    Seq::new(n, |_i: int| c)
}

/// The padding that brings `len` up to `w`; none when `len` already reaches it.
pub open spec fn pad(w: nat, len: nat) -> nat {
    if w >= len { (w - len) as nat } else { 0 }
}

/// The separator segments of the first `n` columns: `-`, dashes, `-+`.
pub open spec fn sep_cells(widths: Seq<usize>, n: nat) -> Seq<char>
    decreases n,
{
    if n == 0 {
        seq![]
    } else {
        sep_cells(widths, (n - 1) as nat) + seq!['-'] + run('-', widths[n - 1] as nat) + seq!['-', '+']
    }
}

pub open spec fn sep_line(widths: Seq<usize>) -> Seq<char> {
    seq![' ', '+'] + sep_cells(widths, widths.len()) + seq!['\n']
}

/// The header segments of the first `n` columns: the name, left-aligned.
pub open spec fn header_cells(cols: Seq<Seq<char>>, widths: Seq<usize>, n: nat) -> Seq<char>
    decreases n,
{
    if n == 0 {
        seq![]
    } else {
        header_cells(cols, widths, (n - 1) as nat) + seq![' '] + cols[n - 1]
            + run(' ', pad(widths[n - 1] as nat, text_len(cols[n - 1]))) + seq![' ', '|']
    }
}

pub open spec fn header_line(cols: Seq<Seq<char>>, widths: Seq<usize>) -> Seq<char> {
    seq![' ', '|'] + header_cells(cols, widths, cols.len()) + seq!['\n']
}

/// An entry padded to width `w`: integers and nulls right-aligned, texts
/// left-aligned; an absent entry reads as null.
pub open spec fn cell_text(e: Option<CellV>, w: nat) -> Seq<char> {
    match e {
        Some(CellV::Int(Some(n))) => run(' ', pad(w, int_text(n as int).len())) + int_text(n as int),
        Some(CellV::Text(Some(s))) => s + run(' ', pad(w, text_len(s))),
        _ => run(' ', pad(w, 4)) + seq!['n', 'u', 'l', 'l'],
    }
}

/// The segments of the first `n` entries of a row.
pub open spec fn row_cells(row: Seq<Option<CellV>>, widths: Seq<usize>, n: nat) -> Seq<char>
    decreases n,
{
    if n == 0 {
        seq![]
    } else {
        row_cells(row, widths, (n - 1) as nat) + seq![' '] + cell_text(row[n - 1], widths[n - 1] as nat) + seq![' ', '|']
    }
}

pub open spec fn row_line(row: Seq<Option<CellV>>, widths: Seq<usize>) -> Seq<char> {
    seq![' ', '|'] + row_cells(row, widths, widths.len()) + seq!['\n']
}

/// The lines of the first `n` rows.
pub open spec fn body(rows: Seq<Seq<Option<CellV>>>, widths: Seq<usize>, n: nat) -> Seq<char>
    decreases n,
{
    if n == 0 {
        seq![]
    } else {
        body(rows, widths, (n - 1) as nat) + row_line(rows[n - 1], widths)
    }
}

/// The ASCII box of a table: separator, header, separator, one line per
/// row, separator.
pub open spec fn rendering(cols: Seq<Seq<char>>, widths: Seq<usize>, rows: Seq<Seq<Option<CellV>>>) -> Seq<char> {
    sep_line(widths) + header_line(cols, widths) + sep_line(widths) + body(rows, widths, rows.len())
        + sep_line(widths)
}

/// Appends `n` copies of the one character of `unit`.
pub fn push_run(s: &mut String, unit: &str, n: usize)
    requires
        unit@.len() == 1,
    ensures
        final(s)@ == old(s)@ + run(unit@[0], n as nat),
{
    let ghost start = s@;
    let mut i: usize = 0;
    while i < n
        invariant
            i <= n,
            unit@.len() == 1,
            s@ == start + run(unit@[0], i as nat),
        decreases n - i,
    {
        s.append(unit);
        i = i + 1;
        assert(s@ =~= start + run(unit@[0], i as nat));
    }
}

fn digit_str(d: u32) -> (r: &'static str)
    requires
        d < 10,
    ensures
        r@ == seq![digit_char(d as nat)],
{
    if d == 0 {
        proof { reveal_strlit("0"); }
        "0"
    } else if d == 1 {
        proof { reveal_strlit("1"); }
        "1"
    } else if d == 2 {
        proof { reveal_strlit("2"); }
        "2"
    } else if d == 3 {
        proof { reveal_strlit("3"); }
        "3"
    } else if d == 4 {
        proof { reveal_strlit("4"); }
        "4"
    } else if d == 5 {
        proof { reveal_strlit("5"); }
        "5"
    } else if d == 6 {
        proof { reveal_strlit("6"); }
        "6"
    } else if d == 7 {
        proof { reveal_strlit("7"); }
        "7"
    } else if d == 8 {
        proof { reveal_strlit("8"); }
        "8"
    } else {
        proof { reveal_strlit("9"); }
        "9"
    }
}

/// Appends the decimal digits of `n`.
fn push_digits(s: &mut String, n: u32)
    ensures
        final(s)@ == old(s)@ + nat_digits(n as nat),
    decreases n,
{
    if n >= 10 {
        push_digits(s, n / 10);
    }
    s.append(digit_str(n % 10));
    assert(s@ =~= old(s)@ + nat_digits(n as nat)) by {
        if n < 10 {
            assert(nat_digits(n as nat) == seq![digit_char(n as nat)]);
        }
    }
}

/// Appends the decimal representation of `i`.
fn push_int(s: &mut String, i: i32)
    ensures
        final(s)@ == old(s)@ + int_text(i as int),
{
    if i < 0 {
        proof { reveal_strlit("-"); }
        s.append("-");
        let m: u32 = (-(i as i64)) as u32;
        push_digits(s, m);
        assert(s@ =~= old(s)@ + int_text(i as int));
    } else {
        push_digits(s, i as u32);
    }
}

/// Appends an entry padded to width `w`.
pub fn push_cell(s: &mut String, e: &Option<Cell>, w: usize)
    ensures
        final(s)@ == old(s)@ + cell_text(entry_view(*e), w as nat),
{
    proof {
        reveal_strlit(" ");
        reveal_strlit("null");
    }
    match e {
        Some(Cell::Int(Some(n))) => {
            let len = i32_len(*n);
            let p: usize = if w >= len { w - len } else { 0 };
            push_run(s, " ", p);
            push_int(s, *n);
        },
        Some(Cell::Text(Some(t))) => {
            s.append(t.as_str());
            let len = t.as_str().len();
            let p: usize = if w >= len { w - len } else { 0 };
            push_run(s, " ", p);
        },
        _ => {
            let p: usize = if w >= 4 { w - 4 } else { 0 };
            push_run(s, " ", p);
            s.append("null");
        },
    }
    assert(s@ =~= old(s)@ + cell_text(entry_view(*e), w as nat));
}

/// Appends the separator line for columns of the given widths.
pub fn push_sep(s: &mut String, widths: &Vec<usize>)
    ensures
        final(s)@ == old(s)@ + sep_line(widths@),
{
    proof {
        reveal_strlit(" +");
        reveal_strlit("-");
        reveal_strlit("-+");
        reveal_strlit("\n");
    }
    let ghost start = s@;
    s.append(" +");
    let mut j: usize = 0;
    while j < widths.len()
        invariant
            j <= widths.len(),
            s@ == start + seq![' ', '+'] + sep_cells(widths@, j as nat),
        decreases widths.len() - j,
    {
        proof {
            reveal_strlit("-");
            reveal_strlit("-+");
        }
        s.append("-");
        push_run(s, "-", widths[j]);
        s.append("-+");
        j = j + 1;
        assert(s@ =~= start + seq![' ', '+'] + sep_cells(widths@, j as nat));
    }
    s.append("\n");
    assert(s@ =~= start + sep_line(widths@));
}

/// Appends the header line: each name left-aligned to its width.
pub fn push_header(s: &mut String, cols: &Vec<String>, widths: &Vec<usize>)
    requires
        cols@.len() == widths@.len(),
    ensures
        final(s)@ == old(s)@ + header_line(cols@.map_values(|c: String| c@), widths@),
{
    proof {
        reveal_strlit(" |");
        reveal_strlit(" ");
        reveal_strlit("\n");
    }
    let ghost names = cols@.map_values(|c: String| c@);
    let ghost start = s@;
    s.append(" |");
    let mut j: usize = 0;
    while j < cols.len()
        invariant
            j <= cols.len(),
            cols@.len() == widths@.len(),
            names == cols@.map_values(|c: String| c@),
            s@ == start + seq![' ', '|'] + header_cells(names, widths@, j as nat),
        decreases cols.len() - j,
    {
        proof {
            reveal_strlit(" |");
            reveal_strlit(" ");
        }
        s.append(" ");
        s.append(cols[j].as_str());
        let len = cols[j].as_str().len();
        let w = widths[j];
        let p: usize = if w >= len { w - len } else { 0 };
        push_run(s, " ", p);
        s.append(" |");
        j = j + 1;
        assert(names[j - 1] == cols@[j - 1]@);
        assert(s@ =~= start + seq![' ', '|'] + header_cells(names, widths@, j as nat));
    }
    s.append("\n");
    assert(s@ =~= start + header_line(names, widths@));
}

/// Appends the line of one row.
pub fn push_row(s: &mut String, row: &Vec<Option<Cell>>, widths: &Vec<usize>)
    requires
        row@.len() == widths@.len(),
    ensures
        final(s)@ == old(s)@ + row_line(row@.map_values(|e: Option<Cell>| entry_view(e)), widths@),
{
    proof {
        reveal_strlit(" |");
        reveal_strlit(" ");
        reveal_strlit("\n");
    }
    let ghost rv = row@.map_values(|e: Option<Cell>| entry_view(e));
    let ghost start = s@;
    s.append(" |");
    let mut j: usize = 0;
    while j < widths.len()
        invariant
            j <= widths.len(),
            row@.len() == widths@.len(),
            rv == row@.map_values(|e: Option<Cell>| entry_view(e)),
            s@ == start + seq![' ', '|'] + row_cells(rv, widths@, j as nat),
        decreases widths.len() - j,
    {
        proof {
            reveal_strlit(" |");
            reveal_strlit(" ");
        }
        s.append(" ");
        push_cell(s, &row[j], widths[j]);
        s.append(" |");
        j = j + 1;
        assert(rv[j - 1] == entry_view(row@[j - 1]));
        assert(s@ =~= start + seq![' ', '|'] + row_cells(rv, widths@, j as nat));
    }
    s.append("\n");
    assert(s@ =~= start + row_line(rv, widths@));
}

} // verus!
