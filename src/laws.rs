use vstd::prelude::*;
use crate::cell::{CellV, lemma_rendered_len_bound, rendered_len, text_len};
use crate::names::{index_of, lemma_index_of};
use crate::render::{cell_text, header_line, pad, rendering, run, sep_line, body};
use crate::table::{
    TableV, carried, filtered, inserted, inserted_row, joined, joined_row, kept_upto, last_match, passes, projected,
};

verus! {

broadcast use lemma_index_of;

/// Every column is at least as wide as its name and as every entry stored
/// under it.
pub proof fn law_widths_cover(v: TableV)
    requires
        v.wf(),
    ensures
        forall|c: int| 0 <= c < v.cols.len() ==> v.widths[c] >= text_len(#[trigger] v.cols[c]),
        forall|r: int, c: int| 0 <= r < v.rows.len() && 0 <= c < v.cols.len() && (#[trigger] v.rows[r][c]) is Some
            ==> rendered_len(v.rows[r][c]) <= v.widths[c],
{
}

/// After a projection onto `names`, the header lists exactly `names`, in
/// that order, whatever the source's column order.
pub proof fn law_select_header(v: TableV, names: Seq<Seq<char>>)
    ensures
        projected(v, names).cols == names,
        rendering(projected(v, names).cols, projected(v, names).widths, projected(v, names).rows)
            == sep_line(projected(v, names).widths) + header_line(names, projected(v, names).widths)
            + sep_line(projected(v, names).widths)
            + body(projected(v, names).rows, projected(v, names).widths, projected(v, names).rows.len())
            + sep_line(projected(v, names).widths),
{
}

proof fn lemma_kept_passes(rows: Seq<Seq<Option<CellV>>>, k: int, num: i32, n: nat)
    requires
        n <= rows.len(),
    ensures
        forall|i: int| 0 <= i < kept_upto(rows, k, num, n).len() ==>
            passes(#[trigger] kept_upto(rows, k, num, n)[i][k], num),
    decreases n,
{
    if n > 0 {
        lemma_kept_passes(rows, k, num, (n - 1) as nat);
        let p = kept_upto(rows, k, num, (n - 1) as nat);
        assert forall|i: int| 0 <= i < kept_upto(rows, k, num, n).len() implies
            passes(#[trigger] kept_upto(rows, k, num, n)[i][k], num) by {
            if i < p.len() {
                assert(kept_upto(rows, k, num, n)[i] == p[i]);
            }
        }
    }
}

proof fn lemma_kept_none(rows: Seq<Seq<Option<CellV>>>, k: int, num: i32, n: nat)
    requires
        n <= rows.len(),
        forall|r: int| 0 <= r < n ==> !passes(#[trigger] rows[r][k], num),
    ensures
        kept_upto(rows, k, num, n).len() == 0,
    decreases n,
{
    if n > 0 {
        lemma_kept_none(rows, k, num, (n - 1) as nat);
    }
}

proof fn lemma_kept_all(rows: Seq<Seq<Option<CellV>>>, k: int, num: i32, n: nat)
    requires
        n <= rows.len(),
        forall|r: int| 0 <= r < rows.len() ==> passes(#[trigger] rows[r][k], num),
    ensures
        kept_upto(rows, k, num, n) == rows.subrange(0, n as int),
    decreases n,
{
    if n > 0 {
        lemma_kept_all(rows, k, num, (n - 1) as nat);
        assert(rows.subrange(0, n as int) =~= rows.subrange(0, n - 1).push(rows[n - 1]));
    } else {
        assert(rows.subrange(0, 0) =~= Seq::<Seq<Option<CellV>>>::empty());
    }
}

/// Filtering on a column where no entry is an integer below `num` leaves no
/// row.
pub proof fn law_less_than_none(v: TableV, c: Seq<char>, num: i32)
    requires
        index_of(v.cols, c) >= 0,
        forall|r: int| 0 <= r < v.rows.len() ==> !passes(#[trigger] v.rows[r][index_of(v.cols, c)], num),
    ensures
        filtered(v, c, num).rows.len() == 0,
{
    lemma_kept_none(v.rows, index_of(v.cols, c), num, v.rows.len());
}

/// Filtering below the least 32-bit integer leaves no row.
pub proof fn law_less_than_min(v: TableV, c: Seq<char>)
    requires
        index_of(v.cols, c) >= 0,
    ensures
        filtered(v, c, i32::MIN).rows.len() == 0,
{
    law_less_than_none(v, c, i32::MIN);
}

/// Filtering twice with the same arguments is filtering once.
pub proof fn law_less_than_idempotent(v: TableV, c: Seq<char>, num: i32)
    requires
        index_of(v.cols, c) >= 0,
    ensures
        filtered(filtered(v, c, num), c, num) == filtered(v, c, num),
{
    let k = index_of(v.cols, c);
    let once = filtered(v, c, num);
    crate::table::lemma_kept(v.rows, k, num, v.rows.len());
    lemma_kept_passes(v.rows, k, num, v.rows.len());
    lemma_kept_all(once.rows, k, num, once.rows.len());
    assert(once.rows.subrange(0, once.rows.len() as int) =~= once.rows);
}

/// A join keeps one output row per left row.
pub proof fn law_join_row_count(lv: TableV, rv: TableV, key: Seq<char>)
    ensures
        joined(lv, rv, key).rows.len() == lv.rows.len(),
{
}

proof fn lemma_no_match(rows: Seq<Seq<Option<CellV>>>, ri: int, e: Option<CellV>, n: nat)
    requires
        n <= rows.len(),
        forall|b: int| 0 <= b < n ==> #[trigger] rows[b][ri] != e,
    ensures
        last_match(rows, ri, e, n) == -1,
    decreases n,
{
    if n > 0 {
        lemma_no_match(rows, ri, e, (n - 1) as nat);
    }
}

/// When no right row matches any left row on `key`, a join only appends the
/// right-only columns, every entry of them absent (rendered as null).
pub proof fn law_join_unmatched(lv: TableV, rv: TableV, key: Seq<char>)
    requires
        index_of(lv.cols, key) >= 0,
        index_of(rv.cols, key) >= 0,
        forall|a: int, b: int| 0 <= a < lv.rows.len() && 0 <= b < rv.rows.len()
            ==> #[trigger] rv.rows[b][index_of(rv.cols, key)] != #[trigger] lv.rows[a][index_of(lv.cols, key)],
    ensures
        joined(lv, rv, key).cols == lv.cols + carried(lv.cols, rv.cols).map_values(|c: int| rv.cols[c]),
        joined(lv, rv, key).rows.len() == lv.rows.len(),
        forall|a: int| 0 <= a < lv.rows.len() ==> #[trigger] joined(lv, rv, key).rows[a]
            == lv.rows[a] + Seq::new(carried(lv.cols, rv.cols).len(), |i: int| None::<CellV>),
{
    let li = index_of(lv.cols, key);
    let ri = index_of(rv.cols, key);
    let cs = carried(lv.cols, rv.cols);
    assert forall|a: int| 0 <= a < lv.rows.len() implies #[trigger] joined(lv, rv, key).rows[a]
        == lv.rows[a] + Seq::new(cs.len(), |i: int| None::<CellV>) by {
        let lrow = lv.rows[a];
        assert forall|b: int| 0 <= b < rv.rows.len() implies #[trigger] rv.rows[b][ri] != lrow[li] by {
            assert(rv.rows[b][ri] != lv.rows[a][li]);
        }
        lemma_no_match(rv.rows, ri, lrow[li], rv.rows.len());
        assert(joined(lv, rv, key).rows[a] == joined_row(lrow, li, rv, ri, cs));
        assert(joined_row(lrow, li, rv, ri, cs) =~= lrow + Seq::new(cs.len(), |i: int| None::<CellV>));
    }
}

/// Projecting a table onto its own column order gives the table back.
pub proof fn law_select_all(v: TableV)
    requires
        v.wf(),
    ensures
        projected(v, v.cols) == v,
{
    let p = projected(v, v.cols);
    assert forall|j: int| 0 <= j < v.cols.len() implies #[trigger] v.cols[index_of(v.cols, v.cols[j])] == v.cols[j] by {}
    assert(p.kinds =~= v.kinds);
    assert(p.widths =~= v.widths);
    assert forall|r: int| 0 <= r < v.rows.len() implies #[trigger] p.rows[r] == v.rows[r] by {
        assert(p.rows[r] =~= v.rows[r]);
    }
    assert(p.rows =~= v.rows);
}

/// A null or absent entry renders as `null`, right-aligned, taking at least
/// four columns.
pub proof fn law_null_rendering(e: Option<CellV>, w: nat)
    requires
        e is None || e == Some(CellV::Int(None)) || e == Some(CellV::Text(None)),
    ensures
        cell_text(e, w) == run(' ', pad(w, 4)) + seq!['n', 'u', 'l', 'l'],
        cell_text(e, w).len() == if w >= 4 { w } else { 4 },
{
}

/// An insert never narrows a column.
pub proof fn law_insert_widths_grow(v: TableV, names: Seq<Seq<char>>, cells: Seq<CellV>)
    requires
        v.wf(),
    ensures
        forall|j: int| 0 <= j < v.cols.len() ==> #[trigger] inserted(v, names, cells).widths[j] >= v.widths[j],
{
    assert forall|j: int| 0 <= j < v.cols.len() implies #[trigger] inserted(v, names, cells).widths[j] >= v.widths[j] by {
        lemma_rendered_len_bound(inserted_row(v, names, cells)[j]);
    }
}

} // verus!
