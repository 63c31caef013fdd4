use vstd::prelude::*;
use crate::cell::{Cell, CellV, Kind, kind_of, lemma_rendered_len_bound, rendered_len, text_len};
use crate::names::{index_of, lemma_index_of, position, strs_view};
use crate::render::{body, push_header, push_row, push_sep, rendering, header_line, sep_line};

verus! {

/// A data-shape error reported by a table operation.
#[derive(Debug)]
pub enum TableError {
    /// A referenced column is not declared in the schema.
    UnknownColumn(String),
    /// A cell's variant differs from its column's: column, declared, supplied.
    TypeMismatch(String, Kind, Kind),
    /// One insert names the same column twice.
    DuplicateBinding(String),
    /// A schema names the same column twice.
    SchemaError(String),
}

/// The mathematical value of an error: names are seen as their characters.
pub enum ErrorV {
    UnknownColumn(Seq<char>),
    TypeMismatch(Seq<char>, Kind, Kind),
    DuplicateBinding(Seq<char>),
    SchemaError(Seq<char>),
}

impl View for TableError {
    type V = ErrorV;

    open spec fn view(&self) -> ErrorV {
        match self {
            TableError::UnknownColumn(n) => ErrorV::UnknownColumn(n@),
            TableError::TypeMismatch(n, e, a) => ErrorV::TypeMismatch(n@, *e, *a),
            TableError::DuplicateBinding(n) => ErrorV::DuplicateBinding(n@),
            TableError::SchemaError(n) => ErrorV::SchemaError(n@),
        }
    }
}

/// An in-memory table: a schema (column names with their declared variants),
/// a width per column, and rows stored densely, one entry per column, where
/// an absent entry is `None`.
pub struct Table {
    name: String,
    cols: Vec<String>,
    kinds: Vec<Kind>,
    widths: Vec<usize>,
    rows: Vec<Vec<Option<Cell>>>,
}

/// The mathematical value of a table.
pub struct TableV {
    pub name: Seq<char>,
    pub cols: Seq<Seq<char>>,
    pub kinds: Seq<Kind>,
    pub widths: Seq<usize>,
    pub rows: Seq<Seq<Option<CellV>>>,
}

pub open spec fn entry_view(e: Option<Cell>) -> Option<CellV> {
    match e {
        Some(c) => Some(c@),
        None => None,
    }
}

pub open spec fn row_view(r: Vec<Option<Cell>>) -> Seq<Option<CellV>> {
    r@.map_values(|e: Option<Cell>| entry_view(e))
}

impl View for Table {
    type V = TableV;

    closed spec fn view(&self) -> TableV {
        TableV {
            name: self.name@,
            cols: strs_view(self.cols@),
            kinds: self.kinds@,
            widths: self.widths@,
            rows: self.rows@.map_values(|r: Vec<Option<Cell>>| row_view(r)),
        }
    }
}

/// A stored entry agrees with its column's variant and fits its width.
pub open spec fn entry_fits(e: Option<CellV>, k: Kind, w: usize) -> bool {
    match e {
        Some(c) => kind_of(c) == k && rendered_len(Some(c)) <= w,
        None => true,
    }
}

impl TableV {
    /// The table invariant: one variant and width per column, each width
    /// covering the column's name and every entry under it, rows as long as
    /// the schema, and columns of one name agreeing in variant, width and
    /// entries.
    pub open spec fn wf(self) -> bool {
        &&& self.kinds.len() == self.cols.len()
        &&& self.widths.len() == self.cols.len()
        &&& forall|j: int| 0 <= j < self.cols.len() ==> self.widths[j] >= text_len(#[trigger] self.cols[j])
        &&& forall|i: int, j: int| 0 <= i < self.cols.len() && 0 <= j < self.cols.len()
            && #[trigger] self.cols[i] == #[trigger] self.cols[j]
            ==> self.kinds[i] == self.kinds[j] && self.widths[i] == self.widths[j]
        &&& forall|r: int, i: int, j: int| 0 <= r < self.rows.len() && 0 <= i < self.cols.len()
            && 0 <= j < self.cols.len() && self.cols[i] == self.cols[j]
            ==> #[trigger] self.rows[r][i] == #[trigger] self.rows[r][j]
        &&& forall|r: int| 0 <= r < self.rows.len() ==> (#[trigger] self.rows[r]).len() == self.cols.len()
        &&& forall|r: int, j: int| 0 <= r < self.rows.len() && 0 <= j < self.cols.len()
            ==> entry_fits(#[trigger] self.rows[r][j], self.kinds[j], self.widths[j])
    }
}

broadcast use lemma_index_of;

/// Whether two positions of `s` hold the same name.
pub open spec fn has_duplicate(s: Seq<Seq<char>>) -> bool {
    exists|i: int, j: int| 0 <= i < j < s.len() && s[i] == s[j]
}

pub open spec fn pair_names(ps: Seq<(&str, Cell)>) -> Seq<Seq<char>> {
    ps.map_values(|p: (&str, Cell)| p.0@)
}

pub open spec fn pair_cells(ps: Seq<(&str, Cell)>) -> Seq<CellV> {
    ps.map_values(|p: (&str, Cell)| p.1@)
}

/// The table that construction yields: no rows, each width the name's length.
pub open spec fn created(name: Seq<char>, cols: Seq<Seq<char>>, cells: Seq<CellV>) -> TableV {
    TableV {
        name,
        cols,
        kinds: cells.map_values(|c: CellV| kind_of(c)),
        widths: cols.map_values(|c: Seq<char>| text_len(c) as usize),
        rows: seq![],
    }
}

/// The error that the binding at position `i` of an insert raises, if any.
pub open spec fn pair_error(v: TableV, names: Seq<Seq<char>>, cells: Seq<CellV>, i: int) -> Option<ErrorV> {
    let k = index_of(v.cols, names[i]);
    if k < 0 {
        Some(ErrorV::UnknownColumn(names[i]))
    } else if v.kinds[k] != kind_of(cells[i]) {
        Some(ErrorV::TypeMismatch(names[i], v.kinds[k], kind_of(cells[i])))
    } else if index_of(names, names[i]) < i {
        Some(ErrorV::DuplicateBinding(names[i]))
    } else {
        None
    }
}

/// The first error among the first `n` bindings of an insert, if any.
pub open spec fn first_error(v: TableV, names: Seq<Seq<char>>, cells: Seq<CellV>, n: nat) -> Option<ErrorV>
    decreases n,
{
    if n == 0 {
        None
    } else {
        match first_error(v, names, cells, (n - 1) as nat) {
            Some(e) => Some(e),
            None => pair_error(v, names, cells, n - 1),
        }
    }
}

/// The entry an insert stores under column `c`: the bound cell, or absent.
pub open spec fn bound_entry(names: Seq<Seq<char>>, cells: Seq<CellV>, c: Seq<char>) -> Option<CellV> {
    let k = index_of(names, c);
    if k >= 0 { Some(cells[k]) } else { None }
}

/// A width after a stored entry: grown to the entry's rendered length.
pub open spec fn grown(w: usize, e: Option<CellV>) -> usize {
    match e {
        Some(c) => if rendered_len(Some(c)) > w { rendered_len(Some(c)) as usize } else { w },
        None => w,
    }
}

pub open spec fn inserted_row(v: TableV, names: Seq<Seq<char>>, cells: Seq<CellV>) -> Seq<Option<CellV>> {
    Seq::new(v.cols.len(), |j: int| bound_entry(names, cells, v.cols[j]))
}

/// The table after a successful insert: the row appended, widths grown.
pub open spec fn inserted(v: TableV, names: Seq<Seq<char>>, cells: Seq<CellV>) -> TableV {
    let row = inserted_row(v, names, cells);
    TableV {
        name: v.name,
        cols: v.cols,
        kinds: v.kinds,
        widths: Seq::new(v.cols.len(), |j: int| grown(v.widths[j], row[j])),
        rows: v.rows.push(row),
    }
}

proof fn lemma_first_error_none(v: TableV, names: Seq<Seq<char>>, cells: Seq<CellV>, n: nat)
    requires
        first_error(v, names, cells, n) is None,
    ensures
        forall|i: int| 0 <= i < n ==> #[trigger] pair_error(v, names, cells, i) is None,
    decreases n,
{
    if n > 0 {
        lemma_first_error_none(v, names, cells, (n - 1) as nat);
    }
}

proof fn lemma_first_error_stays(v: TableV, names: Seq<Seq<char>>, cells: Seq<CellV>, n: nat, m: nat)
    requires
        n <= m,
        first_error(v, names, cells, n) is Some,
    ensures
        first_error(v, names, cells, m) == first_error(v, names, cells, n),
    decreases m,
{
    if m > n {
        lemma_first_error_stays(v, names, cells, n, (m - 1) as nat);
    }
}

/// Whether right column `j` is carried into a join: its name is not a left
/// column and does not occur earlier on the right.
pub open spec fn keeps(l: Seq<Seq<char>>, r: Seq<Seq<char>>, j: int) -> bool {
    index_of(l, r[j]) < 0 && index_of(r, r[j]) == j
}

/// The right columns among the first `n` that a join carries, in order.
pub open spec fn carried_upto(l: Seq<Seq<char>>, r: Seq<Seq<char>>, n: nat) -> Seq<int>
    decreases n,
{
    if n == 0 {
        seq![]
    } else {
        let p = carried_upto(l, r, (n - 1) as nat);
        if keeps(l, r, n - 1) { p.push(n - 1) } else { p }
    }
}

pub open spec fn carried(l: Seq<Seq<char>>, r: Seq<Seq<char>>) -> Seq<int> {
    carried_upto(l, r, r.len())
}

/// The last of the first `n` rows whose entry at `ri` equals `e`, or -1.
pub open spec fn last_match(rows: Seq<Seq<Option<CellV>>>, ri: int, e: Option<CellV>, n: nat) -> int
    decreases n,
{
    if n == 0 {
        -1
    } else if rows[n - 1][ri] == e {
        n - 1
    } else {
        last_match(rows, ri, e, (n - 1) as nat)
    }
}

/// A left row extended with the carried entries of its last matching right
/// row, or with absent entries when no right row matches.
pub open spec fn joined_row(lrow: Seq<Option<CellV>>, li: int, rv: TableV, ri: int, cs: Seq<int>) -> Seq<Option<CellV>> {
    let m = last_match(rv.rows, ri, lrow[li], rv.rows.len());
    lrow + cs.map_values(|c: int| if m >= 0 { rv.rows[m][c] } else { None })
}

/// The left-outer equi-join of `lv` with `rv` on column `key`.
pub open spec fn joined(lv: TableV, rv: TableV, key: Seq<char>) -> TableV {
    let li = index_of(lv.cols, key);
    let ri = index_of(rv.cols, key);
    if li < 0 || ri < 0 {
        lv
    } else {
        let cs = carried(lv.cols, rv.cols);
        TableV {
            name: lv.name,
            cols: lv.cols + cs.map_values(|c: int| rv.cols[c]),
            kinds: lv.kinds + cs.map_values(|c: int| rv.kinds[c]),
            widths: lv.widths + cs.map_values(|c: int| rv.widths[c]),
            rows: lv.rows.map_values(|lrow: Seq<Option<CellV>>| joined_row(lrow, li, rv, ri, cs)),
        }
    }
}

proof fn lemma_carried(l: Seq<Seq<char>>, r: Seq<Seq<char>>, n: nat)
    ensures
        forall|i: int| 0 <= i < carried_upto(l, r, n).len() ==>
            0 <= #[trigger] carried_upto(l, r, n)[i] < n && keeps(l, r, carried_upto(l, r, n)[i]),
    decreases n,
{
    if n > 0 {
        lemma_carried(l, r, (n - 1) as nat);
        let p = carried_upto(l, r, (n - 1) as nat);
        assert forall|i: int| 0 <= i < carried_upto(l, r, n).len() implies
            0 <= #[trigger] carried_upto(l, r, n)[i] < n && keeps(l, r, carried_upto(l, r, n)[i]) by {
            if i < p.len() {
                assert(carried_upto(l, r, n)[i] == p[i]);
            }
        }
    }
}

pub open spec fn strs_of(cs: Seq<&str>) -> Seq<Seq<char>> {
    cs.map_values(|c: &str| c@)
}

/// The first of the first `n` names that `cols` does not declare, or -1.
pub open spec fn first_unknown(cols: Seq<Seq<char>>, names: Seq<Seq<char>>, n: nat) -> int
    decreases n,
{
    if n == 0 {
        -1
    } else {
        let p = first_unknown(cols, names, (n - 1) as nat);
        if p >= 0 {
            p
        } else if index_of(cols, names[n - 1]) < 0 {
            n - 1
        } else {
            -1
        }
    }
}

/// The projection of `v` onto `names`: each column taken from the first
/// source column of that name.
pub open spec fn projected(v: TableV, names: Seq<Seq<char>>) -> TableV {
    TableV {
        name: v.name,
        cols: names,
        kinds: Seq::new(names.len(), |j: int| v.kinds[index_of(v.cols, names[j])]),
        widths: Seq::new(names.len(), |j: int| v.widths[index_of(v.cols, names[j])]),
        rows: v.rows.map_values(|r: Seq<Option<CellV>>|
            Seq::new(names.len(), |j: int| r[index_of(v.cols, names[j])])),
    }
}

/// Whether an entry is an integer strictly below `num`.
pub open spec fn passes(e: Option<CellV>, num: i32) -> bool {
    match e {
        Some(CellV::Int(Some(n))) => n < num,
        _ => false,
    }
}

/// The rows among the first `n` whose entry at `k` passes, in order.
pub open spec fn kept_upto(rows: Seq<Seq<Option<CellV>>>, k: int, num: i32, n: nat) -> Seq<Seq<Option<CellV>>>
    decreases n,
{
    if n == 0 {
        seq![]
    } else {
        let p = kept_upto(rows, k, num, (n - 1) as nat);
        if passes(rows[n - 1][k], num) { p.push(rows[n - 1]) } else { p }
    }
}

/// `v` restricted to the rows whose entry under `c` is an integer below `num`.
pub open spec fn filtered(v: TableV, c: Seq<char>, num: i32) -> TableV {
    TableV {
        name: v.name,
        cols: v.cols,
        kinds: v.kinds,
        widths: v.widths,
        rows: kept_upto(v.rows, index_of(v.cols, c), num, v.rows.len()),
    }
}

proof fn lemma_first_unknown(cols: Seq<Seq<char>>, names: Seq<Seq<char>>, n: nat, m: nat)
    requires
        n <= m,
        first_unknown(cols, names, n) >= 0,
    ensures
        first_unknown(cols, names, m) == first_unknown(cols, names, n),
    decreases m,
{
    if m > n {
        lemma_first_unknown(cols, names, n, (m - 1) as nat);
    }
}

pub proof fn lemma_kept(rows: Seq<Seq<Option<CellV>>>, k: int, num: i32, n: nat)
    requires
        n <= rows.len(),
    ensures
        kept_upto(rows, k, num, n).len() <= n,
        forall|i: int| 0 <= i < kept_upto(rows, k, num, n).len() ==>
            exists|x: int| 0 <= x < n && #[trigger] kept_upto(rows, k, num, n)[i] == rows[x],
    decreases n,
{
    if n > 0 {
        lemma_kept(rows, k, num, (n - 1) as nat);
        let p = kept_upto(rows, k, num, (n - 1) as nat);
        assert forall|i: int| 0 <= i < kept_upto(rows, k, num, n).len() implies
            exists|x: int| 0 <= x < n && #[trigger] kept_upto(rows, k, num, n)[i] == rows[x] by {
            if i < p.len() {
                assert(kept_upto(rows, k, num, n)[i] == p[i]);
            } else {
                assert(kept_upto(rows, k, num, n)[i] == rows[n - 1]);
            }
        }
    }
}

proof fn lemma_last_match(rows: Seq<Seq<Option<CellV>>>, ri: int, e: Option<CellV>, n: nat)
    ensures
        -1 <= last_match(rows, ri, e, n) < n,
    decreases n,
{
    if n > 0 {
        lemma_last_match(rows, ri, e, (n - 1) as nat);
    }
}

proof fn lemma_joined_wf(lv: TableV, rv: TableV, key: Seq<char>)
    requires
        lv.wf(),
        rv.wf(),
    ensures
        joined(lv, rv, key).wf(),
{
    let li = index_of(lv.cols, key);
    let ri = index_of(rv.cols, key);
    if li >= 0 && ri >= 0 {
        let cs = carried(lv.cols, rv.cols);
        lemma_carried(lv.cols, rv.cols, rv.cols.len());
        let jv = joined(lv, rv, key);
        let n = lv.cols.len();
        assert forall|j: int| 0 <= j < jv.cols.len() implies jv.widths[j] >= text_len(#[trigger] jv.cols[j]) by {
            if j >= n {
                assert(jv.cols[j] == rv.cols[cs[j - n]]);
                assert(jv.widths[j] == rv.widths[cs[j - n]]);
            }
        }
        assert forall|i: int, j: int| 0 <= i < jv.cols.len() && 0 <= j < jv.cols.len()
            && #[trigger] jv.cols[i] == #[trigger] jv.cols[j] implies jv.kinds[i] == jv.kinds[j] by {
            if i >= n && j >= n {
                let ci = cs[i - n];
                let cj = cs[j - n];
                assert(jv.cols[i] == rv.cols[ci]);
                assert(jv.cols[j] == rv.cols[cj]);
                assert(keeps(lv.cols, rv.cols, ci));
                assert(keeps(lv.cols, rv.cols, cj));
                assert(ci == cj);
            } else if i >= n {
                let ci = cs[i - n];
                assert(keeps(lv.cols, rv.cols, ci));
                assert(jv.cols[i] == rv.cols[ci]);
                assert(lv.cols[j] == rv.cols[ci]);
            } else if j >= n {
                let cj = cs[j - n];
                assert(keeps(lv.cols, rv.cols, cj));
                assert(jv.cols[j] == rv.cols[cj]);
                assert(lv.cols[i] == rv.cols[cj]);
            }
        }
        assert forall|r: int| 0 <= r < jv.rows.len() implies (#[trigger] jv.rows[r]).len() == jv.cols.len() by {
            assert(jv.rows[r] == joined_row(lv.rows[r], li, rv, ri, cs));
        }
        assert forall|r: int, j: int| 0 <= r < jv.rows.len() && 0 <= j < jv.cols.len()
            implies entry_fits(#[trigger] jv.rows[r][j], jv.kinds[j], jv.widths[j]) by {
            let lrow = lv.rows[r];
            assert(jv.rows[r] == joined_row(lrow, li, rv, ri, cs));
            if j >= n {
                let m = last_match(rv.rows, ri, lrow[li], rv.rows.len());
                lemma_last_match(rv.rows, ri, lrow[li], rv.rows.len());
                let c = cs[j - n];
                assert(jv.kinds[j] == rv.kinds[c]);
                assert(jv.widths[j] == rv.widths[c]);
                if m >= 0 {
                    assert(jv.rows[r][j] == rv.rows[m][c]);
                } else {
                    assert(jv.rows[r][j] == None::<CellV>);
                }
            } else {
                assert(jv.rows[r][j] == lrow[j]);
            }
        }
    }
}

proof fn lemma_projected_wf(v: TableV, names: Seq<Seq<char>>)
    requires
        v.wf(),
        forall|j: int| 0 <= j < names.len() ==> 0 <= #[trigger] index_of(v.cols, names[j]),
    ensures
        projected(v, names).wf(),
{
    let pv = projected(v, names);
    assert forall|j: int| 0 <= j < pv.cols.len() implies pv.widths[j] >= text_len(#[trigger] pv.cols[j]) by {
        let k = index_of(v.cols, names[j]);
        assert(v.cols[k] == names[j]);
    }
    assert forall|i: int, j: int| 0 <= i < pv.cols.len() && 0 <= j < pv.cols.len()
        && #[trigger] pv.cols[i] == #[trigger] pv.cols[j] implies pv.kinds[i] == pv.kinds[j] by {}
    assert forall|r: int, j: int| 0 <= r < pv.rows.len() && 0 <= j < pv.cols.len()
        implies entry_fits(#[trigger] pv.rows[r][j], pv.kinds[j], pv.widths[j]) by {
        let k = index_of(v.cols, names[j]);
        assert(pv.rows[r][j] == v.rows[r][k]);
    }
}

fn copy_strs(v: &Vec<String>) -> (r: Vec<String>)
    ensures
        strs_view(r@) == strs_view(v@),
{
    let mut r: Vec<String> = Vec::new();
    let mut i: usize = 0;
    while i < v.len()
        invariant
            i <= v.len(),
            r@.len() == i,
            forall|k: int| 0 <= k < i ==> (#[trigger] r@[k])@ == v@[k]@,
        decreases v.len() - i,
    {
        r.push(v[i].clone());
        i = i + 1;
    }
    assert(strs_view(r@) =~= strs_view(v@));
    r
}

fn copy_vec<T: Copy>(v: &Vec<T>) -> (r: Vec<T>)
    ensures
        r@ == v@,
{
    let mut r: Vec<T> = Vec::new();
    let mut i: usize = 0;
    while i < v.len()
        invariant
            i <= v.len(),
            r@ == v@.subrange(0, i as int),
        decreases v.len() - i,
    {
        r.push(v[i]);
        i = i + 1;
        assert(r@ =~= v@.subrange(0, i as int));
    }
    assert(v@.subrange(0, i as int) =~= v@);
    r
}

fn copy_entry(e: &Option<Cell>) -> (r: Option<Cell>)
    ensures
        entry_view(r) == entry_view(*e),
{
    match e {
        Some(c) => Some(c.duplicate()),
        None => None,
    }
}

fn same_entry(a: &Option<Cell>, b: &Option<Cell>) -> (r: bool)
    ensures
        r == (entry_view(*a) == entry_view(*b)),
{
    match a {
        Some(x) => match b {
            Some(y) => x.same(y),
            None => false,
        },
        None => match b {
            Some(_) => false,
            None => true,
        },
    }
}

fn copy_row(v: &Vec<Option<Cell>>) -> (r: Vec<Option<Cell>>)
    ensures
        row_view(r) == row_view(*v),
{
    let mut r: Vec<Option<Cell>> = Vec::new();
    let mut i: usize = 0;
    while i < v.len()
        invariant
            i <= v.len(),
            r@.len() == i,
            forall|k: int| 0 <= k < i ==> entry_view(#[trigger] r@[k]) == entry_view(v@[k]),
        decreases v.len() - i,
    {
        r.push(copy_entry(&v[i]));
        i = i + 1;
    }
    assert(row_view(r) =~= row_view(*v));
    r
}

fn copy_rows(v: &Vec<Vec<Option<Cell>>>) -> (r: Vec<Vec<Option<Cell>>>)
    ensures
        r@.map_values(|x: Vec<Option<Cell>>| row_view(x)) == v@.map_values(|x: Vec<Option<Cell>>| row_view(x)),
{
    let mut r: Vec<Vec<Option<Cell>>> = Vec::new();
    let mut i: usize = 0;
    while i < v.len()
        invariant
            i <= v.len(),
            r@.len() == i,
            forall|k: int| 0 <= k < i ==> row_view(#[trigger] r@[k]) == row_view(v@[k]),
        decreases v.len() - i,
    {
        r.push(copy_row(&v[i]));
        i = i + 1;
    }
    assert(r@.map_values(|x: Vec<Option<Cell>>| row_view(x)) =~= v@.map_values(|x: Vec<Option<Cell>>| row_view(x)));
    r
}

impl Table {
    /// Creates an empty table with the given columns; a variant's payload is
    /// ignored. Fails when two columns share a name.
    pub fn new(name: &str, col: Vec<(&str, Cell)>) -> (r: Result<Table, TableError>)
        ensures
            r is Err <==> has_duplicate(pair_names(col@)),
            r matches Err(e) ==> exists|i: int, j: int|
                0 <= i < j < col@.len() && col@[i].0@ == col@[j].0@
                && e@ == ErrorV::SchemaError(col@[j].0@),
            r matches Ok(t) ==> t@ == created(name@, pair_names(col@), pair_cells(col@)) && t@.wf(),
    {
        let ghost names = pair_names(col@);
        let mut cols: Vec<String> = Vec::new();
        let mut kinds: Vec<Kind> = Vec::new();
        let mut widths: Vec<usize> = Vec::new();
        let mut i: usize = 0;
        while i < col.len()
            invariant
                i <= col.len(),
                names == pair_names(col@),
                strs_view(cols@) == names.subrange(0, i as int),
                kinds@ == pair_cells(col@).subrange(0, i as int).map_values(|c: CellV| kind_of(c)),
                widths@ == names.subrange(0, i as int).map_values(|c: Seq<char>| text_len(c) as usize),
                forall|a: int, b: int| 0 <= a < b < i ==> names[a] != names[b],
            decreases col.len() - i,
        {
            let n = col[i].0.to_owned();
            assert(names[i as int] == n@);
            match position(&cols, &n) {
                Some(k) => {
                    proof {
                        let cs = strs_view(cols@);
                        lemma_index_of(cs, n@);
                        assert(cs[k as int] == n@);
                        assert(cs[k as int] == names[k as int]);
                        assert(names[k as int] == names[i as int]);
                        assert(has_duplicate(names));
                    }
                    return Err(TableError::SchemaError(n));
                },
                None => {
                    proof {
                        let cs = strs_view(cols@);
                        lemma_index_of(cs, n@);
                        assert forall|a: int| 0 <= a < i implies names[a] != names[i as int] by {
                            assert(cs[a] == names[a]);
                        }
                    }
                },
            }
            let w = col[i].0.len();
            cols.push(n);
            kinds.push(col[i].1.kind());
            widths.push(w);
            i = i + 1;
            assert(strs_view(cols@) =~= names.subrange(0, i as int));
            assert(kinds@ =~= pair_cells(col@).subrange(0, i as int).map_values(|c: CellV| kind_of(c)));
            assert(widths@ =~= names.subrange(0, i as int).map_values(|c: Seq<char>| text_len(c) as usize));
        }
        assert(names.subrange(0, i as int) =~= names);
        assert(pair_cells(col@).subrange(0, i as int) =~= pair_cells(col@));
        let t = Table { name: name.to_owned(), cols, kinds, widths, rows: Vec::new() };
        assert(t@.rows =~= seq![]);
        Ok(t)
    }

    /// Appends a row given as bindings of column names to cells. Fails, with
    /// the table unchanged, at the first binding that names an undeclared
    /// column, carries another variant than its column, or repeats a name.
    pub fn insert(&mut self, data: Vec<(&str, Cell)>) -> (r: Result<(), TableError>)
        requires
            old(self)@.wf(),
        ensures
            final(self)@.wf(),
            r is Err <==> first_error(old(self)@, pair_names(data@), pair_cells(data@), data@.len()) is Some,
            r matches Err(e) ==> first_error(old(self)@, pair_names(data@), pair_cells(data@), data@.len()) == Some(e@)
                && final(self)@ == old(self)@,
            r is Ok ==> final(self)@ == inserted(old(self)@, pair_names(data@), pair_cells(data@)),
    {
        let ghost v = self@;
        let ghost pn = pair_names(data@);
        let ghost pc = pair_cells(data@);
        let mut names: Vec<String> = Vec::new();
        let mut i: usize = 0;
        while i < data.len()
            invariant
                i <= data.len(),
                pn == pair_names(data@),
                names@.len() == i,
                forall|k: int| 0 <= k < i ==> (#[trigger] names@[k])@ == pn[k],
            decreases data.len() - i,
        {
            let n = data[i].0.to_owned();
            assert(n@ == pn[i as int]);
            names.push(n);
            i = i + 1;
        }
        assert(strs_view(names@) =~= pn);
        let mut i: usize = 0;
        while i < data.len()
            invariant
                i <= data.len(),
                v == self@,
                v.wf(),
                pn == pair_names(data@),
                pc == pair_cells(data@),
                strs_view(names@) == pn,
                first_error(v, pn, pc, i as nat) is None,
            decreases data.len() - i,
        {
            assert(names@[i as int]@ == pn[i as int]);
            let k = match position(&self.cols, &names[i]) {
                None => {
                    proof { lemma_first_error_stays(v, pn, pc, (i + 1) as nat, data@.len()); }
                    return Err(TableError::UnknownColumn(names[i].clone()));
                },
                Some(k) => k,
            };
            let kind = data[i].1.kind();
            assert(kind == kind_of(pc[i as int]));
            if self.kinds[k] != kind {
                proof { lemma_first_error_stays(v, pn, pc, (i + 1) as nat, data@.len()); }
                return Err(TableError::TypeMismatch(names[i].clone(), self.kinds[k], kind));
            }
            match position(&names, &names[i]) {
                Some(j) => {
                    if j < i {
                        proof { lemma_first_error_stays(v, pn, pc, (i + 1) as nat, data@.len()); }
                        return Err(TableError::DuplicateBinding(names[i].clone()));
                    }
                },
                None => {},
            }
            i = i + 1;
        }
        proof { lemma_first_error_none(v, pn, pc, data@.len()); }
        let ghost row_s = inserted_row(v, pn, pc);
        let mut row: Vec<Option<Cell>> = Vec::new();
        let mut widths: Vec<usize> = Vec::new();
        let mut j: usize = 0;
        while j < self.cols.len()
            invariant
                j <= self.cols.len(),
                v == self@,
                v.wf(),
                pn == pair_names(data@),
                pc == pair_cells(data@),
                strs_view(names@) == pn,
                row_s == inserted_row(v, pn, pc),
                row@.len() == j,
                widths@.len() == j,
                forall|c: int| 0 <= c < j ==> entry_view(#[trigger] row@[c]) == row_s[c],
                forall|c: int| 0 <= c < j ==> #[trigger] widths@[c] == grown(v.widths[c], row_s[c]),
            decreases self.cols.len() - j,
        {
            assert(self.cols@[j as int]@ == v.cols[j as int]);
            match position(&names, &self.cols[j]) {
                Some(k) => {
                    let c = data[k].1.duplicate();
                    let w = c.width();
                    assert(c@ == pc[k as int]);
                    if w > self.widths[j] {
                        widths.push(w);
                    } else {
                        widths.push(self.widths[j]);
                    }
                    row.push(Some(c));
                },
                None => {
                    widths.push(self.widths[j]);
                    row.push(None);
                },
            }
            j = j + 1;
        }
        assert(row_view(row) =~= row_s);
        self.rows.push(row);
        self.widths = widths;
        proof {
            let nv = inserted(v, pn, pc);
            assert(self@.rows =~= nv.rows);
            assert(self@.widths =~= nv.widths);
            assert(self@ == nv);
            assert forall|c: int| 0 <= c < v.cols.len() implies entry_fits(#[trigger] row_s[c], v.kinds[c], nv.widths[c]) by {
                let k = index_of(pn, v.cols[c]);
                lemma_index_of(pn, v.cols[c]);
                if k >= 0 {
                    lemma_rendered_len_bound(row_s[c]);
                    assert(pair_error(v, pn, pc, k) is None);
                    let q = index_of(v.cols, pn[k]);
                    lemma_index_of(v.cols, pn[k]);
                    assert(v.cols[q] == v.cols[c]);
                }
            }
        }
        Ok(())
    }

    /// An independent copy of this table.
    pub fn copy(&self) -> (r: Table)
        ensures
            r@ == self@,
    {
        Table {
            name: self.name.clone(),
            cols: copy_strs(&self.cols),
            kinds: copy_vec(&self.kinds),
            widths: copy_vec(&self.widths),
            rows: copy_rows(&self.rows),
        }
    }

    /// Left-outer equi-join with `other` on column `key`: every row of this
    /// table, extended with the right-only columns of the last right row
    /// whose `key` entry equals its own. When `key` is not declared in both
    /// tables, a copy of this table.
    pub fn left_join(&self, other: &Table, key: &str) -> (r: Table)
        requires
            self@.wf(),
            other@.wf(),
        ensures
            r@ == joined(self@, other@, key@),
            r@.wf(),
    {
        let ghost lv = self@;
        let ghost rv = other@;
        let k = key.to_owned();
        let li = match position(&self.cols, &k) {
            Some(i) => i,
            None => return self.copy(),
        };
        let ri = match position(&other.cols, &k) {
            Some(i) => i,
            None => return self.copy(),
        };
        let ghost cs = carried(lv.cols, rv.cols);
        let mut picked: Vec<usize> = Vec::new();
        let mut cols = copy_strs(&self.cols);
        let mut kinds = copy_vec(&self.kinds);
        let mut widths = copy_vec(&self.widths);
        let mut j: usize = 0;
        while j < other.cols.len()
            invariant
                j <= other.cols.len(),
                lv == self@,
                rv == other@,
                lv.wf(),
                rv.wf(),
                picked@.len() == carried_upto(lv.cols, rv.cols, j as nat).len(),
                forall|i: int| 0 <= i < picked@.len() ==> #[trigger] picked@[i] as int == carried_upto(lv.cols, rv.cols, j as nat)[i],
                strs_view(cols@) == lv.cols + carried_upto(lv.cols, rv.cols, j as nat).map_values(|c: int| rv.cols[c]),
                kinds@ == lv.kinds + carried_upto(lv.cols, rv.cols, j as nat).map_values(|c: int| rv.kinds[c]),
                widths@ == lv.widths + carried_upto(lv.cols, rv.cols, j as nat).map_values(|c: int| rv.widths[c]),
            decreases other.cols.len() - j,
        {
            let ghost p = carried_upto(lv.cols, rv.cols, j as nat);
            let ghost old_cols = strs_view(cols@);
            assert(other.cols@[j as int]@ == rv.cols[j as int]);
            let fresh = match position(&self.cols, &other.cols[j]) {
                Some(_) => false,
                None => match position(&other.cols, &other.cols[j]) {
                    Some(q) => q == j,
                    None => false,
                },
            };
            if fresh {
                picked.push(j);
                cols.push(other.cols[j].clone());
                kinds.push(other.kinds[j]);
                widths.push(other.widths[j]);
            }
            j = j + 1;
            proof {
                let n = carried_upto(lv.cols, rv.cols, j as nat);
                if fresh {
                    assert(n == p.push(j - 1));
                    assert(strs_view(cols@) =~= old_cols.push(rv.cols[j - 1]));
                    assert(strs_view(cols@) =~= lv.cols + n.map_values(|c: int| rv.cols[c]));
                    assert(kinds@ =~= lv.kinds + n.map_values(|c: int| rv.kinds[c]));
                    assert(widths@ =~= lv.widths + n.map_values(|c: int| rv.widths[c]));
                } else {
                    assert(n == p);
                }
            }
        }
        proof { lemma_carried(lv.cols, rv.cols, rv.cols.len()); }
        let mut rows: Vec<Vec<Option<Cell>>> = Vec::new();
        let mut a: usize = 0;
        while a < self.rows.len()
            invariant
                a <= self.rows.len(),
                lv == self@,
                rv == other@,
                lv.wf(),
                rv.wf(),
                li == index_of(lv.cols, key@),
                ri == index_of(rv.cols, key@),
                0 <= li < lv.cols.len(),
                0 <= ri < rv.cols.len(),
                cs == carried(lv.cols, rv.cols),
                picked@.len() == cs.len(),
                forall|i: int| 0 <= i < picked@.len() ==> #[trigger] picked@[i] as int == cs[i],
                forall|i: int| 0 <= i < cs.len() ==> 0 <= #[trigger] cs[i] < rv.cols.len(),
                rows@.len() == a,
                forall|x: int| 0 <= x < a ==> row_view(#[trigger] rows@[x]) == joined_row(lv.rows[x], li as int, rv, ri as int, cs),
            decreases self.rows.len() - a,
        {
            let lrow = &self.rows[a];
            assert(row_view(*lrow) == lv.rows[a as int]);
            let ghost e = lv.rows[a as int][li as int];
            let mut m: Option<usize> = None;
            let mut b: usize = 0;
            while b < other.rows.len()
                invariant
                    b <= other.rows.len(),
                    a < self.rows.len(),
                    lv == self@,
                    rv == other@,
                    rv.wf(),
                    lv.wf(),
                    0 <= li < lv.cols.len(),
                    lrow == self.rows@[a as int],
                    row_view(*lrow) == lv.rows[a as int],
                    0 <= ri < rv.cols.len(),
                    e == lv.rows[a as int][li as int],
                    match m {
                        Some(x) => x as int == last_match(rv.rows, ri as int, e, b as nat) && x < b,
                        None => last_match(rv.rows, ri as int, e, b as nat) == -1,
                    },
                decreases other.rows.len() - b,
            {
                assert(row_view(other.rows@[b as int]) == rv.rows[b as int]);
                assert(entry_view(lrow@[li as int]) == e);
                assert(entry_view(other.rows@[b as int]@[ri as int]) == rv.rows[b as int][ri as int]);
                if same_entry(&other.rows[b][ri], &lrow[li]) {
                    m = Some(b);
                }
                b = b + 1;
            }
            let mut out = copy_row(lrow);
            let ghost lr = row_view(out);
            let mut c: usize = 0;
            while c < picked.len()
                invariant
                    c <= picked.len(),
                    a < self.rows.len(),
                    lv == self@,
                    rv == other@,
                    rv.wf(),
                    cs == carried(lv.cols, rv.cols),
                    picked@.len() == cs.len(),
                    forall|i: int| 0 <= i < picked@.len() ==> #[trigger] picked@[i] as int == cs[i],
                    forall|i: int| 0 <= i < cs.len() ==> 0 <= #[trigger] cs[i] < rv.cols.len(),
                    match m {
                        Some(x) => x < rv.rows.len(),
                        None => true,
                    },
                    row_view(out).len() == lr.len() + c,
                    forall|i: int| 0 <= i < lr.len() ==> #[trigger] row_view(out)[i] == lr[i],
                    forall|i: int| 0 <= i < c ==> #[trigger] row_view(out)[lr.len() + i] == (match m {
                        Some(x) => rv.rows[x as int][cs[i]],
                        None => None,
                    }),
                decreases picked.len() - c,
            {
                let ghost before = row_view(out);
                let entry = match m {
                    Some(x) => {
                        assert(row_view(other.rows@[x as int]) == rv.rows[x as int]);
                        copy_entry(&other.rows[x][picked[c]])
                    },
                    None => None,
                };
                out.push(entry);
                c = c + 1;
                assert(row_view(out) =~= before.push(entry_view(entry)));
            }
            proof {
                let want = joined_row(lv.rows[a as int], li as int, rv, ri as int, cs);
                let mm = last_match(rv.rows, ri as int, e, rv.rows.len());
                let tail = cs.map_values(|c: int| if mm >= 0 { rv.rows[mm][c] } else { None });
                assert(want == lr + tail);
                assert(b == rv.rows.len());
                match m {
                    Some(x) => assert(mm == x),
                    None => assert(mm == -1),
                }
                assert(tail.len() == c);
                assert(lr == lv.rows[a as int]);
                assert(row_view(out).len() == want.len());
                assert forall|i: int| 0 <= i < lr.len() implies #[trigger] row_view(out)[i] == want[i] by {}
                assert forall|i: int| 0 <= i < tail.len() implies #[trigger] row_view(out)[lr.len() + i] == tail[i] by {
                    assert(row_view(out)[lr.len() + i] == (match m {
                        Some(x) => rv.rows[x as int][cs[i]],
                        None => None,
                    }));
                }
                assert forall|k: int| 0 <= k < want.len() implies #[trigger] row_view(out)[k] == want[k] by {
                    if k >= lr.len() {
                        let i = k - lr.len();
                        assert(row_view(out)[lr.len() + i] == tail[i]);
                        assert(want[k] == tail[i]);
                    }
                }
                assert(row_view(out) =~= want);
            }
            rows.push(out);
            a = a + 1;
        }
        let t = Table { name: self.name.clone(), cols, kinds, widths, rows };
        proof {
            lemma_carried(lv.cols, rv.cols, rv.cols.len());
            let jv = joined(lv, rv, key@);
            lemma_joined_wf(lv, rv, key@);
            assert(t@.rows =~= jv.rows);
            assert(t@ == jv);
        }
        t
    }

    /// Projection onto `cols`, in that order, duplicates allowed. Fails at
    /// the first name that is not declared.
    pub fn select(&self, cols: Vec<&str>) -> (r: Result<Table, TableError>)
        requires
            self@.wf(),
        ensures
            r is Err <==> first_unknown(self@.cols, strs_of(cols@), cols@.len()) >= 0,
            r matches Err(e) ==> e@ == ErrorV::UnknownColumn(
                strs_of(cols@)[first_unknown(self@.cols, strs_of(cols@), cols@.len())]),
            r matches Ok(t) ==> t@ == projected(self@, strs_of(cols@)) && t@.wf(),
    {
        let ghost v = self@;
        let ghost names = strs_of(cols@);
        let mut ix: Vec<usize> = Vec::new();
        let mut new_cols: Vec<String> = Vec::new();
        let mut kinds: Vec<Kind> = Vec::new();
        let mut widths: Vec<usize> = Vec::new();
        let mut i: usize = 0;
        while i < cols.len()
            invariant
                i <= cols.len(),
                v == self@,
                v.wf(),
                names == strs_of(cols@),
                first_unknown(v.cols, names, i as nat) == -1,
                ix@.len() == i,
                new_cols@.len() == i,
                kinds@.len() == i,
                widths@.len() == i,
                forall|j: int| 0 <= j < i ==> #[trigger] ix@[j] as int == index_of(v.cols, names[j]),
                forall|j: int| 0 <= j < i ==> (#[trigger] new_cols@[j])@ == names[j],
                forall|j: int| 0 <= j < i ==> #[trigger] kinds@[j] == v.kinds[index_of(v.cols, names[j])],
                forall|j: int| 0 <= j < i ==> #[trigger] widths@[j] == v.widths[index_of(v.cols, names[j])],
            decreases cols.len() - i,
        {
            let n = cols[i].to_owned();
            assert(n@ == names[i as int]);
            let k = match position(&self.cols, &n) {
                Some(k) => k,
                None => {
                    proof { lemma_first_unknown(v.cols, names, (i + 1) as nat, cols@.len()); }
                    return Err(TableError::UnknownColumn(n));
                },
            };
            ix.push(k);
            new_cols.push(n);
            kinds.push(self.kinds[k]);
            widths.push(self.widths[k]);
            i = i + 1;
        }
        assert forall|j: int| 0 <= j < names.len() implies 0 <= #[trigger] index_of(v.cols, names[j]) by {
            assert(ix@[j] as int == index_of(v.cols, names[j]));
        }
        let mut rows: Vec<Vec<Option<Cell>>> = Vec::new();
        let mut a: usize = 0;
        while a < self.rows.len()
            invariant
                a <= self.rows.len(),
                v == self@,
                v.wf(),
                names == strs_of(cols@),
                ix@.len() == names.len(),
                forall|j: int| 0 <= j < names.len() ==> #[trigger] ix@[j] as int == index_of(v.cols, names[j]),
                forall|j: int| 0 <= j < names.len() ==> 0 <= #[trigger] index_of(v.cols, names[j]),
                rows@.len() == a,
                forall|x: int| 0 <= x < a ==> row_view(#[trigger] rows@[x])
                    == Seq::new(names.len(), |j: int| v.rows[x][index_of(v.cols, names[j])]),
            decreases self.rows.len() - a,
        {
            let src = &self.rows[a];
            assert(row_view(*src) == v.rows[a as int]);
            let ghost want = Seq::new(names.len(), |j: int| v.rows[a as int][index_of(v.cols, names[j])]);
            let mut out: Vec<Option<Cell>> = Vec::new();
            let mut j: usize = 0;
            while j < ix.len()
                invariant
                    j <= ix.len(),
                    a < self.rows.len(),
                    v == self@,
                    v.wf(),
                    src == self.rows@[a as int],
                    row_view(*src) == v.rows[a as int],
                    ix@.len() == names.len(),
                    forall|q: int| 0 <= q < names.len() ==> #[trigger] ix@[q] as int == index_of(v.cols, names[q]),
                    forall|q: int| 0 <= q < names.len() ==> 0 <= #[trigger] index_of(v.cols, names[q]),
                    want == Seq::new(names.len(), |q: int| v.rows[a as int][index_of(v.cols, names[q])]),
                    out@.len() == j,
                    forall|q: int| 0 <= q < j ==> entry_view(#[trigger] out@[q]) == want[q],
                decreases ix.len() - j,
            {
                assert(entry_view(src@[ix@[j as int] as int]) == want[j as int]);
                out.push(copy_entry(&src[ix[j]]));
                j = j + 1;
            }
            assert(row_view(out) =~= want);
            rows.push(out);
            a = a + 1;
        }
        let t = Table { name: self.name.clone(), cols: new_cols, kinds, widths, rows };
        proof {
            let pv = projected(v, names);
            assert(t@.cols =~= names);
            assert(t@.kinds =~= pv.kinds);
            assert(t@.widths =~= pv.widths);
            assert(t@.rows =~= pv.rows);
            assert(t@ == pv);
            lemma_projected_wf(v, names);
        }
        Ok(t)
    }

    /// The rows whose entry under `col` is an integer strictly below `num`,
    /// in their order; absent entries and nulls never pass. Fails when `col`
    /// is not declared.
    pub fn less_than(&self, col: &str, num: i32) -> (r: Result<Table, TableError>)
        requires
            self@.wf(),
        ensures
            r is Err <==> index_of(self@.cols, col@) < 0,
            r matches Err(e) ==> e@ == ErrorV::UnknownColumn(col@),
            r matches Ok(t) ==> t@ == filtered(self@, col@, num) && t@.wf(),
    {
        let ghost v = self@;
        let n = col.to_owned();
        let k = match position(&self.cols, &n) {
            Some(k) => k,
            None => return Err(TableError::UnknownColumn(n)),
        };
        let mut rows: Vec<Vec<Option<Cell>>> = Vec::new();
        let mut a: usize = 0;
        while a < self.rows.len()
            invariant
                a <= self.rows.len(),
                v == self@,
                v.wf(),
                k as int == index_of(v.cols, col@),
                0 <= k < v.cols.len(),
                rows@.map_values(|x: Vec<Option<Cell>>| row_view(x)) == kept_upto(v.rows, k as int, num, a as nat),
            decreases self.rows.len() - a,
        {
            let ghost before = rows@.map_values(|x: Vec<Option<Cell>>| row_view(x));
            let src = &self.rows[a];
            assert(row_view(*src) == v.rows[a as int]);
            assert(entry_view(src@[k as int]) == v.rows[a as int][k as int]);
            let keep = match &src[k] {
                Some(Cell::Int(Some(x))) => *x < num,
                _ => false,
            };
            if keep {
                let copy = copy_row(src);
                rows.push(copy);
                assert(rows@.map_values(|x: Vec<Option<Cell>>| row_view(x)) =~= before.push(v.rows[a as int]));
            }
            a = a + 1;
        }
        let t = Table {
            name: self.name.clone(),
            cols: copy_strs(&self.cols),
            kinds: copy_vec(&self.kinds),
            widths: copy_vec(&self.widths),
            rows,
        };
        proof {
            let fv = filtered(v, col@, num);
            assert(t@ == fv);
            lemma_kept(v.rows, k as int, num, v.rows.len());
            assert forall|r: int, j: int| 0 <= r < fv.rows.len() && 0 <= j < fv.cols.len()
                implies entry_fits(#[trigger] fv.rows[r][j], fv.kinds[j], fv.widths[j]) by {
                let x = choose|x: int| 0 <= x < v.rows.len() && fv.rows[r] == v.rows[x];
                assert(fv.rows[r][j] == v.rows[x][j]);
            }
            assert forall|r: int| 0 <= r < fv.rows.len() implies (#[trigger] fv.rows[r]).len() == fv.cols.len() by {
                let x = choose|x: int| 0 <= x < v.rows.len() && fv.rows[r] == v.rows[x];
                assert(fv.rows[r] == v.rows[x]);
            }
        }
        Ok(t)
    }

    /// The table as an ASCII box: a separator, the header, a separator, one
    /// line per row, and a closing separator.
    pub fn render(&self) -> (r: String)
        requires
            self@.wf(),
        ensures
            r@ == rendering(self@.cols, self@.widths, self@.rows),
    {
        let ghost v = self@;
        let mut out = String::new();
        push_sep(&mut out, &self.widths);
        push_header(&mut out, &self.cols, &self.widths);
        push_sep(&mut out, &self.widths);
        let ghost head = out@;
        assert(head =~= sep_line(v.widths) + header_line(v.cols, v.widths) + sep_line(v.widths));
        let mut a: usize = 0;
        while a < self.rows.len()
            invariant
                a <= self.rows.len(),
                v == self@,
                v.wf(),
                out@ == head + body(v.rows, v.widths, a as nat),
            decreases self.rows.len() - a,
        {
            assert(row_view(self.rows@[a as int]) == v.rows[a as int]);
            push_row(&mut out, &self.rows[a], &self.widths);
            a = a + 1;
            assert(out@ =~= head + body(v.rows, v.widths, a as nat));
        }
        push_sep(&mut out, &self.widths);
        assert(out@ =~= rendering(v.cols, v.widths, v.rows));
        out
    }

    /// The number of stored rows.
    pub fn row_count(&self) -> (r: usize)
        ensures
            r == self@.rows.len(),
    {
        self.rows.len()
    }

    /// The column names, in schema order.
    pub fn columns(&self) -> (r: Vec<String>)
        ensures
            strs_view(r@) == self@.cols,
    {
        copy_strs(&self.cols)
    }

    /// The width of column `col`, or `None` when it is not declared.
    pub fn width(&self, col: &str) -> (r: Option<usize>)
        requires
            self@.wf(),
        ensures
            r is None <==> index_of(self@.cols, col@) < 0,
            r matches Some(w) ==> w == self@.widths[index_of(self@.cols, col@)],
    {
        let n = col.to_owned();
        match position(&self.cols, &n) {
            Some(k) => {
                Some(self.widths[k])
            },
            None => None,
        }
    }

    /// A copy of the entry of row `row` under column `col`: `None` when the
    /// row does not exist, the column is not declared, or the entry is absent.
    pub fn get(&self, row: usize, col: &str) -> (r: Option<Cell>)
        requires
            self@.wf(),
        ensures
            row >= self@.rows.len() || index_of(self@.cols, col@) < 0 ==> r is None,
            row < self@.rows.len() && index_of(self@.cols, col@) >= 0
                ==> entry_view(r) == self@.rows[row as int][index_of(self@.cols, col@)],
    {
        if row >= self.rows.len() {
            return None;
        }
        let n = col.to_owned();
        match position(&self.cols, &n) {
            Some(k) => {
                assert(row_view(self.rows@[row as int]) == self@.rows[row as int]);
                copy_entry(&self.rows[row][k])
            },
            None => None,
        }
    }
}

} // verus!
