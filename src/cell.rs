use vstd::prelude::*;
use vstd::utf8::encode_utf8;

verus! {

/// The variant a column declares: every cell stored under it has this variant.
#[derive(Clone, Copy, Debug, PartialEq, Eq, Structural)]
pub enum Kind {
    Int,
    Text,
}

/// A typed, possibly-null value stored at a row and a column.
#[derive(Debug)]
pub enum Cell {
    Int(Option<i32>),
    Text(Option<String>),
}

/// The mathematical value of a cell: texts are seen as their characters.
pub enum CellV {
    Int(Option<i32>),
    Text(Option<Seq<char>>),
}

impl View for Cell {
    type V = CellV;

    open spec fn view(&self) -> CellV {
        match self {
            Cell::Int(v) => CellV::Int(*v),
            Cell::Text(None) => CellV::Text(None),
            Cell::Text(Some(s)) => CellV::Text(Some(s@)),
        }
    }
}

pub open spec fn kind_of(c: CellV) -> Kind {
    match c {
        CellV::Int(_) => Kind::Int,
        CellV::Text(_) => Kind::Text,
    }
}

/// Number of UTF-8 bytes of a text, as `str::len` reports it.
pub open spec fn text_len(s: Seq<char>) -> nat {
    (encode_utf8(s).len() as usize) as nat
}

pub open spec fn digit_char(d: nat) -> char {
    if d == 0 { '0' }
    else if d == 1 { '1' }
    else if d == 2 { '2' }
    else if d == 3 { '3' }
    else if d == 4 { '4' }
    else if d == 5 { '5' }
    else if d == 6 { '6' }
    else if d == 7 { '7' }
    else if d == 8 { '8' }
    else { '9' }
}

/// Decimal digits of `n`, most significant first, with no leading zero.
pub open spec fn nat_digits(n: nat) -> Seq<char>
    decreases n,
{
    if n < 10 {
        seq![digit_char(n)]
    } else {
        nat_digits(n / 10).push(digit_char(n % 10))
    }
}

/// Decimal representation of an integer, with a leading `-` when negative.
pub open spec fn int_text(i: int) -> Seq<char> {
    if i < 0 {
        seq!['-'] + nat_digits((-i) as nat)
    } else {
        nat_digits(i as nat)
    }
}

/// The number of characters the formatter emits for a stored entry.
pub open spec fn rendered_len(c: Option<CellV>) -> nat {
    match c {
        Some(CellV::Int(Some(n))) => int_text(n as int).len(),
        Some(CellV::Text(Some(s))) => text_len(s),
        _ => 4,
    }
}

/// Number of characters in the decimal representation of `i`.
pub fn i32_len(i: i32) -> (r: usize)
    ensures
        r == int_text(i as int).len(),
{
    let m0: u32 = if i < 0 { (-(i as i64)) as u32 } else { i as u32 };
    proof {
        reveal_with_fuel(pow10, 11);
        lemma_digits_bound(m0 as nat, 10);
    }
    let mut m: u32 = m0;
    let mut len: usize = 1;
    while m >= 10
        invariant
            1 <= len,
            nat_digits(m0 as nat).len() == nat_digits(m as nat).len() + len - 1,
            nat_digits(m0 as nat).len() <= 10,
        decreases m,
    {
        m = m / 10;
        len = len + 1;
    }
    if i < 0 {
        len + 1
    } else {
        len
    }
}

/// Every rendered length fits in a `usize`.
pub proof fn lemma_rendered_len_bound(e: Option<CellV>)
    ensures
        rendered_len(e) <= usize::MAX,
{
    match e {
        Some(CellV::Int(Some(n))) => {
            reveal_with_fuel(pow10, 11);
            let m: int = if n < 0 { -(n as int) } else { n as int };
            lemma_digits_bound(m as nat, 10);
        },
        _ => {},
    }
}

pub open spec fn pow10(k: nat) -> nat
    decreases k,
{
    if k == 0 { 1 } else { 10 * pow10((k - 1) as nat) }
}

proof fn lemma_digits_bound(n: nat, k: nat)
    requires
        k >= 1,
        n < pow10(k),
    ensures
        nat_digits(n).len() <= k,
    decreases k,
{
    if n >= 10 {
        if k == 1 {
            assert(pow10(1) == 10) by { reveal_with_fuel(pow10, 2); }
        }
        assert(n / 10 < pow10((k - 1) as nat)) by (nonlinear_arith)
            requires n < 10 * pow10((k - 1) as nat);
        lemma_digits_bound(n / 10, (k - 1) as nat);
    }
}

impl Cell {
    /// The variant of this cell.
    pub fn kind(&self) -> (r: Kind)
        ensures
            r == kind_of(self@),
    {
        match self {
            Cell::Int(_) => Kind::Int,
            Cell::Text(_) => Kind::Text,
        }
    }

    /// An independent copy of this cell.
    pub fn duplicate(&self) -> (r: Cell)
        ensures
            r@ == self@,
    {
        match self {
            Cell::Int(v) => Cell::Int(*v),
            Cell::Text(None) => Cell::Text(None),
            Cell::Text(Some(s)) => Cell::Text(Some(s.clone())),
        }
    }

    /// The number of characters the formatter emits for this cell.
    pub fn width(&self) -> (r: usize)
        ensures
            r == rendered_len(Some(self@)),
    {
        match self {
            Cell::Int(Some(n)) => i32_len(*n),
            Cell::Text(Some(s)) => s.as_str().len(),
            _ => 4,
        }
    }

    /// Cell equality: same variant, and both null or equal payloads.
    pub fn same(&self, other: &Cell) -> (r: bool)
        ensures
            r == (self@ == other@),
    {
        match self {
            Cell::Int(a) => match other {
                Cell::Int(b) => match a {
                    Some(x) => match b {
                        Some(y) => *x == *y,
                        None => false,
                    },
                    None => match b {
                        Some(_) => false,
                        None => true,
                    },
                },
                Cell::Text(_) => false,
            },
            Cell::Text(a) => match other {
                Cell::Text(b) => match a {
                    Some(x) => match b {
                        Some(y) => *x == *y,
                        None => false,
                    },
                    None => match b {
                        Some(_) => false,
                        None => true,
                    },
                },
                Cell::Int(_) => false,
            },
        }
    }
}

} // verus!
