use itertools::Itertools;
use vstd::prelude::*;

verus! {

/// The state of a cell of a parsed board.
#[derive(Debug, Clone, Copy, PartialEq, Eq, Structural)]
pub enum CellKind {
    Bomb,
    Safe,
}

/// The state of a cell of a revealed board: a bomb, or a safe cell with the
/// number of bombs among its neighbours.
#[derive(Debug, Clone, Copy, PartialEq, Eq, Structural)]
pub enum OpenCellKind {
    Bomb,
    Safe(usize),
}

/// A coordinate on a board: column first, then row.
#[derive(Debug, Clone, Copy, PartialEq, Eq, Structural)]
pub struct Cell(pub usize, pub usize);

/// The lower end of a neighbourhood along one axis: one less, but never below zero.
pub open spec fn lower(v: int) -> int {
    if v == 0 {
        0
    } else {
        v - 1
    }
}

/// Every pair `(a, b)` with `a` in `a_start..a_end` and `b` in `b_start..b_end`,
/// `a` in the outer position, both ascending.
pub open spec fn range_product(a_start: int, a_end: int, b_start: int, b_end: int) -> Seq<(usize, usize)> {
    let w = b_end - b_start;
    Seq::new(
        ((a_end - a_start) * w) as nat,
        |i: int| ((a_start + i / w) as usize, (b_start + i % w) as usize),
    )
}

/// The 3x3 block around `c`, cut at zero, in row-major order.
pub open spec fn candidates(c: Cell) -> Seq<Cell> {
    range_product(lower(c.1 as int), c.1 + 2, lower(c.0 as int), c.0 + 2).map_values(
        |p: (usize, usize)| Cell(p.1, p.0),
    )
}

/// Holds of every cell but `c`.
pub open spec fn other_than(c: Cell) -> spec_fn(Cell) -> bool {
    |d: Cell| d != c
}

/// The neighbours of `c`: the block around it, without `c` itself.
pub open spec fn neighbors(c: Cell) -> Seq<Cell> {
    candidates(c).filter(other_than(c))
}

/// Relies on itertools' `Itertools::cartesian_product`: over two ranges it
/// yields every pair, the first range in the outer position, both ascending.
#[verifier::external_body]
fn product(a_start: usize, a_end: usize, b_start: usize, b_end: usize) -> (r: Vec<(usize, usize)>)
    requires
        a_start <= a_end,
        b_start <= b_end,
    ensures
        r@ == range_product(a_start as int, a_end as int, b_start as int, b_end as int),
{
    (a_start..a_end).cartesian_product(b_start..b_end).collect()
}

impl Cell {
    /// The neighbours of this cell in row-major order. Only the lower end is
    /// cut at zero: cutting at the board's far edges is left to the caller.
    pub fn adjacent(&self) -> (r: Vec<Cell>)
        requires
            self.0 < usize::MAX - 1,
            self.1 < usize::MAX - 1,
        ensures
            r@ == neighbors(*self),
    {
        let x_start = match self.0.checked_sub(1) {
            Some(v) => v,
            None => 0,
        };
        let y_start = match self.1.checked_sub(1) {
            Some(v) => v,
            None => 0,
        };
        let pairs = product(y_start, self.1 + 2, x_start, self.0 + 2);
        let ghost all = candidates(*self);
        assert(all.len() == pairs@.len());
        let mut cells: Vec<Cell> = Vec::new();
        let mut i: usize = 0;
        while i < pairs.len()
            invariant
                i <= pairs@.len(),
                all.len() == pairs@.len(),
                all == pairs@.map_values(|p: (usize, usize)| Cell(p.1, p.0)),
                cells@ == all.take(i as int).filter(other_than(*self)),
            decreases pairs@.len() - i,
        {
            let (y, x) = pairs[i];
            let c = Cell(x, y);
            proof {
                reveal(Seq::filter);
                assert(all.take(i + 1).drop_last() =~= all.take(i as int));
                assert(all.take(i + 1).last() == c);
            }
            if c != *self {
                cells.push(c);
            }
            i += 1;
        }
        proof {
            assert(all.take(i as int) =~= all);
        }
        cells
    }
}

/// The decimal digit of `d`.
pub open spec fn digit(d: nat) -> char {
    seq!['0', '1', '2', '3', '4', '5', '6', '7', '8', '9'][d as int]
}

/// The decimal representation of `n`, without leading zeros.
pub open spec fn decimal(n: nat) -> Seq<char>
    decreases n,
{
    if n < 10 {
        seq![digit(n)]
    } else {
        decimal(n / 10).push(digit(n % 10))
    }
}

/// The text of a revealed cell: `X` for a bomb, else its count in decimal.
pub open spec fn cell_text(c: OpenCellKind) -> Seq<char> {
    match c {
        OpenCellKind::Bomb => seq!['X'],
        OpenCellKind::Safe(n) => decimal(n as nat),
    }
}

/// The one-character text of a decimal digit.
fn digit_str(d: usize) -> (r: &'static str)
    requires
        d < 10,
    ensures
        r@ == seq![digit(d as nat)],
{
    proof {
        reveal_strlit("0");
        reveal_strlit("1");
        reveal_strlit("2");
        reveal_strlit("3");
        reveal_strlit("4");
        reveal_strlit("5");
        reveal_strlit("6");
        reveal_strlit("7");
        reveal_strlit("8");
        reveal_strlit("9");
    }
    let r = if d == 0 {
        "0"
    } else if d == 1 {
        "1"
    } else if d == 2 {
        "2"
    } else if d == 3 {
        "3"
    } else if d == 4 {
        "4"
    } else if d == 5 {
        "5"
    } else if d == 6 {
        "6"
    } else if d == 7 {
        "7"
    } else if d == 8 {
        "8"
    } else {
        "9"
    };
    assert(r@ =~= seq![digit(d as nat)]);
    r
}

/// Appends the decimal representation of `n` to `out`.
fn push_decimal(out: &mut String, n: usize)
    ensures
        final(out)@ == old(out)@ + decimal(n as nat),
    decreases n,
{
    if n >= 10 {
        push_decimal(out, n / 10);
    }
    out.append(digit_str(n % 10));
    proof {
        if n >= 10 {
            assert(old(out)@ + decimal(n as nat) =~= old(out)@ + decimal((n / 10) as nat) + seq![
                digit((n % 10) as nat),
            ]);
        } else {
            assert(old(out)@ + decimal(n as nat) =~= old(out)@ + seq![digit((n % 10) as nat)]);
        }
    }
}

impl OpenCellKind {
    /// Appends the text of this cell to `out`.
    pub fn push_text(&self, out: &mut String)
        ensures
            final(out)@ == old(out)@ + cell_text(*self),
    {
        match self {
            OpenCellKind::Bomb => {
                proof {
                    reveal_strlit("X");
                }
                out.append("X");
            },
            OpenCellKind::Safe(n) => push_decimal(out, *n),
        }
    }

    /// The text of this cell: `X` for a bomb, else its count in decimal.
    pub fn to_string(&self) -> (r: String)
        ensures
            r@ == cell_text(*self),
    {
        let mut out = String::new();
        self.push_text(&mut out);
        assert(out@ =~= cell_text(*self));
        out
    }
}

} // verus!
