use crate::cell::{candidates, cell_text, lower, neighbors, other_than, Cell, CellKind, OpenCellKind};
use crate::text::{chars_of, lines, split, split_lines, split_on, texts, trim, trimmed};
use vstd::arithmetic::div_mod::lemma_fundamental_div_mod_converse;
use vstd::prelude::*;

verus! {

/// Why a board text was refused.
#[derive(Debug, Clone, Copy, PartialEq, Eq, Structural)]
pub enum ParseError {
    /// A token of the given line (counted from zero) is neither `X` nor `O`.
    MalformedToken { line: usize },
    /// The given line (counted from zero) does not hold as many cells as the
    /// text has lines.
    RaggedRow { line: usize },
}

/// A square grid of cells, stored row by row.
#[derive(Debug)]
pub struct GameField<T> {
    size: usize,
    cells: Vec<T>,
}

/// A parsed board.
pub type Field = GameField<CellKind>;

/// A revealed board.
pub type OpenField = GameField<OpenCellKind>;

impl<T> GameField<T> {
    /// The board holds `size` rows of `size` cells.
    pub closed spec fn wf(&self) -> bool {
        self.cells@.len() == self.size * self.size
    }

    /// The side length of the board.
    pub closed spec fn spec_size(&self) -> nat {
        self.size as nat
    }

    /// The cells of the board, row by row.
    pub closed spec fn spec_cells(&self) -> Seq<T> {
        self.cells@
    }

    /// The side length of the board.
    pub fn size(&self) -> (r: usize)
        ensures
            r == self.spec_size(),
    {
        self.size
    }

    /// The cells of the board, row by row.
    pub fn cells(&self) -> (r: &Vec<T>)
        ensures
            r@ == self.spec_cells(),
    {
        &self.cells
    }
}

/// The cell that a token stands for, if any.
pub open spec fn token_cell(tok: Seq<char>) -> Option<CellKind> {
    if tok == seq!['X'] {
        Some(CellKind::Bomb)
    } else if tok == seq!['O'] {
        Some(CellKind::Safe)
    } else {
        None
    }
}

/// The cells of a row's tokens, up to the first empty token; `None` where one
/// of them is neither `X` nor `O`.
pub open spec fn token_cells(toks: Seq<Seq<char>>) -> Option<Seq<CellKind>>
    decreases toks.len(),
{
    if toks.len() == 0 || toks[0].len() == 0 {
        Some(Seq::empty())
    } else {
        match token_cell(toks[0]) {
            None => None,
            Some(c) => match token_cells(toks.drop_first()) {
                None => None,
                Some(r) => Some(seq![c] + r),
            },
        }
    }
}

/// The cells of one line of a board text: its tokens, after trimming, are
/// separated by single spaces.
pub open spec fn row_cells(line: Seq<char>) -> Option<Seq<CellKind>> {
    token_cells(split(trim(line), ' '))
}

/// The cells of `rows`, each of which must hold `size` of them; or the first
/// fault, line by line.
pub open spec fn parse_rows(rows: Seq<Seq<char>>, size: nat) -> Result<Seq<CellKind>, ParseError>
    decreases rows.len(),
{
    if rows.len() == 0 {
        Ok(Seq::empty())
    } else {
        match parse_rows(rows.drop_last(), size) {
            Err(e) => Err(e),
            Ok(done) => match row_cells(rows.last()) {
                None => Err(ParseError::MalformedToken { line: (rows.len() - 1) as usize }),
                Some(r) => if r.len() == size {
                    Ok(done + r)
                } else {
                    Err(ParseError::RaggedRow { line: (rows.len() - 1) as usize })
                },
            },
        }
    }
}

/// What parsing `text` gives: as many rows as the text has lines.
pub open spec fn parse_text(text: Seq<char>) -> Result<Seq<CellKind>, ParseError> {
    parse_rows(lines(text), lines(text).len())
}

/// Puts `acc` in front of the cells of `rest`, if there are any.
pub open spec fn prepend(acc: Seq<CellKind>, rest: Option<Seq<CellKind>>) -> Option<Seq<CellKind>> {
    match rest {
        None => None,
        Some(r) => Some(acc + r),
    }
}

/// A fault in the first `n` rows is the fault of all of them.
proof fn lemma_fault_stays(rows: Seq<Seq<char>>, size: nat, n: int)
    requires
        0 <= n <= rows.len(),
        parse_rows(rows.take(n), size) is Err,
    ensures
        parse_rows(rows, size) == parse_rows(rows.take(n), size),
    decreases rows.len() - n,
{
    if n < rows.len() {
        assert(rows.take(n + 1).drop_last() =~= rows.take(n));
        lemma_fault_stays(rows, size, n + 1);
    } else {
        assert(rows.take(n) =~= rows);
    }
}

/// The cell of a token, if it is `X` or `O`.
fn cell_of_token(tok: &Vec<char>) -> (r: Option<CellKind>)
    ensures
        r == token_cell(tok@),
{
    if tok.len() == 1 && tok[0] == 'X' {
        assert(tok@ =~= seq!['X']);
        Some(CellKind::Bomb)
    } else if tok.len() == 1 && tok[0] == 'O' {
        assert(tok@ =~= seq!['O']);
        Some(CellKind::Safe)
    } else {
        assert(tok@ != seq!['X']) by {
            if tok@ == seq!['X'] {
                assert(tok@[0] == 'X');
            }
        }
        assert(tok@ != seq!['O']) by {
            if tok@ == seq!['O'] {
                assert(tok@[0] == 'O');
            }
        }
        None
    }
}

/// The cells of one line of a board text.
fn parse_row(line: &Vec<char>) -> (r: Option<Vec<CellKind>>)
    ensures
        match r {
            None => row_cells(line@) is None,
            Some(v) => row_cells(line@) == Some(v@),
        },
{
    let t = trimmed(line);
    let toks = split_on(&t, ' ');
    let ghost all = texts(toks@);
    let mut cells: Vec<CellKind> = Vec::new();
    let mut j: usize = 0;
    proof {
        assert(all.subrange(0, all.len() as int) =~= all);
        assert(cells@ + Seq::<CellKind>::empty() =~= cells@);
    }
    while j < toks.len()
        invariant
            j <= toks@.len(),
            all == texts(toks@),
            all.len() == toks@.len(),
            row_cells(line@) == prepend(cells@, token_cells(all.subrange(j as int, all.len() as int))),
        decreases toks@.len() - j,
    {
        let ghost rest = all.subrange(j as int, all.len() as int);
        proof {
            assert(rest.drop_first() =~= all.subrange(j + 1, all.len() as int));
            assert(rest[0] == toks@[j as int]@);
        }
        if toks[j].len() == 0 {
            proof {
                assert(cells@ + Seq::<CellKind>::empty() =~= cells@);
            }
            return Some(cells);
        }
        match cell_of_token(&toks[j]) {
            None => {
                return None;
            },
            Some(c) => {
                let ghost before = cells@;
                cells.push(c);
                proof {
                    match token_cells(all.subrange(j + 1, all.len() as int)) {
                        None => {},
                        Some(r) => {
                            assert(before + (seq![c] + r) =~= cells@ + r);
                        },
                    }
                }
            },
        }
        j += 1;
    }
    proof {
        assert(all.subrange(j as int, all.len() as int) =~= Seq::<Seq<char>>::empty());
        assert(cells@ + Seq::<CellKind>::empty() =~= cells@);
    }
    Some(cells)
}

/// Whether cell `c` of a board of side `size` holds a bomb; a position past
/// the end of the cells holds none.
pub open spec fn bomb_at(cells: Seq<CellKind>, size: int, c: Cell) -> bool {
    let idx = c.1 * size + c.0;
    0 <= idx < cells.len() && cells[idx] == CellKind::Bomb
}

/// Holds of the cells that lie on a board of side `size` and hold a bomb.
pub open spec fn bomb_on_board(cells: Seq<CellKind>, size: int) -> spec_fn(Cell) -> bool {
    |c: Cell| c.0 < size && c.1 < size && bomb_at(cells, size, c)
}

/// The position of the cell at index `idx` of a board of side `size`.
pub open spec fn position(size: int, idx: int) -> Cell {
    Cell((idx % size) as usize, (idx / size) as usize)
}

/// The number of bombs among the neighbours, on the board, of the cell at `idx`.
pub open spec fn bomb_count(cells: Seq<CellKind>, size: int, idx: int) -> nat {
    neighbors(position(size, idx)).filter(bomb_on_board(cells, size)).len()
}

/// The revealed state of the cell at `idx`.
pub open spec fn open_cell(cells: Seq<CellKind>, size: int, idx: int) -> OpenCellKind {
    match cells[idx] {
        CellKind::Bomb => OpenCellKind::Bomb,
        CellKind::Safe => OpenCellKind::Safe(bomb_count(cells, size, idx) as usize),
    }
}

/// The revealed states of all cells of a board of side `size`.
pub open spec fn open_cells(cells: Seq<CellKind>, size: int) -> Seq<OpenCellKind> {
    Seq::new(cells.len(), |idx: int| open_cell(cells, size, idx))
}

/// The text of the first cells of a revealed board of side `size`: each row's
/// cell texts side by side, a newline after each complete row.
pub open spec fn render(cells: Seq<OpenCellKind>, size: int) -> Seq<char>
    decreases cells.len(),
{
    if cells.len() == 0 {
        Seq::empty()
    } else {
        let t = render(cells.drop_last(), size) + cell_text(cells.last());
        if (cells.len() as int) % size == 0 {
            t.push('\n')
        } else {
            t
        }
    }
}

/// A side whose square fits in `usize` leaves room for two more.
proof fn lemma_side_fits(size: int)
    requires
        1 <= size,
        size * size <= usize::MAX,
    ensures
        size < usize::MAX - 1,
{
    assert(size < usize::MAX - 1) by (nonlinear_arith)
        requires
            1 <= size,
            size * size <= usize::MAX,
    ;
}

impl Field {
    /// The number of bombs among the neighbours, on the board, of the cell at
    /// `idx`.
    fn count_bombs(&self, idx: usize) -> (r: usize)
        requires
            self.wf(),
            idx < self.cells@.len(),
        ensures
            r == bomb_count(self.cells@, self.size as int, idx as int),
    {
        let size = self.size;
        let len = self.cells.len();
        proof {
            assert(size >= 1) by (nonlinear_arith)
                requires
                    idx < size * size,
            ;
            lemma_side_fits(size as int);
            assert(idx / size < size) by (nonlinear_arith)
                requires
                    idx < size * size,
                    size >= 1,
            ;
        }
        let x = idx % size;
        let y = idx / size;
        let adj = Cell(x, y).adjacent();
        let ghost hit_of = bomb_on_board(self.cells@, size as int);
        let mut count: usize = 0;
        let mut k: usize = 0;
        while k < adj.len()
            invariant
                k <= adj@.len(),
                count <= k,
                len == self.cells@.len(),
                len == size * size,
                size == self.size,
                hit_of == bomb_on_board(self.cells@, size as int),
                count == adj@.take(k as int).filter(hit_of).len(),
            decreases adj@.len() - k,
        {
            let c = adj[k];
            let hit = if c.0 < size && c.1 < size {
                proof {
                    assert(c.1 * size + c.0 < size * size) by (nonlinear_arith)
                        requires
                            c.0 < size,
                            c.1 < size,
                    ;
                }
                let index = c.1 * size + c.0;
                match self.cells[index] {
                    CellKind::Bomb => true,
                    CellKind::Safe => false,
                }
            } else {
                false
            };
            proof {
                reveal(Seq::filter);
                assert(adj@.take(k + 1).drop_last() =~= adj@.take(k as int));
                assert(adj@.take(k + 1).last() == c);
                assert(hit == hit_of(c));
            }
            if hit {
                count += 1;
            }
            k += 1;
        }
        proof {
            assert(adj@.take(k as int) =~= adj@);
        }
        count
    }

    /// Reveals the board: a bomb stays a bomb, and a safe cell gets the number
    /// of bombs among its neighbours on the board.
    pub fn open(&self) -> (r: OpenField)
        requires
            self.wf(),
        ensures
            r.wf(),
            r.spec_size() == self.spec_size(),
            r.spec_cells() == open_cells(self.spec_cells(), self.spec_size() as int),
    {
        let mut cells: Vec<OpenCellKind> = Vec::new();
        let mut idx: usize = 0;
        while idx < self.cells.len()
            invariant
                self.wf(),
                idx <= self.cells@.len(),
                cells@ == open_cells(self.cells@, self.size as int).take(idx as int),
            decreases self.cells@.len() - idx,
        {
            let open_cell = match self.cells[idx] {
                CellKind::Bomb => OpenCellKind::Bomb,
                CellKind::Safe => OpenCellKind::Safe(self.count_bombs(idx)),
            };
            cells.push(open_cell);
            proof {
                assert(cells@ =~= open_cells(self.cells@, self.size as int).take(idx + 1));
            }
            idx += 1;
        }
        proof {
            assert(cells@ =~= open_cells(self.cells@, self.size as int));
        }
        GameField { size: self.size, cells }
    }

    /// Parses a board: one line per row, tokens `X` (a bomb) and `O` (a safe
    /// cell) separated by single spaces, surrounding white space ignored. A
    /// row ends at its first empty token. The board has as many rows as the
    /// text has lines, and each row must hold that many cells.
    pub fn parse(input: &str) -> (r: Result<Field, ParseError>)
        ensures
            match r {
                Ok(f) => {
                    &&& f.wf()
                    &&& f.spec_size() == lines(input@).len()
                    &&& parse_text(input@) == Ok::<Seq<CellKind>, ParseError>(f.spec_cells())
                },
                Err(e) => parse_text(input@) == Err::<Seq<CellKind>, ParseError>(e),
            },
    {
        let chars = chars_of(input);
        let rows = split_lines(&chars);
        let ghost all = texts(rows@);
        let size = rows.len();
        let mut cells: Vec<CellKind> = Vec::new();
        let mut k: usize = 0;
        proof {
            assert(all.take(0) =~= Seq::<Seq<char>>::empty());
        }
        while k < size
            invariant
                size == rows@.len(),
                all == texts(rows@),
                all == lines(input@),
                k <= size,
                parse_rows(all.take(k as int), size as nat) == Ok::<Seq<CellKind>, ParseError>(cells@),
                cells@.len() == k * size,
            decreases size - k,
        {
            proof {
                assert(all.take(k + 1).drop_last() =~= all.take(k as int));
                assert(all.take(k + 1).last() == rows@[k as int]@);
            }
            match parse_row(&rows[k]) {
                None => {
                    proof {
                        lemma_fault_stays(all, size as nat, k + 1);
                    }
                    return Err(ParseError::MalformedToken { line: k });
                },
                Some(row) => {
                    if row.len() != size {
                        proof {
                            lemma_fault_stays(all, size as nat, k + 1);
                        }
                        return Err(ParseError::RaggedRow { line: k });
                    }
                    let ghost before = cells@;
                    let mut row = row;
                    cells.append(&mut row);
                    proof {
                        assert(cells@.len() == (k + 1) * size) by (nonlinear_arith)
                            requires
                                cells@.len() == k * size + size,
                        ;
                    }
                },
            }
            k += 1;
        }
        proof {
            assert(all.take(k as int) =~= all);
        }
        Ok(GameField { size, cells })
    }
}

impl OpenField {
    /// The text of the board: one line per row, the texts of its cells side by
    /// side, each line ended by a newline.
    pub fn to_string(&self) -> (r: String)
        requires
            self.wf(),
        ensures
            r@ == render(self.spec_cells(), self.spec_size() as int),
    {
        let size = self.size;
        let mut out = String::new();
        let mut i: usize = 0;
        proof {
            assert(self.cells@.take(0) =~= Seq::<OpenCellKind>::empty());
        }
        while i < self.cells.len()
            invariant
                self.wf(),
                size == self.size,
                i <= self.cells@.len(),
                out@ == render(self.cells@.take(i as int), size as int),
            decreases self.cells@.len() - i,
        {
            proof {
                assert(size != 0) by (nonlinear_arith)
                    requires
                        i < size * size,
                ;
                assert(self.cells@.take(i + 1).drop_last() =~= self.cells@.take(i as int));
            }
            self.cells[i].push_text(&mut out);
            if (i + 1) % size == 0 {
                proof {
                    reveal_strlit("\n");
                }
                out.append("\n");
            }
            proof {
                let t = self.cells@.take(i + 1);
                assert(t.last() == self.cells@[i as int]);
                assert(out@ =~= render(t, size as int));
            }
            i += 1;
        }
        proof {
            assert(self.cells@.take(i as int) =~= self.cells@);
        }
        out
    }
}

/// Holds of the cells that lie on a board of side `size`.
pub open spec fn on_board(size: int) -> spec_fn(Cell) -> bool {
    |c: Cell| c.0 < size && c.1 < size
}

/// A well-formed parse holds as many cells per row as there are rows.
proof fn lemma_parsed_len(rows: Seq<Seq<char>>, size: nat)
    requires
        parse_rows(rows, size) is Ok,
    ensures
        parse_rows(rows, size)->Ok_0.len() == rows.len() * size,
    decreases rows.len(),
{
    if rows.len() > 0 {
        lemma_parsed_len(rows.drop_last(), size);
        let n = rows.len() as int;
        assert((n - 1) * size + size == n * size) by (nonlinear_arith);
    }
}

/// Keeping fewer elements never keeps more.
proof fn lemma_filter_weaker<A>(s: Seq<A>, p: spec_fn(A) -> bool, q: spec_fn(A) -> bool)
    requires
        forall|a: A| #[trigger] p(a) ==> q(a),
    ensures
        s.filter(p).len() <= s.filter(q).len(),
    decreases s.len(),
{
    reveal(Seq::filter);
    if s.len() > 0 {
        lemma_filter_weaker(s.drop_last(), p, q);
    }
}

/// A filter that drops some element is shorter than the sequence.
proof fn lemma_filter_drops<A>(s: Seq<A>, p: spec_fn(A) -> bool, i: int)
    requires
        0 <= i < s.len(),
        !p(s[i]),
    ensures
        s.filter(p).len() < s.len(),
    decreases s.len(),
{
    reveal(Seq::filter);
    s.drop_last().lemma_filter_len(p);
    if i < s.len() - 1 {
        lemma_filter_drops(s.drop_last(), p, i);
    }
}

/// A cell has at most eight neighbours.
proof fn lemma_at_most_eight(c: Cell)
    ensures
        neighbors(c).len() <= 8,
{
    let (x, y) = (c.0 as int, c.1 as int);
    let w = x + 2 - lower(x);
    let a = y - lower(y);
    let b = x - lower(x);
    let i = a * w + b;
    assert(2 <= w <= 3);
    assert(0 <= a <= 1);
    assert(0 <= i < (y + 2 - lower(y)) * w <= 9) by (nonlinear_arith)
        requires
            2 <= w <= 3,
            0 <= a <= 1,
            0 <= b < w,
            i == a * w + b,
            1 <= y + 2 - lower(y) - a <= 2,
            0 <= y + 2 - lower(y) <= 3,
    ;
    lemma_fundamental_div_mod_converse(i, w, a, b);
    assert(candidates(c)[i] == c);
    lemma_filter_drops(candidates(c), other_than(c), i);
}

/// No cell is its own neighbour, and no cell has more than eight.
pub proof fn law_neighbors(c: Cell)
    ensures
        !neighbors(c).contains(c),
        neighbors(c).len() <= 8,
{
    lemma_at_most_eight(c);
    broadcast use vstd::seq_lib::group_filter_ensures;

    if neighbors(c).contains(c) {
        let i = choose|i: int| 0 <= i < neighbors(c).len() && neighbors(c)[i] == c;
        assert(other_than(c)(neighbors(c)[i]));
    }
}

/// Revealing a parsed board of side `n` gives `n * n` revealed cells, as
/// many as there were parsed ones.
pub proof fn law_open_shape(text: Seq<char>)
    requires
        parse_text(text) is Ok,
    ensures
        ({
            let n = lines(text).len();
            let cells = parse_text(text)->Ok_0;
            &&& cells.len() == n * n
            &&& open_cells(cells, n as int).len() == n * n
        }),
{
    lemma_parsed_len(lines(text), lines(text).len());
}

/// Revealing keeps the bombs where they are and puts no others.
pub proof fn law_bombs_kept(cells: Seq<CellKind>, size: int)
    ensures
        forall|idx: int|
            0 <= idx < cells.len() ==> ((cells[idx] == CellKind::Bomb) <==> (#[trigger] open_cells(
                cells,
                size,
            )[idx] == OpenCellKind::Bomb)),
{
}

/// The count of a revealed safe cell is at most the number of its neighbours
/// on the board, which is at most eight.
pub proof fn law_count_bound(f: Field, idx: int)
    requires
        f.wf(),
        0 <= idx < f.spec_cells().len(),
    ensures
        ({
            let size = f.spec_size() as int;
            let on = neighbors(position(size, idx)).filter(on_board(size)).len();
            &&& on <= 8
            &&& open_cells(f.spec_cells(), size)[idx] matches OpenCellKind::Safe(n) ==> n <= on
        }),
{
    let size = f.size as int;
    let c = position(size, idx);
    let nb = neighbors(c);
    lemma_at_most_eight(c);
    nb.lemma_filter_len(on_board(size));
    lemma_filter_weaker(nb, bomb_on_board(f.cells@, size), on_board(size));
}

} // verus!
