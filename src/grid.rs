//! Cells, grids, their text format and the grid-level geometric checks.

use vstd::prelude::*;

use vstd::utf8::*;

use crate::puzzle::PuzzleError;
use crate::text::{
    alphabetic, char_sep, chars_of, is_alphabetic, is_ascii_space, lemma_split_acc_closed_piece,
    lemma_split_acc_concat, pieces, split_acc, split_chars, str_from_utf8, string_from_chars,
};
use crate::PERCENT_BLACK;

verus! {

#[verifier::external_type_specification]
#[verifier::external_body]
pub struct ExUtf8Error(std::str::Utf8Error);

/// Why a puzzle file could not be read as a grid.
#[derive(Debug, PartialEq)]
pub enum GridError {
    /// A token is neither a black square, an empty square nor a single letter.
    InvalidPuzzleFormat,
    /// The file is not valid UTF-8.
    NonUtf8(std::str::Utf8Error),
}

/// One square of a grid.
#[derive(Debug, Clone, Copy, PartialEq, Eq, Hash, Structural)]
pub enum Cell {
    Black,
    Empty,
    Letter(char),
}

/// A grid of cells, stored row by row.
#[derive(Debug, Clone)]
pub struct Grid(pub Vec<Vec<Cell>>);

impl View for Grid {
    type V = Seq<Seq<Cell>>;

    open spec fn view(&self) -> Seq<Seq<Cell>> {
        self.0@.map_values(|row: Vec<Cell>| row@)
    }
}

/// Every row is at least as long as the first one, and there is a first one:
/// the columns of the first row can be read down the whole grid.
pub open spec fn transposable(g: Seq<Seq<Cell>>) -> bool {
    &&& g.len() > 0
    &&& forall|j: int| 0 <= j < g.len() ==> #[trigger] g[j].len() >= g[0].len()
}

/// The grid with rows and columns swapped: `transpose_of(g)[x][y] == g[y][x]`.
pub open spec fn transpose_of(g: Seq<Seq<Cell>>) -> Seq<Seq<Cell>> {
    Seq::new(g[0].len(), |x: int| Seq::new(g.len(), |y: int| g[y][x]))
}

/// Every row is as long as the grid has rows.
pub open spec fn square(g: Seq<Seq<Cell>>) -> bool {
    forall|j: int| 0 <= j < g.len() ==> #[trigger] g[j].len() == g.len()
}

/// The grid turned upside down: rows in reverse order, each row reversed.
pub open spec fn rotated_180(g: Seq<Seq<Cell>>) -> Seq<Seq<Cell>> {
    g.reverse().map_values(|row: Seq<Cell>| row.reverse())
}

/// On the top-left `n` by `n` square, `a` and `b` have black squares in the same places.
pub open spec fn blacks_match(a: Seq<Seq<Cell>>, b: Seq<Seq<Cell>>, n: int) -> bool {
    forall|y: int, x: int|
        0 <= y < n && 0 <= x < n ==> (#[trigger] a[y][x] is Black <==> #[trigger] b[y][x] is Black)
}

/// The black squares are unchanged when the grid is turned upside down.
pub open spec fn symmetric(g: Seq<Seq<Cell>>) -> bool {
    blacks_match(g, rotated_180(g), g.len() as int)
}

/// Number of black squares in a row.
pub open spec fn row_black_count(r: Seq<Cell>) -> nat
    decreases r.len(),
{
    if r.len() == 0 {
        0
    } else {
        row_black_count(r.drop_last()) + if r.last() is Black {
            1nat
        } else {
            0nat
        }
    }
}

/// Number of black squares in a grid.
pub open spec fn black_count(g: Seq<Seq<Cell>>) -> nat
    decreases g.len(),
{
    if g.len() == 0 {
        0
    } else {
        black_count(g.drop_last()) + row_black_count(g.last())
    }
}

/// The black squares make up at most `PERCENT_BLACK` percent of an `n` by `n`
/// grid, in truncating integer arithmetic.
pub open spec fn black_share_ok(black: nat, n: nat) -> bool {
    (black * 100) / (n * n) <= PERCENT_BLACK
}

/// Number of cells from the start of `s` to its first black square, or to its end.
pub open spec fn dist_to_black(s: Seq<Cell>) -> nat
    decreases s.len(),
{
    if s.len() == 0 || s[0] is Black {
        0
    } else {
        1 + dist_to_black(s.drop_first())
    }
}

/// The spacing rule: a run of open cells before a black square or the edge is
/// either empty or at least three long.
pub open spec fn spacing_ok(s: Seq<Cell>) -> bool {
    dist_to_black(s) == 0 || dist_to_black(s) >= 3
}

/// The character a cell stands for in a word: its letter, or `_` when empty.
pub open spec fn letter_of(c: Cell) -> char {
    match c {
        Cell::Letter(l) => l,
        _ => '_',
    }
}

/// The characters of a run of cells, one per cell.
pub open spec fn word_text(cells: Seq<Cell>) -> Seq<char> {
    cells.map_values(|c: Cell| letter_of(c))
}

/// The character a cell is written as in a puzzle file.
pub open spec fn glyph(c: Cell) -> char {
    match c {
        Cell::Black => '\u{25a9}',
        Cell::Empty => '\u{25a2}',
        Cell::Letter(l) => l,
    }
}

/// A row as written in a puzzle file: each cell's glyph followed by a space.
pub open spec fn row_text(r: Seq<Cell>) -> Seq<char>
    decreases r.len(),
{
    if r.len() == 0 {
        Seq::empty()
    } else {
        row_text(r.drop_last()) + seq![glyph(r.last()), ' ']
    }
}

/// A grid as written in a puzzle file: each row's text followed by a line break.
pub open spec fn grid_text(g: Seq<Seq<Cell>>) -> Seq<char>
    decreases g.len(),
{
    if g.len() == 0 {
        Seq::empty()
    } else {
        grid_text(g.drop_last()) + row_text(g.last()) + seq!['\n']
    }
}

/// The cell a token of a puzzle file stands for: a token is exactly one
/// character, the black glyph, the empty glyph or an alphabetic letter.
pub open spec fn cell_of_token(tok: Seq<char>) -> Option<Cell> {
    if tok.len() != 1 {
        None
    } else if tok[0] == '\u{25a9}' {
        Some(Cell::Black)
    } else if tok[0] == '\u{25a2}' {
        Some(Cell::Empty)
    } else if alphabetic(tok[0]) {
        Some(Cell::Letter(tok[0]))
    } else {
        None
    }
}

/// The row a line of a puzzle file stands for: its whitespace-separated
/// tokens, each read as a cell; `None` when a token is not a cell.
pub open spec fn row_of_line(line: Seq<char>) -> Option<Seq<Cell>> {
    let toks = pieces(line, char_sep(true));
    if forall|k: int| 0 <= k < toks.len() ==> #[trigger] cell_of_token(toks[k]) is Some {
        Some(Seq::new(toks.len(), |k: int| cell_of_token(toks[k])->0))
    } else {
        None
    }
}

/// The grid a puzzle file's text stands for: one row per non-empty line;
/// `None` when a token is not a cell.
pub open spec fn parse_text(text: Seq<char>) -> Option<Seq<Seq<Cell>>> {
    let lines = pieces(text, char_sep(false));
    if forall|k: int| 0 <= k < lines.len() ==> #[trigger] row_of_line(lines[k]) is Some {
        Some(Seq::new(lines.len(), |k: int| row_of_line(lines[k])->0))
    } else {
        None
    }
}

/// A cell that the puzzle file format writes and reads back unchanged: a
/// letter must be alphabetic, and neither whitespace nor one of the two glyphs.
pub open spec fn plain_cell(c: Cell) -> bool {
    match c {
        Cell::Letter(l) => alphabetic(l) && !is_ascii_space(l) && l != '\u{25a9}' && l
            != '\u{25a2}',
        _ => true,
    }
}

/// A non-empty row of plain cells.
pub open spec fn plain_row(r: Seq<Cell>) -> bool {
    r.len() > 0 && forall|i: int| 0 <= i < r.len() ==> plain_cell(#[trigger] r[i])
}

proof fn lemma_row_tokens(r: Seq<Cell>)
    requires
        forall|i: int| 0 <= i < r.len() ==> plain_cell(#[trigger] r[i]),
    ensures
        split_acc(row_text(r), char_sep(true)) == (
            r.map_values(|c: Cell| seq![glyph(c)]),
            Seq::<char>::empty(),
        ),
        forall|i: int| 0 <= i < row_text(r).len() ==> #[trigger] row_text(r)[i] != '\n',
    decreases r.len(),
{
    let ws = char_sep(true);
    if r.len() == 0 {
        assert(r.map_values(|c: Cell| seq![glyph(c)]) =~= Seq::<Seq<char>>::empty());
    } else {
        let r0 = r.drop_last();
        assert forall|i: int| 0 <= i < r0.len() implies plain_cell(#[trigger] r0[i]) by {
            assert(r0[i] == r[i]);
        }
        lemma_row_tokens(r0);
        let g = glyph(r.last());
        assert(plain_cell(r.last()));
        assert(!ws(g));
        lemma_split_acc_concat(row_text(r0), seq![g, ' '], ws);
        assert(seq![g, ' '] == seq![g].push(' '));
        lemma_split_acc_closed_piece(seq![g], ' ', ws);
        assert(r.map_values(|c: Cell| seq![glyph(c)]) =~= r0.map_values(|c: Cell| seq![glyph(c)])
            + seq![seq![g]]);
        assert forall|i: int| 0 <= i < row_text(r).len() implies #[trigger] row_text(r)[i]
            != '\n' by {
            if i >= row_text(r0).len() {
                assert(row_text(r)[i] == seq![g, ' '][i - row_text(r0).len()]);
            } else {
                assert(row_text(r)[i] == row_text(r0)[i]);
            }
        }
    }
}

proof fn lemma_row_of_row_text(r: Seq<Cell>)
    requires
        plain_row(r),
    ensures
        row_of_line(row_text(r)) == Some(r),
        row_text(r).len() > 0,
        forall|i: int| 0 <= i < row_text(r).len() ==> #[trigger] row_text(r)[i] != '\n',
{
    lemma_row_tokens(r);
    let toks = pieces(row_text(r), char_sep(true));
    assert(toks == r.map_values(|c: Cell| seq![glyph(c)]));
    assert forall|k: int| 0 <= k < toks.len() implies #[trigger] cell_of_token(toks[k]) == Some(
        r[k],
    ) by {
        assert(plain_cell(r[k]));
        assert(toks[k] == seq![glyph(r[k])]);
    }
    assert(Seq::new(toks.len(), |k: int| cell_of_token(toks[k])->0) =~= r);
    assert(row_text(r).len() == row_text(r.drop_last()).len() + 2);
}

proof fn lemma_grid_lines(g: Seq<Seq<Cell>>)
    requires
        forall|j: int| 0 <= j < g.len() ==> plain_row(#[trigger] g[j]),
    ensures
        split_acc(grid_text(g), char_sep(false)) == (
            g.map_values(|r: Seq<Cell>| row_text(r)),
            Seq::<char>::empty(),
        ),
    decreases g.len(),
{
    let nl = char_sep(false);
    if g.len() == 0 {
        assert(g.map_values(|r: Seq<Cell>| row_text(r)) =~= Seq::<Seq<char>>::empty());
    } else {
        let g0 = g.drop_last();
        assert forall|j: int| 0 <= j < g0.len() implies plain_row(#[trigger] g0[j]) by {
            assert(g0[j] == g[j]);
        }
        lemma_grid_lines(g0);
        let line = row_text(g.last());
        assert(plain_row(g.last()));
        lemma_row_of_row_text(g.last());
        assert(grid_text(g) =~= grid_text(g0) + line.push('\n'));
        lemma_split_acc_concat(grid_text(g0), line.push('\n'), nl);
        assert forall|i: int| 0 <= i < line.len() implies !nl(#[trigger] line[i]) by {}
        lemma_split_acc_closed_piece(line, '\n', nl);
        assert(g.map_values(|r: Seq<Cell>| row_text(r)) =~= g0.map_values(
            |r: Seq<Cell>| row_text(r),
        ) + seq![line]);
    }
}

/// Writing a grid in the puzzle file format, encoding the text as UTF-8 and
/// reading the bytes back gives the same grid, for a grid whose rows are all
/// non-empty and whose cells are all plain.
pub proof fn lemma_text_round_trip(g: Seq<Seq<Cell>>)
    requires
        forall|j: int| 0 <= j < g.len() ==> plain_row(#[trigger] g[j]),
    ensures
        valid_utf8(encode_utf8(grid_text(g))),
        parse_text(decode_utf8(encode_utf8(grid_text(g)))) == Some(g),
{
    encode_utf8_valid_utf8(grid_text(g));
    encode_utf8_decode_utf8(grid_text(g));
    lemma_grid_lines(g);
    let lines = pieces(grid_text(g), char_sep(false));
    assert(lines == g.map_values(|r: Seq<Cell>| row_text(r)));
    assert forall|k: int| 0 <= k < lines.len() implies #[trigger] row_of_line(lines[k]) == Some(
        g[k],
    ) by {
        lemma_row_of_row_text(g[k]);
    }
    assert(Seq::new(lines.len(), |k: int| row_of_line(lines[k])->0) =~= g);
}

proof fn lemma_row_count_set_black(r: Seq<Cell>, x: int)
    requires
        0 <= x < r.len(),
        !(r[x] is Black),
    ensures
        row_black_count(r.update(x, Cell::Black)) == row_black_count(r) + 1,
    decreases r.len(),
{
    let u = r.update(x, Cell::Black);
    if x == r.len() - 1 {
        assert(u.drop_last() =~= r.drop_last());
    } else {
        lemma_row_count_set_black(r.drop_last(), x);
        assert(u.drop_last() =~= r.drop_last().update(x, Cell::Black));
    }
}

/// Turning one cell that is not black into a black square adds one to the count.
pub proof fn lemma_count_set_black(g: Seq<Seq<Cell>>, x: int, y: int)
    requires
        0 <= y < g.len(),
        0 <= x < g[y].len(),
        !(g[y][x] is Black),
    ensures
        black_count(g.update(y, g[y].update(x, Cell::Black))) == black_count(g) + 1,
    decreases g.len(),
{
    let h = g.update(y, g[y].update(x, Cell::Black));
    if y == g.len() - 1 {
        assert(h.drop_last() =~= g.drop_last());
        lemma_row_count_set_black(g[y], x);
    } else {
        lemma_count_set_black(g.drop_last(), x, y);
        assert(h.drop_last() =~= g.drop_last().update(y, g[y].update(x, Cell::Black)));
    }
}

proof fn lemma_black_count_prefix(g: Seq<Seq<Cell>>, i: int)
    requires
        0 <= i <= g.len(),
    ensures
        black_count(g.subrange(0, i)) <= black_count(g),
    decreases g.len() - i,
{
    if i < g.len() {
        lemma_black_count_prefix(g, i + 1);
        assert(g.subrange(0, i + 1).drop_last() =~= g.subrange(0, i));
    } else {
        assert(g.subrange(0, i) =~= g);
    }
}

proof fn lemma_row_black_count_prefix(r: Seq<Cell>, i: int)
    requires
        0 <= i <= r.len(),
    ensures
        row_black_count(r.subrange(0, i)) <= row_black_count(r),
    decreases r.len() - i,
{
    if i < r.len() {
        lemma_row_black_count_prefix(r, i + 1);
        assert(r.subrange(0, i + 1).drop_last() =~= r.subrange(0, i));
    } else {
        assert(r.subrange(0, i) =~= r);
    }
}

pub(crate) proof fn lemma_dist_step(s: Seq<Cell>, d: int)
    requires
        0 <= d < s.len(),
        !(s[d] is Black),
    ensures
        dist_to_black(s.subrange(d, s.len() as int)) == 1 + dist_to_black(
            s.subrange(d + 1, s.len() as int),
        ),
{
    assert(s.subrange(d, s.len() as int).drop_first() =~= s.subrange(d + 1, s.len() as int));
}

proof fn lemma_rotated_entry(g: Seq<Seq<Cell>>, y: int, x: int)
    requires
        square(g),
        0 <= y < g.len(),
        0 <= x < g.len(),
    ensures
        rotated_180(g)[y].len() == g.len(),
        rotated_180(g)[y][x] == g[g.len() - 1 - y][g.len() - 1 - x],
{
    let n = g.len() as int;
    assert(g[n - 1 - y].len() == n);
}

/// Turning a square grid upside down twice gives it back; turning it once
/// keeps it square, and keeps it symmetric exactly when it was symmetric.
pub proof fn lemma_symmetry_under_rotation(g: Seq<Seq<Cell>>)
    requires
        square(g),
    ensures
        square(rotated_180(g)),
        rotated_180(rotated_180(g)) == g,
        symmetric(rotated_180(g)) == symmetric(g),
{
    let n = g.len() as int;
    let r = rotated_180(g);
    assert forall|j: int| 0 <= j < r.len() implies #[trigger] r[j].len() == r.len() by {
        assert(g[n - 1 - j].len() == n);
    }
    let rr = rotated_180(r);
    assert forall|j: int| 0 <= j < n implies #[trigger] rr[j] == g[j] by {
        assert(g[j].len() == n);
        assert(rr[j] =~= g[j]);
    }
    assert(rr =~= g);
    assert forall|y: int, x: int| 0 <= y < n && 0 <= x < n implies #[trigger] r[y][x]
        == g[n - 1 - y][n - 1 - x] && #[trigger] rr[y][x] == g[y][x] by {
        lemma_rotated_entry(g, y, x);
    }
    if symmetric(g) {
        assert forall|y: int, x: int| 0 <= y < n && 0 <= x < n implies (#[trigger] r[y][x] is Black
            <==> #[trigger] rr[y][x] is Black) by {
            lemma_rotated_entry(g, y, x);
            lemma_rotated_entry(g, n - 1 - y, n - 1 - x);
            assert(g[n - 1 - y][n - 1 - x] is Black <==> rotated_180(g)[n - 1 - y][n - 1 - x] is Black);
        }
    }
    if symmetric(r) {
        assert forall|y: int, x: int| 0 <= y < n && 0 <= x < n implies (#[trigger] g[y][x] is Black
            <==> #[trigger] r[y][x] is Black) by {
            lemma_rotated_entry(g, y, x);
            lemma_rotated_entry(g, n - 1 - y, n - 1 - x);
            assert(r[n - 1 - y][n - 1 - x] is Black <==> rr[n - 1 - y][n - 1 - x] is Black);
        }
    }
}

proof fn lemma_dist_of_first_black(s: Seq<Cell>, k: int)
    requires
        0 <= k <= s.len(),
        forall|i: int| 0 <= i < k ==> !(#[trigger] s[i] is Black),
        k < s.len() ==> s[k] is Black,
    ensures
        dist_to_black(s) == k,
    decreases k,
{
    if k > 0 {
        let t = s.drop_first();
        assert forall|i: int| 0 <= i < k - 1 implies !(#[trigger] t[i] is Black) by {
            assert(t[i] == s[i + 1]);
        }
        lemma_dist_of_first_black(t, k - 1);
    }
}

/// When the first black square of `s` stands at index `k` (`k` is the length
/// of `s` when it has none), the spacing rule holds exactly when `k` is 0 or
/// at least 3.
pub proof fn lemma_spacing_by_first_black(s: Seq<Cell>, k: int)
    requires
        0 <= k <= s.len(),
        forall|i: int| 0 <= i < k ==> !(#[trigger] s[i] is Black),
        k < s.len() ==> s[k] is Black,
    ensures
        spacing_ok(s) <==> (k == 0 || k >= 3),
{
    lemma_dist_of_first_black(s, k);
}

impl Cell {
    /// The character this cell stands for in a word: its letter, or `_` when empty.
    fn letter(&self) -> (l: char)
        requires
            !(*self is Black),
        ensures
            l == letter_of(*self),
    {
        match self {
            Cell::Letter(l) => *l,
            _ => '_',
        }
    }

    /// Reads one token of a puzzle file.
    fn from_token(tok: &[char]) -> (r: Result<Cell, GridError>)
        ensures
            match cell_of_token(tok@) {
                Some(c) => r == Ok::<Cell, GridError>(c),
                None => r == Err::<Cell, GridError>(GridError::InvalidPuzzleFormat),
            },
    {
        if tok.len() != 1 {
            return Err(GridError::InvalidPuzzleFormat);
        }
        let c = tok[0];
        if c == '\u{25a9}' {
            Ok(Cell::Black)
        } else if c == '\u{25a2}' {
            Ok(Cell::Empty)
        } else if is_alphabetic(c) {
            Ok(Cell::Letter(c))
        } else {
            Err(GridError::InvalidPuzzleFormat)
        }
    }

    /// The word a run of non-black cells spells, `_` standing for an empty cell.
    pub fn as_string(cells: &[Cell]) -> (s: String)
        requires
            forall|i: int| 0 <= i < cells@.len() ==> !(#[trigger] cells@[i] is Black),
        ensures
            s@ == word_text(cells@),
    {
        let chars = Cell::word_chars(cells);
        string_from_chars(chars.as_slice())
    }

    /// The characters a run of non-black cells spells, `_` standing for an empty cell.
    pub(crate) fn word_chars(cells: &[Cell]) -> (chars: Vec<char>)
        requires
            forall|i: int| 0 <= i < cells@.len() ==> !(#[trigger] cells@[i] is Black),
        ensures
            chars@ == word_text(cells@),
    {
        let mut chars: Vec<char> = Vec::new();
        for i in 0..cells.len()
            invariant
                forall|k: int| 0 <= k < cells@.len() ==> !(#[trigger] cells@[k] is Black),
                chars@ == word_text(cells@.subrange(0, i as int)),
        {
            chars.push(cells[i].letter());
            assert(word_text(cells@.subrange(0, i + 1)) =~= word_text(cells@.subrange(0, i as int)).push(
                letter_of(cells@[i as int]),
            ));
        }
        assert(cells@.subrange(0, cells@.len() as int) =~= cells@);
        chars
    }
}

impl PartialEq for Grid {
    fn eq(&self, other: &Grid) -> (r: bool) {
        if self.0.len() != other.0.len() {
            return false;
        }
        let n = self.0.len();
        for y in 0..n
            invariant
                n == self@.len(),
                n == other@.len(),
                forall|j: int| 0 <= j < y ==> #[trigger] self@[j] == other@[j],
        {
            let a = &self.0[y];
            let b = &other.0[y];
            if a.len() != b.len() {
                assert(self@[y as int].len() != other@[y as int].len());
                return false;
            }
            for x in 0..a.len()
                invariant
                    y < n,
                    n == self@.len(),
                    n == other@.len(),
                    a@ == self@[y as int],
                    b@ == other@[y as int],
                    a@.len() == b@.len(),
                    forall|i: int| 0 <= i < x ==> #[trigger] a@[i] == b@[i],
            {
                if a[x] != b[x] {
                    assert(self@[y as int][x as int] != other@[y as int][x as int]);
                    return false;
                }
            }
            assert(a@ =~= b@);
        }
        assert(self@ =~= other@);
        true
    }
}

impl vstd::std_specs::cmp::PartialEqSpecImpl for Grid {
    open spec fn obeys_eq_spec() -> bool {
        true
    }

    open spec fn eq_spec(&self, other: &Grid) -> bool {
        self@ == other@
    }
}

/// The largest number of black squares that `black_share_ok` allows in a
/// grid of `total` cells.
pub open spec fn max_black(total: nat) -> int {
    (17 * total - 1) / 100
}

proof fn lemma_share_limit(b: nat, total: nat)
    requires
        total > 0,
    ensures
        (b * 100) / total <= PERCENT_BLACK <==> b <= max_black(total),
{
    let x = (b * 100) as int;
    let t = total as int;
    assert(x / t <= 16 <==> x < 17 * t) by (nonlinear_arith)
        requires
            t > 0,
            x >= 0,
    {
        let q = x / t;
        let r = x % t;
        assert(x == q * t + r && 0 <= r < t) by (nonlinear_arith)
            requires
                t > 0,
                q == x / t,
                r == x % t,
        ;
        if q <= 16 {
            assert(q * t <= 16 * t) by (nonlinear_arith)
                requires
                    q <= 16,
                    t > 0,
            ;
        } else {
            assert(q * t >= 17 * t) by (nonlinear_arith)
                requires
                    q >= 17,
                    t > 0,
            ;
        }
    }
    let y = 17 * t - 1;
    assert(b * 100 <= y <==> b <= y / 100) by (nonlinear_arith)
        requires
            y >= 0,
    {
        let q = y / 100;
        assert(y == q * 100 + y % 100 && 0 <= y % 100 < 100);
    }
}

/// `max_black(total)`, computed without overflow.
fn share_limit(total: u128) -> (limit: u128)
    requires
        total > 0,
    ensures
        limit == max_black(total as nat),
{
    let a = total / 100;
    let r = total % 100;
    proof {
        assert(total == 100 * a + r);
        assert(17 * a <= total) by (nonlinear_arith)
            requires
                a == total / 100,
        ;
    }
    if r == 0 {
        assert((17 * (total as int) - 1) / 100 == 17 * a - 1);
        17 * a - 1
    } else {
        assert((17 * (total as int) - 1) / 100 == 17 * a + (17 * r - 1) / 100);
        17 * a + (17 * r - 1) / 100
    }
}

impl Grid {
    /// A `size` by `size` grid of empty cells.
    pub fn new(size: usize) -> (g: Self)
        ensures
            g@.len() == size,
            square(g@),
            forall|y: int, x: int|
                0 <= y < size && 0 <= x < size ==> #[trigger] g@[y][x] == Cell::Empty,
    {
        let mut rows: Vec<Vec<Cell>> = Vec::new();
        for n in 0..size
            invariant
                rows@.len() == n,
                forall|y: int|
                    0 <= y < n ==> #[trigger] rows@[y]@ == Seq::new(
                        size as nat,
                        |x: int| Cell::Empty,
                    ),
        {
            let mut row: Vec<Cell> = Vec::new();
            for i in 0..size
                invariant
                    row@ == Seq::new(i as nat, |x: int| Cell::Empty),
            {
                row.push(Cell::Empty);
            }
            rows.push(row);
        }
        let g = Grid(rows);
        assert forall|j: int| 0 <= j < g@.len() implies #[trigger] g@[j].len() == g@.len() by {
            assert(g@[j] == rows@[j]@);
        }
        g
    }

    /// Number of rows.
    pub fn len(&self) -> (n: usize)
        ensures
            n == self@.len(),
    {
        self.0.len()
    }

    /// The grid with rows and columns swapped.
    pub fn transpose(&self) -> (t: Self)
        requires
            transposable(self@),
        ensures
            t@ == transpose_of(self@),
    {
        let width = self.0[0].len();
        let height = self.0.len();
        let mut cols: Vec<Vec<Cell>> = Vec::new();
        for i in 0..width
            invariant
                width == self@[0].len(),
                height == self@.len(),
                transposable(self@),
                cols@.len() == i,
                forall|k: int|
                    0 <= k < i ==> #[trigger] cols@[k]@ == Seq::new(
                        height as nat,
                        |y: int| self@[y][k],
                    ),
        {
            let mut col: Vec<Cell> = Vec::new();
            for j in 0..height
                invariant
                    width == self@[0].len(),
                    height == self@.len(),
                    transposable(self@),
                    i < width,
                    col@ == Seq::new(j as nat, |y: int| self@[y][i as int]),
            {
                assert(self@[j as int].len() >= self@[0].len());
                col.push(self.0[j][i]);
            }
            cols.push(col);
        }
        let t = Grid(cols);
        assert(t@ =~= transpose_of(self@));
        t
    }

    /// The rows of the grid.
    pub fn rows_iter(&self) -> (rows: &[Vec<Cell>])
        ensures
            rows@ == self.0@,
    {
        self.0.as_slice()
    }

    /// Writes `value` at column `x` of row `y`.
    pub fn set(&mut self, x: usize, y: usize, value: Cell)
        requires
            y < old(self)@.len(),
            x < old(self)@[y as int].len(),
        ensures
            final(self)@ == old(self)@.update(y as int, old(self)@[y as int].update(x as int, value)),
    {
        self.0[y].set(x, value);
        assert(self@ =~= old(self)@.update(y as int, old(self)@[y as int].update(x as int, value)));
    }

    /// The cell at column `x` of row `y`.
    pub fn get(&self, x: usize, y: usize) -> (c: &Cell)
        requires
            y < self@.len(),
            x < self@[y as int].len(),
        ensures
            *c == self@[y as int][x as int],
    {
        &self.0[y][x]
    }

    /// Row number `row`.
    pub fn get_row(&self, row: usize) -> (r: &Vec<Cell>)
        requires
            row < self@.len(),
        ensures
            r@ == self@[row as int],
    {
        &self.0[row]
    }

    /// The cell at column `x` of row `y`, to be changed in place.
    pub fn get_mut(&mut self, x: usize, y: usize) -> (c: &mut Cell)
        requires
            y < old(self)@.len(),
            x < old(self)@[y as int].len(),
        ensures
            *c == old(self)@[y as int][x as int],
            final(self)@ == old(self)@.update(
                y as int,
                old(self)@[y as int].update(x as int, *final(c)),
            ),
    {
        &mut self.0[y][x]
    }

    /// The grid turned upside down: rows in reverse order, each row reversed.
    pub fn rotate_180(&self) -> (r: Self)
        ensures
            r@ == rotated_180(self@),
    {
        let n = self.0.len();
        let mut rows: Vec<Vec<Cell>> = Vec::new();
        for k in 0..n
            invariant
                n == self@.len(),
                rows@.len() == k,
                forall|m: int| 0 <= m < k ==> #[trigger] rows@[m]@ == self@[n - 1 - m].reverse(),
        {
            let row = &self.0[n - 1 - k];
            let w = row.len();
            let mut out: Vec<Cell> = Vec::new();
            for i in 0..w
                invariant
                    w == row@.len(),
                    out@.len() == i,
                    forall|m: int| 0 <= m < i ==> #[trigger] out@[m] == row@[w - 1 - m],
            {
                out.push(row[w - 1 - i]);
            }
            assert(out@ =~= row@.reverse());
            rows.push(out);
        }
        let r = Grid(rows);
        assert(r@ =~= rotated_180(self@));
        r
    }

    /// Fails with `NotSymmetric` unless every row is as long as the grid has rows.
    pub fn is_square(&self) -> (r: Result<(), PuzzleError>)
        ensures
            r is Ok <==> square(self@),
            r is Err ==> r == Err::<(), PuzzleError>(PuzzleError::NotSymmetric),
    {
        let size = self.0.len();
        for j in 0..size
            invariant
                size == self@.len(),
                forall|k: int| 0 <= k < j ==> #[trigger] self@[k].len() == size,
        {
            if self.0[j].len() != size {
                assert(self@[j as int].len() != size);
                return Err(PuzzleError::NotSymmetric);
            }
        }
        Ok(())
    }

    /// Whether `self` and `other` have black squares in the same places, over
    /// the square as wide as `self` has rows.
    fn black_squares_match(&self, other: Self) -> (r: bool)
        requires
            other@.len() >= self@.len(),
            forall|y: int| 0 <= y < self@.len() ==> #[trigger] self@[y].len() >= self@.len(),
            forall|y: int| 0 <= y < self@.len() ==> #[trigger] other@[y].len() >= self@.len(),
        ensures
            r == blacks_match(self@, other@, self@.len() as int),
    {
        let n = self.0.len();
        for y in 0..n
            invariant
                n == self@.len(),
                other@.len() >= n,
                forall|j: int| 0 <= j < n ==> #[trigger] self@[j].len() >= n,
                forall|j: int| 0 <= j < n ==> #[trigger] other@[j].len() >= n,
                blacks_match(self@, other@, y as int) || y == 0,
                forall|j: int, x: int|
                    0 <= j < y && 0 <= x < n ==> (#[trigger] self@[j][x] is Black
                        <==> #[trigger] other@[j][x] is Black),
        {
            for x in 0..n
                invariant
                    n == self@.len(),
                    y < n,
                    other@.len() >= n,
                    forall|j: int| 0 <= j < n ==> #[trigger] self@[j].len() >= n,
                    forall|j: int| 0 <= j < n ==> #[trigger] other@[j].len() >= n,
                    forall|j: int, i: int|
                        0 <= j < y && 0 <= i < n ==> (#[trigger] self@[j][i] is Black
                            <==> #[trigger] other@[j][i] is Black),
                    forall|i: int|
                        0 <= i < x ==> (#[trigger] self@[y as int][i] is Black
                            <==> other@[y as int][i] is Black),
            {
                let left = self.get(x, y);
                let right = other.get(x, y);
                let left_black = matches!(left, Cell::Black);
                let right_black = matches!(right, Cell::Black);
                if left_black != right_black {
                    return false;
                }
            }
            assert forall|j: int, i: int|
                0 <= j < y + 1 && 0 <= i < n implies (#[trigger] self@[j][i] is Black
                <==> #[trigger] other@[j][i] is Black) by {
                if j == y {
                    assert(self@[y as int][i] is Black <==> other@[y as int][i] is Black);
                }
            }
        }
        true
    }

    /// Fails with `NotSymmetric` unless the black squares are unchanged when
    /// the grid is turned upside down.
    pub fn is_symmetric(&self) -> (r: Result<(), PuzzleError>)
        requires
            forall|j: int| 0 <= j < self@.len() ==> #[trigger] self@[j].len() >= self@.len(),
        ensures
            r is Ok <==> symmetric(self@),
            r is Err ==> r == Err::<(), PuzzleError>(PuzzleError::NotSymmetric),
    {
        let flipped = self.rotate_180();
        proof {
            let n = self@.len() as int;
            assert forall|y: int| 0 <= y < n implies #[trigger] flipped@[y].len() >= n by {
                assert(flipped@[y] == self@[n - 1 - y].reverse());
                assert(self@[n - 1 - y].len() >= n);
            }
        }
        if self.black_squares_match(flipped) {
            Ok(())
        } else {
            Err(PuzzleError::NotSymmetric)
        }
    }

    /// Fails with `TooManyBlackSquares` when black squares make up more than
    /// `PERCENT_BLACK` percent of a grid as wide as it has rows.
    pub fn acceptable_black_square_count(&self) -> (r: Result<(), PuzzleError>)
        requires
            self@.len() > 0,
        ensures
            r is Ok <==> black_share_ok(black_count(self@), self@.len()),
            r is Err ==> r == Err::<(), PuzzleError>(
                PuzzleError::TooManyBlackSquares(PERCENT_BLACK),
            ),
    {
        let size = self.0.len();
        assert(size <= 0xffff_ffff_ffff_ffff);
        assert((size as int) * (size as int) <= 0xffff_ffff_ffff_ffff * 0xffff_ffff_ffff_ffff && (size as int) * (size as int) > 0) by (nonlinear_arith)
            requires
                0 < size <= 0xffff_ffff_ffff_ffff,
        ;
        let total = size as u128 * size as u128;
        let limit = share_limit(total);
        let mut black: u128 = 0;
        for y in 0..size
            invariant
                size == self@.len(),
                size > 0,
                total == size * size,
                limit == max_black(total as nat),
                black == black_count(self@.subrange(0, y as int)),
                black <= limit,
        {
            let row = &self.0[y];
            let w = row.len();
            assert(self@.subrange(0, y + 1).drop_last() =~= self@.subrange(0, y as int));
            assert(self@.subrange(0, y + 1).last() == row@);
            for x in 0..w
                invariant
                    size == self@.len(),
                    size > 0,
                    y < size,
                    w == row@.len(),
                    row@ == self@[y as int],
                    total == size * size,
                    limit == max_black(total as nat),
                    black == black_count(self@.subrange(0, y as int)) + row_black_count(
                        row@.subrange(0, x as int),
                    ),
                    black <= limit,
            {
                assert(row@.subrange(0, x + 1).drop_last() =~= row@.subrange(0, x as int));
                if matches!(row[x], Cell::Black) {
                    if black == limit {
                        proof {
                            lemma_row_black_count_prefix(row@, x + 1);
                            lemma_black_count_prefix(self@, y + 1);
                            assert(row@.subrange(0, x + 1).last() == row@[x as int]);
                            assert(self@.subrange(0, y + 1).drop_last() =~= self@.subrange(
                                0,
                                y as int,
                            ));
                            assert(self@.subrange(0, y + 1).last() == row@);
                            lemma_share_limit(black_count(self@), total as nat);
                        }
                        return Err(PuzzleError::TooManyBlackSquares(PERCENT_BLACK));
                    }
                    black = black + 1;
                }
            }
            assert(row@.subrange(0, w as int) =~= row@);
        }
        assert(self@.subrange(0, size as int) =~= self@);
        proof {
            lemma_share_limit(black_count(self@), total as nat);
        }
        if black <= limit {
            Ok(())
        } else {
            Err(PuzzleError::TooManyBlackSquares(PERCENT_BLACK))
        }
    }

    /// Whether the run of open cells from the start of `row` to its first
    /// black square, or to its end, is either empty or at least three long.
    pub fn ok_dist_to_black_or_edge(row: &[Cell]) -> (r: bool)
        ensures
            r == spacing_ok(row@),
    {
        let mut dist: usize = 0;
        assert(row@.subrange(0, row@.len() as int) =~= row@);
        while dist < row.len() && !matches!(row[dist], Cell::Black)
            invariant
                dist <= row@.len(),
                dist_to_black(row@) == dist + dist_to_black(
                    row@.subrange(dist as int, row@.len() as int),
                ),
            decreases row@.len() - dist,
        {
            proof {
                lemma_dist_step(row@, dist as int);
            }
            dist += 1;
        }
        proof {
            let rest = row@.subrange(dist as int, row@.len() as int);
            if dist < row@.len() {
                assert(rest[0] == row@[dist as int]);
            } else {
                assert(rest.len() == 0);
            }
        }
        dist == 0 || dist >= 3
    }

    /// The grid in the puzzle file format: one line per row, each cell's
    /// glyph followed by a space.
    pub fn to_string(&self) -> (s: String)
        ensures
            s@ == grid_text(self@),
    {
        let mut text: Vec<char> = Vec::new();
        for y in 0..self.0.len()
            invariant
                text@ == grid_text(self@.subrange(0, y as int)),
        {
            let row = &self.0[y];
            for x in 0..row.len()
                invariant
                    text@ == grid_text(self@.subrange(0, y as int)) + row_text(
                        row@.subrange(0, x as int),
                    ),
            {
                assert(row@.subrange(0, x + 1).drop_last() =~= row@.subrange(0, x as int));
                text.push(glyph_char(row[x]));
                text.push(' ');
                assert(text@ =~= grid_text(self@.subrange(0, y as int)) + row_text(
                    row@.subrange(0, x + 1),
                ));
            }
            assert(row@.subrange(0, row@.len() as int) =~= row@);
            assert(self@.subrange(0, y + 1).drop_last() =~= self@.subrange(0, y as int));
            text.push('\n');
            assert(text@ =~= grid_text(self@.subrange(0, y + 1)));
        }
        assert(self@.subrange(0, self@.len() as int) =~= self@);
        string_from_chars(text.as_slice())
    }

    /// Reads a grid from the bytes of a puzzle file: one row per non-empty
    /// line, one cell per whitespace-separated token.
    pub fn from_bytes(buf: &Vec<u8>) -> (r: Result<Self, GridError>)
        ensures
            match r {
                Ok(g) => valid_utf8(buf@) && parse_text(decode_utf8(buf@)) == Some(g@),
                Err(GridError::NonUtf8(_)) => !valid_utf8(buf@),
                Err(GridError::InvalidPuzzleFormat) => valid_utf8(buf@) && parse_text(
                    decode_utf8(buf@),
                ) is None,
            },
    {
        let text = match str_from_utf8(buf.as_slice()) {
            Ok(s) => s,
            Err(e) => return Err(GridError::NonUtf8(e)),
        };
        let chars = chars_of(text);
        let lines = split_chars(chars.as_slice(), false);
        let ghost lines_v = pieces(chars@, char_sep(false));
        let mut rows: Vec<Vec<Cell>> = Vec::new();
        for k in 0..lines.len()
            invariant
                valid_utf8(buf@),
                chars@ == decode_utf8(buf@),
                lines_v == pieces(chars@, char_sep(false)),
                lines@.map_values(|v: Vec<char>| v@) == lines_v,
                rows@.len() == k,
                forall|j: int| 0 <= j < k ==> #[trigger] row_of_line(lines_v[j]) == Some(rows@[j]@),
        {
            let line = &lines[k];
            assert(line@ == lines_v[k as int]);
            let toks = split_chars(line.as_slice(), true);
            let ghost toks_v = pieces(line@, char_sep(true));
            let mut row: Vec<Cell> = Vec::new();
            for t in 0..toks.len()
                invariant
                    valid_utf8(buf@),
                    chars@ == decode_utf8(buf@),
                    lines_v == pieces(chars@, char_sep(false)),
                    k < lines_v.len(),
                    line@ == lines_v[k as int],
                    toks_v == pieces(line@, char_sep(true)),
                    toks@.map_values(|v: Vec<char>| v@) == toks_v,
                    row@.len() == t,
                    forall|i: int| 0 <= i < t ==> #[trigger] cell_of_token(toks_v[i]) == Some(row@[i]),
            {
                assert(toks@[t as int]@ == toks_v[t as int]);
                match Cell::from_token(toks[t].as_slice()) {
                    Ok(c) => row.push(c),
                    Err(_) => {
                        assert(!(cell_of_token(toks_v[t as int]) is Some));
                        assert(row_of_line(lines_v[k as int]) is None);
                        assert(!(row_of_line(lines_v[k as int]) is Some));
                        assert(parse_text(chars@) is None);
                        return Err(GridError::InvalidPuzzleFormat);
                    },
                }
            }
            assert(row_of_line(line@) == Some(row@)) by {
                assert(row@ =~= Seq::new(toks_v.len(), |i: int| cell_of_token(toks_v[i])->0));
            }
            rows.push(row);
        }
        let g = Grid(rows);
        assert(g@ =~= Seq::new(lines_v.len(), |j: int| row_of_line(lines_v[j])->0));
        Ok(g)
    }
}

/// The glyph a cell is written as in a puzzle file.
fn glyph_char(c: Cell) -> (g: char)
    ensures
        g == glyph(c),
{
    match c {
        Cell::Black => '\u{25a9}',
        Cell::Empty => '\u{25a2}',
        Cell::Letter(l) => l,
    }
}

} // verus!
