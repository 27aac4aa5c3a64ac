//! Puzzles: a grid with its transpose, word extraction, validation and
//! random generation.

use rand::Rng;
use vstd::prelude::*;

use vstd::hash_set::StringHashSet;

use crate::dictionary::{ascii_lower, to_ascii_lower, Dictionary, SparseWord};
use crate::grid::{
    lemma_count_set_black, rotated_180, black_count, black_share_ok, dist_to_black, lemma_dist_step, spacing_ok, square, symmetric,
    transpose_of, transposable, word_text, Cell, Grid, GridError,
};
use crate::text::{lemma_pieces_clean, pieces, split_acc, string_from_chars};
use crate::PERCENT_BLACK;

verus! {

/// Why a puzzle, or the file it was read from, is not acceptable.
#[derive(Debug, PartialEq)]
pub enum PuzzleError {
    /// The grid is not square, or its black squares are not placed symmetrically.
    NotSymmetric,
    /// More than the given percentage of the squares are black.
    TooManyBlackSquares(usize),
    /// A word shorter than three letters.
    WordTooShort(String),
    /// A word that occurs more than once.
    RepeatWord(String),
    /// The words missing from the dictionary, joined by ", ".
    MadeUpWord(String),
    /// The named file could not be created.
    FileCreationError(String),
    /// The named file could not be opened.
    FileOpenError(String),
    /// The file could not be parsed.
    ParseError(GridError),
}

/// A grid with a given cell at column `x` of row `y`.
pub open spec fn put(g: Seq<Seq<Cell>>, x: int, y: int, v: Cell) -> Seq<Seq<Cell>> {
    g.update(y, g[y].update(x, v))
}

/// Column `x` of a grid, top to bottom.
pub open spec fn column(g: Seq<Seq<Cell>>, x: int) -> Seq<Cell> {
    Seq::new(g.len(), |y: int| g[y][x])
}

/// What a cell requires of a word in its place: its letter, or nothing when empty.
pub open spec fn pattern_of(c: Cell) -> Option<char> {
    match c {
        Cell::Letter(l) => Some(l),
        _ => None,
    }
}

/// The pattern of the slot that starts at index `start` of a row or column
/// and runs to the first black square or the edge; empty when `start` is
/// past the edge or on a black square.
pub open spec fn slot_from(s: Seq<Cell>, start: int) -> Seq<Option<char>> {
    if start >= s.len() {
        Seq::empty()
    } else {
        let rest = s.subrange(start, s.len() as int);
        rest.subrange(0, dist_to_black(rest) as int).map_values(|c: Cell| pattern_of(c))
    }
}

/// The separator between words: a black square.
pub open spec fn black_sep() -> spec_fn(Cell) -> bool {
    |c: Cell| c is Black
}

/// The words of a row or column: its maximal runs of non-black cells, in order.
pub open spec fn word_runs(r: Seq<Cell>) -> Seq<Seq<Cell>> {
    pieces(r, black_sep())
}

/// The words of every row of `g`, row after row.
pub open spec fn runs_of_rows(g: Seq<Seq<Cell>>) -> Seq<Seq<Cell>>
    decreases g.len(),
{
    if g.len() == 0 {
        Seq::empty()
    } else {
        runs_of_rows(g.drop_last()) + word_runs(g.last())
    }
}

/// The across words of a grid, then its down words.
pub open spec fn all_words(g: Seq<Seq<Cell>>) -> Seq<Seq<Cell>> {
    runs_of_rows(g) + runs_of_rows(transpose_of(g))
}

/// A run of cells with at least one cell and no black square.
pub open spec fn clean_word(w: Seq<Cell>) -> bool {
    w.len() > 0 && forall|i: int| 0 <= i < w.len() ==> !(#[trigger] w[i] is Black)
}

/// Every word is at least three cells long.
pub open spec fn all_long(ws: Seq<Seq<Cell>>) -> bool {
    forall|j: int| 0 <= j < ws.len() ==> #[trigger] ws[j].len() >= 3
}

/// `ws[i]` is the first word shorter than three cells.
pub open spec fn first_short_at(ws: Seq<Seq<Cell>>, i: int) -> bool {
    &&& 0 <= i < ws.len()
    &&& ws[i].len() < 3
    &&& forall|j: int| 0 <= j < i ==> #[trigger] ws[j].len() >= 3
}

/// The outcome of the minimum-length rule on `ws`: success when every word
/// is long enough, else `WordTooShort` with the first short word.
pub open spec fn short_word_outcome(ws: Seq<Seq<Cell>>, r: Result<(), PuzzleError>) -> bool {
    match r {
        Ok(_) => all_long(ws),
        Err(PuzzleError::WordTooShort(s)) => exists|i: int|
            first_short_at(ws, i) && s@ == word_text(ws[i]),
        Err(_) => false,
    }
}

/// The first `j` words spell `j` different strings.
pub open spec fn distinct_upto(ws: Seq<Seq<Cell>>, j: int) -> bool {
    forall|a: int, b: int|
        0 <= a < b < j ==> word_text(#[trigger] ws[a]) != word_text(#[trigger] ws[b])
}

/// `ws[j]` is the first word that spells the same as an earlier one.
pub open spec fn first_repeat_at(ws: Seq<Seq<Cell>>, j: int) -> bool {
    &&& 0 <= j < ws.len()
    &&& distinct_upto(ws, j)
    &&& exists|a: int| 0 <= a < j && word_text(#[trigger] ws[a]) == word_text(ws[j])
}

/// The outcome of the no-repeat rule on `ws`: success when all words differ,
/// else `RepeatWord` with the first word that repeats an earlier one.
pub open spec fn repeat_outcome(ws: Seq<Seq<Cell>>, r: Result<(), PuzzleError>) -> bool {
    match r {
        Ok(_) => distinct_upto(ws, ws.len() as int),
        Err(PuzzleError::RepeatWord(s)) => exists|j: int|
            first_repeat_at(ws, j) && s@ == word_text(ws[j]),
        Err(_) => false,
    }
}

/// A word with its ASCII capitals made small.
pub open spec fn lower_text(t: Seq<char>) -> Seq<char> {
    t.map_values(|c: char| ascii_lower(c))
}

/// The words of `ws`, in order and as written, whose lower-case form is not in `d`.
pub open spec fn made_up(ws: Seq<Seq<Cell>>, d: Set<Seq<char>>) -> Seq<Seq<char>>
    decreases ws.len(),
{
    if ws.len() == 0 {
        Seq::empty()
    } else {
        let rest = made_up(ws.drop_last(), d);
        let t = word_text(ws.last());
        if d.contains(lower_text(t)) {
            rest
        } else {
            rest.push(t)
        }
    }
}

/// The strings joined with ", " between them.
pub open spec fn joined(ts: Seq<Seq<char>>) -> Seq<char>
    decreases ts.len(),
{
    if ts.len() == 0 {
        Seq::empty()
    } else if ts.len() == 1 {
        ts[0]
    } else {
        joined(ts.drop_last()) + seq![',', ' '] + ts.last()
    }
}

/// The outcome of the dictionary rule on `ws`: success when every word is in
/// `d`, else `MadeUpWord` with all the missing words joined.
pub open spec fn dictionary_outcome(
    ws: Seq<Seq<Cell>>,
    d: Set<Seq<char>>,
    r: Result<(), PuzzleError>,
) -> bool {
    match r {
        Ok(_) => made_up(ws, d).len() == 0,
        Err(PuzzleError::MadeUpWord(s)) => made_up(ws, d).len() > 0 && s@ == joined(
            made_up(ws, d),
        ),
        Err(_) => false,
    }
}

/// The outcome of checking a grid's base: square, then symmetric, then not
/// too many black squares, then no word shorter than three cells.
pub open spec fn base_outcome(g: Seq<Seq<Cell>>, r: Result<(), PuzzleError>) -> bool {
    if !square(g) || !symmetric(g) {
        r == Err::<(), PuzzleError>(PuzzleError::NotSymmetric)
    } else if !black_share_ok(black_count(g), g.len()) {
        r == Err::<(), PuzzleError>(PuzzleError::TooManyBlackSquares(PERCENT_BLACK))
    } else {
        short_word_outcome(all_words(g), r)
    }
}

/// The outcome of checking a grid's words: no repeats, then no word shorter
/// than three cells, then every word in the dictionary `d`.
pub open spec fn words_outcome(
    g: Seq<Seq<Cell>>,
    d: Set<Seq<char>>,
    r: Result<(), PuzzleError>,
) -> bool {
    let ws = all_words(g);
    if !distinct_upto(ws, ws.len() as int) {
        r is Err && repeat_outcome(ws, r)
    } else if !all_long(ws) {
        short_word_outcome(ws, r)
    } else {
        dictionary_outcome(ws, d, r)
    }
}

proof fn lemma_runs_clean(g: Seq<Seq<Cell>>)
    ensures
        forall|k: int| 0 <= k < runs_of_rows(g).len() ==> clean_word(#[trigger] runs_of_rows(g)[k]),
    decreases g.len(),
{
    if g.len() > 0 {
        lemma_runs_clean(g.drop_last());
        lemma_pieces_clean(g.last(), black_sep());
        let a = runs_of_rows(g.drop_last());
        let b = word_runs(g.last());
        assert forall|k: int| 0 <= k < runs_of_rows(g).len() implies clean_word(
            #[trigger] runs_of_rows(g)[k],
        ) by {
            if k >= a.len() {
                assert(runs_of_rows(g)[k] == b[k - a.len()]);
            } else {
                assert(runs_of_rows(g)[k] == a[k]);
            }
        }
    }
}

proof fn lemma_words_clean(g: Seq<Seq<Cell>>)
    ensures
        forall|k: int| 0 <= k < all_words(g).len() ==> clean_word(#[trigger] all_words(g)[k]),
{
    lemma_runs_clean(g);
    lemma_runs_clean(transpose_of(g));
    let a = runs_of_rows(g);
    let b = runs_of_rows(transpose_of(g));
    assert forall|k: int| 0 <= k < all_words(g).len() implies clean_word(#[trigger] all_words(g)[k]) by {
        if k >= a.len() {
            assert(all_words(g)[k] == b[k - a.len()]);
        } else {
            assert(all_words(g)[k] == a[k]);
        }
    }
}

/// Splits a row or column into its words: the maximal runs of non-black cells.
fn split_runs(row: &[Cell]) -> (r: Vec<Vec<Cell>>)
    ensures
        r@.map_values(|v: Vec<Cell>| v@) == word_runs(row@),
{
    let ghost sep = black_sep();
    let mut done: Vec<Vec<Cell>> = Vec::new();
    let mut cur: Vec<Cell> = Vec::new();
    for i in 0..row.len()
        invariant
            sep == black_sep(),
            (done@.map_values(|v: Vec<Cell>| v@), cur@) == split_acc(row@.subrange(0, i as int), sep),
    {
        let c = row[i];
        assert(row@.subrange(0, i + 1).drop_last() =~= row@.subrange(0, i as int));
        if matches!(c, Cell::Black) {
            if cur.len() > 0 {
                done.push(cur);
                assert(done@.map_values(|v: Vec<Cell>| v@) =~= split_acc(row@.subrange(0, i as int), sep).0.push(
                    split_acc(row@.subrange(0, i as int), sep).1,
                ));
            }
            cur = Vec::new();
        } else {
            cur.push(c);
        }
    }
    assert(row@.subrange(0, row@.len() as int) =~= row@);
    if cur.len() > 0 {
        let ghost before = done@.map_values(|v: Vec<Cell>| v@);
        done.push(cur);
        assert(done@.map_values(|v: Vec<Cell>| v@) =~= before.push(split_acc(row@, sep).1));
    }
    done
}

/// The words of every row of `grid`, row after row.
fn runs_of(grid: &Grid) -> (r: Vec<Vec<Cell>>)
    ensures
        r@.map_values(|v: Vec<Cell>| v@) == runs_of_rows(grid@),
{
    let mut out: Vec<Vec<Cell>> = Vec::new();
    let n = grid.len();
    for y in 0..n
        invariant
            n == grid@.len(),
            out@.map_values(|v: Vec<Cell>| v@) == runs_of_rows(grid@.subrange(0, y as int)),
    {
        let mut runs = split_runs(grid.get_row(y).as_slice());
        let ghost before = out@.map_values(|v: Vec<Cell>| v@);
        let ghost added = runs@.map_values(|v: Vec<Cell>| v@);
        out.append(&mut runs);
        assert(grid@.subrange(0, y + 1).drop_last() =~= grid@.subrange(0, y as int));
        assert(out@.map_values(|v: Vec<Cell>| v@) =~= before + added);
    }
    assert(grid@.subrange(0, grid@.len() as int) =~= grid@);
    out
}

/// Placing a black square at column `x` of row `y` leaves the runs of open
/// cells to its left, right, above and below each empty or at least three long.
pub open spec fn placement_ok(g: Seq<Seq<Cell>>, x: int, y: int) -> bool {
    let row = g[y];
    let col = column(g, x);
    &&& spacing_ok(row.subrange(0, x).reverse())
    &&& spacing_ok(row.subrange(x + 1, row.len() as int))
    &&& spacing_ok(col.subrange(0, y).reverse())
    &&& spacing_ok(col.subrange(y + 1, col.len() as int))
}

/// A square grid whose black squares are unchanged by a quarter turn: the
/// cell at column `x` of row `y` is black exactly when the cell at column
/// `n - 1 - y` of row `x` is.
pub open spec fn quarter_symmetric(g: Seq<Seq<Cell>>) -> bool {
    let n = g.len() as int;
    &&& square(g)
    &&& forall|y: int, x: int|
        0 <= y < n && 0 <= x < n ==> (#[trigger] g[y][x] is Black <==> g[x][n - 1 - y] is Black)
}

/// `h` is `g` with some cells turned black and nothing else changed.
pub open spec fn only_blackened(g: Seq<Seq<Cell>>, h: Seq<Seq<Cell>>) -> bool {
    &&& h.len() == g.len()
    &&& forall|y: int| 0 <= y < g.len() ==> #[trigger] h[y].len() == g[y].len()
    &&& forall|y: int, x: int|
        0 <= y < g.len() && 0 <= x < g[y].len() && #[trigger] h[y][x] != g[y][x] ==> h[y][x]
            is Black
}

/// `h` is `g` with each empty cell given a capital letter from A to Z and
/// nothing else changed.
pub open spec fn letters_filled(g: Seq<Seq<Cell>>, h: Seq<Seq<Cell>>) -> bool {
    &&& h.len() == g.len()
    &&& forall|y: int| 0 <= y < g.len() ==> #[trigger] h[y].len() == g[y].len()
    &&& forall|y: int, x: int|
        0 <= y < g.len() && 0 <= x < g[y].len() ==> if g[y][x] is Empty {
            #[trigger] h[y][x] matches Cell::Letter(c) && 'A' <= c <= 'Z'
        } else {
            h[y][x] == g[y][x]
        }
}

/// A quarter turn that keeps a square grid's black squares in place also
/// keeps them in place under a half turn.
pub proof fn lemma_quarter_implies_symmetric(g: Seq<Seq<Cell>>)
    requires
        quarter_symmetric(g),
    ensures
        symmetric(g),
{
    let n = g.len() as int;
    assert forall|y: int, x: int| 0 <= y < n && 0 <= x < n implies (#[trigger] g[y][x] is Black
        <==> #[trigger] rotated_180(g)[y][x] is Black) by {
        assert(g[n - 1 - y].len() == n);
        assert(rotated_180(g)[y][x] == g[n - 1 - y][n - 1 - x]);
        assert(g[y][x] is Black <==> g[x][n - 1 - y] is Black);
        assert(g[x][n - 1 - y] is Black <==> g[n - 1 - y][n - 1 - x] is Black);
    }
}

proof fn lemma_orbit_keeps_symmetry(g: Seq<Seq<Cell>>, x: int, y: int)
    requires
        square(g),
        0 <= x < g.len(),
        0 <= y < g.len(),
    ensures
        ({
            let n = g.len() as int;
            let h = put(
                put(put(put(g, x, y, Cell::Black), n - 1 - y, x, Cell::Black), n - 1 - x, n - 1 - y, Cell::Black),
                y,
                n - 1 - x,
                Cell::Black,
            );
            square(h) && (quarter_symmetric(g) ==> quarter_symmetric(h)) && only_blackened(g, h)
        }),
{
    let n = g.len() as int;
    let h = put(
        put(put(put(g, x, y, Cell::Black), n - 1 - y, x, Cell::Black), n - 1 - x, n - 1 - y, Cell::Black),
        y,
        n - 1 - x,
        Cell::Black,
    );
    let orbit = |a: int, b: int|
        (a == x && b == y) || (a == n - 1 - y && b == x) || (a == n - 1 - x && b == n - 1 - y) || (a
            == y && b == n - 1 - x);
    assert forall|b: int| 0 <= b < n implies #[trigger] h[b].len() == n by {
        assert(g[b].len() == n);
    }
    assert forall|b: int, a: int| 0 <= b < n && 0 <= a < n implies #[trigger] h[b][a] == if orbit(
        a,
        b,
    ) {
        Cell::Black
    } else {
        g[b][a]
    } by {
        assert(g[b].len() == n);
    }
    if quarter_symmetric(g) {
        assert forall|b: int, a: int| 0 <= b < n && 0 <= a < n implies (#[trigger] h[b][a] is Black
            <==> h[a][n - 1 - b] is Black) by {
            assert(h[a][n - 1 - b] == if orbit(n - 1 - b, a) {
                Cell::Black
            } else {
                g[a][n - 1 - b]
            });
            assert(orbit(a, b) <==> orbit(n - 1 - b, a));
        }
    }
}

/// `g` with the cell at column `x` of row `y` turned black, together with the
/// three cells a quarter turn, a half turn and three quarter turns carry it to.
pub open spec fn orbit_put(g: Seq<Seq<Cell>>, x: int, y: int) -> Seq<Seq<Cell>> {
    let n = g.len() as int;
    put(
        put(put(put(g, x, y, Cell::Black), n - 1 - y, x, Cell::Black), n - 1 - x, n - 1 - y, Cell::Black),
        y,
        n - 1 - x,
        Cell::Black,
    )
}

/// The grid after the placements `steps` (column, row), made in order.
pub open spec fn after_steps(g: Seq<Seq<Cell>>, steps: Seq<(int, int)>) -> Seq<Seq<Cell>>
    decreases steps.len(),
{
    if steps.len() == 0 {
        g
    } else {
        orbit_put(after_steps(g, steps.drop_last()), steps.last().0, steps.last().1)
    }
}

/// Each placement of `steps` is a cell of the top-left `q` by `q` square that
/// was not black and met the spacing rule in the grid as it stood then.
pub open spec fn steps_ok(g: Seq<Seq<Cell>>, q: int, steps: Seq<(int, int)>) -> bool
    decreases steps.len(),
{
    if steps.len() == 0 {
        true
    } else {
        let h = after_steps(g, steps.drop_last());
        let x = steps.last().0;
        let y = steps.last().1;
        &&& steps_ok(g, q, steps.drop_last())
        &&& 0 <= x < q
        &&& 0 <= y < q
        &&& !(h[y][x] is Black)
        &&& placement_ok(h, x, y)
    }
}

/// Number of heads (`true`) among the coin flips.
pub open spec fn heads(s: Seq<bool>) -> nat
    decreases s.len(),
{
    if s.len() == 0 {
        0
    } else {
        heads(s.drop_last()) + if s.last() {
            1nat
        } else {
            0nat
        }
    }
}

/// Side of the top-left square scanned for black-square placements.
pub open spec fn quadrant_of(n: nat) -> nat {
    if n / 2 > 2 {
        n / 2
    } else {
        2
    }
}

/// Number of placements, each of four black squares, that the generator aims for.
pub open spec fn black_target(n: nat) -> nat {
    (((n * n * PERCENT_BLACK) / 100) / 4) as nat
}

/// No cell of the top-left `q` by `q` square can take a new black square.
pub open spec fn no_candidate(g: Seq<Seq<Cell>>, q: int) -> bool {
    forall|r: int, c: int|
        0 <= r < q && 0 <= c < q ==> #[trigger] g[r][c] is Black || !placement_ok(g, c, r)
}

proof fn lemma_heads_split(s: Seq<bool>, a: int, b: int, c: int)
    requires
        0 <= a <= b <= c <= s.len(),
    ensures
        heads(s.subrange(a, c)) == heads(s.subrange(a, b)) + heads(s.subrange(b, c)),
    decreases c - b,
{
    if c > b {
        lemma_heads_split(s, a, b, c - 1);
        assert(s.subrange(a, c).drop_last() =~= s.subrange(a, c - 1));
        assert(s.subrange(b, c).drop_last() =~= s.subrange(b, c - 1));
    } else {
        assert(s.subrange(b, c).len() == 0);
    }
}

proof fn lemma_orbit_count(g: Seq<Seq<Cell>>, x: int, y: int)
    requires
        quarter_symmetric(g),
        0 <= x,
        0 <= y,
        2 * x + 2 <= g.len(),
        2 * y + 2 <= g.len(),
        !(g[y][x] is Black),
    ensures
        ({
            let n = g.len() as int;
            black_count(
                put(
                    put(put(put(g, x, y, Cell::Black), n - 1 - y, x, Cell::Black), n - 1 - x, n - 1 - y, Cell::Black),
                    y,
                    n - 1 - x,
                    Cell::Black,
                ),
            ) == black_count(g) + 4
        }),
{
    let n = g.len() as int;
    let b = Cell::Black;
    assert(g[y].len() == n);
    assert(g[x].len() == n);
    assert(g[n - 1 - y].len() == n);
    assert(g[n - 1 - x].len() == n);
    assert(g[y][x] is Black <==> g[x][n - 1 - y] is Black);
    assert(g[x][n - 1 - y] is Black <==> g[n - 1 - y][n - 1 - x] is Black);
    assert(g[n - 1 - y][n - 1 - x] is Black <==> g[n - 1 - x][y] is Black);
    let g1 = put(g, x, y, b);
    lemma_count_set_black(g, x, y);
    let g2 = put(g1, n - 1 - y, x, b);
    assert(g1[x][n - 1 - y] == g[x][n - 1 - y]);
    lemma_count_set_black(g1, n - 1 - y, x);
    let g3 = put(g2, n - 1 - x, n - 1 - y, b);
    assert(g2[n - 1 - y][n - 1 - x] == g[n - 1 - y][n - 1 - x]);
    lemma_count_set_black(g2, n - 1 - x, n - 1 - y);
    assert(g3[n - 1 - x][y] == g[n - 1 - x][y]);
    lemma_count_set_black(g3, y, n - 1 - x);
}

/// How one scan of the top-left quadrant for a black square ended.
enum Scan {
    /// A black square was placed, with its three symmetric partners.
    Placed,
    /// Some cell could take a black square, but every coin flip said no.
    Declined,
    /// No cell of the quadrant can take a black square.
    NoCandidate,
    /// The coin flips ran out.
    Exhausted,
}

/// Relies on `rand::random::<bool>()`: a fair coin flip from the thread-local
/// generator. Nothing is promised of the outcome.
#[verifier::external_body]
fn coin_flip() -> bool {
    rand::random::<bool>()
}

/// Relies on `rand::Rng::gen_range` over `'A'..='Z'` with the thread-local
/// generator: a value within the inclusive range.
#[verifier::external_body]
fn random_capital() -> (c: char)
    ensures
        'A' <= c <= 'Z',
{
    rand::thread_rng().gen_range('A'..='Z')
}

/// The first `n` cells of `v`, last one first.
fn reversed_prefix(v: &Vec<Cell>, n: usize) -> (r: Vec<Cell>)
    requires
        n <= v@.len(),
    ensures
        r@ == v@.subrange(0, n as int).reverse(),
{
    let mut out: Vec<Cell> = Vec::new();
    for i in 0..n
        invariant
            n <= v@.len(),
            out@.len() == i,
            forall|k: int| 0 <= k < i ==> #[trigger] out@[k] == v@[n - 1 - k],
    {
        out.push(v[n - 1 - i]);
    }
    assert(out@ =~= v@.subrange(0, n as int).reverse());
    out
}

/// The cells of `v` after index `n`.
fn suffix_after(v: &Vec<Cell>, n: usize) -> (r: Vec<Cell>)
    requires
        n < v@.len(),
    ensures
        r@ == v@.subrange(n + 1, v@.len() as int),
{
    let mut out: Vec<Cell> = Vec::new();
    for i in n + 1..v.len()
        invariant
            n < v@.len(),
            out@ == v@.subrange(n + 1, i as int),
    {
        out.push(v[i]);
        assert(out@ =~= v@.subrange(n + 1, i + 1));
    }
    out
}

/// A named crossword puzzle: its grid and, kept in step with it, the grid's transpose.
#[derive(Debug, Clone)]
pub struct Puzzle {
    name: String,
    size: usize,
    cells: Grid,
    transpose: Grid,
}

impl View for Puzzle {
    type V = Seq<Seq<Cell>>;

    closed spec fn view(&self) -> Seq<Seq<Cell>> {
        self.cells@
    }
}

impl Puzzle {
    /// The puzzle's name.
    pub closed spec fn spec_name(&self) -> Seq<char> {
        self.name@
    }

    /// The size is the number of rows, the grid has a first row no longer
    /// than any other, the transpose matches the grid, and the grid is small
    /// enough for its cell counts to be computed in `usize`.
    pub closed spec fn wf(&self) -> bool {
        &&& self.size == self.cells@.len()
        &&& transposable(self.cells@)
        &&& self.transpose@ == transpose_of(self.cells@)
        &&& self.size * self.size * 100 <= usize::MAX
    }

    /// A puzzle of `size` by `size` empty cells.
    pub fn new(name: String, size: usize) -> (p: Self)
        requires
            size > 0,
            size * size * 100 <= usize::MAX,
        ensures
            p.wf(),
            p.spec_name() == name@,
            p@.len() == size,
            square(p@),
            quarter_symmetric(p@),
            forall|y: int, x: int| 0 <= y < size && 0 <= x < size ==> #[trigger] p@[y][x] == Cell::Empty,
    {
        let cells = Grid::new(size);
        assert(cells@[0].len() == size);
        let transpose = cells.transpose();
        Puzzle { name, size, cells, transpose }
    }

    /// A puzzle over a given grid.
    pub fn from_grid(name: String, cells: Grid) -> (p: Self)
        requires
            transposable(cells@),
            cells@.len() * cells@.len() * 100 <= usize::MAX,
        ensures
            p.wf(),
            p.spec_name() == name@,
            p@ == cells@,
    {
        let size = cells.len();
        let transpose = cells.transpose();
        Puzzle { name, size, cells, transpose }
    }

    /// The puzzle's name.
    pub fn name(&self) -> (n: &String)
        ensures
            n@ == self.spec_name(),
    {
        &self.name
    }

    /// The puzzle's grid.
    pub fn cells(&self) -> (g: &Grid)
        ensures
            g@ == self@,
    {
        &self.cells
    }

    /// Writes `value` at column `x` of row `y`, in the grid and, where the
    /// transpose has that column, in the transpose.
    fn set(&mut self, x: usize, y: usize, value: Cell)
        requires
            old(self).wf(),
            y < old(self)@.len(),
            x < old(self)@[y as int].len(),
        ensures
            final(self).wf(),
            final(self).spec_name() == old(self).spec_name(),
            final(self)@ == put(old(self)@, x as int, y as int, value),
    {
        let ghost g = self.cells@;
        self.cells.set(x, y, value);
        if x < self.transpose.len() {
            self.transpose.set(y, x, value);
        }
        proof {
            let h = self.cells@;
            assert(h[0].len() == g[0].len());
            assert forall|j: int| 0 <= j < h.len() implies #[trigger] h[j].len() >= h[0].len() by {
                assert(g[j].len() >= g[0].len());
            }
            assert(self.transpose@ =~~= transpose_of(h));
        }
    }

    /// The cell at column `x` of row `y`.
    fn get(&self, x: usize, y: usize) -> (c: &Cell)
        requires
            y < self@.len(),
            x < self@[y as int].len(),
        ensures
            *c == self@[y as int][x as int],
    {
        self.cells.get(x, y)
    }

    /// Writes `val` at `(x, y)` and at the three places a quarter turn, a half
    /// turn and three quarter turns of the grid carry it to.
    fn set_symmetric(&mut self, pos: (usize, usize), val: Cell)
        requires
            old(self).wf(),
            square(old(self)@),
            pos.0 < old(self)@.len(),
            pos.1 < old(self)@.len(),
        ensures
            final(self).wf(),
            square(final(self)@),
            final(self).spec_name() == old(self).spec_name(),
            ({
                let n = old(self)@.len() as int;
                let (x, y) = (pos.0 as int, pos.1 as int);
                final(self)@ == put(
                    put(put(put(old(self)@, x, y, val), n - 1 - y, x, val), n - 1 - x, n - 1 - y, val),
                    y,
                    n - 1 - x,
                    val,
                )
            }),
    {
        let (x, y) = pos;
        let n = self.size;
        assert(self@[0].len() == n);
        self.set(x, y, val);
        assert(self@[x as int].len() == n);
        self.set(n - (y + 1), x, val);
        assert(self@[(n - (y + 1)) as int].len() == n);
        self.set(n - (x + 1), n - (y + 1), val);
        assert(self@[(n - (x + 1)) as int].len() == n);
        self.set(y, n - (x + 1), val);
        proof {
            assert forall|j: int| 0 <= j < self@.len() implies #[trigger] self@[j].len() == self@.len() by {
                assert(old(self)@[j].len() == n);
            }
        }
    }

    /// The down slot that starts at cell `index`, cells being numbered row by
    /// row from 0 in the top left; `None` when it starts on a black square.
    pub fn get_down_word(&self, index: usize) -> (r: Option<SparseWord>)
        requires
            self.wf(),
            (index as int) % (self@.len() as int) < self@[0].len(),
        ensures
            ({
                let n = self@.len() as int;
                let slot = slot_from(column(self@, (index as int) % n), (index as int) / n);
                match r {
                    Some(w) => w@ == slot && slot.len() > 0,
                    None => slot.len() == 0,
                }
            }),
    {
        let row_num = index / self.size;
        let col_num = index % self.size;
        let col = self.transpose.get_row(col_num);
        assert(col@ =~= column(self@, col_num as int));
        Puzzle::take_word(col, row_num)
    }

    /// The across slot that starts at cell `index`, cells being numbered row
    /// by row from 0 in the top left; `None` when it starts on a black square.
    pub fn get_across_word(&self, index: usize) -> (r: Option<SparseWord>)
        requires
            self.wf(),
            index < self@.len() * self@.len(),
        ensures
            ({
                let n = self@.len() as int;
                let slot = slot_from(self@[(index as int) / n], (index as int) % n);
                match r {
                    Some(w) => w@ == slot && slot.len() > 0,
                    None => slot.len() == 0,
                }
            }),
    {
        let row_num = index / self.size;
        let col_num = index % self.size;
        proof {
            let n = self.size as int;
            assert(row_num < n) by (nonlinear_arith)
                requires
                    index < n * n,
                    row_num == (index as int) / n,
                    n > 0,
            ;
        }
        let row = self.cells.get_row(row_num);
        Puzzle::take_word(row, col_num)
    }

    /// The slot of `cells` that starts at `start` and runs to the first black
    /// square or the end.
    fn take_word(cells: &Vec<Cell>, start: usize) -> (r: Option<SparseWord>)
        ensures
            ({
                let slot = slot_from(cells@, start as int);
                match r {
                    Some(w) => w@ == slot && slot.len() > 0,
                    None => slot.len() == 0,
                }
            }),
    {
        if start >= cells.len() {
            return None;
        }
        let ghost rest = cells@.subrange(start as int, cells@.len() as int);
        let mut idx = start;
        let mut chars: Vec<Option<char>> = Vec::new();
        assert(cells@.subrange(start as int, cells@.len() as int) =~= rest);
        while idx < cells.len() && !matches!(cells[idx], Cell::Black)
            invariant
                start <= idx <= cells@.len(),
                rest == cells@.subrange(start as int, cells@.len() as int),
                dist_to_black(rest) == (idx - start) + dist_to_black(
                    cells@.subrange(idx as int, cells@.len() as int),
                ),
                chars@ == cells@.subrange(start as int, idx as int).map_values(
                    |c: Cell| pattern_of(c),
                ),
            decreases cells@.len() - idx,
        {
            proof {
                lemma_dist_step(cells@, idx as int);
            }
            match cells[idx] {
                Cell::Letter(l) => chars.push(Some(l)),
                _ => chars.push(None),
            }
            assert(chars@ =~= cells@.subrange(start as int, idx + 1).map_values(
                |c: Cell| pattern_of(c),
            ));
            idx += 1;
        }
        proof {
            let tail = cells@.subrange(idx as int, cells@.len() as int);
            if idx < cells@.len() {
                assert(tail[0] == cells@[idx as int]);
            } else {
                assert(tail.len() == 0);
            }
            assert(rest.subrange(0, (idx - start) as int) =~= cells@.subrange(start as int, idx as int));
        }
        if chars.len() > 0 {
            Some(SparseWord::new(chars))
        } else {
            None
        }
    }

    /// The across words: each row's maximal runs of non-black cells, top to bottom.
    pub fn words_across_iter(&self) -> (r: Vec<Vec<Cell>>)
        ensures
            r@.map_values(|v: Vec<Cell>| v@) == runs_of_rows(self@),
    {
        runs_of(&self.cells)
    }

    /// The down words: each column's maximal runs of non-black cells, left to right.
    pub fn words_down_iter(&self) -> (r: Vec<Vec<Cell>>)
        requires
            self.wf(),
        ensures
            r@.map_values(|v: Vec<Cell>| v@) == runs_of_rows(transpose_of(self@)),
    {
        runs_of(&self.transpose)
    }

    /// The across words, then the down words.
    pub fn all_words_iter(&self) -> (r: Vec<Vec<Cell>>)
        requires
            self.wf(),
        ensures
            r@.map_values(|v: Vec<Cell>| v@) == all_words(self@),
    {
        let mut words = self.words_across_iter();
        let mut down = self.words_down_iter();
        let ghost a = words@.map_values(|v: Vec<Cell>| v@);
        let ghost b = down@.map_values(|v: Vec<Cell>| v@);
        words.append(&mut down);
        assert(words@.map_values(|v: Vec<Cell>| v@) =~= a + b);
        words
    }

    /// Checks the base of the puzzle: the grid is square, its black squares
    /// are symmetric, there are not too many of them, and no word is shorter
    /// than three cells; the first rule broken gives the error.
    pub fn validate_base(&self) -> (r: Result<(), PuzzleError>)
        requires
            self.wf(),
        ensures
            base_outcome(self@, r),
    {
        self.cells.is_square()?;
        self.cells.is_symmetric()?;
        self.cells.acceptable_black_square_count()?;
        self.no_too_short_words()?;
        Ok(())
    }

    /// Checks the words of the puzzle: none repeats, none is shorter than
    /// three cells, and all are in `dictionary`; the first rule broken gives
    /// the error, and the dictionary error names every missing word.
    pub fn validate_words(&self, dictionary: &Dictionary) -> (r: Result<(), PuzzleError>)
        requires
            self.wf(),
            dictionary.wf(),
        ensures
            words_outcome(self@, dictionary@, r),
    {
        self.no_repeat_words()?;
        self.no_too_short_words()?;
        self.valid_words(dictionary)?;
        Ok(())
    }

    /// Fails with `RepeatWord` on the first word that spells the same as an earlier one.
    fn no_repeat_words(&self) -> (r: Result<(), PuzzleError>)
        requires
            self.wf(),
        ensures
            repeat_outcome(all_words(self@), r),
    {
        let words = self.all_words_iter();
        let ghost ws = all_words(self@);
        proof {
            lemma_words_clean(self@);
        }
        let mut seen = StringHashSet::new();
        for i in 0..words.len()
            invariant
                ws == all_words(self@),
                words@.map_values(|v: Vec<Cell>| v@) == ws,
                forall|k: int| 0 <= k < ws.len() ==> clean_word(#[trigger] ws[k]),
                distinct_upto(ws, i as int),
                forall|t: Seq<char>|
                    #[trigger] seen@.contains(t) <==> exists|a: int|
                        0 <= a < i && word_text(#[trigger] ws[a]) == t,
        {
            assert(words@[i as int]@ == ws[i as int]);
            let word = Cell::as_string(words[i].as_slice());
            let copy = word.clone();
            let ghost old_seen = seen@;
            if !seen.insert(copy) {
                assert(old_seen.contains(word_text(ws[i as int])));
                assert(first_repeat_at(ws, i as int));
                assert(word@ == word_text(ws[i as int]));
                return Err(PuzzleError::RepeatWord(word));
            }
            assert forall|a: int, b: int|
                0 <= a < b < i + 1 implies word_text(#[trigger] ws[a]) != word_text(#[trigger] ws[b]) by {
                if b == i {
                    assert(old_seen.contains(word_text(ws[a])));
                }
            }
            assert forall|t: Seq<char>|
                #[trigger] seen@.contains(t) <==> exists|a: int|
                    0 <= a < i + 1 && word_text(#[trigger] ws[a]) == t by {
                if seen@.contains(t) {
                    if t == word_text(ws[i as int]) {
                        assert(word_text(ws[i as int]) == t);
                    } else {
                        assert(old_seen.contains(t));
                        let a = choose|a: int| 0 <= a < i && word_text(#[trigger] ws[a]) == t;
                        assert(word_text(ws[a]) == t);
                    }
                }
                if exists|a: int| 0 <= a < i + 1 && word_text(#[trigger] ws[a]) == t {
                    let a = choose|a: int| 0 <= a < i + 1 && word_text(#[trigger] ws[a]) == t;
                    if a < i {
                        assert(old_seen.contains(t));
                    }
                }
            }
        }
        Ok(())
    }

    /// Fails with `WordTooShort` on the first word shorter than three cells.
    fn no_too_short_words(&self) -> (r: Result<(), PuzzleError>)
        requires
            self.wf(),
        ensures
            short_word_outcome(all_words(self@), r),
    {
        let words = self.all_words_iter();
        let ghost ws = all_words(self@);
        proof {
            lemma_words_clean(self@);
        }
        for i in 0..words.len()
            invariant
                ws == all_words(self@),
                words@.map_values(|v: Vec<Cell>| v@) == ws,
                forall|k: int| 0 <= k < ws.len() ==> clean_word(#[trigger] ws[k]),
                forall|j: int| 0 <= j < i ==> #[trigger] ws[j].len() >= 3,
        {
            assert(words@[i as int]@ == ws[i as int]);
            if words[i].len() < 3 {
                let word = Cell::as_string(words[i].as_slice());
                assert(word@ == word_text(ws[i as int]));
                assert(first_short_at(ws, i as int));
                return Err(PuzzleError::WordTooShort(word));
            }
        }
        Ok(())
    }

    /// Fails with `MadeUpWord`, naming them all, when some words are not in
    /// `dictionary` once their ASCII capitals are made small.
    fn valid_words(&self, dictionary: &Dictionary) -> (r: Result<(), PuzzleError>)
        requires
            self.wf(),
            dictionary.wf(),
        ensures
            dictionary_outcome(all_words(self@), dictionary@, r),
    {
        let words = self.all_words_iter();
        let ghost ws = all_words(self@);
        proof {
            lemma_words_clean(self@);
        }
        let mut invalid: Vec<Vec<char>> = Vec::new();
        for i in 0..words.len()
            invariant
                dictionary.wf(),
                ws == all_words(self@),
                words@.map_values(|v: Vec<Cell>| v@) == ws,
                forall|k: int| 0 <= k < ws.len() ==> clean_word(#[trigger] ws[k]),
                invalid@.map_values(|v: Vec<char>| v@) == made_up(ws.subrange(0, i as int), dictionary@),
        {
            assert(words@[i as int]@ == ws[i as int]);
            let text = Cell::word_chars(words[i].as_slice());
            let mut lower: Vec<char> = Vec::new();
            for j in 0..text.len()
                invariant
                    lower@ == lower_text(text@.subrange(0, j as int)),
            {
                lower.push(to_ascii_lower(text[j]));
                assert(lower@ =~= lower_text(text@.subrange(0, j + 1)));
            }
            assert(text@.subrange(0, text@.len() as int) =~= text@);
            let lower_word = string_from_chars(lower.as_slice());
            assert(ws.subrange(0, i + 1).drop_last() =~= ws.subrange(0, i as int));
            if !dictionary.is_valid(lower_word.as_str()) {
                let ghost before = invalid@.map_values(|v: Vec<char>| v@);
                invalid.push(text);
                assert(invalid@.map_values(|v: Vec<char>| v@) =~= before.push(word_text(ws[i as int])));
            }
        }
        assert(ws.subrange(0, ws.len() as int) =~= ws);
        if invalid.len() == 0 {
            return Ok(());
        }
        let ghost ts = invalid@.map_values(|v: Vec<char>| v@);
        let mut all: Vec<char> = Vec::new();
        for k in 0..invalid.len()
            invariant
                ts == invalid@.map_values(|v: Vec<char>| v@),
                all@ == joined(ts.subrange(0, k as int)),
        {
            assert(ts.subrange(0, k + 1).drop_last() =~= ts.subrange(0, k as int));
            if k > 0 {
                all.push(',');
                all.push(' ');
            }
            let piece = &invalid[k];
            for m in 0..piece.len()
                invariant
                    all@ == joined(ts.subrange(0, k as int)) + (if k > 0 {
                        seq![',', ' ']
                    } else {
                        Seq::empty()
                    }) + piece@.subrange(0, m as int),
            {
                all.push(piece[m]);
                assert(piece@.subrange(0, m + 1) =~= piece@.subrange(0, m as int).push(piece[m as int]));
            }
            assert(piece@.subrange(0, piece@.len() as int) =~= piece@);
            assert(ts[k as int] == piece@);
            if k == 0 {
                assert(all@ =~= joined(ts.subrange(0, 1)));
            } else {
                assert(all@ =~= joined(ts.subrange(0, k + 1)));
            }
        }
        assert(ts.subrange(0, ts.len() as int) =~= ts);
        Err(PuzzleError::MadeUpWord(string_from_chars(all.as_slice())))
    }

    /// Whether a black square at `pos` (column, row) would leave the runs of
    /// open cells to its left, right, above and below each empty or at least
    /// three long.
    pub fn valid_black_placement(&self, pos: (usize, usize)) -> (r: bool)
        requires
            self.wf(),
            pos.1 < self@.len(),
            pos.0 < self@[0].len(),
        ensures
            r == placement_ok(self@, pos.0 as int, pos.1 as int),
    {
        let (x, y) = pos;
        let row = self.cells.get_row(y);
        let col = self.transpose.get_row(x);
        assert(self@[y as int].len() >= self@[0].len());
        assert(col@ =~= column(self@, x as int));
        let left = reversed_prefix(row, x);
        let right = suffix_after(row, x);
        let up = reversed_prefix(col, y);
        let down = suffix_after(col, y);
        Grid::ok_dist_to_black_or_edge(left.as_slice()) && Grid::ok_dist_to_black_or_edge(
            right.as_slice(),
        ) && Grid::ok_dist_to_black_or_edge(up.as_slice()) && Grid::ok_dist_to_black_or_edge(
            down.as_slice(),
        )
    }

    /// Turns the cell at column `x` of row `y` of the top-left quadrant, and
    /// its three rotationally symmetric partners, black.
    fn place_black(&mut self, x: usize, y: usize)
        requires
            old(self).wf(),
            square(old(self)@),
            2 * x + 2 <= old(self)@.len(),
            2 * y + 2 <= old(self)@.len(),
            !(old(self)@[y as int][x as int] is Black),
        ensures
            final(self).wf(),
            square(final(self)@),
            final(self).spec_name() == old(self).spec_name(),
            only_blackened(old(self)@, final(self)@),
            quarter_symmetric(old(self)@) ==> quarter_symmetric(final(self)@),
            quarter_symmetric(old(self)@) ==> black_count(final(self)@) == black_count(old(self)@)
                + 4,
            final(self)@ == orbit_put(old(self)@, x as int, y as int),
    {
        proof {
            lemma_orbit_keeps_symmetry(self@, x as int, y as int);
            if quarter_symmetric(self@) {
                lemma_orbit_count(self@, x as int, y as int);
            }
        }
        self.set_symmetric((x, y), Cell::Black);
    }

    /// Scans the top-left `quadrant` by `quadrant` square row by row for a
    /// cell that is not black and can take a black square; at each such cell
    /// the next coin flip decides, and on heads the cell and its three
    /// symmetric partners turn black and the scan ends.
    #[verifier::rlimit(50)]
    fn scan_quadrant(&mut self, quadrant: usize, flips: &[bool], next: &mut usize) -> (r: Scan)
        requires
            old(self).wf(),
            square(old(self)@),
            2 * quadrant <= old(self)@.len(),
            *old(next) <= flips@.len(),
        ensures
            final(self).wf(),
            square(final(self)@),
            quarter_symmetric(old(self)@) ==> quarter_symmetric(final(self)@),
            final(self).spec_name() == old(self).spec_name(),
            only_blackened(old(self)@, final(self)@),
            *old(next) <= *final(next) <= flips@.len(),
            (r is Placed || r is Declined) ==> *final(next) > *old(next),
            !(r is Placed) ==> final(self)@ == old(self)@,
            heads(flips@.subrange(*old(next) as int, *final(next) as int)) == if r is Placed {
                1nat
            } else {
                0nat
            },
            r is Placed && quarter_symmetric(old(self)@) ==> black_count(final(self)@) == black_count(
                old(self)@,
            ) + 4,
            r is Exhausted ==> *final(next) == flips@.len(),
            r is NoCandidate ==> no_candidate(final(self)@, quadrant as int),
            r is Placed ==> exists|x: int, y: int|
                0 <= x < quadrant && 0 <= y < quadrant && !(#[trigger] old(self)@[y][x] is Black)
                    && placement_ok(old(self)@, x, y) && final(self)@ == orbit_put(old(self)@, x, y),
    {
        let ghost g0 = self@;
        let ghost start = *next;
        let mut eligible = false;
        assert(flips@.subrange(start as int, start as int).len() == 0);
        for row in 0..quadrant
            invariant
                self.wf(),
                self@ == g0,
                square(g0),
                2 * quadrant <= g0.len(),
                start == *old(next),
                *old(next) <= *next <= flips@.len(),
                eligible ==> *next > *old(next),
                heads(flips@.subrange(start as int, *next as int)) == 0,
                !eligible ==> forall|r: int, c: int|
                    0 <= r < row && 0 <= c < quadrant ==> #[trigger] g0[r][c] is Black
                        || !placement_ok(g0, c, r),
                self.spec_name() == old(self).spec_name(),
                g0 == old(self)@,
        {
            for col in 0..quadrant
                invariant
                    self.wf(),
                    self@ == g0,
                    square(g0),
                    2 * quadrant <= g0.len(),
                    row < quadrant,
                    start == *old(next),
                    *old(next) <= *next <= flips@.len(),
                    eligible ==> *next > *old(next),
                    heads(flips@.subrange(start as int, *next as int)) == 0,
                    !eligible ==> forall|r: int, c: int|
                        0 <= r < row && 0 <= c < quadrant ==> #[trigger] g0[r][c] is Black
                            || !placement_ok(g0, c, r),
                    !eligible ==> forall|c: int|
                        0 <= c < col ==> #[trigger] g0[row as int][c] is Black || !placement_ok(
                            g0,
                            c,
                            row as int,
                        ),
                    self.spec_name() == old(self).spec_name(),
                    g0 == old(self)@,
            {
                assert(self@[row as int].len() == self@.len());
                assert(self@[0].len() == self@.len());
                if !matches!(self.get(col, row), Cell::Black) && self.valid_black_placement(
                    (col, row),
                ) {
                    if *next >= flips.len() {
                        return Scan::Exhausted;
                    }
                    let heads_up = flips[*next];
                    proof {
                        assert(flips@.subrange(start as int, *next + 1).drop_last() =~= flips@.subrange(
                            start as int,
                            *next as int,
                        ));
                    }
                    *next = *next + 1;
                    eligible = true;
                    if heads_up {
                        assert(placement_ok(g0, col as int, row as int));
                        assert(!(g0[row as int][col as int] is Black));
                        self.place_black(col, row);
                        return Scan::Placed;
                    }
                }
            }
            assert forall|r: int, c: int|
                0 <= r < row + 1 && 0 <= c < quadrant && !eligible implies #[trigger] g0[r][c] is Black
                || !placement_ok(g0, c, r) by {
                if r == row {
                    assert(g0[row as int][c] is Black || !placement_ok(g0, c, row as int));
                }
            }
        }
        if eligible {
            Scan::Declined
        } else {
            Scan::NoCandidate
        }
    }

    /// Turns cells black at random, four rotationally symmetric cells at a
    /// time, as the coin flips in `flips` decide, until a quarter of
    /// `PERCENT_BLACK` percent of the cells (rounded down) have been placed
    /// four times over. Each placement goes to the first suitable cell of the
    /// top-left quadrant, scanning row by row, on which a flip comes up
    /// heads; the scan restarts after each placement. Grids smaller than 5
    /// are left alone. Returns whether the target was reached: `false` when
    /// the flips run out first or no cell of the quadrant can take a black
    /// square.
    pub fn random_black_with(&mut self, flips: &[bool]) -> (reached: bool)
        requires
            old(self).wf(),
            square(old(self)@),
        ensures
            final(self).wf(),
            square(final(self)@),
            final(self).spec_name() == old(self).spec_name(),
            only_blackened(old(self)@, final(self)@),
            quarter_symmetric(old(self)@) ==> quarter_symmetric(final(self)@) && symmetric(
                final(self)@,
            ),
            old(self)@.len() < 5 ==> final(self)@ == old(self)@ && reached,
            reached ==> heads(flips@) >= black_target(old(self)@.len()),
            reached && quarter_symmetric(old(self)@) ==> black_count(final(self)@) == black_count(
                old(self)@,
            ) + 4 * black_target(old(self)@.len()),
            !reached ==> heads(flips@) < black_target(old(self)@.len()) || no_candidate(
                final(self)@,
                quadrant_of(old(self)@.len()) as int,
            ),
            exists|steps: Seq<(int, int)>|
                #![trigger after_steps(old(self)@, steps)]
                steps_ok(old(self)@, quadrant_of(old(self)@.len()) as int, steps) && final(self)@
                    == after_steps(old(self)@, steps) && steps.len() <= black_target(
                    old(self)@.len(),
                ) && (reached ==> steps.len() == black_target(old(self)@.len())),
    {
        let n = self.size;
        let ghost mut steps: Seq<(int, int)> = Seq::empty();
        assert(after_steps(old(self)@, steps) == old(self)@);
        if n < 5 {
            proof {
                assert(black_target(n as nat) == 0) by (nonlinear_arith)
                    requires
                        n < 5,
                        black_target(n as nat) == ((n * n * 16) / 100) / 4,
                ;
                if quarter_symmetric(old(self)@) {
                    lemma_quarter_implies_symmetric(self@);
                }
            }
            return true;
        }
        let quadrant = if n / 2 > 2 {
            n / 2
        } else {
            2
        };
        let upper_threshold_black = (n * n * PERCENT_BLACK) / 100;
        let target = upper_threshold_black / 4;
        assert(n / 2 >= 2);
        let ghost g0 = self@;
        let mut black_set: usize = 0;
        let mut next: usize = 0;
        assert(flips@.subrange(0, 0).len() == 0);
        while black_set < target
            invariant
                quadrant == quadrant_of(n as nat),
                target == black_target(n as nat),
                black_set <= target,
                black_set == heads(flips@.subrange(0, next as int)),
                steps_ok(g0, quadrant as int, steps),
                self@ == after_steps(g0, steps),
                steps.len() == black_set,
                quarter_symmetric(old(self)@) ==> black_count(self@) == black_count(old(self)@) + 4
                    * black_set,
                self.wf(),
                square(self@),
                quarter_symmetric(old(self)@) ==> quarter_symmetric(self@),
                self@.len() == n,
                old(self)@.len() == n,
                n >= 5,
                2 * quadrant <= n,
                next <= flips@.len(),
                only_blackened(g0, self@),
                g0 == old(self)@,
                self.spec_name() == old(self).spec_name(),
            decreases flips@.len() - next,
        {
            let ghost before = self@;
            let ghost from = next;
            let scan = self.scan_quadrant(quadrant, flips, &mut next);
            proof {
                lemma_heads_split(flips@, 0, from as int, next as int);
            }
            match scan {
                Scan::Placed => {
                    proof {
                        let (x, y) = choose|x: int, y: int|
                            0 <= x < quadrant && 0 <= y < quadrant && !(#[trigger] before[y][x] is Black)
                                && placement_ok(before, x, y) && self@ == orbit_put(before, x, y);
                        let longer = steps.push((x, y));
                        assert(longer.drop_last() =~= steps);
                        steps = longer;
                    }
                    black_set = black_set + 1;
                },
                Scan::Declined => {},
                Scan::Exhausted => {
                    assert(flips@.subrange(0, next as int) =~= flips@);
                    proof {
                        if quarter_symmetric(old(self)@) {
                            lemma_quarter_implies_symmetric(self@);
                        }
                    }
                    return false;
                },
                Scan::NoCandidate => {
                    proof {
                        if quarter_symmetric(old(self)@) {
                            lemma_quarter_implies_symmetric(self@);
                        }
                    }
                    return false;
                },
            }
            assert(only_blackened(g0, self@)) by {
                assert forall|y: int, x: int|
                    0 <= y < g0.len() && 0 <= x < g0[y].len() && #[trigger] self@[y][x]
                        != g0[y][x] implies self@[y][x] is Black by {
                    if self@[y][x] != before[y][x] {
                    } else {
                        assert(before[y][x] != g0[y][x]);
                    }
                }
            }
        }
        proof {
            lemma_heads_split(flips@, 0, next as int, flips@.len() as int);
            assert(flips@.subrange(0, flips@.len() as int) =~= flips@);
            if quarter_symmetric(old(self)@) {
                lemma_quarter_implies_symmetric(self@);
            }
        }
        true
    }

    /// Turns cells black at random, as `random_black_with` does, with fair
    /// coin flips from the thread-local generator: enough of them that
    /// running out is vanishingly unlikely.
    pub fn random_black(&mut self) -> (reached: bool)
        requires
            old(self).wf(),
            square(old(self)@),
        ensures
            final(self).wf(),
            square(final(self)@),
            final(self).spec_name() == old(self).spec_name(),
            only_blackened(old(self)@, final(self)@),
            quarter_symmetric(old(self)@) ==> quarter_symmetric(final(self)@) && symmetric(
                final(self)@,
            ),
            old(self)@.len() < 5 ==> final(self)@ == old(self)@ && reached,
            reached && quarter_symmetric(old(self)@) ==> black_count(final(self)@) == black_count(
                old(self)@,
            ) + 4 * black_target(old(self)@.len()),
            exists|steps: Seq<(int, int)>|
                #![trigger after_steps(old(self)@, steps)]
                steps_ok(old(self)@, quadrant_of(old(self)@.len()) as int, steps) && final(self)@
                    == after_steps(old(self)@, steps) && steps.len() <= black_target(
                    old(self)@.len(),
                ) && (reached ==> steps.len() == black_target(old(self)@.len())),
    {
        let n = self.size;
        let target = ((n * n * PERCENT_BLACK) / 100) / 4;
        assert(target * 64 + 64 <= n * n * 100) by (nonlinear_arith)
            requires
                target == ((n * n * 16) / 100) / 4,
                n >= 1,
        ;
        let budget = target * 64 + 64;
        let mut flips: Vec<bool> = Vec::new();
        for i in 0..budget
            invariant
                flips@.len() == i,
        {
            flips.push(coin_flip());
        }
        self.random_black_with(flips.as_slice())
    }

    /// Gives every empty cell a random capital letter from A to Z; black
    /// cells and letters stay as they are.
    pub fn random_letters(&mut self)
        requires
            old(self).wf(),
        ensures
            final(self).wf(),
            final(self).spec_name() == old(self).spec_name(),
            letters_filled(old(self)@, final(self)@),
    {
        let n = self.size;
        let ghost g0 = self@;
        for row in 0..n
            invariant
                self.wf(),
                n == self@.len(),
                g0 == old(self)@,
                self.spec_name() == old(self).spec_name(),
                forall|y: int| 0 <= y < n ==> #[trigger] self@[y].len() == g0[y].len(),
                forall|y: int, x: int|
                    0 <= y < n && 0 <= x < g0[y].len() ==> if y < row {
                        if g0[y][x] is Empty {
                            #[trigger] self@[y][x] matches Cell::Letter(c) && 'A' <= c <= 'Z'
                        } else {
                            self@[y][x] == g0[y][x]
                        }
                    } else {
                        self@[y][x] == g0[y][x]
                    },
        {
            let width = self.cells.get_row(row).len();
            for col in 0..width
                invariant
                    self.wf(),
                    n == self@.len(),
                    row < n,
                    width == g0[row as int].len(),
                    g0 == old(self)@,
                    self.spec_name() == old(self).spec_name(),
                    forall|y: int| 0 <= y < n ==> #[trigger] self@[y].len() == g0[y].len(),
                    forall|y: int, x: int|
                        0 <= y < n && 0 <= x < g0[y].len() ==> if y < row || (y == row && x < col) {
                            if g0[y][x] is Empty {
                                #[trigger] self@[y][x] matches Cell::Letter(c) && 'A' <= c <= 'Z'
                            } else {
                                self@[y][x] == g0[y][x]
                            }
                        } else {
                            self@[y][x] == g0[y][x]
                        },
            {
                if matches!(self.get(col, row), Cell::Empty) {
                    let letter = random_capital();
                    self.set(col, row, Cell::Letter(letter));
                }
            }
        }
    }
}

} // verus!
