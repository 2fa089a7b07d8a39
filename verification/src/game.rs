//! The game model and search engine: players, squares, the board-level
//! predicates (winning lines, draw) of generalized N x N tic-tac-toe, and
//! the negamax search with alpha-beta pruning and a transposition cache.

use vstd::prelude::*;
use std::collections::HashMap;
use crate::zobrist::Zobrist;
use crate::zobrist::hash_of;

verus! {

broadcast use vstd::std_specs::hash::group_hash_axioms;

/// A move: the (row, column) of a cell.
pub type Move = (usize, usize);

/// What one search call yields: a score and, at explored non-terminal
/// nodes, the move that achieved it.
pub type SearchResult = (i32, Option<Move>);

/// One of the two players. Each has a well-defined opponent.
#[derive(Debug, Copy, Clone, PartialEq, Eq, Structural)]
pub enum Player {
    O,
    X,
}

/// The opponent of a player, as a mathematical function.
pub open spec fn opposite(p: Player) -> Player {
    match p {
        Player::O => Player::X,
        Player::X => Player::O,
    }
}

/// The character a square is drawn as: a marker per player, a dot for empty.
pub open spec fn symbol_of(s: Square) -> char {
    match s {
        Square::Empty => '.',
        Square::Player(Player::O) => 'O',
        Square::Player(Player::X) => 'X',
    }
}

/// The character of a rendered grid at row `r`, column `c`, where each of
/// the `dim` rows is `dim` cell characters followed by a newline.
pub open spec fn grid_char(out: Seq<char>, dim: nat, r: nat, c: nat) -> char {
    out[(r * (dim + 1) + c) as int]
}

impl Player {
    /// The other player.
    pub fn opponent(self) -> (r: Self)
        ensures
            r == opposite(self),
    {
        match self {
            Player::O => Player::X,
            Player::X => Player::O,
        }
    }
}

/// One cell of the board: empty, or occupied by a player.
#[derive(Debug, Copy, Clone, PartialEq, Eq, Structural)]
pub enum Square {
    Empty,
    Player(Player),
}

impl Square {
    /// The character this square is drawn as.
    pub fn symbol(self) -> (ch: char)
        ensures
            ch == symbol_of(self),
    {
        match self {
            Square::Empty => '.',
            Square::Player(Player::O) => 'O',
            Square::Player(Player::X) => 'X',
        }
    }
}

impl From<Player> for Square {
    /// A player's mark, as a square.
    fn from(p: Player) -> (s: Square) {
        Square::Player(p)
    }
}

impl vstd::std_specs::convert::FromSpecImpl<Player> for Square {
    open spec fn obeys_from_spec() -> bool {
        true
    }

    open spec fn from_spec(p: Player) -> Square {
        Square::Player(p)
    }
}

/// The cell of a row-major flat board at row `r`, column `c`.
pub open spec fn at(b: Seq<Square>, dim: nat, r: nat, c: nat) -> Square {
    b[(r * dim + c) as int]
}

/// Row `i` is entirely occupied by `p`.
pub open spec fn row_won(b: Seq<Square>, dim: nat, i: nat, p: Player) -> bool {
    forall|j: nat| j < dim ==> at(b, dim, i, j) == Square::Player(p)
}

/// Column `j` is entirely occupied by `p`.
pub open spec fn col_won(b: Seq<Square>, dim: nat, j: nat, p: Player) -> bool {
    forall|i: nat| i < dim ==> at(b, dim, i, j) == Square::Player(p)
}

/// The main diagonal is entirely occupied by `p`.
pub open spec fn diag_won(b: Seq<Square>, dim: nat, p: Player) -> bool {
    forall|i: nat| i < dim ==> at(b, dim, i, i) == Square::Player(p)
}

/// The anti-diagonal is entirely occupied by `p`: every cell whose row
/// and column indices sum to `dim - 1`.
pub open spec fn anti_diag_won(b: Seq<Square>, dim: nat, p: Player) -> bool {
    forall|i: nat, j: nat| i < dim && j < dim && i + j + 1 == dim ==> at(b, dim, i, j)
        == Square::Player(p)
}

/// `p` has a winning line: a full row, a full column, or a full diagonal.
pub open spec fn wins(b: Seq<Square>, dim: nat, p: Player) -> bool {
    ||| exists|i: nat| i < dim && row_won(b, dim, i, p)
    ||| exists|j: nat| j < dim && col_won(b, dim, j, p)
    ||| diag_won(b, dim, p)
    ||| anti_diag_won(b, dim, p)
}

/// Law: a full row belonging to `p` is a winning line for `p`.
pub proof fn lemma_row_wins(b: Seq<Square>, dim: nat, i: nat, p: Player)
    requires
        i < dim,
        row_won(b, dim, i, p),
    ensures
        wins(b, dim, p),
{
}

/// Law: a full column belonging to `p` is a winning line for `p`.
pub proof fn lemma_col_wins(b: Seq<Square>, dim: nat, j: nat, p: Player)
    requires
        j < dim,
        col_won(b, dim, j, p),
    ensures
        wins(b, dim, p),
{
}

/// Law: the full main diagonal belonging to `p` is a winning line for `p`.
pub proof fn lemma_diag_wins(b: Seq<Square>, dim: nat, p: Player)
    requires
        diag_won(b, dim, p),
    ensures
        wins(b, dim, p),
{
}

/// Law: the full anti-diagonal belonging to `p` is a winning line for `p`.
pub proof fn lemma_anti_diag_wins(b: Seq<Square>, dim: nat, p: Player)
    requires
        anti_diag_won(b, dim, p),
    ensures
        wins(b, dim, p),
{
}

/// Every cell of the board is occupied.
pub open spec fn full(b: Seq<Square>) -> bool {
    forall|k: int| 0 <= k < b.len() ==> b[k] != Square::Empty
}

/// The number of empty cells among the first `n` cells of the board.
pub open spec fn empties_upto(b: Seq<Square>, n: nat) -> nat
    decreases n,
{
    if n == 0 {
        0
    } else {
        empties_upto(b, (n - 1) as nat) + if b[n - 1] == Square::Empty {
            1nat
        } else {
            0nat
        }
    }
}

/// The number of empty cells of the board.
pub open spec fn empties(b: Seq<Square>) -> nat {
    empties_upto(b, b.len())
}

/// A flat row-major index lies inside the board.
proof fn lemma_flat_index(dim: nat, r: nat, c: nat)
    requires
        r < dim,
        c < dim,
    ensures
        r * dim + c < dim * dim,
{
    assert(r * dim + c < dim * dim) by (nonlinear_arith)
        requires
            r < dim,
            c < dim,
    ;
}

/// A search score is a terminal evaluation: loss, draw, or win.
pub open spec fn score_ok(s: int) -> bool {
    s == -1 || s == 0 || s == 1
}

/// A recorded move, if present, lies on the board.
pub open spec fn move_in_range(m: Option<Move>, dim: nat) -> bool {
    match m {
        Option::None => true,
        Option::Some(rc) => rc.0 < dim && rc.1 < dim,
    }
}

/// A search result holds a terminal score and an on-board move.
pub open spec fn result_ok(res: SearchResult, dim: nat) -> bool {
    score_ok(res.0 as int) && move_in_range(res.1, dim)
}

/// Occupying one empty cell lowers the count of empty cells by one.
proof fn lemma_empties_update(b: Seq<Square>, i: int, s: Square, n: nat)
    requires
        0 <= i < b.len(),
        b[i] == Square::Empty,
        s != Square::Empty,
        n <= b.len(),
    ensures
        i < n ==> empties_upto(b.update(i, s), n) + 1 == empties_upto(b, n),
        i >= n ==> empties_upto(b.update(i, s), n) == empties_upto(b, n),
    decreases n,
{
    if n > 0 {
        lemma_empties_update(b, i, s, (n - 1) as nat);
    }
}

/// A flat index below the board size determines a row below the dimension.
proof fn lemma_row_lt(dim: nat, r: nat, c: nat)
    requires
        r * dim + c < dim * dim,
    ensures
        r < dim,
{
    assert(r < dim) by (nonlinear_arith)
        requires
            r * dim + c < dim * dim,
    ;
}

/// In a grid whose rows are `d + 1` characters wide, any cell of an
/// earlier row lies before the current row's first character.
proof fn lemma_row_index_lt(d: nat, r2: nat, c2: nat, r: nat)
    requires
        r2 < r,
        c2 <= d,
    ensures
        r2 * (d + 1) + c2 < r * (d + 1),
{
    assert(r2 * (d + 1) + c2 < r * (d + 1)) by (nonlinear_arith)
        requires
            r2 < r,
            c2 <= d,
    ;
}

/// Stepping to the next row advances the flat index by one row's width.
proof fn lemma_next_row(dim: nat, r: nat)
    ensures
        (r + 1) * dim == r * dim + dim,
{
    assert((r + 1) * dim == r * dim + dim) by (nonlinear_arith);
}

/// The search engine: it owns the board, the hasher, and the
/// transposition cache, and explores the game tree depth-first with
/// backtracking.
pub struct TicTacToe {
    board: Vec<Square>,
    dim: usize,
    zobrist: Zobrist,
    transpose: HashMap<u64, SearchResult>,
}

impl TicTacToe {
    /// The board dimension N.
    pub closed spec fn dim_spec(&self) -> nat {
        self.dim as nat
    }

    /// The board, as a row-major sequence of N * N squares.
    pub closed spec fn board_view(&self) -> Seq<Square> {
        self.board@
    }

    /// The hasher's random table.
    pub closed spec fn table_view(&self) -> Seq<u64> {
        self.zobrist.table_view()
    }

    /// The transposition cache, as a map from fingerprint to result.
    pub closed spec fn cache_view(&self) -> Map<u64, SearchResult> {
        self.transpose@
    }

    /// The fingerprint of the current position under the engine's table.
    pub open spec fn position_hash(&self) -> u64 {
        hash_of(self.table_view(), self.board_view())
    }

    /// Well-formedness: the board has N * N cells, the hasher matches the
    /// dimension, and every cached result is a terminal score with an
    /// on-board move.
    pub closed spec fn wf(&self) -> bool {
        &&& self.board@.len() == self.dim * self.dim
        &&& self.zobrist.wf()
        &&& self.zobrist.dim_spec() == self.dim as nat
        &&& forall|k: u64|
            self.transpose@.contains_key(k) ==> result_ok(
                #[trigger] self.transpose@[k],
                self.dim as nat,
            )
    }

    /// A fresh engine for a `dim` x `dim` board: every cell empty, a fresh
    /// random hash table, and an empty cache.
    pub fn new(dim: usize) -> (t: TicTacToe)
        requires
            2 * ((dim as int) * (dim as int)) <= usize::MAX as int,
        ensures
            t.wf(),
            t.dim_spec() == dim as nat,
            t.board_view().len() == (dim as int) * (dim as int),
            forall|k: int| 0 <= k < t.board_view().len() ==> t.board_view()[k] == Square::Empty,
            t.cache_view() == Map::<u64, SearchResult>::empty(),
    {
        proof {
            assert((dim as int) * (dim as int) >= 0) by (nonlinear_arith);
        }
        let cells = dim * dim;
        let mut board: Vec<Square> = Vec::new();
        for k in 0..cells
            invariant
                board@.len() == k,
                forall|q: int| 0 <= q < k ==> board@[q] == Square::Empty,
        {
            board.push(Square::Empty);
        }
        TicTacToe { board, dim, zobrist: Zobrist::new(dim), transpose: HashMap::new() }
    }

    /// The board dimension.
    pub fn dimension(&self) -> (d: usize)
        ensures
            d as nat == self.dim_spec(),
    {
        self.dim
    }

    /// The square at row `r`, column `c`.
    pub fn get_cell(&self, r: usize, c: usize) -> (s: Square)
        requires
            self.wf(),
            r < self.dim_spec(),
            c < self.dim_spec(),
        ensures
            s == at(self.board_view(), self.dim_spec(), r as nat, c as nat),
    {
        let n = self.board.len();
        proof {
            lemma_flat_index(self.dim as nat, r as nat, c as nat);
            assert((r as int) * (self.dim as int) + (c as int) < n as int);
        }
        self.board[r * self.dim + c]
    }

    /// Write the square at row `r`, column `c`; the caller uses this to
    /// apply a chosen move. Everything else — dimension, hash table,
    /// cache — is untouched.
    pub fn set_cell(&mut self, r: usize, c: usize, s: Square)
        requires
            old(self).wf(),
            r < old(self).dim_spec(),
            c < old(self).dim_spec(),
        ensures
            final(self).wf(),
            final(self).dim_spec() == old(self).dim_spec(),
            final(self).table_view() == old(self).table_view(),
            final(self).cache_view() == old(self).cache_view(),
            final(self).board_view() == old(self).board_view().update(
                (r as int) * (old(self).dim_spec() as int) + (c as int),
                s,
            ),
    {
        let n = self.board.len();
        proof {
            lemma_flat_index(self.dim as nat, r as nat, c as nat);
            assert((r as int) * (self.dim as int) + (c as int) < n as int);
        }
        let k = r * self.dim + c;
        self.board.set(k, s);
    }

    /// Whether `p` has a winning line: a full row, a full column, the main
    /// diagonal, or the anti-diagonal, entirely occupied by `p`.
    pub fn is_winner(&self, p: Player) -> (won: bool)
        requires
            self.wf(),
        ensures
            won == wins(self.board_view(), self.dim_spec(), p),
    {
        let ghost b = self.board@;
        let ghost d = self.dim as nat;
        let dim = self.dim;
        let n = self.board.len();
        let mut any_row = false;
        let mut any_col = false;
        let mut diag = true;
        let mut anti = true;
        for i in 0..dim
            invariant
                self.wf(),
                dim == self.dim,
                b == self.board@,
                d == dim as nat,
                n == self.board@.len(),
                any_row == exists|i2: nat| i2 < i && row_won(b, d, i2, p),
                any_col == exists|j2: nat| j2 < i && col_won(b, d, j2, p),
                diag == forall|i2: nat| i2 < i ==> at(b, d, i2, i2) == Square::Player(p),
                anti == forall|i2: nat, j2: nat|
                    i2 < i && j2 < d && i2 + j2 + 1 == d ==> at(b, d, i2, j2) == Square::Player(p),
        {
            let mut rw = true;
            let mut cw = true;
            for j in 0..dim
                invariant
                    self.wf(),
                    dim == self.dim,
                    b == self.board@,
                    d == dim as nat,
                    n == self.board@.len(),
                    i < dim,
                    rw == forall|j2: nat| j2 < j ==> at(b, d, i as nat, j2) == Square::Player(p),
                    cw == forall|j2: nat| j2 < j ==> at(b, d, j2, i as nat) == Square::Player(p),
            {
                proof {
                    lemma_flat_index(d, i as nat, j as nat);
                    lemma_flat_index(d, j as nat, i as nat);
                    assert(at(b, d, i as nat, j as nat) == b[(i as int) * (dim as int) + (j as int)]);
                    assert(at(b, d, j as nat, i as nat) == b[(j as int) * (dim as int) + (i as int)]);
                }
                if !(self.board[i * dim + j] == Square::Player(p)) {
                    rw = false;
                }
                if !(self.board[j * dim + i] == Square::Player(p)) {
                    cw = false;
                }
            }
            proof {
                assert(rw == row_won(b, d, i as nat, p));
                assert(cw == col_won(b, d, i as nat, p));
            }
            if rw {
                any_row = true;
            }
            if cw {
                any_col = true;
            }
            proof {
                lemma_flat_index(d, i as nat, i as nat);
                assert(at(b, d, i as nat, i as nat) == b[(i as int) * (dim as int) + (i as int)]);
            }
            if !(self.board[i * dim + i] == Square::Player(p)) {
                diag = false;
            }
            let anti_col = dim - 1 - i;
            proof {
                lemma_flat_index(d, i as nat, anti_col as nat);
                assert(at(b, d, i as nat, anti_col as nat) == b[(i as int) * (dim as int)
                    + (anti_col as int)]);
            }
            if !(self.board[i * dim + anti_col] == Square::Player(p)) {
                anti = false;
            }
        }
        any_row || any_col || diag || anti
    }

    /// Whether every cell is occupied: the draw condition, independent of
    /// any win.
    pub fn is_draw(&self) -> (r: bool)
        requires
            self.wf(),
        ensures
            r == full(self.board_view()),
    {
        let n = self.board.len();
        for k in 0..n
            invariant
                n == self.board@.len(),
                forall|q: int| 0 <= q < k ==> self.board@[q] != Square::Empty,
        {
            if self.board[k] == Square::Empty {
                return false;
            }
        }
        true
    }

    /// The board as a human-readable grid of characters: one symbol per
    /// cell, rows separated by newlines.
    pub fn render(&self) -> (out: Vec<char>)
        requires
            self.wf(),
        ensures
            out@.len() == self.dim_spec() * (self.dim_spec() + 1),
            forall|r2: nat, c2: nat|
                r2 < self.dim_spec() && c2 < self.dim_spec() ==> grid_char(
                    out@,
                    self.dim_spec(),
                    r2,
                    c2,
                ) == symbol_of(at(self.board_view(), self.dim_spec(), r2, c2)),
            forall|r2: nat|
                r2 < self.dim_spec() ==> grid_char(out@, self.dim_spec(), r2, self.dim_spec())
                    == '\n',
    {
        let ghost b = self.board@;
        let ghost d = self.dim as nat;
        let dim = self.dim;
        let n = self.board.len();
        let mut out: Vec<char> = Vec::new();
        proof {
            assert((0int) * ((dim as int) + 1) == 0) by (nonlinear_arith);
        }
        for r in 0..dim
            invariant
                self.wf(),
                dim == self.dim,
                b == self.board@,
                d == dim as nat,
                n == self.board@.len(),
                out@.len() == (r as int) * ((dim as int) + 1),
                forall|r2: nat, c2: nat|
                    r2 < r && c2 < d ==> grid_char(out@, d, r2, c2) == symbol_of(at(b, d, r2, c2)),
                forall|r2: nat| r2 < r ==> grid_char(out@, d, r2, d) == '\n',
        {
            for c in 0..dim
                invariant
                    self.wf(),
                    dim == self.dim,
                    b == self.board@,
                    d == dim as nat,
                    n == self.board@.len(),
                    r < dim,
                    out@.len() == (r as int) * ((dim as int) + 1) + (c as int),
                    forall|r2: nat, c2: nat|
                        r2 < r && c2 < d ==> grid_char(out@, d, r2, c2) == symbol_of(
                            at(b, d, r2, c2),
                        ),
                    forall|r2: nat| r2 < r ==> grid_char(out@, d, r2, d) == '\n',
                    forall|c2: nat|
                        c2 < c ==> grid_char(out@, d, r as nat, c2) == symbol_of(
                            at(b, d, r as nat, c2),
                        ),
            {
                proof {
                    lemma_flat_index(d, r as nat, c as nat);
                    assert(at(b, d, r as nat, c as nat) == b[(r as int) * (dim as int) + (
                    c as int)]);
                }
                let sq = self.board[r * dim + c];
                let ghost s_pre = out@;
                out.push(sq.symbol());
                proof {
                    assert forall|r2: nat, c2: nat| r2 < r && c2 < d implies grid_char(
                        out@,
                        d,
                        r2,
                        c2,
                    ) == symbol_of(at(b, d, r2, c2)) by {
                        lemma_row_index_lt(d, r2, c2, r as nat);
                        assert(grid_char(s_pre, d, r2, c2) == symbol_of(at(b, d, r2, c2)));
                    };
                    assert forall|r2: nat| r2 < r implies grid_char(out@, d, r2, d) == '\n' by {
                        lemma_row_index_lt(d, r2, d, r as nat);
                        assert(grid_char(s_pre, d, r2, d) == '\n');
                    };
                    assert forall|c2: nat| c2 < c + 1 implies grid_char(out@, d, r as nat, c2)
                        == symbol_of(at(b, d, r as nat, c2)) by {
                        if c2 < c as nat {
                            assert(grid_char(s_pre, d, r as nat, c2) == symbol_of(
                                at(b, d, r as nat, c2),
                            ));
                        }
                    };
                }
            }
            let ghost s_mid = out@;
            out.push('\n');
            proof {
                lemma_next_row(d + 1, r as nat);
                assert forall|r2: nat, c2: nat| r2 < r + 1 && c2 < d implies grid_char(
                    out@,
                    d,
                    r2,
                    c2,
                ) == symbol_of(at(b, d, r2, c2)) by {
                    if r2 < r as nat {
                        lemma_row_index_lt(d, r2, c2, r as nat);
                        assert(grid_char(s_mid, d, r2, c2) == symbol_of(at(b, d, r2, c2)));
                    } else {
                        assert(grid_char(s_mid, d, r2, c2) == symbol_of(at(b, d, r2, c2)));
                    }
                };
                assert forall|r2: nat| r2 < r + 1 implies grid_char(out@, d, r2, d) == '\n' by {
                    if r2 < r as nat {
                        lemma_row_index_lt(d, r2, d, r as nat);
                        assert(grid_char(s_mid, d, r2, d) == '\n');
                    }
                };
            }
        }
        out
    }

    /// The game-theoretic outcome for `p`, who is to move, under the
    /// alpha-beta window `(alpha, beta)`: negamax search with
    /// transposition memoization.
    ///
    /// The cache is probed before anything else; a hit returns the stored
    /// result and changes nothing. On a miss, a position already won by
    /// `p` scores +1, one already won by the opponent -1, and a full board
    /// 0, each with no move and no cache change. Otherwise the empty cells
    /// are explored in row-major order, each placement undone before the
    /// next, and the best result — ties kept by the first-found move — is
    /// stored under this position's fingerprint and returned. The board is
    /// always cell-for-cell as it was, the score is one of {-1, 0, +1},
    /// and every entry the cache held when the call began is still there,
    /// unchanged, when it returns.
    pub fn negamax(&mut self, p: Player, alpha: i32, beta: i32) -> (res: SearchResult)
        requires
            old(self).wf(),
            alpha > i32::MIN,
            beta > i32::MIN,
        ensures
            final(self).wf(),
            final(self).dim_spec() == old(self).dim_spec(),
            final(self).board_view() == old(self).board_view(),
            final(self).table_view() == old(self).table_view(),
            score_ok(res.0 as int),
            move_in_range(res.1, old(self).dim_spec()),
            forall|k: u64| #[trigger]
                old(self).cache_view().contains_key(k) ==> final(self).cache_view().contains_key(k)
                    && final(self).cache_view()[k] == old(self).cache_view()[k],
            old(self).cache_view().contains_key(old(self).position_hash()) ==> res == old(
                self,
            ).cache_view()[old(self).position_hash()] && final(self).cache_view() == old(
                self,
            ).cache_view(),
            !old(self).cache_view().contains_key(old(self).position_hash()) && wins(
                old(self).board_view(),
                old(self).dim_spec(),
                p,
            ) ==> res.0 == 1 && res.1 is None && final(self).cache_view() == old(self).cache_view(),
            !old(self).cache_view().contains_key(old(self).position_hash()) && !wins(
                old(self).board_view(),
                old(self).dim_spec(),
                p,
            ) && wins(old(self).board_view(), old(self).dim_spec(), opposite(p)) ==> res.0 == -1
                && res.1 is None && final(self).cache_view() == old(self).cache_view(),
            !old(self).cache_view().contains_key(old(self).position_hash()) && !wins(
                old(self).board_view(),
                old(self).dim_spec(),
                p,
            ) && !wins(old(self).board_view(), old(self).dim_spec(), opposite(p)) && full(
                old(self).board_view(),
            ) ==> res.0 == 0 && res.1 is None && final(self).cache_view() == old(
                self,
            ).cache_view(),
            !wins(old(self).board_view(), old(self).dim_spec(), p) && !wins(
                old(self).board_view(),
                old(self).dim_spec(),
                opposite(p),
            ) && !full(old(self).board_view()) ==> final(self).cache_view().contains_key(
                old(self).position_hash(),
            ) && final(self).cache_view()[old(self).position_hash()] == res,
            !old(self).cache_view().contains_key(old(self).position_hash()) && !wins(
                old(self).board_view(),
                old(self).dim_spec(),
                p,
            ) && !wins(old(self).board_view(), old(self).dim_spec(), opposite(p)) && !full(
                old(self).board_view(),
            ) ==> match res.1 {
                Option::Some(mv) => at(
                    old(self).board_view(),
                    old(self).dim_spec(),
                    mv.0 as nat,
                    mv.1 as nat,
                ) == Square::Empty,
                Option::None => false,
            },
        decreases empties(old(self).board_view()),
    {
        let h = self.zobrist.hash(&self.board);
        if let Some(cached) = self.transpose.get(&h) {
            return *cached;
        }
        if self.is_winner(p) {
            return (1, None);
        }
        let opp = p.opponent();
        if self.is_winner(opp) {
            return (-1, None);
        }
        if self.is_draw() {
            return (0, None);
        }
        let ghost b0 = self.board@;
        let ghost d = self.dim as nat;
        let ghost cache0 = self.transpose@;
        let dim = self.dim;
        let n = self.board.len();
        let mut best_score: i32 = i32::MIN;
        let mut best_move: Option<Move> = None;
        let mut a = alpha;
        let mut i: usize = 0;
        let mut row: usize = 0;
        let mut col: usize = 0;
        let mut stop = false;
        while i < n && !stop
            invariant
                self.wf(),
                self.dim == dim,
                d == dim as nat,
                n == self.board@.len(),
                self.board@ == b0,
                b0 == old(self).board_view(),
                b0.len() == (dim as int) * (dim as int),
                self.zobrist.table_view() == old(self).table_view(),
                self.zobrist.dim_spec() == d,
                cache0 == old(self).cache_view(),
                forall|k: u64| #[trigger]
                    cache0.contains_key(k) ==> self.transpose@.contains_key(k)
                        && self.transpose@[k] == cache0[k],
                alpha > i32::MIN,
                beta > i32::MIN,
                a >= alpha,
                i <= n,
                i < n ==> row < dim && col < dim && i as int == (row as int) * (dim as int) + (
                col as int),
                best_move is None ==> best_score == i32::MIN && (forall|q: int|
                    0 <= q < i ==> b0[q] != Square::Empty),
                best_move is Some ==> score_ok(best_score as int) && move_in_range(best_move, d),
                match best_move {
                    Option::Some(mv) => at(b0, d, mv.0 as nat, mv.1 as nat) == Square::Empty,
                    Option::None => true,
                },
                stop ==> best_move is Some,
            decreases n - i,
        {
            let sq = self.board[i];
            if sq == Square::Empty {
                self.board.set(i, Square::Player(p));
                proof {
                    lemma_empties_update(b0, i as int, Square::Player(p), b0.len());
                    assert(empties(self.board@) + 1 == empties(b0));
                }
                let (v, _child_move) = self.negamax(opp, -beta, -a);
                self.board.set(i, Square::Empty);
                proof {
                    assert(self.board@ =~= b0);
                }
                let neg = -v;
                if neg > best_score {
                    proof {
                        assert(at(b0, d, row as nat, col as nat) == b0[i as int]);
                    }
                    best_score = neg;
                    best_move = Some((row, col));
                }
                if best_score > a {
                    a = best_score;
                }
                if a >= beta {
                    stop = true;
                }
            }
            i = i + 1;
            if col + 1 < dim {
                col = col + 1;
            } else {
                proof {
                    lemma_next_row(d, row as nat);
                }
                col = 0;
                row = row + 1;
            }
            proof {
                if i < n {
                    lemma_row_lt(d, row as nat, col as nat);
                }
            }
        }
        proof {
            if best_move is None {
                assert(forall|q: int| 0 <= q < b0.len() ==> b0[q] != Square::Empty);
                assert(full(b0));
                assert(false);
            }
        }
        let result = (best_score, best_move);
        self.transpose.insert(h, result);
        result
    }

    /// Law: the search is deterministic. Two calls in a row on the same
    /// engine, with the same player and the same window, return the same
    /// score and the same move, and leave the board as it was.
    pub fn negamax_twice(&mut self, p: Player, alpha: i32, beta: i32) -> (pair: (
        SearchResult,
        SearchResult,
    ))
        requires
            old(self).wf(),
            alpha > i32::MIN,
            beta > i32::MIN,
        ensures
            pair.1 == pair.0,
            final(self).wf(),
            final(self).board_view() == old(self).board_view(),
            final(self).dim_spec() == old(self).dim_spec(),
    {
        let first = self.negamax(p, alpha, beta);
        let second = self.negamax(p, alpha, beta);
        (first, second)
    }
}

} // verus!
