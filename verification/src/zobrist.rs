//! Position hashing: a table of random 64-bit values, one per
//! (cell, player) pair, XOR-combined over the occupied cells of a board.

use vstd::prelude::*;
use crate::game::{Player, Square};

verus! {

/// A Zobrist hasher for boards of one fixed dimension: one independently
/// drawn random 64-bit value per (cell index, player) pair, stored flat
/// as `table[2 * cell + player_index]`.
pub struct Zobrist {
    table: Vec<u64>,
    dim: usize,
}

/// The index of a player inside one cell's pair of table entries.
pub open spec fn player_index(p: Player) -> nat {
    match p {
        Player::O => 0,
        Player::X => 1,
    }
}

/// The table slot of a player, within the pair belonging to one cell.
pub fn index_of(p: Player) -> (r: usize)
    ensures
        r == player_index(p),
{
    match p {
        Player::O => 0,
        Player::X => 1,
    }
}

/// The contribution of cell `k` to the hash: the table value of its
/// occupant, or zero for an empty cell.
pub open spec fn contribution(table: Seq<u64>, b: Seq<Square>, k: nat) -> u64 {
    match b[k as int] {
        Square::Empty => 0u64,
        Square::Player(p) => table[(2 * k + player_index(p)) as int],
    }
}

/// The XOR of the contributions of the first `n` cells.
pub open spec fn hash_upto(table: Seq<u64>, b: Seq<Square>, n: nat) -> u64
    decreases n,
{
    if n == 0 {
        0u64
    } else {
        hash_upto(table, b, (n - 1) as nat) ^ contribution(table, b, (n - 1) as nat)
    }
}

/// The fingerprint of a full board under a given table: the XOR of the
/// table values of every occupied cell.
pub open spec fn hash_of(table: Seq<u64>, b: Seq<Square>) -> u64 {
    hash_upto(table, b, b.len())
}

/// Law: writing a cell and then writing its old contents back restores
/// the fingerprint exactly — which is why a board explored by placing and
/// then removing a mark probes the cache under its original hash.
pub proof fn lemma_hash_restore(table: Seq<u64>, b: Seq<Square>, i: int, s: Square)
    requires
        0 <= i < b.len(),
    ensures
        hash_of(table, b.update(i, s).update(i, b[i])) == hash_of(table, b),
{
    assert(b.update(i, s).update(i, b[i]) =~= b);
}

/// Relies on rand::random (the thread-local generator with the standard
/// uniform distribution): draws one random 64-bit value. Nothing is
/// promised of the result.
#[verifier::external_body]
fn random_u64() -> u64 {
    rand::random::<u64>()
}

impl Zobrist {
    /// The random table, as a sequence of 64-bit values.
    pub closed spec fn table_view(&self) -> Seq<u64> {
        self.table@
    }

    /// The board dimension this hasher was built for.
    pub closed spec fn dim_spec(&self) -> nat {
        self.dim as nat
    }

    /// The table holds one pair of values per cell of a `dim` x `dim` board.
    pub closed spec fn wf(&self) -> bool {
        self.table@.len() == 2 * (self.dim * self.dim)
    }

    /// A fresh hasher for boards of dimension `dim`: draws `2 * dim * dim`
    /// independent random 64-bit values.
    pub fn new(dim: usize) -> (z: Zobrist)
        requires
            2 * ((dim as int) * (dim as int)) <= usize::MAX as int,
        ensures
            z.wf(),
            z.dim_spec() == dim as nat,
    {
        proof {
            assert((dim as int) * (dim as int) >= 0) by (nonlinear_arith);
        }
        let cells = dim * dim;
        let total = 2 * cells;
        let mut table: Vec<u64> = Vec::new();
        for k in 0..total
            invariant
                table@.len() == k,
        {
            table.push(random_u64());
        }
        Zobrist { table, dim }
    }

    /// The fingerprint of `board`: XOR of the table values of the occupied
    /// cells. A pure function of the board and the fixed table, so two
    /// cell-for-cell identical boards always hash identically.
    pub fn hash(&self, board: &Vec<Square>) -> (h: u64)
        requires
            self.wf(),
            board@.len() == self.dim_spec() * self.dim_spec(),
        ensures
            h == hash_of(self.table_view(), board@),
    {
        let n = board.len();
        let mut h: u64 = 0;
        for k in 0..n
            invariant
                n == board@.len(),
                self.wf(),
                board@.len() == self.dim_spec() * self.dim_spec(),
                h == hash_upto(self.table_view(), board@, k as nat),
        {
            match board[k] {
                Square::Empty => {
                    proof {
                        assert(h ^ 0u64 == h) by (bit_vector);
                    }
                }
                Square::Player(p) => {
                    let tlen = self.table.len();
                    assert(2 * (k as int) + 1 < tlen as int);
                    let slot = 2 * k + index_of(p);
                    h = h ^ self.table[slot];
                }
            }
        }
        h
    }
}

} // verus!
