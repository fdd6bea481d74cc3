//! The position hasher: maps a full board state — piece placement, side
//! to move, castling rights, en-passant target, and nothing else — to a
//! 64-bit identity. The identity is the XOR of one keyed contribution per
//! present feature, so it is a function of the state alone (transposition
//! invariant), and one feature can be toggled in constant time.

use vstd::prelude::*;

verus! {

/// Code for an empty square.
pub const EMPTY_SQUARE: u8 = 0;

/// Largest piece code: codes run 1 through 12, the six white piece kinds
/// then the six black ones.
pub const MAX_PIECE: u8 = 12;

/// En-passant field value meaning "no en-passant target".
pub const NO_EN_PASSANT: u8 = 64;

/// A full board state. Move counters are deliberately absent: they do not
/// take part in the position identity.
#[derive(Debug)]
pub struct Board {
    /// 64 entries, square index = rank * 8 + file; `EMPTY_SQUARE` or a
    /// piece code 1 through `MAX_PIECE`.
    pub squares: Vec<u8>,
    pub white_to_move: bool,
    /// Low four bits, one per castling right.
    pub castling: u8,
    /// En-passant target square, or `NO_EN_PASSANT`.
    pub en_passant: u8,
}

/// Mathematical image of a board state.
#[verifier::ext_equal]
pub ghost struct BoardView {
    pub squares: Seq<u8>,
    pub white_to_move: bool,
    pub castling: u8,
    pub en_passant: u8,
}

impl View for Board {
    type V = BoardView;

    open spec fn view(&self) -> BoardView {
        BoardView {
            squares: self.squares@,
            white_to_move: self.white_to_move,
            castling: self.castling,
            en_passant: self.en_passant,
        }
    }
}

/// A well-formed board state.
pub open spec fn wf_board(b: BoardView) -> bool {
    &&& b.squares.len() == 64
    &&& forall|i: int| 0 <= i < 64 ==> #[trigger] b.squares[i] <= MAX_PIECE
    &&& b.castling < 16
    &&& b.en_passant <= NO_EN_PASSANT
}

/// The 64-bit key of feature number `i`: a fixed avalanche mixing of the
/// index, the same in every process.
#[verifier::opaque]
pub open spec fn spec_feature_key(i: u64) -> u64 {
    let a = i.wrapping_mul(0x9E3779B97F4A7C15).wrapping_add(0x243F6A8885A308D3);
    let b = (a ^ (a >> 30)).wrapping_mul(0xBF58476D1CE4E5B9);
    let c = (b ^ (b >> 27)).wrapping_mul(0x94D049BB133111EB);
    c ^ (c >> 31)
}

fn feature_key(i: u64) -> (r: u64)
    ensures
        r == spec_feature_key(i),
{
    proof {
        reveal(spec_feature_key);
    }
    let a = i.wrapping_mul(0x9E3779B97F4A7C15).wrapping_add(0x243F6A8885A308D3);
    let b = (a ^ (a >> 30)).wrapping_mul(0xBF58476D1CE4E5B9);
    let c = (b ^ (b >> 27)).wrapping_mul(0x94D049BB133111EB);
    c ^ (c >> 31)
}

/// The feature number of a piece standing on a square.
pub open spec fn spec_piece_feature(piece: u8, square: u8) -> u64 {
    ((piece - 1) * 64 + square) as u64
}

/// The contribution of one square to the identity.
pub open spec fn square_term(squares: Seq<u8>, i: int) -> u64 {
    if squares[i] == EMPTY_SQUARE {
        0
    } else {
        spec_feature_key(spec_piece_feature(squares[i], i as u8))
    }
}

/// XOR of the contributions of the first `n` squares.
pub open spec fn squares_hash(squares: Seq<u8>, n: int) -> u64
    decreases n,
{
    if n <= 0 {
        0
    } else {
        squares_hash(squares, n - 1) ^ square_term(squares, n - 1)
    }
}

/// The contribution of one castling right.
pub open spec fn castling_term(castling: u8, k: int) -> u64 {
    if castling & (1u8 << k as u8) != 0 {
        spec_feature_key((769 + k) as u64)
    } else {
        0
    }
}

/// XOR of the contributions of the four castling rights.
pub open spec fn castling_hash(castling: u8) -> u64 {
    castling_term(castling, 0) ^ castling_term(castling, 1) ^ castling_term(castling, 2)
        ^ castling_term(castling, 3)
}

/// The contribution of the side to move.
pub open spec fn turn_term(white_to_move: bool) -> u64 {
    if white_to_move {
        spec_feature_key(768)
    } else {
        0
    }
}

/// The contribution of the en-passant target.
pub open spec fn en_passant_term(en_passant: u8) -> u64 {
    if en_passant < NO_EN_PASSANT {
        spec_feature_key((773 + en_passant) as u64)
    } else {
        0
    }
}

/// The position identity of a board state: XOR of every present
/// feature's key.
pub open spec fn board_hash(b: BoardView) -> u64 {
    squares_hash(b.squares, 64) ^ turn_term(b.white_to_move) ^ castling_hash(b.castling)
        ^ en_passant_term(b.en_passant)
}

/// Law: the identity is a function of the board state alone. Two move
/// sequences that reach states with the same placement, side to move,
/// castling rights and en-passant target — a transposition — get the
/// same identity, whatever order the moves came in.
pub proof fn lemma_transposition_invariance(a: BoardView, b: BoardView)
    requires
        a.squares =~= b.squares,
        a.white_to_move == b.white_to_move,
        a.castling == b.castling,
        a.en_passant == b.en_passant,
    ensures
        board_hash(a) == board_hash(b),
{
    assert(a =~= b);
}

/// Law: toggling a feature twice restores the identity, and toggled
/// features commute — updating the hash incrementally in any order of
/// feature changes reaches the same identity.
pub proof fn lemma_toggle_cancels_and_commutes(h: u64, k1: u64, k2: u64)
    ensures
        (h ^ k1) ^ k1 == h,
        (h ^ k1) ^ k2 == (h ^ k2) ^ k1,
{
    assert((h ^ k1) ^ k1 == h) by (bit_vector);
    assert((h ^ k1) ^ k2 == (h ^ k2) ^ k1) by (bit_vector);
}

proof fn lemma_xor_zero(x: u64)
    ensures
        x ^ 0u64 == x,
        0u64 ^ x == x,
{
    assert(x ^ 0u64 == x && 0u64 ^ x == x) by (bit_vector);
}

/// Compute the identity of a board state from scratch.
pub fn hash_board(board: &Board) -> (r: u64)
    requires
        wf_board(board@),
    ensures
        r == board_hash(board@),
{
    let ghost c = board@.castling;
    let mut h: u64 = 0;
    let mut i: usize = 0;
    while i < 64
        invariant
            i <= 64,
            wf_board(board@),
            h == squares_hash(board@.squares, i as int),
        decreases 64 - i,
    {
        let p = board.squares[i];
        if p != EMPTY_SQUARE {
            let f = ((p - 1) as u64) * 64 + (i as u64);
            proof {
                assert(f == spec_piece_feature(board@.squares[i as int], i as u8));
                assert(square_term(board@.squares, i as int) == spec_feature_key(f));
            }
            h = h ^ feature_key(f);
        } else {
            proof {
                assert(square_term(board@.squares, i as int) == 0);
                lemma_xor_zero(h);
            }
        }
        i += 1;
    }
    if board.white_to_move {
        h = h ^ feature_key(768);
    } else {
        proof {
            lemma_xor_zero(h);
        }
    }
    proof {
        assert(h == squares_hash(board@.squares, 64) ^ turn_term(board@.white_to_move));
        assert(1u8 << 0u8 == 1u8 && 1u8 << 1u8 == 2u8 && 1u8 << 2u8 == 4u8 && 1u8 << 3u8
            == 8u8) by (bit_vector);
    }
    let mut ch: u64 = 0;
    if board.castling & 1u8 != 0 {
        ch = ch ^ feature_key(769);
    }
    proof {
        lemma_xor_zero(castling_term(c, 0));
        assert(ch == castling_term(c, 0));
    }
    if board.castling & 2u8 != 0 {
        ch = ch ^ feature_key(770);
    } else {
        proof {
            lemma_xor_zero(ch);
        }
    }
    proof {
        assert(ch == castling_term(c, 0) ^ castling_term(c, 1));
    }
    if board.castling & 4u8 != 0 {
        ch = ch ^ feature_key(771);
    } else {
        proof {
            lemma_xor_zero(ch);
        }
    }
    proof {
        assert(ch == castling_term(c, 0) ^ castling_term(c, 1) ^ castling_term(c, 2));
    }
    if board.castling & 8u8 != 0 {
        ch = ch ^ feature_key(772);
    } else {
        proof {
            lemma_xor_zero(ch);
        }
    }
    proof {
        assert(ch == castling_hash(c));
    }
    h = h ^ ch;
    if board.en_passant < NO_EN_PASSANT {
        h = h ^ feature_key(773 + (board.en_passant as u64));
    } else {
        proof {
            lemma_xor_zero(h);
        }
    }
    h
}

/// Update an identity for one feature change: XOR with the changed
/// piece's key. Applying the same change again restores the identity.
pub fn toggle_piece(h: u64, piece: u8, square: u8) -> (r: u64)
    requires
        1 <= piece <= MAX_PIECE,
        square < 64,
    ensures
        r == h ^ spec_feature_key(spec_piece_feature(piece, square)),
{
    let f = ((piece - 1) as u64) * 64 + (square as u64);
    proof {
        assert(f == spec_piece_feature(piece, square));
    }
    h ^ feature_key(f)
}

/// The piece standing on square `i` in the standard starting position:
/// white's back rank, white pawns, four empty ranks, black pawns,
/// black's back rank.
pub open spec fn spec_starting_piece(i: int) -> u8 {
    let f = i % 8;
    if i < 8 {
        spec_back_rank_piece(f)
    } else if i < 16 {
        1u8
    } else if i < 48 {
        0u8
    } else if i < 56 {
        7u8
    } else {
        (spec_back_rank_piece(f) + 6) as u8
    }
}

/// White's back-rank piece on file `f`: rook, knight, bishop, queen on
/// the d-file, king on the e-file.
pub open spec fn spec_back_rank_piece(f: int) -> u8 {
    if f == 0 || f == 7 {
        4u8
    } else if f == 1 || f == 6 {
        2u8
    } else if f == 2 || f == 5 {
        3u8
    } else if f == 3 {
        5u8
    } else {
        6u8
    }
}

/// Image of the standard starting position.
pub open spec fn spec_starting_board() -> BoardView {
    BoardView {
        squares: Seq::new(64, |i: int| spec_starting_piece(i)),
        white_to_move: true,
        castling: 15,
        en_passant: NO_EN_PASSANT,
    }
}

fn back_rank_piece(f: usize) -> (r: u8)
    requires
        f < 8,
    ensures
        r == spec_back_rank_piece(f as int),
{
    if f == 0 || f == 7 {
        4
    } else if f == 1 || f == 6 {
        2
    } else if f == 2 || f == 5 {
        3
    } else if f == 3 {
        5
    } else {
        6
    }
}

/// The standard chess starting position.
pub fn starting_board() -> (r: Board)
    ensures
        wf_board(r@),
        r@ == spec_starting_board(),
{
    let mut squares: Vec<u8> = Vec::new();
    let mut i: usize = 0;
    while i < 64
        invariant
            i <= 64,
            squares@.len() == i,
            forall|t: int| 0 <= t < i ==> squares@[t] == spec_starting_piece(t),
        decreases 64 - i,
    {
        let f = i % 8;
        let p: u8 = if i < 8 {
            back_rank_piece(f)
        } else if i < 16 {
            1
        } else if i < 48 {
            0
        } else if i < 56 {
            7
        } else {
            back_rank_piece(f) + 6
        };
        squares.push(p);
        i += 1;
    }
    let r = Board { squares, white_to_move: true, castling: 15, en_passant: NO_EN_PASSANT };
    proof {
        assert(r@.squares =~= spec_starting_board().squares);
        assert(forall|t: int| 0 <= t < 64 ==> #[trigger] r@.squares[t] <= MAX_PIECE);
        assert(r@ =~= spec_starting_board());
    }
    r
}

} // verus!
