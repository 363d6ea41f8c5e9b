use crate::bitboards::{bit, lemma_bit_extensional, lemma_bit_ops, lemma_bit_single, lemma_bit_xor_auto};
use crate::board_representation::game_state::{
    piece_index, GameMove, GameMoveType, GameState, PieceType, BISHOP, BLACK, KING, KNIGHT, PAWN,
    QUEEN, ROOK, WHITE,
};
use crate::board_representation::zobrist_hashing::{
    board_keys_xor, ep_key, lemma_board_keys_xor_toggle, piece_keys, pieces_hash, Zobrist,
};
use vstd::prelude::*;

verus! {

// ---------------------------------------------------------------------------
// Hash bookkeeping.
// ---------------------------------------------------------------------------

/// The hash after the piece `mv.piece_type` of `move_color` moved from `mv.from` to `mv.to`.
pub fn move_piece_hash(keys: &Zobrist, move_color: usize, mv: &GameMove, hash: u64) -> (res: u64)
    requires
        move_color < 2,
        mv.from < 64,
        mv.to < 64,
    ensures
        res == hash ^ (piece_keys(*keys, piece_index(mv.piece_type), move_color as int)[mv.from as int]
            ^ piece_keys(*keys, piece_index(mv.piece_type), move_color as int)[mv.to as int]),
{
    let table = crate::board_representation::zobrist_hashing::keys_of(
        keys,
        mv.piece_type.to_index(),
        move_color,
    );
    hash ^ (table[mv.from] ^ table[mv.to])
}

/// The hash after the en-passant square changed from `old_en_passant` to `new_en_passant`.
pub fn enpassant_hash(keys: &Zobrist, old_en_passant: u64, new_en_passant: u64, hash: u64) -> (res: u64)
    ensures
        res == (hash ^ ep_key(*keys, old_en_passant)) ^ ep_key(*keys, new_en_passant),
{
    let mut hash = hash;
    let a = if old_en_passant != 0u64 {
        keys.en_passant[old_en_passant.trailing_zeros() as usize % 8]
    } else {
        0u64
    };
    let b = if new_en_passant != 0u64 {
        keys.en_passant[new_en_passant.trailing_zeros() as usize % 8]
    } else {
        0u64
    };
    hash = hash ^ a;
    hash = hash ^ b;
    hash
}

/// The hash after the castle rights of `g` became the new ones: the key of each right
/// that was held and is lost is flipped.
pub fn castle_hash(
    keys: &Zobrist,
    g: &GameState,
    ncwk: bool,
    ncwq: bool,
    ncbk: bool,
    ncbq: bool,
    hash: u64,
) -> (res: u64)
    ensures
        res == (((hash ^ (if g.castle_white_kingside && !ncwk {
            keys.castle_w_kingside
        } else {
            0u64
        })) ^ (if g.castle_white_queenside && !ncwq {
            keys.castle_w_queenside
        } else {
            0u64
        })) ^ (if g.castle_black_kingside && !ncbk {
            keys.castle_b_kingside
        } else {
            0u64
        })) ^ (if g.castle_black_queenside && !ncbq {
            keys.castle_b_queenside
        } else {
            0u64
        }),
{
    let a = if g.castle_white_kingside && !ncwk {
        keys.castle_w_kingside
    } else {
        0u64
    };
    let b = if g.castle_white_queenside && !ncwq {
        keys.castle_w_queenside
    } else {
        0u64
    };
    let c = if g.castle_black_kingside && !ncbk {
        keys.castle_b_kingside
    } else {
        0u64
    };
    let d = if g.castle_black_queenside && !ncbq {
        keys.castle_b_queenside
    } else {
        0u64
    };
    (((hash ^ a) ^ b) ^ c) ^ d
}

/// The hash after the piece `captured_piece` of `delete_color` left `delete_square`.
pub fn delete_piece_hash(
    keys: &Zobrist,
    delete_square: usize,
    delete_color: usize,
    captured_piece: PieceType,
    hash: u64,
) -> (res: u64)
    requires
        delete_square < 64,
        delete_color < 2,
        captured_piece != PieceType::King,
    ensures
        res == hash ^ piece_keys(*keys, piece_index(captured_piece), delete_color as int)[delete_square as int],
{
    let table = crate::board_representation::zobrist_hashing::keys_of(
        keys,
        captured_piece.to_index(),
        delete_color,
    );
    hash ^ table[delete_square]
}

// ---------------------------------------------------------------------------
// Changing the piece boards.
// ---------------------------------------------------------------------------

/// Moves the piece `mv.piece_type` of `move_color` from `mv.from` to `mv.to` on its board.
pub fn move_piece(pieces: &mut [[u64; 2]; 6], mv: &GameMove, move_color: usize)
    requires
        move_color < 2,
        mv.from < 64,
        mv.to < 64,
    ensures
        forall|p: int, c: int|
            0 <= p < 6 && 0 <= c < 2 ==> #[trigger] final(pieces)[p][c] == if p == piece_index(
                mv.piece_type,
            ) && c == move_color {
                (old(pieces)[p][c] ^ (1u64 << mv.from as u64)) | (1u64 << mv.to as u64)
            } else {
                old(pieces)[p][c]
            },
{
    let index = match mv.piece_type {
        PieceType::Pawn => PAWN,
        PieceType::Knight => KNIGHT,
        PieceType::Bishop => BISHOP,
        PieceType::Rook => ROOK,
        PieceType::Queen => QUEEN,
        PieceType::King => KING,
    };
    let v = (pieces[index][move_color] ^ (1u64 << mv.from as u64)) | (1u64 << mv.to as u64);
    let mut row = pieces[index];
    row[move_color] = v;
    pieces[index] = row;
}

/// Removes the piece `captured_piece` of `delete_color` from `delete_square` (by flipping
/// that square of its board).
pub fn delete_piece(
    pieces: &mut [[u64; 2]; 6],
    captured_piece: PieceType,
    delete_square: usize,
    delete_color: usize,
)
    requires
        delete_square < 64,
        delete_color < 2,
        captured_piece != PieceType::King,
    ensures
        forall|p: int, c: int|
            0 <= p < 6 && 0 <= c < 2 ==> #[trigger] final(pieces)[p][c] == if p == piece_index(
                captured_piece,
            ) && c == delete_color {
                old(pieces)[p][c] ^ (1u64 << delete_square as u64)
            } else {
                old(pieces)[p][c]
            },
{
    let index = match captured_piece {
        PieceType::Pawn => PAWN,
        PieceType::Knight => KNIGHT,
        PieceType::Bishop => BISHOP,
        PieceType::Rook => ROOK,
        PieceType::Queen => QUEEN,
        PieceType::King => KING,
    };
    let v = pieces[index][delete_color] ^ (1u64 << delete_square as u64);
    let mut row = pieces[index];
    row[delete_color] = v;
    pieces[index] = row;
}

/// The castle rights (king side, queen side) of the side to move after its move `mv`:
/// a king move loses both; a rook move loses a right whose corner rook is gone.
pub open spec fn castle_flags_after(
    ck: bool,
    cq: bool,
    mv: GameMove,
    color_to_move: int,
    pieces: [[u64; 2]; 6],
) -> (bool, bool) {
    match mv.piece_type {
        PieceType::King => (false, false),
        PieceType::Rook => (
            ck && !((color_to_move == 0 && !bit(pieces[3][0], 7)) || (color_to_move == 1 && !bit(
                pieces[3][1],
                63,
            ))),
            cq && !((color_to_move == 0 && !bit(pieces[3][0], 0)) || (color_to_move == 1 && !bit(
                pieces[3][1],
                56,
            ))),
        ),
        _ => (ck, cq),
    }
}

proof fn lemma_and_single(b: u64, s: u64)
    requires
        s < 64,
    ensures
        (b & (1u64 << s) == 0u64) == !bit(b, s as int),
{
    if b & (1u64 << s) == 0u64 {
        lemma_bit_ops(b, 1u64 << s, s as int);
        lemma_bit_single(s, s as int);
        lemma_bit_single(0, s as int);
    } else {
        if !bit(b, s as int) {
            assert forall|t: int| 0 <= t < 64 implies #[trigger] bit(b & (1u64 << s), t) == bit(
                0u64,
                t,
            ) by {
                lemma_bit_ops(b, 1u64 << s, t);
                lemma_bit_single(s, t);
            }
            lemma_bit_extensional(b & (1u64 << s), 0u64);
        }
    }
}

/// Whether the mover keeps its castle rights `ck` (king side) and `cq` (queen side).
pub fn check_castle_flags(
    ck: bool,
    cq: bool,
    mv: &GameMove,
    color_to_move: usize,
    pieces: [[u64; 2]; 6],
) -> (res: (bool, bool))
    ensures
        res == castle_flags_after(ck, cq, *mv, color_to_move as int, pieces),
{
    proof {
        lemma_and_single(pieces[3][0], 7);
        lemma_and_single(pieces[3][1], 63);
        lemma_and_single(pieces[3][0], 0);
        lemma_and_single(pieces[3][1], 56);
    }
    match mv.piece_type {
        PieceType::King => (false, false),
        PieceType::Rook => {
            let new_ck = if ck && (color_to_move == WHITE && pieces[ROOK][WHITE] & (1u64 << 7u64)
                == 0 || color_to_move == BLACK && pieces[ROOK][BLACK] & (1u64 << 63u64) == 0) {
                false
            } else {
                ck
            };
            let new_cq = if cq && (color_to_move == WHITE && pieces[ROOK][WHITE] & (1u64 << 0u64)
                == 0 || color_to_move == BLACK && pieces[ROOK][BLACK] & (1u64 << 56u64) == 0) {
                false
            } else {
                cq
            };
            (new_ck, new_cq)
        },
        _ => (ck, cq),
    }
}


// ---------------------------------------------------------------------------
// Facts on hashes of changed boards.
// ---------------------------------------------------------------------------

proof fn bv_xor_facts(a: u64, b: u64, c: u64)
    by (bit_vector)
    ensures
        (a ^ b) ^ c == a ^ (b ^ c),
        a ^ b == b ^ a,
        a ^ 0u64 == a,
        a ^ a == 0u64,
{
}

/// Moving a piece from an occupied square to an empty one flips the keys of both squares.
pub proof fn lemma_move_board_keys(b: u64, keys: [u64; 64], from: u64, to: u64)
    requires
        from < 64,
        to < 64,
        from != to,
        bit(b, from as int),
        !bit(b, to as int),
    ensures
        (b ^ (1u64 << from)) | (1u64 << to) == (b ^ (1u64 << from)) ^ (1u64 << to),
        board_keys_xor((b ^ (1u64 << from)) | (1u64 << to), keys, 64) == board_keys_xor(
            b,
            keys,
            64,
        ) ^ (keys[from as int] ^ keys[to as int]),
{
    let f = 1u64 << from;
    let t = 1u64 << to;
    assert forall|u: int| 0 <= u < 64 implies #[trigger] bit((b ^ f) | t, u) == bit((b ^ f) ^ t, u) by {
        lemma_bit_ops(b ^ f, t, u);
        lemma_bit_ops(b, f, u);
        lemma_bit_single(from, u);
        lemma_bit_single(to, u);
    }
    lemma_bit_extensional((b ^ f) | t, (b ^ f) ^ t);
    lemma_board_keys_xor_toggle(b, keys, 64, from);
    lemma_board_keys_xor_toggle(b ^ f, keys, 64, to);
    bv_xor_facts(board_keys_xor(b, keys, 64), keys[from as int], keys[to as int]);
}

/// Setting an empty square of a board flips that square's key.
pub proof fn lemma_set_board_keys(b: u64, keys: [u64; 64], s: u64)
    requires
        s < 64,
        !bit(b, s as int),
    ensures
        b | (1u64 << s) == b ^ (1u64 << s),
        board_keys_xor(b | (1u64 << s), keys, 64) == board_keys_xor(b, keys, 64) ^ keys[s as int],
{
    assert forall|u: int| 0 <= u < 64 implies #[trigger] bit(b | (1u64 << s), u) == bit(
        b ^ (1u64 << s),
        u,
    ) by {
        lemma_bit_ops(b, 1u64 << s, u);
        lemma_bit_single(s, u);
    }
    lemma_bit_extensional(b | (1u64 << s), b ^ (1u64 << s));
    lemma_board_keys_xor_toggle(b, keys, 64, s);
}

/// Changing one board of the position changes the pieces' hash by what that board's
/// hash changed.
pub proof fn lemma_pieces_hash_update(
    keys: Zobrist,
    old_pieces: [[u64; 2]; 6],
    new_pieces: [[u64; 2]; 6],
    p: int,
    c: int,
    d: u64,
)
    requires
        0 <= p < 6,
        0 <= c < 2,
        forall|q: int, e: int|
            0 <= q < 6 && 0 <= e < 2 && !(q == p && e == c) ==> #[trigger] new_pieces[q][e]
                == old_pieces[q][e],
        board_keys_xor(new_pieces[p][c], piece_keys(keys, p, c), 64) == board_keys_xor(
            old_pieces[p][c],
            piece_keys(keys, p, c),
            64,
        ) ^ d,
    ensures
        pieces_hash(keys, new_pieces) == pieces_hash(keys, old_pieces) ^ d,
{
    broadcast use lemma_bit_xor_auto;

    let x = pieces_hash(keys, new_pieces);
    let y = pieces_hash(keys, old_pieces) ^ d;
    assert(new_pieces[0][0] == old_pieces[0][0] || (p == 0 && c == 0));
    assert(new_pieces[1][0] == old_pieces[1][0] || (p == 1 && c == 0));
    assert(new_pieces[2][0] == old_pieces[2][0] || (p == 2 && c == 0));
    assert(new_pieces[3][0] == old_pieces[3][0] || (p == 3 && c == 0));
    assert(new_pieces[4][0] == old_pieces[4][0] || (p == 4 && c == 0));
    assert(new_pieces[5][0] == old_pieces[5][0] || (p == 5 && c == 0));
    assert(new_pieces[0][1] == old_pieces[0][1] || (p == 0 && c == 1));
    assert(new_pieces[1][1] == old_pieces[1][1] || (p == 1 && c == 1));
    assert(new_pieces[2][1] == old_pieces[2][1] || (p == 2 && c == 1));
    assert(new_pieces[3][1] == old_pieces[3][1] || (p == 3 && c == 1));
    assert(new_pieces[4][1] == old_pieces[4][1] || (p == 4 && c == 1));
    assert(new_pieces[5][1] == old_pieces[5][1] || (p == 5 && c == 1));
    assert forall|t: int| 0 <= t < 64 implies #[trigger] bit(x, t) == bit(y, t) by {}
    lemma_bit_extensional(x, y);
}


// ---------------------------------------------------------------------------
// Making moves.
// ---------------------------------------------------------------------------

/// What any move needs of the position so that making it stays in range.
pub open spec fn move_in_range(g: GameState, mv: GameMove) -> bool {
    &&& g.color_to_move < 2
    &&& mv.from < 64
    &&& mv.to < 64
    &&& g.half_moves < usize::MAX
    &&& g.full_moves < usize::MAX
}

/// The mover's piece stands on `from`, and its own board is empty on `to`.
pub open spec fn mover_fits(g: GameState, mv: GameMove) -> bool {
    let i = piece_index(mv.piece_type);
    let c = g.color_to_move as int;
    &&& mv.from != mv.to
    &&& bit(g.pieces[i][c], mv.from as int)
    &&& !bit(g.pieces[i][c], mv.to as int)
}

/// The en-passant square a move leaves behind: the square a pawn skipped on a double
/// push, else none.
pub open spec fn en_passant_after(g: GameState, mv: GameMove) -> u64 {
    if mv.piece_type == PieceType::Pawn && g.color_to_move == 0 && mv.to - mv.from == 16 {
        1u64 << (mv.to - 8) as u64
    } else if mv.piece_type == PieceType::Pawn && g.color_to_move == 1 && mv.from - mv.to == 16 {
        1u64 << (mv.to + 8) as u64
    } else {
        0u64
    }
}

/// `new_pieces` is `old_pieces` with the mover's piece moved from `from` to `to`.
pub open spec fn moved_on_board(
    old_pieces: [[u64; 2]; 6],
    new_pieces: [[u64; 2]; 6],
    mv: GameMove,
    color: int,
) -> bool {
    forall|p: int, c: int|
        0 <= p < 6 && 0 <= c < 2 ==> #[trigger] new_pieces[p][c] == if p == piece_index(
            mv.piece_type,
        ) && c == color {
            (old_pieces[p][c] ^ (1u64 << mv.from as u64)) | (1u64 << mv.to as u64)
        } else {
            old_pieces[p][c]
        }
}

/// The key of a castle right that is held in `old` and lost in `new`, else nothing.
pub open spec fn lost_right(old: bool, new: bool, key: u64) -> u64 {
    if old && !new {
        key
    } else {
        0u64
    }
}

/// The flag's key when the flag is set.
pub open spec fn flag_key(flag: bool, key: u64) -> u64 {
    if flag {
        key
    } else {
        0u64
    }
}

/// A quiet move: what the position after it holds.
pub open spec fn quiet_result(keys: Zobrist, g: GameState, mv: GameMove, res: GameState) -> bool {
    &&& res.color_to_move == 1 - g.color_to_move
    &&& moved_on_board(g.pieces, res.pieces, mv, g.color_to_move as int)
    &&& g.color_to_move == 0 ==> (res.castle_white_kingside, res.castle_white_queenside)
        == castle_flags_after(
        g.castle_white_kingside,
        g.castle_white_queenside,
        mv,
        0,
        res.pieces,
    ) && res.castle_black_kingside == g.castle_black_kingside && res.castle_black_queenside
        == g.castle_black_queenside
    &&& g.color_to_move == 1 ==> (res.castle_black_kingside, res.castle_black_queenside)
        == castle_flags_after(
        g.castle_black_kingside,
        g.castle_black_queenside,
        mv,
        1,
        res.pieces,
    ) && res.castle_white_kingside == g.castle_white_kingside && res.castle_white_queenside
        == g.castle_white_queenside
    &&& res.en_passant == en_passant_after(g, mv)
    &&& res.half_moves == if mv.piece_type == PieceType::Pawn {
        0
    } else {
        g.half_moves + 1
    }
    &&& res.full_moves == g.full_moves + g.color_to_move
    &&& res.hash == (((((((g.hash ^ keys.side_to_move) ^ (piece_keys(
        keys,
        piece_index(mv.piece_type),
        g.color_to_move as int,
    )[mv.from as int] ^ piece_keys(
        keys,
        piece_index(mv.piece_type),
        g.color_to_move as int,
    )[mv.to as int])) ^ ep_key(keys, g.en_passant)) ^ ep_key(keys, res.en_passant))
        ^ lost_right(
        g.castle_white_kingside,
        res.castle_white_kingside,
        keys.castle_w_kingside,
    )) ^ lost_right(
        g.castle_white_queenside,
        res.castle_white_queenside,
        keys.castle_w_queenside,
    )) ^ lost_right(
        g.castle_black_kingside,
        res.castle_black_kingside,
        keys.castle_b_kingside,
    )) ^ lost_right(
        g.castle_black_queenside,
        res.castle_black_queenside,
        keys.castle_b_queenside,
    )
    &&& g.hash_consistent(keys) && mover_fits(g, mv) ==> res.hash_consistent(keys)
}

/// The position after the quiet move `mv` of the side to move.
pub fn make_quiet_move(keys: &Zobrist, g: &GameState, mv: &GameMove) -> (res: GameState)
    requires
        move_in_range(*g, *mv),
        mv.piece_type == PieceType::Pawn ==> (g.color_to_move == 0 ==> mv.to >= mv.from) && (
        g.color_to_move == 1 ==> mv.from >= mv.to),
    ensures
        quiet_result(*keys, *g, *mv, res),
{
    let color_to_move = 1 - g.color_to_move;
    let mut pieces = g.pieces;
    move_piece(&mut pieces, mv, g.color_to_move);
    let (castle_white_kingside, castle_white_queenside) = if g.color_to_move == WHITE {
        check_castle_flags(
            g.castle_white_kingside,
            g.castle_white_queenside,
            mv,
            g.color_to_move,
            pieces,
        )
    } else {
        (g.castle_white_kingside, g.castle_white_queenside)
    };
    let (castle_black_kingside, castle_black_queenside) = if g.color_to_move == WHITE {
        (g.castle_black_kingside, g.castle_black_queenside)
    } else {
        check_castle_flags(
            g.castle_black_kingside,
            g.castle_black_queenside,
            mv,
            g.color_to_move,
            pieces,
        )
    };
    let mut en_passant = 0u64;
    let mut half_moves = g.half_moves + 1;
    if mv.piece_type == PieceType::Pawn {
        half_moves = 0;
        if g.color_to_move == WHITE && mv.to - mv.from == 16 {
            en_passant = 1u64 << (mv.to - 8) as u64;
        } else if g.color_to_move == BLACK && mv.from - mv.to == 16 {
            en_passant = 1u64 << (mv.to + 8) as u64;
        }
    }
    let full_moves = g.full_moves + g.color_to_move;
    let mut hash = g.hash ^ keys.side_to_move;
    hash = move_piece_hash(keys, g.color_to_move, mv, hash);
    hash = enpassant_hash(keys, g.en_passant, en_passant, hash);
    hash = castle_hash(
        keys,
        g,
        castle_white_kingside,
        castle_white_queenside,
        castle_black_kingside,
        castle_black_queenside,
        hash,
    );
    let res = GameState {
        color_to_move,
        pieces,
        castle_white_kingside,
        castle_white_queenside,
        castle_black_kingside,
        castle_black_queenside,
        en_passant,
        half_moves,
        full_moves,
        hash,
    };
    proof {
        if g.hash_consistent(*keys) && mover_fits(*g, *mv) {
            let i = piece_index(mv.piece_type);
            let c = g.color_to_move as int;
            let table = piece_keys(*keys, i, c);
            lemma_move_board_keys(g.pieces[i][c], table, mv.from as u64, mv.to as u64);
            lemma_pieces_hash_update(
                *keys,
                g.pieces,
                res.pieces,
                i,
                c,
                table[mv.from as int] ^ table[mv.to as int],
            );
            let d = table[mv.from as int] ^ table[mv.to as int];
            bv_xor_facts(pieces_hash(*keys, g.pieces) ^ d, 0, 0);
            bv_xor_facts(hash, 0, 0);
            lemma_move_hash_algebra(*keys, *g, res, d, 0);
        }
    }
    res
}

/// Exclusive-or bookkeeping: updating each part of a hash by its change gives the hash
/// of the updated parts.
proof fn lemma_hash_parts(
    oh: u64,
    so: u64,
    c1o: u64,
    c2o: u64,
    c3o: u64,
    c4o: u64,
    eo: u64,
    po: u64,
    sn: u64,
    c1n: u64,
    c2n: u64,
    c3n: u64,
    c4n: u64,
    en: u64,
    pn: u64,
    sk: u64,
    d: u64,
    l1: u64,
    l2: u64,
    l3: u64,
    l4: u64,
    extra: u64,
    nh: u64,
)
    requires
        oh == so ^ c1o ^ c2o ^ c3o ^ c4o ^ eo ^ po,
        sn == so ^ sk,
        c1n == c1o ^ l1,
        c2n == c2o ^ l2,
        c3n == c3o ^ l3,
        c4n == c4o ^ l4,
        pn == (po ^ d) ^ extra,
        nh == ((((((((oh ^ sk) ^ d) ^ eo) ^ en) ^ l1) ^ l2) ^ l3) ^ l4) ^ extra,
    ensures
        nh == sn ^ c1n ^ c2n ^ c3n ^ c4n ^ en ^ pn,
{
    broadcast use lemma_bit_xor_auto;

    let y = sn ^ c1n ^ c2n ^ c3n ^ c4n ^ en ^ pn;
    assert forall|t: int| 0 <= t < 64 implies #[trigger] bit(nh, t) == bit(y, t) by {}
    lemma_bit_extensional(nh, y);
}

/// The change of a castle right's part of the hash is the key of the right lost.
proof fn lemma_flag_change(o: bool, n: bool, k: u64)
    requires
        n ==> o,
    ensures
        flag_key(n, k) == flag_key(o, k) ^ lost_right(o, n, k),
{
    bv_xor_facts(k, 0, 0);
    bv_xor_facts(0, 0, 0);
    bv_xor_facts(k, k, 0);
}

/// The new hash of a move that changes the pieces' hash by `d` agrees with its position.
proof fn lemma_move_hash_algebra(keys: Zobrist, g: GameState, res: GameState, d: u64, extra: u64)
    requires
        g.hash_consistent(keys),
        g.color_to_move < 2,
        res.color_to_move == 1 - g.color_to_move,
        pieces_hash(keys, res.pieces) == (pieces_hash(keys, g.pieces) ^ d) ^ extra,
        res.castle_white_kingside ==> g.castle_white_kingside,
        res.castle_white_queenside ==> g.castle_white_queenside,
        res.castle_black_kingside ==> g.castle_black_kingside,
        res.castle_black_queenside ==> g.castle_black_queenside,
        res.hash == ((((((((g.hash ^ keys.side_to_move) ^ d) ^ ep_key(keys, g.en_passant)) ^ ep_key(
            keys,
            res.en_passant,
        )) ^ lost_right(
            g.castle_white_kingside,
            res.castle_white_kingside,
            keys.castle_w_kingside,
        )) ^ lost_right(
            g.castle_white_queenside,
            res.castle_white_queenside,
            keys.castle_w_queenside,
        )) ^ lost_right(
            g.castle_black_kingside,
            res.castle_black_kingside,
            keys.castle_b_kingside,
        )) ^ lost_right(
            g.castle_black_queenside,
            res.castle_black_queenside,
            keys.castle_b_queenside,
        )) ^ extra,
    ensures
        res.hash_consistent(keys),
{
    let so = flag_key(g.color_to_move == 1, keys.side_to_move);
    let sn = flag_key(res.color_to_move == 1, keys.side_to_move);
    bv_xor_facts(keys.side_to_move, 0, 0);
    bv_xor_facts(0, keys.side_to_move, 0);
    assert(sn == so ^ keys.side_to_move);
    lemma_flag_change(g.castle_white_kingside, res.castle_white_kingside, keys.castle_w_kingside);
    lemma_flag_change(g.castle_white_queenside, res.castle_white_queenside, keys.castle_w_queenside);
    lemma_flag_change(g.castle_black_kingside, res.castle_black_kingside, keys.castle_b_kingside);
    lemma_flag_change(g.castle_black_queenside, res.castle_black_queenside, keys.castle_b_queenside);
    lemma_hash_parts(
        g.hash,
        so,
        flag_key(g.castle_white_kingside, keys.castle_w_kingside),
        flag_key(g.castle_white_queenside, keys.castle_w_queenside),
        flag_key(g.castle_black_kingside, keys.castle_b_kingside),
        flag_key(g.castle_black_queenside, keys.castle_b_queenside),
        ep_key(keys, g.en_passant),
        pieces_hash(keys, g.pieces),
        sn,
        flag_key(res.castle_white_kingside, keys.castle_w_kingside),
        flag_key(res.castle_white_queenside, keys.castle_w_queenside),
        flag_key(res.castle_black_kingside, keys.castle_b_kingside),
        flag_key(res.castle_black_queenside, keys.castle_b_queenside),
        ep_key(keys, res.en_passant),
        pieces_hash(keys, res.pieces),
        keys.side_to_move,
        d,
        lost_right(g.castle_white_kingside, res.castle_white_kingside, keys.castle_w_kingside),
        lost_right(g.castle_white_queenside, res.castle_white_queenside, keys.castle_w_queenside),
        lost_right(g.castle_black_kingside, res.castle_black_kingside, keys.castle_b_kingside),
        lost_right(g.castle_black_queenside, res.castle_black_queenside, keys.castle_b_queenside),
        extra,
        res.hash,
    );
}


/// The mover's key change: its piece's keys on `from` and `to`.
pub open spec fn mover_keys(keys: Zobrist, g: GameState, mv: GameMove) -> u64 {
    piece_keys(keys, piece_index(mv.piece_type), g.color_to_move as int)[mv.from as int]
        ^ piece_keys(keys, piece_index(mv.piece_type), g.color_to_move as int)[mv.to as int]
}

/// The castle rights of the side that did not move, after its rook on a corner may have
/// been taken: a right stays only while its corner still holds that side's rook.
pub open spec fn enemy_rights_kept(g: GameState, res: GameState) -> bool {
    &&& g.color_to_move == 0 ==> res.castle_black_queenside == (g.castle_black_queenside && bit(
        res.pieces[3][1],
        56,
    )) && res.castle_black_kingside == (g.castle_black_kingside && bit(res.pieces[3][1], 63))
    &&& g.color_to_move == 1 ==> res.castle_white_queenside == (g.castle_white_queenside && bit(
        res.pieces[3][0],
        0,
    )) && res.castle_white_kingside == (g.castle_white_kingside && bit(res.pieces[3][0], 7))
}

/// The mover's castle rights after its move.
pub open spec fn mover_rights_updated(g: GameState, res: GameState, mv: GameMove) -> bool {
    &&& g.color_to_move == 0 ==> (res.castle_white_kingside, res.castle_white_queenside)
        == castle_flags_after(
        g.castle_white_kingside,
        g.castle_white_queenside,
        mv,
        0,
        res.pieces,
    )
    &&& g.color_to_move == 1 ==> (res.castle_black_kingside, res.castle_black_queenside)
        == castle_flags_after(
        g.castle_black_kingside,
        g.castle_black_queenside,
        mv,
        1,
        res.pieces,
    )
}

/// The piece `captured` of the side not to move stands on `mv.to`.
pub open spec fn capture_fits(g: GameState, mv: GameMove, captured: PieceType) -> bool {
    &&& mover_fits(g, mv)
    &&& bit(g.pieces[piece_index(captured)][1 - g.color_to_move], mv.to as int)
}

/// A capture of `captured_piece`: what the position after it holds.
pub open spec fn capture_result(keys: Zobrist, g: GameState, mv: GameMove, captured_piece: PieceType, res: GameState) -> bool {
    &&& res.color_to_move == 1 - g.color_to_move
    &&& forall|p: int, c: int|
        0 <= p < 6 && 0 <= c < 2 ==> #[trigger] res.pieces[p][c] == if p == piece_index(
            mv.piece_type,
        ) && c == g.color_to_move {
            (g.pieces[p][c] ^ (1u64 << mv.from as u64)) | (1u64 << mv.to as u64)
        } else if p == piece_index(captured_piece) && c == 1 - g.color_to_move {
            g.pieces[p][c] ^ (1u64 << mv.to as u64)
        } else {
            g.pieces[p][c]
        }
    &&& mover_rights_updated(g, res, mv)
    &&& enemy_rights_kept(g, res)
    &&& res.en_passant == 0
    &&& res.half_moves == 0
    &&& res.full_moves == g.full_moves + g.color_to_move
    &&& res.hash == ((((((((g.hash ^ keys.side_to_move) ^ mover_keys(keys, g, mv)) ^ ep_key(keys, g.en_passant)) ^ ep_key(keys, res.en_passant))
        ^ lost_right(
        g.castle_white_kingside,
        res.castle_white_kingside,
        keys.castle_w_kingside,
    )) ^ lost_right(
        g.castle_white_queenside,
        res.castle_white_queenside,
        keys.castle_w_queenside,
    )) ^ lost_right(
        g.castle_black_kingside,
        res.castle_black_kingside,
        keys.castle_b_kingside,
    )) ^ lost_right(
        g.castle_black_queenside,
        res.castle_black_queenside,
        keys.castle_b_queenside,
    )) ^ piece_keys(keys, piece_index(captured_piece), 1 - g.color_to_move)[mv.to as int]
    &&& g.hash_consistent(keys) && capture_fits(g, mv, captured_piece) ==> res.hash_consistent(keys)
}

/// The position after the side to move captures `captured_piece` with its move `mv`.
#[verifier::rlimit(40)]
pub fn make_capture_move(keys: &Zobrist, g: &GameState, mv: &GameMove, captured_piece: PieceType) -> (res: GameState)
    requires
        move_in_range(*g, *mv),
        captured_piece != PieceType::King,
    ensures
        capture_result(*keys, *g, *mv, captured_piece, res),
{
    let color_to_move = 1 - g.color_to_move;
    let mut pieces = g.pieces;
    move_piece(&mut pieces, mv, g.color_to_move);
    let ghost mid = pieces;
    delete_piece(&mut pieces, captured_piece, mv.to, color_to_move);
    let (mut castle_white_kingside, mut castle_white_queenside) = if g.color_to_move == WHITE {
        check_castle_flags(
            g.castle_white_kingside,
            g.castle_white_queenside,
            mv,
            g.color_to_move,
            pieces,
        )
    } else {
        (g.castle_white_kingside, g.castle_white_queenside)
    };
    let (mut castle_black_kingside, mut castle_black_queenside) = if g.color_to_move == WHITE {
        (g.castle_black_kingside, g.castle_black_queenside)
    } else {
        check_castle_flags(
            g.castle_black_kingside,
            g.castle_black_queenside,
            mv,
            g.color_to_move,
            pieces,
        )
    };
    proof {
        lemma_and_single(pieces[3][1], 56);
        lemma_and_single(pieces[3][1], 63);
        lemma_and_single(pieces[3][0], 0);
        lemma_and_single(pieces[3][0], 7);
    }
    if g.color_to_move == WHITE {
        if pieces[ROOK][BLACK] & (1u64 << 56u64) == 0 {
            castle_black_queenside = false;
        }
        if pieces[ROOK][BLACK] & (1u64 << 63u64) == 0 {
            castle_black_kingside = false;
        }
    } else {
        if pieces[ROOK][WHITE] & (1u64 << 0u64) == 0 {
            castle_white_queenside = false;
        }
        if pieces[ROOK][WHITE] & (1u64 << 7u64) == 0 {
            castle_white_kingside = false;
        }
    }
    let en_passant = 0u64;
    let half_moves = 0usize;
    let full_moves = g.full_moves + g.color_to_move;
    let mut hash = g.hash ^ keys.side_to_move;
    hash = move_piece_hash(keys, g.color_to_move, mv, hash);
    hash = enpassant_hash(keys, g.en_passant, en_passant, hash);
    hash = castle_hash(
        keys,
        g,
        castle_white_kingside,
        castle_white_queenside,
        castle_black_kingside,
        castle_black_queenside,
        hash,
    );
    hash = delete_piece_hash(keys, mv.to, color_to_move, captured_piece, hash);
    let res = GameState {
        color_to_move,
        pieces,
        castle_white_kingside,
        castle_white_queenside,
        castle_black_kingside,
        castle_black_queenside,
        en_passant,
        half_moves,
        full_moves,
        hash,
    };
    proof {
        if g.hash_consistent(*keys) && capture_fits(*g, *mv, captured_piece) {
            let i = piece_index(mv.piece_type);
            let c = g.color_to_move as int;
            let j = piece_index(captured_piece);
            let e = 1 - c;
            let table = piece_keys(*keys, i, c);
            let etable = piece_keys(*keys, j, e);
            lemma_move_board_keys(g.pieces[i][c], table, mv.from as u64, mv.to as u64);
            let d = table[mv.from as int] ^ table[mv.to as int];
            lemma_pieces_hash_update(*keys, g.pieces, mid, i, c, d);
            lemma_board_keys_xor_toggle(mid[j][e], etable, 64, mv.to as u64);
            lemma_pieces_hash_update(*keys, mid, res.pieces, j, e, etable[mv.to as int]);
            lemma_move_hash_algebra(*keys, *g, res, d, etable[mv.to as int]);
        }
    }
    res
}

/// The pawn an en-passant capture takes stands on `to - 8` (white moving) or `to + 8`.
pub open spec fn en_passant_victim(g: GameState, mv: GameMove) -> int {
    if g.color_to_move == 0 {
        mv.to - 8
    } else {
        mv.to + 8
    }
}

/// The mover fits, and an enemy pawn stands where an en-passant capture takes it.
pub open spec fn en_passant_fits(g: GameState, mv: GameMove) -> bool {
    &&& mover_fits(g, mv)
    &&& bit(g.pieces[0][1 - g.color_to_move], en_passant_victim(g, mv))
}

/// A capture en passant: what the position after it holds.
pub open spec fn en_passant_result(keys: Zobrist, g: GameState, mv: GameMove, res: GameState) -> bool {
    &&& res.color_to_move == 1 - g.color_to_move
    &&& forall|p: int, c: int|
        0 <= p < 6 && 0 <= c < 2 ==> #[trigger] res.pieces[p][c] == if p == piece_index(
            mv.piece_type,
        ) && c == g.color_to_move {
            (g.pieces[p][c] ^ (1u64 << mv.from as u64)) | (1u64 << mv.to as u64)
        } else if p == 0 && c == 1 - g.color_to_move {
            g.pieces[p][c] ^ (1u64 << en_passant_victim(g, mv) as u64)
        } else {
            g.pieces[p][c]
        }
    &&& res.castle_white_kingside == g.castle_white_kingside
    &&& res.castle_white_queenside == g.castle_white_queenside
    &&& res.castle_black_kingside == g.castle_black_kingside
    &&& res.castle_black_queenside == g.castle_black_queenside
    &&& res.en_passant == 0
    &&& res.half_moves == 0
    &&& res.full_moves == g.full_moves + g.color_to_move
    &&& res.hash == ((((((((g.hash ^ keys.side_to_move) ^ mover_keys(keys, g, mv)) ^ ep_key(keys, g.en_passant)) ^ ep_key(keys, res.en_passant))
        ^ lost_right(
        g.castle_white_kingside,
        res.castle_white_kingside,
        keys.castle_w_kingside,
    )) ^ lost_right(
        g.castle_white_queenside,
        res.castle_white_queenside,
        keys.castle_w_queenside,
    )) ^ lost_right(
        g.castle_black_kingside,
        res.castle_black_kingside,
        keys.castle_b_kingside,
    )) ^ lost_right(
        g.castle_black_queenside,
        res.castle_black_queenside,
        keys.castle_b_queenside,
    )) ^ piece_keys(keys, 0, 1 - g.color_to_move)[en_passant_victim(g, mv)]
    &&& g.hash_consistent(keys) && en_passant_fits(g, mv) ==> res.hash_consistent(keys)
}

/// The position after the side to move captures en passant with its move `mv`.
#[verifier::rlimit(40)]
pub fn make_enpassant_move(keys: &Zobrist, g: &GameState, mv: &GameMove) -> (res: GameState)
    requires
        move_in_range(*g, *mv),
        g.color_to_move == 0 ==> mv.to >= 8,
        g.color_to_move == 1 ==> mv.to + 8 < 64,
    ensures
        en_passant_result(*keys, *g, *mv, res),
{
    let color_to_move = 1 - g.color_to_move;
    let mut pieces = g.pieces;
    move_piece(&mut pieces, mv, g.color_to_move);
    let ghost mid = pieces;
    let delete_square = if g.color_to_move == WHITE {
        mv.to - 8
    } else {
        mv.to + 8
    };
    delete_piece(&mut pieces, PieceType::Pawn, delete_square, color_to_move);
    let castle_white_kingside = g.castle_white_kingside;
    let castle_white_queenside = g.castle_white_queenside;
    let castle_black_kingside = g.castle_black_kingside;
    let castle_black_queenside = g.castle_black_queenside;
    let en_passant = 0u64;
    let half_moves = 0usize;
    let full_moves = g.full_moves + g.color_to_move;
    let mut hash = g.hash ^ keys.side_to_move;
    hash = move_piece_hash(keys, g.color_to_move, mv, hash);
    hash = enpassant_hash(keys, g.en_passant, en_passant, hash);
    hash = castle_hash(
        keys,
        g,
        castle_white_kingside,
        castle_white_queenside,
        castle_black_kingside,
        castle_black_queenside,
        hash,
    );
    hash = delete_piece_hash(keys, delete_square, color_to_move, PieceType::Pawn, hash);
    let res = GameState {
        color_to_move,
        pieces,
        castle_white_kingside,
        castle_white_queenside,
        castle_black_kingside,
        castle_black_queenside,
        en_passant,
        half_moves,
        full_moves,
        hash,
    };
    proof {
        if g.hash_consistent(*keys) && en_passant_fits(*g, *mv) {
            let i = piece_index(mv.piece_type);
            let c = g.color_to_move as int;
            let e = 1 - c;
            let table = piece_keys(*keys, i, c);
            let etable = piece_keys(*keys, 0, e);
            lemma_move_board_keys(g.pieces[i][c], table, mv.from as u64, mv.to as u64);
            let d = table[mv.from as int] ^ table[mv.to as int];
            lemma_pieces_hash_update(*keys, g.pieces, mid, i, c, d);
            lemma_board_keys_xor_toggle(mid[0][e], etable, 64, delete_square as u64);
            lemma_pieces_hash_update(*keys, mid, res.pieces, 0, e, etable[delete_square as int]);
            lemma_move_hash_algebra(*keys, *g, res, d, etable[delete_square as int]);
        }
    }
    res
}


proof fn lemma_xor_regroup(
    a: u64,
    x: u64,
    y: u64,
    z: u64,
    e1: u64,
    e2: u64,
    l1: u64,
    l2: u64,
    l3: u64,
    l4: u64,
)
    ensures
        ((((((((a ^ x) ^ y) ^ e1) ^ e2) ^ l1) ^ l2) ^ l3) ^ l4) == ((((((((a ^ (x ^ y)) ^ e1)
            ^ e2) ^ l1) ^ l2) ^ l3) ^ l4) ^ 0u64),
        (((((((((a ^ x) ^ y) ^ z) ^ e1) ^ e2) ^ l1) ^ l2) ^ l3) ^ l4) == ((((((((a ^ (x ^ y))
            ^ e1) ^ e2) ^ l1) ^ l2) ^ l3) ^ l4) ^ z),
{
    broadcast use lemma_bit_xor_auto;

    let p = ((((((((a ^ x) ^ y) ^ e1) ^ e2) ^ l1) ^ l2) ^ l3) ^ l4);
    let q = ((((((((a ^ (x ^ y)) ^ e1) ^ e2) ^ l1) ^ l2) ^ l3) ^ l4) ^ 0u64);
    assert forall|t: int| 0 <= t < 64 implies #[trigger] bit(p, t) == bit(q, t) by {
        lemma_bit_single(0, t);
    }
    lemma_bit_extensional(p, q);
    let p2 = (((((((((a ^ x) ^ y) ^ z) ^ e1) ^ e2) ^ l1) ^ l2) ^ l3) ^ l4);
    let q2 = ((((((((a ^ (x ^ y)) ^ e1) ^ e2) ^ l1) ^ l2) ^ l3) ^ l4) ^ z);
    assert forall|t: int| 0 <= t < 64 implies #[trigger] bit(p2, t) == bit(q2, t) by {}
    lemma_bit_extensional(p2, q2);
}

/// The value of board (p, c) after the mover's piece moved from `from` to `to`.
pub open spec fn after_move(pieces: [[u64; 2]; 6], mv: GameMove, color: int, p: int, c: int) -> u64 {
    if p == piece_index(mv.piece_type) && c == color {
        (pieces[p][c] ^ (1u64 << mv.from as u64)) | (1u64 << mv.to as u64)
    } else {
        pieces[p][c]
    }
}

/// The rook a castling king's destination drags along: (colour, from, to), else none.
pub open spec fn castle_rook(to: int) -> Option<(int, int, int)> {
    if to == 58 {
        Some((1, 56, 59))
    } else if to == 2 {
        Some((0, 0, 3))
    } else if to == 62 {
        Some((1, 63, 61))
    } else if to == 6 {
        Some((0, 7, 5))
    } else {
        None
    }
}

/// A castle move fits: the mover's king stands on `from`, its destination is one of the
/// mover's castle squares, and the mover's rook stands on the corner and not on the square
/// it moves to.
pub open spec fn castle_fits(g: GameState, mv: GameMove) -> bool {
    let c = g.color_to_move as int;
    &&& mover_fits(g, mv)
    &&& mv.piece_type == PieceType::King
    &&& castle_rook(mv.to as int) matches Some((rc, rf, rt)) && rc == c && bit(
        g.pieces[3][c],
        rf,
    ) && !bit(g.pieces[3][c], rt)
}

/// Moves a rook of `color` from `from` to `to` on its board.
fn move_rook(pieces: &mut [[u64; 2]; 6], color: usize, from: usize, to: usize)
    requires
        color < 2,
        from < 64,
        to < 64,
    ensures
        forall|p: int, c: int|
            0 <= p < 6 && 0 <= c < 2 ==> #[trigger] final(pieces)[p][c] == if p == 3 && c
                == color {
                (old(pieces)[p][c] ^ (1u64 << from as u64)) | (1u64 << to as u64)
            } else {
                old(pieces)[p][c]
            },
{
    let v = (pieces[ROOK][color] ^ (1u64 << from as u64)) | (1u64 << to as u64);
    let mut row = pieces[ROOK];
    row[color] = v;
    pieces[ROOK] = row;
}

/// A castle move: what the position after it holds.
pub open spec fn castle_result(keys: Zobrist, g: GameState, mv: GameMove, res: GameState) -> bool {
    &&& res.color_to_move == 1 - g.color_to_move
    &&& forall|p: int, c: int|
        0 <= p < 6 && 0 <= c < 2 ==> #[trigger] res.pieces[p][c] == match castle_rook(
            mv.to as int,
        ) {
            Some((rc, rf, rt)) => if p == 3 && c == rc {
                (after_move(g.pieces, mv, g.color_to_move as int, p, c) ^ (1u64 << rf as u64))
                    | (1u64 << rt as u64)
            } else {
                after_move(g.pieces, mv, g.color_to_move as int, p, c)
            },
            None => after_move(g.pieces, mv, g.color_to_move as int, p, c),
        }
    &&& g.color_to_move == 0 ==> !res.castle_white_kingside && !res.castle_white_queenside
        && res.castle_black_kingside == g.castle_black_kingside && res.castle_black_queenside
        == g.castle_black_queenside
    &&& g.color_to_move == 1 ==> !res.castle_black_kingside && !res.castle_black_queenside
        && res.castle_white_kingside == g.castle_white_kingside && res.castle_white_queenside
        == g.castle_white_queenside
    &&& res.en_passant == 0
    &&& res.half_moves == g.half_moves + 1
    &&& res.full_moves == g.full_moves + g.color_to_move
    &&& g.hash_consistent(keys) && castle_fits(g, mv) ==> res.hash_consistent(keys)
}

/// The position after the side to move castles with its king move `mv`.
#[verifier::rlimit(60)]
pub fn make_castle_move(keys: &Zobrist, g: &GameState, mv: &GameMove) -> (res: GameState)
    requires
        move_in_range(*g, *mv),
    ensures
        castle_result(*keys, *g, *mv, res),
{
    let color_to_move = 1 - g.color_to_move;
    let mut pieces = g.pieces;
    move_piece(&mut pieces, mv, g.color_to_move);
    let ghost mid = pieces;
    let mut hash = g.hash ^ keys.side_to_move;
    let ghost h0 = hash;
    let rook_zobrist = if g.color_to_move == WHITE {
        &keys.w_rooks
    } else {
        &keys.b_rooks
    };
    let ghost mut r: u64 = 0;
    if mv.to == 58 {
        move_rook(&mut pieces, BLACK, 56, 59);
        hash = hash ^ (rook_zobrist[56] ^ rook_zobrist[59]);
        proof {
            r = rook_zobrist[56] ^ rook_zobrist[59];
        }
    } else if mv.to == 2 {
        move_rook(&mut pieces, WHITE, 0, 3);
        hash = hash ^ (rook_zobrist[0] ^ rook_zobrist[3]);
        proof {
            r = rook_zobrist[0] ^ rook_zobrist[3];
        }
    } else if mv.to == 62 {
        move_rook(&mut pieces, BLACK, 63, 61);
        hash = hash ^ (rook_zobrist[63] ^ rook_zobrist[61]);
        proof {
            r = rook_zobrist[63] ^ rook_zobrist[61];
        }
    } else if mv.to == 6 {
        move_rook(&mut pieces, WHITE, 7, 5);
        hash = hash ^ (rook_zobrist[7] ^ rook_zobrist[5]);
        proof {
            r = rook_zobrist[7] ^ rook_zobrist[5];
        }
    }
    let ghost h1 = hash;
    let (castle_white_kingside, castle_white_queenside) = if g.color_to_move == WHITE {
        (false, false)
    } else {
        (g.castle_white_kingside, g.castle_white_queenside)
    };
    let (castle_black_kingside, castle_black_queenside) = if g.color_to_move == BLACK {
        (false, false)
    } else {
        (g.castle_black_kingside, g.castle_black_queenside)
    };
    let en_passant = 0u64;
    let half_moves = g.half_moves + 1;
    let full_moves = g.full_moves + g.color_to_move;
    hash = move_piece_hash(keys, g.color_to_move, mv, hash);
    hash = enpassant_hash(keys, g.en_passant, en_passant, hash);
    hash = castle_hash(
        keys,
        g,
        castle_white_kingside,
        castle_white_queenside,
        castle_black_kingside,
        castle_black_queenside,
        hash,
    );
    let res = GameState {
        color_to_move,
        pieces,
        castle_white_kingside,
        castle_white_queenside,
        castle_black_kingside,
        castle_black_queenside,
        en_passant,
        half_moves,
        full_moves,
        hash,
    };
    proof {
        if g.hash_consistent(*keys) && castle_fits(*g, *mv) {
            let i = piece_index(mv.piece_type);
            let c = g.color_to_move as int;
            let table = piece_keys(*keys, i, c);
            let rtable = piece_keys(*keys, 3, c);
            lemma_move_board_keys(g.pieces[i][c], table, mv.from as u64, mv.to as u64);
            let d = table[mv.from as int] ^ table[mv.to as int];
            lemma_pieces_hash_update(*keys, g.pieces, mid, i, c, d);
            let (rc, rf, rt) = castle_rook(mv.to as int)->Some_0;
            assert(mid[3][c] == g.pieces[3][c]);
            lemma_move_board_keys(mid[3][c], rtable, rf as u64, rt as u64);
            assert(r == rtable[rf] ^ rtable[rt]);
            lemma_pieces_hash_update(*keys, mid, res.pieces, 3, c, r);
            bv_xor_facts(pieces_hash(*keys, g.pieces), d, r);
            bv_xor_facts(d, r, 0);
            lemma_xor_regroup(
                g.hash ^ keys.side_to_move,
                r,
                d,
                0,
                ep_key(*keys, g.en_passant),
                ep_key(*keys, res.en_passant),
                lost_right(g.castle_white_kingside, res.castle_white_kingside, keys.castle_w_kingside),
                lost_right(g.castle_white_queenside, res.castle_white_queenside, keys.castle_w_queenside),
                lost_right(g.castle_black_kingside, res.castle_black_kingside, keys.castle_b_kingside),
                lost_right(g.castle_black_queenside, res.castle_black_queenside, keys.castle_b_queenside),
            );
            bv_xor_facts(pieces_hash(*keys, g.pieces) ^ (r ^ d), 0, 0);
            lemma_move_hash_algebra(*keys, *g, res, r ^ d, 0);
        }
    }
    res
}


proof fn lemma_xor_promo(p: u64, pf: u64, pt: u64, del: u64, qt: u64)
    ensures
        (((p ^ (pf ^ pt)) ^ del) ^ pt) ^ qt == (p ^ (pf ^ qt)) ^ del,
{
    broadcast use lemma_bit_xor_auto;

    let x = (((p ^ (pf ^ pt)) ^ del) ^ pt) ^ qt;
    let y = (p ^ (pf ^ qt)) ^ del;
    assert forall|t: int| 0 <= t < 64 implies #[trigger] bit(x, t) == bit(y, t) by {}
    lemma_bit_extensional(x, y);
}

/// The piece kind a promotion move turns its pawn into.
pub open spec fn promotion_piece(mv: GameMove) -> PieceType {
    match mv.move_type {
        GameMoveType::Promotion(p, _) => p,
        _ => PieceType::Pawn,
    }
}

/// A promotion move may turn a pawn into a queen, rook, bishop or knight.
pub open spec fn promotes_to_officer(mv: GameMove) -> bool {
    mv.move_type matches GameMoveType::Promotion(p, _) && (p == PieceType::Queen || p
        == PieceType::Rook || p == PieceType::Bishop || p == PieceType::Knight)
}

/// A promotion fits: the mover's pawn stands on `from`, neither its pawns nor its pieces
/// of the new kind stand on `to`, and a captured piece stands on `to`.
pub open spec fn promotion_fits(g: GameState, mv: GameMove, captured: Option<PieceType>) -> bool {
    let c = g.color_to_move as int;
    &&& mover_fits(g, mv)
    &&& mv.piece_type == PieceType::Pawn
    &&& !bit(g.pieces[piece_index(promotion_piece(mv))][c], mv.to as int)
    &&& captured matches Some(q) ==> bit(g.pieces[piece_index(q)][1 - c], mv.to as int)
}

/// The board (p, c) after a promotion: the mover's piece moved, a captured piece taken
/// off `to`, the pawn taken off `to`, and the new piece put on `to`.
pub open spec fn after_promotion(
    pieces: [[u64; 2]; 6],
    mv: GameMove,
    color: int,
    captured: Option<PieceType>,
    p: int,
    c: int,
) -> u64 {
    let to = 1u64 << mv.to as u64;
    let m = after_move(pieces, mv, color, p, c);
    let m2 = if captured matches Some(q) && p == piece_index(q) && c == 1 - color {
        m ^ to
    } else {
        m
    };
    let m3 = if p == 0 && c == color {
        m2 ^ to
    } else {
        m2
    };
    if p == piece_index(promotion_piece(mv)) && c == color {
        m3 | to
    } else {
        m3
    }
}

/// Puts or clears square `sq` of board (p, c): with `set`, by or-ing it in; else by
/// flipping it.
fn change_square(pieces: &mut [[u64; 2]; 6], p: usize, c: usize, sq: usize, set: bool)
    requires
        p < 6,
        c < 2,
        sq < 64,
    ensures
        forall|q: int, e: int|
            0 <= q < 6 && 0 <= e < 2 ==> #[trigger] final(pieces)[q][e] == if q == p && e == c {
                if set {
                    old(pieces)[q][e] | (1u64 << sq as u64)
                } else {
                    old(pieces)[q][e] ^ (1u64 << sq as u64)
                }
            } else {
                old(pieces)[q][e]
            },
{
    let v = if set {
        pieces[p][c] | (1u64 << sq as u64)
    } else {
        pieces[p][c] ^ (1u64 << sq as u64)
    };
    let mut row = pieces[p];
    row[c] = v;
    pieces[p] = row;
}

/// A promotion, capturing `captured_piece` if any: what the position after it holds.
pub open spec fn promotion_result(keys: Zobrist, g: GameState, mv: GameMove, captured_piece: Option<PieceType>, res: GameState) -> bool {
    &&& res.color_to_move == 1 - g.color_to_move
    &&& forall|p: int, c: int|
        0 <= p < 6 && 0 <= c < 2 ==> #[trigger] res.pieces[p][c] == after_promotion(
            g.pieces,
            mv,
            g.color_to_move as int,
            captured_piece,
            p,
            c,
        )
    &&& g.color_to_move == 0 ==> res.castle_white_kingside == g.castle_white_kingside
        && res.castle_white_queenside == g.castle_white_queenside
    &&& g.color_to_move == 1 ==> res.castle_black_kingside == g.castle_black_kingside
        && res.castle_black_queenside == g.castle_black_queenside
    &&& enemy_rights_kept(g, res)
    &&& res.en_passant == 0
    &&& res.half_moves == 0
    &&& res.full_moves == g.full_moves + g.color_to_move
    &&& g.hash_consistent(keys) && promotion_fits(g, mv, captured_piece)
        ==> res.hash_consistent(keys)
}

/// The position after the side to move promotes a pawn with its move `mv`, capturing
/// `captured_piece` if any.
#[verifier::rlimit(80)]
pub fn make_promotion_move(
    keys: &Zobrist,
    g: &GameState,
    mv: &GameMove,
    captured_piece: Option<PieceType>,
) -> (res: GameState)
    requires
        move_in_range(*g, *mv),
        promotes_to_officer(*mv),
        captured_piece != Some(PieceType::King),
    ensures
        promotion_result(*keys, *g, *mv, captured_piece, res),
{
    let color = g.color_to_move;
    let color_to_move = 1 - g.color_to_move;
    let mut pieces = g.pieces;
    let mut hash = g.hash ^ keys.side_to_move;
    let pawn_keys = crate::board_representation::zobrist_hashing::keys_of(keys, PAWN, color);
    hash = hash ^ pawn_keys[mv.from];
    let promo = match mv.move_type {
        GameMoveType::Promotion(PieceType::Queen, _) => QUEEN,
        GameMoveType::Promotion(PieceType::Rook, _) => ROOK,
        GameMoveType::Promotion(PieceType::Knight, _) => KNIGHT,
        GameMoveType::Promotion(PieceType::Bishop, _) => BISHOP,
        _ => QUEEN,
    };
    let promo_keys = crate::board_representation::zobrist_hashing::keys_of(keys, promo, color);
    hash = hash ^ promo_keys[mv.to];
    let ghost h2 = hash;
    move_piece(&mut pieces, mv, color);
    let ghost p1 = pieces;
    let ghost mut del: u64 = 0;
    if let Some(piece) = captured_piece {
        delete_piece(&mut pieces, piece, mv.to, color_to_move);
        hash = delete_piece_hash(keys, mv.to, color_to_move, piece, hash);
        proof {
            del = piece_keys(*keys, piece_index(piece), color_to_move as int)[mv.to as int];
        }
    }
    let ghost p2 = pieces;
    change_square(&mut pieces, PAWN, color, mv.to, false);
    let ghost p3 = pieces;
    change_square(&mut pieces, promo, color, mv.to, true);
    let mut castle_white_kingside = g.castle_white_kingside;
    let mut castle_white_queenside = g.castle_white_queenside;
    let mut castle_black_kingside = g.castle_black_kingside;
    let mut castle_black_queenside = g.castle_black_queenside;
    proof {
        lemma_and_single(pieces[3][1], 56);
        lemma_and_single(pieces[3][1], 63);
        lemma_and_single(pieces[3][0], 0);
        lemma_and_single(pieces[3][0], 7);
    }
    if color == WHITE {
        if pieces[ROOK][BLACK] & (1u64 << 56u64) == 0 {
            castle_black_queenside = false;
        }
        if pieces[ROOK][BLACK] & (1u64 << 63u64) == 0 {
            castle_black_kingside = false;
        }
    } else {
        if pieces[ROOK][WHITE] & (1u64 << 0u64) == 0 {
            castle_white_queenside = false;
        }
        if pieces[ROOK][WHITE] & (1u64 << 7u64) == 0 {
            castle_white_kingside = false;
        }
    }
    let en_passant = 0u64;
    let half_moves = 0usize;
    let full_moves = g.full_moves + g.color_to_move;
    let ghost h3 = hash;
    hash = enpassant_hash(keys, g.en_passant, en_passant, hash);
    hash = castle_hash(
        keys,
        g,
        castle_white_kingside,
        castle_white_queenside,
        castle_black_kingside,
        castle_black_queenside,
        hash,
    );
    let res = GameState {
        color_to_move,
        pieces,
        castle_white_kingside,
        castle_white_queenside,
        castle_black_kingside,
        castle_black_queenside,
        en_passant,
        half_moves,
        full_moves,
        hash,
    };
    proof {
        assert(promo == piece_index(promotion_piece(*mv)));
        if g.hash_consistent(*keys) && promotion_fits(*g, *mv, captured_piece) {
            let c = color as int;
            let e = 1 - c;
            let ptab = piece_keys(*keys, 0, c);
            let qtab = piece_keys(*keys, promo as int, c);
            let pf = ptab[mv.from as int];
            let pt = ptab[mv.to as int];
            let qt = qtab[mv.to as int];
            lemma_move_board_keys(g.pieces[0][c], ptab, mv.from as u64, mv.to as u64);
            lemma_pieces_hash_update(*keys, g.pieces, p1, 0, c, pf ^ pt);
            if let Some(q) = captured_piece {
                let qi = piece_index(q);
                lemma_board_keys_xor_toggle(p1[qi][e], piece_keys(*keys, qi, e), 64, mv.to as u64);
                lemma_pieces_hash_update(*keys, p1, p2, qi, e, del);
            } else {
                bv_xor_facts(pieces_hash(*keys, p1), 0, 0);
            }
            lemma_board_keys_xor_toggle(p2[0][c], ptab, 64, mv.to as u64);
            lemma_pieces_hash_update(*keys, p2, p3, 0, c, pt);
            assert(p3[promo as int][c] == g.pieces[promo as int][c]);
            lemma_set_board_keys(p3[promo as int][c], qtab, mv.to as u64);
            lemma_pieces_hash_update(*keys, p3, pieces, promo as int, c, qt);
            lemma_xor_promo(pieces_hash(*keys, g.pieces), pf, pt, del, qt);
            let l1 = lost_right(g.castle_white_kingside, res.castle_white_kingside, keys.castle_w_kingside);
            let l2 = lost_right(g.castle_white_queenside, res.castle_white_queenside, keys.castle_w_queenside);
            let l3 = lost_right(g.castle_black_kingside, res.castle_black_kingside, keys.castle_b_kingside);
            let l4 = lost_right(g.castle_black_queenside, res.castle_black_queenside, keys.castle_b_queenside);
            lemma_xor_regroup(
                g.hash ^ keys.side_to_move,
                pf,
                qt,
                del,
                ep_key(*keys, g.en_passant),
                ep_key(*keys, res.en_passant),
                l1,
                l2,
                l3,
                l4,
            );
            if captured_piece is None {
                assert(h3 == h2);
                bv_xor_facts(h2, 0, 0);
            }
            lemma_move_hash_algebra(*keys, *g, res, pf ^ qt, del);
        }
    }
    res
}


/// The position after the side to move passes: the other side moves, en passant lapses.
pub fn make_nullmove(keys: &Zobrist, g: &GameState) -> (res: GameState)
    requires
        g.color_to_move < 2,
        g.half_moves < usize::MAX,
        g.full_moves < usize::MAX,
    ensures
        res.color_to_move == 1 - g.color_to_move,
        res.pieces == g.pieces,
        res.castle_white_kingside == g.castle_white_kingside,
        res.castle_white_queenside == g.castle_white_queenside,
        res.castle_black_kingside == g.castle_black_kingside,
        res.castle_black_queenside == g.castle_black_queenside,
        res.en_passant == 0,
        res.half_moves == g.half_moves + 1,
        res.full_moves == g.full_moves + g.color_to_move,
        res.hash == ((g.hash ^ keys.side_to_move) ^ ep_key(*keys, g.en_passant)) ^ ep_key(*keys, 0),
        g.hash_consistent(*keys) ==> res.hash_consistent(*keys),
{
    let color_to_move = 1 - g.color_to_move;
    let pieces = g.pieces;
    let en_passant = 0u64;
    let half_moves = g.half_moves + 1;
    let full_moves = g.full_moves + g.color_to_move;
    let mut hash = g.hash ^ keys.side_to_move;
    hash = enpassant_hash(keys, g.en_passant, en_passant, hash);
    let res = GameState {
        color_to_move,
        pieces,
        castle_white_kingside: g.castle_white_kingside,
        castle_white_queenside: g.castle_white_queenside,
        castle_black_kingside: g.castle_black_kingside,
        castle_black_queenside: g.castle_black_queenside,
        en_passant,
        half_moves,
        full_moves,
        hash,
    };
    proof {
        if g.hash_consistent(*keys) {
            let x = res.hash;
            let y = res.spec_hash(*keys);
            assert forall|t: int| 0 <= t < 64 implies #[trigger] bit(x, t) == bit(y, t) by {
                broadcast use lemma_bit_xor_auto;

                lemma_bit_single(0, t);
            }
            lemma_bit_extensional(x, y);
        }
    }
    res
}

/// What making `mv` needs so that it stays in range, for each kind of move.
pub open spec fn make_move_in_range(g: GameState, mv: GameMove) -> bool {
    &&& move_in_range(g, mv)
    &&& kind_in_range(g, mv)
}

/// What each kind of move needs of its squares and pieces to stay in range.
pub open spec fn kind_in_range(g: GameState, mv: GameMove) -> bool {
    &&& match mv.move_type {
        GameMoveType::Quiet => mv.piece_type == PieceType::Pawn ==> (g.color_to_move == 0
            ==> mv.to >= mv.from) && (g.color_to_move == 1 ==> mv.from >= mv.to),
        GameMoveType::Capture(p) => p != PieceType::King,
        GameMoveType::EnPassant => (g.color_to_move == 0 ==> mv.to >= 8) && (g.color_to_move
            == 1 ==> mv.to + 8 < 64),
        GameMoveType::Castle => true,
        GameMoveType::Promotion(_, captured) => promotes_to_officer(mv) && captured != Some(
            PieceType::King,
        ),
    }
}

/// The move fits the position, for each kind of move.
pub open spec fn move_fits(g: GameState, mv: GameMove) -> bool {
    match mv.move_type {
        GameMoveType::Quiet => mover_fits(g, mv),
        GameMoveType::Capture(p) => capture_fits(g, mv, p),
        GameMoveType::EnPassant => en_passant_fits(g, mv),
        GameMoveType::Castle => castle_fits(g, mv),
        GameMoveType::Promotion(_, captured) => promotion_fits(g, mv, captured),
    }
}

/// What the position after `mv` holds, by the kind of the move.
pub open spec fn move_result(keys: Zobrist, g: GameState, mv: GameMove, res: GameState) -> bool {
    match mv.move_type {
        GameMoveType::Quiet => quiet_result(keys, g, mv, res),
        GameMoveType::Capture(piece) => capture_result(keys, g, mv, piece, res),
        GameMoveType::EnPassant => en_passant_result(keys, g, mv, res),
        GameMoveType::Castle => castle_result(keys, g, mv, res),
        GameMoveType::Promotion(_, capturing) => promotion_result(keys, g, mv, capturing, res),
    }
}

/// The half-move clock after `mv`: back to zero after a pawn move or a capture, one more
/// after any other move (a castle moves the king).
pub open spec fn clock_after(g: GameState, mv: GameMove) -> int {
    if mv.piece_type == PieceType::Pawn || mv.move_type is Capture || mv.move_type is EnPassant
        || mv.move_type is Promotion {
        0
    } else {
        g.half_moves + 1
    }
}

/// The fifty-move clock: after a pawn move or any capture the new position's half-move
/// clock is zero; after a move of another piece that takes nothing it is one more than
/// before.
pub proof fn lemma_half_move_clock(keys: Zobrist, g: GameState, mv: GameMove, res: GameState)
    requires
        make_move_in_range(g, mv),
        move_fits(g, mv),
        move_result(keys, g, mv, res),
    ensures
        (mv.piece_type == PieceType::Pawn || mv.move_type is Capture || mv.move_type is EnPassant
            || mv.move_type is Promotion) ==> res.half_moves == 0,
        !(mv.piece_type == PieceType::Pawn || mv.move_type is Capture || mv.move_type is EnPassant
            || mv.move_type is Promotion) ==> res.half_moves == g.half_moves + 1,
{
}

/// Castle rights are only ever lost: none of the four is held after a move unless it was
/// held before; and a king step, king capture or castle loses both of the mover's rights.
pub proof fn lemma_castle_rights_only_shrink(keys: Zobrist, g: GameState, mv: GameMove, res: GameState)
    requires
        make_move_in_range(g, mv),
        move_result(keys, g, mv, res),
    ensures
        res.castle_white_kingside ==> g.castle_white_kingside,
        res.castle_white_queenside ==> g.castle_white_queenside,
        res.castle_black_kingside ==> g.castle_black_kingside,
        res.castle_black_queenside ==> g.castle_black_queenside,
        mv.piece_type == PieceType::King && (mv.move_type is Quiet || mv.move_type is Capture
            || mv.move_type is Castle) && g.color_to_move == 0 ==> !res.castle_white_kingside
            && !res.castle_white_queenside,
        mv.piece_type == PieceType::King && (mv.move_type is Quiet || mv.move_type is Capture
            || mv.move_type is Castle) && g.color_to_move == 1 ==> !res.castle_black_kingside
            && !res.castle_black_queenside,
{
}

/// The en-passant square after a move: the square a pawn skipped with a double step (its
/// from and to squares sixteen apart, in the mover's direction), and no square after any
/// other move.
pub proof fn lemma_en_passant_square_after(keys: Zobrist, g: GameState, mv: GameMove, res: GameState)
    requires
        make_move_in_range(g, mv),
        move_result(keys, g, mv, res),
    ensures
        mv.move_type is Quiet && mv.piece_type == PieceType::Pawn && g.color_to_move == 0 && mv.to
            == mv.from + 16 ==> forall|t: int|
            0 <= t < 64 ==> #[trigger] bit(res.en_passant, t) == (t == mv.from + 8),
        mv.move_type is Quiet && mv.piece_type == PieceType::Pawn && g.color_to_move == 1 && mv.from
            == mv.to + 16 ==> forall|t: int|
            0 <= t < 64 ==> #[trigger] bit(res.en_passant, t) == (t == mv.to + 8),
        !(mv.move_type is Quiet && mv.piece_type == PieceType::Pawn && ((g.color_to_move == 0
            && mv.to == mv.from + 16) || (g.color_to_move == 1 && mv.from == mv.to + 16)))
            ==> res.en_passant == 0u64,
{
    if mv.move_type is Quiet && mv.piece_type == PieceType::Pawn && g.color_to_move == 0 && mv.to
        == mv.from + 16 {
        assert forall|t: int| 0 <= t < 64 implies #[trigger] bit(res.en_passant, t) == (t == mv.from
            + 8) by {
            lemma_bit_single((mv.to - 8) as u64, t);
        }
    }
    if mv.move_type is Quiet && mv.piece_type == PieceType::Pawn && g.color_to_move == 1 && mv.from
        == mv.to + 16 {
        assert forall|t: int| 0 <= t < 64 implies #[trigger] bit(res.en_passant, t) == (t == mv.to
            + 8) by {
            lemma_bit_single((mv.to + 8) as u64, t);
        }
    }
}

/// The position after the side to move makes `mv`.
pub fn make_move(keys: &Zobrist, g: &GameState, mv: &GameMove) -> (res: GameState)
    requires
        make_move_in_range(*g, *mv),
    ensures
        res.color_to_move == 1 - g.color_to_move,
        res.full_moves == g.full_moves + g.color_to_move,
        g.hash_consistent(*keys) && move_fits(*g, *mv) ==> res.hash_consistent(*keys),
        move_result(*keys, *g, *mv, res),
        move_fits(*g, *mv) ==> res.half_moves == clock_after(*g, *mv),
{
    let res = match mv.move_type {
        GameMoveType::Quiet => make_quiet_move(keys, g, mv),
        GameMoveType::Capture(piece) => make_capture_move(keys, g, mv, piece),
        GameMoveType::EnPassant => make_enpassant_move(keys, g, mv),
        GameMoveType::Castle => make_castle_move(keys, g, mv),
        GameMoveType::Promotion(_promoting_to, capturing) => make_promotion_move(
            keys,
            g,
            mv,
            capturing,
        ),
    };
    proof {
        if move_fits(*g, *mv) {
            lemma_half_move_clock(*keys, *g, *mv, res);
        }
    }
    res
}

} // verus!
