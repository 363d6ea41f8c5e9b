use crate::bitboards::{bit, lemma_bit_ops, lemma_bit_single, lemma_bit_xor_auto, lemma_bit_extensional};
use rand::Rng;
use vstd::prelude::*;

verus! {

/// The random keys a position's hash is built from.
pub struct Zobrist {
    pub w_pawns: [u64; 64],
    pub w_knights: [u64; 64],
    pub w_bishops: [u64; 64],
    pub w_rooks: [u64; 64],
    pub w_queens: [u64; 64],
    pub w_king: [u64; 64],
    pub b_pawns: [u64; 64],
    pub b_knights: [u64; 64],
    pub b_bishops: [u64; 64],
    pub b_rooks: [u64; 64],
    pub b_queens: [u64; 64],
    pub b_king: [u64; 64],
    pub side_to_move: u64,
    pub castle_w_kingside: u64,
    pub castle_w_queenside: u64,
    pub castle_b_kingside: u64,
    pub castle_b_queenside: u64,
    pub en_passant: [u64; 8],
}

/// A random number from `rand::thread_rng().gen::<u64>()`.
/// Nothing is claimed of the value: it is drawn at random.
#[verifier::external_body]
pub fn rand_u64() -> u64 {
    rand::thread_rng().gen::<u64>()
}

/// 64 random numbers.
pub fn rand_array_64() -> [u64; 64] {
    let mut res = [0u64; 64];
    let mut i: usize = 0;
    while i < 64
        invariant
            i <= 64,
        decreases 64 - i,
    {
        res[i] = rand_u64();
        i += 1;
    }
    res
}

/// 8 random numbers.
pub fn rand_array_8() -> [u64; 8] {
    let mut res = [0u64; 8];
    let mut i: usize = 0;
    while i < 8
        invariant
            i <= 8,
        decreases 8 - i,
    {
        res[i] = rand_u64();
        i += 1;
    }
    res
}

/// A fresh set of random keys.
pub fn init_zobrist() -> Zobrist {
    Zobrist {
        w_pawns: rand_array_64(),
        w_knights: rand_array_64(),
        w_bishops: rand_array_64(),
        w_rooks: rand_array_64(),
        w_queens: rand_array_64(),
        w_king: rand_array_64(),
        b_pawns: rand_array_64(),
        b_knights: rand_array_64(),
        b_bishops: rand_array_64(),
        b_rooks: rand_array_64(),
        b_queens: rand_array_64(),
        b_king: rand_array_64(),
        side_to_move: rand_u64(),
        castle_w_kingside: rand_u64(),
        castle_w_queenside: rand_u64(),
        castle_b_kingside: rand_u64(),
        castle_b_queenside: rand_u64(),
        en_passant: rand_array_8(),
    }
}

/// The keys of piece kind `piece` (0 pawn .. 5 king) and colour `color` (0 white, 1 black).
pub open spec fn piece_keys(keys: Zobrist, piece: int, color: int) -> [u64; 64] {
    if color == 0 {
        if piece == 0 {
            keys.w_pawns
        } else if piece == 1 {
            keys.w_knights
        } else if piece == 2 {
            keys.w_bishops
        } else if piece == 3 {
            keys.w_rooks
        } else if piece == 4 {
            keys.w_queens
        } else {
            keys.w_king
        }
    } else {
        if piece == 0 {
            keys.b_pawns
        } else if piece == 1 {
            keys.b_knights
        } else if piece == 2 {
            keys.b_bishops
        } else if piece == 3 {
            keys.b_rooks
        } else if piece == 4 {
            keys.b_queens
        } else {
            keys.b_king
        }
    }
}

/// The keys of piece kind `piece` and colour `color`.
pub fn keys_of(keys: &Zobrist, piece: usize, color: usize) -> (res: &[u64; 64])
    requires
        piece < 6,
        color < 2,
    ensures
        *res == piece_keys(*keys, piece as int, color as int),
{
    if color == 0 {
        if piece == 0 {
            &keys.w_pawns
        } else if piece == 1 {
            &keys.w_knights
        } else if piece == 2 {
            &keys.w_bishops
        } else if piece == 3 {
            &keys.w_rooks
        } else if piece == 4 {
            &keys.w_queens
        } else {
            &keys.w_king
        }
    } else {
        if piece == 0 {
            &keys.b_pawns
        } else if piece == 1 {
            &keys.b_knights
        } else if piece == 2 {
            &keys.b_bishops
        } else if piece == 3 {
            &keys.b_rooks
        } else if piece == 4 {
            &keys.b_queens
        } else {
            &keys.b_king
        }
    }
}

/// The exclusive or of `keys[sq]` over the squares `sq < n` of bitboard `b`.
pub open spec fn board_keys_xor(b: u64, keys: [u64; 64], n: nat) -> u64
    decreases n,
{
    if n == 0 {
        0
    } else {
        board_keys_xor(b, keys, (n - 1) as nat) ^ (if bit(b, n - 1) {
            keys[n - 1]
        } else {
            0u64
        })
    }
}

/// The part of a hash that the pieces give.
pub open spec fn pieces_hash(keys: Zobrist, pieces: [[u64; 2]; 6]) -> u64 {
    board_keys_xor(pieces[0][0], keys.w_pawns, 64) ^ board_keys_xor(pieces[1][0], keys.w_knights, 64)
        ^ board_keys_xor(pieces[2][0], keys.w_bishops, 64) ^ board_keys_xor(
        pieces[3][0],
        keys.w_rooks,
        64,
    ) ^ board_keys_xor(pieces[4][0], keys.w_queens, 64) ^ board_keys_xor(
        pieces[5][0],
        keys.w_king,
        64,
    ) ^ board_keys_xor(pieces[0][1], keys.b_pawns, 64) ^ board_keys_xor(
        pieces[1][1],
        keys.b_knights,
        64,
    ) ^ board_keys_xor(pieces[2][1], keys.b_bishops, 64) ^ board_keys_xor(
        pieces[3][1],
        keys.b_rooks,
        64,
    ) ^ board_keys_xor(pieces[4][1], keys.b_queens, 64) ^ board_keys_xor(
        pieces[5][1],
        keys.b_king,
        64,
    )
}

/// The en-passant key of an en-passant bitboard: the key of its file, or nothing.
pub open spec fn ep_key(keys: Zobrist, ep: u64) -> u64 {
    if ep != 0 {
        keys.en_passant[(vstd::std_specs::bits::u64_trailing_zeros(ep) % 8) as int]
    } else {
        0u64
    }
}

/// The hash of a position: the side to move, the castle rights, the en-passant file
/// and every piece on its square each contribute their key.
pub open spec fn zobrist_hash(
    keys: Zobrist,
    color_to_move: int,
    pieces: [[u64; 2]; 6],
    cwk: bool,
    cwq: bool,
    cbk: bool,
    cbq: bool,
    ep: u64,
) -> u64 {
    (if color_to_move == 1 {
        keys.side_to_move
    } else {
        0u64
    }) ^ (if cwk {
        keys.castle_w_kingside
    } else {
        0u64
    }) ^ (if cwq {
        keys.castle_w_queenside
    } else {
        0u64
    }) ^ (if cbk {
        keys.castle_b_kingside
    } else {
        0u64
    }) ^ (if cbq {
        keys.castle_b_queenside
    } else {
        0u64
    }) ^ ep_key(keys, ep) ^ pieces_hash(keys, pieces)
}

pub proof fn lemma_board_keys_xor_empty(keys: [u64; 64], n: nat)
    ensures
        board_keys_xor(0u64, keys, n) == 0u64,
    decreases n,
{
    if n > 0 {
        lemma_board_keys_xor_empty(keys, (n - 1) as nat);
        lemma_bit_single(0, n - 1);
        assert(0u64 ^ 0u64 == 0u64) by (bit_vector);
    }
}

/// Flipping one square of a bitboard flips that square's key in the board's hash.
pub proof fn lemma_board_keys_xor_toggle(b: u64, keys: [u64; 64], n: nat, s: u64)
    requires
        s < 64,
        n <= 64,
    ensures
        board_keys_xor(b ^ (1u64 << s), keys, n) == board_keys_xor(b, keys, n) ^ (if s < n {
            keys[s as int]
        } else {
            0u64
        }),
    decreases n,
{
    broadcast use lemma_bit_xor_auto;

    if n == 0 {
        assert(0u64 ^ 0u64 == 0u64) by (bit_vector);
    } else {
        let m = (n - 1) as nat;
        lemma_board_keys_xor_toggle(b, keys, m, s);
        lemma_bit_single(s, m as int);
        let prev = board_keys_xor(b, keys, m);
        let k = if s < m {
            keys[s as int]
        } else {
            0u64
        };
        let x = if bit(b, m as int) {
            keys[m as int]
        } else {
            0u64
        };
        let y = if bit(b ^ (1u64 << s), m as int) {
            keys[m as int]
        } else {
            0u64
        };
        let z = if s < n {
            keys[s as int]
        } else {
            0u64
        };
        assert((prev ^ k) ^ y == (prev ^ x) ^ z) by {
            assert forall|t: int| 0 <= t < 64 implies #[trigger] bit((prev ^ k) ^ y, t) == bit(
                (prev ^ x) ^ z,
                t,
            ) by {
                lemma_bit_single(0, t);
            }
            lemma_bit_extensional((prev ^ k) ^ y, (prev ^ x) ^ z);
        }
    }
}

/// The exclusive or of the keys of all squares of `board`.
pub fn xor_board_keys(board: u64, keys: &[u64; 64]) -> (res: u64)
    ensures
        res == board_keys_xor(board, *keys, 64),
{
    broadcast use lemma_bit_xor_auto;

    let mut hash = 0u64;
    let mut w = board;
    proof {
        let x = board_keys_xor(board, *keys, 64);
        assert(0u64 ^ x == x) by (bit_vector);
    }
    while w != 0u64
        invariant
            hash ^ board_keys_xor(w, *keys, 64) == board_keys_xor(board, *keys, 64),
        decreases w,
    {
        let idx = w.trailing_zeros() as usize;
        proof {
            vstd::std_specs::bits::axiom_u64_trailing_zeros(w);
        }
        let ghost old_w = w;
        let ghost old_hash = hash;
        hash = hash ^ keys[idx];
        w = w ^ (1u64 << idx as u64);
        proof {
            lemma_board_keys_xor_toggle(old_w, *keys, 64, idx as u64);
            let k = keys[idx as int];
            let bw = board_keys_xor(old_w, *keys, 64);
            assert((old_hash ^ k) ^ (bw ^ k) == old_hash ^ bw) by {
                assert forall|t: int| 0 <= t < 64 implies #[trigger] bit(
                    (old_hash ^ k) ^ (bw ^ k),
                    t,
                ) == bit(old_hash ^ bw, t) by {
                    lemma_bit_ops(old_hash ^ k, bw ^ k, t);
                    lemma_bit_ops(old_hash, k, t);
                    lemma_bit_ops(bw, k, t);
                    lemma_bit_ops(old_hash, bw, t);
                }
                lemma_bit_extensional((old_hash ^ k) ^ (bw ^ k), old_hash ^ bw);
            }
            let i = idx as u64;
            assert((old_w ^ (1u64 << i)) < old_w) by (bit_vector)
                requires
                    i < 64,
                    (old_w >> i) & 1u64 == 1u64,
            ;
        }
    }
    proof {
        lemma_board_keys_xor_empty(*keys, 64);
        assert(hash ^ 0u64 == hash) by (bit_vector);
    }
    hash
}


/// Replacing one of seven terms of a XOR by `y` gives the XOR with that term cleared,
/// XORed with `y`; and XOR regroups.
proof fn lemma_xor_seven(a: u64, b: u64, c: u64, d: u64, e: u64, f: u64, q: u64, y: u64, z: u64)
    by (bit_vector)
    ensures
        (y ^ b ^ c ^ d ^ e ^ f ^ q) == (0u64 ^ b ^ c ^ d ^ e ^ f ^ q) ^ y,
        (a ^ y ^ c ^ d ^ e ^ f ^ q) == (a ^ 0u64 ^ c ^ d ^ e ^ f ^ q) ^ y,
        (a ^ b ^ y ^ d ^ e ^ f ^ q) == (a ^ b ^ 0u64 ^ d ^ e ^ f ^ q) ^ y,
        (a ^ b ^ c ^ y ^ e ^ f ^ q) == (a ^ b ^ c ^ 0u64 ^ e ^ f ^ q) ^ y,
        (a ^ b ^ c ^ d ^ y ^ f ^ q) == (a ^ b ^ c ^ d ^ 0u64 ^ f ^ q) ^ y,
        (a ^ b ^ c ^ d ^ e ^ y ^ q) == (a ^ b ^ c ^ d ^ e ^ 0u64 ^ q) ^ y,
        (a ^ b ^ c ^ d ^ e ^ f ^ y) == (a ^ b ^ c ^ d ^ e ^ f ^ 0u64) ^ y,
        (z ^ (q ^ y)) == ((z ^ q) ^ y),
{
}

/// XORing `y` into one of twelve terms of a XOR XORs it into the whole.
proof fn lemma_xor_twelve(x0: u64, x1: u64, x2: u64, x3: u64, x4: u64, x5: u64, x6: u64, x7: u64, x8: u64, x9: u64, x10: u64, x11: u64, y: u64)
    by (bit_vector)
    ensures
        ((x0 ^ y) ^ x1 ^ x2 ^ x3 ^ x4 ^ x5 ^ x6 ^ x7 ^ x8 ^ x9 ^ x10 ^ x11) == (x0 ^ x1 ^ x2 ^ x3 ^ x4 ^ x5 ^ x6 ^ x7 ^ x8 ^ x9 ^ x10 ^ x11) ^ y,
        (x0 ^ (x1 ^ y) ^ x2 ^ x3 ^ x4 ^ x5 ^ x6 ^ x7 ^ x8 ^ x9 ^ x10 ^ x11) == (x0 ^ x1 ^ x2 ^ x3 ^ x4 ^ x5 ^ x6 ^ x7 ^ x8 ^ x9 ^ x10 ^ x11) ^ y,
        (x0 ^ x1 ^ (x2 ^ y) ^ x3 ^ x4 ^ x5 ^ x6 ^ x7 ^ x8 ^ x9 ^ x10 ^ x11) == (x0 ^ x1 ^ x2 ^ x3 ^ x4 ^ x5 ^ x6 ^ x7 ^ x8 ^ x9 ^ x10 ^ x11) ^ y,
        (x0 ^ x1 ^ x2 ^ (x3 ^ y) ^ x4 ^ x5 ^ x6 ^ x7 ^ x8 ^ x9 ^ x10 ^ x11) == (x0 ^ x1 ^ x2 ^ x3 ^ x4 ^ x5 ^ x6 ^ x7 ^ x8 ^ x9 ^ x10 ^ x11) ^ y,
        (x0 ^ x1 ^ x2 ^ x3 ^ (x4 ^ y) ^ x5 ^ x6 ^ x7 ^ x8 ^ x9 ^ x10 ^ x11) == (x0 ^ x1 ^ x2 ^ x3 ^ x4 ^ x5 ^ x6 ^ x7 ^ x8 ^ x9 ^ x10 ^ x11) ^ y,
        (x0 ^ x1 ^ x2 ^ x3 ^ x4 ^ (x5 ^ y) ^ x6 ^ x7 ^ x8 ^ x9 ^ x10 ^ x11) == (x0 ^ x1 ^ x2 ^ x3 ^ x4 ^ x5 ^ x6 ^ x7 ^ x8 ^ x9 ^ x10 ^ x11) ^ y,
        (x0 ^ x1 ^ x2 ^ x3 ^ x4 ^ x5 ^ (x6 ^ y) ^ x7 ^ x8 ^ x9 ^ x10 ^ x11) == (x0 ^ x1 ^ x2 ^ x3 ^ x4 ^ x5 ^ x6 ^ x7 ^ x8 ^ x9 ^ x10 ^ x11) ^ y,
        (x0 ^ x1 ^ x2 ^ x3 ^ x4 ^ x5 ^ x6 ^ (x7 ^ y) ^ x8 ^ x9 ^ x10 ^ x11) == (x0 ^ x1 ^ x2 ^ x3 ^ x4 ^ x5 ^ x6 ^ x7 ^ x8 ^ x9 ^ x10 ^ x11) ^ y,
        (x0 ^ x1 ^ x2 ^ x3 ^ x4 ^ x5 ^ x6 ^ x7 ^ (x8 ^ y) ^ x9 ^ x10 ^ x11) == (x0 ^ x1 ^ x2 ^ x3 ^ x4 ^ x5 ^ x6 ^ x7 ^ x8 ^ x9 ^ x10 ^ x11) ^ y,
        (x0 ^ x1 ^ x2 ^ x3 ^ x4 ^ x5 ^ x6 ^ x7 ^ x8 ^ (x9 ^ y) ^ x10 ^ x11) == (x0 ^ x1 ^ x2 ^ x3 ^ x4 ^ x5 ^ x6 ^ x7 ^ x8 ^ x9 ^ x10 ^ x11) ^ y,
        (x0 ^ x1 ^ x2 ^ x3 ^ x4 ^ x5 ^ x6 ^ x7 ^ x8 ^ x9 ^ (x10 ^ y) ^ x11) == (x0 ^ x1 ^ x2 ^ x3 ^ x4 ^ x5 ^ x6 ^ x7 ^ x8 ^ x9 ^ x10 ^ x11) ^ y,
        (x0 ^ x1 ^ x2 ^ x3 ^ x4 ^ x5 ^ x6 ^ x7 ^ x8 ^ x9 ^ x10 ^ (x11 ^ y)) == (x0 ^ x1 ^ x2 ^ x3 ^ x4 ^ x5 ^ x6 ^ x7 ^ x8 ^ x9 ^ x10 ^ x11) ^ y,
{
}

/// The hash laws: the side to move, each castle right and the en-passant file each
/// contribute their key to the hash, XORed into what the rest gives.
pub proof fn lemma_hash_xor_laws(
    keys: Zobrist,
    color_to_move: int,
    pieces: [[u64; 2]; 6],
    cwk: bool,
    cwq: bool,
    cbk: bool,
    cbq: bool,
    ep: u64,
)
    ensures
        zobrist_hash(keys, 1, pieces, cwk, cwq, cbk, cbq, ep) == zobrist_hash(keys, 0, pieces, cwk, cwq, cbk, cbq, ep)
            ^ keys.side_to_move,
        zobrist_hash(keys, color_to_move, pieces, true, cwq, cbk, cbq, ep) == zobrist_hash(
            keys,
            color_to_move,
            pieces,
            false,
            cwq,
            cbk,
            cbq,
            ep,
        ) ^ keys.castle_w_kingside,
        zobrist_hash(keys, color_to_move, pieces, cwk, true, cbk, cbq, ep) == zobrist_hash(
            keys,
            color_to_move,
            pieces,
            cwk,
            false,
            cbk,
            cbq,
            ep,
        ) ^ keys.castle_w_queenside,
        zobrist_hash(keys, color_to_move, pieces, cwk, cwq, true, cbq, ep) == zobrist_hash(
            keys,
            color_to_move,
            pieces,
            cwk,
            cwq,
            false,
            cbq,
            ep,
        ) ^ keys.castle_b_kingside,
        zobrist_hash(keys, color_to_move, pieces, cwk, cwq, cbk, true, ep) == zobrist_hash(
            keys,
            color_to_move,
            pieces,
            cwk,
            cwq,
            cbk,
            false,
            ep,
        ) ^ keys.castle_b_queenside,
        zobrist_hash(keys, color_to_move, pieces, cwk, cwq, cbk, cbq, ep) == zobrist_hash(
            keys,
            color_to_move,
            pieces,
            cwk,
            cwq,
            cbk,
            cbq,
            0u64,
        ) ^ ep_key(keys, ep),
        ep != 0u64 ==> ep_key(keys, ep) == keys.en_passant[(vstd::std_specs::bits::u64_trailing_zeros(ep) % 8) as int],
{
    let s1 = keys.side_to_move;
    let s = if color_to_move == 1 { keys.side_to_move } else { 0u64 };
    let a = if cwk { keys.castle_w_kingside } else { 0u64 };
    let b = if cwq { keys.castle_w_queenside } else { 0u64 };
    let c = if cbk { keys.castle_b_kingside } else { 0u64 };
    let d = if cbq { keys.castle_b_queenside } else { 0u64 };
    let e = ep_key(keys, ep);
    let q = pieces_hash(keys, pieces);
    lemma_xor_seven(0u64, a, b, c, d, e, q, s1, 0u64);
    lemma_xor_seven(s, a, b, c, d, e, q, keys.castle_w_kingside, 0u64);
    lemma_xor_seven(s, a, b, c, d, e, q, keys.castle_w_queenside, 0u64);
    lemma_xor_seven(s, a, b, c, d, e, q, keys.castle_b_kingside, 0u64);
    lemma_xor_seven(s, a, b, c, d, e, q, keys.castle_b_queenside, 0u64);
    lemma_xor_seven(s, a, b, c, d, e, q, e, 0u64);
    assert(ep_key(keys, 0u64) == 0u64);
}

/// Putting a piece on an empty square XORs that piece's key for the square into the hash.
pub proof fn lemma_hash_add_piece(
    keys: Zobrist,
    color_to_move: int,
    before: [[u64; 2]; 6],
    after: [[u64; 2]; 6],
    cwk: bool,
    cwq: bool,
    cbk: bool,
    cbq: bool,
    ep: u64,
    piece: int,
    color: int,
    sq: u64,
)
    requires
        0 <= piece < 6,
        0 <= color < 2,
        sq < 64,
        !bit(before[piece][color], sq as int),
        after[piece][color] == before[piece][color] | (1u64 << sq),
        forall|k: int, c: int|
            0 <= k < 6 && 0 <= c < 2 && (k != piece || c != color) ==> after[k][c] == before[k][c],
    ensures
        zobrist_hash(keys, color_to_move, after, cwk, cwq, cbk, cbq, ep) == zobrist_hash(
            keys,
            color_to_move,
            before,
            cwk,
            cwq,
            cbk,
            cbq,
            ep,
        ) ^ piece_keys(keys, piece, color)[sq as int],
{
    let old_board = before[piece][color];
    assert(after[piece][color] == old_board ^ (1u64 << sq)) by {
        assert forall|t: int| 0 <= t < 64 implies #[trigger] bit(after[piece][color], t) == bit(
            old_board ^ (1u64 << sq),
            t,
        ) by {
            lemma_bit_ops(old_board, 1u64 << sq, t);
            lemma_bit_single(sq, t);
        }
        lemma_bit_extensional(after[piece][color], old_board ^ (1u64 << sq));
    }
    let y = piece_keys(keys, piece, color)[sq as int];
    lemma_board_keys_xor_toggle(old_board, piece_keys(keys, piece, color), 64, sq);
    let h = |k: int, c: int| board_keys_xor(before[k][c], piece_keys(keys, k, c), 64);
    lemma_xor_twelve(
        h(0, 0), h(1, 0), h(2, 0), h(3, 0), h(4, 0), h(5, 0),
        h(0, 1), h(1, 1), h(2, 1), h(3, 1), h(4, 1), h(5, 1),
        y,
    );
    let s = if color_to_move == 1 { keys.side_to_move } else { 0u64 };
    let a = if cwk { keys.castle_w_kingside } else { 0u64 };
    let b = if cwq { keys.castle_w_queenside } else { 0u64 };
    let c = if cbk { keys.castle_b_kingside } else { 0u64 };
    let d = if cbq { keys.castle_b_queenside } else { 0u64 };
    let e = ep_key(keys, ep);
    let z = s ^ a ^ b ^ c ^ d ^ e;
    lemma_xor_seven(s, a, b, c, d, e, pieces_hash(keys, before), y, z);
    assert(pieces_hash(keys, after) == pieces_hash(keys, before) ^ y);
}

} // verus!
