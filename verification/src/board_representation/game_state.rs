use crate::bitboards::{bit, lemma_bit_extensional, lemma_bit_ops};
use crate::board_representation::zobrist_hashing::{
    xor_board_keys, zobrist_hash, Zobrist,
};
use crate::board_representation::fen::{
    append_decimal, decimal, digit_char, digit_str, boards_from_rows, chars_of, contains_char,
    fen_piece, fen_piece_at, fen_skip, has_char, is_just, is_just_char, lemma_decimal_reads,
    lemma_digit_char, lemma_has_char_concat, lemma_has_char_one, lemma_rank_piece_behind, lemma_rank_read_shift,
    lemma_split_at_first, lemma_split_at_whole, file_letter_value, rank_digit_value, parse_en_passant, parse_number, parse_rank,
    parse_usize, rank_ok, rank_piece, read_en_passant, row_square, split_at, split_chars,
};
use crate::move_generation::attacks::single_square;
use crate::move_generation::movegen::boards_disjoint;
use crate::search::cache::promotion_named;
use vstd::prelude::*;
use vstd::string::{StrSliceExecFns, StringExecFns, StringSliceAdditionalSpecFns};

verus! {

pub const PAWN: usize = 0;

pub const KNIGHT: usize = 1;

pub const BISHOP: usize = 2;

pub const ROOK: usize = 3;

pub const QUEEN: usize = 4;

pub const KING: usize = 5;

pub const WHITE: usize = 0;

pub const BLACK: usize = 1;

#[derive(PartialEq, Eq, Structural, Clone, Copy, Debug)]
pub enum GameResult {
    Ingame,
    WhiteWin,
    BlackWin,
    Draw,
}

#[derive(PartialEq, Eq, Structural, Clone, Copy, Debug)]
pub enum PieceType {
    King,
    Pawn,
    Knight,
    Bishop,
    Rook,
    Queen,
}

#[derive(PartialEq, Eq, Structural, Clone, Copy, Debug)]
pub enum GameMoveType {
    Quiet,
    Capture(PieceType),
    EnPassant,
    Castle,
    Promotion(PieceType, Option<PieceType>),
}

#[derive(PartialEq, Eq, Structural, Clone, Copy, Debug)]
pub struct GameMove {
    pub from: usize,
    pub to: usize,
    pub move_type: GameMoveType,
    pub piece_type: PieceType,
}

/// A file letter: `a` to `h`.
pub open spec fn is_file_char(c: char) -> bool {
    'a' <= c <= 'h'
}

/// A rank digit: `1` to `8`.
pub open spec fn is_rank_char(c: char) -> bool {
    '1' <= c <= '8'
}

/// A promotion letter, in either case: queen, rook, bishop or knight.
pub open spec fn is_promotion_char(c: char) -> bool {
    c == 'q' || c == 'Q' || c == 'r' || c == 'R' || c == 'b' || c == 'B' || c == 'n' || c == 'N'
}

/// The piece kind a promotion letter names.
pub open spec fn promotion_of_char(c: char) -> PieceType {
    if c == 'q' || c == 'Q' {
        PieceType::Queen
    } else if c == 'r' || c == 'R' {
        PieceType::Rook
    } else if c == 'b' || c == 'B' {
        PieceType::Bishop
    } else {
        PieceType::Knight
    }
}

/// The piece kind a promotion letter names.
pub fn char_to_promotion_piecetype(c: char) -> (res: PieceType)
    requires
        is_promotion_char(c),
    ensures
        res == promotion_of_char(c),
{
    match c {
        'q' | 'Q' => PieceType::Queen,
        'r' | 'R' => PieceType::Rook,
        'b' | 'B' => PieceType::Bishop,
        _ => PieceType::Knight,
    }
}

/// The rank (0 to 7) a rank digit names.
pub fn char_to_rank(c: char) -> (res: usize)
    requires
        is_rank_char(c),
    ensures
        res == c as int - '1' as int,
{
    match c {
        '1' => 0,
        '2' => 1,
        '3' => 2,
        '4' => 3,
        '5' => 4,
        '6' => 5,
        '7' => 6,
        _ => 7,
    }
}

/// The file (0 to 7) a file letter names.
pub fn char_to_file(c: char) -> (res: usize)
    requires
        is_file_char(c),
    ensures
        res == c as int - 'a' as int,
{
    match c {
        'a' => 0,
        'b' => 1,
        'c' => 2,
        'd' => 3,
        'e' => 4,
        'f' => 5,
        'g' => 6,
        _ => 7,
    }
}

/// The letter of file `file`.
pub open spec fn file_letter(file: int) -> char {
    if file == 0 {
        'a'
    } else if file == 1 {
        'b'
    } else if file == 2 {
        'c'
    } else if file == 3 {
        'd'
    } else if file == 4 {
        'e'
    } else if file == 5 {
        'f'
    } else if file == 6 {
        'g'
    } else {
        'h'
    }
}

/// The letter of file `file`, as a string.
pub fn file_to_string(file: usize) -> (res: &'static str)
    requires
        file < 8,
    ensures
        res@ == seq![file_letter(file as int)],
{
    proof {
        reveal_strlit("a");
        reveal_strlit("b");
        reveal_strlit("c");
        reveal_strlit("d");
        reveal_strlit("e");
        reveal_strlit("f");
        reveal_strlit("g");
        reveal_strlit("h");
    }
    match file {
        0 => "a",
        1 => "b",
        2 => "c",
        3 => "d",
        4 => "e",
        5 => "f",
        6 => "g",
        _ => "h",
    }
}

/// A move written in coordinates: two squares (file letter and rank digit each), then,
/// when the text is five bytes long, a promotion letter.
pub open spec fn is_move_text(desc: &str) -> bool {
    &&& desc@.len() >= 4
    &&& is_file_char(desc@[0])
    &&& is_rank_char(desc@[1])
    &&& is_file_char(desc@[2])
    &&& is_rank_char(desc@[3])
    &&& desc.spec_bytes().len() as usize == 5 ==> desc@.len() >= 5 && is_promotion_char(desc@[4])
}

/// The square a file letter and a rank digit name.
pub open spec fn square_of_chars(file: char, rank: char) -> int {
    (file as int - 'a' as int) + 8 * (rank as int - '1' as int)
}

/// The row of the piece tables that holds a piece kind.
pub open spec fn piece_index(p: PieceType) -> int {
    match p {
        PieceType::Pawn => 0,
        PieceType::Knight => 1,
        PieceType::Bishop => 2,
        PieceType::Rook => 3,
        PieceType::Queen => 4,
        PieceType::King => 5,
    }
}

impl PieceType {
    /// The row of the piece tables that holds this piece kind.
    pub fn to_index(self) -> (res: usize)
        ensures
            res == piece_index(self),
    {
        match self {
            PieceType::Pawn => PAWN,
            PieceType::Knight => KNIGHT,
            PieceType::Bishop => BISHOP,
            PieceType::Rook => ROOK,
            PieceType::Queen => QUEEN,
            PieceType::King => KING,
        }
    }

    /// The zobrist keys of this piece kind, for white and for black.
    pub fn to_zobrist_key(self, keys: &Zobrist) -> (res: ([u64; 64], [u64; 64]))
        ensures
            res.0 == crate::board_representation::zobrist_hashing::piece_keys(
                *keys,
                piece_index(self),
                0,
            ),
            res.1 == crate::board_representation::zobrist_hashing::piece_keys(
                *keys,
                piece_index(self),
                1,
            ),
    {
        match self {
            PieceType::Pawn => (keys.w_pawns, keys.b_pawns),
            PieceType::Knight => (keys.w_knights, keys.b_knights),
            PieceType::Bishop => (keys.w_bishops, keys.b_bishops),
            PieceType::Rook => (keys.w_rooks, keys.b_rooks),
            PieceType::Queen => (keys.w_queens, keys.b_queens),
            PieceType::King => (keys.w_king, keys.b_king),
        }
    }

    /// The material value of this piece kind in the middle game and in the end game.
    pub fn to_piece_score(self) -> (res: (i16, i16))
        requires
            self != PieceType::King,
        ensures
            res == piece_score(self),
    {
        match self {
            PieceType::Pawn => (PAWN_PIECE_VALUE_MG, PAWN_PIECE_VALUE_EG),
            PieceType::Knight => (KNIGHT_PIECE_VALUE_MG, KNIGHT_PIECE_VALUE_EG),
            PieceType::Bishop => (BISHOP_PIECE_VALUE_MG, BISHOP_PIECE_VALUE_EG),
            PieceType::Rook => (ROOK_PIECE_VALUE_MG, ROOK_PIECE_VALUE_EG),
            PieceType::Queen => (QUEEN_PIECE_VALUE_MG, QUEEN_PIECE_VALUE_EG),
            PieceType::King => (0, 0),
        }
    }

    /// The weight of this piece kind in the game phase.
    pub fn to_phase_score(self) -> (res: i16)
        requires
            self != PieceType::King,
        ensures
            res == phase_score(self),
    {
        match self {
            PieceType::Pawn => 0,
            PieceType::Knight => 500,
            PieceType::Bishop => 510,
            PieceType::Rook => 650,
            PieceType::Queen => 1500,
            PieceType::King => 0,
        }
    }
}

pub const PAWN_PIECE_VALUE_MG: i16 = 108;

pub const PAWN_PIECE_VALUE_EG: i16 = 189;

pub const KNIGHT_PIECE_VALUE_MG: i16 = 438;

pub const KNIGHT_PIECE_VALUE_EG: i16 = 718;

pub const BISHOP_PIECE_VALUE_MG: i16 = 489;

pub const BISHOP_PIECE_VALUE_EG: i16 = 701;

pub const ROOK_PIECE_VALUE_MG: i16 = 670;

pub const ROOK_PIECE_VALUE_EG: i16 = 1247;

pub const QUEEN_PIECE_VALUE_MG: i16 = 1542;

pub const QUEEN_PIECE_VALUE_EG: i16 = 2342;

pub open spec fn piece_score(p: PieceType) -> (i16, i16) {
    match p {
        PieceType::Pawn => (PAWN_PIECE_VALUE_MG, PAWN_PIECE_VALUE_EG),
        PieceType::Knight => (KNIGHT_PIECE_VALUE_MG, KNIGHT_PIECE_VALUE_EG),
        PieceType::Bishop => (BISHOP_PIECE_VALUE_MG, BISHOP_PIECE_VALUE_EG),
        PieceType::Rook => (ROOK_PIECE_VALUE_MG, ROOK_PIECE_VALUE_EG),
        PieceType::Queen => (QUEEN_PIECE_VALUE_MG, QUEEN_PIECE_VALUE_EG),
        PieceType::King => (0, 0),
    }
}

pub open spec fn phase_score(p: PieceType) -> i16 {
    match p {
        PieceType::Pawn => 0,
        PieceType::Knight => 500,
        PieceType::Bishop => 510,
        PieceType::Rook => 650,
        PieceType::Queen => 1500,
        PieceType::King => 0,
    }
}

/// The letter a promotion to `p` is written with.
pub open spec fn promotion_letter(p: PieceType) -> char {
    match p {
        PieceType::Queen => 'q',
        PieceType::Rook => 'r',
        PieceType::Bishop => 'b',
        _ => 'n',
    }
}

/// A move in coordinates: the file letter and rank number of its from-square, those of its
/// to-square, and the letter of its promotion piece if it promotes.
pub open spec fn move_text(mv: GameMove) -> Seq<char> {
    seq![file_letter(mv.from as int % 8)] + decimal((mv.from / 8 + 1) as nat) + seq![
        file_letter(mv.to as int % 8),
    ] + decimal((mv.to / 8 + 1) as nat) + match mv.move_type {
        GameMoveType::Promotion(p, _) => seq![promotion_letter(p)],
        _ => Seq::empty(),
    }
}

/// The text of a move on the board reads back as the move: its first two letters name
/// the from-square, the next two the to-square, and a fifth, where there is one, the
/// promotion piece.
pub proof fn lemma_move_text_reads(mv: GameMove)
    requires
        mv.from < 64,
        mv.to < 64,
        promotion_named(mv.move_type),
    ensures
        ({
            let t = move_text(mv);
            &&& t.len() == if mv.move_type is Promotion {
                5int
            } else {
                4int
            }
            &&& is_file_char(t[0]) && is_rank_char(t[1]) && is_file_char(t[2]) && is_rank_char(t[3])
            &&& square_of_chars(t[0], t[1]) == mv.from
            &&& square_of_chars(t[2], t[3]) == mv.to
            &&& mv.move_type matches GameMoveType::Promotion(p, _) ==> is_promotion_char(t[4])
                && promotion_of_char(t[4]) == p
        }),
{
    let f = mv.from as int;
    let t = mv.to as int;
    assert(decimal((mv.from / 8 + 1) as nat) == seq![digit_char(f / 8 + 1)]);
    assert(decimal((mv.to / 8 + 1) as nat) == seq![digit_char(t / 8 + 1)]);
    assert(f == 8 * (f / 8) + f % 8);
    assert(t == 8 * (t / 8) + t % 8);
    assert(0 <= f % 8 < 8 && 0 <= t % 8 < 8);
    assert(f % 8 == 0 || f % 8 == 1 || f % 8 == 2 || f % 8 == 3 || f % 8 == 4 || f % 8 == 5
        || f % 8 == 6 || f % 8 == 7);
    assert(t % 8 == 0 || t % 8 == 1 || t % 8 == 2 || t % 8 == 3 || t % 8 == 4 || t % 8 == 5
        || t % 8 == 6 || t % 8 == 7);
}

impl GameMove {
    /// The move in coordinates, such as `e2e4` or `e7e8q`.
    pub fn to_move_string(&self) -> (res: String)
        requires
            promotion_named(self.move_type),
        ensures
            res@ == move_text(*self),
    {
        let mut res_str = String::new();
        res_str.append(file_to_string(self.from % 8));
        append_decimal(&mut res_str, self.from / 8 + 1);
        res_str.append(file_to_string(self.to % 8));
        append_decimal(&mut res_str, self.to / 8 + 1);
        proof {
            reveal_strlit("q");
            reveal_strlit("r");
            reveal_strlit("b");
            reveal_strlit("n");
        }
        match self.move_type {
            GameMoveType::Promotion(PieceType::Queen, _) => res_str.append("q"),
            GameMoveType::Promotion(PieceType::Rook, _) => res_str.append("r"),
            GameMoveType::Promotion(PieceType::Bishop, _) => res_str.append("b"),
            GameMoveType::Promotion(_, _) => res_str.append("n"),
            _ => {},
        }
        res_str
    }

    /// Reads a move in coordinates, such as `e2e4` or `e7e8q`: its from-square, its
    /// to-square and its promotion piece, if any.
    pub fn string_to_move(desc: &str) -> (res: (usize, usize, Option<PieceType>))
        requires
            is_move_text(desc),
        ensures
            res.0 == square_of_chars(desc@[0], desc@[1]),
            res.1 == square_of_chars(desc@[2], desc@[3]),
            res.2 == if desc.spec_bytes().len() as usize == 5 {
                Some(promotion_of_char(desc@[4]))
            } else {
                None
            },
    {
        let from_file = char_to_file(desc.get_char(0));
        let from_rank = char_to_rank(desc.get_char(1));
        let to_file = char_to_file(desc.get_char(2));
        let to_rank = char_to_rank(desc.get_char(3));
        if desc.len() == 5 {
            return (
                from_file + 8 * from_rank,
                to_file + 8 * to_rank,
                Some(char_to_promotion_piecetype(desc.get_char(4))),
            );
        }
        (from_file + 8 * from_rank, to_file + 8 * to_rank, None)
    }
}

/// A position: pieces, side to move, castle rights, en-passant square, move counters
/// and the position's hash.
#[derive(Clone, Copy)]
pub struct GameState {
    pub color_to_move: usize,
    pub pieces: [[u64; 2]; 6],
    pub castle_white_kingside: bool,
    pub castle_white_queenside: bool,
    pub castle_black_kingside: bool,
    pub castle_black_queenside: bool,
    pub en_passant: u64,
    pub half_moves: usize,
    pub full_moves: usize,
    pub hash: u64,
}

impl GameState {
    /// The hash a position ought to carry, computed from scratch.
    pub open spec fn spec_hash(self, keys: Zobrist) -> u64 {
        zobrist_hash(
            keys,
            self.color_to_move as int,
            self.pieces,
            self.castle_white_kingside,
            self.castle_white_queenside,
            self.castle_black_kingside,
            self.castle_black_queenside,
            self.en_passant,
        )
    }

    /// The position's hash agrees with its contents.
    pub open spec fn hash_consistent(self, keys: Zobrist) -> bool {
        self.hash == self.spec_hash(keys)
    }

    /// The hash of the position described by the arguments, computed from scratch.
    pub fn calculate_zobrist_hash(
        keys: &Zobrist,
        color_to_move: usize,
        pieces: [[u64; 2]; 6],
        cwk: bool,
        cwq: bool,
        cbk: bool,
        cbq: bool,
        ep: u64,
    ) -> (res: u64)
        ensures
            res == zobrist_hash(*keys, color_to_move as int, pieces, cwk, cwq, cbk, cbq, ep),
    {
        let side = if color_to_move == 1 {
            keys.side_to_move
        } else {
            0u64
        };
        let wk = if cwk {
            keys.castle_w_kingside
        } else {
            0u64
        };
        let wq = if cwq {
            keys.castle_w_queenside
        } else {
            0u64
        };
        let bk = if cbk {
            keys.castle_b_kingside
        } else {
            0u64
        };
        let bq = if cbq {
            keys.castle_b_queenside
        } else {
            0u64
        };
        let epk = if ep != 0u64 {
            let file = ep.trailing_zeros() as usize % 8;
            keys.en_passant[file]
        } else {
            0u64
        };
        let mut hash = side;
        hash = hash ^ wk;
        hash = hash ^ wq;
        hash = hash ^ bk;
        hash = hash ^ bq;
        hash = hash ^ epk;
        let mut board = xor_board_keys(pieces[PAWN][WHITE], &keys.w_pawns);
        board = board ^ xor_board_keys(pieces[KNIGHT][WHITE], &keys.w_knights);
        board = board ^ xor_board_keys(pieces[BISHOP][WHITE], &keys.w_bishops);
        board = board ^ xor_board_keys(pieces[ROOK][WHITE], &keys.w_rooks);
        board = board ^ xor_board_keys(pieces[QUEEN][WHITE], &keys.w_queens);
        board = board ^ xor_board_keys(pieces[KING][WHITE], &keys.w_king);
        board = board ^ xor_board_keys(pieces[PAWN][BLACK], &keys.b_pawns);
        board = board ^ xor_board_keys(pieces[KNIGHT][BLACK], &keys.b_knights);
        board = board ^ xor_board_keys(pieces[BISHOP][BLACK], &keys.b_bishops);
        board = board ^ xor_board_keys(pieces[ROOK][BLACK], &keys.b_rooks);
        board = board ^ xor_board_keys(pieces[QUEEN][BLACK], &keys.b_queens);
        board = board ^ xor_board_keys(pieces[KING][BLACK], &keys.b_king);
        hash = hash ^ board;
        hash
    }

    /// The squares of one side's pieces, its king included.
    pub fn get_pieces_from_side(&self, side: usize) -> (res: u64)
        requires
            side < 2,
        ensures
            forall|t: int|
                0 <= t < 64 ==> #[trigger] bit(res, t) == exists|p: int|
                    0 <= p < 6 && #[trigger] bit(self.pieces[p][side as int], t),
    {
        let without_king = self.get_pieces_from_side_without_king(side);
        let res = without_king | self.pieces[KING][side];
        assert forall|t: int| 0 <= t < 64 implies #[trigger] bit(res, t) == exists|p: int|
            0 <= p < 6 && #[trigger] bit(self.pieces[p][side as int], t) by {
            lemma_bit_ops(without_king, self.pieces[KING as int][side as int], t);
            if exists|p: int| 0 <= p < 6 && #[trigger] bit(self.pieces[p][side as int], t) {
                let p = choose|p: int| 0 <= p < 6 && #[trigger] bit(self.pieces[p][side as int], t);
                if p < 5 {
                    assert(0 <= p < 5 && bit(self.pieces[p][side as int], t));
                }
            }
            if bit(self.pieces[5][side as int], t) {
                assert(0 <= 5 < 6 && bit(self.pieces[5][side as int], t));
            }
        }
        res
    }

    /// The squares of one side's pieces other than its king.
    pub fn get_pieces_from_side_without_king(&self, side: usize) -> (res: u64)
        requires
            side < 2,
        ensures
            forall|t: int|
                0 <= t < 64 ==> #[trigger] bit(res, t) == exists|p: int|
                    0 <= p < 5 && #[trigger] bit(self.pieces[p][side as int], t),
    {
        let a = self.pieces[PAWN][side] | self.pieces[KNIGHT][side];
        let b = a | self.pieces[BISHOP][side];
        let c = b | self.pieces[ROOK][side];
        let res = c | self.pieces[QUEEN][side];
        assert forall|t: int| 0 <= t < 64 implies #[trigger] bit(res, t) == exists|p: int|
            0 <= p < 5 && #[trigger] bit(self.pieces[p][side as int], t) by {
            let s = side as int;
            lemma_bit_ops(c, self.pieces[4][s], t);
            lemma_bit_ops(b, self.pieces[3][s], t);
            lemma_bit_ops(a, self.pieces[2][s], t);
            lemma_bit_ops(self.pieces[0][s], self.pieces[1][s], t);
            if exists|p: int| 0 <= p < 5 && #[trigger] bit(self.pieces[p][s], t) {
                let p = choose|p: int| 0 <= p < 5 && #[trigger] bit(self.pieces[p][s], t);
                assert(p == 0 || p == 1 || p == 2 || p == 3 || p == 4);
            }
            if bit(self.pieces[0][s], t) {
                assert(bit(self.pieces[0][s], t));
            }
            if bit(self.pieces[1][s], t) {
                assert(bit(self.pieces[1][s], t));
            }
            if bit(self.pieces[2][s], t) {
                assert(bit(self.pieces[2][s], t));
            }
            if bit(self.pieces[3][s], t) {
                assert(bit(self.pieces[3][s], t));
            }
            if bit(self.pieces[4][s], t) {
                assert(bit(self.pieces[4][s], t));
            }
        }
        res
    }

    /// The squares of all pieces on the board.
    pub fn get_all_pieces(&self) -> (res: u64)
        ensures
            forall|t: int|
                0 <= t < 64 ==> #[trigger] bit(res, t) == exists|p: int, c: int|
                    0 <= p < 6 && 0 <= c < 2 && #[trigger] bit(self.pieces[p][c], t),
    {
        let w = self.get_pieces_from_side(WHITE);
        let b = self.get_pieces_from_side(BLACK);
        let res = w | b;
        assert forall|t: int| 0 <= t < 64 implies #[trigger] bit(res, t) == exists|p: int, c: int|
            0 <= p < 6 && 0 <= c < 2 && #[trigger] bit(self.pieces[p][c], t) by {
            lemma_bit_ops(w, b, t);
            if exists|p: int, c: int| 0 <= p < 6 && 0 <= c < 2 && #[trigger] bit(self.pieces[p][c], t) {
                let (p, c) = choose|p: int, c: int|
                    0 <= p < 6 && 0 <= c < 2 && #[trigger] bit(self.pieces[p][c], t);
                if c == 0 {
                    assert(0 <= p < 6 && bit(self.pieces[p][0], t));
                } else {
                    assert(0 <= p < 6 && bit(self.pieces[p][1], t));
                }
            }
            if bit(w, t) {
                let p = choose|p: int| 0 <= p < 6 && #[trigger] bit(self.pieces[p][0], t);
                assert(0 <= p < 6 && 0 <= 0 < 2 && bit(self.pieces[p][0], t));
            }
            if bit(b, t) {
                let p = choose|p: int| 0 <= p < 6 && #[trigger] bit(self.pieces[p][1], t);
                assert(0 <= p < 6 && 0 <= 1 < 2 && bit(self.pieces[p][1], t));
            }
        }
        res
    }

    /// The square of one side's king: the lowest square of its king board (64 if it
    /// has none).
    pub fn king_square(&self, side: usize) -> (res: usize)
        requires
            side < 2,
        ensures
            res == vstd::std_specs::bits::u64_trailing_zeros(self.pieces[5][side as int]),
    {
        self.pieces[KING][side].trailing_zeros() as usize
    }

    /// The letter of the piece on the square `shift` (upper case white, lower case black),
    /// or a blank.
    pub fn get_piece_on(&self, shift: i32) -> (res: &'static str)
        requires
            0 <= shift < 64,
        ensures
            res@ == match piece_letter_at(*self, shift as int) {
                Some(ch) => seq![ch],
                None => seq![' '],
            },
    {
        proof {
            reveal_strlit("P");
            reveal_strlit("N");
            reveal_strlit("B");
            reveal_strlit("R");
            reveal_strlit("Q");
            reveal_strlit("K");
            reveal_strlit("p");
            reveal_strlit("n");
            reveal_strlit("b");
            reveal_strlit("r");
            reveal_strlit("q");
            reveal_strlit("k");
            reveal_strlit(" ");
        }
        let sh = shift as u64;
        proof {
            let k = sh;
            crate::bitboards::lemma_bit_test(self.pieces[0][0], k);
            crate::bitboards::lemma_bit_test(self.pieces[1][0], k);
            crate::bitboards::lemma_bit_test(self.pieces[2][0], k);
            crate::bitboards::lemma_bit_test(self.pieces[3][0], k);
            crate::bitboards::lemma_bit_test(self.pieces[4][0], k);
            crate::bitboards::lemma_bit_test(self.pieces[5][0], k);
            crate::bitboards::lemma_bit_test(self.pieces[0][1], k);
            crate::bitboards::lemma_bit_test(self.pieces[1][1], k);
            crate::bitboards::lemma_bit_test(self.pieces[2][1], k);
            crate::bitboards::lemma_bit_test(self.pieces[3][1], k);
            crate::bitboards::lemma_bit_test(self.pieces[4][1], k);
            crate::bitboards::lemma_bit_test(self.pieces[5][1], k);
        }
        if (self.pieces[PAWN][WHITE] >> sh) & 1u64 != 0u64 {
            "P"
        } else if (self.pieces[KNIGHT][WHITE] >> sh) & 1u64 != 0u64 {
            "N"
        } else if (self.pieces[BISHOP][WHITE] >> sh) & 1u64 != 0u64 {
            "B"
        } else if (self.pieces[ROOK][WHITE] >> sh) & 1u64 != 0u64 {
            "R"
        } else if (self.pieces[QUEEN][WHITE] >> sh) & 1u64 != 0u64 {
            "Q"
        } else if (self.pieces[KING][WHITE] >> sh) & 1u64 != 0u64 {
            "K"
        } else if (self.pieces[PAWN][BLACK] >> sh) & 1u64 != 0u64 {
            "p"
        } else if (self.pieces[KNIGHT][BLACK] >> sh) & 1u64 != 0u64 {
            "n"
        } else if (self.pieces[BISHOP][BLACK] >> sh) & 1u64 != 0u64 {
            "b"
        } else if (self.pieces[ROOK][BLACK] >> sh) & 1u64 != 0u64 {
            "r"
        } else if (self.pieces[QUEEN][BLACK] >> sh) & 1u64 != 0u64 {
            "q"
        } else if (self.pieces[KING][BLACK] >> sh) & 1u64 != 0u64 {
            "k"
        } else {
            " "
        }
    }

    /// Appends the FEN text of rank row `rank` (0 for the eighth rank).
    fn append_rank_fen(&self, res_str: &mut String, rank: usize)
        requires
            rank < 8,
        ensures
            final(res_str)@ == old(res_str)@ + rank_fen(*self, rank as int, 0, 0),
    {
        let big_endian_rank = 7 - rank;
        let mut file: usize = 0;
        let mut files_skipped: usize = 0;
        let ghost row_start = res_str@;
        proof {
            assert(res_str@ + rank_fen(*self, rank as int, 0, 0) == row_start + rank_fen(
                *self,
                rank as int,
                0,
                0,
            ));
        }
        while file < 8
            invariant
                rank < 8,
                big_endian_rank == 7 - rank,
                file <= 8,
                files_skipped <= file,
                row_start + rank_fen(*self, rank as int, 0, 0) == res_str@ + rank_fen(
                    *self,
                    rank as int,
                    file as int,
                    files_skipped as int,
                ),
            decreases 8 - file,
        {
            let shift = big_endian_rank * 8 + file;
            let piece_on = self.get_piece_on(shift as i32);
            if piece_on.get_char(0) != ' ' {
                let ghost before = res_str@;
                if files_skipped != 0 {
                    res_str.append(digit_str(files_skipped));
                }
                res_str.append(piece_on);
                proof {
                    assert(res_str@ =~= before + skipped_text(files_skipped as int) + seq![
                        piece_letter_at(*self, shift as int)->0,
                    ]);
                }
                files_skipped = 0;
            } else {
                files_skipped = files_skipped + 1;
            }
            file = file + 1;
        }
        let ghost before_end = res_str@;
        if files_skipped != 0 {
            res_str.append(digit_str(files_skipped));
        }
        proof {
            assert(res_str@ =~= before_end + skipped_text(files_skipped as int));
        }
    }

    /// Appends the castle field.
    fn append_castle_fen(&self, res_str: &mut String)
        ensures
            final(res_str)@ == old(res_str)@ + castle_fen(*self),
    {
        let ghost start = res_str@;
        proof {
            reveal_strlit("-");
            reveal_strlit("K");
            reveal_strlit("Q");
            reveal_strlit("k");
            reveal_strlit("q");
        }
        if !(self.castle_white_kingside || self.castle_white_queenside || self.castle_black_kingside
            || self.castle_black_queenside) {
            res_str.append("-");
        } else {
            if self.castle_white_kingside {
                res_str.append("K");
            }
            let ghost a = res_str@;
            if self.castle_white_queenside {
                res_str.append("Q");
            }
            let ghost b = res_str@;
            if self.castle_black_kingside {
                res_str.append("k");
            }
            let ghost c = res_str@;
            if self.castle_black_queenside {
                res_str.append("q");
            }
            proof {
                assert(res_str@ =~= start + castle_fen(*self));
            }
        }
        proof {
            assert(res_str@ =~= start + castle_fen(*self));
        }
    }

    /// Appends the en-passant field.
    fn append_ep_fen(&self, res_str: &mut String)
        requires
            self.en_passant != 0u64 ==> vstd::std_specs::bits::u64_trailing_zeros(self.en_passant)
                < 64,
        ensures
            final(res_str)@ == old(res_str)@ + ep_fen(*self),
    {
        let ghost start = res_str@;
        proof {
            reveal_strlit("-");
        }
        if self.en_passant == 0u64 {
            res_str.append("-");
        } else {
            let idx = self.en_passant.trailing_zeros() as usize;
            let rank = idx / 8;
            let file = idx % 8;
            res_str.append(file_to_string(file));
            res_str.append(digit_str(rank + 1));
        }
        proof {
            assert(res_str@ =~= start + ep_fen(*self));
        }
    }

    /// Appends the fields after the board.
    #[verifier::rlimit(30)]
    fn append_fen_tail(&self, res_str: &mut String)
        requires
            self.en_passant != 0u64 ==> vstd::std_specs::bits::u64_trailing_zeros(self.en_passant)
                < 64,
        ensures
            final(res_str)@ == old(res_str)@ + fen_tail(*self),
    {
        let ghost start = res_str@;
        proof {
            reveal_strlit(" ");
            reveal_strlit("w");
            reveal_strlit("b");
        }
        res_str.append(" ");
        if self.color_to_move == 0 {
            res_str.append("w");
        } else {
            res_str.append("b");
        }
        res_str.append(" ");
        let ghost before_castle = res_str@;
        self.append_castle_fen(res_str);
        res_str.append(" ");
        let ghost before_ep = res_str@;
        self.append_ep_fen(res_str);
        res_str.append(" ");
        append_decimal(res_str, self.half_moves);
        res_str.append(" ");
        append_decimal(res_str, self.full_moves);
        proof {
            assert(res_str@ =~= start + fen_tail(*self));
        }
    }

    /// The FEN record of the position.
    pub fn to_fen(&self) -> (res: String)
        requires
            self.en_passant != 0u64 ==> vstd::std_specs::bits::u64_trailing_zeros(self.en_passant)
                < 64,
        ensures
            res@ == fen_text(*self),
    {
        let mut res_str = String::new();
        proof {
            assert(res_str@ =~= Seq::<char>::empty());
            assert(fen_text(*self) == res_str@ + board_fen(*self, 0) + fen_tail(*self));
        }
        let mut rank: usize = 0;
        while rank < 8
            invariant
                rank <= 8,
                fen_text(*self) == res_str@ + board_fen(*self, rank as int) + fen_tail(*self),
            decreases 8 - rank,
        {
            let ghost before = res_str@;
            self.append_rank_fen(&mut res_str, rank);
            if rank != 7 {
                res_str.append("/");
                proof {
                    reveal_strlit("/");
                }
            }
            proof {
                assert(res_str@ =~= before + rank_fen(*self, rank as int, 0, 0) + (if rank != 7 {
                    seq!['/']
                } else {
                    Seq::<char>::empty()
                }));
            }
            rank = rank + 1;
        }
        self.append_fen_tail(&mut res_str);
        res_str
    }

    /// The starting position.
    pub fn standard(keys: &Zobrist) -> (res: GameState)
        ensures
            res.color_to_move == 0,
            res.pieces == [
                [0xff00u64, 0x00ff_0000_0000_0000u64],
                [0x42u64, 0x4200_0000_0000_0000u64],
                [0x24u64, 0x2400_0000_0000_0000u64],
                [0x81u64, 0x8100_0000_0000_0000u64],
                [0x8u64, 0x0800_0000_0000_0000u64],
                [0x10u64, 0x1000_0000_0000_0000u64],
            ],
            res.castle_white_kingside && res.castle_white_queenside,
            res.castle_black_kingside && res.castle_black_queenside,
            res.en_passant == 0,
            res.half_moves == 0,
            res.full_moves == 1,
            res.hash_consistent(*keys),
    {
        let color_to_move = 0usize;
        let pieces = [
            [0xff00u64, 0x00ff_0000_0000_0000u64],
            [0x42u64, 0x4200_0000_0000_0000u64],
            [0x24u64, 0x2400_0000_0000_0000u64],
            [0x81u64, 0x8100_0000_0000_0000u64],
            [0x8u64, 0x0800_0000_0000_0000u64],
            [0x10u64, 0x1000_0000_0000_0000u64],
        ];
        GameState {
            color_to_move,
            pieces,
            castle_white_kingside: true,
            castle_white_queenside: true,
            castle_black_kingside: true,
            castle_black_queenside: true,
            en_passant: 0u64,
            half_moves: 0usize,
            full_moves: 1usize,
            hash: GameState::calculate_zobrist_hash(
                keys,
                color_to_move,
                pieces,
                true,
                true,
                true,
                true,
                0u64,
            ),
        }
    }

    /// The position a FEN record describes, or `None` where the record is malformed.
    pub fn parse_fen(keys: &Zobrist, fen: &str) -> (res: Option<GameState>)
        ensures
            res is Some <==> fen_ok(fen@),
            res is Some ==> fen_describes(fen@, res->0) && res->0.hash_consistent(*keys),
    {
        let chars = chars_of(fen);
        let fields = split_chars(&chars, ' ');
        if fields.len() < 4 {
            return None;
        }
        let ranks = split_chars(&fields[0], '/');
        if ranks.len() != 8 {
            return None;
        }
        let ghost ranks_spec = fen_ranks(fen@);
        proof {
            assert(fields[0]@ == fen_fields(fen@)[0]);
            assert forall|k: int| 0 <= k < 8 implies #[trigger] ranks[k]@ == ranks_spec[k] by {}
        }
        let mut pieces = [[0u64; 2]; 6];
        let mut row: usize = 0;
        proof {
            assert forall|p: int, c: int, t: int|
                0 <= p < 6 && 0 <= c < 2 && 0 <= t < 64 implies #[trigger] bit(pieces[p][c], t) == (7
                - t / 8 < 0 && fen_piece_at(ranks_spec, t) == Some((p, c))) by {
                crate::bitboards::lemma_bit_single(0, t);
            }
        }
        while row < 8
            invariant
                row <= 8,
                ranks.len() == 8,
                ranks_spec == fen_ranks(fen@),
                ranks_spec.len() == 8,
                forall|k: int| 0 <= k < 8 ==> #[trigger] ranks[k]@ == ranks_spec[k],
                forall|k: int| 0 <= k < row ==> rank_ok(#[trigger] ranks_spec[k], 0, 0),
                boards_from_rows(pieces, ranks_spec, row as int),
            decreases 8 - row,
        {
            if !parse_rank(&ranks[row], row, &mut pieces, Ghost(ranks_spec)) {
                return None;
            }
            row = row + 1;
        }
        let color_to_move: usize = if is_just_char(&fields[1], 'w') {
            0
        } else if is_just_char(&fields[1], 'b') {
            1
        } else {
            return None;
        };
        let castle_white_kingside = contains_char(&fields[2], 'K');
        let castle_white_queenside = contains_char(&fields[2], 'Q');
        let castle_black_kingside = contains_char(&fields[2], 'k');
        let castle_black_queenside = contains_char(&fields[2], 'q');
        let en_passant = match read_en_passant(&fields[3]) {
            Some(ep) => ep,
            None => {
                return None;
            },
        };
        let (half_moves, full_moves) = if fields.len() > 4 {
            if fields.len() < 6 {
                return None;
            }
            let half = match parse_number(&fields[4]) {
                Some(n) => n,
                None => {
                    return None;
                },
            };
            let full = match parse_number(&fields[5]) {
                Some(n) => n,
                None => {
                    return None;
                },
            };
            (half, full)
        } else {
            (0usize, 1usize)
        };
        let hash = GameState::calculate_zobrist_hash(
            keys,
            color_to_move,
            pieces,
            castle_white_kingside,
            castle_white_queenside,
            castle_black_kingside,
            castle_black_queenside,
            en_passant,
        );
        Some(
            GameState {
                color_to_move,
                pieces,
                castle_white_kingside,
                castle_white_queenside,
                castle_black_kingside,
                castle_black_queenside,
                en_passant,
                half_moves,
                full_moves,
                hash,
            },
        )
    }

    /// The position a FEN record describes, with its hash.
    pub fn from_fen(keys: &Zobrist, fen: &str) -> (res: GameState)
        requires
            fen_ok(fen@),
        ensures
            fen_describes(fen@, res),
            res.hash_consistent(*keys),
    {
        GameState::parse_fen(keys, fen).unwrap()
    }
}

/// The fields of a FEN record: its text parted at each space.
pub open spec fn fen_fields(s: Seq<char>) -> Seq<Seq<char>> {
    split_at(s, ' ')
}

/// The rank texts of a FEN record, from the eighth rank down.
pub open spec fn fen_ranks(s: Seq<char>) -> Seq<Seq<char>> {
    split_at(fen_fields(s)[0], '/')
}

/// A FEN record that reads without error: at least four fields; eight ranks, each naming
/// all eight files with piece letters and digits; `w` or `b` to move; an en-passant field;
/// and, where there are more than four fields, six, the fifth and sixth being numbers.
pub open spec fn fen_ok(s: Seq<char>) -> bool {
    let f = fen_fields(s);
    let ranks = fen_ranks(s);
    &&& f.len() >= 4
    &&& ranks.len() == 8
    &&& forall|row: int| 0 <= row < 8 ==> rank_ok(#[trigger] ranks[row], 0, 0)
    &&& (is_just(f[1], 'w') || is_just(f[1], 'b'))
    &&& parse_en_passant(f[3]) is Some
    &&& f.len() > 4 ==> f.len() >= 6 && parse_usize(f[4]) is Some && parse_usize(f[5]) is Some
}

/// `g` is the position the FEN record `s` describes (its hash aside): the side to move,
/// the piece on each square, the castle rights the third field names, the en-passant
/// square, and the move counters (0 and 1 where the record leaves them out).
pub open spec fn fen_describes(s: Seq<char>, g: GameState) -> bool {
    let f = fen_fields(s);
    let ranks = fen_ranks(s);
    &&& g.color_to_move == if is_just(f[1], 'w') {
        0usize
    } else {
        1usize
    }
    &&& forall|p: int, c: int, t: int|
        0 <= p < 6 && 0 <= c < 2 && 0 <= t < 64 ==> #[trigger] bit(g.pieces[p][c], t) == (
        fen_piece_at(ranks, t) == Some((p, c)))
    &&& g.castle_white_kingside == has_char(f[2], 'K')
    &&& g.castle_white_queenside == has_char(f[2], 'Q')
    &&& g.castle_black_kingside == has_char(f[2], 'k')
    &&& g.castle_black_queenside == has_char(f[2], 'q')
    &&& g.en_passant == parse_en_passant(f[3])->0
    &&& f.len() > 4 ==> g.half_moves == parse_usize(f[4])->0 && g.full_moves == parse_usize(
        f[5],
    )->0
    &&& f.len() <= 4 ==> g.half_moves == 0 && g.full_moves == 1
}


/// The letter of the piece on the square `sq`: the first board holding it among the white
/// pawns, knights, bishops, rooks, queens, king, then the black ones.
pub open spec fn piece_letter_at(g: GameState, sq: int) -> Option<char> {
    if bit(g.pieces[0][0], sq) {
        Some('P')
    } else if bit(g.pieces[1][0], sq) {
        Some('N')
    } else if bit(g.pieces[2][0], sq) {
        Some('B')
    } else if bit(g.pieces[3][0], sq) {
        Some('R')
    } else if bit(g.pieces[4][0], sq) {
        Some('Q')
    } else if bit(g.pieces[5][0], sq) {
        Some('K')
    } else if bit(g.pieces[0][1], sq) {
        Some('p')
    } else if bit(g.pieces[1][1], sq) {
        Some('n')
    } else if bit(g.pieces[2][1], sq) {
        Some('b')
    } else if bit(g.pieces[3][1], sq) {
        Some('r')
    } else if bit(g.pieces[4][1], sq) {
        Some('q')
    } else if bit(g.pieces[5][1], sq) {
        Some('k')
    } else {
        None
    }
}

/// The digit for a run of `n` empty squares before a piece or the rank's end, if any.
pub open spec fn skipped_text(n: int) -> Seq<char> {
    if n != 0 {
        seq![digit_char(n)]
    } else {
        Seq::<char>::empty()
    }
}

/// The FEN text of rank row `row` (0 for the eighth rank) from file `file` on, after a
/// run of `skipped` empty squares.
pub open spec fn rank_fen(g: GameState, row: int, file: int, skipped: int) -> Seq<char>
    decreases 8 - file,
{
    if file >= 8 {
        skipped_text(skipped)
    } else {
        match piece_letter_at(g, (7 - row) * 8 + file) {
            Some(ch) => skipped_text(skipped) + seq![ch] + rank_fen(g, row, file + 1, 0),
            None => rank_fen(g, row, file + 1, skipped + 1),
        }
    }
}

/// The FEN text of the ranks from row `row` down, parted by '/'.
pub open spec fn board_fen(g: GameState, row: int) -> Seq<char>
    decreases 8 - row,
{
    if row >= 8 {
        Seq::<char>::empty()
    } else {
        rank_fen(g, row, 0, 0) + (if row != 7 {
            seq!['/']
        } else {
            Seq::<char>::empty()
        }) + board_fen(g, row + 1)
    }
}

/// The castle field: the letters of the rights held, or '-'.
pub open spec fn castle_fen(g: GameState) -> Seq<char> {
    if !(g.castle_white_kingside || g.castle_white_queenside || g.castle_black_kingside
        || g.castle_black_queenside) {
        seq!['-']
    } else {
        (if g.castle_white_kingside {
            seq!['K']
        } else {
            Seq::<char>::empty()
        }) + (if g.castle_white_queenside {
            seq!['Q']
        } else {
            Seq::<char>::empty()
        }) + (if g.castle_black_kingside {
            seq!['k']
        } else {
            Seq::<char>::empty()
        }) + (if g.castle_black_queenside {
            seq!['q']
        } else {
            Seq::<char>::empty()
        })
    }
}

/// The en-passant field: the square's file letter and rank digit, or '-'.
pub open spec fn ep_fen(g: GameState) -> Seq<char> {
    if g.en_passant == 0 {
        seq!['-']
    } else {
        let idx = vstd::std_specs::bits::u64_trailing_zeros(g.en_passant) as int;
        seq![file_letter(idx % 8), digit_char(idx / 8 + 1)]
    }
}

/// The fields after the board: side to move, castle rights, en-passant square and the
/// two move counters, each after a space.
pub open spec fn fen_tail(g: GameState) -> Seq<char> {
    seq![' '] + (if g.color_to_move == 0 {
        seq!['w']
    } else {
        seq!['b']
    }) + seq![' '] + castle_fen(g) + seq![' '] + ep_fen(g) + seq![' '] + decimal(
        g.half_moves as nat,
    ) + seq![' '] + decimal(g.full_moves as nat)
}

/// The FEN record of a position.
pub open spec fn fen_text(g: GameState) -> Seq<char> {
    board_fen(g, 0) + fen_tail(g)
}

// ---------------------------------------------------------------------------
// Reading back what `to_fen` writes.
// ---------------------------------------------------------------------------

/// The digit for a run of one to eight empty squares reads as that run.
proof fn lemma_skip_digit(n: int)
    requires
        1 <= n <= 8,
    ensures
        fen_piece(digit_char(n)) is None,
        fen_skip(digit_char(n)) == Some(n),
        digit_char(n) != '/',
        digit_char(n) != ' ',
{
    lemma_digit_char(n);
}

/// The letter of a piece reads as a piece.
proof fn lemma_piece_letter(g: GameState, sq: int)
    ensures
        piece_letter_at(g, sq) is Some ==> fen_piece(piece_letter_at(g, sq)->0) is Some,
        piece_letter_at(g, sq) is Some ==> piece_letter_at(g, sq)->0 != '/',
        piece_letter_at(g, sq) is Some ==> piece_letter_at(g, sq)->0 != ' ',
{
}

/// Reading the text of a rank back, from the start of a run of `skipped` empty squares
/// that ends before `file`: it names every square up to the h-file, puts on each the
/// letter of its piece, and holds neither '/' nor a space.
proof fn lemma_rank_fen_reads(g: GameState, row: int, file: int, skipped: int)
    requires
        0 <= skipped <= file <= 8,
        forall|f: int|
            file - skipped <= f < file ==> piece_letter_at(g, #[trigger] row_square(row, f))
                is None,
    ensures
        rank_ok(rank_fen(g, row, file, skipped), 0, file - skipped),
        forall|f: int|
            file - skipped <= f < 8 ==> #[trigger] rank_piece(
                rank_fen(g, row, file, skipped),
                0,
                file - skipped,
                f,
            ) == piece_letter_at(g, row_square(row, f)),
        forall|i: int|
            0 <= i < rank_fen(g, row, file, skipped).len() ==> #[trigger] rank_fen(
                g,
                row,
                file,
                skipped,
            )[i] != '/' && rank_fen(g, row, file, skipped)[i] != ' ',
    decreases 8 - file,
{
    let t = rank_fen(g, row, file, skipped);
    let start = file - skipped;
    if file >= 8 {
        if skipped != 0 {
            lemma_skip_digit(skipped);
            assert(t =~= seq![digit_char(skipped)]);
            assert(rank_ok(t, 1, 8));
            assert forall|f: int| start <= f < 8 implies #[trigger] rank_piece(t, 0, start, f)
                == piece_letter_at(g, row_square(row, f)) by {
                assert(rank_piece(t, 1, 8, f) is None);
            }
        } else {
            assert(t =~= Seq::<char>::empty());
        }
    } else {
        lemma_piece_letter(g, row_square(row, file));
        match piece_letter_at(g, row_square(row, file)) {
            Some(ch) => {
                let rest = rank_fen(g, row, file + 1, 0);
                lemma_rank_fen_reads(g, row, file + 1, 0);
                let pre = skipped_text(skipped) + seq![ch];
                assert(t == pre + rest);
                if skipped != 0 {
                    lemma_skip_digit(skipped);
                    assert(pre =~= seq![digit_char(skipped), ch]);
                    assert(t[0] == digit_char(skipped));
                    assert(t[1] == ch);
                    lemma_rank_read_shift(pre, rest, 0, file + 1, 0);
                    assert(rank_ok(t, 2, file + 1));
                    assert(rank_ok(t, 1, file));
                    assert forall|f: int| start <= f < 8 implies #[trigger] rank_piece(
                        t,
                        0,
                        start,
                        f,
                    ) == piece_letter_at(g, row_square(row, f)) by {
                        lemma_rank_read_shift(pre, rest, 0, file + 1, f);
                        if f < file {
                            lemma_rank_piece_behind(t, 1, file, f);
                        }
                        assert(rank_piece(t, 0, start, f) == rank_piece(t, 1, file, f));
                    }
                } else {
                    assert(pre =~= seq![ch]);
                    assert(t[0] == ch);
                    lemma_rank_read_shift(pre, rest, 0, file + 1, 0);
                    assert(rank_ok(t, 1, file + 1));
                    assert forall|f: int| start <= f < 8 implies #[trigger] rank_piece(
                        t,
                        0,
                        start,
                        f,
                    ) == piece_letter_at(g, row_square(row, f)) by {
                        lemma_rank_read_shift(pre, rest, 0, file + 1, f);
                    }
                }
                assert forall|i: int| 0 <= i < t.len() implies #[trigger] t[i] != '/' && t[i]
                    != ' ' by {
                    if i >= pre.len() {
                        assert(t[i] == rest[i - pre.len()]);
                    }
                }
            },
            None => {
                lemma_rank_fen_reads(g, row, file + 1, skipped + 1);
                assert(t == rank_fen(g, row, file + 1, skipped + 1));
            },
        }
    }
}

/// The board text from row `row` on parts at '/' into the texts of those ranks, and
/// holds no space.
proof fn lemma_board_fen_reads(g: GameState, row: int)
    requires
        0 <= row < 8,
    ensures
        split_at(board_fen(g, row), '/') == Seq::new(
            (8 - row) as nat,
            |k: int| rank_fen(g, row + k, 0, 0),
        ),
        !has_char(board_fen(g, row), ' '),
    decreases 8 - row,
{
    lemma_rank_fen_reads(g, row, 0, 0);
    let r = rank_fen(g, row, 0, 0);
    assert(!has_char(r, '/'));
    assert(!has_char(r, ' '));
    if row == 7 {
        assert(board_fen(g, 8) =~= Seq::<char>::empty());
        assert(board_fen(g, 7) =~= r);
        lemma_split_at_whole(r, '/');
        assert(Seq::new(1nat, |k: int| rank_fen(g, 7 + k, 0, 0)) =~= seq![r]);
    } else {
        lemma_board_fen_reads(g, row + 1);
        let rest = board_fen(g, row + 1);
        assert(board_fen(g, row) =~= r + seq!['/'] + rest);
        lemma_split_at_first(r, rest, '/');
        assert(seq![r] + Seq::new((7 - row) as nat, |k: int| rank_fen(g, row + 1 + k, 0, 0))
            =~= Seq::new((8 - row) as nat, |k: int| rank_fen(g, row + k, 0, 0)));
        lemma_has_char_concat(r, seq!['/'], ' ');
        lemma_has_char_concat(r + seq!['/'], rest, ' ');
        assert(!has_char(seq!['/'], ' '));
    }
}

/// The letter of the piece on a square reads as the board (kind, colour) holding it, where
/// each square holds one piece at most.
proof fn lemma_letter_names_board(g: GameState, t: int, p: int, c: int)
    requires
        boards_disjoint(g.pieces),
        0 <= t < 64,
        0 <= p < 6,
        0 <= c < 2,
    ensures
        (match piece_letter_at(g, t) {
            Some(ch) => fen_piece(ch),
            None => None,
        }) == Some((p, c)) <==> bit(g.pieces[p][c], t),
{
    let b = bit(g.pieces[p][c], t);
    assert(b ==> (bit(g.pieces[0][0], t) ==> p == 0 && c == 0));
    assert(b ==> (bit(g.pieces[1][0], t) ==> p == 1 && c == 0));
    assert(b ==> (bit(g.pieces[2][0], t) ==> p == 2 && c == 0));
    assert(b ==> (bit(g.pieces[3][0], t) ==> p == 3 && c == 0));
    assert(b ==> (bit(g.pieces[4][0], t) ==> p == 4 && c == 0));
    assert(b ==> (bit(g.pieces[5][0], t) ==> p == 5 && c == 0));
    assert(b ==> (bit(g.pieces[0][1], t) ==> p == 0 && c == 1));
    assert(b ==> (bit(g.pieces[1][1], t) ==> p == 1 && c == 1));
    assert(b ==> (bit(g.pieces[2][1], t) ==> p == 2 && c == 1));
    assert(b ==> (bit(g.pieces[3][1], t) ==> p == 3 && c == 1));
    assert(b ==> (bit(g.pieces[4][1], t) ==> p == 4 && c == 1));
    assert(b ==> (bit(g.pieces[5][1], t) ==> p == 5 && c == 1));
}

/// A position whose FEN record says all of it: a side to move, one piece at most on each
/// square, and no en-passant square or a single one.
pub open spec fn fen_writable(g: GameState) -> bool {
    &&& g.color_to_move < 2
    &&& boards_disjoint(g.pieces)
    &&& (g.en_passant == 0u64 || single_square(g.en_passant))
}

/// The castle field holds no space, and holds each right's letter just where the
/// position has that right.
proof fn lemma_castle_fen_reads(g: GameState)
    ensures
        !has_char(castle_fen(g), ' '),
        has_char(castle_fen(g), 'K') == g.castle_white_kingside,
        has_char(castle_fen(g), 'Q') == g.castle_white_queenside,
        has_char(castle_fen(g), 'k') == g.castle_black_kingside,
        has_char(castle_fen(g), 'q') == g.castle_black_queenside,
{
    let castle = castle_fen(g);
    let kw = if g.castle_white_kingside {
        seq!['K']
    } else {
        Seq::<char>::empty()
    };
    let qw = if g.castle_white_queenside {
        seq!['Q']
    } else {
        Seq::<char>::empty()
    };
    let kb = if g.castle_black_kingside {
        seq!['k']
    } else {
        Seq::<char>::empty()
    };
    let qb = if g.castle_black_queenside {
        seq!['q']
    } else {
        Seq::<char>::empty()
    };
    if g.castle_white_kingside || g.castle_white_queenside || g.castle_black_kingside
        || g.castle_black_queenside {
        assert(castle =~= kw + qw + kb + qb);
        let letters = seq![' ', 'K', 'Q', 'k', 'q'];
        assert forall|j: int| 0 <= j < 5 implies has_char(castle, #[trigger] letters[j]) == (
        has_char(kw, letters[j]) || has_char(qw, letters[j]) || has_char(kb, letters[j])
            || has_char(qb, letters[j])) by {
            lemma_has_char_concat(kw, qw, letters[j]);
            lemma_has_char_concat(kw + qw, kb, letters[j]);
            lemma_has_char_concat(kw + qw + kb, qb, letters[j]);
        }
        assert(letters[0] == ' ' && letters[1] == 'K' && letters[2] == 'Q' && letters[3] == 'k'
            && letters[4] == 'q');
        lemma_has_char_one('K', ' ');
        lemma_has_char_one('Q', ' ');
        lemma_has_char_one('k', ' ');
        lemma_has_char_one('q', ' ');
        lemma_has_char_one('K', 'Q');
        lemma_has_char_one('K', 'k');
        lemma_has_char_one('K', 'q');
        lemma_has_char_one('Q', 'K');
        lemma_has_char_one('Q', 'k');
        lemma_has_char_one('Q', 'q');
        lemma_has_char_one('k', 'K');
        lemma_has_char_one('k', 'Q');
        lemma_has_char_one('k', 'q');
        lemma_has_char_one('q', 'K');
        lemma_has_char_one('q', 'Q');
        lemma_has_char_one('q', 'k');
        lemma_has_char_one('K', 'K');
        lemma_has_char_one('Q', 'Q');
        lemma_has_char_one('k', 'k');
        lemma_has_char_one('q', 'q');
        assert(has_char(kw, 'K') == g.castle_white_kingside);
        assert(has_char(qw, 'Q') == g.castle_white_queenside);
        assert(has_char(kb, 'k') == g.castle_black_kingside);
        assert(has_char(qb, 'q') == g.castle_black_queenside);
    } else {
        assert(castle =~= seq!['-']);
        lemma_has_char_one('-', ' ');
        lemma_has_char_one('-', 'K');
        lemma_has_char_one('-', 'Q');
        lemma_has_char_one('-', 'k');
        lemma_has_char_one('-', 'q');
    }
}

/// The en-passant field holds no space and reads back as the position's en-passant
/// board, where that is empty or a single square.
proof fn lemma_ep_fen_reads(g: GameState)
    requires
        g.en_passant == 0u64 || single_square(g.en_passant),
    ensures
        !has_char(ep_fen(g), ' '),
        parse_en_passant(ep_fen(g)) == Some(g.en_passant),
{
    let ep = ep_fen(g);
    let idx = vstd::std_specs::bits::u64_trailing_zeros(g.en_passant) as int;
    if g.en_passant != 0u64 {
        vstd::std_specs::bits::axiom_u64_trailing_zeros(g.en_passant);
        let f = idx % 8;
        let r = idx / 8;
        assert(0 <= f < 8 && 0 <= r < 8);
        assert(ep =~= seq![file_letter(f), digit_char(r + 1)]);
        lemma_digit_char(r + 1);
        assert(file_letter_value(file_letter(f)) == Some(f));
        assert(rank_digit_value(digit_char(r + 1)) == Some(r));
        assert(8 * r + f == idx);
        assert(bit(g.en_passant, idx));
        assert forall|t: int| 0 <= t < 64 implies #[trigger] bit(1u64 << (idx as u64), t) == bit(
            g.en_passant,
            t,
        ) by {
            crate::bitboards::lemma_bit_single(idx as u64, t);
        }
        lemma_bit_extensional(1u64 << (idx as u64), g.en_passant);
    } else {
        assert(ep =~= seq!['-']);
    }
}

/// The fields of a position's FEN record: the board, the side to move, the castle rights,
/// the en-passant square and the two move counters.
#[verifier::spinoff_prover]
#[verifier::rlimit(40)]
proof fn lemma_fen_fields(g: GameState)
    requires
        fen_writable(g),
    ensures
        fen_fields(fen_text(g)) == seq![
            board_fen(g, 0),
            if g.color_to_move == 0 {
                seq!['w']
            } else {
                seq!['b']
            },
            castle_fen(g),
            ep_fen(g),
            decimal(g.half_moves as nat),
            decimal(g.full_moves as nat),
        ],
{
    let b = board_fen(g, 0);
    let side = if g.color_to_move == 0 {
        seq!['w']
    } else {
        seq!['b']
    };
    let castle = castle_fen(g);
    let ep = ep_fen(g);
    let half = decimal(g.half_moves as nat);
    let full = decimal(g.full_moves as nat);
    let sp = seq![' '];
    let s = fen_text(g);
    assert(s =~= b + sp + (side + sp + (castle + sp + (ep + sp + (half + sp + full)))));
    assert(!has_char(b, ' ')) by {
        lemma_board_fen_reads(g, 0);
    }
    assert(!has_char(half, ' ') && !has_char(full, ' ')) by {
        lemma_decimal_reads(g.half_moves as nat);
        lemma_decimal_reads(g.full_moves as nat);
    }
    assert(!has_char(castle, ' ')) by {
        lemma_castle_fen_reads(g);
    }
    assert(!has_char(ep, ' ')) by {
        lemma_ep_fen_reads(g);
    }
    assert(!has_char(side, ' ')) by {
        lemma_has_char_one('w', ' ');
        lemma_has_char_one('b', ' ');
    }
    lemma_split_at_whole(full, ' ');
    lemma_split_at_first(half, full, ' ');
    lemma_split_at_first(ep, half + sp + full, ' ');
    lemma_split_at_first(castle, ep + sp + (half + sp + full), ' ');
    lemma_split_at_first(side, castle + sp + (ep + sp + (half + sp + full)), ' ');
    lemma_split_at_first(b, side + sp + (castle + sp + (ep + sp + (half + sp + full))), ' ');
    assert(fen_fields(s) =~= seq![b, side, castle, ep, half, full]);
}

/// The FEN record of a position reads back without error, as that same position: its
/// side to move, the piece on each square, its castle rights, en-passant square and move
/// counters.
pub proof fn lemma_fen_round_trip(g: GameState)
    requires
        fen_writable(g),
    ensures
        fen_ok(fen_text(g)),
        fen_describes(fen_text(g), g),
{
    let s = fen_text(g);
    lemma_fen_fields(g);
    lemma_board_fen_reads(g, 0);
    lemma_decimal_reads(g.half_moves as nat);
    lemma_decimal_reads(g.full_moves as nat);
    lemma_castle_fen_reads(g);
    lemma_ep_fen_reads(g);
    let fields = fen_fields(s);
    let ranks = fen_ranks(s);
    assert(fields[0] == board_fen(g, 0));
    assert(ranks =~= Seq::new(8nat, |k: int| rank_fen(g, k, 0, 0)));
    assert forall|row: int| 0 <= row < 8 implies rank_ok(#[trigger] ranks[row], 0, 0) by {
        lemma_rank_fen_reads(g, row, 0, 0);
    }
    assert forall|p: int, c: int, t: int|
        0 <= p < 6 && 0 <= c < 2 && 0 <= t < 64 implies #[trigger] bit(g.pieces[p][c], t) == (
        fen_piece_at(ranks, t) == Some((p, c))) by {
        let row = 7 - t / 8;
        lemma_rank_fen_reads(g, row, 0, 0);
        assert(ranks[row] == rank_fen(g, row, 0, 0));
        assert(row_square(row, t % 8) == t);
        assert(rank_piece(ranks[row], 0, 0, t % 8) == piece_letter_at(g, t));
        lemma_letter_names_board(g, t, p, c);
    }
}

/// A canonical FEN record: one that `to_fen` writes for some position.
pub open spec fn is_canonical_fen(s: Seq<char>) -> bool {
    exists|g: GameState| fen_writable(g) && #[trigger] fen_text(g) == s
}

/// A canonical FEN record reads without error, and the position it describes writes that
/// record again: `from_fen` followed by `to_fen` gives a canonical record back.
pub proof fn lemma_canonical_fen_reads_back(s: Seq<char>, h: GameState)
    requires
        is_canonical_fen(s),
        fen_describes(s, h),
    ensures
        fen_ok(s),
        fen_text(h) == s,
{
    let g = choose|g: GameState| fen_writable(g) && #[trigger] fen_text(g) == s;
    lemma_fen_round_trip(g);
    lemma_fen_canonical_round_trip(g, h);
}

/// Positions with the same piece on every square write the same ranks.
proof fn lemma_same_letters_same_board(g: GameState, h: GameState, row: int, file: int, skipped: int)
    requires
        forall|sq: int| #[trigger] piece_letter_at(h, sq) == piece_letter_at(g, sq),
    ensures
        rank_fen(h, row, file, skipped) == rank_fen(g, row, file, skipped),
    decreases 8 - file,
{
    if file < 8 {
        assert(piece_letter_at(h, (7 - row) * 8 + file) == piece_letter_at(g, (7 - row) * 8 + file));
        lemma_same_letters_same_board(g, h, row, file + 1, 0);
        lemma_same_letters_same_board(g, h, row, file + 1, skipped + 1);
    }
}

/// Positions with the same piece on every square write the same board field.
proof fn lemma_same_letters_same_ranks(g: GameState, h: GameState, row: int)
    requires
        forall|sq: int| #[trigger] piece_letter_at(h, sq) == piece_letter_at(g, sq),
    ensures
        board_fen(h, row) == board_fen(g, row),
    decreases 8 - row,
{
    if row < 8 {
        lemma_same_letters_same_board(g, h, row, 0, 0);
        lemma_same_letters_same_ranks(g, h, row + 1);
    }
}

/// Reading back what `to_fen` writes and writing it again gives the same record: any
/// position that the FEN record of a position describes has that same record.
pub proof fn lemma_fen_canonical_round_trip(g: GameState, h: GameState)
    requires
        fen_writable(g),
        fen_describes(fen_text(g), h),
    ensures
        fen_text(h) == fen_text(g),
{
    lemma_fen_round_trip(g);
    let s = fen_text(g);
    let ranks = fen_ranks(s);
    assert forall|p: int, c: int, t: int|
        0 <= p < 6 && 0 <= c < 2 && 0 <= t < 64 implies #[trigger] bit(h.pieces[p][c], t) == bit(
        g.pieces[p][c],
        t,
    ) by {
        assert(bit(h.pieces[p][c], t) == (fen_piece_at(ranks, t) == Some((p, c))));
        assert(bit(g.pieces[p][c], t) == (fen_piece_at(ranks, t) == Some((p, c))));
    }
    assert forall|sq: int| #[trigger] piece_letter_at(h, sq) == piece_letter_at(g, sq) by {
        if 0 <= sq < 64 {
            assert(bit(h.pieces[0][0], sq) == bit(g.pieces[0][0], sq));
            assert(bit(h.pieces[1][0], sq) == bit(g.pieces[1][0], sq));
            assert(bit(h.pieces[2][0], sq) == bit(g.pieces[2][0], sq));
            assert(bit(h.pieces[3][0], sq) == bit(g.pieces[3][0], sq));
            assert(bit(h.pieces[4][0], sq) == bit(g.pieces[4][0], sq));
            assert(bit(h.pieces[5][0], sq) == bit(g.pieces[5][0], sq));
            assert(bit(h.pieces[0][1], sq) == bit(g.pieces[0][1], sq));
            assert(bit(h.pieces[1][1], sq) == bit(g.pieces[1][1], sq));
            assert(bit(h.pieces[2][1], sq) == bit(g.pieces[2][1], sq));
            assert(bit(h.pieces[3][1], sq) == bit(g.pieces[3][1], sq));
            assert(bit(h.pieces[4][1], sq) == bit(g.pieces[4][1], sq));
            assert(bit(h.pieces[5][1], sq) == bit(g.pieces[5][1], sq));
        }
    }
    lemma_same_letters_same_ranks(g, h, 0);
    lemma_fen_fields(g);
    lemma_decimal_reads(g.half_moves as nat);
    lemma_decimal_reads(g.full_moves as nat);
    lemma_castle_fen_reads(g);
    lemma_ep_fen_reads(g);
    assert(castle_fen(h) == castle_fen(g));
    assert(ep_fen(h) == ep_fen(g));
    assert(fen_tail(h) == fen_tail(g));
}

} // verus!
