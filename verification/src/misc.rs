use crate::bitboards::bit;
use crate::board_representation::fen::has_char;
use crate::board_representation::game_state::{
    is_file_char, is_rank_char, GameMove, GameMoveType, GameState, PieceType, WHITE,
};
use crate::board_representation::zobrist_hashing::Zobrist;
use crate::move_generation::makemove::{make_move, make_move_in_range, move_fits, move_result};
use crate::move_generation::movegen::{AdditionalBitBoards, generated_move_list, 
    all_sound, generate_moves, position_ok, sound_move, MoveList,
};
use vstd::prelude::*;
use vstd::string::{StrSliceExecFns, StringExecFns};

verus! {

/// The text of one square of a board picture: a marked or an empty cell.
pub open spec fn cell_text(occupied: bool) -> Seq<char> {
    if occupied {
        seq!['X', ' ', '|', ' ']
    } else {
        seq![' ', ' ', '|', ' ']
    }
}

/// The separator line of a board picture.
pub open spec fn board_line() -> Seq<char> {
    "+---+---+---+---+---+---+---+---+\n"@
}

/// The picture of ranks `7 - rank` .. of `board` from file `file` on, for the rank row
/// being drawn.
pub open spec fn row_text(board: u64, rank: int, file: nat) -> Seq<char>
    decreases 8 - file,
{
    if file >= 8 {
        seq![]
    } else {
        cell_text(bit(board, 8 * (7 - rank) + file)) + row_text(board, rank, file + 1)
    }
}

/// The picture of the ranks from row `rank` down (row 0 is rank 8).
pub open spec fn rows_text(board: u64, rank: nat) -> Seq<char>
    decreases 8 - rank,
{
    if rank >= 8 {
        seq![]
    } else {
        seq!['|', ' '] + row_text(board, rank as int, 0) + seq!['\n'] + board_line() + rows_text(
            board,
            rank + 1,
        )
    }
}

/// A picture of a bitboard: eight rows from rank 8 down, `X` on each occupied square.
pub fn to_string_board(board: u64) -> (res: String)
    ensures
        res@ == board_line() + rows_text(board, 0),
{
    let mut res_str: String = String::new();
    res_str.append("+---+---+---+---+---+---+---+---+\n");
    let ghost head = res_str@;
    proof {
        reveal_strlit("+---+---+---+---+---+---+---+---+\n");
        assert(head == board_line());
    }
    let mut rank: usize = 0;
    while rank < 8
        invariant
            rank <= 8,
            board_line() + rows_text(board, 0) == res_str@ + rows_text(board, rank as nat),
        decreases 8 - rank,
    {
        let ghost before = res_str@;
        res_str.append("| ");
        let mut file: usize = 0;
        proof {
            reveal_strlit("| ");
        }
        let ghost row_start = res_str@;
        while file < 8
            invariant
                rank < 8,
                file <= 8,
                row_start == before + seq!['|', ' '],
                row_start + row_text(board, rank as int, 0) == res_str@ + row_text(
                    board,
                    rank as int,
                    file as nat,
                ),
            decreases 8 - file,
        {
            let idx = 8 * (7 - rank) + file;
            let ghost cur = res_str@;
            proof {
                reveal_strlit("X");
                reveal_strlit(" ");
                reveal_strlit(" | ");
                crate::move_generation::movegen::lemma_and_single_bit(board, idx as u64);
                crate::bitboards::lemma_bit_shr(board, idx as u64, 0);
            }
            if ((board >> idx as u64) & 1) != 0 {
                res_str.append("X");
            } else {
                res_str.append(" ");
            }
            res_str.append(" | ");
            proof {
                assert(((board >> idx as u64) & 1 != 0) == bit(board, idx as int)) by {
                    assert(((board >> idx as u64) & 1u64) == 0u64 || ((board >> idx as u64) & 1u64)
                        == 1u64) by (bit_vector);
                }
                assert(res_str@ == cur + cell_text(bit(board, idx as int)));
                assert(row_text(board, rank as int, file as nat) == cell_text(
                    bit(board, 8 * (7 - rank) + file),
                ) + row_text(board, rank as int, (file + 1) as nat));
            }
            file += 1;
        }
        res_str.append("\n+---+---+---+---+---+---+---+---+\n");
        proof {
            reveal_strlit("\n+---+---+---+---+---+---+---+---+\n");
            reveal_strlit("+---+---+---+---+---+---+---+---+\n");
            assert("\n+---+---+---+---+---+---+---+---+\n"@ =~= seq!['\n'] + board_line());
            assert(rows_text(board, rank as nat) == seq!['|', ' '] + row_text(board, rank as int, 0)
                + seq!['\n'] + board_line() + rows_text(board, (rank + 1) as nat));
        }
        rank += 1;
    }
    res_str
}

/// Whether a character names a file (`a` to `h`).
pub fn is_file(c: Option<char>) -> (res: bool)
    requires
        c is Some,
    ensures
        res == is_file_char(c->0),
{
    match c {
        None => false,
        Some(character) => match character {
            'a' => true,
            'b' => true,
            'c' => true,
            'd' => true,
            'e' => true,
            'f' => true,
            'g' => true,
            'h' => true,
            _ => false,
        },
    }
}

/// The file (0 to 7) a file letter names.
pub fn match_file(c: Option<char>) -> (res: usize)
    requires
        c is Some,
        is_file_char(c->0),
    ensures
        res == c->0 as int - 'a' as int,
{
    match c {
        None => 0,
        Some(character) => match character {
            'a' => 0,
            'b' => 1,
            'c' => 2,
            'd' => 3,
            'e' => 4,
            'f' => 5,
            'g' => 6,
            _ => 7,
        },
    }
}

/// The rank (0 to 7) a rank digit names.
pub fn match_rank(c: Option<char>) -> (res: usize)
    requires
        c is Some,
        is_rank_char(c->0),
    ensures
        res == c->0 as int - '1' as int,
{
    match c {
        None => 0,
        Some(character) => match character {
            '1' => 0,
            '2' => 1,
            '3' => 2,
            '4' => 3,
            '5' => 4,
            '6' => 5,
            '7' => 6,
            _ => 7,
        },
    }
}

/// The piece kind a move in algebraic notation starts with (`N`, `B`, `R`, `Q`, `K`;
/// a pawn when it starts with none of them).
pub open spec fn piece_of_text(s: Seq<char>) -> PieceType {
    if s.len() > 0 && s[0] == 'N' {
        PieceType::Knight
    } else if s.len() > 0 && s[0] == 'B' {
        PieceType::Bishop
    } else if s.len() > 0 && s[0] == 'R' {
        PieceType::Rook
    } else if s.len() > 0 && s[0] == 'Q' {
        PieceType::Queen
    } else if s.len() > 0 && s[0] == 'K' {
        PieceType::King
    } else {
        PieceType::Pawn
    }
}

/// Reads the piece letter off the front of a move in algebraic notation, and removes it.
pub fn get_piece_type(my_string: &mut String) -> (res: PieceType)
    ensures
        res == piece_of_text(old(my_string)@),
        final(my_string)@ == if res == PieceType::Pawn {
            old(my_string)@
        } else {
            old(my_string)@.subrange(1, old(my_string)@.len() as int)
        },
{
    let len = my_string.as_str().unicode_len();
    if len == 0 {
        return PieceType::Pawn;
    }
    let first = my_string.as_str().get_char(0);
    let moving_piece_type = if first == 'N' {
        PieceType::Knight
    } else if first == 'B' {
        PieceType::Bishop
    } else if first == 'R' {
        PieceType::Rook
    } else if first == 'Q' {
        PieceType::Queen
    } else if first == 'K' {
        PieceType::King
    } else {
        PieceType::Pawn
    };
    if moving_piece_type != PieceType::Pawn {
        let rest = String::from_str(my_string.as_str().substring_char(1, len));
        *my_string = rest;
    }
    moving_piece_type
}

/// The promotion piece a move in algebraic notation ends with (`Q`, `R`, `B`, `N`).
pub open spec fn promotion_of_text(s: Seq<char>) -> Option<PieceType> {
    if s.len() > 0 && s[s.len() - 1] == 'Q' {
        Some(PieceType::Queen)
    } else if s.len() > 0 && s[s.len() - 1] == 'R' {
        Some(PieceType::Rook)
    } else if s.len() > 0 && s[s.len() - 1] == 'B' {
        Some(PieceType::Bishop)
    } else if s.len() > 0 && s[s.len() - 1] == 'N' {
        Some(PieceType::Knight)
    } else {
        None
    }
}

/// Reads the promotion letter off the end of a move in algebraic notation, and removes it.
pub fn is_promotion(my_string: &mut String) -> (res: Option<PieceType>)
    ensures
        res == promotion_of_text(old(my_string)@),
        final(my_string)@ == if res is Some {
            old(my_string)@.subrange(0, old(my_string)@.len() - 1)
        } else {
            old(my_string)@
        },
{
    let len = my_string.as_str().unicode_len();
    if len == 0 {
        return None;
    }
    let last = my_string.as_str().get_char(len - 1);
    let promotion_piece = if last == 'Q' {
        Some(PieceType::Queen)
    } else if last == 'R' {
        Some(PieceType::Rook)
    } else if last == 'B' {
        Some(PieceType::Bishop)
    } else if last == 'N' {
        Some(PieceType::Knight)
    } else {
        None
    };
    if promotion_piece.is_some() {
        let rest = String::from_str(my_string.as_str().substring_char(0, len - 1));
        *my_string = rest;
    }
    promotion_piece
}

/// What a move in algebraic notation says of the move it means.
pub struct MoveSpecification {
    pub target_square: usize,
    pub from_square: Option<usize>,
    pub from_file: Option<usize>,
    pub from_rank: Option<usize>,
    pub moving_piece_type: PieceType,
    pub promotion_piece: Option<PieceType>,
}

/// The promotion piece of a move, if it is a promotion.
pub open spec fn promotion_of_move(mv: GameMove) -> Option<PieceType> {
    match mv.move_type {
        GameMoveType::Promotion(piece, _) => Some(piece),
        _ => None,
    }
}

impl MoveSpecification {
    pub fn new(
        target_square: usize,
        moving_piece_type: PieceType,
        promotion_piece: Option<PieceType>,
    ) -> (res: Self)
        ensures
            res == (MoveSpecification {
                target_square,
                from_square: None,
                from_file: None,
                from_rank: None,
                moving_piece_type,
                promotion_piece,
            }),
    {
        MoveSpecification {
            target_square,
            from_square: None,
            from_file: None,
            from_rank: None,
            moving_piece_type,
            promotion_piece,
        }
    }

    /// The move agrees with everything the specification says of it.
    pub open spec fn spec_matches(&self, mv: GameMove) -> bool {
        &&& mv.to == self.target_square
        &&& (self.from_square is None || self.from_square->0 == mv.from)
        &&& (self.from_file is None || self.from_file->0 == mv.from % 8)
        &&& (self.from_rank is None || self.from_rank->0 == mv.from / 8)
        &&& (mv.piece_type == self.moving_piece_type || self.from_square is Some)
        &&& self.promotion_piece == promotion_of_move(mv)
    }

    pub fn matches(&self, mv: &GameMove) -> (res: bool)
        ensures
            res == self.spec_matches(*mv),
    {
        let promo = match mv.move_type {
            GameMoveType::Promotion(piece, _) => Some(piece),
            _ => None,
        };
        mv.to == self.target_square && (self.from_square.is_none() || self.from_square.unwrap()
            == mv.from) && (self.from_file.is_none() || self.from_file.unwrap() == mv.from % 8) && (
        self.from_rank.is_none() || self.from_rank.unwrap() == mv.from / 8) && (mv.piece_type
            == self.moving_piece_type || self.from_square.is_some()) && (self.promotion_piece
            == promo)
    }
}

/// Every move of the list can be made in the position without leaving range.
pub open spec fn moves_in_range(g: GameState, moves: Seq<GameMove>) -> bool {
    forall|i: int| 0 <= i < moves.len() ==> make_move_in_range(g, #[trigger] moves[i])
}

/// What making `mv` in `g` promises of the position `s` it gives.
pub open spec fn made_move(keys: Zobrist, g: GameState, mv: GameMove, s: GameState) -> bool {
    &&& s.color_to_move == 1 - g.color_to_move
    &&& s.full_moves == g.full_moves + g.color_to_move
    &&& g.hash_consistent(keys) && move_fits(g, mv) ==> s.hash_consistent(keys)
    &&& move_result(keys, g, mv, s)
}

/// `res` is the first move of `moves` with the property `p`, made in `g`; or there is
/// no such move and `res` is the error.
pub open spec fn first_found(
    keys: Zobrist,
    g: GameState,
    moves: Seq<GameMove>,
    p: spec_fn(GameMove) -> bool,
    res: Result<(GameMove, GameState), ()>,
) -> bool {
    match res {
        Ok((mv, s)) => exists|i: int|
            0 <= i < moves.len() && p(#[trigger] moves[i]) && mv == moves[i] && (forall|j: int|
                0 <= j < i ==> !p(#[trigger] moves[j])) && made_move(keys, g, mv, s),
        Err(_) => forall|i: int| 0 <= i < moves.len() ==> !p(#[trigger] moves[i]),
    }
}

/// A castle move towards the king's side (`king_side`) or the queen's side.
pub open spec fn is_castle_towards(mv: GameMove, king_side: bool) -> bool {
    &&& mv.move_type == GameMoveType::Castle
    &&& if king_side {
        mv.to == mv.from + 2
    } else {
        mv.from == mv.to + 2
    }
}

/// Finds the castle move towards the given side in the list, and makes it.
pub fn find_castle(keys: &Zobrist, movelist: &MoveList, g: &GameState, king_side: bool) -> (res:
    Result<(GameMove, GameState), ()>)
    requires
        moves_in_range(*g, movelist.move_list@),
    ensures
        first_found(
            *keys,
            *g,
            movelist.move_list@,
            |mv: GameMove| is_castle_towards(mv, king_side),
            res,
        ),
{
    let ghost p = |mv: GameMove| is_castle_towards(mv, king_side);
    let mut index: usize = 0;
    while index < movelist.move_list.len()
        invariant
            index <= movelist.move_list.len(),
            moves_in_range(*g, movelist.move_list@),
            p == (|mv: GameMove| is_castle_towards(mv, king_side)),
            forall|j: int| 0 <= j < index ==> !p(#[trigger] movelist.move_list@[j]),
        decreases movelist.move_list.len() - index,
    {
        let mv = &movelist.move_list[index];
        assert(make_move_in_range(*g, movelist.move_list@[index as int]));
        let is_castle = match mv.move_type {
            GameMoveType::Castle => true,
            _ => false,
        };
        let towards = if king_side {
            mv.to == mv.from + 2
        } else {
            mv.from == mv.to + 2
        };
        if is_castle && towards {
            let state = make_move(keys, g, mv);
            assert(p(movelist.move_list@[index as int]));
            return Ok((*mv, state));
        }
        index += 1;
    }
    Err(())
}

/// Finds the first move of the list that agrees with the specification, and makes it.
pub fn find_move(keys: &Zobrist, movelist: &MoveList, g: &GameState, ms: MoveSpecification) -> (res:
    Result<(GameMove, GameState), ()>)
    requires
        moves_in_range(*g, movelist.move_list@),
    ensures
        first_found(*keys, *g, movelist.move_list@, |mv: GameMove| ms.spec_matches(mv), res),
{
    let ghost p = |mv: GameMove| ms.spec_matches(mv);
    let mut index: usize = 0;
    while index < movelist.move_list.len()
        invariant
            index <= movelist.move_list.len(),
            moves_in_range(*g, movelist.move_list@),
            p == (|mv: GameMove| ms.spec_matches(mv)),
            forall|j: int| 0 <= j < index ==> !p(#[trigger] movelist.move_list@[j]),
        decreases movelist.move_list.len() - index,
    {
        let mv = &movelist.move_list[index];
        assert(make_move_in_range(*g, movelist.move_list@[index as int]));
        if ms.matches(mv) {
            let state = make_move(keys, g, mv);
            assert(p(movelist.move_list@[index as int]));
            return Ok((*mv, state));
        }
        index += 1;
    }
    Err(())
}

/// A mark of algebraic notation that says nothing of which move is meant: mate, check,
/// promotion and capture.
pub open spec fn is_mark(c: char) -> bool {
    c == '#' || c == '+' || c == '=' || c == 'x'
}

/// The text without its marks.
pub open spec fn strip_marks(s: Seq<char>) -> Seq<char>
    decreases s.len(),
{
    if s.len() == 0 {
        Seq::empty()
    } else {
        let rest = strip_marks(s.drop_last());
        if is_mark(s.last()) {
            rest
        } else {
            rest.push(s.last())
        }
    }
}

/// Removes the marks from a move in algebraic notation.
pub fn without_marks(move_str: &str) -> (res: String)
    ensures
        res@ == strip_marks(move_str@),
{
    let n = move_str.unicode_len();
    let mut out = String::new();
    let mut i: usize = 0;
    while i < n
        invariant
            n == move_str@.len(),
            i <= n,
            out@ == strip_marks(move_str@.subrange(0, i as int)),
        decreases n - i,
    {
        let c = move_str.get_char(i);
        assert(move_str@.subrange(0, i + 1).drop_last() =~= move_str@.subrange(0, i as int));
        if !(c == '#' || c == '+' || c == '=' || c == 'x') {
            let piece = move_str.substring_char(i, i + 1);
            assert(piece@ =~= seq![c]);
            out.append(piece);
        }
        i += 1;
    }
    assert(move_str@.subrange(0, n as int) =~= move_str@);
    out
}

/// Whether the side to move may still castle towards the given side.
pub open spec fn castle_right(g: GameState, king_side: bool) -> bool {
    if g.color_to_move == 0 {
        if king_side {
            g.castle_white_kingside
        } else {
            g.castle_white_queenside
        }
    } else {
        if king_side {
            g.castle_black_kingside
        } else {
            g.castle_black_queenside
        }
    }
}

/// The square a file letter and a rank digit name.
pub open spec fn square_of(file: char, rank: char) -> int {
    8 * (rank as int - '1' as int) + (file as int - 'a' as int)
}

/// What a move in algebraic notation, without marks and castles, says of its move: the
/// piece letter in front, the promotion letter behind, the target square at the end, and
/// in front of it a file, a rank or a square it leaves. `None` where the text names no
/// square at its end, or its leading file, rank or square is not one.
pub open spec fn text_spec(t: Seq<char>) -> Option<MoveSpecification> {
    let piece = piece_of_text(t);
    let t1 = if piece == PieceType::Pawn {
        t
    } else {
        t.subrange(1, t.len() as int)
    };
    let promo = promotion_of_text(t1);
    let t2 = if promo is Some {
        t1.subrange(0, t1.len() - 1)
    } else {
        t1
    };
    let n = t2.len();
    if n < 2 || !is_rank_char(t2[n - 1]) || !is_file_char(t2[n - 2]) {
        None
    } else {
        let ms = MoveSpecification {
            target_square: square_of(t2[n - 2], t2[n - 1]) as usize,
            from_square: None,
            from_file: None,
            from_rank: None,
            moving_piece_type: piece,
            promotion_piece: promo,
        };
        if n == 3 {
            if is_file_char(t2[0]) {
                Some(MoveSpecification { from_file: Some((t2[0] as int - 'a' as int) as usize), ..ms })
            } else if is_rank_char(t2[0]) {
                Some(MoveSpecification { from_rank: Some((t2[0] as int - '1' as int) as usize), ..ms })
            } else {
                None
            }
        } else if n == 4 {
            if is_file_char(t2[0]) && is_rank_char(t2[1]) {
                Some(MoveSpecification { from_square: Some(square_of(t2[0], t2[1]) as usize), ..ms })
            } else {
                None
            }
        } else {
            Some(ms)
        }
    }
}

/// What `parse_move` gives for the text `t` without marks, the position `g` and the moves
/// `moves` generated in it: the castle towards the side the text names where castling
/// there is still allowed, or else the first move that agrees with the text.
pub open spec fn parsed_move(
    keys: Zobrist,
    g: GameState,
    t: Seq<char>,
    moves: Seq<GameMove>,
    res: Result<(GameMove, GameState), ()>,
) -> bool {
    if has_char(t, '-') {
        let king_side = t.len() == 3;
        if castle_right(g, king_side) {
            first_found(keys, g, moves, |mv: GameMove| is_castle_towards(mv, king_side), res)
        } else {
            res is Err
        }
    } else {
        match text_spec(t) {
            Some(ms) => first_found(keys, g, moves, |mv: GameMove| ms.spec_matches(mv), res),
            None => res is Err,
        }
    }
}

/// Whether the text holds the character `c`.
pub fn str_has_char(s: &str, c: char) -> (res: bool)
    ensures
        res == has_char(s@, c),
{
    let n = s.unicode_len();
    let mut i: usize = 0;
    while i < n
        invariant
            n == s@.len(),
            i <= n,
            forall|j: int| 0 <= j < i ==> s@[j] != c,
        decreases n - i,
    {
        if s.get_char(i) == c {
            return true;
        }
        i += 1;
    }
    false
}

/// Whether a character is a rank digit (`1` to `8`).
fn is_rank(c: char) -> (res: bool)
    ensures
        res == is_rank_char(c),
{
    '1' <= c && c <= '8'
}

/// Reads a move in algebraic notation (`e4`, `Nbd7`, `exd8=Q+`, `O-O-O`) in the position
/// `g`: generates the moves of `g` into `movelist`, finds the move the text means among
/// them, and makes it. The error where the text names no move of the list, or a castle
/// the side to move may no longer make.
pub fn parse_move(keys: &Zobrist, g: &GameState, move_str: &str, movelist: &mut MoveList) -> (res:
    Result<(GameMove, GameState), ()>)
    requires
        position_ok(*g),
        g.half_moves < usize::MAX,
        g.full_moves < usize::MAX,
    ensures
        all_sound(*g, final(movelist).move_list@),
        exists|abb: AdditionalBitBoards|
            #[trigger] generated_move_list(*g, abb, false, final(movelist).move_list@),
        parsed_move(*keys, *g, strip_marks(move_str@), final(movelist).move_list@, res),
{
    let mut my_string = without_marks(move_str);
    let ghost t = my_string@;
    let info = generate_moves(g, false, movelist);
    proof {
        assert(generated_move_list(*g, info.additional_bitboards, false, movelist.move_list@));
    }
    proof {
        assert forall|i: int| 0 <= i < movelist.move_list@.len() implies make_move_in_range(
            *g,
            #[trigger] movelist.move_list@[i],
        ) by {
            assert(sound_move(*g, movelist.move_list@[i]));
        }
    }
    if str_has_char(my_string.as_str(), '-') {
        let king_side = my_string.as_str().unicode_len() == 3;
        let right = if g.color_to_move == WHITE {
            if king_side {
                g.castle_white_kingside
            } else {
                g.castle_white_queenside
            }
        } else {
            if king_side {
                g.castle_black_kingside
            } else {
                g.castle_black_queenside
            }
        };
        if !right {
            return Err(());
        }
        return find_castle(keys, movelist, g, king_side);
    }
    let moving_piece_type = get_piece_type(&mut my_string);
    let promotion_piece = is_promotion(&mut my_string);
    let n = my_string.as_str().unicode_len();
    if n < 2 {
        return Err(());
    }
    let last = my_string.as_str().get_char(n - 1);
    let second = my_string.as_str().get_char(n - 2);
    if !is_rank(last) || !is_file(Some(second)) {
        return Err(());
    }
    let target_square = 8 * match_rank(Some(last)) + match_file(Some(second));
    let mut ms = MoveSpecification::new(target_square, moving_piece_type, promotion_piece);
    if n == 3 {
        let first = my_string.as_str().get_char(0);
        if is_file(Some(first)) {
            ms.from_file = Some(match_file(Some(first)));
        } else if is_rank(first) {
            ms.from_rank = Some(match_rank(Some(first)));
        } else {
            return Err(());
        }
    } else if n == 4 {
        let first = my_string.as_str().get_char(0);
        let rank = my_string.as_str().get_char(1);
        if is_file(Some(first)) && is_rank(rank) {
            ms.from_square = Some(8 * match_rank(Some(rank)) + match_file(Some(first)));
        } else {
            return Err(());
        }
    }
    proof {
        assert(text_spec(t) == Some(ms));
    }
    find_move(keys, movelist, g, ms)
}

/// A piece letter in front of a move: knight, bishop, rook, queen or king.
pub open spec fn is_piece_letter(c: char) -> bool {
    c == 'N' || c == 'B' || c == 'R' || c == 'Q' || c == 'K'
}

/// A move written with its piece letter, the file it leaves and its target square (as in
/// `Nbd2`, marks removed) means a move from that file: where the text is read as a move,
/// the move leaves a square on the file the text names and goes to the square it names.
pub proof fn lemma_piece_move_keeps_its_file(
    keys: Zobrist,
    g: GameState,
    t: Seq<char>,
    moves: Seq<GameMove>,
    res: Result<(GameMove, GameState), ()>,
)
    requires
        parsed_move(keys, g, t, moves, res),
        t.len() == 4,
        is_piece_letter(t[0]),
        is_file_char(t[1]),
        is_file_char(t[2]),
        is_rank_char(t[3]),
    ensures
        res matches Ok((mv, _)) ==> mv.from % 8 == t[1] as int - 'a' as int && mv.to == square_of(
            t[2],
            t[3],
        ),
        res matches Ok((mv, _)) ==> (t[0] == 'N' ==> mv.piece_type == PieceType::Knight) && (t[0]
            == 'B' ==> mv.piece_type == PieceType::Bishop) && (t[0] == 'R' ==> mv.piece_type
            == PieceType::Rook) && (t[0] == 'Q' ==> mv.piece_type == PieceType::Queen) && (t[0]
            == 'K' ==> mv.piece_type == PieceType::King),
{
    assert(!has_char(t, '-')) by {
        if has_char(t, '-') {
            let i = choose|i: int| 0 <= i < t.len() && #[trigger] t[i] == '-';
        }
    }
    let t1 = t.subrange(1, 4);
    assert(t1[0] == t[1] && t1[1] == t[2] && t1[2] == t[3]);
    let ms = text_spec(t).unwrap();
    assert(text_spec(t) is Some);
    assert(ms.from_file == Some((t[1] as int - 'a' as int) as usize));
}

/// A pawn capture written with the file it leaves and its target square (as in `exd5`,
/// marks removed: `ed5`) means a move from that file to that square.
pub proof fn lemma_pawn_capture_keeps_its_file(
    keys: Zobrist,
    g: GameState,
    t: Seq<char>,
    moves: Seq<GameMove>,
    res: Result<(GameMove, GameState), ()>,
)
    requires
        parsed_move(keys, g, t, moves, res),
        t.len() == 3,
        is_file_char(t[0]),
        is_file_char(t[1]),
        is_rank_char(t[2]),
    ensures
        res matches Ok((mv, _)) ==> mv.from % 8 == t[0] as int - 'a' as int && mv.to == square_of(
            t[1],
            t[2],
        ),
{
    assert(!has_char(t, '-')) by {
        if has_char(t, '-') {
            let i = choose|i: int| 0 <= i < t.len() && #[trigger] t[i] == '-';
        }
    }
    assert(text_spec(t) is Some);
    let ms = text_spec(t).unwrap();
    assert(ms.from_file == Some((t[0] as int - 'a' as int) as usize));
}

/// A move written with its piece letter, the rank it leaves and its target square (as in
/// `R1a3`, marks removed) means a move of that piece from that rank to that square.
pub proof fn lemma_piece_move_keeps_its_rank(
    keys: Zobrist,
    g: GameState,
    t: Seq<char>,
    moves: Seq<GameMove>,
    res: Result<(GameMove, GameState), ()>,
)
    requires
        parsed_move(keys, g, t, moves, res),
        t.len() == 4,
        is_piece_letter(t[0]),
        is_rank_char(t[1]),
        is_file_char(t[2]),
        is_rank_char(t[3]),
    ensures
        res matches Ok((mv, _)) ==> mv.from / 8 == t[1] as int - '1' as int && mv.to == square_of(
            t[2],
            t[3],
        ),
{
    assert(!has_char(t, '-')) by {
        if has_char(t, '-') {
            let i = choose|i: int| 0 <= i < t.len() && #[trigger] t[i] == '-';
        }
    }
    let t1 = t.subrange(1, 4);
    assert(t1[0] == t[1] && t1[1] == t[2] && t1[2] == t[3]);
    assert(text_spec(t) is Some);
    let ms = text_spec(t).unwrap();
    assert(ms.from_rank == Some((t[1] as int - '1' as int) as usize));
}

/// A move written with its piece letter, the square it leaves and its target square (as in
/// `Ng1f3`, marks removed) means the move from that square to that square.
pub proof fn lemma_piece_move_keeps_its_square(
    keys: Zobrist,
    g: GameState,
    t: Seq<char>,
    moves: Seq<GameMove>,
    res: Result<(GameMove, GameState), ()>,
)
    requires
        parsed_move(keys, g, t, moves, res),
        t.len() == 5,
        is_piece_letter(t[0]),
        is_file_char(t[1]),
        is_rank_char(t[2]),
        is_file_char(t[3]),
        is_rank_char(t[4]),
    ensures
        res matches Ok((mv, _)) ==> mv.from == square_of(t[1], t[2]) && mv.to == square_of(
            t[3],
            t[4],
        ),
{
    assert(!has_char(t, '-')) by {
        if has_char(t, '-') {
            let i = choose|i: int| 0 <= i < t.len() && #[trigger] t[i] == '-';
        }
    }
    let t1 = t.subrange(1, 5);
    assert(t1[0] == t[1] && t1[1] == t[2] && t1[2] == t[3] && t1[3] == t[4]);
    assert(text_spec(t) is Some);
    let ms = text_spec(t).unwrap();
    assert(ms.from_square == Some(square_of(t[1], t[2]) as usize));
}

} // verus!
