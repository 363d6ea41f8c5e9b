use crate::bitboards::bit;
use crate::board_representation::game_state::{
    GameMove, GameMoveType, GameState, PieceType, BISHOP, KNIGHT, PAWN, QUEEN, ROOK,
};
use crate::search::{CombinedSearchParameters, SearchInstruction};
use vstd::prelude::*;

verus! {

broadcast use crate::bitboards::group_bit_ops;

// ---------------------------------------------------------------------------
// Moves packed into 16 bits: the from-square in bits 10..16, the to-square in bits
// 4..10 and a move code in bits 0..4.
// ---------------------------------------------------------------------------

/// The code of a move's kind: 1 quiet, 2 castle, 3 to 6 a promotion to queen, rook,
/// bishop, knight, 7 a capture, 8 en passant.
pub open spec fn move_code(t: GameMoveType) -> u16 {
    match t {
        GameMoveType::Quiet => 1,
        GameMoveType::Castle => 2,
        GameMoveType::Promotion(p, _) => if p == PieceType::Queen {
            3
        } else if p == PieceType::Rook {
            4
        } else if p == PieceType::Bishop {
            5
        } else {
            6
        },
        GameMoveType::Capture(_) => 7,
        GameMoveType::EnPassant => 8,
    }
}

/// A promotion names a piece it can become.
pub open spec fn promotion_named(t: GameMoveType) -> bool {
    t matches GameMoveType::Promotion(p, _) ==> p == PieceType::Queen || p == PieceType::Rook
        || p == PieceType::Bishop || p == PieceType::Knight
}

/// The kind of the piece of the side to move on `sq` (a king where none of the others
/// stands).
pub open spec fn own_kind_at(g: GameState, sq: int) -> PieceType {
    let c = g.color_to_move as int;
    if bit(g.pieces[0][c], sq) {
        PieceType::Pawn
    } else if bit(g.pieces[1][c], sq) {
        PieceType::Knight
    } else if bit(g.pieces[2][c], sq) {
        PieceType::Bishop
    } else if bit(g.pieces[3][c], sq) {
        PieceType::Rook
    } else if bit(g.pieces[4][c], sq) {
        PieceType::Queen
    } else {
        PieceType::King
    }
}

/// The kind of the enemy piece on `sq` (a king where none of the others stands).
pub open spec fn enemy_kind_at(g: GameState, sq: int) -> PieceType {
    let e = 1 - g.color_to_move as int;
    if bit(g.pieces[0][e], sq) {
        PieceType::Pawn
    } else if bit(g.pieces[1][e], sq) {
        PieceType::Knight
    } else if bit(g.pieces[2][e], sq) {
        PieceType::Bishop
    } else if bit(g.pieces[3][e], sq) {
        PieceType::Rook
    } else if bit(g.pieces[4][e], sq) {
        PieceType::Queen
    } else {
        PieceType::King
    }
}

/// The move a packed move stands for in the position `g`: its squares, the kind of the
/// mover's piece on the from-square, and the kind of move, with the piece taken on the
/// to-square (none where no enemy piece but the king stands there).
pub open spec fn unpacked_move(mv: u16, g: GameState) -> GameMove {
    let typ = mv & 15;
    let from = ((mv & 0xFC00) >> 10) as usize;
    let to = ((mv & 0x03F0) >> 4) as usize;
    let captured = enemy_kind_at(g, to as int);
    let taken = if captured != PieceType::King {
        Some(captured)
    } else {
        None
    };
    GameMove {
        from,
        to,
        piece_type: own_kind_at(g, from as int),
        move_type: if typ == 1 {
            GameMoveType::Quiet
        } else if typ == 2 {
            GameMoveType::Castle
        } else if typ == 8 {
            GameMoveType::EnPassant
        } else if typ == 3 {
            GameMoveType::Promotion(PieceType::Queen, taken)
        } else if typ == 4 {
            GameMoveType::Promotion(PieceType::Rook, taken)
        } else if typ == 5 {
            GameMoveType::Promotion(PieceType::Bishop, taken)
        } else if typ == 6 {
            GameMoveType::Promotion(PieceType::Knight, taken)
        } else {
            GameMoveType::Capture(captured)
        },
    }
}

/// A move the packing keeps: its squares on the board, its piece the mover's piece on
/// the from-square, a castle by the king, a capture of the enemy piece on the to-square,
/// a promotion to a queen, rook, bishop or knight taking the enemy piece there if any.
pub open spec fn packable(mv: GameMove, g: GameState) -> bool {
    &&& mv.from < 64
    &&& mv.to < 64
    &&& mv.piece_type == own_kind_at(g, mv.from as int)
    &&& match mv.move_type {
        GameMoveType::Capture(p) => p == enemy_kind_at(g, mv.to as int),
        GameMoveType::Promotion(p, taken) => promotion_named(mv.move_type) && taken == (if enemy_kind_at(
            g,
            mv.to as int,
        ) != PieceType::King {
            Some(enemy_kind_at(g, mv.to as int))
        } else {
            None
        }),
        _ => true,
    }
}

/// An entry of the transposition table.
#[derive(Clone, Copy)]
pub struct CacheEntry {
    pub hash: u64,
    pub depth: i8,
    pub plies_played: u16,
    pub score: i16,
    pub alpha: bool,
    pub beta: bool,
    pub mv: u16,
    pub static_evaluation: Option<i16>,
    pub pv_node: bool,
}

impl CacheEntry {
    /// An entry for the position `game_state`, searched `depth_left` plies deep.
    pub fn new(
        game_state: &GameState,
        depth_left: i16,
        score: i16,
        alpha: bool,
        beta: bool,
        mv: &GameMove,
        static_evaluation: Option<i16>,
        pv_node: bool,
        root_plies: u16,
    ) -> (res: CacheEntry)
        requires
            promotion_named(mv.move_type),
        ensures
            res.hash == game_state.hash,
            res.depth == depth_left as i8,
            res.plies_played == root_plies,
            res.score == score,
            res.alpha == alpha,
            res.beta == beta,
            res.mv == CacheEntry::packed(*mv),
            res.static_evaluation == static_evaluation,
            res.pv_node == pv_node,
    {
        CacheEntry {
            hash: game_state.hash,
            depth: depth_left as i8,
            plies_played: root_plies,
            score,
            alpha,
            beta,
            mv: CacheEntry::mv_to_u16(mv),
            static_evaluation,
            pv_node,
        }
    }

    /// The 16 bits a move is packed into.
    pub open spec fn packed(mv: GameMove) -> u16 {
        (((mv.from as u64) << 10u64 | (mv.to as u64) << 4u64 | move_code(mv.move_type) as u64)
            & 0xffffu64) as u16
    }

    /// Packs a move into 16 bits (a promotion must name a queen, rook, bishop or knight).
    pub fn mv_to_u16(mv: &GameMove) -> (res: u16)
        requires
            promotion_named(mv.move_type),
        ensures
            res == CacheEntry::packed(*mv),
    {
        let code: u16 = match &mv.move_type {
            GameMoveType::Quiet => 1,
            GameMoveType::Castle => 2,
            GameMoveType::Promotion(a, _) => match a {
                PieceType::Queen => 3,
                PieceType::Rook => 4,
                PieceType::Bishop => 5,
                _ => 6,
            },
            GameMoveType::Capture(_) => 7,
            GameMoveType::EnPassant => 8,
        };
        let res: u64 = (mv.from as u64) << 10u64 | (mv.to as u64) << 4u64 | code as u64;
        (res & 0xffffu64) as u16
    }

    /// The move a packed move stands for in `game_state`.
    pub fn u16_to_mv(mv: u16, game_state: &GameState) -> (res: GameMove)
        requires
            game_state.color_to_move < 2,
            mv & 15 == 2 ==> own_kind_at(*game_state, ((mv & 0xFC00) >> 10) as int)
                == PieceType::King,
        ensures
            res == unpacked_move(mv, *game_state),
    {
        let typ = mv & 15;
        let from = ((mv & 0xFC00) >> 10) as usize;
        let to = ((mv & 0x03F0) >> 4) as usize;
        proof {
            assert((mv & 0xFC00) >> 10 < 64) by (bit_vector);
            assert((mv & 0x03F0) >> 4 < 64) by (bit_vector);
        }
        let from_board = 1u64 << from as u64;
        let to_board = 1u64 << to as u64;
        let color_to_move = game_state.color_to_move;
        let enemy_color = 1 - color_to_move;
        proof {
            let c = color_to_move as int;
            let e = enemy_color as int;
            assert(bit(from_board, from as int));
            assert(bit(to_board, to as int));
            crate::bitboards::lemma_and_zero(game_state.pieces[0][c], from_board);
            crate::bitboards::lemma_and_zero(game_state.pieces[1][c], from_board);
            crate::bitboards::lemma_and_zero(game_state.pieces[2][c], from_board);
            crate::bitboards::lemma_and_zero(game_state.pieces[3][c], from_board);
            crate::bitboards::lemma_and_zero(game_state.pieces[4][c], from_board);
            crate::bitboards::lemma_and_zero(game_state.pieces[0][e], to_board);
            crate::bitboards::lemma_and_zero(game_state.pieces[1][e], to_board);
            crate::bitboards::lemma_and_zero(game_state.pieces[2][e], to_board);
            crate::bitboards::lemma_and_zero(game_state.pieces[3][e], to_board);
            crate::bitboards::lemma_and_zero(game_state.pieces[4][e], to_board);
        }
        let piece_type = if (game_state.pieces[PAWN][color_to_move] & from_board) != 0u64 {
            PieceType::Pawn
        } else if (game_state.pieces[KNIGHT][color_to_move] & from_board) != 0u64 {
            PieceType::Knight
        } else if (game_state.pieces[BISHOP][color_to_move] & from_board) != 0u64 {
            PieceType::Bishop
        } else if (game_state.pieces[ROOK][color_to_move] & from_board) != 0u64 {
            PieceType::Rook
        } else if (game_state.pieces[QUEEN][color_to_move] & from_board) != 0u64 {
            PieceType::Queen
        } else {
            PieceType::King
        };
        if typ == 1 {
            GameMove { from, to, piece_type, move_type: GameMoveType::Quiet }
        } else if typ == 2 {
            GameMove { from, to, piece_type, move_type: GameMoveType::Castle }
        } else {
            if typ == 8 {
                return GameMove { from, to, piece_type, move_type: GameMoveType::EnPassant };
            }
            let captured_piece_type = if (game_state.pieces[PAWN][enemy_color] & to_board) != 0u64 {
                PieceType::Pawn
            } else if (game_state.pieces[KNIGHT][enemy_color] & to_board) != 0u64 {
                PieceType::Knight
            } else if (game_state.pieces[BISHOP][enemy_color] & to_board) != 0u64 {
                PieceType::Bishop
            } else if (game_state.pieces[ROOK][enemy_color] & to_board) != 0u64 {
                PieceType::Rook
            } else if (game_state.pieces[QUEEN][enemy_color] & to_board) != 0u64 {
                PieceType::Queen
            } else {
                PieceType::King
            };
            let taken = if captured_piece_type != PieceType::King {
                Some(captured_piece_type)
            } else {
                None
            };
            if typ == 3 {
                GameMove {
                    from,
                    to,
                    piece_type,
                    move_type: GameMoveType::Promotion(PieceType::Queen, taken),
                }
            } else if typ == 4 {
                GameMove {
                    from,
                    to,
                    piece_type,
                    move_type: GameMoveType::Promotion(PieceType::Rook, taken),
                }
            } else if typ == 5 {
                GameMove {
                    from,
                    to,
                    piece_type,
                    move_type: GameMoveType::Promotion(PieceType::Bishop, taken),
                }
            } else if typ == 6 {
                GameMove {
                    from,
                    to,
                    piece_type,
                    move_type: GameMoveType::Promotion(PieceType::Knight, taken),
                }
            } else {
                GameMove {
                    from,
                    to,
                    piece_type,
                    move_type: GameMoveType::Capture(captured_piece_type),
                }
            }
        }
    }
}

/// Packing a move and unpacking it in the position it was made for gives the move back.
pub proof fn lemma_packed_move_round_trip(mv: GameMove, g: GameState)
    requires
        packable(mv, g),
    ensures
        unpacked_move(CacheEntry::packed(mv), g) == mv,
{
    let f = mv.from as u64;
    let t = mv.to as u64;
    let c = move_code(mv.move_type) as u64;
    let p = CacheEntry::packed(mv);
    assert(1 <= c <= 8);
    assert(((((f << 10u64 | t << 4u64 | c) & 0xffffu64) as u16) & 15) == c as u16 && (((((f << 10u64
        | t << 4u64 | c) & 0xffffu64) as u16) & 0xFC00) >> 10) == f as u16 && (((((f << 10u64 | t
        << 4u64 | c) & 0xffffu64) as u16) & 0x03F0) >> 4) == t as u16) by (bit_vector)
        requires
            f < 64,
            t < 64,
            c < 16,
    ;
}


// ---------------------------------------------------------------------------
// The transposition table: `locks` buckets of `entries_per_lock` slots each, held one
// bucket after the other. A position goes to the bucket its hash's top 16 bits name and
// to the slot its hash names within the bucket.
// ---------------------------------------------------------------------------

pub const DEFAULT_LOCKS: usize = 1024;

pub const MIN_LOCKS: usize = 1;

pub const MAX_LOCKS: usize = 65536;

pub const DEFAULT_HASH_SIZE: usize = 256;

pub const MIN_HASH_SIZE: usize = 0;

pub const MAX_HASH_SIZE: usize = 131072;

/// The transposition table.
pub struct Cache {
    pub entries: usize,
    pub locks: usize,
    pub entries_per_lock: usize,
    pub full: usize,
    pub cache: Vec<Option<CacheEntry>>,
}

impl Cache {
    /// The table's shape holds: a slot for each entry of each bucket.
    pub open spec fn wf(&self) -> bool {
        &&& self.locks > 0
        &&& self.entries == self.locks * self.entries_per_lock
        &&& self.cache.len() == self.entries
    }

    /// The slot of the position with hash `hash`.
    pub open spec fn slot(&self, hash: u64) -> int {
        ((hash >> 48u64) as usize % self.locks) * self.entries_per_lock + (hash as usize
            % self.entries_per_lock)
    }

    /// An empty table of about `mb_size` megabytes (24 bytes an entry) in `locks` buckets.
    pub fn with_size(mb_size: usize, locks: usize) -> (res: Cache)
        requires
            locks > 0,
            1024 * 1024 * mb_size <= usize::MAX,
        ensures
            res.wf(),
            res.locks == locks,
            res.entries_per_lock == (1024 * 1024 * mb_size / 24) / (locks as int),
            res.full == 0,
            forall|i: int| 0 <= i < res.cache.len() ==> res.cache[i] is None,
    {
        let entries = 1024 * 1024 * mb_size / 24;
        let entries_per_lock = entries / locks;
        proof {
            assert(entries_per_lock * locks <= entries) by (nonlinear_arith)
                requires
                    entries_per_lock == entries / locks,
                    locks > 0,
            ;
        }
        let entries = entries_per_lock * locks;
        proof {
            assert(entries_per_lock * locks == locks * entries_per_lock) by (nonlinear_arith);
        }
        let mut cache: Vec<Option<CacheEntry>> = Vec::new();
        while cache.len() < entries
            invariant
                cache.len() <= entries,
                forall|i: int| 0 <= i < cache.len() ==> cache[i] is None,
            decreases entries - cache.len(),
        {
            cache.push(None);
        }
        Cache { entries, locks, entries_per_lock, full: 0, cache }
    }

    /// Empties every slot.
    pub fn clear(&mut self)
        requires
            old(self).wf(),
        ensures
            final(self).wf(),
            final(self).locks == old(self).locks,
            final(self).entries_per_lock == old(self).entries_per_lock,
            final(self).full == 0,
            forall|i: int| 0 <= i < final(self).cache.len() ==> final(self).cache[i] is None,
    {
        let mut i: usize = 0;
        while i < self.cache.len()
            invariant
                self.wf(),
                self.locks == old(self).locks,
                self.entries_per_lock == old(self).entries_per_lock,
                self.entries == old(self).entries,
                i <= self.cache.len(),
                forall|j: int| 0 <= j < i ==> self.cache[j] is None,
            decreases self.cache.len() - i,
        {
            self.cache.set(i, None);
            i = i + 1;
        }
        self.full = 0;
    }

    /// The slot index of the position with hash `hash`.
    fn slot_index(&self, hash: u64) -> (res: usize)
        requires
            self.wf(),
            self.entries_per_lock > 0,
        ensures
            res == self.slot(hash),
            res < self.cache.len(),
    {
        let upper_index = (hash >> 48u64) as usize % self.locks;
        let lower_index = hash as usize % self.entries_per_lock;
        proof {
            assert(upper_index * self.entries_per_lock + lower_index < self.locks
                * self.entries_per_lock) by (nonlinear_arith)
                requires
                    upper_index < self.locks,
                    lower_index < self.entries_per_lock,
            ;
        }
        upper_index * self.entries_per_lock + lower_index
    }

    /// What the slot of the position with hash `hash` holds.
    pub fn get(&self, hash: u64) -> (res: Option<CacheEntry>)
        requires
            self.wf(),
            self.entries_per_lock > 0,
        ensures
            res == self.cache[self.slot(hash)],
    {
        let index = self.slot_index(hash);
        self.cache[index]
    }

    /// Marks the entry in the slot of the position with hash `hash` as written during the
    /// search from the root at ply `new_age`.
    pub fn age_entry(&mut self, hash: u64, new_age: u16)
        requires
            old(self).wf(),
            old(self).entries_per_lock > 0,
            old(self).cache[old(self).slot(hash)] is Some,
        ensures
            final(self).wf(),
            final(self).locks == old(self).locks,
            final(self).entries_per_lock == old(self).entries_per_lock,
            final(self).full == old(self).full,
            final(self).cache@ == old(self).cache@.update(
                old(self).slot(hash),
                Some((CacheEntry { plies_played: new_age, ..old(self).cache[old(self).slot(hash)]->0 })),
            ),
    {
        let index = self.slot_index(hash);
        let mut entry = self.cache[index].unwrap();
        entry.plies_played = new_age;
        self.cache.set(index, Some(entry));
    }

    /// Looks the position up: stops the search with the stored score where the entry
    /// was searched deep enough and its bound settles the window (at a null-window node or
    /// at the horizon); otherwise hands back the stored static evaluation and best move and
    /// marks the entry as seen from this root.
    pub fn lookup(
        &mut self,
        p: &CombinedSearchParameters,
        static_evaluation: &mut Option<i16>,
        tt_move: &mut Option<GameMove>,
        root_plies: usize,
    ) -> (res: SearchInstruction)
        requires
            old(self).wf(),
            old(self).entries > 0 ==> old(self).entries_per_lock > 0,
            p.game_state.color_to_move < 2,
            forall|e: CacheEntry|
                old(self).cache[old(self).slot(p.game_state.hash)] == Some(e) ==> (e.mv & 15 == 2
                    ==> own_kind_at(*p.game_state, ((e.mv & 0xFC00) >> 10) as int)
                    == PieceType::King),
        ensures
            final(self).wf(),
            ({
                let slot = old(self).slot(p.game_state.hash);
                let found = old(self).cache[slot];
                if old(self).entries == 0 || !(found matches Some(ce) && ce.hash
                    == p.game_state.hash) {
                    &&& res == SearchInstruction::ContinueSearching
                    &&& *final(self) == *old(self)
                    &&& *final(static_evaluation) == *old(static_evaluation)
                    &&& *final(tt_move) == *old(tt_move)
                } else {
                    let ce = found->0;
                    let settles = ce.depth >= p.depth_left as i8 && (p.beta - p.alpha <= 1
                        || p.depth_left <= 0) && (!ce.alpha && !ce.beta || ce.beta && ce.score
                        >= p.beta || ce.alpha && ce.score <= p.alpha);
                    &&& *final(tt_move) == Some(unpacked_move(ce.mv, *p.game_state))
                    &&& settles ==> res == SearchInstruction::StopSearching(ce.score)
                        && *final(self) == *old(self)
                        && *final(static_evaluation) == *old(static_evaluation)
                    &&& !settles ==> res == SearchInstruction::ContinueSearching
                        && *final(static_evaluation) == ce.static_evaluation
                        && final(self).cache@ == (if ce.plies_played
                        != root_plies as u16 {
                        old(self).cache@.update(
                            slot,
                            Some((CacheEntry { plies_played: root_plies as u16, ..ce })),
                        )
                    } else {
                        old(self).cache@
                    })
                }
            }),
    {
        if self.entries == 0 {
            return SearchInstruction::ContinueSearching;
        }
        let ce = self.get(p.game_state.hash);
        if let Some(ce) = ce {
            if ce.hash == p.game_state.hash {
                if ce.depth >= p.depth_left as i8 && (p.beta as i32 - p.alpha as i32 <= 1
                    || p.depth_left <= 0) && (!ce.alpha && !ce.beta || ce.beta && ce.score
                    >= p.beta || ce.alpha && ce.score <= p.alpha) {
                    *tt_move = Some(CacheEntry::u16_to_mv(ce.mv, p.game_state));
                    return SearchInstruction::StopSearching(ce.score);
                }
                *static_evaluation = ce.static_evaluation;
                let mv = CacheEntry::u16_to_mv(ce.mv, p.game_state);
                *tt_move = Some(mv);
                if ce.plies_played != root_plies as u16 {
                    self.age_entry(p.game_state.hash, root_plies as u16);
                }
            }
        }
        SearchInstruction::ContinueSearching
    }

    /// The worth of keeping an entry, ten times its depth weighed by 1 at a principal
    /// variation node and by 0.7 elsewhere; an entry from before the current root is
    /// worth -10.
    pub open spec fn keep_worth(e: CacheEntry, root_plies_played: usize) -> int {
        if e.plies_played < root_plies_played as u16 {
            -10
        } else {
            e.depth as int * if e.pv_node {
                10int
            } else {
                7int
            }
        }
    }

    /// The entry `insert` writes.
    pub open spec fn fresh_entry(
        p: CombinedSearchParameters,
        mv: GameMove,
        score: i16,
        original_alpha: i16,
        root_plies_played: usize,
        static_evaluation: Option<i16>,
    ) -> CacheEntry {
        CacheEntry {
            hash: p.game_state.hash,
            depth: p.depth_left as i8,
            plies_played: root_plies_played as u16,
            score,
            alpha: score <= original_alpha,
            beta: score >= p.beta,
            mv: CacheEntry::packed(mv),
            static_evaluation,
            pv_node: p.beta - p.alpha > 1,
        }
    }

    /// Whether the entry for the position of `p` goes over what its slot holds: where the
    /// position is the root itself, or the new entry is worth keeping at least as much.
    pub open spec fn replaces(
        old_entry: CacheEntry,
        p: CombinedSearchParameters,
        root_plies_played: usize,
    ) -> bool {
        let state_plies = (p.game_state.full_moves - 1) * 2 + p.game_state.color_to_move;
        state_plies == root_plies_played || Cache::keep_worth(old_entry, root_plies_played)
            <= p.depth_left * if p.beta - p.alpha > 1 {
            10int
        } else {
            7int
        }
    }

    /// `after` is `before` once `insert` stored the search result of the position of `p`.
    pub open spec fn insert_result(
        before: Cache,
        after: Cache,
        p: CombinedSearchParameters,
        mv: GameMove,
        score: i16,
        original_alpha: i16,
        root_plies_played: usize,
        static_evaluation: Option<i16>,
    ) -> bool {
        let slot = before.slot(p.game_state.hash);
        let fresh = Cache::fresh_entry(
            p,
            mv,
            score,
            original_alpha,
            root_plies_played,
            static_evaluation,
        );
        &&& after.locks == before.locks
        &&& after.entries_per_lock == before.entries_per_lock
        &&& after.entries == before.entries
        &&& if before.entries == 0 {
            after == before
        } else if before.cache[slot] is None {
            &&& after.cache@ == before.cache@.update(slot, Some(fresh))
            &&& after.full == before.full + 1
        } else {
            &&& after.full == before.full
            &&& after.cache@ == if Cache::replaces(before.cache[slot]->0, p, root_plies_played) {
                before.cache@.update(slot, Some(fresh))
            } else {
                before.cache@
            }
        }
    }

    /// Stores the result of a search of the position of `p`: in an empty slot always (one
    /// entry more); over an entry already there where the position is the root itself, or
    /// where the new entry's depth, weighed by 1 at a principal variation node and by 0.7
    /// elsewhere, is at least the old one's (an entry from before the current root
    /// weighing -1).
    pub fn insert(
        &mut self,
        p: &CombinedSearchParameters,
        mv: &GameMove,
        score: i16,
        original_alpha: i16,
        root_plies_played: usize,
        static_evaluation: Option<i16>,
    )
        requires
            old(self).wf(),
            old(self).entries > 0 ==> old(self).entries_per_lock > 0,
            old(self).full < usize::MAX,
            promotion_named(mv.move_type),
            old(self).entries > 0 && old(self).cache[old(self).slot(p.game_state.hash)] is Some
                ==> p.game_state.full_moves >= 1 && (p.game_state.full_moves - 1) * 2
                + p.game_state.color_to_move <= usize::MAX,
        ensures
            final(self).wf(),
            final(self).locks == old(self).locks,
            final(self).entries_per_lock == old(self).entries_per_lock,
            Cache::insert_result(
                *old(self),
                *final(self),
                *p,
                *mv,
                score,
                original_alpha,
                root_plies_played,
                static_evaluation,
            ),
    {
        if self.entries == 0 {
            return;
        }
        let lower_bound = score >= p.beta;
        let upper_bound = score <= original_alpha;
        let pv_node = p.beta as i32 - p.alpha as i32 > 1;
        let index = self.slot_index(p.game_state.hash);
        let new_entry = CacheEntry::new(
            p.game_state,
            p.depth_left,
            score,
            upper_bound,
            lower_bound,
            mv,
            static_evaluation,
            pv_node,
            root_plies_played as u16,
        );
        match self.cache[index] {
            None => {
                self.full = self.full + 1;
                self.cache.set(index, Some(new_entry));
            },
            Some(old_entry) => {
                let new_entry_val: i32 = p.depth_left as i32 * if !pv_node {
                    7
                } else {
                    10
                };
                let old_entry_val: i32 = if old_entry.plies_played < root_plies_played as u16 {
                    -10
                } else {
                    old_entry.depth as i32 * if !old_entry.pv_node {
                        7
                    } else {
                        10
                    }
                };
                let state_plies_played = (p.game_state.full_moves - 1) * 2
                    + p.game_state.color_to_move;
                if state_plies_played == root_plies_played || old_entry_val <= new_entry_val {
                    self.cache.set(index, Some(new_entry));
                }
            },
        }
    }
}

/// What `insert` stored is what `get` reads back: after an entry for a position went into
/// its slot (an empty one, or over an entry it replaces), the slot of the position's hash
/// holds that entry, and every other slot holds what it held.
pub proof fn lemma_insert_then_get(
    before: Cache,
    after: Cache,
    p: CombinedSearchParameters,
    mv: GameMove,
    score: i16,
    original_alpha: i16,
    root_plies_played: usize,
    static_evaluation: Option<i16>,
    other: u64,
)
    requires
        before.wf(),
        before.entries > 0,
        before.entries_per_lock > 0,
        Cache::insert_result(
            before,
            after,
            p,
            mv,
            score,
            original_alpha,
            root_plies_played,
            static_evaluation,
        ),
        before.cache[before.slot(p.game_state.hash)] is Some ==> Cache::replaces(
            before.cache[before.slot(p.game_state.hash)]->0,
            p,
            root_plies_played,
        ),
    ensures
        after.wf(),
        after.cache[after.slot(p.game_state.hash)] == Some(
            Cache::fresh_entry(p, mv, score, original_alpha, root_plies_played, static_evaluation),
        ),
        after.cache[after.slot(p.game_state.hash)]->0.hash == p.game_state.hash,
        after.slot(other) != after.slot(p.game_state.hash) ==> after.cache[after.slot(other)]
            == before.cache[before.slot(other)],
{
    let slot = before.slot(p.game_state.hash);
    assert(0 <= before.slot(other) < before.cache.len()) by {
        lemma_slot_in_range(before, other);
    }
    assert(0 <= slot < before.cache.len()) by {
        lemma_slot_in_range(before, p.game_state.hash);
    }
}

/// A slot lies within the table.
proof fn lemma_slot_in_range(c: Cache, hash: u64)
    requires
        c.wf(),
        c.entries_per_lock > 0,
    ensures
        0 <= c.slot(hash) < c.cache.len(),
{
    let upper = (hash >> 48u64) as usize % c.locks;
    let lower = hash as usize % c.entries_per_lock;
    assert(upper * c.entries_per_lock + lower < c.locks * c.entries_per_lock) by (nonlinear_arith)
        requires
            upper < c.locks,
            lower < c.entries_per_lock,
    ;
    assert(0 <= upper * c.entries_per_lock) by (nonlinear_arith)
        requires
            upper >= 0,
            c.entries_per_lock > 0,
    ;
}

} // verus!
