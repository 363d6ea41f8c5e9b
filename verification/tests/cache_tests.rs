use fabchess::board_representation::game_state::{GameMove, GameMoveType, GameState, PieceType};
use fabchess::board_representation::zobrist_hashing::init_zobrist;
use fabchess::move_generation::makemove::make_move;
use fabchess::search::cache::{Cache, CacheEntry};
use fabchess::search::CombinedSearchParameters;

fn round_trip(mv: GameMove, g: &GameState) {
    let packed = CacheEntry::mv_to_u16(&mv);
    let res = CacheEntry::u16_to_mv(packed, g);
    assert_eq!(res.from, mv.from);
    assert_eq!(res.to, mv.to);
    assert_eq!(res.move_type, mv.move_type);
    assert_eq!(res.piece_type, mv.piece_type);
}

#[test]
fn mv_to_u16_test() {
    let keys = init_zobrist();
    let mut game_state = GameState::from_fen(&keys, "k4b2/2p1P3/8/3P4/6b1/7P/8/R3K2R w KQ -");
    round_trip(
        GameMove { from: 23, to: 31, piece_type: PieceType::Pawn, move_type: GameMoveType::Quiet },
        &game_state,
    );
    round_trip(
        GameMove {
            from: 23,
            to: 30,
            piece_type: PieceType::Pawn,
            move_type: GameMoveType::Capture(PieceType::Bishop),
        },
        &game_state,
    );
    round_trip(
        GameMove { from: 4, to: 2, piece_type: PieceType::King, move_type: GameMoveType::Castle },
        &game_state,
    );
    round_trip(
        GameMove { from: 4, to: 6, piece_type: PieceType::King, move_type: GameMoveType::Castle },
        &game_state,
    );
    for p in [PieceType::Queen, PieceType::Rook, PieceType::Bishop, PieceType::Knight] {
        round_trip(
            GameMove {
                from: 52,
                to: 60,
                piece_type: PieceType::Pawn,
                move_type: GameMoveType::Promotion(p, None),
            },
            &game_state,
        );
    }
    for p in [PieceType::Queen, PieceType::Rook, PieceType::Bishop, PieceType::Knight] {
        round_trip(
            GameMove {
                from: 52,
                to: 61,
                piece_type: PieceType::Pawn,
                move_type: GameMoveType::Promotion(p, Some(PieceType::Bishop)),
            },
            &game_state,
        );
    }
    game_state = make_move(
        &keys,
        &game_state,
        &GameMove { from: 23, to: 31, piece_type: PieceType::Pawn, move_type: GameMoveType::Quiet },
    );
    game_state = make_move(
        &keys,
        &game_state,
        &GameMove { from: 50, to: 34, piece_type: PieceType::Pawn, move_type: GameMoveType::Quiet },
    );
    round_trip(
        GameMove { from: 35, to: 42, piece_type: PieceType::Pawn, move_type: GameMoveType::EnPassant },
        &game_state,
    );
}

#[test]
fn packed_move_bits() {
    let mv = GameMove { from: 12, to: 28, piece_type: PieceType::Pawn, move_type: GameMoveType::Quiet };
    assert_eq!(CacheEntry::mv_to_u16(&mv), (12 << 10) | (28 << 4) | 1);
    let mv = GameMove { from: 63, to: 0, piece_type: PieceType::Pawn, move_type: GameMoveType::EnPassant };
    assert_eq!(CacheEntry::mv_to_u16(&mv), (63 << 10) | 8);
}

#[test]
fn cache_slots_and_clear() {
    let keys = init_zobrist();
    let g = GameState::standard(&keys);
    let mut cache = Cache::with_size(1, 4);
    assert_eq!(cache.locks, 4);
    assert_eq!(cache.entries_per_lock, 1024 * 1024 / 24 / 4);
    assert_eq!(cache.entries, cache.entries_per_lock * 4);
    assert!(cache.get(g.hash).is_none());
    let mv = GameMove { from: 12, to: 28, piece_type: PieceType::Pawn, move_type: GameMoveType::Quiet };
    let entry = CacheEntry::new(&g, 5, 17, false, false, &mv, Some(3), true, 0);
    let upper = ((g.hash >> 48) as usize) % cache.locks;
    let index = upper * cache.entries_per_lock + (g.hash as usize) % cache.entries_per_lock;
    cache.cache[index] = Some(entry);
    let found = cache.get(g.hash).unwrap();
    assert_eq!(found.score, 17);
    assert_eq!(found.depth, 5);
    cache.age_entry(g.hash, 9);
    assert_eq!(cache.get(g.hash).unwrap().plies_played, 9);
    cache.clear();
    assert!(cache.get(g.hash).is_none());
    assert_eq!(cache.full, 0);
}

#[test]
fn inserted_entries_are_found_and_replaced_by_worth() {
    use_cache_insert();
}

fn use_cache_insert() {
    let keys = init_zobrist();
    let g = GameState::standard(&keys);
    let mut cache = Cache::with_size(1, 4);
    let mv = GameMove { from: 12, to: 28, piece_type: PieceType::Pawn, move_type: GameMoveType::Quiet };
    // A null window: not a principal variation node.
    let p = CombinedSearchParameters::from(10, 11, 6, &g, 1, 0);
    cache.insert(&p, &mv, 50, 10, 0, Some(7));
    assert_eq!(cache.full, 1);
    let e = cache.get(g.hash).unwrap();
    assert_eq!(e.hash, g.hash);
    assert_eq!(e.depth, 6);
    assert_eq!(e.score, 50);
    assert!(e.beta);
    assert!(!e.alpha);
    assert!(!e.pv_node);
    assert_eq!(e.static_evaluation, Some(7));
    assert_eq!(CacheEntry::u16_to_mv(e.mv, &g).to, 28);
    // The standard position is the root at ply 0: any new entry goes over it.
    let shallow = CombinedSearchParameters::from(-5, 5, 1, &g, 1, 0);
    cache.insert(&shallow, &mv, 3, -5, 0, None);
    assert_eq!(cache.full, 1);
    assert_eq!(cache.get(g.hash).unwrap().depth, 1);
    assert!(cache.get(g.hash).unwrap().pv_node);
    // From a later root, a shallower entry does not go over a deeper one of this root...
    let g2 = make_move(&keys, &g, &mv);
    let deep = CombinedSearchParameters::from(-5, 5, 8, &g2, -1, 1);
    cache.insert(&deep, &mv, 20, -5, 1, None);
    let weak = CombinedSearchParameters::from(0, 1, 3, &g2, -1, 1);
    cache.insert(&weak, &mv, 30, 0, 0, None);
    assert_eq!(cache.get(g2.hash).unwrap().depth, 8);
    // ...but an entry from before the current root always gives way.
    let later = CombinedSearchParameters::from(0, 1, 2, &g2, -1, 1);
    cache.insert(&later, &mv, 40, 0, 5, None);
    assert_eq!(cache.get(g2.hash).unwrap().depth, 2);
    assert_eq!(cache.get(g2.hash).unwrap().score, 40);
}
