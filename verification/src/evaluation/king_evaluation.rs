use crate::bitboards::{
    self, bit, black_shield, count_where, file_of, lemma_and_zero, lemma_clear_lowest, rank_of,
    white_shield,
};
use vstd::prelude::*;

verus! {

broadcast use crate::bitboards::group_bit_ops;

/// One side's king shelter: the files of the shield in front of its king with no own
/// pawn on the shield, and those of them with no enemy pawn either.
pub struct KingEvaluation {
    pub shielding_pawns_missing: u32,
    pub shielding_pawns_missing_on_open_file: u32,
}

/// A square of the shield in front of a king on `k`.
pub open spec fn shield_at(is_white: bool, k: int, t: int) -> bool {
    if is_white {
        white_shield(k, t)
    } else {
        black_shield(k, t)
    }
}

/// The shield of a king on `k` reaches the file `f` and no pawn of `my_pawns` stands on
/// its squares there.
pub open spec fn shield_missing(is_white: bool, k: int, my_pawns: u64, f: int) -> bool {
    &&& exists|t: int| 0 <= t < 64 && #[trigger] shield_at(is_white, k, t) && file_of(t) == f
    &&& !exists|t: int|
        0 <= t < 64 && #[trigger] shield_at(is_white, k, t) && file_of(t) == f && bit(my_pawns, t)
}

/// Some square of `b` lies on the file `f`.
pub open spec fn file_touched(b: u64, f: int) -> bool {
    exists|t: int| #[trigger] bit(b, t) && file_of(t) == f
}

/// No pawn of `pawns` stands on the file `f`.
pub open spec fn file_open(pawns: u64, f: int) -> bool {
    !exists|t: int| 0 <= t < 64 && #[trigger] bit(pawns, t) && file_of(t) == f
}

/// The number of files from 0 to `n` where `p` holds grows by one when `p` gains a file.
proof fn lemma_count_where_add(p: spec_fn(int) -> bool, q: spec_fn(int) -> bool, x: int, n: nat)
    requires
        n <= 8,
        0 <= x < 8,
        !p(x),
        q(x),
        forall|f: int| f != x ==> #[trigger] q(f) == p(f),
    ensures
        count_where(q, n) == count_where(p, n) + if x < n {
            1nat
        } else {
            0nat
        },
    decreases n,
{
    if n > 0 {
        lemma_count_where_add(p, q, x, (n - 1) as nat);
    }
}

proof fn lemma_count_where_none(p: spec_fn(int) -> bool, n: nat)
    requires
        forall|f: int| !#[trigger] p(f),
    ensures
        count_where(p, n) == 0,
    decreases n,
{
    if n > 0 {
        lemma_count_where_none(p, (n - 1) as nat);
    }
}

proof fn lemma_count_where_le(p: spec_fn(int) -> bool, n: nat)
    ensures
        count_where(p, n) <= n,
    decreases n,
{
    if n > 0 {
        lemma_count_where_le(p, (n - 1) as nat);
    }
}

/// The shelter of the king on the lowest square of `king`: over the files its shield
/// reaches, those with no own pawn on the shield, and those with no pawn of either side.
pub fn king_eval(king: u64, my_pawns: u64, enemy_pawns: u64, is_white: bool) -> (res:
    KingEvaluation)
    requires
        king != 0u64,
    ensures
        ({
            let k = vstd::std_specs::bits::u64_trailing_zeros(king) as int;
            &&& res.shielding_pawns_missing as nat == count_where(
                |f: int| shield_missing(is_white, k, my_pawns, f),
                8,
            )
            &&& res.shielding_pawns_missing_on_open_file as nat == count_where(
                |f: int| shield_missing(is_white, k, my_pawns, f) && file_open(enemy_pawns, f),
                8,
            )
        }),
{
    proof {
        vstd::std_specs::bits::axiom_u64_trailing_zeros(king);
    }
    let king_index = king.trailing_zeros() as usize;
    let ghost k = king_index as int;
    let files = bitboards::initialize_files();
    let mut shield = if is_white {
        let table = bitboards::init_shielding_pawns_white();
        table[king_index]
    } else {
        let table = bitboards::init_shielding_pawns_black();
        table[king_index]
    };
    let ghost shield0 = shield;
    let ghost missing = |f: int| shield_missing(is_white, k, my_pawns, f);
    let ghost missing_open = |f: int|
        shield_missing(is_white, k, my_pawns, f) && file_open(enemy_pawns, f);
    let mut shields_missing: u32 = 0;
    let mut shields_on_open_missing: u32 = 0;
    proof {
        let p0 = |f: int| missing(f) && !file_touched(shield, f);
        let p1 = |f: int| missing_open(f) && !file_touched(shield, f);
        assert forall|f: int| !#[trigger] p0(f) by {
            if missing(f) {
                let t = choose|t: int| 0 <= t < 64 && #[trigger] shield_at(is_white, k, t) && file_of(t) == f;
                assert(bit(shield, t));
            }
        }
        assert forall|f: int| !#[trigger] p1(f) by {
            assert(!p0(f));
        }
        lemma_count_where_none(p0, 8);
        lemma_count_where_none(p1, 8);
    }
    while shield != 0u64
        invariant
            k == king_index,
            0 <= k < 64,
            forall|f: int, t: int|
                0 <= f < 8 && 0 <= t < 64 ==> #[trigger] bit(files[f], t) == (file_of(t) == f),
            forall|t: int| 0 <= t < 64 ==> #[trigger] bit(shield0, t) == shield_at(is_white, k, t),
            forall|t: int| #[trigger] bit(shield, t) ==> bit(shield0, t),
            forall|t: int, u: int|
                #![trigger bit(shield0, t), bit(shield, u)]
                bit(shield0, t) && bit(shield, u) && file_of(t) == file_of(u) ==> bit(shield, t),
            shields_missing as nat == count_where(
                |f: int| missing(f) && !file_touched(shield, f),
                8,
            ),
            shields_on_open_missing as nat == count_where(
                |f: int|
                    missing_open(f) && !file_touched(shield, f),
                8,
            ),
            missing == (|f: int| shield_missing(is_white, k, my_pawns, f)),
            missing_open == (|f: int|
                shield_missing(is_white, k, my_pawns, f) && file_open(enemy_pawns, f)),
        decreases shield,
    {
        proof {
            lemma_clear_lowest(shield);
        }
        let idx = shield.trailing_zeros() as usize;
        let file = files[idx % 8];
        let ghost f = (idx % 8) as int;
        let ghost old_shield = shield;
        proof {
            lemma_and_zero(my_pawns & shield, file);
            lemma_and_zero(enemy_pawns, file);
            // The shield still holds all its squares on the file `f`.
            assert(((my_pawns & shield & file) == 0u64) == !exists|t: int|
                0 <= t < 64 && #[trigger] shield_at(is_white, k, t) && file_of(t) == f && bit(
                    my_pawns,
                    t,
                )) by {
                if exists|t: int|
                    0 <= t < 64 && #[trigger] shield_at(is_white, k, t) && file_of(t) == f && bit(
                        my_pawns,
                        t,
                    ) {
                    let t = choose|t: int|
                        0 <= t < 64 && #[trigger] shield_at(is_white, k, t) && file_of(t) == f
                            && bit(my_pawns, t);
                    assert(bit(shield0, t) && bit(shield, idx as int));
                    assert(bit(my_pawns & shield & file, t));
                }
            }
            assert(((enemy_pawns & file) == 0u64) == file_open(enemy_pawns, f)) by {
                if !file_open(enemy_pawns, f) {
                    let t = choose|t: int| 0 <= t < 64 && #[trigger] bit(enemy_pawns, t) && file_of(t)
                        == f;
                    assert(bit(enemy_pawns & file, t));
                }
            }
            assert(exists|t: int| 0 <= t < 64 && #[trigger] shield_at(is_white, k, t) && file_of(t)
                == f) by {
                assert(shield_at(is_white, k, idx as int));
            }
            lemma_count_where_le(
                |g: int| missing(g) && !file_touched(shield, g),
                8,
            );
            lemma_count_where_le(
                |g: int|
                    missing_open(g) && !file_touched(shield, g),
                8,
            );
        }
        if my_pawns & shield & file == 0u64 {
            shields_missing = shields_missing + 1;
            if enemy_pawns & file == 0u64 {
                shields_on_open_missing = shields_on_open_missing + 1;
            }
        }
        proof {
            assert(bit(shield & file, idx as int));
            crate::bitboards::lemma_mask_off_smaller(shield, file);
        }
        shield = shield & !file;
        proof {
            let before = |g: int| missing(g) && !file_touched(old_shield, g);
            let after = |g: int| missing(g) && !file_touched(shield, g);
            let before_o = |g: int|
                missing_open(g) && !file_touched(old_shield, g);
            let after_o = |g: int|
                missing_open(g) && !file_touched(shield, g);
            assert(file_touched(old_shield, f));
            assert(!file_touched(shield, f));
            assert forall|g: int| g != f implies #[trigger] file_touched(shield, g) == file_touched(old_shield, g) by {
                if file_touched(old_shield, g) {
                    let t = choose|t: int| #[trigger] bit(old_shield, t) && file_of(t) == g;
                    assert(bit(shield, t));
                }
            }
            if missing(f) {
                lemma_count_where_add(before, after, f, 8);
            } else {
                assert(before =~= after);
            }
            if missing_open(f) {
                lemma_count_where_add(before_o, after_o, f, 8);
            } else {
                assert(before_o =~= after_o);
            }
        }
    }
    proof {
        let done = |g: int| missing(g) && !file_touched(shield, g);
        let done_o = |g: int|
            missing_open(g) && !file_touched(shield, g);
        assert(done =~= missing);
        assert(done_o =~= missing_open);
    }
    KingEvaluation {
        shielding_pawns_missing: shields_missing,
        shielding_pawns_missing_on_open_file: shields_on_open_missing,
    }
}

/// A predicate that holds on three neighbouring files, from `c - 1` to `c + 1`, holds on
/// three files.
proof fn lemma_count_three_files(p: spec_fn(int) -> bool, c: int)
    requires
        1 <= c <= 6,
        forall|f: int| 0 <= f < 8 ==> #[trigger] p(f) == (c - 1 <= f <= c + 1),
    ensures
        count_where(p, 8) == 3,
{
    reveal_with_fuel(count_where, 9);
    assert(p(0) == (c - 1 <= 0 <= c + 1));
    assert(p(1) == (c - 1 <= 1 <= c + 1));
    assert(p(2) == (c - 1 <= 2 <= c + 1));
    assert(p(3) == (c - 1 <= 3 <= c + 1));
    assert(p(4) == (c - 1 <= 4 <= c + 1));
    assert(p(5) == (c - 1 <= 5 <= c + 1));
    assert(p(6) == (c - 1 <= 6 <= c + 1));
    assert(p(7) == (c - 1 <= 7 <= c + 1));
}

/// A king on its own back rank (a white king on the first rank, a black king on the
/// eighth) without pawns of its side has its shield in front of it, on three files, and
/// all three miss their pawn; with no enemy pawns all three files are open too. A white
/// king's shield lies on the two ranks above it and a black king's on the two below, so
/// on the other side's back rank a king has no shield at all.
pub proof fn lemma_back_rank_king_without_pawns(k: int, enemy_pawns: u64, is_white: bool)
    requires
        0 <= k < 64,
    ensures
        rank_of(k) == (if is_white { 0int } else { 7int }) ==> count_where(
            |f: int| shield_missing(is_white, k, 0u64, f),
            8,
        ) == 3,
        rank_of(k) == (if is_white { 0int } else { 7int }) && enemy_pawns == 0u64 ==> count_where(
            |f: int| shield_missing(is_white, k, 0u64, f) && file_open(enemy_pawns, f),
            8,
        ) == 3,
        rank_of(k) == (if is_white { 7int } else { 0int }) ==> count_where(
            |f: int| shield_missing(is_white, k, 0u64, f),
            8,
        ) == 0,
{
    let c = if file_of(k) == 0 {
        1
    } else if file_of(k) == 7 {
        6
    } else {
        file_of(k)
    };
    let missing = |f: int| shield_missing(is_white, k, 0u64, f);
    let missing_open = |f: int| shield_missing(is_white, k, 0u64, f) && file_open(enemy_pawns, f);
    if rank_of(k) == (if is_white { 0int } else { 7int }) {
        assert forall|f: int| 0 <= f < 8 implies #[trigger] missing(f) == (c - 1 <= f <= c + 1) by {
            if c - 1 <= f <= c + 1 {
                let t = if is_white { 8 + f } else { 48 + f };
                assert(file_of(t) == f);
                assert(shield_at(is_white, k, t));
                assert forall|u: int| 0 <= u < 64 implies !#[trigger] bit(0u64, u) by {}
            }
        }
        lemma_count_three_files(missing, c);
        if enemy_pawns == 0u64 {
            assert forall|f: int| 0 <= f < 8 implies #[trigger] missing_open(f) == (c - 1 <= f <= c
                + 1) by {
                assert(missing(f) == (c - 1 <= f <= c + 1));
                assert forall|u: int| 0 <= u < 64 implies !#[trigger] bit(0u64, u) by {}
            }
            lemma_count_three_files(missing_open, c);
        }
    }
    if rank_of(k) == (if is_white { 7int } else { 0int }) {
        assert forall|f: int| !#[trigger] missing(f) by {
            assert forall|t: int| !#[trigger] shield_at(is_white, k, t) by {}
        }
        lemma_count_where_none(missing, 8);
    }
}

/// Own pawns on every square of the rank in front of a king on its back rank (the second
/// rank for white, the seventh for black) leave no shield file missing.
pub proof fn lemma_back_rank_king_behind_full_rank(k: int, my_pawns: u64, is_white: bool)
    requires
        0 <= k < 64,
        rank_of(k) == (if is_white { 0int } else { 7int }),
        forall|t: int|
            0 <= t < 64 && rank_of(t) == (if is_white { 1int } else { 6int }) ==> #[trigger] bit(
                my_pawns,
                t,
            ),
    ensures
        count_where(|f: int| shield_missing(is_white, k, my_pawns, f), 8) == 0,
{
    let missing = |f: int| shield_missing(is_white, k, my_pawns, f);
    assert forall|f: int| !#[trigger] missing(f) by {
        if 0 <= f < 8 {
            let t = if is_white { 8 + f } else { 48 + f };
            assert(rank_of(t) == (if is_white { 1int } else { 6int }));
            assert(bit(my_pawns, t));
            if exists|u: int| 0 <= u < 64 && #[trigger] shield_at(is_white, k, u) && file_of(u) == f {
                assert(shield_at(is_white, k, t));
            }
        } else {
            assert forall|u: int| 0 <= u < 64 && #[trigger] shield_at(is_white, k, u) implies file_of(u)
                != f by {}
        }
    }
    lemma_count_where_none(missing, 8);
}

/// Enemy pawns on every square of some rank `r` (so on every file) leave no missing shield
/// file open.
pub proof fn lemma_no_open_file_under_enemy_pawns(
    k: int,
    my_pawns: u64,
    enemy_pawns: u64,
    is_white: bool,
    r: int,
)
    requires
        0 <= r < 8,
        forall|t: int| 0 <= t < 64 && rank_of(t) == r ==> #[trigger] bit(enemy_pawns, t),
    ensures
        count_where(
            |f: int| shield_missing(is_white, k, my_pawns, f) && file_open(enemy_pawns, f),
            8,
        ) == 0,
{
    let p = |f: int| shield_missing(is_white, k, my_pawns, f) && file_open(enemy_pawns, f);
    assert forall|f: int| !#[trigger] p(f) by {
        if 0 <= f < 8 {
            let t = 8 * r + f;
            assert(rank_of(t) == r && file_of(t) == f);
            assert(bit(enemy_pawns, t));
            assert(!file_open(enemy_pawns, f));
        } else {
            assert forall|u: int| 0 <= u < 64 && #[trigger] shield_at(is_white, k, u) implies file_of(u)
                != f by {}
        }
    }
    lemma_count_where_none(p, 8);
}

} // verus!
