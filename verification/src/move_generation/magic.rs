use crate::bitboards::{
    count_bits, lemma_count_bits_mono, lemma_count_bits_prefix_none, lemma_count_bits_toggle,
    lemma_popcount_nonzero, popcount, bit, lemma_bit_file_mask, lemma_bit_rank_mask, lemma_not_file_masks, FILE_A, FILE_H, RANK_1, RANK_8, file_of, lemma_bit_extensional, lemma_bit_ops, lemma_bit_single, rank_of,
};
use crate::move_generation::attacks::lemma_ray_coords;
use vstd::prelude::*;

verus! {

// ---------------------------------------------------------------------------
// Sliding pieces: a ray from `sq` in direction (df, dr), each in -1..=1.
// ---------------------------------------------------------------------------

/// `d` steps of size `step` (which is -1, 0 or 1).
pub open spec fn offset(step: int, d: int) -> int {
    if step == 0 {
        0
    } else if step > 0 {
        d
    } else {
        -d
    }
}

/// The square `d` steps from `sq` in direction (df, dr) lies on the board.
pub open spec fn ray_ok(sq: int, df: int, dr: int, d: int) -> bool {
    &&& 0 <= file_of(sq) + offset(df, d) < 8
    &&& 0 <= rank_of(sq) + offset(dr, d) < 8
}

/// The square `d` steps from `sq` in direction (df, dr).
pub open spec fn ray_sq(sq: int, df: int, dr: int, d: int) -> int {
    8 * (rank_of(sq) + offset(dr, d)) + file_of(sq) + offset(df, d)
}

/// A slider on `sq` moving in direction (df, dr) reaches `t`: `t` lies on the ray and
/// no square of `blocks` stands strictly between `sq` and `t`.
pub open spec fn ray_reaches(sq: int, blocks: u64, df: int, dr: int, t: int) -> bool {
    exists|d: int|
        #![trigger ray_sq(sq, df, dr, d)]
        d >= 1 && ray_ok(sq, df, dr, d) && t == ray_sq(sq, df, dr, d) && forall|e: int|
            1 <= e < d ==> !#[trigger] bit(blocks, ray_sq(sq, df, dr, e))
}

/// The squares reached in the first `d - 1` steps of the ray.
pub open spec fn ray_upto(sq: int, df: int, dr: int, d: int, t: int) -> bool {
    exists|e: int|
        #![trigger ray_sq(sq, df, dr, e)]
        1 <= e < d && ray_ok(sq, df, dr, e) && t == ray_sq(sq, df, dr, e)
}

/// A rook on `sq` attacks `t` when the board holds the pieces `blocks`.
pub open spec fn rook_reaches(sq: int, blocks: u64, t: int) -> bool {
    ||| ray_reaches(sq, blocks, 0, 1, t)
    ||| ray_reaches(sq, blocks, 0, -1, t)
    ||| ray_reaches(sq, blocks, 1, 0, t)
    ||| ray_reaches(sq, blocks, -1, 0, t)
}

/// A bishop on `sq` attacks `t` when the board holds the pieces `blocks`.
pub open spec fn bishop_reaches(sq: int, blocks: u64, t: int) -> bool {
    ||| ray_reaches(sq, blocks, 1, 1, t)
    ||| ray_reaches(sq, blocks, -1, -1, t)
    ||| ray_reaches(sq, blocks, 1, -1, t)
    ||| ray_reaches(sq, blocks, -1, 1, t)
}

pub proof fn lemma_ray_ok_shrinks(sq: int, df: int, dr: int, d: int, e: int)
    requires
        0 <= sq < 64,
        -1 <= df <= 1,
        -1 <= dr <= 1,
        1 <= e <= d,
        ray_ok(sq, df, dr, d),
    ensures
        ray_ok(sq, df, dr, e),
{
}

proof fn lemma_ray_ok_stays_off(sq: int, df: int, dr: int, d: int, e: int)
    requires
        0 <= sq < 64,
        -1 <= df <= 1,
        -1 <= dr <= 1,
        1 <= d <= e,
        !ray_ok(sq, df, dr, d),
    ensures
        !ray_ok(sq, df, dr, e),
{
}

/// The squares a slider on `square` reaches in direction (df, dr).
fn slide(square: usize, df: i8, dr: i8, blocks: u64) -> (res: u64)
    requires
        square < 64,
        -1 <= df <= 1,
        -1 <= dr <= 1,
        df != 0 || dr != 0,
    ensures
        forall|t: int|
            0 <= t < 64 ==> #[trigger] bit(res, t) == ray_reaches(
                square as int,
                blocks,
                df as int,
                dr as int,
                t,
            ),
{
    let ghost sq = square as int;
    let ghost fd = df as int;
    let ghost rd = dr as int;
    let mut res = 0u64;
    let rank: i8 = (square / 8) as i8;
    let file: i8 = (square % 8) as i8;
    let mut rn: i8 = rank + dr;
    let mut fnn: i8 = file + df;
    let ghost mut d: int = 1;
    proof {
        assert forall|t: int| 0 <= t < 64 implies #[trigger] bit(res, t) == ray_upto(
            sq,
            fd,
            rd,
            d,
            t,
        ) by {
            lemma_bit_single(0, t);
        }
    }
    let mut blocked = false;
    while !blocked && rn >= 0 && rn <= 7 && fnn >= 0 && fnn <= 7
        invariant
            0 <= sq < 64,
            sq == square,
            fd == df,
            rd == dr,
            -1 <= df <= 1,
            -1 <= dr <= 1,
            df != 0 || dr != 0,
            rank == rank_of(sq),
            file == file_of(sq),
            d >= 1,
            rn == rank + offset(rd, d) || blocked,
            fnn == file + offset(fd, d) || blocked,
            -1 <= rn <= 8,
            -1 <= fnn <= 8,
            d <= 8,
            !blocked ==> forall|e: int|
                1 <= e < d ==> ray_ok(sq, fd, rd, e) && !#[trigger] bit(
                    blocks,
                    ray_sq(sq, fd, rd, e),
                ),
            blocked ==> d >= 2 && ray_ok(sq, fd, rd, d - 1) && bit(
                blocks,
                ray_sq(sq, fd, rd, d - 1),
            ) && forall|e: int|
                1 <= e < d - 1 ==> ray_ok(sq, fd, rd, e) && !#[trigger] bit(
                    blocks,
                    ray_sq(sq, fd, rd, e),
                ),
            forall|t: int| 0 <= t < 64 ==> #[trigger] bit(res, t) == ray_upto(sq, fd, rd, d, t),
        decreases 8 - d + (if blocked { 0int } else { 1int }),
    {
        let target = (rn as usize) * 8 + (fnn as usize);
        let ghost old_res = res;
        res = res | (1u64 << target as u64);
        proof {
            assert(ray_ok(sq, fd, rd, d));
            assert(target == ray_sq(sq, fd, rd, d));
            assert forall|t: int| 0 <= t < 64 implies #[trigger] bit(res, t) == ray_upto(
                sq,
                fd,
                rd,
                d + 1,
                t,
            ) by {
                lemma_bit_ops(old_res, 1u64 << target as u64, t);
                lemma_bit_single(target as u64, t);
                assert(bit(old_res, t) == ray_upto(sq, fd, rd, d, t));
                if ray_upto(sq, fd, rd, d + 1, t) {
                    let e = choose|e: int|
                        #![trigger ray_sq(sq, fd, rd, e)]
                        1 <= e < d + 1 && ray_ok(sq, fd, rd, e) && t == ray_sq(sq, fd, rd, e);
                    if e < d {
                        assert(1 <= e < d && ray_ok(sq, fd, rd, e) && t == ray_sq(sq, fd, rd, e));
                    }
                }
                if ray_upto(sq, fd, rd, d, t) {
                    let e = choose|e: int|
                        #![trigger ray_sq(sq, fd, rd, e)]
                        1 <= e < d && ray_ok(sq, fd, rd, e) && t == ray_sq(sq, fd, rd, e);
                    assert(1 <= e < d + 1 && ray_ok(sq, fd, rd, e) && t == ray_sq(sq, fd, rd, e));
                }
                if t == target {
                    assert(1 <= d < d + 1 && ray_ok(sq, fd, rd, d) && t == ray_sq(sq, fd, rd, d));
                }
            }
        }
        if (blocks & (1u64 << target as u64)) != 0 {
            proof {
                assert(bit(blocks, target as int)) by {
                    lemma_bit_single(target as u64, target as int);
                    lemma_bit_ops(blocks, 1u64 << target as u64, target as int);
                    assert(blocks & (1u64 << target as u64) != 0);
                    if !bit(blocks, target as int) {
                        assert forall|u: int| 0 <= u < 64 implies #[trigger] bit(
                            blocks & (1u64 << target as u64),
                            u,
                        ) == bit(0u64, u) by {
                            lemma_bit_ops(blocks, 1u64 << target as u64, u);
                            lemma_bit_single(target as u64, u);
                        }
                        lemma_bit_extensional(blocks & (1u64 << target as u64), 0u64);
                    }
                }
            }
            blocked = true;
        } else {
            proof {
                assert(!bit(blocks, target as int)) by {
                    lemma_bit_single(target as u64, target as int);
                    lemma_bit_ops(blocks, 1u64 << target as u64, target as int);
                    lemma_bit_single(0, target as int);
                }
            }
            rn = rn + dr;
            fnn = fnn + df;
        }
        proof {
            d = d + 1;
        }
    }
    proof {
        assert forall|t: int| 0 <= t < 64 implies #[trigger] bit(res, t) == ray_reaches(
            sq,
            blocks,
            fd,
            rd,
            t,
        ) by {
            assert(bit(res, t) == ray_upto(sq, fd, rd, d, t));
            if ray_upto(sq, fd, rd, d, t) {
                let e = choose|e: int|
                    #![trigger ray_sq(sq, fd, rd, e)]
                    1 <= e < d && ray_ok(sq, fd, rd, e) && t == ray_sq(sq, fd, rd, e);
                assert forall|j: int| 1 <= j < e implies !#[trigger] bit(
                    blocks,
                    ray_sq(sq, fd, rd, j),
                ) by {}
            }
            if ray_reaches(sq, blocks, fd, rd, t) {
                let e = choose|e: int|
                    #![trigger ray_sq(sq, fd, rd, e)]
                    e >= 1 && ray_ok(sq, fd, rd, e) && t == ray_sq(sq, fd, rd, e) && forall|j: int|
                        1 <= j < e ==> !#[trigger] bit(blocks, ray_sq(sq, fd, rd, j));
                if e >= d {
                    if blocked {
                        assert(!bit(blocks, ray_sq(sq, fd, rd, d - 1)));
                    } else {
                        lemma_ray_ok_stays_off(sq, fd, rd, d, e);
                    }
                }
                assert(1 <= e < d && ray_ok(sq, fd, rd, e) && t == ray_sq(sq, fd, rd, e));
            }
        }
    }
    res
}


/// The squares a rook on `square` attacks when the board holds the pieces `blocks`.
pub fn rook_attacks_slow(square: usize, blocks: u64) -> (res: u64)
    requires
        square < 64,
    ensures
        forall|t: int| 0 <= t < 64 ==> #[trigger] bit(res, t) == rook_reaches(square as int, blocks, t),
{
    let n = slide(square, 0, 1, blocks);
    let s = slide(square, 0, -1, blocks);
    let e = slide(square, 1, 0, blocks);
    let w = slide(square, -1, 0, blocks);
    let a = n | s;
    let b = a | e;
    let res = b | w;
    assert forall|t: int| 0 <= t < 64 implies #[trigger] bit(res, t) == rook_reaches(
        square as int,
        blocks,
        t,
    ) by {
        lemma_bit_ops(b, w, t);
        lemma_bit_ops(a, e, t);
        lemma_bit_ops(n, s, t);
    }
    res
}

/// The squares a bishop on `square` attacks when the board holds the pieces `blocks`.
pub fn bishop_attacks_slow(square: usize, blocks: u64) -> (res: u64)
    requires
        square < 64,
    ensures
        forall|t: int|
            0 <= t < 64 ==> #[trigger] bit(res, t) == bishop_reaches(square as int, blocks, t),
{
    let ne = slide(square, 1, 1, blocks);
    let sw = slide(square, -1, -1, blocks);
    let se = slide(square, 1, -1, blocks);
    let nw = slide(square, -1, 1, blocks);
    let a = ne | sw;
    let b = a | se;
    let res = b | nw;
    assert forall|t: int| 0 <= t < 64 implies #[trigger] bit(res, t) == bishop_reaches(
        square as int,
        blocks,
        t,
    ) by {
        lemma_bit_ops(b, nw, t);
        lemma_bit_ops(a, se, t);
        lemma_bit_ops(ne, sw, t);
    }
    res
}

/// The squares strictly inside the board's outer ring.
pub const INNER_BOX: u64 = 0x007e_7e7e_7e7e_7e00u64;

proof fn bv_inner_box(s: u64)
    by (bit_vector)
    requires
        s < 64,
    ensures
        ((INNER_BOX >> s) & 1u64 == 1u64) == (1 <= s % 8 <= 6 && 1 <= s / 8 <= 6),
{
}

pub proof fn lemma_edge_masks(t: int)
    requires
        0 <= t < 64,
    ensures
        bit(INNER_BOX, t) == (1 <= file_of(t) <= 6 && 1 <= rank_of(t) <= 6),
        bit(FILE_A | FILE_H, t) == (file_of(t) == 0 || file_of(t) == 7),
        bit(RANK_1 | RANK_8, t) == (rank_of(t) == 0 || rank_of(t) == 7),
{
    bv_inner_box(t as u64);
    lemma_not_file_masks(t);
    lemma_bit_ops(FILE_A, FILE_H, t);
    lemma_bit_ops(RANK_1, RANK_8, t);
    lemma_bit_rank_mask(0, t);
    lemma_bit_rank_mask(7, t);
    assert(0xffu64 << (8 * 0u64) as u64 == RANK_1 && 0xffu64 << (8 * 7u64) as u64 == RANK_8)
        by (bit_vector);
}

/// The squares whose occupancy matters to a rook on `square`: its rank and file,
/// without the board's edge squares and without `square` itself.
pub fn occupancy_mask_rooks(square: usize) -> (res: u64)
    requires
        square < 64,
    ensures
        forall|t: int|
            0 <= t < 64 ==> #[trigger] bit(res, t) == (t != square && ((rank_of(t) == rank_of(
                square as int,
            ) && 1 <= file_of(t) <= 6) || (file_of(t) == file_of(square as int) && 1 <= rank_of(t)
                <= 6))),
{
    let rank_mask = 0xffu64 << (8 * (square / 8)) as u64;
    let file_mask = FILE_A << (square % 8) as u64;
    let on_rank = rank_mask & !(FILE_A | FILE_H);
    let on_file = file_mask & !(RANK_1 | RANK_8);
    let not_square = !(1u64 << square as u64);
    let both = on_rank | on_file;
    let res = both & not_square;
    assert forall|t: int| 0 <= t < 64 implies #[trigger] bit(res, t) == (t != square && ((rank_of(
        t,
    ) == rank_of(square as int) && 1 <= file_of(t) <= 6) || (file_of(t) == file_of(square as int)
        && 1 <= rank_of(t) <= 6))) by {
        lemma_bit_ops(both, not_square, t);
        lemma_bit_ops(on_rank, on_file, t);
        lemma_bit_ops(rank_mask, !(FILE_A | FILE_H), t);
        lemma_bit_ops(file_mask, !(RANK_1 | RANK_8), t);
        lemma_bit_ops(FILE_A | FILE_H, 0, t);
        lemma_bit_ops(RANK_1 | RANK_8, 0, t);
        lemma_bit_ops(1u64 << square as u64, 0, t);
        lemma_bit_single(square as u64, t);
        lemma_bit_rank_mask((square / 8) as u64, t);
        lemma_bit_file_mask((square % 8) as u64, t);
        lemma_edge_masks(t);
    }
    res
}

/// The squares whose occupancy matters to a bishop on `square`: its diagonals,
/// without the board's edge squares.
pub fn occupancy_mask_bishops(square: usize) -> (res: u64)
    requires
        square < 64,
    ensures
        forall|t: int|
            0 <= t < 64 ==> #[trigger] bit(res, t) == (bishop_reaches(square as int, 0, t) && 1
                <= file_of(t) <= 6 && 1 <= rank_of(t) <= 6),
{
    let rays = bishop_attacks_slow(square, 0u64);
    let res = rays & INNER_BOX;
    assert forall|t: int| 0 <= t < 64 implies #[trigger] bit(res, t) == (bishop_reaches(
        square as int,
        0,
        t,
    ) && 1 <= file_of(t) <= 6 && 1 <= rank_of(t) <= 6) by {
        lemma_bit_ops(rays, INNER_BOX, t);
        lemma_edge_masks(t);
    }
    res
}

/// The index a magic number gives a set of blockers: the top `n_bits` bits of the
/// wrapped product.
pub fn transform(blockers: u64, magic: u64, n_bits: usize) -> (res: usize)
    requires
        1 <= n_bits <= 32,
    ensures
        res as int == blockers.wrapping_mul(magic) >> (64 - n_bits) as u64,
        res < pow2_usize(n_bits),
{
    let product = blockers.wrapping_mul(magic);
    let shifted = product >> (64 - n_bits) as u64;
    let sh = (64 - n_bits) as u64;
    assert(shifted < (1u64 << ((64u64 - sh) as u64))) by (bit_vector)
        requires
            shifted == product >> sh,
            32 <= sh <= 63,
    ;
    proof {
        lemma_pow2_usize(n_bits);
        assert((64u64 - sh) as u64 == n_bits);
    }
    assert(shifted < 0x1_0000_0000u64);
    shifted as usize
}

/// Two to the power `n`, for `n` below 33.
pub open spec fn pow2_usize(n: usize) -> int
    decreases n,
{
    if n == 0 {
        1
    } else {
        2 * pow2_usize((n - 1) as usize)
    }
}

pub proof fn lemma_pow2_usize(n: usize)
    requires
        n <= 32,
    ensures
        (1u64 << n as u64) as int == pow2_usize(n),
        pow2_usize(n) <= 0x1_0000_0000,
    decreases n,
{
    if n == 0 {
        assert(1u64 << 0u64 == 1u64) by (bit_vector);
    } else {
        lemma_pow2_usize((n - 1) as usize);
        let m = (n - 1) as u64;
        assert(1u64 << (m + 1) as u64 == 2 * (1u64 << m) && (1u64 << (m + 1) as u64)
            <= 0x1_0000_0000u64) by (bit_vector)
            requires
                m < 32,
        ;
    }
}

// ---------------------------------------------------------------------------
// Magic lookup tables: the attacks of a slider for every set of blockers on the squares
// that matter to it, stored at the index a magic number gives that set.
// ---------------------------------------------------------------------------

/// Bit `k` of the index `i`.
pub open spec fn index_bit(i: usize, k: int) -> bool {
    0 <= k < 64 && ((i as u64 >> k as u64) & 1u64) == 1u64
}

/// The set of blockers that the index `block_index` stands for: bit `k` of the index
/// says whether the `k`-th lowest square of `mask` holds a blocker; the squares of the
/// mask beyond the first `n_bits` hold none.
pub fn blockers_to_bitboard(block_index: usize, n_bits: usize, mask: u64) -> (res: u64)
    requires
        n_bits <= popcount(mask),
    ensures
        forall|t: int|
            0 <= t < 64 ==> #[trigger] bit(res, t) == (bit(mask, t) && count_bits(mask, t as nat)
                < n_bits && index_bit(block_index, count_bits(mask, t as nat) as int)),
{
    let mut res = 0u64;
    let mut m = mask;
    let mut i: usize = 0;
    proof {
        assert forall|t: int| 0 <= t < 64 implies !#[trigger] bit(res, t) by {
            lemma_bit_single(0, t);
        }
        crate::bitboards::lemma_count_bits_bound(mask, 64);
    }
    while i < n_bits
        invariant
            i <= n_bits <= popcount(mask),
            popcount(mask) <= 64,
            forall|t: int|
                0 <= t < 64 ==> #[trigger] bit(m, t) == (bit(mask, t) && count_bits(mask, t as nat)
                    >= i),
            forall|t: nat|
                t <= 64 ==> #[trigger] count_bits(m, t) == if count_bits(mask, t) >= i {
                    count_bits(mask, t) - i
                } else {
                    0
                },
            forall|t: int|
                0 <= t < 64 ==> #[trigger] bit(res, t) == (bit(mask, t) && count_bits(
                    mask,
                    t as nat,
                ) < i && index_bit(block_index, count_bits(mask, t as nat) as int)),
        decreases n_bits - i,
    {
        proof {
            assert(count_bits(m, 64) == popcount(mask) - i);
            lemma_popcount_nonzero(m);
            vstd::std_specs::bits::axiom_u64_trailing_zeros(m);
        }
        let j = m.trailing_zeros();
        let ghost jj = j as int;
        proof {
            crate::bitboards::lemma_bit_test(m, j as u64);
            assert(bit(m, jj));
            assert forall|k: int| 0 <= k < jj implies !#[trigger] bit(m, k) by {
                assert(((m >> (k as u64)) & 1u64) == 0u64);
            }
            lemma_count_bits_prefix_none(m, jj as nat);
            assert(count_bits(mask, jj as nat) == i);
        }
        let ghost old_m = m;
        let ghost old_res = res;
        m = m & !(1u64 << j as u64);
        let chosen = (block_index as u64 >> i as u64) & 1u64 != 0u64;
        proof {
            let x = block_index as u64 >> i as u64;
            assert(((x & 1u64) != 0u64) == ((x & 1u64) == 1u64)) by (bit_vector);
            assert(chosen == index_bit(block_index, i as int));
        }
        if chosen {
            res = res | (1u64 << j as u64);
        }
        proof {
            assert forall|t: int| 0 <= t < 64 implies #[trigger] bit(m, t) == (bit(old_m, t) && t
                != jj) by {
                lemma_bit_ops(old_m, !(1u64 << j as u64), t);
                lemma_bit_ops(1u64 << j as u64, 0, t);
                lemma_bit_single(j as u64, t);
            }
            assert forall|t: int| 0 <= t < 64 implies #[trigger] bit(m, t) == (bit(mask, t)
                && count_bits(mask, t as nat) >= i + 1) by {
                assert(bit(m, t) == (bit(old_m, t) && t != jj));
                if bit(mask, t) && count_bits(mask, t as nat) >= i && t != jj {
                    if t < jj {
                        assert(!bit(old_m, t));
                    } else {
                        lemma_count_bits_mono(mask, jj as nat, t as nat);
                    }
                }
            }
            assert forall|t: int| 0 <= t < 64 implies #[trigger] bit(old_m ^ (1u64 << j as u64), t)
                == bit(m, t) by {
                lemma_bit_ops(old_m, 1u64 << j as u64, t);
                lemma_bit_single(j as u64, t);
            }
            lemma_bit_extensional(old_m ^ (1u64 << j as u64), m);
            assert forall|t: nat| t <= 64 implies #[trigger] count_bits(m, t) == if count_bits(
                mask,
                t,
            ) >= i + 1 {
                count_bits(mask, t) - (i + 1)
            } else {
                0
            } by {
                lemma_count_bits_toggle(old_m, t, j as u64);
                if jj < t {
                    lemma_count_bits_mono(mask, jj as nat, t);
                } else {
                    lemma_count_bits_mono(mask, t, jj as nat);
                }
            }
            assert forall|t: int| 0 <= t < 64 implies #[trigger] bit(res, t) == (bit(mask, t)
                && count_bits(mask, t as nat) < i + 1 && index_bit(
                block_index,
                count_bits(mask, t as nat) as int,
            )) by {
                lemma_bit_single(j as u64, t);
                if chosen {
                    lemma_bit_ops(old_res, 1u64 << j as u64, t);
                }
                if t != jj && bit(mask, t) && count_bits(mask, t as nat) == i {
                    if t < jj {
                        lemma_count_bits_mono(mask, t as nat, jj as nat);
                    } else {
                        lemma_count_bits_mono(mask, jj as nat, t as nat);
                    }
                }
            }
        }
        i = i + 1;
    }
    res
}

/// The slot a magic number gives a set of blockers in a table of `2^n_bits` entries.
pub open spec fn slot(blockers: u64, magic: u64, n_bits: usize) -> int {
    (blockers.wrapping_mul(magic) >> (64 - n_bits) as u64) as int
}

/// A slot lies within the table.
pub proof fn lemma_slot_bound(blockers: u64, magic: u64, n_bits: usize)
    requires
        1 <= n_bits <= 32,
    ensures
        0 <= slot(blockers, magic, n_bits) < pow2_usize(n_bits),
{
    let product = blockers.wrapping_mul(magic);
    let sh = (64 - n_bits) as u64;
    let shifted = product >> sh;
    assert(shifted < (1u64 << ((64u64 - sh) as u64))) by (bit_vector)
        requires
            shifted == product >> sh,
            32 <= sh <= 63,
    ;
    lemma_pow2_usize(n_bits);
    assert((64u64 - sh) as u64 == n_bits);
}

/// No two of the blocker sets (the first `2^n_bits`) that share a slot under `magic`
/// call for different attacks, an attack board of 0 counting as none.
pub open spec fn magic_fits(magic: u64, n_bits: usize, blockers: Seq<u64>, attacks: Seq<u64>) -> bool {
    forall|k: int, i: int|
        #![trigger blockers[k], blockers[i]]
        0 <= k < i < pow2_usize(n_bits) && slot(blockers[k], magic, n_bits) == slot(
            blockers[i],
            magic,
            n_bits,
        ) && attacks[k] != 0u64 ==> attacks[k] == attacks[i]
}

/// Whether `magic` files every set of blockers in `blockers_by_index` (the first
/// `2^n_bits`) under a slot that no set calling for other attacks shares.
pub fn is_valid_magic(
    magic: u64,
    n_bits: usize,
    blockers_by_index: &[u64],
    attack_table: &[u64],
) -> (res: bool)
    requires
        1 <= n_bits < 32,
        blockers_by_index@.len() >= pow2_usize(n_bits),
        attack_table@.len() >= pow2_usize(n_bits),
    ensures
        res == magic_fits(magic, n_bits, blockers_by_index@, attack_table@),
{
    proof {
        lemma_pow2_usize(n_bits);
        let nb = n_bits as u64;
        assert(nb < 32 ==> (1u64 << nb) < 0x1_0000_0000u64) by (bit_vector);
    }
    let size = (1u64 << n_bits as u64) as usize;
    let mut used: Vec<u64> = Vec::new();
    while used.len() < size
        invariant
            size == pow2_usize(n_bits),
            used.len() <= size,
            forall|j: int| 0 <= j < used.len() ==> used[j] == 0u64,
        decreases size - used.len(),
    {
        used.push(0u64);
    }
    let ghost b = blockers_by_index@;
    let ghost a = attack_table@;
    let mut i: usize = 0;
    while i < size
        invariant
            1 <= n_bits < 32,
            size == pow2_usize(n_bits),
            b == blockers_by_index@,
            a == attack_table@,
            b.len() >= size,
            a.len() >= size,
            used.len() == size,
            i <= size,
            forall|j: int|
                0 <= j < size ==> (#[trigger] used[j] == 0u64) == forall|k: int|
                    0 <= k < i && slot(b[k], magic, n_bits) == j ==> a[k] == 0u64,
            forall|j: int, k: int|
                0 <= j < size && 0 <= k < i && slot(b[k], magic, n_bits) == j && a[k] != 0u64 ==> a[k]
                    == #[trigger] used[j] && #[trigger] b[k] == b[k],
            forall|k: int, k2: int|
                #![trigger b[k], b[k2]]
                0 <= k < k2 < i && slot(b[k], magic, n_bits) == slot(b[k2], magic, n_bits) && a[k]
                    != 0u64 ==> a[k] == a[k2],
        decreases size - i,
    {
        let j = transform(blockers_by_index[i], magic, n_bits);
        let ai = attack_table[i];
        proof {
            assert(j as int == slot(b[i as int], magic, n_bits));
        }
        if used[j] == 0u64 {
            used.set(j, ai);
        } else if used[j] != ai {
            proof {
                assert(!forall|k: int|
                    0 <= k < i && slot(b[k], magic, n_bits) == j ==> a[k] == 0u64);
                let k = choose|k: int|
                    0 <= k < i && slot(b[k], magic, n_bits) == j && a[k] != 0u64;
                assert(b[k] == b[k]);
                assert(a[k] == used[j as int]);
                assert(b[i as int] == b[i as int]);
            }
            return false;
        }
        i = i + 1;
    }
    true
}

/// `b` is the set of blockers that the index `i` stands for over `mask` (as
/// `blockers_to_bitboard` builds it).
pub open spec fn is_blocker_set(b: u64, i: int, n_bits: usize, mask: u64) -> bool {
    forall|t: int|
        0 <= t < 64 ==> #[trigger] bit(b, t) == (bit(mask, t) && count_bits(mask, t as nat) < n_bits
            && index_bit(i as usize, count_bits(mask, t as nat) as int))
}

/// A rook (`rook`) or a bishop on `square` reaches `t` through `blocks`.
pub open spec fn slider_kind_reaches(rook: bool, square: int, blocks: u64, t: int) -> bool {
    if rook {
        rook_reaches(square, blocks, t)
    } else {
        bishop_reaches(square, blocks, t)
    }
}

/// `a` holds the squares a rook (`rook`) or a bishop on `square` reaches through
/// `blocks`.
pub open spec fn is_attack_set(a: u64, rook: bool, square: int, blocks: u64) -> bool {
    forall|t: int| 0 <= t < 64 ==> #[trigger] bit(a, t) == slider_kind_reaches(rook, square, blocks, t)
}

/// `mask` holds the squares whose occupancy matters to a rook (`rook`) or a bishop on
/// `square`: its lines, without the board's edges and without `square`.
pub open spec fn is_occupancy_mask(mask: u64, rook: bool, square: int) -> bool {
    forall|t: int|
        0 <= t < 64 ==> #[trigger] bit(mask, t) == if rook {
            t != square && ((rank_of(t) == rank_of(square) && 1 <= file_of(t) <= 6) || (file_of(t)
                == file_of(square) && 1 <= rank_of(t) <= 6))
        } else {
            bishop_reaches(square, 0, t) && 1 <= file_of(t) <= 6 && 1 <= rank_of(t) <= 6
        }
}

/// The attack table of one square: its occupancy mask, the number of index bits, the
/// magic number and the attacks stored by slot.
pub struct Magic {
    pub occupancy_mask: u64,
    pub shift: usize,
    pub magic_num: u64,
    pub lookup_table: Vec<u64>,
}

/// The table of `m` has an index bit for each square of its mask, and holds, at the slot
/// of each set of blockers that an index stands for, the attacks of a rook (`rook`) or a
/// bishop on `square` through those blockers.
pub open spec fn magic_sound(m: Magic, square: int, rook: bool) -> bool {
    &&& 1 <= m.shift < 32
    &&& popcount(m.occupancy_mask) == m.shift
    &&& m.lookup_table@.len() == pow2_usize(m.shift)
    &&& forall|i: int, b: u64|
        0 <= i < pow2_usize(m.shift) && #[trigger] is_blocker_set(b, i, m.shift, m.occupancy_mask)
            ==> is_attack_set(m.lookup_table@[slot(b, m.magic_num, m.shift)], rook, square, b)
}

impl Magic {
    /// The attacks stored for the blockers of `all_pieces_board` on the mask's squares.
    pub fn get_attacks(&self, all_pieces_board: u64) -> (res: u64)
        requires
            1 <= self.shift < 32,
            self.lookup_table@.len() == pow2_usize(self.shift),
        ensures
            res == self.lookup_table@[slot(
                all_pieces_board & self.occupancy_mask,
                self.magic_num,
                self.shift,
            )],
            forall|square: int, rook: bool|
                0 <= square < 64 && #[trigger] magic_sound(*self, square, rook) && is_occupancy_mask(
                    self.occupancy_mask,
                    rook,
                    square,
                ) ==> is_attack_set(res, rook, square, all_pieces_board),
    {
        let j = transform(all_pieces_board & self.occupancy_mask, self.magic_num, self.shift);
        proof {
            assert forall|square: int, rook: bool|
                0 <= square < 64 && #[trigger] magic_sound(*self, square, rook) && is_occupancy_mask(
                    self.occupancy_mask,
                    rook,
                    square,
                ) implies is_attack_set(
                self.lookup_table@[slot(
                    all_pieces_board & self.occupancy_mask,
                    self.magic_num,
                    self.shift,
                )],
                rook,
                square,
                all_pieces_board,
            ) by {
                lemma_magic_lookup_attacks(*self, square, rook, all_pieces_board);
            }
        }
        self.lookup_table[j]
    }
}

/// A rook or a bishop always reaches some square.
proof fn lemma_slider_reaches_some(rook: bool, square: int, blocks: u64) -> (t: int)
    requires
        0 <= square < 64,
    ensures
        0 <= t < 64,
        slider_kind_reaches(rook, square, blocks, t),
{
    let f = file_of(square);
    let r = rank_of(square);
    let df: int = if f < 7 {
        1
    } else {
        -1
    };
    let dr: int = if r < 7 {
        1
    } else {
        -1
    };
    if rook {
        let t = ray_sq(square, df, 0, 1);
        assert(ray_ok(square, df, 0, 1));
        assert(ray_reaches(square, blocks, df, 0, t));
        t
    } else {
        let t = ray_sq(square, df, dr, 1);
        assert(ray_ok(square, df, dr, 1));
        assert(ray_reaches(square, blocks, df, dr, t));
        t
    }
}

/// The blocker sets of two indices share no slot under `magic`.
pub open spec fn slots_distinct(square: int, rook: bool, n_bits: usize, mask: u64, magic: u64) -> bool {
    forall|k: int, i: int, bk: u64, bi: u64|
        0 <= k < i < pow2_usize(n_bits) && #[trigger] is_blocker_set(bk, k, n_bits, mask)
            && #[trigger] is_blocker_set(bi, i, n_bits, mask) ==> slot(bk, magic, n_bits) != slot(
            bi,
            magic,
            n_bits,
        )
}

/// A magic number fits a square: the mask has `n_bits` squares, and no two sets of
/// blockers on it share a slot.
pub open spec fn square_fits(square: int, rook: bool, n_bits: usize, magic: u64) -> bool {
    forall|mask: u64|
        #[trigger] is_occupancy_mask(mask, rook, square) ==> popcount(mask) == n_bits && slots_distinct(
            square,
            rook,
            n_bits,
            mask,
            magic,
        )
}

/// Two boards with the bits of one blocker index are the same board.
proof fn lemma_blocker_set_unique(b1: u64, b2: u64, i: int, n_bits: usize, mask: u64)
    requires
        is_blocker_set(b1, i, n_bits, mask),
        is_blocker_set(b2, i, n_bits, mask),
    ensures
        b1 == b2,
{
    assert forall|t: int| 0 <= t < 64 implies #[trigger] bit(b1, t) == bit(b2, t) by {
        assert(bit(b1, t) == (bit(mask, t) && count_bits(mask, t as nat) < n_bits && index_bit(
            i as usize,
            count_bits(mask, t as nat) as int,
        )));
        assert(bit(b2, t) == (bit(mask, t) && count_bits(mask, t as nat) < n_bits && index_bit(
            i as usize,
            count_bits(mask, t as nat) as int,
        )));
    }
    lemma_bit_extensional(b1, b2);
}

/// Two masks of one square are the same board.
proof fn lemma_occupancy_mask_unique(m1: u64, m2: u64, rook: bool, square: int)
    requires
        is_occupancy_mask(m1, rook, square),
        is_occupancy_mask(m2, rook, square),
    ensures
        m1 == m2,
{
    assert forall|t: int| 0 <= t < 64 implies #[trigger] bit(m1, t) == bit(m2, t) by {}
    lemma_bit_extensional(m1, m2);
}

/// The attack table of a rook (`rook`) or a bishop on `square` for the magic number
/// `magic_num` and `shift` index bits; `None` where the mask does not have `shift`
/// squares, two sets of blockers meet in one slot, or `shift` is not between 1 and 31.
pub fn build_magic(square: usize, rook: bool, shift: usize, magic_num: u64) -> (res: Option<Magic>)
    requires
        square < 64,
    ensures
        res is None <==> !(1 <= shift < 32 && square_fits(square as int, rook, shift, magic_num)),
        res matches Some(m) ==> {
            &&& is_occupancy_mask(m.occupancy_mask, rook, square as int)
            &&& m.shift == shift
            &&& m.magic_num == magic_num
            &&& magic_sound(m, square as int, rook)
        },
{
    let occupancy_mask = if rook {
        occupancy_mask_rooks(square)
    } else {
        occupancy_mask_bishops(square)
    };
    assert(is_occupancy_mask(occupancy_mask, rook, square as int));
    if occupancy_mask.count_ones() as usize != shift {
        proof {
            assert(!square_fits(square as int, rook, shift, magic_num));
        }
        return None;
    }
    if shift == 0 || shift >= 32 {
        return None;
    }
    proof {
        lemma_pow2_usize(shift);
        let nb = shift as u64;
        assert(nb < 32 ==> (1u64 << nb) < 0x1_0000_0000u64) by (bit_vector);
    }
    let size = (1u64 << shift as u64) as usize;
    let mut blockers_by_index: Vec<u64> = Vec::new();
    let mut attack_table: Vec<u64> = Vec::new();
    while blockers_by_index.len() < size
        invariant
            size == pow2_usize(shift),
            square < 64,
            shift == popcount(occupancy_mask),
            blockers_by_index.len() == attack_table.len(),
            blockers_by_index.len() <= size,
            forall|k: int|
                0 <= k < blockers_by_index.len() ==> #[trigger] is_blocker_set(
                    blockers_by_index[k],
                    k,
                    shift,
                    occupancy_mask,
                ),
            forall|k: int|
                0 <= k < attack_table.len() ==> is_attack_set(
                    #[trigger] attack_table[k],
                    rook,
                    square as int,
                    blockers_by_index[k],
                ),
        decreases size - blockers_by_index.len(),
    {
        let i = blockers_by_index.len();
        let b = blockers_to_bitboard(i, shift, occupancy_mask);
        let a = if rook {
            rook_attacks_slow(square, b)
        } else {
            bishop_attacks_slow(square, b)
        };
        blockers_by_index.push(b);
        attack_table.push(a);
    }
    let mut lookup_table: Vec<u64> = Vec::new();
    while lookup_table.len() < size
        invariant
            lookup_table.len() <= size,
            forall|j: int| 0 <= j < lookup_table.len() ==> lookup_table[j] == 0u64,
        decreases size - lookup_table.len(),
    {
        lookup_table.push(0u64);
    }
    let ghost bs = blockers_by_index@;
    let ghost ats = attack_table@;
    let mut i: usize = 0;
    while i < size
        invariant
            size == pow2_usize(shift),
            1 <= shift < 32,
            square < 64,
            is_occupancy_mask(occupancy_mask, rook, square as int),
            popcount(occupancy_mask) == shift,
            bs == blockers_by_index@,
            ats == attack_table@,
            bs.len() == size,
            ats.len() == size,
            lookup_table.len() == size,
            i <= size,
            forall|k: int|
                0 <= k < size ==> #[trigger] is_blocker_set(bs[k], k, shift, occupancy_mask),
            forall|k: int| 0 <= k < size ==> is_attack_set(#[trigger] ats[k], rook, square as int, bs[k]),
            forall|k: int|
                0 <= k < i ==> #[trigger] lookup_table[slot(bs[k], magic_num, shift)] == ats[k],
            forall|j: int|
                0 <= j < size && #[trigger] lookup_table[j] != 0u64 ==> exists|k: int|
                    0 <= k < i && slot(bs[k], magic_num, shift) == j,
            forall|k: int, k2: int|
                #![trigger bs[k], bs[k2]]
                0 <= k < k2 < i ==> slot(bs[k], magic_num, shift) != slot(bs[k2], magic_num, shift),
        decreases size - i,
    {
        let j = transform(blockers_by_index[i], magic_num, shift);
        proof {
            assert(j as int == slot(bs[i as int], magic_num, shift));
        }
        if lookup_table[j] == 0u64 {
            proof {
                assert forall|k: int| 0 <= k < i implies slot(bs[k], magic_num, shift) != j by {
                    if slot(bs[k], magic_num, shift) == j {
                        let w = lemma_slider_reaches_some(rook, square as int, bs[k]);
                        assert(is_attack_set(ats[k], rook, square as int, bs[k]));
                        assert(bit(ats[k], w));
                        lemma_bit_single(0, w);
                        assert(lookup_table[slot(bs[k], magic_num, shift)] == ats[k]);
                    }
                }
            }
            let a = attack_table[i];
            let ghost before = lookup_table@;
            lookup_table.set(j, a);
            proof {
                assert forall|k: int| 0 <= k < i + 1 implies #[trigger] lookup_table[slot(
                    bs[k],
                    magic_num,
                    shift,
                )] == ats[k] by {
                    lemma_slot_bound(bs[k], magic_num, shift);
                    if k < i {
                        assert(slot(bs[k], magic_num, shift) != j);
                        assert(before[slot(bs[k], magic_num, shift)] == ats[k]);
                    }
                }
            }
        } else {
            proof {
                let k = choose|k: int| 0 <= k < i && slot(bs[k], magic_num, shift) == j;
                assert(is_blocker_set(bs[k], k, shift, occupancy_mask));
                assert(is_blocker_set(bs[i as int], i as int, shift, occupancy_mask));
                if square_fits(square as int, rook, shift, magic_num) {
                    assert(slots_distinct(square as int, rook, shift, occupancy_mask, magic_num));
                }
            }
            return None;
        }
        i = i + 1;
    }
    let m = Magic { occupancy_mask, shift, magic_num, lookup_table };
    proof {
        assert forall|k: int, b: u64|
            0 <= k < pow2_usize(m.shift) && #[trigger] is_blocker_set(b, k, m.shift, m.occupancy_mask)
                implies is_attack_set(m.lookup_table@[slot(b, m.magic_num, m.shift)], rook, square as int, b) by {
            lemma_blocker_set_unique(b, bs[k], k, shift, occupancy_mask);
            lemma_slot_bound(bs[k], magic_num, shift);
            assert(ats[k] == lookup_table[slot(bs[k], magic_num, shift)]);
        }
        assert forall|mask: u64| #[trigger] is_occupancy_mask(mask, rook, square as int) implies popcount(mask) == shift
            && slots_distinct(square as int, rook, shift, mask, magic_num) by {
            lemma_occupancy_mask_unique(mask, occupancy_mask, rook, square as int);
            assert forall|k: int, i2: int, bk: u64, bi: u64|
                0 <= k < i2 < pow2_usize(shift) && #[trigger] is_blocker_set(bk, k, shift, mask)
                    && #[trigger] is_blocker_set(bi, i2, shift, mask) implies slot(bk, magic_num, shift) != slot(
                    bi,
                    magic_num,
                    shift,
                ) by {
                lemma_blocker_set_unique(bk, bs[k], k, shift, occupancy_mask);
                lemma_blocker_set_unique(bi, bs[i2], i2, shift, occupancy_mask);
                assert(bs[k] == bs[k]);
                assert(bs[i2] == bs[i2]);
            }
        }
    }
    Some(m)
}


/// The index bits of the rook table of each square.
pub const ROOK_BITS: [usize; 64] = [
    12, 11, 11, 11, 11, 11, 11, 12, 11, 10, 10, 10, 10, 10, 10, 11, 11, 10, 10, 10, 10, 10, 10, 11,
    11, 10, 10, 10, 10, 10, 10, 11, 11, 10, 10, 10, 10, 10, 10, 11, 11, 10, 10, 10, 10, 10, 10, 11,
    11, 10, 10, 10, 10, 10, 10, 11, 12, 11, 11, 11, 11, 11, 11, 12,
];

/// The index bits of the bishop table of each square.
pub const BISHOP_BITS: [usize; 64] = [
    6, 5, 5, 5, 5, 5, 5, 6, 5, 5, 5, 5, 5, 5, 5, 5, 5, 5, 7, 7, 7, 7, 5, 5, 5, 5, 7, 9, 9, 7, 5, 5,
    5, 5, 7, 9, 9, 7, 5, 5, 5, 5, 7, 7, 7, 7, 5, 5, 5, 5, 5, 5, 5, 5, 5, 5, 6, 5, 5, 5, 5, 5, 5, 6,
];

/// The magic number of the rook table of each square.
pub const MAGIC_NUMS_ROOKS: [u64; 64] = [
    0x2180_0280_1120_4008u64,
    0x2140_0190_0020_00c0u64,
    0x8480_1000_2000_0b80u64,
    0x0080_1000_8006_1800u64,
    0xc100_0800_0403_0010u64,
    0x0200_0844_3012_0001u64,
    0x1880_1100_0680_0200u64,
    0x0100_0062_0080_4100u64,
    0x4084_8002_8040_0020u64,
    0x8400_4000_5000_2000u64,
    0x000d_0010_2001_0342u64,
    0x0020_0401_0200_8040u64,
    0x8000_8024_0081_0800u64,
    0x2922_0028_0410_0a01u64,
    0x4109_002a_0099_000cu64,
    0x4002_0000_840e_0841u64,
    0x0800_8480_0020_4011u64,
    0x0900_4440_0020_1008u64,
    0x5201_0100_2004_9142u64,
    0x0080_6200_09c2_0030u64,
    0x0045_3100_0408_0100u64,
    0x8080_0200_1400u64,
    0x1090_8400_0210_0328u64,
    0x0080_2200_0184_085bu64,
    0x4010_8002_8020u64,
    0x4910_4000_8080_2000u64,
    0x1400_4031_0020_0100u64,
    0x0910_0080_8018_0450u64,
    0x0200_0400_8080_0800u64,
    0x1052_0002_0010_0429u64,
    0x2004_e80c_000a_1110u64,
    0x1423_0001_0000_5282u64,
    0x8088_8340_0080_0aa0u64,
    0x0100_80c0_0080_6000u64,
    0x8010_2000_8280_5002u64,
    0x0821_0100_3000u64,
    0x7040_0802_8080_0400u64,
    0x610c_0041_0040_1200u64,
    0x5700_0108_0400_1002u64,
    0x1000_0080_4200_0904u64,
    0x2104_9460_c000_8000u64,
    0x0410_0140_2000_4002u64,
    0x0201_00a0_0141_0013u64,
    0x0401_0008_1001_0020u64,
    0x4008_0124_0080_8008u64,
    0x0808_2004_4048_0110u64,
    0x1b81_0402_0001_0100u64,
    0x8020_0400_4082_0003u64,
    0x0080_0021_0850_8100u64,
    0x0102_4208_2b00_8200u64,
    0x0801_0040_9020_0100u64,
    0x4003_0020_0810_0100u64,
    0x0008_1800_8044_0080u64,
    0x890c_0004_800a_0080u64,
    0x0104_0201_0810_2400u64,
    0x0041_1110_4084_0200u64,
    0x1010_2016_0100_8042u64,
    0x0127_0024_4001_3181u64,
    0x0102_1042_0922_0082u64,
    0xa011_0090_0124_2009u64,
    0x0081_0002_2800_1085u64,
    0x5022_0010_0801_1c02u64,
    0x0100_8210_0081_0804u64,
    0x0001_0000_2280_d601u64,
];

/// The magic number of the bishop table of each square.
pub const MAGIC_NUMS_BISHOPS: [u64; 64] = [
    0x6040_422a_1408_6080u64,
    0x0004_0848_0040_8020u64,
    0x400c_0802_1044_0010u64,
    0x0044_0420_8000_0000u64,
    0x2610_8820_0210_0a00u64,
    0x9030_080c_0080u64,
    0xc140_8410_4814_8004u64,
    0x0002_0084_4c10_0442u64,
    0x0040_0420_0404_2682u64,
    0x4200_1006_0841_0a28u64,
    0x8020_1005_2a20_2108u64,
    0x800c_0806_0141_0802u64,
    0xc001_0110_4002_0004u64,
    0x0488_8110_0290_2400u64,
    0xa008_0242_1010_6808u64,
    0x1004_a100_e904_2004u64,
    0x2030_0021_02e2_0800u64,
    0x0051_0a58_1021_0042u64,
    0x0068_0104_0808_9830u64,
    0x041c_8008_0204_4200u64,
    0x0004_0040_80a0_4000u64,
    0x4004_0802_0304_0a00u64,
    0x8306_4238_2040u64,
    0x8200_4011_01c2_3040u64,
    0x0008_4002_4810_8110u64,
    0x0004_4400_2028_9080u64,
    0x3008_0404_0800_4050u64,
    0x8004_0040_0401_0002u64,
    0x0921_0040_2404_4016u64,
    0x0201_8408_0202_0a00u64,
    0x2022_2c00_0041_4811u64,
    0x5802_0686_0240_4810u64,
    0x2791_2008_10a2_9848u64,
    0x2650_8210_0008_1000u64,
    0x4150_0048_0322u64,
    0x2041_4018_2006_0200u64,
    0x0001_0202_0024_0104u64,
    0x0001_0802_000c_2212u64,
    0xe002_880a_0000_5200u64,
    0x2001_0622_0040_2100u64,
    0x0052_1050_4400_0850u64,
    0x0204_5908_2080_0818u64,
    0x0001_2014_1008_2a00u64,
    0x0440_0042_0081_0800u64,
    0x0020_0801_0044_2401u64,
    0x200b_2002_1410_0880u64,
    0x2810_1081_0040_0100u64,
    0x8824_6400_5201_1048u64,
    0x4281_0401_1440_0060u64,
    0x9888_2404_0208_001du64,
    0x8060_81c4_0c04_0909u64,
    0x0020_0900_8411_0014u64,
    0x0304_0060_2244_0118u64,
    0x1011_4003_0401_0004u64,
    0x0a10_2001_0410_a048u64,
    0x8110_0208_0900_2809u64,
    0x4001_0022_100c_0413u64,
    0x2800_0201_2501_1014u64,
    0x4608_2400u64,
    0x0060_4084_0084_0401u64,
    0x8001_0200_1002_1204u64,
    0x4c00_1008_1208_4200u64,
    0x2000_0420_440c_1098u64,
    0x0802_200c_0112_0060u64,
];

/// The attack tables of the rooks, square by square, for the magic numbers above; `None`
/// where a number does not fit its square.
pub fn init_magics_rooks() -> (res: Option<Vec<Magic>>)
    ensures
        res is None <==> exists|sq: int|
            0 <= sq < 64 && !(1 <= table_bits(true, sq) < 32 && #[trigger] square_fits(
                sq,
                true,
                table_bits(true, sq),
                table_magic(true, sq),
            )),
        res is Some ==> tables_sound(res->0@, true),
{
    init_magic_tables(true)
}

/// The attack tables of the bishops, square by square, for the magic numbers above;
/// `None` where a number does not fit its square.
pub fn init_magics_bishops() -> (res: Option<Vec<Magic>>)
    ensures
        res is None <==> exists|sq: int|
            0 <= sq < 64 && !(1 <= table_bits(false, sq) < 32 && #[trigger] square_fits(
                sq,
                false,
                table_bits(false, sq),
                table_magic(false, sq),
            )),
        res is Some ==> tables_sound(res->0@, false),
{
    init_magic_tables(false)
}

/// The index bits of the table of `square`.
pub open spec fn table_bits(rook: bool, sq: int) -> usize {
    if rook {
        ROOK_BITS[sq]
    } else {
        BISHOP_BITS[sq]
    }
}

/// The magic number of the table of `square`.
pub open spec fn table_magic(rook: bool, sq: int) -> u64 {
    if rook {
        MAGIC_NUMS_ROOKS[sq]
    } else {
        MAGIC_NUMS_BISHOPS[sq]
    }
}

/// The tables of the 64 squares for rooks (`rook`) or bishops, each for its square's mask,
/// index bits and magic number, and each sound.
pub open spec fn tables_sound(v: Seq<Magic>, rook: bool) -> bool {
    &&& v.len() == 64
    &&& forall|sq: int|
        0 <= sq < 64 ==> {
            &&& is_occupancy_mask(#[trigger] v[sq].occupancy_mask, rook, sq)
            &&& v[sq].shift == table_bits(rook, sq)
            &&& v[sq].magic_num == table_magic(rook, sq)
            &&& magic_sound(v[sq], sq, rook)
        }
}

/// The tables of all squares for rooks (`rook`) or bishops.
fn init_magic_tables(rook: bool) -> (res: Option<Vec<Magic>>)
    ensures
        res is None <==> exists|sq: int|
            0 <= sq < 64 && !(1 <= table_bits(rook, sq) < 32 && #[trigger] square_fits(
                sq,
                rook,
                table_bits(rook, sq),
                table_magic(rook, sq),
            )),
        res is Some ==> tables_sound(res->0@, rook),
{
    let bits = if rook {
        ROOK_BITS
    } else {
        BISHOP_BITS
    };
    let magics = if rook {
        MAGIC_NUMS_ROOKS
    } else {
        MAGIC_NUMS_BISHOPS
    };
    let mut tables: Vec<Magic> = Vec::new();
    let mut square: usize = 0;
    while square < 64
        invariant
            square <= 64,
            tables.len() == square,
            forall|sq: int| 0 <= sq < 64 ==> bits[sq] == table_bits(rook, sq),
            forall|sq: int| 0 <= sq < 64 ==> magics[sq] == table_magic(rook, sq),
            forall|sq: int|
                0 <= sq < square ==> 1 <= table_bits(rook, sq) < 32 && #[trigger] square_fits(
                    sq,
                    rook,
                    table_bits(rook, sq),
                    table_magic(rook, sq),
                ),
            forall|sq: int|
                0 <= sq < square ==> {
                    &&& is_occupancy_mask(#[trigger] tables[sq].occupancy_mask, rook, sq)
                    &&& tables[sq].shift == table_bits(rook, sq)
                    &&& tables[sq].magic_num == table_magic(rook, sq)
                    &&& magic_sound(tables[sq], sq, rook)
                },
        decreases 64 - square,
    {
        match build_magic(square, rook, bits[square], magics[square]) {
            Some(m) => {
                tables.push(m);
            },
            None => {
                proof {
                    assert(!(1 <= table_bits(rook, square as int) < 32 && square_fits(
                        square as int,
                        rook,
                        table_bits(rook, square as int),
                        table_magic(rook, square as int),
                    )));
                }
                return None;
            },
        }
        square = square + 1;
    }
    proof {
        assert forall|sq: int| 0 <= sq < 64 implies {
            &&& is_occupancy_mask(#[trigger] tables[sq].occupancy_mask, rook, sq)
            &&& tables[sq].shift == table_bits(rook, sq)
            &&& tables[sq].magic_num == table_magic(rook, sq)
            &&& magic_sound(tables[sq], sq, rook)
        } by {
            assert(is_occupancy_mask(tables[sq].occupancy_mask, rook, sq));
        }
        assert forall|sq: int| 0 <= sq < 64 implies !!(1 <= table_bits(rook, sq) < 32
            && #[trigger] square_fits(sq, rook, table_bits(rook, sq), table_magic(rook, sq))) by {
        }
    }
    proof {
        assert(tables_sound(tables@, rook));
    }
    Some(tables)
}

/// Every square's table of rooks (`rook`) or bishops has index bits in range and its
/// magic number fits it.
pub open spec fn all_squares_fit(rook: bool) -> bool {
    forall|sq: int|
        0 <= sq < 64 ==> 1 <= table_bits(rook, sq) < 32 && #[trigger] square_fits(
            sq,
            rook,
            table_bits(rook, sq),
            table_magic(rook, sq),
        )
}

/// The attack tables of rooks and of bishops; `None` where a magic number does not fit.
pub fn init_magics() -> (res: Option<(Vec<Magic>, Vec<Magic>)>)
    ensures
        res is None <==> !(all_squares_fit(true) && all_squares_fit(false)),
        res matches Some((r, b)) ==> tables_sound(r@, true) && tables_sound(b@, false),
{
    match init_magics_rooks() {
        Some(r) => match init_magics_bishops() {
            Some(b) => Some((r, b)),
            None => None,
        },
        None => None,
    }
}

/// Two boards with the attacks of one set of blockers are the same board.
proof fn lemma_attack_set_unique(a1: u64, a2: u64, rook: bool, square: int, blocks: u64)
    requires
        is_attack_set(a1, rook, square, blocks),
        is_attack_set(a2, rook, square, blocks),
    ensures
        a1 == a2,
{
    assert forall|t: int| 0 <= t < 64 implies #[trigger] bit(a1, t) == bit(a2, t) by {
        assert(bit(a1, t) == slider_kind_reaches(rook, square, blocks, t));
        assert(bit(a2, t) == slider_kind_reaches(rook, square, blocks, t));
    }
    lemma_bit_extensional(a1, a2);
}

/// A magic number fits a square for checking: any two sets of blockers on the square's
/// mask that share a slot call for the same attacks.
pub open spec fn magic_fits_square(square: int, rook: bool, n_bits: usize, magic: u64) -> bool {
    forall|mask: u64, k: int, i: int, bk: u64, bi: u64, ak: u64, ai: u64|
        #![trigger is_occupancy_mask(mask, rook, square), is_blocker_set(bk, k, n_bits, mask), is_blocker_set(bi, i, n_bits, mask), is_attack_set(ak, rook, square, bk), is_attack_set(ai, rook, square, bi)]
        is_occupancy_mask(mask, rook, square) && 0 <= k < i < pow2_usize(n_bits) && is_blocker_set(
            bk,
            k,
            n_bits,
            mask,
        ) && is_blocker_set(bi, i, n_bits, mask) && slot(bk, magic, n_bits) == slot(bi, magic, n_bits)
            && is_attack_set(ak, rook, square, bk) && is_attack_set(ai, rook, square, bi) ==> ak == ai
}

/// `b` holds the blocker set of each index over `mask`, and `a` the attacks of a rook
/// (`rook`) or a bishop on `square` through each.
pub open spec fn blocker_tables_ok(
    b: Seq<u64>,
    a: Seq<u64>,
    square: int,
    rook: bool,
    shift: usize,
    mask: u64,
) -> bool {
    &&& b.len() == pow2_usize(shift)
    &&& a.len() == pow2_usize(shift)
    &&& forall|k: int|
        0 <= k < pow2_usize(shift) ==> #[trigger] is_blocker_set(b[k], k, shift, mask)
            && is_attack_set(a[k], rook, square, b[k])
}

/// The blocker sets of every index over the mask of `square`, and the attacks of a rook
/// (`rook`) or a bishop on `square` through each.
fn blocker_tables(square: usize, rook: bool, shift: usize, mask: u64) -> (res: (Vec<u64>, Vec<u64>))
    requires
        square < 64,
        1 <= shift < 32,
        shift <= popcount(mask),
    ensures
        blocker_tables_ok(res.0@, res.1@, square as int, rook, shift, mask),
{
    proof {
        lemma_pow2_usize(shift);
        let nb = shift as u64;
        assert(nb < 32 ==> (1u64 << nb) < 0x1_0000_0000u64) by (bit_vector);
    }
    let size = (1u64 << shift as u64) as usize;
    let mut blockers_by_index: Vec<u64> = Vec::new();
    let mut attack_table: Vec<u64> = Vec::new();
    while blockers_by_index.len() < size
        invariant
            size == pow2_usize(shift),
            square < 64,
            shift <= popcount(mask),
            blockers_by_index.len() == attack_table.len(),
            blockers_by_index.len() <= size,
            forall|k: int|
                0 <= k < blockers_by_index.len() ==> #[trigger] is_blocker_set(
                    blockers_by_index[k],
                    k,
                    shift,
                    mask,
                ) && is_attack_set(attack_table[k], rook, square as int, blockers_by_index[k]),
        decreases size - blockers_by_index.len(),
    {
        let i = blockers_by_index.len();
        let b = blockers_to_bitboard(i, shift, mask);
        let a = if rook {
            rook_attacks_slow(square, b)
        } else {
            bishop_attacks_slow(square, b)
        };
        blockers_by_index.push(b);
        attack_table.push(a);
    }
    proof {
        assert(blocker_tables_ok(blockers_by_index@, attack_table@, square as int, rook, shift, mask));
    }
    (blockers_by_index, attack_table)
}

/// Checking a magic number against the tables of a square: the vector check says the
/// same as the check over all blocker sets.
proof fn lemma_magic_fits_tables(
    square: int,
    rook: bool,
    n_bits: usize,
    mask: u64,
    magic: u64,
    b: Seq<u64>,
    a: Seq<u64>,
)
    requires
        0 <= square < 64,
        is_occupancy_mask(mask, rook, square),
        blocker_tables_ok(b, a, square, rook, n_bits, mask),
    ensures
        magic_fits(magic, n_bits, b, a) == magic_fits_square(square, rook, n_bits, magic),
{
    if magic_fits(magic, n_bits, b, a) {
        assert forall|m: u64, k: int, i: int, bk: u64, bi: u64, ak: u64, ai: u64|
            is_occupancy_mask(m, rook, square) && 0 <= k < i < pow2_usize(n_bits)
                && #[trigger] is_blocker_set(bk, k, n_bits, m) && #[trigger] is_blocker_set(
                bi,
                i,
                n_bits,
                m,
            ) && slot(bk, magic, n_bits) == slot(bi, magic, n_bits) && #[trigger] is_attack_set(
                ak,
                rook,
                square,
                bk,
            ) && #[trigger] is_attack_set(ai, rook, square, bi) implies ak == ai by {
            lemma_occupancy_mask_unique(m, mask, rook, square);
            assert(is_blocker_set(b[k], k, n_bits, mask));
            assert(is_blocker_set(b[i], i, n_bits, mask));
            lemma_blocker_set_unique(bk, b[k], k, n_bits, mask);
            lemma_blocker_set_unique(bi, b[i], i, n_bits, mask);
            lemma_attack_set_unique(ak, a[k], rook, square, bk);
            lemma_attack_set_unique(ai, a[i], rook, square, bi);
            let w = lemma_slider_reaches_some(rook, square, bk);
            assert(bit(a[k], w));
            lemma_bit_single(0, w);
            assert(b[k] == b[k] && b[i] == b[i]);
        }
    }
    if magic_fits_square(square, rook, n_bits, magic) {
        assert forall|k: int, i: int|
            #![trigger b[k], b[i]]
            0 <= k < i < pow2_usize(n_bits) && slot(b[k], magic, n_bits) == slot(
                b[i],
                magic,
                n_bits,
            ) && a[k] != 0u64 implies a[k] == a[i] by {
            assert(is_blocker_set(b[k], k, n_bits, mask));
            assert(is_blocker_set(b[i], i, n_bits, mask));
            assert(is_attack_set(a[k], rook, square, b[k]));
            assert(is_attack_set(a[i], rook, square, b[i]));
        }
    }
}

/// Whether `magic` fits the table of a rook (`rook`) or a bishop on `square`; false where
/// the table's index bits are out of range or more than the mask's squares.
fn is_valid_magic_square(magic: u64, square: usize, rook: bool) -> (res: bool)
    requires
        square < 64,
    ensures
        res == (1 <= table_bits(rook, square as int) < 32 && (forall|mask: u64|
            #[trigger] is_occupancy_mask(mask, rook, square as int) ==> table_bits(rook, square as int)
                <= popcount(mask)) && magic_fits_square(
            square as int,
            rook,
            table_bits(rook, square as int),
            magic,
        )),
{
    let shift = if rook {
        ROOK_BITS[square]
    } else {
        BISHOP_BITS[square]
    };
    let mask = if rook {
        occupancy_mask_rooks(square)
    } else {
        occupancy_mask_bishops(square)
    };
    assert(is_occupancy_mask(mask, rook, square as int));
    proof {
        assert forall|m: u64| #[trigger] is_occupancy_mask(m, rook, square as int) implies m == mask by {
            lemma_occupancy_mask_unique(m, mask, rook, square as int);
        }
    }
    if shift == 0 || shift >= 32 || (mask.count_ones() as usize) < shift {
        return false;
    }
    let (b, a) = blocker_tables(square, rook, shift, mask);
    proof {
        lemma_magic_fits_tables(square as int, rook, shift, mask, magic, b@, a@);
    }
    is_valid_magic(magic, shift, b.as_slice(), a.as_slice())
}

/// Whether `magic` fits the rook table of `square`.
pub fn is_valid_magic_square_rook(magic: u64, square: usize) -> (res: bool)
    requires
        square < 64,
    ensures
        res == (1 <= ROOK_BITS[square as int] < 32 && (forall|mask: u64|
            #[trigger] is_occupancy_mask(mask, true, square as int) ==> ROOK_BITS[square as int]
                <= popcount(mask)) && magic_fits_square(
            square as int,
            true,
            ROOK_BITS[square as int],
            magic,
        )),
{
    is_valid_magic_square(magic, square, true)
}

/// Whether `magic` fits the bishop table of `square`.
pub fn is_valid_magic_square_bishop(magic: u64, square: usize) -> (res: bool)
    requires
        square < 64,
    ensures
        res == (1 <= BISHOP_BITS[square as int] < 32 && (forall|mask: u64|
            #[trigger] is_occupancy_mask(mask, false, square as int) ==> BISHOP_BITS[square as int]
                <= popcount(mask)) && magic_fits_square(
            square as int,
            false,
            BISHOP_BITS[square as int],
            magic,
        )),
{
    is_valid_magic_square(magic, square, false)
}

/// A random number (see `rand_u64`).
pub fn random_u64() -> u64 {
    crate::board_representation::zobrist_hashing::rand_u64()
}

/// A random number with few bits set: the conjunction of three random numbers.
pub fn random_u64_fewbits() -> u64 {
    random_u64() & random_u64() & random_u64()
}

/// A magic number, tried at random, that files every set of blockers in
/// `blockers_by_index` under a slot that no set calling for other attacks shares; `None`
/// where none was found in a hundred million tries.
pub fn generate_magic(blockers_by_index: &[u64], attack_table: &[u64], n_bits: usize, occ_mask: u64) -> (res:
    Option<u64>)
    requires
        1 <= n_bits < 32,
        blockers_by_index@.len() >= pow2_usize(n_bits),
        attack_table@.len() >= pow2_usize(n_bits),
    ensures
        res matches Some(m) ==> magic_fits(m, n_bits, blockers_by_index@, attack_table@),
{
    let mut iterations: u32 = 0;
    while iterations < 100_000_000
        invariant
            1 <= n_bits < 32,
            blockers_by_index@.len() >= pow2_usize(n_bits),
            attack_table@.len() >= pow2_usize(n_bits),
        decreases 100_000_000 - iterations,
    {
        iterations = iterations + 1;
        let random_magic = random_u64_fewbits();
        if (occ_mask.wrapping_mul(random_magic) & 0xFF00_0000_0000_0000u64) < 6 {
            continue;
        }
        if is_valid_magic(random_magic, n_bits, blockers_by_index, attack_table) {
            return Some(random_magic);
        }
    }
    None
}

/// A magic number, tried at random, that fits the table of a rook (`rook`) or a bishop on
/// `square`; `None` where the table's index bits are out of range or more than the mask's
/// squares, or no number was found.
pub fn generate_magic_for_square(square: usize, rook: bool) -> (res: Option<u64>)
    requires
        square < 64,
    ensures
        !(1 <= table_bits(rook, square as int) < 32 && (forall|mask: u64|
            #[trigger] is_occupancy_mask(mask, rook, square as int) ==> table_bits(rook, square as int)
                <= popcount(mask))) ==> res is None,
        res matches Some(m) ==> magic_fits_square(square as int, rook, table_bits(rook, square as int), m),
{
    let shift = if rook {
        ROOK_BITS[square]
    } else {
        BISHOP_BITS[square]
    };
    let mask = if rook {
        occupancy_mask_rooks(square)
    } else {
        occupancy_mask_bishops(square)
    };
    assert(is_occupancy_mask(mask, rook, square as int));
    proof {
        assert forall|m: u64| #[trigger] is_occupancy_mask(m, rook, square as int) implies m == mask by {
            lemma_occupancy_mask_unique(m, mask, rook, square as int);
        }
    }
    if shift == 0 || shift >= 32 || (mask.count_ones() as usize) < shift {
        return None;
    }
    let (b, a) = blocker_tables(square, rook, shift, mask);
    let found = generate_magic(b.as_slice(), a.as_slice(), shift, mask);
    proof {
        if found is Some {
            lemma_magic_fits_tables(square as int, rook, shift, mask, found->0, b@, a@);
        }
    }
    found
}

// ---------------------------------------------------------------------------
// Every board meets a sound table: its blockers on the mask are the blockers of some
// index, and the squares off the mask do not change what a slider reaches.
// ---------------------------------------------------------------------------

/// The directions of a rook (`rook`) or a bishop.
pub open spec fn slider_direction(rook: bool, df: int, dr: int) -> bool {
    if rook {
        (df == 0 && (dr == 1 || dr == -1)) || (dr == 0 && (df == 1 || df == -1))
    } else {
        (df == 1 || df == -1) && (dr == 1 || dr == -1)
    }
}

/// The squares strictly inside a ray of a slider lie on its occupancy mask.
proof fn lemma_ray_inside_mask(mask: u64, rook: bool, square: int, df: int, dr: int, d: int, e: int)
    requires
        0 <= square < 64,
        is_occupancy_mask(mask, rook, square),
        slider_direction(rook, df, dr),
        1 <= e < d,
        ray_ok(square, df, dr, d),
    ensures
        bit(mask, ray_sq(square, df, dr, e)),
{
    lemma_ray_ok_shrinks(square, df, dr, d, e);
    lemma_ray_coords(square, df, dr, e);
    lemma_ray_coords(square, df, dr, d);
    let t = ray_sq(square, df, dr, e);
    if !rook {
        assert forall|x: int| 1 <= x < e implies !#[trigger] bit(0u64, ray_sq(square, df, dr, x)) by {
            lemma_bit_single(0, ray_sq(square, df, dr, x));
        }
        assert(ray_reaches(square, 0, df, dr, t));
        assert(bishop_reaches(square, 0, t));
    }
}

/// Through the board or through its squares on the mask, a ray reaches the same squares.
proof fn lemma_ray_through_mask(mask: u64, rook: bool, square: int, occ: u64, df: int, dr: int, t: int)
    requires
        0 <= square < 64,
        is_occupancy_mask(mask, rook, square),
        slider_direction(rook, df, dr),
    ensures
        ray_reaches(square, occ & mask, df, dr, t) == ray_reaches(square, occ, df, dr, t),
{
    if ray_reaches(square, occ & mask, df, dr, t) {
        let d = choose|d: int|
            #![trigger ray_sq(square, df, dr, d)]
            d >= 1 && ray_ok(square, df, dr, d) && t == ray_sq(square, df, dr, d) && forall|e: int|
                1 <= e < d ==> !#[trigger] bit(occ & mask, ray_sq(square, df, dr, e));
        assert forall|e: int| 1 <= e < d implies !#[trigger] bit(occ, ray_sq(square, df, dr, e)) by {
            lemma_ray_inside_mask(mask, rook, square, df, dr, d, e);
            lemma_ray_ok_shrinks(square, df, dr, d, e);
            lemma_ray_coords(square, df, dr, e);
            lemma_bit_ops(occ, mask, ray_sq(square, df, dr, e));
            assert(!bit(occ & mask, ray_sq(square, df, dr, e)));
        }
    }
    if ray_reaches(square, occ, df, dr, t) {
        let d = choose|d: int|
            #![trigger ray_sq(square, df, dr, d)]
            d >= 1 && ray_ok(square, df, dr, d) && t == ray_sq(square, df, dr, d) && forall|e: int|
                1 <= e < d ==> !#[trigger] bit(occ, ray_sq(square, df, dr, e));
        assert forall|e: int| 1 <= e < d implies !#[trigger] bit(occ & mask, ray_sq(square, df, dr, e))
            by {
            lemma_ray_ok_shrinks(square, df, dr, d, e);
            lemma_ray_coords(square, df, dr, e);
            lemma_bit_ops(occ, mask, ray_sq(square, df, dr, e));
            assert(!bit(occ, ray_sq(square, df, dr, e)));
        }
    }
}

/// Through the board or through its squares on the mask, a slider reaches the same squares.
proof fn lemma_reach_through_mask(mask: u64, rook: bool, square: int, occ: u64, t: int)
    requires
        0 <= square < 64,
        is_occupancy_mask(mask, rook, square),
    ensures
        slider_kind_reaches(rook, square, occ & mask, t) == slider_kind_reaches(rook, square, occ, t),
{
    if rook {
        lemma_ray_through_mask(mask, rook, square, occ, 0, 1, t);
        lemma_ray_through_mask(mask, rook, square, occ, 0, -1, t);
        lemma_ray_through_mask(mask, rook, square, occ, 1, 0, t);
        lemma_ray_through_mask(mask, rook, square, occ, -1, 0, t);
    } else {
        lemma_ray_through_mask(mask, rook, square, occ, 1, 1, t);
        lemma_ray_through_mask(mask, rook, square, occ, -1, -1, t);
        lemma_ray_through_mask(mask, rook, square, occ, 1, -1, t);
        lemma_ray_through_mask(mask, rook, square, occ, -1, 1, t);
    }
}

/// The index whose bits name the squares of `b` among the first `t` squares of `mask`:
/// bit `k` for the `k`-th lowest square of the mask.
pub open spec fn index_of_blockers(b: u64, mask: u64, t: nat) -> u64
    decreases t,
{
    if t == 0 {
        0u64
    } else {
        let prev = index_of_blockers(b, mask, (t - 1) as nat);
        if bit(b, t - 1) && bit(mask, t - 1) {
            prev | (1u64 << count_bits(mask, (t - 1) as nat) as u64)
        } else {
            prev
        }
    }
}

/// The bits of the index of a set of blockers.
proof fn lemma_index_of_blockers_bits(b: u64, mask: u64, t: nat, k: int)
    requires
        t <= 64,
        0 <= k < 64,
    ensures
        bit(index_of_blockers(b, mask, t), k) == exists|x: int|
            0 <= x < t && bit(b, x) && bit(mask, x) && #[trigger] count_bits(mask, x as nat) == k,
    decreases t,
{
    if t == 0 {
        lemma_bit_single(0, k);
    } else {
        let x0 = t - 1;
        lemma_index_of_blockers_bits(b, mask, (t - 1) as nat, k);
        let prev = index_of_blockers(b, mask, (t - 1) as nat);
        crate::bitboards::lemma_count_bits_bound(mask, x0 as nat);
        let c = count_bits(mask, x0 as nat);
        if bit(b, x0) && bit(mask, x0) {
            lemma_bit_ops(prev, 1u64 << c as u64, k);
            lemma_bit_single(c as u64, k);
        }
        if exists|x: int|
            0 <= x < t && bit(b, x) && bit(mask, x) && #[trigger] count_bits(mask, x as nat) == k {
            let x = choose|x: int|
                0 <= x < t && bit(b, x) && bit(mask, x) && #[trigger] count_bits(mask, x as nat) == k;
            if x < x0 {
                assert(exists|y: int|
                    0 <= y < t - 1 && bit(b, y) && bit(mask, y) && #[trigger] count_bits(mask, y as nat)
                        == k);
            }
        }
    }
}

/// Every set of blockers on the mask is the set of blockers of some index.
proof fn lemma_blockers_have_an_index(b: u64, mask: u64, n: usize) -> (i: int)
    requires
        n == popcount(mask),
        1 <= n < 32,
        forall|t: int| 0 <= t < 64 && #[trigger] bit(b, t) ==> bit(mask, t),
    ensures
        0 <= i < pow2_usize(n),
        is_blocker_set(b, i, n, mask),
{
    let x = index_of_blockers(b, mask, 64);
    // No bit at or above `n`.
    assert forall|k: int| n <= k < 64 implies !#[trigger] bit(x, k) by {
        lemma_index_of_blockers_bits(b, mask, 64, k);
        if bit(x, k) {
            let y = choose|y: int|
                0 <= y < 64 && bit(b, y) && bit(mask, y) && #[trigger] count_bits(mask, y as nat) == k;
            lemma_count_bits_mono(mask, y as nat, 64);
        }
    }
    let nb = n as u64;
    assert forall|t: int| 0 <= t < 64 implies !#[trigger] bit(x >> nb, t) by {
        crate::bitboards::lemma_bit_shr(x, nb, t);
    }
    crate::bitboards::lemma_zero_board(x >> nb);
    assert(x < (1u64 << nb)) by (bit_vector)
        requires
            x >> nb == 0u64,
            nb < 32,
    ;
    lemma_pow2_usize(n);
    assert(nb < 32 ==> (1u64 << nb) < 0x1_0000_0000u64) by (bit_vector);
    let i = x as int;
    assert((i as usize) as u64 == x);
    assert forall|t: int| 0 <= t < 64 implies #[trigger] bit(b, t) == (bit(mask, t) && count_bits(
        mask,
        t as nat,
    ) < n && index_bit(i as usize, count_bits(mask, t as nat) as int)) by {
        let k = count_bits(mask, t as nat) as int;
        crate::bitboards::lemma_count_bits_bound(mask, t as nat);
        lemma_index_of_blockers_bits(b, mask, 64, k);
        if bit(mask, t) {
            lemma_count_bits_mono(mask, t as nat, 64);
        }
        if bit(b, t) {
            assert(bit(mask, t));
            assert(count_bits(mask, t as nat) == k);
        }
        if bit(mask, t) && bit(x, k) {
            let y = choose|y: int|
                0 <= y < 64 && bit(b, y) && bit(mask, y) && #[trigger] count_bits(mask, y as nat) == k;
            if y < t {
                lemma_count_bits_mono(mask, y as nat, t as nat);
            } else if t < y {
                lemma_count_bits_mono(mask, t as nat, y as nat);
            }
        }
    }
    i
}

/// The tables built for all squares give, for every square and every board, the squares a
/// rook (`rook`) or a bishop on that square reaches through the board's pieces.
pub proof fn lemma_magic_tables_attacks(v: Seq<Magic>, rook: bool, sq: int, occ: u64)
    requires
        tables_sound(v, rook),
        0 <= sq < 64,
    ensures
        is_attack_set(
            v[sq].lookup_table@[slot(occ & v[sq].occupancy_mask, v[sq].magic_num, v[sq].shift)],
            rook,
            sq,
            occ,
        ),
{
    lemma_magic_lookup_attacks(v[sq], sq, rook, occ);
}

/// A sound table gives, for every board, the squares the slider reaches through it: the
/// entry at the slot of the board's blockers on the mask.
pub proof fn lemma_magic_lookup_attacks(m: Magic, square: int, rook: bool, occ: u64)
    requires
        0 <= square < 64,
        magic_sound(m, square, rook),
        is_occupancy_mask(m.occupancy_mask, rook, square),
    ensures
        is_attack_set(
            m.lookup_table@[slot(occ & m.occupancy_mask, m.magic_num, m.shift)],
            rook,
            square,
            occ,
        ),
{
    let mask = m.occupancy_mask;
    let b = occ & mask;
    assert forall|t: int| 0 <= t < 64 && #[trigger] bit(b, t) implies bit(mask, t) by {
        lemma_bit_ops(occ, mask, t);
    }
    let i = lemma_blockers_have_an_index(b, mask, m.shift);
    assert(is_attack_set(m.lookup_table@[slot(b, m.magic_num, m.shift)], rook, square, b));
    assert forall|t: int| 0 <= t < 64 implies #[trigger] bit(
        m.lookup_table@[slot(b, m.magic_num, m.shift)],
        t,
    ) == slider_kind_reaches(rook, square, occ, t) by {
        lemma_reach_through_mask(mask, rook, square, occ, t);
    }
}

} // verus!
