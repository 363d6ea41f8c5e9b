use crate::move_generation::magic::{
    bishop_attacks_slow, bishop_reaches, rook_attacks_slow, rook_reaches,
};
use vstd::prelude::*;

verus! {

// ---------------------------------------------------------------------------
// The model: a bitboard is the set of squares whose bit is set.
// Square `sq` (0..64) lies on file `sq % 8` (a..h) and rank `sq / 8` (1..8).
// ---------------------------------------------------------------------------

/// Square `sq` is occupied in bitboard `b`.
pub open spec fn bit(b: u64, sq: int) -> bool {
    0 <= sq < 64 && ((b >> (sq as u64)) & 1u64) == 1u64
}

pub open spec fn file_of(sq: int) -> int {
    sq % 8
}

pub open spec fn rank_of(sq: int) -> int {
    sq / 8
}

pub open spec fn is_square(sq: int) -> bool {
    0 <= sq < 64
}

/// Two squares are one king step apart.
pub open spec fn king_adjacent(s: int, t: int) -> bool {
    &&& is_square(s)
    &&& is_square(t)
    &&& s != t
    &&& -1 <= file_of(s) - file_of(t) <= 1
    &&& -1 <= rank_of(s) - rank_of(t) <= 1
}

/// Two squares are one knight jump apart.
pub open spec fn knight_adjacent(s: int, t: int) -> bool {
    let df = file_of(s) - file_of(t);
    let dr = rank_of(s) - rank_of(t);
    &&& is_square(s)
    &&& is_square(t)
    &&& ((df == 1 || df == -1) && (dr == 2 || dr == -2) || (df == 2 || df == -2) && (dr == 1
        || dr == -1))
}

// ---------------------------------------------------------------------------
// Bit-level facts, each proved by the bit-vector solver.
// ---------------------------------------------------------------------------

proof fn bv_shl(b: u64, k: u64, s: u64)
    by (bit_vector)
    requires
        k < 64,
        s < 64,
    ensures
        ((b << k) >> s) & 1u64 == if s >= k {
            (b >> ((s - k) as u64)) & 1u64
        } else {
            0u64
        },
{
}

proof fn bv_shr(b: u64, k: u64, s: u64)
    by (bit_vector)
    requires
        k < 64,
        s < 64,
    ensures
        ((b >> k) >> s) & 1u64 == if s + k < 64 {
            (b >> ((s + k) as u64)) & 1u64
        } else {
            0u64
        },
{
}

proof fn bv_and_or_xor_not(a: u64, b: u64, s: u64)
    by (bit_vector)
    requires
        s < 64,
    ensures
        (((a & b) >> s) & 1u64 == 1u64) == (((a >> s) & 1u64 == 1u64) && ((b >> s) & 1u64
            == 1u64)),
        (((a | b) >> s) & 1u64 == 1u64) == (((a >> s) & 1u64 == 1u64) || ((b >> s) & 1u64
            == 1u64)),
        (((a ^ b) >> s) & 1u64 == 1u64) == (((a >> s) & 1u64 == 1u64) != ((b >> s) & 1u64
            == 1u64)),
        (((!a) >> s) & 1u64 == 1u64) == !((a >> s) & 1u64 == 1u64),
        ((a >> s) & 1u64 == 1u64) || ((a >> s) & 1u64 == 0u64),
{
}

proof fn bv_single(k: u64, s: u64)
    by (bit_vector)
    requires
        k < 64,
        s < 64,
    ensures
        (((1u64 << k) >> s) & 1u64 == 1u64) == (s == k),
        ((0u64 >> s) & 1u64) == 0u64,
{
}

proof fn bv_file_mask(f: u64, s: u64)
    by (bit_vector)
    requires
        f < 8,
        s < 64,
    ensures
        (((0x0101_0101_0101_0101u64 << f) >> s) & 1u64 == 1u64) == (s % 8 == f),
{
}

proof fn bv_rank_mask(r: u64, s: u64)
    by (bit_vector)
    requires
        r < 8,
        s < 64,
    ensures
        (((0xffu64 << (8 * r)) >> s) & 1u64 == 1u64) == (s / 8 == r),
{
}

proof fn bv_xor_zero(a: u64, b: u64)
    by (bit_vector)
    ensures
        (a ^ b == 0u64) == (a == b),
{
}

// ---------------------------------------------------------------------------
// The same facts, stated over the model.
// ---------------------------------------------------------------------------

pub proof fn lemma_bit_shl(b: u64, k: u64, t: int)
    requires
        k < 64,
        0 <= t < 64,
    ensures
        bit(b << k, t) == (t >= k && bit(b, t - k)),
{
    bv_shl(b, k, t as u64);
}

pub proof fn lemma_bit_shr(b: u64, k: u64, t: int)
    requires
        k < 64,
        0 <= t < 64,
    ensures
        bit(b >> k, t) == (t + k < 64 && bit(b, t + k)),
{
    bv_shr(b, k, t as u64);
}

pub proof fn lemma_bit_ops(a: u64, b: u64, t: int)
    requires
        0 <= t < 64,
    ensures
        bit(a & b, t) == (bit(a, t) && bit(b, t)),
        bit(a | b, t) == (bit(a, t) || bit(b, t)),
        bit(a ^ b, t) == (bit(a, t) != bit(b, t)),
        bit(!a, t) == !bit(a, t),
{
    bv_and_or_xor_not(a, b, t as u64);
}

/// The bits of an exclusive or, as a fact the solver applies by itself.
pub broadcast proof fn lemma_bit_xor_auto(a: u64, b: u64, t: int)
    requires
        0 <= t < 64,
    ensures
        #[trigger] bit(a ^ b, t) == (bit(a, t) != bit(b, t)),
{
    bv_and_or_xor_not(a, b, t as u64);
}

/// The bits of a conjunction, as a fact the solver applies by itself.
pub broadcast proof fn lemma_bit_and_auto(a: u64, b: u64, t: int)
    ensures
        #[trigger] bit(a & b, t) == (bit(a, t) && bit(b, t)),
{
    if 0 <= t < 64 {
        bv_and_or_xor_not(a, b, t as u64);
    }
}

/// The bits of a disjunction, as a fact the solver applies by itself.
pub broadcast proof fn lemma_bit_or_auto(a: u64, b: u64, t: int)
    ensures
        #[trigger] bit(a | b, t) == (bit(a, t) || bit(b, t)),
{
    if 0 <= t < 64 {
        bv_and_or_xor_not(a, b, t as u64);
    }
}

/// The bits of a complement, as a fact the solver applies by itself.
pub broadcast proof fn lemma_bit_not_auto(a: u64, t: int)
    ensures
        #[trigger] bit(!a, t) == (0 <= t < 64 && !bit(a, t)),
{
    if 0 <= t < 64 {
        bv_and_or_xor_not(a, a, t as u64);
    }
}

/// The bits of a single square, as a fact the solver applies by itself.
pub broadcast proof fn lemma_bit_single_auto(k: u64, t: int)
    requires
        k < 64,
    ensures
        #[trigger] bit(1u64 << k, t) == (t == k),
{
    if 0 <= t < 64 {
        bv_single(k, t as u64);
    }
}

/// The empty board holds no square, as a fact the solver applies by itself.
pub broadcast proof fn lemma_bit_zero_auto(t: int)
    ensures
        !#[trigger] bit(0u64, t),
{
    if 0 <= t < 64 {
        bv_single(0, t as u64);
    }
}

/// The facts on the bits of the bitwise operations.
pub broadcast group group_bit_ops {
    lemma_bit_and_auto,
    lemma_bit_or_auto,
    lemma_bit_not_auto,
    lemma_bit_xor_auto,
    lemma_bit_single_auto,
    lemma_bit_zero_auto,
}

pub proof fn lemma_bit_single(k: u64, t: int)
    requires
        k < 64,
    ensures
        bit(1u64 << k, t) == (t == k),
        !bit(0u64, t),
{
    if 0 <= t < 64 {
        bv_single(k, t as u64);
    }
}

pub proof fn lemma_bit_file_mask(f: u64, t: int)
    requires
        f < 8,
        0 <= t < 64,
    ensures
        bit(0x0101_0101_0101_0101u64 << f, t) == (file_of(t) == f),
{
    bv_file_mask(f, t as u64);
}

pub proof fn lemma_bit_rank_mask(r: u64, t: int)
    requires
        r < 8,
        0 <= t < 64,
    ensures
        bit(0xffu64 << (8 * r) as u64, t) == (rank_of(t) == r),
{
    bv_rank_mask(r, t as u64);
}

/// Two bitboards with the same squares are equal.
pub proof fn lemma_bit_extensional(a: u64, b: u64)
    requires
        forall|t: int| 0 <= t < 64 ==> #[trigger] bit(a, t) == bit(b, t),
    ensures
        a == b,
{
    if a != b {
        let c = a ^ b;
        bv_xor_zero(a, b);
        vstd::std_specs::bits::axiom_u64_trailing_zeros(c);
        let s = vstd::std_specs::bits::u64_trailing_zeros(c) as int;
        lemma_bit_ops(a, b, s);
        assert(bit(a, s) == bit(b, s));
    }
}

// ---------------------------------------------------------------------------
// One-step shifts.
// ---------------------------------------------------------------------------

pub const FILE_A: u64 = 0x0101_0101_0101_0101u64;

pub const FILE_H: u64 = 0x8080_8080_8080_8080u64;

pub const NOT_FILE_A: u64 = 0xfefe_fefe_fefe_fefeu64;

pub const NOT_FILE_H: u64 = 0x7f7f_7f7f_7f7f_7f7fu64;

pub const RANK_1: u64 = 0xffu64;

pub const RANK_8: u64 = 0xff00_0000_0000_0000u64;

pub proof fn lemma_not_file_masks(t: int)
    requires
        0 <= t < 64,
    ensures
        bit(NOT_FILE_A, t) == (file_of(t) != 0),
        bit(NOT_FILE_H, t) == (file_of(t) != 7),
        bit(FILE_A, t) == (file_of(t) == 0),
        bit(FILE_H, t) == (file_of(t) == 7),
{
    lemma_bit_file_mask(0, t);
    lemma_bit_file_mask(7, t);
    assert(FILE_A << 0u64 == FILE_A) by (bit_vector);
    assert(FILE_A << 7u64 == FILE_H) by (bit_vector);
    assert(NOT_FILE_A == !FILE_A) by (bit_vector);
    assert(NOT_FILE_H == !FILE_H) by (bit_vector);
    lemma_bit_ops(FILE_A, FILE_A, t);
    lemma_bit_ops(FILE_H, FILE_H, t);
}

/// Every piece one rank up (north); pieces on rank 8 leave the board.
pub fn north_one(board: u64) -> (res: u64)
    ensures
        forall|t: int|
            0 <= t < 64 ==> #[trigger] bit(res, t) == (rank_of(t) >= 1 && bit(board, t - 8)),
{
    let res = board << 8u64;
    assert forall|t: int| 0 <= t < 64 implies #[trigger] bit(res, t) == (rank_of(t) >= 1 && bit(
        board,
        t - 8,
    )) by {
        lemma_bit_shl(board, 8, t);
    }
    res
}

/// Every piece one rank down (south); pieces on rank 1 leave the board.
pub fn south_one(board: u64) -> (res: u64)
    ensures
        forall|t: int|
            0 <= t < 64 ==> #[trigger] bit(res, t) == (rank_of(t) <= 6 && bit(board, t + 8)),
{
    let res = board >> 8u64;
    assert forall|t: int| 0 <= t < 64 implies #[trigger] bit(res, t) == (rank_of(t) <= 6 && bit(
        board,
        t + 8,
    )) by {
        lemma_bit_shr(board, 8, t);
    }
    res
}

/// Every piece one file to the east (towards the h-file); pieces on the h-file leave the board.
pub fn east_one(board: u64) -> (res: u64)
    ensures
        forall|t: int|
            0 <= t < 64 ==> #[trigger] bit(res, t) == (file_of(t) >= 1 && bit(board, t - 1)),
{
    let res = (board & NOT_FILE_H) << 1u64;
    assert forall|t: int| 0 <= t < 64 implies #[trigger] bit(res, t) == (file_of(t) >= 1 && bit(
        board,
        t - 1,
    )) by {
        lemma_bit_shl(board & NOT_FILE_H, 1, t);
        if t >= 1 {
            lemma_bit_ops(board, NOT_FILE_H, t - 1);
            lemma_not_file_masks(t - 1);
        }
    }
    res
}

/// Every piece one file to the west (towards the a-file); pieces on the a-file leave the board.
pub fn west_one(board: u64) -> (res: u64)
    ensures
        forall|t: int|
            0 <= t < 64 ==> #[trigger] bit(res, t) == (file_of(t) <= 6 && bit(board, t + 1)),
{
    let res = (board & NOT_FILE_A) >> 1u64;
    assert forall|t: int| 0 <= t < 64 implies #[trigger] bit(res, t) == (file_of(t) <= 6 && bit(
        board,
        t + 1,
    )) by {
        lemma_bit_shr(board & NOT_FILE_A, 1, t);
        if t + 1 < 64 {
            lemma_bit_ops(board, NOT_FILE_A, t + 1);
            lemma_not_file_masks(t + 1);
        }
    }
    res
}

/// Every piece one step north-east.
pub fn north_east_one(board: u64) -> (res: u64)
    ensures
        forall|t: int|
            0 <= t < 64 ==> #[trigger] bit(res, t) == (rank_of(t) >= 1 && file_of(t) >= 1 && bit(
                board,
                t - 9,
            )),
{
    let res = (board & NOT_FILE_H) << 9u64;
    assert forall|t: int| 0 <= t < 64 implies #[trigger] bit(res, t) == (rank_of(t) >= 1
        && file_of(t) >= 1 && bit(board, t - 9)) by {
        lemma_bit_shl(board & NOT_FILE_H, 9, t);
        if t >= 9 {
            lemma_bit_ops(board, NOT_FILE_H, t - 9);
            lemma_not_file_masks(t - 9);
        }
    }
    res
}

/// Every piece one step north-west.
pub fn north_west_one(board: u64) -> (res: u64)
    ensures
        forall|t: int|
            0 <= t < 64 ==> #[trigger] bit(res, t) == (rank_of(t) >= 1 && file_of(t) <= 6 && bit(
                board,
                t - 7,
            )),
{
    let res = (board & NOT_FILE_A) << 7u64;
    assert forall|t: int| 0 <= t < 64 implies #[trigger] bit(res, t) == (rank_of(t) >= 1
        && file_of(t) <= 6 && bit(board, t - 7)) by {
        lemma_bit_shl(board & NOT_FILE_A, 7, t);
        if t >= 7 {
            lemma_bit_ops(board, NOT_FILE_A, t - 7);
            lemma_not_file_masks(t - 7);
        }
    }
    res
}

/// Every piece one step south-east.
pub fn south_east_one(board: u64) -> (res: u64)
    ensures
        forall|t: int|
            0 <= t < 64 ==> #[trigger] bit(res, t) == (rank_of(t) <= 6 && file_of(t) >= 1 && bit(
                board,
                t + 7,
            )),
{
    let res = (board & NOT_FILE_H) >> 7u64;
    assert forall|t: int| 0 <= t < 64 implies #[trigger] bit(res, t) == (rank_of(t) <= 6
        && file_of(t) >= 1 && bit(board, t + 7)) by {
        lemma_bit_shr(board & NOT_FILE_H, 7, t);
        if t + 7 < 64 {
            lemma_bit_ops(board, NOT_FILE_H, t + 7);
            lemma_not_file_masks(t + 7);
        }
    }
    res
}

/// Every piece one step south-west.
pub fn south_west_one(board: u64) -> (res: u64)
    ensures
        forall|t: int|
            0 <= t < 64 ==> #[trigger] bit(res, t) == (rank_of(t) <= 6 && file_of(t) <= 6 && bit(
                board,
                t + 9,
            )),
{
    let res = (board & NOT_FILE_A) >> 9u64;
    assert forall|t: int| 0 <= t < 64 implies #[trigger] bit(res, t) == (rank_of(t) <= 6
        && file_of(t) <= 6 && bit(board, t + 9)) by {
        lemma_bit_shr(board & NOT_FILE_A, 9, t);
        if t + 9 < 64 {
            lemma_bit_ops(board, NOT_FILE_A, t + 9);
            lemma_not_file_masks(t + 9);
        }
    }
    res
}


// ---------------------------------------------------------------------------
// Fills and spans.
// ---------------------------------------------------------------------------

/// A piece of `gen` on `s` lies on the file of `t`, on the same rank or below it.
pub open spec fn on_file_at_or_below(gen: u64, t: int) -> bool {
    exists|s: int| #[trigger] bit(gen, s) && file_of(s) == file_of(t) && rank_of(s) <= rank_of(t)
}

/// A piece of `gen` on `s` lies on the file of `t`, on the same rank or above it.
pub open spec fn on_file_at_or_above(gen: u64, t: int) -> bool {
    exists|s: int| #[trigger] bit(gen, s) && file_of(s) == file_of(t) && rank_of(s) >= rank_of(t)
}

/// A piece of `gen` on `s` lies on the file of `t`, strictly below it.
pub open spec fn on_file_below(gen: u64, t: int) -> bool {
    exists|s: int| #[trigger] bit(gen, s) && file_of(s) == file_of(t) && rank_of(s) < rank_of(t)
}

/// A piece of `gen` on `s` lies on the file of `t`, strictly above it.
pub open spec fn on_file_above(gen: u64, t: int) -> bool {
    exists|s: int| #[trigger] bit(gen, s) && file_of(s) == file_of(t) && rank_of(s) > rank_of(t)
}

/// A piece of `gen` lies on the file of `t`.
pub open spec fn on_file(gen: u64, t: int) -> bool {
    exists|s: int| #[trigger] bit(gen, s) && file_of(s) == file_of(t)
}

proof fn lemma_below_by_steps(gen: u64, t: int)
    requires
        0 <= t < 64,
    ensures
        on_file_at_or_below(gen, t) == (bit(gen, t) || bit(gen, t - 8) || bit(gen, t - 16) || bit(
            gen,
            t - 24,
        ) || bit(gen, t - 32) || bit(gen, t - 40) || bit(gen, t - 48) || bit(gen, t - 56)),
{
    if on_file_at_or_below(gen, t) {
        let s = choose|s: int|
            #[trigger] bit(gen, s) && file_of(s) == file_of(t) && rank_of(s) <= rank_of(t);
        assert(s == t || s == t - 8 || s == t - 16 || s == t - 24 || s == t - 32 || s == t - 40
            || s == t - 48 || s == t - 56);
    }
    if bit(gen, t) {
        assert(bit(gen, t) && file_of(t) == file_of(t) && rank_of(t) <= rank_of(t));
    }
    if bit(gen, t - 8) {
        assert(bit(gen, t - 8) && file_of(t - 8) == file_of(t) && rank_of(t - 8) <= rank_of(t));
    }
    if bit(gen, t - 16) {
        assert(bit(gen, t - 16) && file_of(t - 16) == file_of(t) && rank_of(t - 16) <= rank_of(t));
    }
    if bit(gen, t - 24) {
        assert(bit(gen, t - 24) && file_of(t - 24) == file_of(t) && rank_of(t - 24) <= rank_of(t));
    }
    if bit(gen, t - 32) {
        assert(bit(gen, t - 32) && file_of(t - 32) == file_of(t) && rank_of(t - 32) <= rank_of(t));
    }
    if bit(gen, t - 40) {
        assert(bit(gen, t - 40) && file_of(t - 40) == file_of(t) && rank_of(t - 40) <= rank_of(t));
    }
    if bit(gen, t - 48) {
        assert(bit(gen, t - 48) && file_of(t - 48) == file_of(t) && rank_of(t - 48) <= rank_of(t));
    }
    if bit(gen, t - 56) {
        assert(bit(gen, t - 56) && file_of(t - 56) == file_of(t) && rank_of(t - 56) <= rank_of(t));
    }
}

proof fn lemma_above_by_steps(gen: u64, t: int)
    requires
        0 <= t < 64,
    ensures
        on_file_at_or_above(gen, t) == (bit(gen, t) || bit(gen, t + 8) || bit(gen, t + 16) || bit(
            gen,
            t + 24,
        ) || bit(gen, t + 32) || bit(gen, t + 40) || bit(gen, t + 48) || bit(gen, t + 56)),
{
    if on_file_at_or_above(gen, t) {
        let s = choose|s: int|
            #[trigger] bit(gen, s) && file_of(s) == file_of(t) && rank_of(s) >= rank_of(t);
        assert(s == t || s == t + 8 || s == t + 16 || s == t + 24 || s == t + 32 || s == t + 40
            || s == t + 48 || s == t + 56);
    }
    if bit(gen, t) {
        assert(bit(gen, t) && file_of(t) == file_of(t) && rank_of(t) >= rank_of(t));
    }
    if bit(gen, t + 8) {
        assert(bit(gen, t + 8) && file_of(t + 8) == file_of(t) && rank_of(t + 8) >= rank_of(t));
    }
    if bit(gen, t + 16) {
        assert(bit(gen, t + 16) && file_of(t + 16) == file_of(t) && rank_of(t + 16) >= rank_of(t));
    }
    if bit(gen, t + 24) {
        assert(bit(gen, t + 24) && file_of(t + 24) == file_of(t) && rank_of(t + 24) >= rank_of(t));
    }
    if bit(gen, t + 32) {
        assert(bit(gen, t + 32) && file_of(t + 32) == file_of(t) && rank_of(t + 32) >= rank_of(t));
    }
    if bit(gen, t + 40) {
        assert(bit(gen, t + 40) && file_of(t + 40) == file_of(t) && rank_of(t + 40) >= rank_of(t));
    }
    if bit(gen, t + 48) {
        assert(bit(gen, t + 48) && file_of(t + 48) == file_of(t) && rank_of(t + 48) >= rank_of(t));
    }
    if bit(gen, t + 56) {
        assert(bit(gen, t + 56) && file_of(t + 56) == file_of(t) && rank_of(t + 56) >= rank_of(t));
    }
}

/// Every piece smeared northwards over the rest of its file (the piece's own square included).
pub fn nort_fill(gen: u64) -> (res: u64)
    ensures
        forall|t: int| 0 <= t < 64 ==> #[trigger] bit(res, t) == on_file_at_or_below(gen, t),
{
    let g1 = gen | (gen << 8u64);
    let g2 = g1 | (g1 << 16u64);
    let g3 = g2 | (g2 << 32u64);
    assert forall|t: int| 0 <= t < 64 implies #[trigger] bit(g3, t) == on_file_at_or_below(
        gen,
        t,
    ) by {
        lemma_below_by_steps(gen, t);
        lemma_bit_ops(g2, g2 << 32u64, t);
        lemma_bit_shl(g2, 32, t);
        assert forall|u: int| 0 <= u < 64 implies #[trigger] bit(g2, u) == (bit(g1, u) || (u >= 16
            && bit(g1, u - 16))) by {
            lemma_bit_ops(g1, g1 << 16u64, u);
            lemma_bit_shl(g1, 16, u);
        }
        assert forall|u: int| 0 <= u < 64 implies #[trigger] bit(g1, u) == (bit(gen, u) || (u >= 8
            && bit(gen, u - 8))) by {
            lemma_bit_ops(gen, gen << 8u64, u);
            lemma_bit_shl(gen, 8, u);
        }
    }
    g3
}

/// Every piece smeared southwards over the rest of its file (the piece's own square included).
pub fn sout_fill(gen: u64) -> (res: u64)
    ensures
        forall|t: int| 0 <= t < 64 ==> #[trigger] bit(res, t) == on_file_at_or_above(gen, t),
{
    let g1 = gen | (gen >> 8u64);
    let g2 = g1 | (g1 >> 16u64);
    let g3 = g2 | (g2 >> 32u64);
    assert forall|t: int| 0 <= t < 64 implies #[trigger] bit(g3, t) == on_file_at_or_above(
        gen,
        t,
    ) by {
        lemma_above_by_steps(gen, t);
        lemma_bit_ops(g2, g2 >> 32u64, t);
        lemma_bit_shr(g2, 32, t);
        assert forall|u: int| 0 <= u < 64 implies #[trigger] bit(g2, u) == (bit(g1, u) || (u + 16
            < 64 && bit(g1, u + 16))) by {
            lemma_bit_ops(g1, g1 >> 16u64, u);
            lemma_bit_shr(g1, 16, u);
        }
        assert forall|u: int| 0 <= u < 64 implies #[trigger] bit(g1, u) == (bit(gen, u) || (u + 8
            < 64 && bit(gen, u + 8))) by {
            lemma_bit_ops(gen, gen >> 8u64, u);
            lemma_bit_shr(gen, 8, u);
        }
    }
    g3
}

/// Every file that holds a piece of `gen`, filled completely.
pub fn file_fill(gen: u64) -> (res: u64)
    ensures
        forall|t: int| 0 <= t < 64 ==> #[trigger] bit(res, t) == on_file(gen, t),
{
    let n = nort_fill(gen);
    let s = sout_fill(gen);
    let res = n | s;
    assert forall|t: int| 0 <= t < 64 implies #[trigger] bit(res, t) == on_file(gen, t) by {
        lemma_bit_ops(n, s, t);
        assert(bit(n, t) == on_file_at_or_below(gen, t));
        assert(bit(s, t) == on_file_at_or_above(gen, t));
        if on_file(gen, t) {
            let w = choose|w: int| #[trigger] bit(gen, w) && file_of(w) == file_of(t);
            if rank_of(w) <= rank_of(t) {
                assert(bit(gen, w) && file_of(w) == file_of(t) && rank_of(w) <= rank_of(t));
            } else {
                assert(bit(gen, w) && file_of(w) == file_of(t) && rank_of(w) >= rank_of(t));
            }
        }
    }
    res
}

/// The squares in front of the white pawns (north of them, on their files).
pub fn w_front_span(wpawns: u64) -> (res: u64)
    ensures
        forall|t: int| 0 <= t < 64 ==> #[trigger] bit(res, t) == on_file_below(wpawns, t),
{
    let f = nort_fill(wpawns);
    let res = north_one(f);
    assert forall|t: int| 0 <= t < 64 implies #[trigger] bit(res, t) == on_file_below(wpawns, t) by {
        if rank_of(t) >= 1 {
            assert(bit(f, t - 8) == on_file_at_or_below(wpawns, t - 8));
            if on_file_below(wpawns, t) {
                let w = choose|w: int|
                    #[trigger] bit(wpawns, w) && file_of(w) == file_of(t) && rank_of(w) < rank_of(
                        t,
                    );
                assert(file_of(w) == file_of(t - 8) && rank_of(w) <= rank_of(t - 8));
            }
            if on_file_at_or_below(wpawns, t - 8) {
                let w = choose|w: int|
                    #[trigger] bit(wpawns, w) && file_of(w) == file_of(t - 8) && rank_of(w)
                        <= rank_of(t - 8);
                assert(file_of(w) == file_of(t) && rank_of(w) < rank_of(t));
            }
        } else {
            if on_file_below(wpawns, t) {
                let w = choose|w: int|
                    #[trigger] bit(wpawns, w) && file_of(w) == file_of(t) && rank_of(w) < rank_of(
                        t,
                    );
                assert(false);
            }
        }
    }
    res
}

/// The squares in front of the black pawns (south of them, on their files).
pub fn b_front_span(bpawns: u64) -> (res: u64)
    ensures
        forall|t: int| 0 <= t < 64 ==> #[trigger] bit(res, t) == on_file_above(bpawns, t),
{
    let f = sout_fill(bpawns);
    let res = south_one(f);
    assert forall|t: int| 0 <= t < 64 implies #[trigger] bit(res, t) == on_file_above(bpawns, t) by {
        if rank_of(t) <= 6 {
            assert(bit(f, t + 8) == on_file_at_or_above(bpawns, t + 8));
            if on_file_above(bpawns, t) {
                let w = choose|w: int|
                    #[trigger] bit(bpawns, w) && file_of(w) == file_of(t) && rank_of(w) > rank_of(
                        t,
                    );
                assert(file_of(w) == file_of(t + 8) && rank_of(w) >= rank_of(t + 8));
            }
            if on_file_at_or_above(bpawns, t + 8) {
                let w = choose|w: int|
                    #[trigger] bit(bpawns, w) && file_of(w) == file_of(t + 8) && rank_of(w)
                        >= rank_of(t + 8);
                assert(file_of(w) == file_of(t) && rank_of(w) > rank_of(t));
            }
        } else {
            if on_file_above(bpawns, t) {
                let w = choose|w: int|
                    #[trigger] bit(bpawns, w) && file_of(w) == file_of(t) && rank_of(w) > rank_of(
                        t,
                    );
                assert(false);
            }
        }
    }
    res
}

/// The squares behind the white pawns (south of them, on their files).
pub fn w_rear_span(wpawns: u64) -> (res: u64)
    ensures
        forall|t: int| 0 <= t < 64 ==> #[trigger] bit(res, t) == on_file_above(wpawns, t),
{
    b_front_span(wpawns)
}

/// The squares behind the black pawns (north of them, on their files).
pub fn b_rear_span(bpawns: u64) -> (res: u64)
    ensures
        forall|t: int| 0 <= t < 64 ==> #[trigger] bit(res, t) == on_file_below(bpawns, t),
{
    w_front_span(bpawns)
}


// ---------------------------------------------------------------------------
// King and knight attacks.
// ---------------------------------------------------------------------------

/// Some piece of `b` is one king step away from `t`.
pub open spec fn king_attacks_square(b: u64, t: int) -> bool {
    exists|s: int| #[trigger] bit(b, s) && king_adjacent(s, t)
}

/// Some piece of `b` is one knight jump away from `t`.
pub open spec fn knight_attacks_square(b: u64, t: int) -> bool {
    exists|s: int| #[trigger] bit(b, s) && knight_adjacent(s, t)
}

#[verifier::spinoff_prover]
#[verifier::rlimit(80)]
proof fn lemma_king_neighbours(b: u64, t: int)
    requires
        0 <= t < 64,
    ensures
        king_attacks_square(b, t) == ((file_of(t) >= 1 && bit(b, t - 1)) || (file_of(t) <= 6
            && bit(b, t + 1)) || (rank_of(t) <= 6 && (bit(b, t + 8) || (file_of(t) >= 1 && bit(
            b,
            t + 7,
        )) || (file_of(t) <= 6 && bit(b, t + 9)))) || (rank_of(t) >= 1 && (bit(b, t - 8) || (
        file_of(t) >= 1 && bit(b, t - 9)) || (file_of(t) <= 6 && bit(b, t - 7))))),
{
    if king_attacks_square(b, t) {
        let s = choose|s: int| #[trigger] bit(b, s) && king_adjacent(s, t);
        assert(s == t - 1 || s == t + 1 || s == t + 8 || s == t + 7 || s == t + 9 || s == t - 8
            || s == t - 9 || s == t - 7);
    }
    if file_of(t) >= 1 && bit(b, t - 1) {
        assert(bit(b, t - 1) && king_adjacent(t - 1, t));
    }
    if file_of(t) <= 6 && bit(b, t + 1) {
        assert(bit(b, t + 1) && king_adjacent(t + 1, t));
    }
    if rank_of(t) <= 6 && bit(b, t + 8) {
        assert(bit(b, t + 8) && king_adjacent(t + 8, t));
    }
    if rank_of(t) <= 6 && file_of(t) >= 1 && bit(b, t + 7) {
        assert(bit(b, t + 7) && king_adjacent(t + 7, t));
    }
    if rank_of(t) <= 6 && file_of(t) <= 6 && bit(b, t + 9) {
        assert(bit(b, t + 9) && king_adjacent(t + 9, t));
    }
    if rank_of(t) >= 1 && bit(b, t - 8) {
        assert(bit(b, t - 8) && king_adjacent(t - 8, t));
    }
    if rank_of(t) >= 1 && file_of(t) >= 1 && bit(b, t - 9) {
        assert(bit(b, t - 9) && king_adjacent(t - 9, t));
    }
    if rank_of(t) >= 1 && file_of(t) <= 6 && bit(b, t - 7) {
        assert(bit(b, t - 7) && king_adjacent(t - 7, t));
    }
}

/// All squares one king step away from some piece of `king_board`.
#[verifier::spinoff_prover]
#[verifier::rlimit(50)]
pub fn king_attack(king_board: u64) -> (res: u64)
    ensures
        forall|t: int| 0 <= t < 64 ==> #[trigger] bit(res, t) == king_attacks_square(king_board, t),
{
    let mut king_board = king_board;
    let ghost b = king_board;
    let e = east_one(king_board);
    let w = west_one(king_board);
    let mut attacks = e | w;
    king_board = king_board | attacks;
    let s = south_one(king_board);
    let n = north_one(king_board);
    attacks = attacks | (s | n);
    proof {
        let a1 = e | w;
        let kb = b | a1;
        assert forall|u: int| 0 <= u < 64 implies #[trigger] bit(kb, u) == (bit(b, u) || (file_of(
            u,
        ) >= 1 && bit(b, u - 1)) || (file_of(u) <= 6 && bit(b, u + 1))) by {
            lemma_bit_ops(b, a1, u);
            lemma_bit_ops(e, w, u);
        }
        assert forall|t: int| 0 <= t < 64 implies #[trigger] bit(attacks, t)
            == king_attacks_square(b, t) by {
            lemma_bit_ops(a1, s | n, t);
            lemma_bit_ops(s, n, t);
            lemma_bit_ops(e, w, t);
            lemma_king_neighbours(b, t);
            if rank_of(t) <= 6 {
                assert(bit(kb, t + 8) || !bit(kb, t + 8));
            }
            if rank_of(t) >= 1 {
                assert(bit(kb, t - 8) || !bit(kb, t - 8));
            }
        }
    }
    attacks
}

#[verifier::spinoff_prover]
#[verifier::rlimit(100)]
proof fn lemma_knight_neighbours(b: u64, t: int)
    requires
        0 <= t < 64,
    ensures
        knight_attacks_square(b, t) == ((rank_of(t) >= 2 && file_of(t) >= 1 && bit(b, t - 17)) || (
        rank_of(t) >= 2 && file_of(t) <= 6 && bit(b, t - 15)) || (rank_of(t) <= 5 && file_of(t)
            >= 1 && bit(b, t + 15)) || (rank_of(t) <= 5 && file_of(t) <= 6 && bit(b, t + 17)) || (
        rank_of(t) >= 1 && file_of(t) >= 2 && bit(b, t - 10)) || (rank_of(t) >= 1 && file_of(t)
            <= 5 && bit(b, t - 6)) || (rank_of(t) <= 6 && file_of(t) >= 2 && bit(b, t + 6)) || (
        rank_of(t) <= 6 && file_of(t) <= 5 && bit(b, t + 10))),
{
    if knight_attacks_square(b, t) {
        let s = choose|s: int| #[trigger] bit(b, s) && knight_adjacent(s, t);
        assert(s == t - 17 || s == t - 15 || s == t + 15 || s == t + 17 || s == t - 10 || s == t
            - 6 || s == t + 6 || s == t + 10);
    }
    if rank_of(t) >= 2 && file_of(t) >= 1 && bit(b, t - 17) {
        assert(bit(b, t - 17) && knight_adjacent(t - 17, t));
    }
    if rank_of(t) >= 2 && file_of(t) <= 6 && bit(b, t - 15) {
        assert(bit(b, t - 15) && knight_adjacent(t - 15, t));
    }
    if rank_of(t) <= 5 && file_of(t) >= 1 && bit(b, t + 15) {
        assert(bit(b, t + 15) && knight_adjacent(t + 15, t));
    }
    if rank_of(t) <= 5 && file_of(t) <= 6 && bit(b, t + 17) {
        assert(bit(b, t + 17) && knight_adjacent(t + 17, t));
    }
    if rank_of(t) >= 1 && file_of(t) >= 2 && bit(b, t - 10) {
        assert(bit(b, t - 10) && knight_adjacent(t - 10, t));
    }
    if rank_of(t) >= 1 && file_of(t) <= 5 && bit(b, t - 6) {
        assert(bit(b, t - 6) && knight_adjacent(t - 6, t));
    }
    if rank_of(t) <= 6 && file_of(t) >= 2 && bit(b, t + 6) {
        assert(bit(b, t + 6) && knight_adjacent(t + 6, t));
    }
    if rank_of(t) <= 6 && file_of(t) <= 5 && bit(b, t + 10) {
        assert(bit(b, t + 10) && knight_adjacent(t + 10, t));
    }
}

/// All squares one knight jump away from some piece of `knight`.
#[verifier::spinoff_prover]
#[verifier::rlimit(80)]
pub fn knight_attack(knight: u64) -> (res: u64)
    ensures
        forall|t: int| 0 <= t < 64 ==> #[trigger] bit(res, t) == knight_attacks_square(knight, t),
{
    let mut east = east_one(knight);
    let mut west = west_one(knight);
    let ew1 = east | west;
    let mut attacks = ew1 << 16u64;
    attacks = attacks | (ew1 >> 16u64);
    let ghost e1 = east;
    let ghost w1 = west;
    let ghost a1 = attacks;
    east = east_one(east);
    west = west_one(west);
    let ew2 = east | west;
    attacks = attacks | (ew2 << 8u64);
    let ghost a2 = attacks;
    attacks = attacks | (ew2 >> 8u64);
    proof {
        assert forall|u: int| 0 <= u < 64 implies #[trigger] bit(ew1, u) == ((file_of(u) >= 1
            && bit(knight, u - 1)) || (file_of(u) <= 6 && bit(knight, u + 1))) by {
            lemma_bit_ops(e1, w1, u);
        }
        assert forall|u: int| 0 <= u < 64 implies #[trigger] bit(ew2, u) == ((file_of(u) >= 2
            && bit(knight, u - 2)) || (file_of(u) <= 5 && bit(knight, u + 2))) by {
            lemma_bit_ops(east, west, u);
            if file_of(u) >= 1 {
                assert(bit(e1, u - 1) == (file_of(u - 1) >= 1 && bit(knight, u - 2)));
            }
            if file_of(u) <= 6 {
                assert(bit(w1, u + 1) == (file_of(u + 1) <= 6 && bit(knight, u + 2)));
            }
        }
        assert forall|t: int| 0 <= t < 64 implies #[trigger] bit(attacks, t)
            == knight_attacks_square(knight, t) by {
            lemma_bit_ops(a2, ew2 >> 8u64, t);
            lemma_bit_ops(a1, ew2 << 8u64, t);
            lemma_bit_ops(ew1 << 16u64, ew1 >> 16u64, t);
            lemma_bit_shl(ew1, 16, t);
            lemma_bit_shr(ew1, 16, t);
            lemma_bit_shl(ew2, 8, t);
            lemma_bit_shr(ew2, 8, t);
            lemma_knight_neighbours(knight, t);
            if t >= 16 {
                assert(bit(ew1, t - 16) || !bit(ew1, t - 16));
            }
            if t + 16 < 64 {
                assert(bit(ew1, t + 16) || !bit(ew1, t + 16));
            }
            if t >= 8 {
                assert(bit(ew2, t - 8) || !bit(ew2, t - 8));
            }
            if t + 8 < 64 {
                assert(bit(ew2, t + 8) || !bit(ew2, t + 8));
            }
        }
    }
    attacks
}


// ---------------------------------------------------------------------------
// Tables of files, ranks and squares.
// ---------------------------------------------------------------------------

/// `res[f]` holds exactly the squares of file `f`.
pub fn initialize_files() -> (res: [u64; 8])
    ensures
        forall|f: int, t: int|
            0 <= f < 8 && 0 <= t < 64 ==> #[trigger] bit(res[f], t) == (file_of(t) == f),
{
    let mut res = [0u64; 8];
    let mut file: usize = 0;
    while file < 8
        invariant
            file <= 8,
            forall|f: int, t: int|
                0 <= f < file && 0 <= t < 64 ==> #[trigger] bit(res[f], t) == (file_of(t) == f),
        decreases 8 - file,
    {
        if file == 0 {
            let first: u64 = 1u64 | 1u64 << 8u64 | 1u64 << 16u64 | 1u64 << 24u64 | 1u64 << 32u64
                | 1u64 << 40u64 | 1u64 << 48u64 | 1u64 << 56u64;
            assert(first == FILE_A << 0u64) by (bit_vector)
                requires
                    first == 1u64 | 1u64 << 8u64 | 1u64 << 16u64 | 1u64 << 24u64 | 1u64 << 32u64
                        | 1u64 << 40u64 | 1u64 << 48u64 | 1u64 << 56u64,
            ;
            res[0] = first;
            assert forall|t: int| 0 <= t < 64 implies #[trigger] bit(res[0], t) == (file_of(t)
                == 0) by {
                lemma_bit_file_mask(0, t);
            }
        } else {
            let prev = res[file - 1];
            res[file] = prev << 1u64;
            assert forall|t: int| 0 <= t < 64 implies #[trigger] bit(res[file as int], t) == (
            file_of(t) == file) by {
                lemma_bit_shl(prev, 1, t);
                if t >= 1 {
                    assert(bit(prev, t - 1) == (file_of(t - 1) == file - 1));
                }
            }
        }
        file += 1;
    }
    res
}

/// `res[f]` holds exactly the squares off file `f`.
pub fn initialize_not_files() -> (res: [u64; 8])
    ensures
        forall|f: int, t: int|
            0 <= f < 8 && 0 <= t < 64 ==> #[trigger] bit(res[f], t) == (file_of(t) != f),
{
    let files = initialize_files();
    let mut res = [0u64; 8];
    let mut file: usize = 0;
    while file < 8
        invariant
            file <= 8,
            forall|f: int, t: int|
                0 <= f < 8 && 0 <= t < 64 ==> #[trigger] bit(files[f], t) == (file_of(t) == f),
            forall|f: int, t: int|
                0 <= f < file && 0 <= t < 64 ==> #[trigger] bit(res[f], t) == (file_of(t) != f),
        decreases 8 - file,
    {
        res[file] = !files[file];
        assert forall|t: int| 0 <= t < 64 implies #[trigger] bit(res[file as int], t) == (file_of(
            t,
        ) != file) by {
            lemma_bit_ops(files[file as int], files[file as int], t);
            assert(bit(files[file as int], t) == (file_of(t) == file));
        }
        file += 1;
    }
    res
}

/// `res[r]` holds exactly the squares of rank `r`.
pub fn initialize_ranks() -> (res: [u64; 8])
    ensures
        forall|r: int, t: int|
            0 <= r < 8 && 0 <= t < 64 ==> #[trigger] bit(res[r], t) == (rank_of(t) == r),
{
    let mut res = [0u64; 8];
    let mut rank: usize = 0;
    while rank < 8
        invariant
            rank <= 8,
            forall|r: int, t: int|
                0 <= r < rank && 0 <= t < 64 ==> #[trigger] bit(res[r], t) == (rank_of(t) == r),
        decreases 8 - rank,
    {
        if rank == 0 {
            let first: u64 = 1u64 | 1u64 << 1u64 | 1u64 << 2u64 | 1u64 << 3u64 | 1u64 << 4u64
                | 1u64 << 5u64 | 1u64 << 6u64 | 1u64 << 7u64;
            assert(first == 0xffu64 << 0u64) by (bit_vector)
                requires
                    first == 1u64 | 1u64 << 1u64 | 1u64 << 2u64 | 1u64 << 3u64 | 1u64 << 4u64
                        | 1u64 << 5u64 | 1u64 << 6u64 | 1u64 << 7u64,
            ;
            res[0] = first;
            assert forall|t: int| 0 <= t < 64 implies #[trigger] bit(res[0], t) == (rank_of(t)
                == 0) by {
                lemma_bit_rank_mask(0, t);
            }
        } else {
            let prev = res[rank - 1];
            res[rank] = prev << 8u64;
            assert forall|t: int| 0 <= t < 64 implies #[trigger] bit(res[rank as int], t) == (
            rank_of(t) == rank) by {
                lemma_bit_shl(prev, 8, t);
                if t >= 8 {
                    assert(bit(prev, t - 8) == (rank_of(t - 8) == rank - 1));
                }
            }
        }
        rank += 1;
    }
    res
}

/// `res[sq]` holds exactly square `sq`.
pub fn initialize_squares() -> (res: [u64; 64])
    ensures
        forall|sq: int, t: int|
            0 <= sq < 64 && 0 <= t < 64 ==> #[trigger] bit(res[sq], t) == (t == sq),
{
    let mut res = [0u64; 64];
    let mut sq: usize = 0;
    while sq < 64
        invariant
            sq <= 64,
            forall|q: int, t: int|
                0 <= q < sq && 0 <= t < 64 ==> #[trigger] bit(res[q], t) == (t == q),
        decreases 64 - sq,
    {
        res[sq] = 1u64 << sq as u64;
        assert forall|t: int| 0 <= t < 64 implies #[trigger] bit(res[sq as int], t) == (t == sq) by {
            lemma_bit_single(sq as u64, t);
        }
        sq += 1;
    }
    res
}

/// `res[sq]` holds every square but `sq`.
pub fn initialize_not_squares() -> (res: [u64; 64])
    ensures
        forall|sq: int, t: int|
            0 <= sq < 64 && 0 <= t < 64 ==> #[trigger] bit(res[sq], t) == (t != sq),
{
    let mut res = [0u64; 64];
    let mut sq: usize = 0;
    while sq < 64
        invariant
            sq <= 64,
            forall|q: int, t: int|
                0 <= q < sq && 0 <= t < 64 ==> #[trigger] bit(res[q], t) == (t != q),
        decreases 64 - sq,
    {
        res[sq] = !(1u64 << sq as u64);
        assert forall|t: int| 0 <= t < 64 implies #[trigger] bit(res[sq as int], t) == (t != sq) by {
            lemma_bit_single(sq as u64, t);
            lemma_bit_ops(1u64 << sq as u64, 0, t);
        }
        sq += 1;
    }
    res
}

/// `res[sq]` holds the squares a king on `sq` attacks.
pub fn init_king_attacks() -> (res: [u64; 64])
    ensures
        forall|sq: int, t: int|
            0 <= sq < 64 && 0 <= t < 64 ==> #[trigger] bit(res[sq], t) == king_adjacent(sq, t),
{
    let mut res = [0u64; 64];
    let mut sq: usize = 0;
    while sq < 64
        invariant
            sq <= 64,
            forall|q: int, t: int|
                0 <= q < sq && 0 <= t < 64 ==> #[trigger] bit(res[q], t) == king_adjacent(q, t),
        decreases 64 - sq,
    {
        let b = 1u64 << sq as u64;
        res[sq] = king_attack(b);
        assert forall|t: int| 0 <= t < 64 implies #[trigger] bit(res[sq as int], t)
            == king_adjacent(sq as int, t) by {
            assert(bit(res[sq as int], t) == king_attacks_square(b, t));
            lemma_bit_single(sq as u64, sq as int);
            if king_attacks_square(b, t) {
                let s = choose|s: int| #[trigger] bit(b, s) && king_adjacent(s, t);
                lemma_bit_single(sq as u64, s);
            }
            if king_adjacent(sq as int, t) {
                assert(bit(b, sq as int) && king_adjacent(sq as int, t));
            }
        }
        sq += 1;
    }
    res
}

/// `res[sq]` holds the squares a knight on `sq` attacks.
pub fn init_knight_attacks() -> (res: [u64; 64])
    ensures
        forall|sq: int, t: int|
            0 <= sq < 64 && 0 <= t < 64 ==> #[trigger] bit(res[sq], t) == knight_adjacent(sq, t),
{
    let mut res = [0u64; 64];
    let mut sq: usize = 0;
    while sq < 64
        invariant
            sq <= 64,
            forall|q: int, t: int|
                0 <= q < sq && 0 <= t < 64 ==> #[trigger] bit(res[q], t) == knight_adjacent(q, t),
        decreases 64 - sq,
    {
        let b = 1u64 << sq as u64;
        res[sq] = knight_attack(b);
        assert forall|t: int| 0 <= t < 64 implies #[trigger] bit(res[sq as int], t)
            == knight_adjacent(sq as int, t) by {
            assert(bit(res[sq as int], t) == knight_attacks_square(b, t));
            lemma_bit_single(sq as u64, sq as int);
            if knight_attacks_square(b, t) {
                let s = choose|s: int| #[trigger] bit(b, s) && knight_adjacent(s, t);
                lemma_bit_single(sq as u64, s);
            }
            if knight_adjacent(sq as int, t) {
                assert(bit(b, sq as int) && knight_adjacent(sq as int, t));
            }
        }
        sq += 1;
    }
    res
}


/// `res[f]` holds the squares on files strictly west of file `f`.
pub fn init_files_less_than() -> (res: [u64; 8])
    ensures
        forall|f: int, t: int|
            0 <= f < 8 && 0 <= t < 64 ==> #[trigger] bit(res[f], t) == (file_of(t) < f),
{
    let files = initialize_files();
    let mut res = [0u64; 8];
    let mut f: usize = 0;
    while f < 8
        invariant
            f <= 8,
            forall|g: int, t: int|
                0 <= g < 8 && 0 <= t < 64 ==> #[trigger] bit(files[g], t) == (file_of(t) == g),
            forall|g: int, t: int|
                0 <= g < f && 0 <= t < 64 ==> #[trigger] bit(res[g], t) == (file_of(t) < g),
        decreases 8 - f,
    {
        let mut item = 0u64;
        let mut g: usize = 0;
        proof {
            assert forall|t: int| 0 <= t < 64 implies #[trigger] bit(item, t) == (file_of(t) < g) by {
                lemma_bit_single(0, t);
            }
        }
        while g < f
            invariant
                g <= f < 8,
                forall|h: int, t: int|
                    0 <= h < 8 && 0 <= t < 64 ==> #[trigger] bit(files[h], t) == (file_of(t) == h),
                forall|t: int| 0 <= t < 64 ==> #[trigger] bit(item, t) == (file_of(t) < g),
            decreases f - g,
        {
            let old_item = item;
            item = item | files[g];
            assert forall|t: int| 0 <= t < 64 implies #[trigger] bit(item, t) == (file_of(t) < g
                + 1) by {
                lemma_bit_ops(old_item, files[g as int], t);
                assert(bit(files[g as int], t) == (file_of(t) == g));
            }
            g += 1;
        }
        res[f] = item;
        f += 1;
    }
    res
}

/// `res[r]` holds the squares on ranks strictly below rank `r`.
pub fn init_ranks_less_than() -> (res: [u64; 8])
    ensures
        forall|r: int, t: int|
            0 <= r < 8 && 0 <= t < 64 ==> #[trigger] bit(res[r], t) == (rank_of(t) < r),
{
    let ranks = initialize_ranks();
    let mut res = [0u64; 8];
    let mut r: usize = 0;
    while r < 8
        invariant
            r <= 8,
            forall|g: int, t: int|
                0 <= g < 8 && 0 <= t < 64 ==> #[trigger] bit(ranks[g], t) == (rank_of(t) == g),
            forall|g: int, t: int|
                0 <= g < r && 0 <= t < 64 ==> #[trigger] bit(res[g], t) == (rank_of(t) < g),
        decreases 8 - r,
    {
        let mut item = 0u64;
        let mut g: usize = 0;
        proof {
            assert forall|t: int| 0 <= t < 64 implies #[trigger] bit(item, t) == (rank_of(t) < g) by {
                lemma_bit_single(0, t);
            }
        }
        while g < r
            invariant
                g <= r < 8,
                forall|h: int, t: int|
                    0 <= h < 8 && 0 <= t < 64 ==> #[trigger] bit(ranks[h], t) == (rank_of(t) == h),
                forall|t: int| 0 <= t < 64 ==> #[trigger] bit(item, t) == (rank_of(t) < g),
            decreases r - g,
        {
            let old_item = item;
            item = item | ranks[g];
            assert forall|t: int| 0 <= t < 64 implies #[trigger] bit(item, t) == (rank_of(t) < g
                + 1) by {
                lemma_bit_ops(old_item, ranks[g as int], t);
                assert(bit(ranks[g as int], t) == (rank_of(t) == g));
            }
            g += 1;
        }
        res[r] = item;
        r += 1;
    }
    res
}

/// `res[f]` holds the squares on files strictly east of file `f`.
pub fn init_files_greater_than() -> (res: [u64; 8])
    ensures
        forall|f: int, t: int|
            0 <= f < 8 && 0 <= t < 64 ==> #[trigger] bit(res[f], t) == (file_of(t) > f),
{
    let files = initialize_files();
    let less = init_files_less_than();
    let mut res = [0u64; 8];
    let mut f: usize = 0;
    while f < 8
        invariant
            f <= 8,
            forall|g: int, t: int|
                0 <= g < 8 && 0 <= t < 64 ==> #[trigger] bit(files[g], t) == (file_of(t) == g),
            forall|g: int, t: int|
                0 <= g < 8 && 0 <= t < 64 ==> #[trigger] bit(less[g], t) == (file_of(t) < g),
            forall|g: int, t: int|
                0 <= g < f && 0 <= t < 64 ==> #[trigger] bit(res[g], t) == (file_of(t) > g),
        decreases 8 - f,
    {
        res[f] = !less[f] & !files[f];
        assert forall|t: int| 0 <= t < 64 implies #[trigger] bit(res[f as int], t) == (file_of(t)
            > f) by {
            lemma_bit_ops(!less[f as int], !files[f as int], t);
            lemma_bit_ops(less[f as int], files[f as int], t);
            lemma_bit_ops(files[f as int], less[f as int], t);
            assert(bit(less[f as int], t) == (file_of(t) < f));
            assert(bit(files[f as int], t) == (file_of(t) == f));
        }
        f += 1;
    }
    res
}

/// `res[r]` holds the squares on ranks strictly above rank `r`.
pub fn init_ranks_greater_than() -> (res: [u64; 8])
    ensures
        forall|r: int, t: int|
            0 <= r < 8 && 0 <= t < 64 ==> #[trigger] bit(res[r], t) == (rank_of(t) > r),
{
    let ranks = initialize_ranks();
    let less = init_ranks_less_than();
    let mut res = [0u64; 8];
    let mut r: usize = 0;
    while r < 8
        invariant
            r <= 8,
            forall|g: int, t: int|
                0 <= g < 8 && 0 <= t < 64 ==> #[trigger] bit(ranks[g], t) == (rank_of(t) == g),
            forall|g: int, t: int|
                0 <= g < 8 && 0 <= t < 64 ==> #[trigger] bit(less[g], t) == (rank_of(t) < g),
            forall|g: int, t: int|
                0 <= g < r && 0 <= t < 64 ==> #[trigger] bit(res[g], t) == (rank_of(t) > g),
        decreases 8 - r,
    {
        res[r] = !less[r] & !ranks[r];
        assert forall|t: int| 0 <= t < 64 implies #[trigger] bit(res[r as int], t) == (rank_of(t)
            > r) by {
            lemma_bit_ops(!less[r as int], !ranks[r as int], t);
            lemma_bit_ops(less[r as int], ranks[r as int], t);
            lemma_bit_ops(ranks[r as int], less[r as int], t);
            assert(bit(less[r as int], t) == (rank_of(t) < r));
            assert(bit(ranks[r as int], t) == (rank_of(t) == r));
        }
        r += 1;
    }
    res
}

/// The board half on black's side: ranks 5 to 8.
pub fn init_upper_half() -> (res: u64)
    ensures
        forall|t: int| 0 <= t < 64 ==> #[trigger] bit(res, t) == (rank_of(t) >= 4),
{
    let greater = init_ranks_greater_than();
    let res = greater[3];
    assert forall|t: int| 0 <= t < 64 implies #[trigger] bit(res, t) == (rank_of(t) >= 4) by {
        assert(bit(greater[3], t) == (rank_of(t) > 3));
    }
    res
}

/// The board half on white's side: ranks 1 to 4.
pub fn init_lower_half() -> (res: u64)
    ensures
        forall|t: int| 0 <= t < 64 ==> #[trigger] bit(res, t) == (rank_of(t) < 4),
{
    let less = init_ranks_less_than();
    let res = less[4];
    assert forall|t: int| 0 <= t < 64 implies #[trigger] bit(res, t) == (rank_of(t) < 4) by {
        assert(bit(less[4], t) == (rank_of(t) < 4));
    }
    res
}

/// The four central squares d4, e4, d5, e5.
pub fn initialize_inner_center() -> (res: u64)
    ensures
        forall|t: int|
            0 <= t < 64 ==> #[trigger] bit(res, t) == (3 <= file_of(t) <= 4 && 3 <= rank_of(t)
                <= 4),
{
    let files = initialize_files();
    let ranks = initialize_ranks();
    let fs = files[3] | files[4];
    let rs = ranks[3] | ranks[4];
    let res = fs & rs;
    assert forall|t: int| 0 <= t < 64 implies #[trigger] bit(res, t) == (3 <= file_of(t) <= 4 && 3
        <= rank_of(t) <= 4) by {
        lemma_bit_ops(fs, rs, t);
        lemma_bit_ops(files[3], files[4], t);
        lemma_bit_ops(ranks[3], ranks[4], t);
        assert(bit(files[3], t) == (file_of(t) == 3));
        assert(bit(files[4], t) == (file_of(t) == 4));
        assert(bit(ranks[3], t) == (rank_of(t) == 3));
        assert(bit(ranks[4], t) == (rank_of(t) == 4));
    }
    res
}

/// The board without its outer ring: files b to g and ranks 2 to 7.
pub fn initialize_center() -> (res: u64)
    ensures
        forall|t: int|
            0 <= t < 64 ==> #[trigger] bit(res, t) == (1 <= file_of(t) <= 6 && 1 <= rank_of(t)
                <= 6),
{
    let files = initialize_files();
    let ranks = initialize_ranks();
    let f12 = files[1] | files[2];
    let f123 = f12 | files[3];
    let f1234 = f123 | files[4];
    let f12345 = f1234 | files[5];
    let fs = f12345 | files[6];
    let r12 = ranks[1] | ranks[2];
    let r123 = r12 | ranks[3];
    let r1234 = r123 | ranks[4];
    let r12345 = r1234 | ranks[5];
    let rs = r12345 | ranks[6];
    let res = fs & rs;
    assert forall|t: int| 0 <= t < 64 implies #[trigger] bit(res, t) == (1 <= file_of(t) <= 6 && 1
        <= rank_of(t) <= 6) by {
        lemma_bit_ops(fs, rs, t);
        lemma_bit_ops(files[1], files[2], t);
        lemma_bit_ops(f12, files[3], t);
        lemma_bit_ops(f123, files[4], t);
        lemma_bit_ops(f1234, files[5], t);
        lemma_bit_ops(f12345, files[6], t);
        lemma_bit_ops(ranks[1], ranks[2], t);
        lemma_bit_ops(r12, ranks[3], t);
        lemma_bit_ops(r123, ranks[4], t);
        lemma_bit_ops(r1234, ranks[5], t);
        lemma_bit_ops(r12345, ranks[6], t);
        assert(bit(files[1], t) == (file_of(t) == 1));
        assert(bit(files[2], t) == (file_of(t) == 2));
        assert(bit(files[3], t) == (file_of(t) == 3));
        assert(bit(files[4], t) == (file_of(t) == 4));
        assert(bit(files[5], t) == (file_of(t) == 5));
        assert(bit(files[6], t) == (file_of(t) == 6));
        assert(bit(ranks[1], t) == (rank_of(t) == 1));
        assert(bit(ranks[2], t) == (rank_of(t) == 2));
        assert(bit(ranks[3], t) == (rank_of(t) == 3));
        assert(bit(ranks[4], t) == (rank_of(t) == 4));
        assert(bit(ranks[5], t) == (rank_of(t) == 5));
        assert(bit(ranks[6], t) == (rank_of(t) == 6));
    }
    res
}

/// The squares diagonally next to `sq`.
pub open spec fn diagonally_adjacent(sq: int, t: int) -> bool {
    king_adjacent(sq, t) && file_of(sq) != file_of(t) && rank_of(sq) != rank_of(t)
}

/// `res[sq]` holds the squares diagonally next to `sq`.
pub fn init_diagonally_adjacent() -> (res: [u64; 64])
    ensures
        forall|sq: int, t: int|
            0 <= sq < 64 && 0 <= t < 64 ==> #[trigger] bit(res[sq], t) == diagonally_adjacent(
                sq,
                t,
            ),
{
    let mut res = [0u64; 64];
    let mut sq: usize = 0;
    while sq < 64
        invariant
            sq <= 64,
            forall|q: int, t: int|
                0 <= q < sq && 0 <= t < 64 ==> #[trigger] bit(res[q], t) == diagonally_adjacent(
                    q,
                    t,
                ),
        decreases 64 - sq,
    {
        let board = 1u64 << sq as u64;
        let ne = north_east_one(board);
        let nw = north_west_one(board);
        let se = south_east_one(board);
        let sw = south_west_one(board);
        let a = ne | nw;
        let b = a | se;
        res[sq] = b | sw;
        assert forall|t: int| 0 <= t < 64 implies #[trigger] bit(res[sq as int], t)
            == diagonally_adjacent(sq as int, t) by {
            lemma_bit_ops(b, sw, t);
            lemma_bit_ops(a, se, t);
            lemma_bit_ops(ne, nw, t);
            lemma_bit_single(sq as u64, t - 9);
            lemma_bit_single(sq as u64, t - 7);
            lemma_bit_single(sq as u64, t + 7);
            lemma_bit_single(sq as u64, t + 9);
        }
        sq += 1;
    }
    res
}

/// The two ranks in front of a white king on `sq`, three files wide; a king on the
/// a- or h-file is shielded as if it stood on the b- or g-file.
pub open spec fn white_shield(sq: int, t: int) -> bool {
    let c = if file_of(sq) == 0 {
        1
    } else if file_of(sq) == 7 {
        6
    } else {
        file_of(sq)
    };
    &&& is_square(t)
    &&& 1 <= rank_of(t) - rank_of(sq) <= 2
    &&& -1 <= file_of(t) - c <= 1
}

/// The two ranks in front of a black king on `sq` (towards rank 1), three files wide.
pub open spec fn black_shield(sq: int, t: int) -> bool {
    let c = if file_of(sq) == 0 {
        1
    } else if file_of(sq) == 7 {
        6
    } else {
        file_of(sq)
    };
    &&& is_square(t)
    &&& 1 <= rank_of(sq) - rank_of(t) <= 2
    &&& -1 <= file_of(t) - c <= 1
}

pub open spec fn white_shield_raw(sq: int, t: int) -> bool {
    &&& is_square(t)
    &&& 1 <= rank_of(t) - rank_of(sq) <= 2
    &&& -1 <= file_of(t) - file_of(sq) <= 1
}

pub open spec fn black_shield_raw(sq: int, t: int) -> bool {
    &&& is_square(t)
    &&& 1 <= rank_of(sq) - rank_of(t) <= 2
    &&& -1 <= file_of(t) - file_of(sq) <= 1
}

/// `res[sq]` holds the squares where white pawns shield a white king on `sq`.
pub fn init_shielding_pawns_white() -> (res: [u64; 64])
    ensures
        forall|sq: int, t: int|
            0 <= sq < 64 && 0 <= t < 64 ==> #[trigger] bit(res[sq], t) == white_shield(sq, t),
{
    let mut res = [0u64; 64];
    let mut sq: usize = 0;
    while sq < 64
        invariant
            sq <= 64,
            forall|q: int, t: int|
                0 <= q < sq && 0 <= t < 64 ==> #[trigger] bit(res[q], t) == white_shield_raw(q, t),
        decreases 64 - sq,
    {
        let king = 1u64 << sq as u64;
        let nw = north_west_one(king);
        let ne = north_east_one(king);
        let n = king << 8u64;
        let a = n | nw;
        let shield = a | ne;
        let up = shield << 8u64;
        res[sq] = shield | up;
        assert forall|u: int| 0 <= u < 64 implies #[trigger] bit(shield, u) == (rank_of(u)
            - rank_of(sq as int) == 1 && -1 <= file_of(u) - file_of(sq as int) <= 1) by {
            lemma_bit_ops(a, ne, u);
            lemma_bit_ops(n, nw, u);
            lemma_bit_shl(king, 8, u);
            lemma_bit_single(sq as u64, u - 8);
            lemma_bit_single(sq as u64, u - 7);
            lemma_bit_single(sq as u64, u - 9);
        }
        assert forall|t: int| 0 <= t < 64 implies #[trigger] bit(res[sq as int], t)
            == white_shield_raw(sq as int, t) by {
            lemma_bit_ops(shield, up, t);
            lemma_bit_shl(shield, 8, t);
            if t >= 8 {
                assert(bit(shield, t - 8) || !bit(shield, t - 8));
            }
        }
        sq += 1;
    }
    let mut rank: usize = 0;
    while rank < 8
        invariant
            rank <= 8,
            forall|q: int, t: int|
                0 <= q < 64 && 0 <= t < 64 && (rank_of(q) >= rank || (1 <= file_of(q) <= 6))
                    ==> #[trigger] bit(res[q], t) == white_shield_raw(q, t),
            forall|q: int, t: int|
                0 <= q < 64 && 0 <= t < 64 && rank_of(q) < rank && (file_of(q) == 0 || file_of(q)
                    == 7) ==> #[trigger] bit(res[q], t) == white_shield(q, t),
        decreases 8 - rank,
    {
        let right = res[8 * rank + 1];
        res[8 * rank] = right;
        let left = res[8 * rank + 6];
        res[8 * rank + 7] = left;
        assert forall|q: int, t: int|
            0 <= q < 64 && 0 <= t < 64 && rank_of(q) < rank + 1 && (file_of(q) == 0 || file_of(q)
                == 7) implies #[trigger] bit(res[q], t) == white_shield(q, t) by {
            if rank_of(q) == rank {
                if file_of(q) == 0 {
                    assert(q == 8 * rank);
                    assert(bit(right, t) == white_shield_raw(8 * rank + 1, t));
                } else {
                    assert(q == 8 * rank + 7);
                    assert(bit(left, t) == white_shield_raw(8 * rank + 6, t));
                }
            }
        }
        rank += 1;
    }
    assert forall|q: int, t: int|
        0 <= q < 64 && 0 <= t < 64 implies #[trigger] bit(res[q], t) == white_shield(q, t) by {
        if 1 <= file_of(q) <= 6 {
            assert(bit(res[q], t) == white_shield_raw(q, t));
        }
    }
    res
}

/// `res[sq]` holds the squares where black pawns shield a black king on `sq`.
pub fn init_shielding_pawns_black() -> (res: [u64; 64])
    ensures
        forall|sq: int, t: int|
            0 <= sq < 64 && 0 <= t < 64 ==> #[trigger] bit(res[sq], t) == black_shield(sq, t),
{
    let mut res = [0u64; 64];
    let mut sq: usize = 0;
    while sq < 64
        invariant
            sq <= 64,
            forall|q: int, t: int|
                0 <= q < sq && 0 <= t < 64 ==> #[trigger] bit(res[q], t) == black_shield_raw(q, t),
        decreases 64 - sq,
    {
        let king = 1u64 << sq as u64;
        let sw = south_west_one(king);
        let se = south_east_one(king);
        let s = king >> 8u64;
        let a = s | sw;
        let shield = a | se;
        let down = shield >> 8u64;
        res[sq] = shield | down;
        assert forall|u: int| 0 <= u < 64 implies #[trigger] bit(shield, u) == (rank_of(
            sq as int,
        ) - rank_of(u) == 1 && -1 <= file_of(u) - file_of(sq as int) <= 1) by {
            lemma_bit_ops(a, se, u);
            lemma_bit_ops(s, sw, u);
            lemma_bit_shr(king, 8, u);
            lemma_bit_single(sq as u64, u + 8);
            lemma_bit_single(sq as u64, u + 7);
            lemma_bit_single(sq as u64, u + 9);
        }
        assert forall|t: int| 0 <= t < 64 implies #[trigger] bit(res[sq as int], t)
            == black_shield_raw(sq as int, t) by {
            lemma_bit_ops(shield, down, t);
            lemma_bit_shr(shield, 8, t);
            if t + 8 < 64 {
                assert(bit(shield, t + 8) || !bit(shield, t + 8));
            }
        }
        sq += 1;
    }
    let mut rank: usize = 0;
    while rank < 8
        invariant
            rank <= 8,
            forall|q: int, t: int|
                0 <= q < 64 && 0 <= t < 64 && (rank_of(q) >= rank || (1 <= file_of(q) <= 6))
                    ==> #[trigger] bit(res[q], t) == black_shield_raw(q, t),
            forall|q: int, t: int|
                0 <= q < 64 && 0 <= t < 64 && rank_of(q) < rank && (file_of(q) == 0 || file_of(q)
                    == 7) ==> #[trigger] bit(res[q], t) == black_shield(q, t),
        decreases 8 - rank,
    {
        let right = res[8 * rank + 1];
        res[8 * rank] = right;
        let left = res[8 * rank + 6];
        res[8 * rank + 7] = left;
        assert forall|q: int, t: int|
            0 <= q < 64 && 0 <= t < 64 && rank_of(q) < rank + 1 && (file_of(q) == 0 || file_of(q)
                == 7) implies #[trigger] bit(res[q], t) == black_shield(q, t) by {
            if rank_of(q) == rank {
                if file_of(q) == 0 {
                    assert(q == 8 * rank);
                    assert(bit(right, t) == black_shield_raw(8 * rank + 1, t));
                } else {
                    assert(q == 8 * rank + 7);
                    assert(bit(left, t) == black_shield_raw(8 * rank + 6, t));
                }
            }
        }
        rank += 1;
    }
    assert forall|q: int, t: int|
        0 <= q < 64 && 0 <= t < 64 implies #[trigger] bit(res[q], t) == black_shield(q, t) by {
        if 1 <= file_of(q) <= 6 {
            assert(bit(res[q], t) == black_shield_raw(q, t));
        }
    }
    res
}

/// The zone round a white king on `sq`: its own square, its neighbours, and the
/// squares two ranks in front of it, three files wide.
pub open spec fn white_king_zone(sq: int, t: int) -> bool {
    &&& is_square(t)
    &&& -1 <= file_of(t) - file_of(sq) <= 1
    &&& -1 <= rank_of(t) - rank_of(sq) <= 2
}

/// The zone round a black king on `sq` (its front is towards rank 1).
pub open spec fn black_king_zone(sq: int, t: int) -> bool {
    &&& is_square(t)
    &&& -1 <= file_of(t) - file_of(sq) <= 1
    &&& -2 <= rank_of(t) - rank_of(sq) <= 1
}

/// `res[sq]` holds the zone round a white king on `sq`.
pub fn initialize_king_zone_white() -> (res: [u64; 64])
    ensures
        forall|sq: int, t: int|
            0 <= sq < 64 && 0 <= t < 64 ==> #[trigger] bit(res[sq], t) == white_king_zone(sq, t),
{
    let king_attacks = init_king_attacks();
    let mut res = [0u64; 64];
    let mut sq: usize = 0;
    while sq < 64
        invariant
            sq <= 64,
            forall|q: int, t: int|
                0 <= q < 64 && 0 <= t < 64 ==> #[trigger] bit(king_attacks[q], t) == king_adjacent(
                    q,
                    t,
                ),
            forall|q: int, t: int|
                0 <= q < sq && 0 <= t < 64 ==> #[trigger] bit(res[q], t) == white_king_zone(q, t),
        decreases 64 - sq,
    {
        let single = 1u64 << sq as u64;
        let zone = single | king_attacks[sq];
        let n = north_one(zone);
        res[sq] = zone | n;
        assert forall|u: int| 0 <= u < 64 implies #[trigger] bit(zone, u) == (-1 <= file_of(u)
            - file_of(sq as int) <= 1 && -1 <= rank_of(u) - rank_of(sq as int) <= 1) by {
            lemma_bit_ops(single, king_attacks[sq as int], u);
            lemma_bit_single(sq as u64, u);
            assert(bit(king_attacks[sq as int], u) == king_adjacent(sq as int, u));
        }
        assert forall|t: int| 0 <= t < 64 implies #[trigger] bit(res[sq as int], t)
            == white_king_zone(sq as int, t) by {
            lemma_bit_ops(zone, n, t);
            if t >= 8 {
                assert(bit(zone, t - 8) || !bit(zone, t - 8));
            }
        }
        sq += 1;
    }
    res
}

/// `res[sq]` holds the zone round a black king on `sq`.
pub fn initialize_king_zone_black() -> (res: [u64; 64])
    ensures
        forall|sq: int, t: int|
            0 <= sq < 64 && 0 <= t < 64 ==> #[trigger] bit(res[sq], t) == black_king_zone(sq, t),
{
    let king_attacks = init_king_attacks();
    let mut res = [0u64; 64];
    let mut sq: usize = 0;
    while sq < 64
        invariant
            sq <= 64,
            forall|q: int, t: int|
                0 <= q < 64 && 0 <= t < 64 ==> #[trigger] bit(king_attacks[q], t) == king_adjacent(
                    q,
                    t,
                ),
            forall|q: int, t: int|
                0 <= q < sq && 0 <= t < 64 ==> #[trigger] bit(res[q], t) == black_king_zone(q, t),
        decreases 64 - sq,
    {
        let single = 1u64 << sq as u64;
        let zone = single | king_attacks[sq];
        let s = south_one(zone);
        res[sq] = zone | s;
        assert forall|u: int| 0 <= u < 64 implies #[trigger] bit(zone, u) == (-1 <= file_of(u)
            - file_of(sq as int) <= 1 && -1 <= rank_of(u) - rank_of(sq as int) <= 1) by {
            lemma_bit_ops(single, king_attacks[sq as int], u);
            lemma_bit_single(sq as u64, u);
            assert(bit(king_attacks[sq as int], u) == king_adjacent(sq as int, u));
        }
        assert forall|t: int| 0 <= t < 64 implies #[trigger] bit(res[sq as int], t)
            == black_king_zone(sq as int, t) by {
            lemma_bit_ops(zone, s, t);
            if t + 8 < 64 {
                assert(bit(zone, t + 8) || !bit(zone, t + 8));
            }
        }
        sq += 1;
    }
    res
}


// ---------------------------------------------------------------------------
// Slider attacks on an empty board, and the rays between two squares.
// ---------------------------------------------------------------------------

/// `res[sq]` holds the squares a rook on `sq` attacks on an empty board.
pub fn initialize_freefield_rook_attacks() -> (res: [u64; 64])
    ensures
        forall|sq: int, t: int|
            0 <= sq < 64 && 0 <= t < 64 ==> #[trigger] bit(res[sq], t) == rook_reaches(sq, 0, t),
{
    let mut res = [0u64; 64];
    let mut sq: usize = 0;
    while sq < 64
        invariant
            sq <= 64,
            forall|q: int, t: int|
                0 <= q < sq && 0 <= t < 64 ==> #[trigger] bit(res[q], t) == rook_reaches(q, 0, t),
        decreases 64 - sq,
    {
        res[sq] = rook_attacks_slow(sq, 0u64);
        sq += 1;
    }
    res
}

/// `res[sq]` holds the squares a bishop on `sq` attacks on an empty board.
pub fn initialize_freefield_bishop_attacks() -> (res: [u64; 64])
    ensures
        forall|sq: int, t: int|
            0 <= sq < 64 && 0 <= t < 64 ==> #[trigger] bit(res[sq], t) == bishop_reaches(sq, 0, t),
{
    let mut res = [0u64; 64];
    let mut sq: usize = 0;
    while sq < 64
        invariant
            sq <= 64,
            forall|q: int, t: int|
                0 <= q < sq && 0 <= t < 64 ==> #[trigger] bit(res[q], t) == bishop_reaches(q, 0, t),
        decreases 64 - sq,
    {
        res[sq] = bishop_attacks_slow(sq, 0u64);
        sq += 1;
    }
    res
}

/// The box strictly between a target square and a bishop square, on the side the
/// bishop's diagonal towards the target runs.
pub open spec fn bishop_ray_box(target: int, bishop: int, u: int) -> bool {
    let tf = file_of(target);
    let tr = rank_of(target);
    let bf = file_of(bishop);
    let br = rank_of(bishop);
    if target > bishop {
        if (target - bishop) % 9 == 0 {
            bf < file_of(u) < tf && br < rank_of(u) < tr
        } else {
            tf < file_of(u) < bf && br < rank_of(u) < tr
        }
    } else if (bishop - target) % 9 == 0 {
        tf < file_of(u) < bf && tr < rank_of(u) < br
    } else {
        bf < file_of(u) < tf && tr < rank_of(u) < br
    }
}

/// The strip strictly between a target square and a rook square, along their common
/// rank, or else along the files between their ranks.
pub open spec fn rook_ray_box(target: int, rook: int, u: int) -> bool {
    let tf = file_of(target);
    let tr = rank_of(target);
    let rf = file_of(rook);
    let rr = rank_of(rook);
    if target > rook {
        if tr == rr {
            rf < file_of(u) < tf
        } else {
            rr < rank_of(u) < tr
        }
    } else if tr == rr {
        tf < file_of(u) < rf
    } else {
        tr < rank_of(u) < rr
    }
}

/// The part of a bishop's attacks that runs towards `target_square`.
pub fn get_bishop_ray_slow(
    bishop_attack_in_all_directions: u64,
    target_square: usize,
    bishop_square: usize,
) -> (res: u64)
    requires
        target_square < 64,
        bishop_square < 64,
    ensures
        forall|u: int|
            0 <= u < 64 ==> #[trigger] bit(res, u) == (bit(bishop_attack_in_all_directions, u)
                && bishop_ray_box(target_square as int, bishop_square as int, u)),
{
    let files_less_than = init_files_less_than();
    let files_greater_than = init_files_greater_than();
    let ranks_less_than = init_ranks_less_than();
    let ranks_greater_than = init_ranks_greater_than();
    let target_rank = target_square / 8;
    let target_file = target_square % 8;
    let bishop_rank = bishop_square / 8;
    let bishop_file = bishop_square % 8;
    let (f1, f2, r1, r2) = if target_square > bishop_square {
        if (target_square - bishop_square) % 9 == 0 {
            (
                files_less_than[target_file],
                files_greater_than[bishop_file],
                ranks_less_than[target_rank],
                ranks_greater_than[bishop_rank],
            )
        } else {
            (
                files_greater_than[target_file],
                files_less_than[bishop_file],
                ranks_less_than[target_rank],
                ranks_greater_than[bishop_rank],
            )
        }
    } else if (bishop_square - target_square) % 9 == 0 {
        (
            files_greater_than[target_file],
            files_less_than[bishop_file],
            ranks_greater_than[target_rank],
            ranks_less_than[bishop_rank],
        )
    } else {
        (
            files_less_than[target_file],
            files_greater_than[bishop_file],
            ranks_greater_than[target_rank],
            ranks_less_than[bishop_rank],
        )
    };
    let a = f1 & f2;
    let b = a & r1;
    let c = b & r2;
    let res = c & bishop_attack_in_all_directions;
    assert forall|u: int| 0 <= u < 64 implies #[trigger] bit(res, u) == (bit(
        bishop_attack_in_all_directions,
        u,
    ) && bishop_ray_box(target_square as int, bishop_square as int, u)) by {
        lemma_bit_ops(c, bishop_attack_in_all_directions, u);
        lemma_bit_ops(b, r2, u);
        lemma_bit_ops(a, r1, u);
        lemma_bit_ops(f1, f2, u);
        assert(bit(files_less_than[target_file as int], u) == (file_of(u) < target_file));
        assert(bit(files_greater_than[target_file as int], u) == (file_of(u) > target_file));
        assert(bit(files_less_than[bishop_file as int], u) == (file_of(u) < bishop_file));
        assert(bit(files_greater_than[bishop_file as int], u) == (file_of(u) > bishop_file));
        assert(bit(ranks_less_than[target_rank as int], u) == (rank_of(u) < target_rank));
        assert(bit(ranks_greater_than[target_rank as int], u) == (rank_of(u) > target_rank));
        assert(bit(ranks_less_than[bishop_rank as int], u) == (rank_of(u) < bishop_rank));
        assert(bit(ranks_greater_than[bishop_rank as int], u) == (rank_of(u) > bishop_rank));
    }
    res
}

/// The part of a rook's attacks that runs towards `target_square`.
pub fn get_rook_ray_slow(
    rook_attacks_in_all_directions: u64,
    target_square: usize,
    rook_square: usize,
) -> (res: u64)
    requires
        target_square < 64,
        rook_square < 64,
    ensures
        forall|u: int|
            0 <= u < 64 ==> #[trigger] bit(res, u) == (bit(rook_attacks_in_all_directions, u)
                && rook_ray_box(target_square as int, rook_square as int, u)),
{
    let files_less_than = init_files_less_than();
    let files_greater_than = init_files_greater_than();
    let ranks_less_than = init_ranks_less_than();
    let ranks_greater_than = init_ranks_greater_than();
    let target_rank = target_square / 8;
    let target_file = target_square % 8;
    let rook_rank = rook_square / 8;
    let rook_file = rook_square % 8;
    let (m1, m2) = if target_square > rook_square {
        if target_rank == rook_rank {
            (files_less_than[target_file], files_greater_than[rook_file])
        } else {
            (ranks_less_than[target_rank], ranks_greater_than[rook_rank])
        }
    } else if target_rank == rook_rank {
        (files_greater_than[target_file], files_less_than[rook_file])
    } else {
        (ranks_greater_than[target_rank], ranks_less_than[rook_rank])
    };
    let a = m1 & m2;
    let res = a & rook_attacks_in_all_directions;
    assert forall|u: int| 0 <= u < 64 implies #[trigger] bit(res, u) == (bit(
        rook_attacks_in_all_directions,
        u,
    ) && rook_ray_box(target_square as int, rook_square as int, u)) by {
        lemma_bit_ops(a, rook_attacks_in_all_directions, u);
        lemma_bit_ops(m1, m2, u);
        assert(bit(files_less_than[target_file as int], u) == (file_of(u) < target_file));
        assert(bit(files_greater_than[target_file as int], u) == (file_of(u) > target_file));
        assert(bit(files_less_than[rook_file as int], u) == (file_of(u) < rook_file));
        assert(bit(files_greater_than[rook_file as int], u) == (file_of(u) > rook_file));
        assert(bit(ranks_less_than[target_rank as int], u) == (rank_of(u) < target_rank));
        assert(bit(ranks_greater_than[target_rank as int], u) == (rank_of(u) > target_rank));
        assert(bit(ranks_less_than[rook_rank as int], u) == (rank_of(u) < rook_rank));
        assert(bit(ranks_greater_than[rook_rank as int], u) == (rank_of(u) > rook_rank));
    }
    res
}

/// `res[k][b]`: the squares of a bishop's empty-board attacks from `k` that run
/// towards the square `b`.
pub fn initialize_bishop_rays() -> (res: [[u64; 64]; 64])
    ensures
        forall|k: int, b: int, u: int|
            0 <= k < 64 && 0 <= b < 64 && 0 <= u < 64 ==> #[trigger] bit(res[k][b], u) == (
            bishop_reaches(k, 0, u) && bishop_ray_box(k, b, u)),
{
    let freefield = initialize_freefield_bishop_attacks();
    let mut res = [[0u64; 64]; 64];
    let mut k: usize = 0;
    while k < 64
        invariant
            k <= 64,
            forall|q: int, t: int|
                0 <= q < 64 && 0 <= t < 64 ==> #[trigger] bit(freefield[q], t) == bishop_reaches(
                    q,
                    0,
                    t,
                ),
            forall|q: int, b: int, u: int|
                0 <= q < k && 0 <= b < 64 && 0 <= u < 64 ==> #[trigger] bit(res[q][b], u) == (
                bishop_reaches(q, 0, u) && bishop_ray_box(q, b, u)),
        decreases 64 - k,
    {
        let mut row = [0u64; 64];
        let mut b: usize = 0;
        while b < 64
            invariant
                k < 64,
                b <= 64,
                forall|q: int, t: int|
                    0 <= q < 64 && 0 <= t < 64 ==> #[trigger] bit(freefield[q], t)
                        == bishop_reaches(q, 0, t),
                forall|c: int, u: int|
                    0 <= c < b && 0 <= u < 64 ==> #[trigger] bit(row[c], u) == (bishop_reaches(
                        k as int,
                        0,
                        u,
                    ) && bishop_ray_box(k as int, c, u)),
            decreases 64 - b,
        {
            row[b] = get_bishop_ray_slow(freefield[k], k, b);
            b += 1;
        }
        res[k] = row;
        k += 1;
    }
    res
}

/// `res[k][r]`: the squares of a rook's empty-board attacks from `k` that run
/// towards the square `r`.
pub fn initialize_rook_rays() -> (res: [[u64; 64]; 64])
    ensures
        forall|k: int, r: int, u: int|
            0 <= k < 64 && 0 <= r < 64 && 0 <= u < 64 ==> #[trigger] bit(res[k][r], u) == (
            rook_reaches(k, 0, u) && rook_ray_box(k, r, u)),
{
    let freefield = initialize_freefield_rook_attacks();
    let mut res = [[0u64; 64]; 64];
    let mut k: usize = 0;
    while k < 64
        invariant
            k <= 64,
            forall|q: int, t: int|
                0 <= q < 64 && 0 <= t < 64 ==> #[trigger] bit(freefield[q], t) == rook_reaches(
                    q,
                    0,
                    t,
                ),
            forall|q: int, r: int, u: int|
                0 <= q < k && 0 <= r < 64 && 0 <= u < 64 ==> #[trigger] bit(res[q][r], u) == (
                rook_reaches(q, 0, u) && rook_ray_box(q, r, u)),
        decreases 64 - k,
    {
        let mut row = [0u64; 64];
        let mut r: usize = 0;
        while r < 64
            invariant
                k < 64,
                r <= 64,
                forall|q: int, t: int|
                    0 <= q < 64 && 0 <= t < 64 ==> #[trigger] bit(freefield[q], t) == rook_reaches(
                        q,
                        0,
                        t,
                    ),
                forall|c: int, u: int|
                    0 <= c < r && 0 <= u < 64 ==> #[trigger] bit(row[c], u) == (rook_reaches(
                        k as int,
                        0,
                        u,
                    ) && rook_ray_box(k as int, c, u)),
            decreases 64 - r,
        {
            row[r] = get_rook_ray_slow(freefield[k], k, r);
            r += 1;
        }
        res[k] = row;
        k += 1;
    }
    res
}


// ---------------------------------------------------------------------------
// Counting and walking the squares of a bitboard.
// ---------------------------------------------------------------------------

/// The number of squares below `n` that `b` holds.
pub open spec fn count_bits(b: u64, n: nat) -> nat
    decreases n,
{
    if n == 0 {
        0
    } else {
        count_bits(b, (n - 1) as nat) + if bit(b, n - 1) {
            1nat
        } else {
            0nat
        }
    }
}

/// The number of squares `b` holds.
pub open spec fn popcount(b: u64) -> nat {
    count_bits(b, 64)
}

/// `u64::count_ones` returns the number of one bits in the binary representation, as
/// std documents it; here that is the number of squares the bitboard holds.
pub assume_specification[ u64::count_ones ](i: u64) -> (r: u32)
    ensures
        r as nat == popcount(i),
;

/// A bitboard holds some square exactly when it counts more than none.
pub proof fn lemma_popcount_nonzero(b: u64)
    ensures
        (popcount(b) > 0) == (b != 0u64),
{
    lemma_zero_board(b);
    if b != 0u64 {
        let t = choose|t: int| 0 <= t < 64 && #[trigger] bit(b, t);
        lemma_count_bits_toggle(b, 64, t as u64);
    } else {
        lemma_count_bits_none(b, 64);
    }
}

proof fn lemma_count_bits_none(b: u64, n: nat)
    requires
        n <= 64,
        forall|t: int| 0 <= t < 64 ==> !#[trigger] bit(b, t),
    ensures
        count_bits(b, n) == 0,
    decreases n,
{
    if n > 0 {
        lemma_count_bits_none(b, (n - 1) as nat);
        assert(!bit(b, n - 1));
    }
}

pub proof fn lemma_count_bits_bound(b: u64, n: nat)
    ensures
        count_bits(b, n) <= n,
    decreases n,
{
    if n > 0 {
        lemma_count_bits_bound(b, (n - 1) as nat);
    }
}

/// Two bitboards are disjoint exactly when they share no square.
pub proof fn lemma_and_zero(a: u64, b: u64)
    ensures
        (a & b == 0u64) == (forall|t: int| 0 <= t < 64 ==> !(#[trigger] bit(a, t) && bit(b, t))),
{
    if a & b == 0u64 {
        assert forall|t: int| 0 <= t < 64 implies !(#[trigger] bit(a, t) && bit(b, t)) by {
            lemma_bit_ops(a, b, t);
            lemma_bit_single(0, t);
        }
    } else {
        if forall|t: int| 0 <= t < 64 ==> !(#[trigger] bit(a, t) && bit(b, t)) {
            assert forall|t: int| 0 <= t < 64 implies #[trigger] bit(a & b, t) == bit(0u64, t) by {
                lemma_bit_ops(a, b, t);
                lemma_bit_single(0, t);
            }
            lemma_bit_extensional(a & b, 0u64);
        }
    }
}

/// A bitboard is empty exactly when it holds no square.
pub proof fn lemma_zero_board(a: u64)
    ensures
        (a == 0u64) == (forall|t: int| 0 <= t < 64 ==> !#[trigger] bit(a, t)),
{
    if a != 0u64 {
        if forall|t: int| 0 <= t < 64 ==> !#[trigger] bit(a, t) {
            assert forall|t: int| 0 <= t < 64 implies #[trigger] bit(a, t) == bit(0u64, t) by {
                lemma_bit_single(0, t);
            }
            lemma_bit_extensional(a, 0u64);
        }
    } else {
        assert forall|t: int| 0 <= t < 64 implies !#[trigger] bit(a, t) by {
            lemma_bit_single(0, t);
        }
    }
}

/// Taking the lowest square off a non-empty bitboard: the square is held, it goes, and
/// the value drops.
pub proof fn lemma_clear_lowest(w: u64)
    requires
        w != 0u64,
    ensures
        ({
            let i = vstd::std_specs::bits::u64_trailing_zeros(w);
            &&& i < 64
            &&& bit(w, i as int)
            &&& (w ^ (1u64 << i as u64)) < w
            &&& forall|t: int|
                0 <= t < 64 ==> #[trigger] bit(w ^ (1u64 << i as u64), t) == (bit(w, t) && t != i)
            &&& forall|t: int| 0 <= t < i ==> !#[trigger] bit(w, t)
        }),
{
    vstd::std_specs::bits::axiom_u64_trailing_zeros(w);
    let i = vstd::std_specs::bits::u64_trailing_zeros(w) as u64;
    assert((w ^ (1u64 << i)) < w) by (bit_vector)
        requires
            i < 64,
            (w >> i) & 1u64 == 1u64,
    ;
    assert forall|t: int| 0 <= t < 64 implies #[trigger] bit(w ^ (1u64 << i), t) == (bit(w, t)
        && t != i) by {
        lemma_bit_ops(w, 1u64 << i, t);
        lemma_bit_single(i, t);
    }
    assert forall|t: int| 0 <= t < i implies !#[trigger] bit(w, t) by {
        assert(((w >> (t as u64)) & 1u64) == 0u64);
    }
}

/// Taking the squares of a mask that meets a board off it makes the board smaller.
pub proof fn lemma_mask_off_smaller(a: u64, m: u64)
    requires
        a & m != 0u64,
    ensures
        (a & !m) < a,
{
    assert((a & m != 0u64) ==> (a & !m) < a) by (bit_vector);
}

/// Testing the lowest bit of a shifted board tells whether the square is held.
pub proof fn lemma_bit_test(b: u64, k: u64)
    requires
        k < 64,
    ensures
        ((b >> k) & 1u64 != 0u64) == bit(b, k as int),
{
    assert(((b >> k) & 1u64 != 0u64) == ((b >> k) & 1u64 == 1u64)) by (bit_vector);
}

/// Taking a held square off a bitboard: the square goes and the value drops.
pub proof fn lemma_clear_square(w: u64, i: int)
    requires
        0 <= i < 64,
        bit(w, i),
    ensures
        (w ^ (1u64 << i as u64)) < w,
        forall|t: int| #[trigger] bit(w ^ (1u64 << i as u64), t) == (bit(w, t) && t != i),
{
    let k = i as u64;
    assert((w ^ (1u64 << k)) < w) by (bit_vector)
        requires
            k < 64,
            (w >> k) & 1u64 == 1u64,
    ;
    assert forall|t: int| #[trigger] bit(w ^ (1u64 << k), t) == (bit(w, t) && t != i) by {
        if 0 <= t < 64 {
            lemma_bit_ops(w, 1u64 << k, t);
            lemma_bit_single(k, t);
        }
    }
}

/// The square of the highest piece of a non-empty bitboard is held.
pub proof fn lemma_highest_square(w: u64)
    requires
        w != 0u64,
    ensures
        0 <= 63 - vstd::std_specs::bits::u64_leading_zeros(w) < 64,
        bit(w, 63 - vstd::std_specs::bits::u64_leading_zeros(w)),
{
    vstd::std_specs::bits::axiom_u64_leading_zeros(w);
    let z = vstd::std_specs::bits::u64_leading_zeros(w);
    let k = (63 - z) as u64;
    assert((w >> k) & 1u64 != 0u64 ==> (w >> k) & 1u64 == 1u64) by (bit_vector);
}

/// The squares of `b` that the counting over the first `n` squares sees.
pub proof fn lemma_count_bits_toggle(b: u64, n: nat, s: u64)
    requires
        s < 64,
        n <= 64,
        bit(b, s as int),
    ensures
        count_bits(b, n) == count_bits(b ^ (1u64 << s), n) + if s < n {
            1nat
        } else {
            0nat
        },
    decreases n,
{
    if n > 0 {
        lemma_count_bits_toggle(b, (n - 1) as nat, s);
        lemma_bit_ops(b, 1u64 << s, n - 1);
        lemma_bit_single(s, n - 1);
    }
}


/// Taking one of its squares from a board counts one square less.
pub proof fn lemma_popcount_remove(a: u64, b: u64, s: int)
    requires
        0 <= s < 64,
        bit(a, s),
        forall|t: int| 0 <= t < 64 ==> #[trigger] bit(b, t) == (bit(a, t) && t != s),
    ensures
        popcount(a) == popcount(b) + 1,
{
    lemma_clear_square(a, s);
    assert forall|t: int| 0 <= t < 64 implies #[trigger] bit(a ^ (1u64 << s as u64), t) == bit(b, t)
        by {
    }
    lemma_bit_extensional(a ^ (1u64 << s as u64), b);
    lemma_count_bits_toggle(a, 64, s as u64);
}

/// Boards with the same squares count the same.
pub proof fn lemma_popcount_same(a: u64, b: u64)
    requires
        forall|t: int| 0 <= t < 64 ==> #[trigger] bit(a, t) == bit(b, t),
    ensures
        popcount(a) == popcount(b),
{
    lemma_bit_extensional(a, b);
}

/// Counting further counts no less, and counts a square of the board once it is passed.
pub proof fn lemma_count_bits_mono(b: u64, s: nat, t: nat)
    requires
        s <= t,
    ensures
        count_bits(b, s) <= count_bits(b, t),
        s < t && bit(b, s as int) ==> count_bits(b, s) + 1 <= count_bits(b, t),
    decreases t,
{
    if s < t {
        lemma_count_bits_mono(b, s, (t - 1) as nat);
    }
}

/// A board with no square below `n` counts none below `n`.
pub proof fn lemma_count_bits_prefix_none(b: u64, n: nat)
    requires
        forall|k: int| 0 <= k < n ==> !#[trigger] bit(b, k),
    ensures
        count_bits(b, n) == 0,
    decreases n,
{
    if n > 0 {
        lemma_count_bits_prefix_none(b, (n - 1) as nat);
        assert(!bit(b, n - 1));
    }
}

/// The number of squares below `n` for which `pred` holds.
pub open spec fn count_where(pred: spec_fn(int) -> bool, n: nat) -> nat
    decreases n,
{
    if n == 0 {
        0
    } else {
        count_where(pred, (n - 1) as nat) + if pred(n - 1) {
            1nat
        } else {
            0nat
        }
    }
}

/// A bitboard whose squares are those where `pred` holds has as many squares as `pred`
/// has squares.
pub proof fn lemma_popcount_where(b: u64, pred: spec_fn(int) -> bool)
    requires
        forall|t: int| 0 <= t < 64 ==> #[trigger] bit(b, t) == pred(t),
    ensures
        popcount(b) == count_where(pred, 64),
{
    lemma_count_where_upto(b, pred, 64);
}

proof fn lemma_count_where_upto(b: u64, pred: spec_fn(int) -> bool, n: nat)
    requires
        n <= 64,
        forall|t: int| 0 <= t < 64 ==> #[trigger] bit(b, t) == pred(t),
    ensures
        count_bits(b, n) == count_where(pred, n),
    decreases n,
{
    if n > 0 {
        lemma_count_where_upto(b, pred, (n - 1) as nat);
        assert(bit(b, n - 1) == pred(n - 1));
    }
}

} // verus!
