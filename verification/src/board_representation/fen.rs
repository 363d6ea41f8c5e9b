use crate::bitboards::bit;
use vstd::prelude::*;
use vstd::string::{StrSliceExecFns, StringExecFns};

verus! {

broadcast use crate::bitboards::group_bit_ops;

// ---------------------------------------------------------------------------
// The text of a position in Forsyth-Edwards notation: six fields parted by spaces.
// The first lists the ranks from the eighth down, parted by '/', each from the a-file
// on: a letter for a piece (upper case white, lower case black) or a digit for that
// many empty squares.
// ---------------------------------------------------------------------------

/// The characters of a string.
pub fn chars_of(s: &str) -> (res: Vec<char>)
    ensures
        res@ == s@,
{
    let n = s.unicode_len();
    let mut res: Vec<char> = Vec::new();
    let mut i: usize = 0;
    while i < n
        invariant
            n == s@.len(),
            i <= n,
            res@ == s@.subrange(0, i as int),
        decreases n - i,
    {
        res.push(s.get_char(i));
        i = i + 1;
    }
    res
}

/// The pieces of text between the separators `sep` (as `str::split` gives them: an
/// empty piece between two separators in a row and at either end).
pub open spec fn split_at(s: Seq<char>, sep: char) -> Seq<Seq<char>>
    decreases s.len(),
{
    if s.len() == 0 {
        seq![Seq::<char>::empty()]
    } else {
        let init = split_at(s.drop_last(), sep);
        if s.last() == sep {
            init.push(Seq::<char>::empty())
        } else {
            init.update(init.len() - 1, init.last().push(s.last()))
        }
    }
}

pub proof fn lemma_split_at_nonempty(s: Seq<char>, sep: char)
    ensures
        split_at(s, sep).len() >= 1,
    decreases s.len(),
{
    if s.len() > 0 {
        lemma_split_at_nonempty(s.drop_last(), sep);
    }
}

/// Text without the separator is a single piece.
pub proof fn lemma_split_at_whole(s: Seq<char>, sep: char)
    requires
        !has_char(s, sep),
    ensures
        split_at(s, sep) == seq![s],
    decreases s.len(),
{
    if s.len() > 0 {
        let init = s.drop_last();
        assert(!has_char(init, sep)) by {
            if has_char(init, sep) {
                let i = choose|i: int| 0 <= i < init.len() && init[i] == sep;
                assert(s[i] == sep);
            }
        }
        lemma_split_at_whole(init, sep);
        assert(s[s.len() - 1] != sep);
        assert(init.push(s.last()) =~= s);
    } else {
        assert(s =~= Seq::<char>::empty());
    }
}

/// A piece without the separator, the separator, then more text: that piece first, then
/// the pieces of the rest.
pub proof fn lemma_split_at_first(a: Seq<char>, b: Seq<char>, sep: char)
    requires
        !has_char(a, sep),
    ensures
        split_at(a + seq![sep] + b, sep) == seq![a] + split_at(b, sep),
    decreases b.len(),
{
    let s = a + seq![sep] + b;
    if b.len() == 0 {
        assert(s.drop_last() =~= a);
        lemma_split_at_whole(a, sep);
        assert(split_at(s, sep) =~= seq![a] + split_at(b, sep));
    } else {
        let b2 = b.drop_last();
        assert(s.drop_last() =~= a + seq![sep] + b2);
        assert(s.last() == b.last());
        lemma_split_at_first(a, b2, sep);
        lemma_split_at_nonempty(b2, sep);
        let x = split_at(b2, sep);
        if b.last() == sep {
            assert((seq![a] + x).push(Seq::<char>::empty()) =~= seq![a] + x.push(
                Seq::<char>::empty(),
            ));
        } else {
            let y = seq![a] + x;
            assert(y.update(y.len() - 1, y.last().push(b.last())) =~= seq![a] + x.update(
                x.len() - 1,
                x.last().push(b.last()),
            ));
        }
    }
}

/// A one-character text holds just that character; the empty text holds none.
pub proof fn lemma_has_char_one(x: char, c: char)
    ensures
        has_char(seq![x], c) == (x == c),
        !has_char(Seq::<char>::empty(), c),
{
    assert(seq![x][0] == x);
}

/// A text holds a character where one of its two parts does.
pub proof fn lemma_has_char_concat(a: Seq<char>, b: Seq<char>, c: char)
    ensures
        has_char(a + b, c) == (has_char(a, c) || has_char(b, c)),
{
    let s = a + b;
    if has_char(s, c) {
        let i = choose|i: int| 0 <= i < s.len() && s[i] == c;
        if i < a.len() {
            assert(a[i] == c);
        } else {
            assert(b[i - a.len()] == c);
        }
    }
    if has_char(a, c) {
        let i = choose|i: int| 0 <= i < a.len() && a[i] == c;
        assert(s[i] == c);
    }
    if has_char(b, c) {
        let i = choose|i: int| 0 <= i < b.len() && b[i] == c;
        assert(s[a.len() + i] == c);
    }
}

/// The pieces of `s` between the separators `sep`.
pub fn split_chars(s: &Vec<char>, sep: char) -> (res: Vec<Vec<char>>)
    ensures
        res.len() == split_at(s@, sep).len(),
        forall|k: int| 0 <= k < res.len() ==> #[trigger] res[k]@ == split_at(s@, sep)[k],
{
    let mut fields: Vec<Vec<char>> = Vec::new();
    let mut cur: Vec<char> = Vec::new();
    let mut i: usize = 0;
    proof {
        assert(s@.subrange(0, 0) =~= Seq::<char>::empty());
    }
    while i < s.len()
        invariant
            i <= s.len(),
            fields.len() + 1 == split_at(s@.subrange(0, i as int), sep).len(),
            forall|k: int|
                0 <= k < fields.len() ==> #[trigger] fields[k]@ == split_at(
                    s@.subrange(0, i as int),
                    sep,
                )[k],
            cur@ == split_at(s@.subrange(0, i as int), sep).last(),
        decreases s.len() - i,
    {
        let ghost prefix = s@.subrange(0, i as int);
        let ghost next = s@.subrange(0, i + 1);
        proof {
            assert(next.drop_last() =~= prefix);
            assert(next.last() == s@[i as int]);
            lemma_split_at_nonempty(prefix, sep);
        }
        let ch = s[i];
        if ch == sep {
            fields.push(cur);
            cur = Vec::new();
            proof {
                assert(cur@ =~= Seq::<char>::empty());
            }
        } else {
            cur.push(ch);
        }
        i = i + 1;
    }
    proof {
        assert(s@.subrange(0, s@.len() as int) =~= s@);
        lemma_split_at_nonempty(s@, sep);
    }
    fields.push(cur);
    fields
}

/// Whether `s` holds the character `c`.
pub open spec fn has_char(s: Seq<char>, c: char) -> bool {
    exists|i: int| 0 <= i < s.len() && s[i] == c
}

/// Whether the text `s` holds the character `c`.
pub fn contains_char(s: &Vec<char>, c: char) -> (res: bool)
    ensures
        res == has_char(s@, c),
{
    let mut i: usize = 0;
    while i < s.len()
        invariant
            i <= s.len(),
            forall|j: int| 0 <= j < i ==> s@[j] != c,
        decreases s.len() - i,
    {
        if s[i] == c {
            return true;
        }
        i = i + 1;
    }
    false
}

/// The text is exactly the one character `c`.
pub open spec fn is_just(s: Seq<char>, c: char) -> bool {
    s.len() == 1 && s[0] == c
}

/// Whether the text `s` is exactly the one character `c`.
pub fn is_just_char(s: &Vec<char>, c: char) -> (res: bool)
    ensures
        res == is_just(s@, c),
{
    s.len() == 1 && s[0] == c
}

// ---------------------------------------------------------------------------
// Ranks.
// ---------------------------------------------------------------------------

/// The board (kind, colour) a piece letter stands for.
pub open spec fn fen_piece(c: char) -> Option<(int, int)> {
    if c == 'P' {
        Some((0, 0))
    } else if c == 'p' {
        Some((0, 1))
    } else if c == 'N' {
        Some((1, 0))
    } else if c == 'n' {
        Some((1, 1))
    } else if c == 'B' {
        Some((2, 0))
    } else if c == 'b' {
        Some((2, 1))
    } else if c == 'R' {
        Some((3, 0))
    } else if c == 'r' {
        Some((3, 1))
    } else if c == 'Q' {
        Some((4, 0))
    } else if c == 'q' {
        Some((4, 1))
    } else if c == 'K' {
        Some((5, 0))
    } else if c == 'k' {
        Some((5, 1))
    } else {
        None
    }
}

/// The number of empty squares a digit `1` to `8` stands for.
pub open spec fn fen_skip(c: char) -> Option<int> {
    if '1' <= c && c <= '8' {
        Some(c as int - '0' as int)
    } else {
        None
    }
}

/// The rank text `r`, read from index `i` with the next square on file `file`, names
/// all the squares up to the h-file, each character being a piece or a digit.
pub open spec fn rank_ok(r: Seq<char>, i: int, file: int) -> bool
    decreases r.len() - i,
{
    if file >= 8 {
        true
    } else if i < 0 || i >= r.len() {
        false
    } else if fen_piece(r[i]) is Some {
        rank_ok(r, i + 1, file + 1)
    } else if fen_skip(r[i]) is Some {
        rank_ok(r, i + 1, file + fen_skip(r[i])->0)
    } else {
        false
    }
}

/// The piece letter that the rank text `r`, read from index `i` with the next square on
/// file `file`, puts on the file `f`, if any.
pub open spec fn rank_piece(r: Seq<char>, i: int, file: int, f: int) -> Option<char>
    decreases r.len() - i,
{
    if file >= 8 || i < 0 || i >= r.len() {
        None
    } else if fen_piece(r[i]) is Some {
        if file == f {
            Some(r[i])
        } else {
            rank_piece(r, i + 1, file + 1, f)
        }
    } else if fen_skip(r[i]) is Some {
        rank_piece(r, i + 1, file + fen_skip(r[i])->0, f)
    } else {
        None
    }
}

/// Reading on from file `file`, no piece goes on an earlier file.
pub proof fn lemma_rank_piece_behind(r: Seq<char>, i: int, file: int, f: int)
    requires
        f < file,
    ensures
        rank_piece(r, i, file, f) is None,
    decreases r.len() - i,
{
    if file >= 8 || i < 0 || i >= r.len() {
    } else if fen_piece(r[i]) is Some {
        lemma_rank_piece_behind(r, i + 1, file + 1, f);
    } else if fen_skip(r[i]) is Some {
        lemma_rank_piece_behind(r, i + 1, file + fen_skip(r[i])->0, f);
    }
}

/// Reading a rank text after a prefix is reading the text alone.
pub proof fn lemma_rank_read_shift(a: Seq<char>, b: Seq<char>, j: int, file: int, f: int)
    requires
        0 <= j,
    ensures
        rank_piece(a + b, a.len() + j, file, f) == rank_piece(b, j, file, f),
        rank_ok(a + b, a.len() + j, file) == rank_ok(b, j, file),
    decreases b.len() - j,
{
    if j < b.len() {
        assert((a + b)[a.len() + j] == b[j]);
        if fen_piece(b[j]) is Some {
            lemma_rank_read_shift(a, b, j + 1, file + 1, f);
        } else if fen_skip(b[j]) is Some {
            lemma_rank_read_shift(a, b, j + 1, file + fen_skip(b[j])->0, f);
        }
    }
}

/// The index of the board (kind, colour) a piece letter stands for, with the letter
/// checked.
fn piece_of_char(c: char) -> (res: Option<(usize, usize)>)
    ensures
        match fen_piece(c) {
            Some((p, col)) => res == Some((p as usize, col as usize)),
            None => res is None,
        },
{
    match c {
        'P' => Some((0, 0)),
        'p' => Some((0, 1)),
        'N' => Some((1, 0)),
        'n' => Some((1, 1)),
        'B' => Some((2, 0)),
        'b' => Some((2, 1)),
        'R' => Some((3, 0)),
        'r' => Some((3, 1)),
        'Q' => Some((4, 0)),
        'q' => Some((4, 1)),
        'K' => Some((5, 0)),
        'k' => Some((5, 1)),
        _ => None,
    }
}

/// The number of squares a digit skips, with the digit checked.
fn skip_of_char(c: char) -> (res: Option<usize>)
    ensures
        match fen_skip(c) {
            Some(n) => res == Some(n as usize),
            None => res is None,
        },
{
    match c {
        '1' => Some(1),
        '2' => Some(2),
        '3' => Some(3),
        '4' => Some(4),
        '5' => Some(5),
        '6' => Some(6),
        '7' => Some(7),
        '8' => Some(8),
        _ => None,
    }
}

/// The square of rank row `row` (0 for the eighth rank) and file `f`.
pub open spec fn row_square(row: int, f: int) -> int {
    (7 - row) * 8 + f
}

/// The boards as the rows before `row` of the ranks `ranks` describe them, and nothing
/// on the other squares.
pub open spec fn boards_from_rows(
    pieces: [[u64; 2]; 6],
    ranks: Seq<Seq<char>>,
    row: int,
) -> bool {
    forall|p: int, c: int, t: int|
        0 <= p < 6 && 0 <= c < 2 && 0 <= t < 64 ==> #[trigger] bit(pieces[p][c], t) == (7
            - t / 8 < row && fen_piece_at(ranks, t) == Some((p, c)))
}

/// The board (kind, colour) of the piece the ranks put on the square `t`.
pub open spec fn fen_piece_at(ranks: Seq<Seq<char>>, t: int) -> Option<(int, int)> {
    match rank_piece(ranks[7 - t / 8], 0, 0, t % 8) {
        Some(ch) => fen_piece(ch),
        None => None,
    }
}

/// Puts the pieces of the rank text `r` for the rank row `row` (0 for the eighth rank)
/// on the boards; tells whether the text names all eight files.
pub fn parse_rank(
    r: &Vec<char>,
    row: usize,
    pieces: &mut [[u64; 2]; 6],
    Ghost(ranks): Ghost<Seq<Seq<char>>>,
) -> (ok: bool)
    requires
        row < 8,
        ranks.len() == 8,
        ranks[row as int] == r@,
        boards_from_rows(*old(pieces), ranks, row as int),
    ensures
        ok == rank_ok(r@, 0, 0),
        ok ==> boards_from_rows(*final(pieces), ranks, row + 1),
{
    let mut file: usize = 0;
    let mut i: usize = 0;
    while file < 8
        invariant
            row < 8,
            ranks.len() == 8,
            ranks[row as int] == r@,
            i <= r.len(),
            rank_ok(r@, 0, 0) == rank_ok(r@, i as int, file as int),
            forall|f: int|
                file <= f < 8 ==> rank_piece(r@, 0, 0, f) == rank_piece(r@, i as int, file as int, f),
            forall|p: int, c: int, t: int|
                0 <= p < 6 && 0 <= c < 2 && 0 <= t < 64 ==> #[trigger] bit(pieces[p][c], t) == (
                (7 - t / 8 < row || (7 - t / 8 == row && t % 8 < file)) && fen_piece_at(ranks, t)
                    == Some((p, c))),
        decreases r.len() - i,
    {
        if i >= r.len() {
            return false;
        }
        let ch = r[i];
        let ghost old_pieces = *pieces;
        match piece_of_char(ch) {
            Some((p, c)) => {
                let idx = (7 - row) * 8 + file;
                let b = pieces[p][c] | (1u64 << idx as u64);
                let mut rowb = pieces[p];
                rowb[c] = b;
                pieces[p] = rowb;
                proof {
                    assert(rank_piece(r@, i as int, file as int, file as int) == Some(ch));
                    assert forall|f: int| file + 1 <= f < 8 implies rank_piece(r@, 0, 0, f)
                        == rank_piece(r@, i + 1, file + 1, f) by {}
                    assert forall|q: int, d: int, t: int|
                        0 <= q < 6 && 0 <= d < 2 && 0 <= t < 64 implies #[trigger] bit(
                        pieces[q][d],
                        t,
                    ) == ((7 - t / 8 < row || (7 - t / 8 == row && t % 8 < file + 1))
                        && fen_piece_at(ranks, t) == Some((q, d))) by {
                        if t == idx {
                            assert(t / 8 == 7 - row && t % 8 == file);
                        } else if 7 - t / 8 == row && t % 8 == file {
                            assert(t == idx);
                        }
                    }
                }
                file = file + 1;
            },
            None => {
                match skip_of_char(ch) {
                    Some(n) => {
                        proof {
                            assert forall|f: int| file + n <= f < 8 implies rank_piece(r@, 0, 0, f)
                                == rank_piece(r@, i + 1, file + n, f) by {}
                            assert forall|f: int| file <= f < file + n && f < 8 implies rank_piece(
                                r@,
                                0,
                                0,
                                f,
                            ) is None by {
                                lemma_rank_piece_behind(r@, i + 1, file + n, f);
                            }
                        }
                        file = file + n;
                        proof {
                            assert forall|q: int, d: int, t: int|
                                0 <= q < 6 && 0 <= d < 2 && 0 <= t < 64 implies #[trigger] bit(
                                pieces[q][d],
                                t,
                            ) == ((7 - t / 8 < row || (7 - t / 8 == row && t % 8 < file))
                                && fen_piece_at(ranks, t) == Some((q, d))) by {
                                if 7 - t / 8 == row && t % 8 < file && t % 8 >= file - n {
                                    assert(rank_piece(r@, 0, 0, t % 8) is None);
                                }
                            }
                        }
                    },
                    None => {
                        return false;
                    },
                }
            },
        }
        i = i + 1;
    }
    proof {
        assert forall|p: int, c: int, t: int|
            0 <= p < 6 && 0 <= c < 2 && 0 <= t < 64 implies #[trigger] bit(pieces[p][c], t) == (7
            - t / 8 < row + 1 && fen_piece_at(ranks, t) == Some((p, c))) by {}
    }
    true
}

// ---------------------------------------------------------------------------
// Numbers and squares.
// ---------------------------------------------------------------------------

/// The value of the decimal digits `s`.
pub open spec fn digits_value(s: Seq<char>) -> int
    decreases s.len(),
{
    if s.len() == 0 {
        0
    } else {
        10 * digits_value(s.drop_last()) + (s.last() as int - '0' as int)
    }
}

/// All characters of `s` are decimal digits.
pub open spec fn all_digits(s: Seq<char>) -> bool {
    forall|i: int| 0 <= i < s.len() ==> '0' <= #[trigger] s[i] && s[i] <= '9'
}

/// The number a text gives as `str::parse::<usize>` reads it: an optional '+' and then
/// one or more decimal digits, of a value that fits.
pub open spec fn parse_usize(s: Seq<char>) -> Option<usize> {
    let d = if s.len() > 0 && s[0] == '+' {
        s.drop_first()
    } else {
        s
    };
    if d.len() > 0 && all_digits(d) && digits_value(d) <= usize::MAX {
        Some(digits_value(d) as usize)
    } else {
        None
    }
}

proof fn lemma_digits_value_grows(s: Seq<char>)
    requires
        all_digits(s),
    ensures
        digits_value(s) >= 0,
    decreases s.len(),
{
    if s.len() > 0 {
        lemma_digits_value_grows(s.drop_last());
    }
}

/// Reads a number as `str::parse::<usize>` does; `None` where that gives an error.
pub fn parse_number(s: &Vec<char>) -> (res: Option<usize>)
    ensures
        res == parse_usize(s@),
{
    let start: usize = if s.len() > 0 && s[0] == '+' {
        1
    } else {
        0
    };
    let ghost d = if s@.len() > 0 && s@[0] == '+' {
        s@.drop_first()
    } else {
        s@
    };
    proof {
        assert(d =~= s@.subrange(start as int, s@.len() as int));
    }
    if start >= s.len() {
        return None;
    }
    let mut value: usize = 0;
    let mut i: usize = start;
    while i < s.len()
        invariant
            start <= i <= s.len(),
            d == (if s@.len() > 0 && s@[0] == '+' {
                s@.drop_first()
            } else {
                s@
            }),
            d =~= s@.subrange(start as int, s@.len() as int),
            all_digits(s@.subrange(start as int, i as int)),
            value == digits_value(s@.subrange(start as int, i as int)),
        decreases s.len() - i,
    {
        let ch = s[i];
        let ghost prefix = s@.subrange(start as int, i as int);
        let ghost next = s@.subrange(start as int, i + 1);
        proof {
            assert(next.drop_last() =~= prefix);
            assert(next.last() == ch);
        }
        if ch < '0' || ch > '9' {
            proof {
                assert(d[i - start] == ch);
                assert(!all_digits(d));
                assert(d == (if s@.len() > 0 && s@[0] == '+' {
                    s@.drop_first()
                } else {
                    s@
                }));
                assert(parse_usize(s@) is None);
            }
            return None;
        }
        let digit = (ch as u32 - '0' as u32) as usize;
        match value.checked_mul(10) {
            Some(v) => match v.checked_add(digit) {
                Some(w) => {
                    value = w;
                },
                None => {
                    proof {
                        assert(all_digits(next));
                        lemma_digits_tail_bound(d, next);
                    }
                    return None;
                },
            },
            None => {
                proof {
                    assert(all_digits(next));
                    lemma_digits_tail_bound(d, next);
                }
                return None;
            },
        }
        i = i + 1;
    }
    proof {
        assert(s@.subrange(start as int, s@.len() as int) =~= d);
    }
    Some(value)
}

/// A text of digits is worth at least any of its prefixes.
proof fn lemma_digits_tail_bound(d: Seq<char>, prefix: Seq<char>)
    requires
        prefix.len() <= d.len(),
        prefix =~= d.subrange(0, prefix.len() as int),
        all_digits(prefix),
    ensures
        all_digits(d) ==> digits_value(d) >= digits_value(prefix),
    decreases d.len() - prefix.len(),
{
    if all_digits(d) && d.len() > prefix.len() {
        let longer = d.subrange(0, prefix.len() as int + 1);
        assert(longer.drop_last() =~= prefix);
        assert(all_digits(longer));
        lemma_digits_value_grows(prefix);
        assert('0' <= longer.last());
        assert(digits_value(longer) == 10 * digits_value(prefix) + (longer.last() as int - '0' as int));
        lemma_digits_tail_bound(d, longer);
    } else if all_digits(d) {
        assert(prefix =~= d);
    }
}

/// The file a letter `a` to `h` (or `A` to `H`) names.
pub open spec fn file_letter_value(c: char) -> Option<int> {
    if 'a' <= c && c <= 'h' {
        Some(c as int - 'a' as int)
    } else if 'A' <= c && c <= 'H' {
        Some(c as int - 'A' as int)
    } else {
        None
    }
}

/// The rank index a digit `1` to `8` names.
pub open spec fn rank_digit_value(c: char) -> Option<int> {
    if '1' <= c && c <= '8' {
        Some(c as int - '1' as int)
    } else {
        None
    }
}

/// The en-passant field: `-` for none, else a file letter and a rank digit (what
/// follows them is not read).
pub open spec fn parse_en_passant(s: Seq<char>) -> Option<u64> {
    if is_just(s, '-') {
        Some(0u64)
    } else if s.len() >= 2 && file_letter_value(s[0]) is Some && rank_digit_value(s[1]) is Some {
        Some(1u64 << (8 * rank_digit_value(s[1])->0 + file_letter_value(s[0])->0) as u64)
    } else {
        None
    }
}

/// Reads the en-passant field.
pub fn read_en_passant(s: &Vec<char>) -> (res: Option<u64>)
    ensures
        res == parse_en_passant(s@),
{
    if is_just_char(s, '-') {
        return Some(0u64);
    }
    if s.len() < 2 {
        return None;
    }
    let f = s[0];
    let r = s[1];
    let file: u64 = if 'a' <= f && f <= 'h' {
        (f as u32 - 'a' as u32) as u64
    } else if 'A' <= f && f <= 'H' {
        (f as u32 - 'A' as u32) as u64
    } else {
        return None;
    };
    let rank: u64 = if '1' <= r && r <= '8' {
        (r as u32 - '1' as u32) as u64
    } else {
        return None;
    };
    Some(1u64 << (8 * rank + file))
}


// ---------------------------------------------------------------------------
// Writing numbers.
// ---------------------------------------------------------------------------

/// The character of the decimal digit `d`.
pub open spec fn digit_char(d: int) -> char {
    ('0' as int + d) as char
}

/// The decimal digits of `n`, without leading zeros.
pub open spec fn decimal(n: nat) -> Seq<char>
    decreases n,
{
    if n < 10 {
        seq![digit_char(n as int)]
    } else {
        decimal(n / 10).push(digit_char((n % 10) as int))
    }
}

/// The digit of `d`, 0 to 9, is a decimal digit worth `d`.
pub proof fn lemma_digit_char(d: int)
    requires
        0 <= d <= 9,
    ensures
        digit_char(d) as int == '0' as int + d,
        '0' <= digit_char(d) <= '9',
{
}

/// The decimal digits of a number that fits read back as that number.
pub proof fn lemma_decimal_reads(n: nat)
    requires
        n <= usize::MAX,
    ensures
        decimal(n).len() > 0,
        all_digits(decimal(n)),
        digits_value(decimal(n)) == n,
        parse_usize(decimal(n)) == Some(n as usize),
    decreases n,
{
    let d = decimal(n);
    if n >= 10 {
        lemma_decimal_reads(n / 10);
        lemma_digit_char((n % 10) as int);
        assert(d.drop_last() =~= decimal(n / 10));
        assert(d.last() == digit_char((n % 10) as int));
        assert(n == 10 * (n / 10) + n % 10) by (nonlinear_arith);
        assert(digits_value(d) == 10 * digits_value(decimal(n / 10)) + (n % 10));
        assert forall|i: int| 0 <= i < d.len() implies '0' <= #[trigger] d[i] && d[i] <= '9' by {
            if i < d.len() - 1 {
                assert(d[i] == decimal(n / 10)[i]);
            }
        }
    } else {
        lemma_digit_char(n as int);
        assert(d.drop_last() =~= Seq::<char>::empty());
        assert(digits_value(Seq::<char>::empty()) == 0);
        assert(digits_value(d) == n);
    }
    assert(d[0] != '+');
    assert(digits_value(d) <= usize::MAX);
}

/// The decimal digit `d` as a string.
pub fn digit_str(d: usize) -> (res: &'static str)
    requires
        d < 10,
    ensures
        res@ == seq![digit_char(d as int)],
{
    proof {
        reveal_strlit("0");
        reveal_strlit("1");
        reveal_strlit("2");
        reveal_strlit("3");
        reveal_strlit("4");
        reveal_strlit("5");
        reveal_strlit("6");
        reveal_strlit("7");
        reveal_strlit("8");
        reveal_strlit("9");
    }
    match d {
        0 => "0",
        1 => "1",
        2 => "2",
        3 => "3",
        4 => "4",
        5 => "5",
        6 => "6",
        7 => "7",
        8 => "8",
        _ => "9",
    }
}

/// Appends the decimal digits of `n` to `s`.
pub fn append_decimal(s: &mut String, n: usize)
    ensures
        final(s)@ == old(s)@ + decimal(n as nat),
    decreases n,
{
    if n >= 10 {
        append_decimal(s, n / 10);
    }
    s.append(digit_str(n % 10));
    proof {
        if n >= 10 {
            assert(final(s)@ =~= old(s)@ + decimal(n as nat));
        } else {
            assert(final(s)@ =~= old(s)@ + decimal(n as nat));
        }
    }
}

} // verus!
