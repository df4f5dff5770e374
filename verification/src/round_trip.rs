//! Writing a position and reading it back.
use vstd::prelude::*;

use crate::board::{position, wf, DOWN, EMPTY};
use crate::fen::{
    board_of, board_text, code_of, digits_end, empties, fen_text, field_end, fields_from,
    law_letters_distinct, lemma_digits_end, letter_of, no_tiles, pairs_text, pool_from, pool_of,
    pool_text, rank_row, rank_squares, rank_text, reading, row_of, row_text, turn_of, turn_text,
    with_run, Reading,
};
use crate::text::{
    all_digits, decimal, digit_char, digit_value, is_digit, is_space, number, skip_spaces, value_of,
    word_end, words, words_from,
};

verus! {

// ---------------------------------------------------------------- words

/// A text without white space.
pub open spec fn solid(s: Seq<char>) -> bool {
    forall|i: int| 0 <= i < s.len() ==> !is_space(#[trigger] s[i])
}

proof fn lemma_word_end_at(s: Seq<char>, i: int, j: int)
    requires
        0 <= i <= j <= s.len(),
        forall|k: int| i <= k < j ==> !is_space(#[trigger] s[k]),
        j < s.len() ==> is_space(s[j]),
    ensures
        word_end(s, i) == j,
    decreases j - i,
{
    if i < j {
        lemma_word_end_at(s, i + 1, j);
    }
}

/// The word that fills `i..j`, and the words after it.
proof fn lemma_word_at(s: Seq<char>, i: int, j: int)
    requires
        0 <= i < j <= s.len(),
        forall|k: int| i <= k < j ==> !is_space(#[trigger] s[k]),
        j < s.len() ==> is_space(s[j]),
    ensures
        words_from(s, i) == seq![s.subrange(i, j)] + words_from(
            s,
            if j < s.len() {
                j + 1
            } else {
                j
            },
        ),
{
    lemma_word_end_at(s, i, j);
    assert(skip_spaces(s, i) == i);
    if j < s.len() {
        assert(skip_spaces(s, j) == skip_spaces(s, j + 1));
        assert(words_from(s, j) == words_from(s, j + 1));
    }
}

/// Five words separated by single spaces.
pub proof fn lemma_five_words(a: Seq<char>, b: Seq<char>, c: Seq<char>, d: Seq<char>, e: Seq<char>)
    requires
        solid(a) && solid(b) && solid(c) && solid(d) && solid(e),
        a.len() > 0,
        b.len() > 0,
        c.len() > 0,
        d.len() > 0,
        e.len() > 0,
    ensures
        words(a + seq![' '] + b + seq![' '] + c + seq![' '] + d + seq![' '] + e) == seq![
            a,
            b,
            c,
            d,
            e,
        ],
{
    let s = a + seq![' '] + b + seq![' '] + c + seq![' '] + d + seq![' '] + e;
    let i1 = a.len() as int;
    let i2 = i1 + 1 + b.len();
    let i3 = i2 + 1 + c.len();
    let i4 = i3 + 1 + d.len();
    let n = s.len() as int;
    assert(is_space(' '));
    assert(s[i1] == ' ' && s[i2] == ' ' && s[i3] == ' ' && s[i4] == ' ');
    assert forall|k: int| 0 <= k < i1 implies !is_space(#[trigger] s[k]) by {
        assert(s[k] == a[k]);
    }
    assert forall|k: int| i1 + 1 <= k < i2 implies !is_space(#[trigger] s[k]) by {
        assert(s[k] == b[k - i1 - 1]);
    }
    assert forall|k: int| i2 + 1 <= k < i3 implies !is_space(#[trigger] s[k]) by {
        assert(s[k] == c[k - i2 - 1]);
    }
    assert forall|k: int| i3 + 1 <= k < i4 implies !is_space(#[trigger] s[k]) by {
        assert(s[k] == d[k - i3 - 1]);
    }
    assert forall|k: int| i4 + 1 <= k < n implies !is_space(#[trigger] s[k]) by {
        assert(s[k] == e[k - i4 - 1]);
    }
    lemma_word_at(s, 0, i1);
    lemma_word_at(s, i1 + 1, i2);
    lemma_word_at(s, i2 + 1, i3);
    lemma_word_at(s, i3 + 1, i4);
    lemma_word_at(s, i4 + 1, n);
    assert(skip_spaces(s, n) == n);
    assert(words_from(s, n) =~= seq![]);
    assert(s.subrange(0, i1) =~= a);
    assert(s.subrange(i1 + 1, i2) =~= b);
    assert(s.subrange(i2 + 1, i3) =~= c);
    assert(s.subrange(i3 + 1, i4) =~= d);
    assert(s.subrange(i4 + 1, n) =~= e);
    assert(words(s) =~= seq![a, b, c, d, e]);
}

// ---------------------------------------------------------------- numbers

/// Reading a number in decimal gives the number.
pub proof fn law_decimal_round_trip(n: nat)
    ensures
        number(decimal(n)) == Some(n),
        all_digits(decimal(n)),
        decimal(n).len() > 0,
        value_of(decimal(n)) == n,
        solid(decimal(n)),
    decreases n,
{
    let s = decimal(n);
    if n < 10 {
        assert(s.drop_last() =~= seq![]);
        assert(value_of(s.drop_last()) == 0);
        assert(is_digit(s[0]));
    } else {
        law_decimal_round_trip(n / 10);
        assert(s.drop_last() =~= decimal(n / 10));
        assert(is_digit(digit_char((n % 10) as int)));
        assert forall|i: int| 0 <= i < s.len() implies is_digit(#[trigger] s[i]) by {
            if i < s.len() - 1 {
                assert(s[i] == decimal(n / 10)[i]);
            }
        }
    }
    assert forall|i: int| 0 <= i < s.len() implies !is_space(#[trigger] s[i]) by {
        assert(is_digit(s[i]));
    }
    assert(is_digit(s[0]));
}

// ---------------------------------------------------------------- letters

/// A piece letter is read as its piece, and as nothing else.
pub proof fn lemma_letter(code: int)
    requires
        0 <= code < 14,
    ensures
        code_of(letter_of(code)) == Some(code),
        !is_digit(letter_of(code)),
        letter_of(code) != 'X',
        letter_of(code) != '/',
        letter_of(code) != '-',
        !is_space(letter_of(code)),
{
    let k = choose|k: int| 0 <= k < 14 && #[trigger] letter_of(k) == letter_of(code);
    law_letters_distinct(k, code);
}

// ---------------------------------------------------------------- ranks

proof fn lemma_row_prefix(s: Seq<char>, t: Seq<char>, n: int)
    requires
        0 <= n <= s.len(),
        n <= t.len(),
        forall|i: int| 0 <= i < n ==> s[i] == t[i],
    ensures
        row_of(s, n) == row_of(t, n),
    decreases n,
{
    if n > 0 {
        lemma_row_prefix(s, t, n - 1);
    }
}

/// A rank holds codes of the encoding.
pub open spec fn row_wf(row: Seq<i16>) -> bool {
    row.len() == 8 && forall|i: int| 0 <= i < 8 ==> -2 <= #[trigger] row[i] < 14
}

/// The characters of a rank.
pub open spec fn rank_chars(s: Seq<char>) -> bool {
    forall|i: int| 0 <= i < s.len() ==> (#[trigger] s[i]) != '/' && !is_space(s[i])
}

/// A run of empty squares at the end of what was written is read back.
proof fn lemma_run(row: Seq<i16>, t: Seq<char>, e: nat, n: int)
    requires
        row_wf(row),
        0 <= n <= 8,
        e <= n,
        rank_chars(t),
        row_of(t, t.len() as int) == Some(row.take(n - e)),
        forall|i: int| n - e <= i < n ==> #[trigger] row[i] == EMPTY,
    ensures
        rank_chars(with_run(t, e)),
        row_of(with_run(t, e), with_run(t, e).len() as int) == Some(row.take(n)),
{
    let s = with_run(t, e);
    if e > 0 {
        assert(e < 10);
        assert(decimal(e) == seq![digit_char(e as int)]);
        assert(s =~= t.push(digit_char(e as int)));
        assert(is_digit(digit_char(e as int)));
        assert(digit_value(digit_char(e as int)) == e);
        lemma_row_prefix(s, t, t.len() as int);
        assert(row.take(n - e) + empties(e as int) =~= row.take(n));
    }
}

proof fn lemma_row_text(row: Seq<i16>, n: int)
    requires
        row_wf(row),
        0 <= n <= 8,
    ensures
        ({
            let (t, e) = row_text(row, n);
            &&& e <= n
            &&& rank_chars(t)
            &&& row_of(t, t.len() as int) == Some(row.take(n - e))
            &&& forall|i: int| n - e <= i < n ==> #[trigger] row[i] == EMPTY
        }),
    decreases n,
{
    if n <= 0 {
        assert(row.take(0) =~= seq![]);
    } else {
        lemma_row_text(row, n - 1);
        let (t0, e0) = row_text(row, n - 1);
        let c = row[n - 1];
        if c == EMPTY {
            assert(row.take(n - (e0 + 1)) == row.take(n - 1 - e0));
        } else {
            lemma_run(row, t0, e0, n - 1);
            let r = with_run(t0, e0);
            let (t, e) = row_text(row, n);
            if c != DOWN {
                lemma_letter(c as int);
            }
            assert(!is_digit('X') && !is_space('X'));
            lemma_row_prefix(t, r, r.len() as int);
            assert(row.take(n) =~= row.take(n - 1).push(c));
        }
    }
}

proof fn lemma_rank(row: Seq<i16>)
    requires
        row_wf(row),
    ensures
        rank_row(rank_text(row)) == Some(row),
        rank_chars(rank_text(row)),
{
    lemma_row_text(row, 8);
    let (t, e) = row_text(row, 8);
    lemma_run(row, t, e, 8);
    assert(row.take(8) =~= row);
}

// ---------------------------------------------------------------- the board

proof fn lemma_field_at(s: Seq<char>, i: int, j: int, sep: char)
    requires
        0 <= i <= j <= s.len(),
        forall|k: int| i <= k < j ==> #[trigger] s[k] != sep,
        j < s.len() ==> s[j] == sep,
    ensures
        field_end(s, i, sep) == j,
    decreases j - i,
{
    if i < j {
        lemma_field_at(s, i + 1, j, sep);
    }
}

/// Four ranks separated by slashes.
pub proof fn lemma_four_fields(a: Seq<char>, b: Seq<char>, c: Seq<char>, d: Seq<char>)
    requires
        rank_chars(a) && rank_chars(b) && rank_chars(c) && rank_chars(d),
    ensures
        fields_from(a + seq!['/'] + b + seq!['/'] + c + seq!['/'] + d, 0, '/') == seq![a, b, c, d],
        solid(a + seq!['/'] + b + seq!['/'] + c + seq!['/'] + d),
{
    let s = a + seq!['/'] + b + seq!['/'] + c + seq!['/'] + d;
    let i1 = a.len() as int;
    let i2 = i1 + 1 + b.len();
    let i3 = i2 + 1 + c.len();
    let n = s.len() as int;
    assert(s[i1] == '/' && s[i2] == '/' && s[i3] == '/');
    assert(!is_space('/'));
    assert forall|k: int| 0 <= k < i1 implies (#[trigger] s[k]) != '/' && !is_space(s[k]) by {
        assert(s[k] == a[k]);
    }
    assert forall|k: int| i1 + 1 <= k < i2 implies (#[trigger] s[k]) != '/' && !is_space(s[k]) by {
        assert(s[k] == b[k - i1 - 1]);
    }
    assert forall|k: int| i2 + 1 <= k < i3 implies (#[trigger] s[k]) != '/' && !is_space(s[k]) by {
        assert(s[k] == c[k - i2 - 1]);
    }
    assert forall|k: int| i3 + 1 <= k < n implies (#[trigger] s[k]) != '/' && !is_space(s[k]) by {
        assert(s[k] == d[k - i3 - 1]);
    }
    lemma_field_at(s, 0, i1, '/');
    lemma_field_at(s, i1 + 1, i2, '/');
    lemma_field_at(s, i2 + 1, i3, '/');
    lemma_field_at(s, i3 + 1, n, '/');
    assert(s.subrange(0, i1) =~= a);
    assert(s.subrange(i1 + 1, i2) =~= b);
    assert(s.subrange(i2 + 1, i3) =~= c);
    assert(s.subrange(i3 + 1, n) =~= d);
    assert(fields_from(s, i3 + 1, '/') == seq![d]);
    assert(fields_from(s, i2 + 1, '/') =~= seq![c, d]);
    assert(fields_from(s, i1 + 1, '/') =~= seq![b, c, d]);
    assert(fields_from(s, 0, '/') =~= seq![a, b, c, d]);
}

pub proof fn lemma_board(squares: Seq<i16>)
    requires
        squares.len() == 32,
        forall|i: int| 0 <= i < 32 ==> -2 <= #[trigger] squares[i] < 14,
    ensures
        board_of(board_text(squares)) == Some(squares),
        solid(board_text(squares)),
        board_text(squares).len() > 0,
{
    let r0 = rank_squares(squares, 0);
    let r1 = rank_squares(squares, 1);
    let r2 = rank_squares(squares, 2);
    let r3 = rank_squares(squares, 3);
    lemma_rank(r0);
    lemma_rank(r1);
    lemma_rank(r2);
    lemma_rank(r3);
    lemma_four_fields(rank_text(r3), rank_text(r2), rank_text(r1), rank_text(r0));
    assert(r0 + r1 + r2 + r3 =~= squares);
}

// ---------------------------------------------------------------- the pool

/// The counts of the first `k` codes, and no others.
spec fn first_counts(bag: Seq<u32>, k: int) -> Seq<u32> {
    Seq::new(
        14,
        |i: int|
            if i < k {
                bag[i]
            } else {
                0u32
            },
    )
}

/// The pairs of the first `k` codes begin the pairs of the first `n`, and what follows them is
/// a letter.
proof fn lemma_pairs_prefix(bag: Seq<u32>, k: int, n: int)
    requires
        0 <= k <= n <= 14,
    ensures
        pairs_text(bag, k).len() <= pairs_text(bag, n).len(),
        forall|i: int|
            0 <= i < pairs_text(bag, k).len() ==> #[trigger] pairs_text(bag, n)[i] == pairs_text(
                bag,
                k,
            )[i],
        pairs_text(bag, k).len() < pairs_text(bag, n).len() ==> exists|code: int|
            0 <= code < 14 && pairs_text(bag, n)[pairs_text(bag, k).len() as int]
                == #[trigger] letter_of(code),
    decreases n,
{
    if k < n {
        lemma_pairs_prefix(bag, k, n - 1);
        let p = pairs_text(bag, n - 1);
        let s = pairs_text(bag, n);
        let len = pairs_text(bag, k).len() as int;
        if bag[n - 1] > 0 {
            assert(s =~= p + seq![letter_of(n - 1)] + decimal(bag[n - 1] as nat));
            assert forall|i: int| 0 <= i < len implies #[trigger] s[i] == pairs_text(bag, k)[i] by {
                assert(s[i] == p[i]);
            }
            if len < p.len() {
                let code = choose|code: int|
                    0 <= code < 14 && p[len] == #[trigger] letter_of(code);
                assert(s[len] == letter_of(code));
            } else {
                assert(s[len] == letter_of(n - 1));
            }
        }
    }
}

pub proof fn lemma_digits_end_at(s: Seq<char>, i: int, j: int)
    requires
        0 <= i <= j <= s.len(),
        forall|k: int| i <= k < j ==> is_digit(#[trigger] s[k]),
        j < s.len() ==> !is_digit(s[j]),
    ensures
        digits_end(s, i) == j,
    decreases j - i,
{
    if i < j {
        lemma_digits_end_at(s, i + 1, j);
    }
}

/// Reading the pairs from the `k`-th code on completes the counts of the codes before it.
proof fn lemma_pairs(bag: Seq<u32>, k: int)
    requires
        bag.len() == 14,
        0 <= k <= 14,
    ensures
        pool_from(pairs_text(bag, 14), pairs_text(bag, k).len() as int, first_counts(bag, k))
            == Some(bag),
    decreases 14 - k,
{
    let s = pairs_text(bag, 14);
    let j = pairs_text(bag, k).len() as int;
    if k == 14 {
        assert(first_counts(bag, 14) =~= bag);
    } else {
        lemma_pairs(bag, k + 1);
        lemma_pairs_prefix(bag, k, 14);
        lemma_pairs_prefix(bag, k + 1, 14);
        let p = pairs_text(bag, k);
        let q = pairs_text(bag, k + 1);
        if bag[k] == 0 {
            assert(first_counts(bag, k) =~= first_counts(bag, k + 1));
        } else {
            let d = decimal(bag[k] as nat);
            law_decimal_round_trip(bag[k] as nat);
            assert(q =~= p + seq![letter_of(k)] + d);
            let e = q.len() as int;
            assert(s[j] == q[j] && q[j] == letter_of(k));
            lemma_letter(k);
            assert forall|i: int| j + 1 <= i < e implies is_digit(#[trigger] s[i]) by {
                assert(s[i] == q[i] && q[i] == d[i - j - 1]);
            }
            if e < s.len() {
                let code = choose|code: int| 0 <= code < 14 && s[e] == #[trigger] letter_of(code);
                lemma_letter(code);
            }
            lemma_digits_end_at(s, j + 1, e);
            assert(s.subrange(j + 1, e) =~= d);
            assert(first_counts(bag, k).update(k, bag[k]) =~= first_counts(bag, k + 1));
        }
    }
}

proof fn lemma_pairs_chars(bag: Seq<u32>, n: int)
    requires
        0 <= n <= 14,
    ensures
        solid(pairs_text(bag, n)),
        pairs_text(bag, n).len() > 0 ==> pairs_text(bag, n)[0] != '-',
        pairs_text(bag, n).len() == 0 ==> forall|i: int| 0 <= i < n ==> #[trigger] bag[i] == 0,
    decreases n,
{
    if n > 0 {
        lemma_pairs_chars(bag, n - 1);
        let p = pairs_text(bag, n - 1);
        let s = pairs_text(bag, n);
        if bag[n - 1] > 0 {
            let d = decimal(bag[n - 1] as nat);
            law_decimal_round_trip(bag[n - 1] as nat);
            lemma_letter(n - 1);
            assert(s =~= p + seq![letter_of(n - 1)] + d);
            assert forall|i: int| 0 <= i < s.len() implies !is_space(#[trigger] s[i]) by {
                if i < p.len() {
                    assert(s[i] == p[i]);
                } else if i > p.len() {
                    assert(s[i] == d[i - p.len() - 1]);
                }
            }
            if p.len() > 0 {
                assert(s[0] == p[0]);
            } else {
                assert(s[0] == letter_of(n - 1));
            }
        }
    }
}

pub proof fn lemma_pool(bag: Seq<u32>)
    requires
        bag.len() == 14,
    ensures
        pool_of(pool_text(bag)) == Some(bag),
        solid(pool_text(bag)),
        pool_text(bag).len() > 0,
{
    lemma_pairs_chars(bag, 14);
    lemma_pairs(bag, 0);
    let s = pairs_text(bag, 14);
    if s.len() == 0 {
        assert(no_tiles() =~= bag);
        assert(!is_space('-'));
    } else {
        assert(s != seq!['-']) by {
            assert(seq!['-'][0] == '-');
        }
        assert(first_counts(bag, 0) =~= no_tiles());
    }
}

// ---------------------------------------------------------------- positions

/// Reading back a written position gives the position.
pub proof fn law_fen_round_trip(
    squares: Seq<i16>,
    bag: Seq<u32>,
    first_color: int,
    no_progress: nat,
    movenum: nat,
)
    requires
        squares.len() == 32,
        forall|i: int| 0 <= i < 32 ==> -2 <= #[trigger] squares[i] < 14,
        bag.len() == 14,
        -1 <= first_color <= 1,
        no_progress <= u32::MAX,
    ensures
        reading(fen_text(squares, bag, first_color, no_progress, movenum)) == Some(
            Reading { squares, bag, first_color, no_progress },
        ),
{
    lemma_board(squares);
    lemma_pool(bag);
    law_decimal_round_trip(no_progress);
    law_decimal_round_trip(movenum);
    let t = turn_text(first_color);
    assert(!is_space('r') && !is_space('b') && !is_space('-'));
    assert(seq!['r'][0] == 'r' && seq!['b'][0] == 'b' && seq!['-'][0] == '-');
    assert(solid(t));
    assert(turn_of(t) == Some(first_color));
    lemma_five_words(
        board_text(squares),
        t,
        pool_text(bag),
        decimal(no_progress),
        decimal(movenum),
    );
}

// ---------------------------------------------------------------- what can be read

proof fn lemma_row_codes(s: Seq<char>, n: int)
    ensures
        row_of(s, n) matches Some(row) ==> forall|i: int|
            0 <= i < row.len() ==> -2 <= #[trigger] row[i] < 14,
    decreases n,
{
    if n > 0 {
        lemma_row_codes(s, n - 1);
    }
}

proof fn lemma_pool_len(s: Seq<char>, j: int, bag: Seq<u32>)
    requires
        0 <= j,
        bag.len() == 14,
    ensures
        pool_from(s, j, bag) matches Some(b) ==> b.len() == 14,
    decreases s.len() - j,
{
    if j < s.len() {
        if let Some(code) = code_of(s[j]) {
            let e = digits_end(s, j + 1);
            lemma_digits_end(s, j + 1);
            if e > j + 1 && value_of(s.subrange(j + 1, e)) <= u32::MAX {
                lemma_pool_len(s, e, bag.update(code, value_of(s.subrange(j + 1, e)) as u32));
            }
        }
    }
}

/// What a position text says is a well-formed position, at ply zero.
pub proof fn law_readings_are_well_formed(text: Seq<char>)
    ensures
        reading(text) matches Some(r) ==> {
            &&& r.squares.len() == 32
            &&& r.bag.len() == 14
            &&& r.no_progress <= u32::MAX
            &&& wf(position(r.squares, r.bag, r.first_color, 0, r.no_progress))
            &&& position(r.squares, r.bag, r.first_color, 0, r.no_progress).sq == r.squares
            &&& position(r.squares, r.bag, r.first_color, 0, r.no_progress).bag == r.bag
        },
{
    if let Some(r) = reading(text) {
        let parts = words(text);
        let ranks = fields_from(parts[0], 0, '/');
        lemma_row_codes(ranks[0], ranks[0].len() as int);
        lemma_row_codes(ranks[1], ranks[1].len() as int);
        lemma_row_codes(ranks[2], ranks[2].len() as int);
        lemma_row_codes(ranks[3], ranks[3].len() as int);
        lemma_pool_len(parts[2], 0, no_tiles());
        let p = position(r.squares, r.bag, r.first_color, 0, r.no_progress);
        assert(p.sq =~= r.squares);
        assert(p.bag =~= r.bag);
    }
}

/// What a position text says can be written and read again.
pub proof fn law_readings_can_be_written(text: Seq<char>, movenum: nat)
    ensures
        reading(text) matches Some(r) ==> reading(
            fen_text(r.squares, r.bag, r.first_color, r.no_progress, movenum),
        ) == Some(r),
{
    law_readings_are_well_formed(text);
    if let Some(r) = reading(text) {
        let p = position(r.squares, r.bag, r.first_color, 0, r.no_progress);
        assert forall|i: int| 0 <= i < 32 implies -2 <= #[trigger] r.squares[i] < 14 by {
            assert(-2 <= p.sq[i] < 14);
        }
        law_fen_round_trip(r.squares, r.bag, r.first_color, r.no_progress, movenum);
    }
}

} // verus!
