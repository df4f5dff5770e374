//! The letters, digits and words of the notation, and the numbers behind keys and draws, written
//! out.
use vstd::prelude::*;

use crate::analysis::{row_json, rows_json, shown};
use crate::arith::Arith;
use crate::board::Pos;
use crate::fen::{
    board_of, board_text, code_of, empties, fen_text, letter_of, no_tiles, pool_from, pool_of,
    pool_text, rank_row, rank_text, reading, row_of, row_text, turn_of, turn_text, with_run,
    Reading,
};
use crate::movement::law_turns;
use crate::protocol::{
    after_moves, answer_lines, before_moves, command_of, count_or, deed_of, find_from, game_after,
    info_text, limits_from, moves_in, per_second, start_of, Deed, Game,
};
use crate::rng::{advanced, lemma_advanced, mixed, output};
use crate::root::SearchStats;
use crate::round_trip::{
    law_decimal_round_trip, lemma_board, lemma_digits_end_at, lemma_five_words, lemma_four_fields,
    lemma_letter, lemma_pool,
};
use crate::text::{
    decimal, digit_char, digit_value, is_digit, is_space, lemma_skip_spaces, lemma_word_end, number,
    signed_decimal, skip_spaces, trim_end, trimmed, value_of, word_end, words, words_from,
};
use crate::uci::{move_of, move_text, square_text};
use crate::zobrist::{bag_word, capped, content, key_of, key_of_bag, key_of_squares, square_word};

verus! {

// ---------------------------------------------------------------- pieces

/// The letters of the piece codes.
pub open spec fn letters() -> Seq<char> {
    seq!['G', 'A', 'E', 'R', 'H', 'C', 'S', 'g', 'a', 'e', 'r', 'h', 'c', 's']
}

/// Each piece has its letter: upper case for red, lower case for black.
pub proof fn law_letters(code: int)
    requires
        0 <= code < 14,
    ensures
        letter_of(code) == letters()[code],
        code_of(letters()[code]) == Some(code),
{
    lemma_letter(code);
    assert(letter_of(code) == letters()[code]);
}

/// No other character stands for a piece.
pub proof fn law_other_characters(c: char)
    requires
        forall|k: int| 0 <= k < 14 ==> #[trigger] letters()[k] != c,
    ensures
        code_of(c) is None,
{
    if code_of(c) is Some {
        let k = choose|k: int| 0 <= k < 14 && #[trigger] letter_of(k) == c;
        law_letters(k);
        assert(letters()[k] == c);
    }
}

// ---------------------------------------------------------------- ranks

/// Reading a rank goes from left to right. A digit adds that many empty squares, `X` a face-down
/// tile, a letter its piece, and anything else is an error, as is anything after the eighth square.
pub proof fn law_reading_a_rank(s: Seq<char>, c: char, code: int)
    ensures
        row_of(seq![], 0) == Some(Seq::<i16>::empty()),
        row_of(s, s.len() as int) is None ==> row_of(s.push(c), s.len() as int + 1) is None,
        row_of(s, s.len() as int) matches Some(row) ==> {
            let next = row_of(s.push(c), s.len() as int + 1);
            &&& row.len() >= 8 ==> next is None
            &&& row.len() < 8 && '0' <= c <= '9' ==> {
                &&& next matches Some(r)
                &&& next->0.len() == row.len() + (c as int - 48)
                &&& forall|j: int| 0 <= j < row.len() ==> #[trigger] next->0[j] == row[j]
                &&& forall|j: int| row.len() <= j < next->0.len() ==> #[trigger] next->0[j] == -1
            }
            &&& row.len() < 8 && c == 'X' ==> next == Some(row.push(-2i16))
            &&& row.len() < 8 && 0 <= code < 14 && c == letters()[code] ==> next == Some(
                row.push(code as i16),
            )
            &&& row.len() < 8 && !('0' <= c <= '9') && c != 'X' && (forall|k: int|
                0 <= k < 14 ==> #[trigger] letters()[k] != c) ==> next is None
        },
{
    lemma_prefix(s.push(c), s, s.len() as int);
    if 0 <= code < 14 && c == letters()[code] {
        law_letters(code);
        lemma_letter(code);
    }
    if forall|k: int| 0 <= k < 14 ==> #[trigger] letters()[k] != c {
        law_other_characters(c);
    }
    if let Some(row) = row_of(s, s.len() as int) {
        if row.len() < 8 && '0' <= c <= '9' {
            assert(is_digit(c));
            let next = row_of(s.push(c), s.len() as int + 1);
            assert(next == Some(row + empties(digit_value(c))));
        }
    }
}

proof fn lemma_prefix(s: Seq<char>, t: Seq<char>, n: int)
    requires
        0 <= n <= s.len(),
        n <= t.len(),
        forall|i: int| 0 <= i < n ==> s[i] == t[i],
    ensures
        row_of(s, n) == row_of(t, n),
    decreases n,
{
    if n > 0 {
        lemma_prefix(s, t, n - 1);
    }
}

/// A rank has eight squares.
pub proof fn law_ranks_have_eight_squares(s: Seq<char>)
    ensures
        rank_row(s) matches Some(row) ==> row.len() == 8 && row_of(s, s.len() as int) == Some(row),
        row_of(s, s.len() as int) matches Some(row) ==> (row.len() == 8 ==> rank_row(s) == Some(
            row,
        )),
{
}

proof fn lemma_row_characters(s: Seq<char>, n: int)
    requires
        row_of(s, n) is Some,
    ensures
        forall|i: int| 0 <= i < n ==> (#[trigger] s[i]) != '/' && !is_space(s[i]),
    decreases n,
{
    if n > 0 {
        lemma_row_characters(s, n - 1);
        let c = s[n - 1];
        if !is_digit(c) && c != 'X' {
            let k = choose|k: int| 0 <= k < 14 && #[trigger] letter_of(k) == c;
            lemma_letter(k);
        }
        assert(!is_space('X') && 'X' != '/');
    }
}

/// The top rank is written first: of four ranks separated by slashes the first is squares 24 to
/// 31, the last squares 0 to 7.
pub proof fn law_reading_a_board(
    a: Seq<char>,
    b: Seq<char>,
    c: Seq<char>,
    d: Seq<char>,
    j: int,
)
    requires
        rank_row(a) is Some,
        rank_row(b) is Some,
        rank_row(c) is Some,
        rank_row(d) is Some,
        0 <= j < 8,
    ensures
        ({
            let r = board_of(a + seq!['/'] + b + seq!['/'] + c + seq!['/'] + d);
            &&& r matches Some(sq)
            &&& r->0.len() == 32
            &&& r->0[24 + j] == rank_row(a)->0[j]
            &&& r->0[16 + j] == rank_row(b)->0[j]
            &&& r->0[8 + j] == rank_row(c)->0[j]
            &&& r->0[j] == rank_row(d)->0[j]
        }),
{
    lemma_row_characters(a, a.len() as int);
    lemma_row_characters(b, b.len() as int);
    lemma_row_characters(c, c.len() as int);
    lemma_row_characters(d, d.len() as int);
    lemma_four_fields(a, b, c, d);
}

proof fn lemma_no_adjacent_digits(row: Seq<i16>, n: int)
    requires
        row.len() == 8,
        forall|i: int| 0 <= i < 8 ==> -2 <= #[trigger] row[i] < 14,
        0 <= n <= 8,
    ensures
        ({
            let (t, e) = row_text(row, n);
            &&& e <= n
            &&& t.len() > 0 ==> !is_digit(t.last())
            &&& forall|i: int| 0 <= i < t.len() - 1 ==> !(is_digit(#[trigger] t[i]) && is_digit(
                t[i + 1],
            ))
        }),
    decreases n,
{
    if n > 0 {
        lemma_no_adjacent_digits(row, n - 1);
        let (t0, e0) = row_text(row, n - 1);
        let c = row[n - 1];
        if c != -1 {
            let (t, e) = row_text(row, n);
            if c != -2 {
                lemma_letter(c as int);
            }
            if e0 > 0 {
                assert(decimal(e0) == seq![digit_char(e0 as int)]);
            }
            let r = with_run(t0, e0);
            assert forall|i: int| 0 <= i < t.len() - 1 implies !(is_digit(#[trigger] t[i])
                && is_digit(t[i + 1])) by {
                if i + 1 < t0.len() {
                    assert(t[i] == t0[i] && t[i + 1] == t0[i + 1]);
                } else if i + 1 == t0.len() && e0 > 0 {
                    assert(t[i] == t0.last());
                }
            }
        }
    }
}

/// Empty squares in a row are written as one number.
pub proof fn law_one_number_for_a_gap(row: Seq<i16>, i: int)
    requires
        row.len() == 8,
        forall|i: int| 0 <= i < 8 ==> -2 <= #[trigger] row[i] < 14,
        0 <= i < rank_text(row).len() - 1,
    ensures
        !('0' <= rank_text(row)[i] <= '9' && '0' <= rank_text(row)[i + 1] <= '9'),
{
    lemma_no_adjacent_digits(row, 8);
    let (t, e) = row_text(row, 8);
    if e > 0 {
        assert(decimal(e) == seq![digit_char(e as int)]);
    }
    let s = rank_text(row);
    if i + 1 < t.len() {
        assert(s[i] == t[i] && s[i + 1] == t[i + 1]);
        assert(!(is_digit(t[i]) && is_digit(t[i + 1])));
    } else {
        assert(s[i] == t.last());
    }
}

// ---------------------------------------------------------------- the other fields

/// The side to move: `r` red, `b` black, `-` unbound; any other word is an error.
pub proof fn law_sides(s: Seq<char>)
    ensures
        turn_of(seq!['r']) == Some(0int),
        turn_of(seq!['b']) == Some(1int),
        turn_of(seq!['-']) == Some(-1int),
        s.len() != 1 || (s[0] != 'r' && s[0] != 'b' && s[0] != '-') ==> turn_of(s) is None,
        turn_text(0) == seq!['r'],
        turn_text(1) == seq!['b'],
        turn_text(-1) == seq!['-'],
{
    assert(seq!['r'][0] == 'r' && seq!['b'][0] == 'b' && seq!['-'][0] == '-');
}

/// A letter and a number in the pool count that many pieces of that code.
pub proof fn law_pool_pairs(code: int, n: nat, i: int)
    requires
        0 <= code < 14,
        n <= 0xffff_ffff,
        0 <= i < 14,
    ensures
        ({
            let r = pool_of(seq![letters()[code]] + decimal(n));
            &&& r matches Some(bag)
            &&& r->0[i] == if i == code {
                n as int
            } else {
                0
            }
        }),
        pool_of(seq!['-']) matches Some(bag) && bag[i] == 0,
{
    let s = seq![letters()[code]] + decimal(n);
    law_letters(code);
    lemma_letter(code);
    law_decimal_round_trip(n);
    assert(s[0] == letters()[code]);
    assert(s != seq!['-']) by {
        assert(seq!['-'][0] == '-');
    }
    assert forall|k: int| 1 <= k < s.len() implies is_digit(#[trigger] s[k]) by {
        assert(s[k] == decimal(n)[k - 1]);
    }
    lemma_digits_end_at(s, 1, s.len() as int);
    assert(s.subrange(1, s.len() as int) =~= decimal(n));
    let bag = no_tiles().update(code, n as u32);
    assert(pool_from(s, s.len() as int, bag) == Some(bag));
    assert(pool_from(s, 0, no_tiles()) == Some(bag));
}

/// A written position has five words: board, side, pool, clock and number of the move.
pub proof fn law_five_fields(
    squares: Seq<i16>,
    bag: Seq<u32>,
    first_color: int,
    no_progress: nat,
    movenum: nat,
)
    requires
        squares.len() == 32,
        forall|i: int| 0 <= i < 32 ==> -2 <= #[trigger] squares[i] < 14,
        bag.len() == 14,
        -1 <= first_color <= 1,
    ensures
        ({
            let w = words(fen_text(squares, bag, first_color, no_progress, movenum));
            &&& w.len() == 5
            &&& board_of(w[0]) == Some(squares)
            &&& turn_of(w[1]) == Some(first_color)
            &&& pool_of(w[2]) == Some(bag)
            &&& number(w[3]) == Some(no_progress)
            &&& number(w[4]) == Some(movenum)
        }),
{
    lemma_board(squares);
    lemma_pool(bag);
    law_decimal_round_trip(no_progress);
    law_decimal_round_trip(movenum);
    law_sides(turn_text(first_color));
    assert(!is_space('r') && !is_space('b') && !is_space('-'));
    lemma_five_words(
        board_text(squares),
        turn_text(first_color),
        pool_text(bag),
        decimal(no_progress),
        decimal(movenum),
    );
}

/// Numbers are written and read in decimal.
pub proof fn law_decimals(n: nat, s: Seq<char>, c: char)
    requires
        '0' <= c <= '9',
    ensures
        n < 10 ==> decimal(n) == seq![
            seq!['0', '1', '2', '3', '4', '5', '6', '7', '8', '9'][n as int],
        ],
        n >= 10 ==> decimal(n) == decimal(n / 10) + decimal(n % 10),
        value_of(s.push(c)) == 10 * value_of(s) + (c as int - 48),
        value_of(Seq::<char>::empty()) == 0,
{
    assert(s.push(c).drop_last() =~= s);
    if n < 10 {
        let d = seq!['0', '1', '2', '3', '4', '5', '6', '7', '8', '9'];
        assert(digit_char(n as int) == d[n as int]);
    } else {
        assert(decimal(n) =~= decimal(n / 10) + decimal(n % 10));
    }
}

// ---------------------------------------------------------------- squares and moves

/// A square is a file from `a` to `h` and a rank from `0` to `3`; a move is two squares.
pub proof fn law_square_names(i: u8, j: u8)
    requires
        i < 32,
        j < 32,
    ensures
        ({
            let files = seq!['a', 'b', 'c', 'd', 'e', 'f', 'g', 'h'];
            let ranks = seq!['0', '1', '2', '3'];
            let t = seq![
                files[i as int % 8],
                ranks[i as int / 8],
                files[j as int % 8],
                ranks[j as int / 8],
            ];
            &&& square_text(i as int) == seq![files[i as int % 8], ranks[i as int / 8]]
            &&& move_text((i, j)) == t
            &&& move_of(t) == Some((i, j))
        }),
{
    let files = seq!['a', 'b', 'c', 'd', 'e', 'f', 'g', 'h'];
    let ranks = seq!['0', '1', '2', '3'];
    assert(square_text(i as int) =~= seq![files[i as int % 8], ranks[i as int / 8]]);
    assert(square_text(j as int) =~= seq![files[j as int % 8], ranks[j as int / 8]]);
    let t = seq![
        files[i as int % 8],
        ranks[i as int / 8],
        files[j as int % 8],
        ranks[j as int / 8],
    ];
    assert(move_text((i, j)) =~= t);
    crate::uci::law_move_round_trip((i, j));
}

/// No other four characters name a move.
pub proof fn law_other_words_name_no_move(a: char, b: char, c: char, d: char)
    requires
        !is_space(a),
        !is_space(d),
        !('a' <= a <= 'h' && '0' <= b <= '3' && 'a' <= c <= 'h' && '0' <= d <= '3'),
    ensures
        move_of(seq![a, b, c, d]) is None,
{
    let s = seq![a, b, c, d];
    assert(skip_spaces(s, 0) == 0);
    assert(trim_end(s, 4) == 4);
    assert(trimmed(s) =~= s);
}

// ---------------------------------------------------------------- random numbers and keys

/// The generator advances by a constant.
pub proof fn law_generator_advances(seed: u64, n: nat)
    ensures
        advanced(seed, n) as int == (seed as int + n as int * 0x9E37_79B9_7F4A_7C15)
            % 0x1_0000_0000_0000_0000,
        output(seed, n) == mixed(advanced(seed, n + 1)),
{
    lemma_advanced(seed, n);
}

/// An output mixes the state: twice it is combined with itself shifted down and multiplied, and
/// once more combined with itself shifted down.
pub proof fn law_generator_mixes(s: u64)
    ensures
        ({
            let a = (s ^ (s / 0x4000_0000)) as int * 0xBF58_476D_1CE4_E5B9
                % 0x1_0000_0000_0000_0000;
            let b = ((a as u64) ^ ((a as u64) / 0x800_0000)) as int * 0x94D0_49BB_1331_11EB
                % 0x1_0000_0000_0000_0000;
            mixed(s) == (b as u64) ^ ((b as u64) / 0x8000_0000)
        }),
{
    assert(s >> 30 == s / 0x4000_0000) by (bit_vector);
    let a0 = s ^ (s >> 30);
    let a = a0.wrapping_mul(0xBF58_476D_1CE4_E5B9);
    assert(a >> 27 == a / 0x800_0000) by (bit_vector);
    let b0 = a ^ (a >> 27);
    let b = b0.wrapping_mul(0x94D0_49BB_1331_11EB);
    assert(b >> 31 == b / 0x8000_0000) by (bit_vector);
}

/// The exclusive or of `f` over the first `n` numbers.
pub open spec fn xor_over(f: spec_fn(int) -> u64, n: int) -> u64
    decreases n,
{
    if n <= 0 {
        0
    } else {
        xor_over(f, n - 1) ^ f(n - 1)
    }
}

proof fn lemma_xor_squares(sq: Seq<i16>, n: int, f: spec_fn(int) -> u64)
    requires
        forall|i: int|
            0 <= i < n ==> #[trigger] f(i) == output(
                0x1234_5678_9ABC_DEF0,
                (16 * i + if sq[i] == -1 {
                    15
                } else if sq[i] == -2 {
                    14
                } else {
                    sq[i] as int
                }) as nat,
            ),
    ensures
        key_of_squares(sq, n) == xor_over(f, n),
    decreases n,
{
    if n > 0 {
        lemma_xor_squares(sq, n - 1, f);
        assert(f(n - 1) == square_word(n - 1, content(sq[n - 1] as int)));
    }
}

proof fn lemma_xor_bag(bag: Seq<u32>, n: int, start: u64, f: spec_fn(int) -> u64)
    requires
        forall|i: int|
            0 <= i < n ==> #[trigger] f(i) == output(
                0x1234_5678_9ABC_DEF0,
                (512 + 33 * i + if bag[i] < 32 {
                    bag[i] as int
                } else {
                    32
                }) as nat,
            ),
    ensures
        key_of_bag(bag, n, start) == start ^ xor_over(f, n),
    decreases n,
{
    if n > 0 {
        lemma_xor_bag(bag, n - 1, start, f);
        assert(f(n - 1) == bag_word(n - 1, capped(bag[n - 1])));
        let x = xor_over(f, n - 1);
        let w = f(n - 1);
        assert((start ^ x) ^ w == start ^ (x ^ w)) by (bit_vector);
    } else {
        assert(start ^ 0u64 == start) by (bit_vector);
    }
}

/// The key of a position is the exclusive or of outputs of the generator: one for the content of
/// each square, one for each count of the bag, up to 32, and one for the side to move.
pub proof fn law_keys(p: Pos)
    requires
        p.first_color <= 1,
    ensures
        key_of(p) == (xor_over(
            |i: int|
                output(
                    0x1234_5678_9ABC_DEF0,
                    (16 * i + if p.sq[i] == -1 {
                        15
                    } else if p.sq[i] == -2 {
                        14
                    } else {
                        p.sq[i] as int
                    }) as nat,
                ),
            32,
        ) ^ xor_over(
            |i: int|
                output(
                    0x1234_5678_9ABC_DEF0,
                    (512 + 33 * i + if p.bag[i] < 32 {
                        p.bag[i] as int
                    } else {
                        32
                    }) as nat,
                ),
            14,
        )) ^ output(
            0x1234_5678_9ABC_DEF0,
            (974 + if p.first_color < 0 {
                2
            } else if p.ply % 2 == 0 {
                p.first_color
            } else {
                1 - p.first_color
            }) as nat,
        ),
{
    law_turns(p);
    let f = |i: int|
        output(
            0x1234_5678_9ABC_DEF0,
            (16 * i + if p.sq[i] == -1 {
                15
            } else if p.sq[i] == -2 {
                14
            } else {
                p.sq[i] as int
            }) as nat,
        );
    let g = |i: int|
        output(
            0x1234_5678_9ABC_DEF0,
            (512 + 33 * i + if p.bag[i] < 32 {
                p.bag[i] as int
            } else {
                32
            }) as nat,
        );
    lemma_xor_squares(p.sq, 32, f);
    lemma_xor_bag(p.bag, 14, key_of_squares(p.sq, 32), g);
}

// ---------------------------------------------------------------- commands

/// Where nothing is said of time or nodes, a search has a second and a hundred million nodes. A
/// time that is no number is a second, and a number of nodes that is none changes nothing.
pub proof fn law_limits(w: Seq<char>, first: Seq<char>, v: Seq<char>, u: Seq<char>)
    requires
        w != "movetime"@,
        w != "nodes"@,
    ensures
        limits_from(seq![first], 1, 1000, 100_000_000) == (1000u64, 100_000_000u64),
        limits_from(seq![first, w], 1, 1000, 100_000_000) == (1000u64, 100_000_000u64),
        limits_from(seq![first, "movetime"@, v], 1, 1000, 100_000_000) == (
            count_or(v, 1000),
            100_000_000u64,
        ),
        limits_from(seq![first, "nodes"@, v], 1, 1000, 100_000_000) == (
            1000u64,
            count_or(v, 100_000_000),
        ),
        limits_from(seq![first, "movetime"@, v, "nodes"@, u], 1, 1000, 100_000_000) == (
            count_or(v, 1000),
            count_or(u, 100_000_000),
        ),
        limits_from(seq![first, "nodes"@, u, "movetime"@, v], 1, 1000, 100_000_000) == (
            count_or(v, 1000),
            count_or(u, 100_000_000),
        ),
{
    reveal_strlit("movetime");
    reveal_strlit("nodes");
    reveal_with_fuel(limits_from, 4);
    assert("movetime"@.len() == 8 && "nodes"@.len() == 5);
}

/// A word that is neither is passed over.
pub proof fn law_other_words_set_no_limit(ws: Seq<Seq<char>>, i: int, movetime: u64, nodes: u64)
    requires
        0 <= i < ws.len(),
        ws[i] != "movetime"@,
        ws[i] != "nodes"@,
    ensures
        limits_from(ws, i, movetime, nodes) == limits_from(ws, i + 1, movetime, nodes),
{
}

/// A line whose first word is no command changes nothing and is not answered.
pub proof fn law_other_lines_are_passed_over(g: Game, line: Seq<char>)
    requires
        command_of(line) != "uci"@,
        command_of(line) != "isready"@,
        command_of(line) != "ucinewgame"@,
        command_of(line) != "position"@,
        command_of(line) != "go"@,
        command_of(line) != "quit"@,
    ensures
        game_after(g, line) == g,
        deed_of(g, line) == Deed::Say(seq![]),
{
}

/// Without a position there is no search and no move; with one, `go` searches it within the limits
/// that its words set, and leaves it as it is.
pub proof fn law_go(g: Game, line: Seq<char>)
    requires
        command_of(line) == "go"@,
    ensures
        game_after(g, line) == g,
        g.current is None ==> deed_of(g, line) == Deed::Say(seq!["bestmove (none)"@]),
        g.current is Some ==> {
            let limits = limits_from(words(trimmed(line)), 1, 1000, 100_000_000);
            deed_of(g, line) == Deed::Search { movetime: limits.0, nodes: limits.1 }
        },
{
    reveal_strlit("go");
    reveal_strlit("uci");
    reveal_strlit("isready");
    reveal_strlit("ucinewgame");
    reveal_strlit("position");
    assert("go"@.len() == 2 && "uci"@.len() == 3 && "isready"@.len() == 7 && "ucinewgame"@.len()
        == 10 && "position"@.len() == 8);
}

/// The moves that words name are kept in order, and other words are dropped.
pub proof fn law_named_moves(ws: Seq<Seq<char>>, n: int)
    requires
        0 <= n < ws.len(),
    ensures
        moves_in(ws, 0) == Seq::<(u8, u8)>::empty(),
        moves_in(ws, n + 1) == match move_of(ws[n]) {
            Some(m) => moves_in(ws, n).push(m),
            None => moves_in(ws, n),
        },
{
}

/// What is read as a position is searched with the side that was read to move.
pub proof fn law_read_positions(r: Reading, i: int)
    requires
        r.squares.len() == 32,
        r.bag.len() == 14,
    ensures
        ({
            let p = start_of(r);
            &&& p.sq == r.squares
            &&& p.bag == r.bag
            &&& p.first_color == r.first_color
            &&& p.no_progress == r.no_progress
            &&& p.ply == 0
        }),
{
    let p = start_of(r);
    assert(p.sq =~= r.squares);
    assert(p.bag =~= r.bag);
}

/// Nodes per second are a thousand times the nodes over the milliseconds, rounded down.
pub proof fn law_nodes_per_second(nodes: nat, elapsed_ms: nat)
    requires
        elapsed_ms > 0,
        nodes * 1000 <= 0xffff_ffff_ffff_ffff,
    ensures
        per_second(nodes, elapsed_ms) * elapsed_ms <= nodes * 1000,
        nodes * 1000 < (per_second(nodes, elapsed_ms) + 1) * elapsed_ms,
{
    let x = nodes * 1000;
    let q = x / elapsed_ms;
    assert(q * elapsed_ms <= x < (q + 1) * elapsed_ms) by (nonlinear_arith)
        requires
            q == x / elapsed_ms,
            elapsed_ms > 0,
    ;
}

/// As many lines are shown as asked for and as there are, and at least one where there is one.
pub proof fn law_lines_shown(multipv: u32, len: nat)
    ensures
        shown(multipv, len) <= len,
        multipv > 0 ==> shown(multipv, len) <= multipv,
        multipv > 0 && multipv <= len ==> shown(multipv, len) == multipv,
        len > 0 ==> shown(multipv, len) >= 1,
        multipv >= len ==> shown(multipv, len) == len || multipv == 0,
        multipv == 0 && len > 0 ==> shown(multipv, len) == 1,
{
}

// ---------------------------------------------------------------- white space

/// White space, by its code points.
pub proof fn law_white_space(c: char)
    ensures
        is_space(c) <==> {
            let u = c as u32 as int;
            ||| u == 9 || u == 10 || u == 11 || u == 12 || u == 13
            ||| u == 32
            ||| u == 133
            ||| u == 160
            ||| u == 5760
            ||| 8192 <= u <= 8202
            ||| u == 8232 || u == 8233 || u == 8239 || u == 8287
            ||| u == 12288
        },
{
}

proof fn lemma_leading(s: Seq<char>, i: int)
    requires
        0 <= i <= s.len(),
    ensures
        i <= skip_spaces(s, i) <= s.len(),
        forall|j: int| i <= j < skip_spaces(s, i) ==> is_space(#[trigger] s[j]),
        skip_spaces(s, i) < s.len() ==> !is_space(s[skip_spaces(s, i)]),
    decreases s.len() - i,
{
    if i < s.len() && is_space(s[i]) {
        lemma_leading(s, i + 1);
    }
}

proof fn lemma_trailing(s: Seq<char>, n: int)
    requires
        0 <= n <= s.len(),
    ensures
        0 <= trim_end(s, n) <= n,
        forall|j: int| trim_end(s, n) <= j < n ==> is_space(#[trigger] s[j]),
        trim_end(s, n) > 0 ==> !is_space(s[trim_end(s, n) - 1]),
    decreases n,
{
    if n > 0 && is_space(s[n - 1]) {
        lemma_trailing(s, n - 1);
    }
}

/// Trimming takes white space from both ends, all of it and nothing else.
pub proof fn law_trimming(s: Seq<char>) -> (ends: (Seq<char>, Seq<char>))
    ensures
        s == ends.0 + trimmed(s) + ends.1,
        forall|j: int| 0 <= j < ends.0.len() ==> is_space(#[trigger] ends.0[j]),
        forall|j: int| 0 <= j < ends.1.len() ==> is_space(#[trigger] ends.1[j]),
        trimmed(s).len() > 0 ==> !is_space(trimmed(s)[0]) && !is_space(trimmed(s).last()),
{
    let n = s.len() as int;
    lemma_leading(s, 0);
    lemma_trailing(s, n);
    let a = skip_spaces(s, 0);
    let b = trim_end(s, n);
    if a >= b {
        assert forall|j: int| 0 <= j < n implies is_space(#[trigger] s[j]) by {
            if j >= a {
                assert(j >= b);
            }
        }
        assert(s =~= s + trimmed(s) + Seq::<char>::empty());
        (s, Seq::<char>::empty())
    } else {
        assert(s =~= s.take(a) + trimmed(s) + s.skip(b));
        (s.take(a), s.skip(b))
    }
}

// ---------------------------------------------------------------- words and lines

proof fn lemma_skipped(s: Seq<char>, i: int, j: int)
    requires
        0 <= i <= j <= s.len(),
        forall|k: int| i <= k < j ==> is_space(#[trigger] s[k]),
        j < s.len() ==> !is_space(s[j]),
    ensures
        skip_spaces(s, i) == j,
    decreases j - i,
{
    if i < j {
        lemma_skipped(s, i + 1, j);
    }
}

proof fn lemma_ended(s: Seq<char>, i: int, j: int)
    requires
        0 <= i <= j <= s.len(),
        forall|k: int| i <= k < j ==> !is_space(#[trigger] s[k]),
        j < s.len() ==> is_space(s[j]),
    ensures
        word_end(s, i) == j,
    decreases j - i,
{
    if i < j {
        lemma_ended(s, i + 1, j);
    }
}

proof fn lemma_skip_shifted(s: Seq<char>, a: int, i: int)
    requires
        0 <= a <= i <= s.len(),
    ensures
        skip_spaces(s.skip(a), i - a) == skip_spaces(s, i) - a,
        word_end(s.skip(a), i - a) == word_end(s, i) - a,
    decreases s.len() - i,
{
    if i < s.len() {
        assert(s.skip(a)[i - a] == s[i]);
        lemma_skip_shifted(s, a, i + 1);
    }
}

proof fn lemma_words_shifted(s: Seq<char>, a: int, i: int)
    requires
        0 <= a <= i <= s.len(),
    ensures
        words_from(s.skip(a), i - a) == words_from(s, i),
    decreases s.len() - i,
{
    let t = s.skip(a);
    lemma_skip_shifted(s, a, i);
    lemma_skip_spaces(s, i);
    let b = skip_spaces(s, i);
    if b < s.len() {
        lemma_skip_shifted(s, a, b);
        lemma_word_end(s, b);
        let e = word_end(s, b);
        lemma_words_shifted(s, a, e);
        assert(t.subrange(b - a, e - a) =~= s.subrange(b, e));
    }
}

/// Words are what stands between white space: white space alone has none, and after white space
/// the first word goes up to the next white space, or to the end.
pub proof fn law_words(gap: Seq<char>, w: Seq<char>, rest: Seq<char>)
    requires
        forall|i: int| 0 <= i < gap.len() ==> is_space(#[trigger] gap[i]),
        forall|i: int| 0 <= i < w.len() ==> !is_space(#[trigger] w[i]),
        w.len() > 0,
        rest.len() > 0 ==> is_space(rest[0]),
    ensures
        words(gap) == Seq::<Seq<char>>::empty(),
        words(gap + w + rest) == seq![w] + words(rest),
{
    let s = gap + w + rest;
    let a = gap.len() as int;
    let b = a + w.len();
    lemma_skipped(gap, 0, a);
    assert forall|k: int| 0 <= k < a implies is_space(#[trigger] s[k]) by {
        assert(s[k] == gap[k]);
    }
    assert forall|k: int| a <= k < b implies !is_space(#[trigger] s[k]) by {
        assert(s[k] == w[k - a]);
    }
    assert(s[a] == w[0]);
    if b < s.len() {
        assert(s[b] == rest[0]);
    }
    lemma_skipped(s, 0, a);
    lemma_ended(s, a, b);
    lemma_words_shifted(s, b, b);
    assert(s.skip(b) =~= rest);
    assert(s.subrange(a, b) =~= w);
}

/// A text names a move only if it is the name of that move, with white space around it or without.
pub proof fn law_only_names_name_moves(s: Seq<char>)
    ensures
        move_of(s) matches Some(m) ==> m.0 < 32 && m.1 < 32 && trimmed(s) == move_text(m),
{
    if let Some(m) = move_of(s) {
        let t = trimmed(s);
        assert(t.len() == 4);
        assert(square_text(m.0 as int) =~= t.take(2));
        assert(square_text(m.1 as int) =~= t.skip(2));
        assert(t =~= t.take(2) + t.skip(2));
    }
}

proof fn lemma_found(s: Seq<char>, pat: Seq<char>, i: int, k: int)
    requires
        0 <= i <= k,
        k + pat.len() <= s.len(),
        s.subrange(k, k + pat.len()) == pat,
        forall|j: int| i <= j < k ==> #[trigger] s.subrange(j, j + pat.len()) != pat,
    ensures
        find_from(s, pat, i) == Some(k),
    decreases k - i,
{
    if i < k {
        lemma_found(s, pat, i + 1, k);
    }
}

/// The text of a position goes up to the first ` moves `, and the moves come after it.
pub proof fn law_moves_follow_the_position(a: Seq<char>, b: Seq<char>)
    requires
        forall|j: int|
            0 <= j < a.len() ==> #[trigger] (a + " moves "@ + b).subrange(j, j + 7) != " moves "@,
    ensures
        before_moves(a + " moves "@ + b) == a,
        after_moves(a + " moves "@ + b) == before_moves(b),
{
    reveal_strlit(" moves ");
    let pat = " moves "@;
    let s = a + pat + b;
    let k = a.len() as int;
    assert(pat.len() == 7);
    assert(s.subrange(k, k + 7) =~= pat);
    lemma_found(s, pat, 0, k);
    assert(s.take(k) =~= a);
    assert(s.skip(k + 7) =~= b);
}

/// Rows are separated by commas, and each is written once.
pub proof fn law_rows_are_separated<A: Arith>(rows: Seq<(u8, u8, A, i32)>, n: int)
    ensures
        rows_json(rows, 0) == Seq::<char>::empty(),
        rows_json(rows, 1) == row_json(rows[0]),
        n >= 1 ==> rows_json(rows, n + 1) == rows_json(rows, n) + seq![','] + row_json(rows[n]),
{
    reveal_strlit(",");
    assert(","@ =~= seq![',']);
}

/// A search that found no move is answered in one line; one that did, in two: the report, and the
/// move. A report without a depth and without time says only what there is to say.
pub proof fn law_answer_lines(uci: Seq<char>, cp: int, stats: SearchStats, elapsed_ms: nat)
    ensures
        answer_lines("(none)"@, cp, stats, elapsed_ms) == seq!["bestmove (none)"@],
        uci != "(none)"@ ==> {
            let lines = answer_lines(uci, cp, stats, elapsed_ms);
            &&& lines.len() == 2
            &&& lines[1] == "bestmove "@ + uci
            &&& lines[0] == info_text(
                stats.nodes as nat,
                stats.depth as int,
                elapsed_ms,
                cp,
                uci,
            )
        },
        info_text(stats.nodes as nat, 0, 0, cp, uci) == "info nodes "@ + decimal(stats.nodes as nat)
            + " time 0 score cp "@ + signed_decimal(cp) + " pv "@ + uci,
{
    reveal_strlit("info");
    reveal_strlit(" nodes ");
    reveal_strlit("info nodes ");
    reveal_strlit(" time ");
    reveal_strlit(" score cp ");
    reveal_strlit(" time 0 score cp ");
    assert("info"@ + Seq::<char>::empty() + " nodes "@ =~= "info nodes "@);
    assert(decimal(0) =~= seq!['0']);
    assert(" time "@ + decimal(0) + " score cp "@ =~= " time 0 score cp "@);
    let d = decimal(stats.nodes as nat);
    let e = Seq::<char>::empty();
    assert("info"@ + e + " nodes "@ + d + e + " time "@ + decimal(0) + " score cp "@
        + signed_decimal(cp) + " pv "@ + uci =~= ("info"@ + e + " nodes "@) + d + (" time "@
        + decimal(0) + " score cp "@) + signed_decimal(cp) + " pv "@ + uci);
}

/// The command of a line is its first word.
pub proof fn law_first_word(line: Seq<char>, w: Seq<char>, rest: Seq<char>)
    requires
        trimmed(line) == w + rest,
        w.len() > 0,
        forall|i: int| 0 <= i < w.len() ==> !is_space(#[trigger] w[i]),
        rest.len() > 0 ==> is_space(rest[0]),
    ensures
        command_of(line) == w,
        words(trimmed(line)) == seq![w] + words(rest),
{
    law_words(Seq::<char>::empty(), w, rest);
    assert(Seq::<char>::empty() + w + rest =~= w + rest);
}

/// What the commands other than `go` do.
pub proof fn law_commands(g: Game, line: Seq<char>)
    ensures
        command_of(line) == "uci"@ ==> game_after(g, line) == g && deed_of(g, line) == Deed::Say(
            seq!["id name MistyBanqi 0.2.5"@, "id author Mistboard"@, "uciok"@],
        ),
        command_of(line) == "isready"@ ==> game_after(g, line) == g && deed_of(g, line)
            == Deed::Say(seq!["readyok"@]),
        command_of(line) == "quit"@ ==> game_after(g, line) == g && deed_of(g, line) == Deed::Quit,
        command_of(line) == "ucinewgame"@ ==> game_after(g, line).current is None && game_after(
            g,
            line,
        ).moves.len() == 0 && deed_of(g, line) == Deed::Say(seq![]),
        command_of(line) == "position"@ ==> deed_of(g, line) == Deed::Say(seq![]),
{
    reveal_strlit("go");
    reveal_strlit("uci");
    reveal_strlit("isready");
    reveal_strlit("ucinewgame");
    reveal_strlit("position");
    reveal_strlit("quit");
    assert("go"@.len() == 2 && "uci"@.len() == 3 && "isready"@.len() == 7 && "ucinewgame"@.len()
        == 10 && "position"@.len() == 8 && "quit"@.len() == 4);
}

/// `position fen` replaces the position and the moves: the text up to ` moves ` is read, and what
/// cannot be read leaves no position. Without `fen` nothing changes.
pub proof fn law_position(g: Game, line: Seq<char>, rest: Seq<char>, text: Seq<char>)
    requires
        command_of(line) == "position"@,
        trimmed(line) == "position"@ + rest,
    ensures
        trimmed(rest) == "fen"@ + text ==> {
            let ws = words(after_moves(text));
            let now = game_after(g, line);
            &&& now.current == reading(trimmed(before_moves(text)))
            &&& now.moves == moves_in(ws, ws.len() as int)
        },
        trimmed(rest).len() < 3 || trimmed(rest).take(3) != seq!['f', 'e', 'n'] ==> game_after(
            g,
            line,
        ) == g,
{
    reveal_strlit("ucinewgame");
    reveal_strlit("position");
    reveal_strlit("fen");
    let t = trimmed(line);
    let u = trimmed(rest);
    assert("ucinewgame"@.len() == 10 && "position"@.len() == 8 && "fen"@.len() == 3);
    assert(t.take(8) =~= "position"@);
    assert(t.skip(8) =~= rest);
    assert("fen"@ =~= seq!['f', 'e', 'n']);
    if u == "fen"@ + text {
        assert(u.take(3) =~= "fen"@);
        assert(u.skip(3) =~= text);
    }
}

/// A count of 64 bits is read as it was written; a larger one, and a word that is no number, leave
/// what there was.
pub proof fn law_counts(n: nat, s: Seq<char>, other: u64)
    ensures
        n <= 0xffff_ffff_ffff_ffff ==> count_or(decimal(n), other) == n,
        n > 0xffff_ffff_ffff_ffff ==> count_or(decimal(n), other) == other,
        number(s) is None ==> count_or(s, other) == other,
{
    law_decimal_round_trip(n);
}

/// Negative numbers are written with a minus sign, and only these.
pub proof fn law_signs(n: nat)
    ensures
        signed_decimal(n as int) == decimal(n),
        n > 0 ==> signed_decimal(-(n as int)) == seq!['-'] + decimal(n),
{
}

/// A position is read from the first four words of a text: the board, the side, the pool and the
/// clock. It can be read if and only if there are four words and each can be read.
pub proof fn law_readings_take_four_words(text: Seq<char>)
    ensures
        ({
            let w = words(text);
            let fits = w.len() >= 4 && board_of(w[0]) is Some && turn_of(w[1]) is Some && pool_of(
                w[2],
            ) is Some && (number(w[3]) matches Some(n) && n <= 0xffff_ffff);
            &&& reading(text) is Some <==> fits
            &&& reading(text) matches Some(r) ==> {
                &&& Some(r.squares) == board_of(w[0])
                &&& Some(r.first_color) == turn_of(w[1])
                &&& Some(r.bag) == pool_of(w[2])
                &&& Some(r.no_progress) == number(w[3])
            }
        }),
{
}

} // verus!
