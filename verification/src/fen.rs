//! The redacted position notation.
//!
//! A position is written `<board> <turn> <pool> <clock> <movenum>`.
//!
//! * board: four ranks separated by `/`, the top rank first, each of eight files from left to
//!   right. A revealed piece is its role letter, upper case for red and lower case for black:
//!   G general, A advisor, E elephant, R chariot, H horse, C cannon, S soldier. A face-down
//!   tile is `X`. A digit stands for that many empty squares.
//! * turn: `r`, `b`, or `-` while the colors are unbound.
//! * pool: the unrevealed pieces as pairs of letter and count, or `-` if there are none.
//! * clock: plies without progress. movenum: counted from one, for display.
//!
//! The identity of a face-down tile never appears.
use vstd::prelude::*;

use crate::board::{DOWN, EMPTY, NCODES};
use crate::text::{
    all_digits, chars_of, decimal, digit, digit_value, is_digit, number, parse_number, push_decimal,
    slice_of, split_words, texts, value_of, words,
};

verus! {

// ---------------------------------------------------------------- letters

/// The upper-case letter of a role.
pub open spec fn role_letter(role: int) -> char {
    if role == 0 {
        'G'
    } else if role == 1 {
        'A'
    } else if role == 2 {
        'E'
    } else if role == 3 {
        'R'
    } else if role == 4 {
        'H'
    } else if role == 5 {
        'C'
    } else {
        'S'
    }
}

/// The lower-case letter of a role.
pub open spec fn small_letter(role: int) -> char {
    (role_letter(role) as int + 32) as char
}

/// The letter of a piece code.
pub open spec fn letter_of(code: int) -> char {
    if code / 7 == 0 {
        role_letter(code % 7)
    } else {
        small_letter(code % 7)
    }
}

/// The piece code of a letter.
pub open spec fn code_of(c: char) -> Option<int> {
    if exists|code: int| 0 <= code < 14 && #[trigger] letter_of(code) == c {
        Some(choose|code: int| 0 <= code < 14 && #[trigger] letter_of(code) == c)
    } else {
        None
    }
}

/// No two piece codes share a letter.
pub proof fn law_letters_distinct(a: int, b: int)
    requires
        0 <= a < 14,
        0 <= b < 14,
        letter_of(a) == letter_of(b),
    ensures
        a == b,
{
}

pub fn letter_to_code(ch: char) -> (r: Option<i16>)
    ensures
        match r {
            Some(code) => 0 <= code < 14 && code_of(ch) == Some(code as int),
            None => code_of(ch) is None,
        },
{
    let mut code: i16 = 0;
    while code < 14
        invariant
            0 <= code <= 14,
            forall|k: int| 0 <= k < code ==> #[trigger] letter_of(k) != ch,
        decreases 14 - code,
    {
        if code_to_letter(code) == ch {
            proof {
                let k = choose|k: int| 0 <= k < 14 && #[trigger] letter_of(k) == ch;
                law_letters_distinct(k, code as int);
            }
            return Some(code);
        }
        code = code + 1;
    }
    None
}

pub fn code_to_letter(code: i16) -> (r: char)
    requires
        code >= 0 || (code as int) % 7 == 0,
    ensures
        r == letter_of(code as int),
{
    let role: i16 = if code < 0 {
        0
    } else {
        code % 7
    };
    let red = 0 <= code && code < 7;
    if role == 0 {
        if red { 'G' } else { 'g' }
    } else if role == 1 {
        if red { 'A' } else { 'a' }
    } else if role == 2 {
        if red { 'E' } else { 'e' }
    } else if role == 3 {
        if red { 'R' } else { 'r' }
    } else if role == 4 {
        if red { 'H' } else { 'h' }
    } else if role == 5 {
        if red { 'C' } else { 'c' }
    } else {
        if red { 'S' } else { 's' }
    }
}

// ---------------------------------------------------------------- reading

/// The first index from `i` on that holds `sep`, or the length.
pub open spec fn field_end(s: Seq<char>, i: int, sep: char) -> int
    decreases s.len() - i,
{
    if 0 <= i < s.len() && s[i] != sep {
        field_end(s, i + 1, sep)
    } else {
        i
    }
}

pub proof fn lemma_field_end(s: Seq<char>, i: int, sep: char)
    requires
        0 <= i <= s.len(),
    ensures
        i <= field_end(s, i, sep) <= s.len(),
    decreases s.len() - i,
{
    if i < s.len() && s[i] != sep {
        lemma_field_end(s, i + 1, sep);
    }
}

/// The fields of `s` from index `i` on, separated by `sep`.
pub open spec fn fields_from(s: Seq<char>, i: int, sep: char) -> Seq<Seq<char>>
    decreases s.len() - i,
    when 0 <= i <= s.len()
{
    let b = field_end(s, i, sep);
    if b >= s.len() {
        seq![s.subrange(i, s.len() as int)]
    } else {
        proof {
            lemma_field_end(s, i, sep);
        }
        seq![s.subrange(i, b)] + fields_from(s, b + 1, sep)
    }
}

/// `n` empty squares.
pub open spec fn empties(n: int) -> Seq<i16> {
    Seq::new(n as nat, |i: int| EMPTY)
}

/// The squares that the first `n` characters of a rank describe. A character after the
/// eighth square is an error.
pub open spec fn row_of(s: Seq<char>, n: int) -> Option<Seq<i16>>
    decreases n,
{
    if n <= 0 {
        Some(seq![])
    } else {
        match row_of(s, n - 1) {
            None => None,
            Some(row) => {
                let c = s[n - 1];
                if row.len() >= 8 {
                    None
                } else if is_digit(c) {
                    Some(row + empties(digit_value(c)))
                } else if c == 'X' {
                    Some(row.push(DOWN))
                } else {
                    match code_of(c) {
                        Some(code) => Some(row.push(code as i16)),
                        None => None,
                    }
                }
            },
        }
    }
}

/// A rank of exactly eight squares.
pub open spec fn rank_row(s: Seq<char>) -> Option<Seq<i16>> {
    match row_of(s, s.len() as int) {
        Some(row) => if row.len() == 8 {
            Some(row)
        } else {
            None
        },
        None => None,
    }
}

/// The squares of the board field, the bottom rank first.
pub open spec fn board_of(s: Seq<char>) -> Option<Seq<i16>> {
    let ranks = fields_from(s, 0, '/');
    if ranks.len() != 4 {
        None
    } else {
        match (rank_row(ranks[3]), rank_row(ranks[2]), rank_row(ranks[1]), rank_row(ranks[0])) {
            (Some(a), Some(b), Some(c), Some(d)) => Some(a + b + c + d),
            _ => None,
        }
    }
}

pub open spec fn turn_of(s: Seq<char>) -> Option<int> {
    if s == seq!['r'] {
        Some(0)
    } else if s == seq!['b'] {
        Some(1)
    } else if s == seq!['-'] {
        Some(-1)
    } else {
        None
    }
}

/// The first index from `i` on that holds no digit, or the length.
pub open spec fn digits_end(s: Seq<char>, i: int) -> int
    decreases s.len() - i,
{
    if 0 <= i < s.len() && is_digit(s[i]) {
        digits_end(s, i + 1)
    } else {
        i
    }
}

pub proof fn lemma_digits_end(s: Seq<char>, i: int)
    requires
        0 <= i <= s.len(),
    ensures
        i <= digits_end(s, i) <= s.len(),
        all_digits(s.subrange(i, digits_end(s, i))),
    decreases s.len() - i,
{
    if i < s.len() && is_digit(s[i]) {
        lemma_digits_end(s, i + 1);
        assert forall|j: int| 0 <= j < digits_end(s, i) - i implies is_digit(
            #[trigger] s.subrange(i, digits_end(s, i))[j],
        ) by {
            if j > 0 {
                assert(s.subrange(i + 1, digits_end(s, i))[j - 1] == s[i + j]);
            }
        }
    }
}

/// The counts that the pairs from index `j` on leave in the bag. A letter without a count,
/// or with one that does not fit, is an error; a letter that comes again replaces its count.
pub open spec fn pool_from(s: Seq<char>, j: int, bag: Seq<u32>) -> Option<Seq<u32>>
    decreases s.len() - j,
    when 0 <= j
{
    if j >= s.len() {
        Some(bag)
    } else {
        match code_of(s[j]) {
            None => None,
            Some(code) => {
                let e = digits_end(s, j + 1);
                if e <= j + 1 || value_of(s.subrange(j + 1, e)) > u32::MAX {
                    None
                } else {
                    proof {
                        lemma_digits_end(s, j + 1);
                    }
                    pool_from(s, e, bag.update(code, value_of(s.subrange(j + 1, e)) as u32))
                }
            },
        }
    }
}

pub open spec fn no_tiles() -> Seq<u32> {
    Seq::new(14, |i: int| 0u32)
}

pub open spec fn pool_of(s: Seq<char>) -> Option<Seq<u32>> {
    if s == seq!['-'] {
        Some(no_tiles())
    } else {
        pool_from(s, 0, no_tiles())
    }
}

pub open spec fn clock_of(s: Seq<char>) -> Option<nat> {
    match number(s) {
        Some(n) => if n <= u32::MAX {
            Some(n)
        } else {
            None
        },
        None => None,
    }
}

/// What a position text says.
#[verifier::ext_equal]
pub struct Reading {
    pub squares: Seq<i16>,
    pub bag: Seq<u32>,
    pub first_color: int,
    pub no_progress: nat,
}

/// The position that a text describes, if every field is well formed. The side to move is
/// the first color: the number of plies is not part of the notation.
pub open spec fn reading(text: Seq<char>) -> Option<Reading> {
    let parts = words(text);
    if parts.len() < 4 {
        None
    } else {
        match (board_of(parts[0]), turn_of(parts[1]), pool_of(parts[2]), clock_of(parts[3])) {
            (Some(squares), Some(first_color), Some(bag), Some(no_progress)) => Some(
                Reading { squares, bag, first_color, no_progress },
            ),
            _ => None,
        }
    }
}

/// A parsed position.
pub struct Parsed {
    pub squares: Vec<i16>,
    pub bag: Vec<u32>,
    pub first_color: i16,
    pub no_progress: u32,
}

impl View for Parsed {
    type V = Reading;

    open spec fn view(&self) -> Reading {
        Reading {
            squares: self.squares@,
            bag: self.bag@,
            first_color: self.first_color as int,
            no_progress: self.no_progress as nat,
        }
    }
}

fn split_fields(s: &Vec<char>, sep: char) -> (r: Vec<Vec<char>>)
    ensures
        texts(r@) == fields_from(s@, 0, sep),
{
    let mut out: Vec<Vec<char>> = Vec::new();
    let mut i: usize = 0;
    assert(texts(out@) + fields_from(s@, 0, sep) =~= fields_from(s@, 0, sep));
    loop
        invariant_except_break
            i <= s@.len(),
            texts(out@) + fields_from(s@, i as int, sep) == fields_from(s@, 0, sep),
        ensures
            texts(out@) == fields_from(s@, 0, sep),
        decreases s@.len() - i,
    {
        let mut b: usize = i;
        while b < s.len() && s[b] != sep
            invariant
                i <= b <= s@.len(),
                field_end(s@, b as int, sep) == field_end(s@, i as int, sep),
            decreases s@.len() - b,
        {
            b = b + 1;
        }
        let w = slice_of(s, i, b);
        let ghost before = texts(out@);
        out.push(w);
        assert(texts(out@) =~= before.push(s@.subrange(i as int, b as int)));
        if b >= s.len() {
            assert(texts(out@) =~= before + fields_from(s@, i as int, sep));
            break;
        }
        assert(texts(out@) + fields_from(s@, b + 1, sep) =~= before + (seq![
            s@.subrange(i as int, b as int),
        ] + fields_from(s@, b + 1, sep)));
        i = b + 1;
    }
    out
}

fn parse_rank(s: &Vec<char>) -> (r: Option<Vec<i16>>)
    ensures
        match r {
            Some(row) => rank_row(s@) == Some(row@),
            None => rank_row(s@) is None,
        },
{
    let mut row: Vec<i16> = Vec::new();
    let mut i: usize = 0;
    while i < s.len()
        invariant
            i <= s@.len(),
            row_of(s@, i as int) == Some(row@),
        decreases s@.len() - i,
    {
        let ch = s[i];
        if row.len() >= 8 {
            proof {
                lemma_row_error(s@, i + 1, s@.len() as int);
            }
            return None;
        }
        if digit(ch) {
            let d: u32 = ch as u32 - '0' as u32;
            let mut k: u32 = 0;
            let ghost base = row@;
            while k < d
                invariant
                    k <= d,
                    row@ == base + empties(k as int),
                decreases d - k,
            {
                row.push(EMPTY);
                k = k + 1;
                assert(row@ =~= base + empties(k as int));
            }
            assert(row@ =~= base + empties(d as int));
        } else if ch == 'X' {
            row.push(DOWN);
        } else {
            match letter_to_code(ch) {
                Some(code) => {
                    row.push(code);
                },
                None => {
                    proof {
                        lemma_row_error(s@, i + 1, s@.len() as int);
                    }
                    return None;
                },
            }
        }
        i = i + 1;
    }
    if row.len() == 8 {
        Some(row)
    } else {
        None
    }
}

proof fn lemma_row_error(s: Seq<char>, i: int, n: int)
    requires
        0 <= i <= n,
        row_of(s, i) is None,
    ensures
        row_of(s, n) is None,
    decreases n - i,
{
    if i < n {
        lemma_row_error(s, i, n - 1);
    }
}

fn parse_board(s: &Vec<char>) -> (r: Option<Vec<i16>>)
    ensures
        match r {
            Some(squares) => board_of(s@) == Some(squares@),
            None => board_of(s@) is None,
        },
{
    let ranks = split_fields(s, '/');
    let ghost want = fields_from(s@, 0, '/');
    assert(texts(ranks@).len() == ranks@.len());
    if ranks.len() != 4 {
        return None;
    }
    assert forall|k: int| 0 <= k < 4 implies ranks@[k]@ == want[k] by {
        assert(texts(ranks@)[k] == ranks@[k]@);
    }
    match (
        parse_rank(&ranks[3]),
        parse_rank(&ranks[2]),
        parse_rank(&ranks[1]),
        parse_rank(&ranks[0]),
    ) {
        (Some(a), Some(b), Some(c), Some(d)) => {
            let mut squares = a;
            let mut b = b;
            let mut c = c;
            let mut d = d;
            squares.append(&mut b);
            squares.append(&mut c);
            squares.append(&mut d);
            Some(squares)
        },
        _ => None,
    }
}

fn parse_turn(s: &Vec<char>) -> (r: Option<i16>)
    ensures
        match r {
            Some(t) => turn_of(s@) == Some(t as int) && -1 <= t <= 1,
            None => turn_of(s@) is None,
        },
{
    if s.len() != 1 {
        return None;
    }
    let c = s[0];
    assert(s@ =~= seq![c]);
    if c == 'r' {
        Some(0)
    } else if c == 'b' {
        Some(1)
    } else if c == '-' {
        Some(-1)
    } else {
        assert(turn_of(s@) is None) by {
            assert(seq!['r'][0] == 'r');
            assert(seq!['b'][0] == 'b');
            assert(seq!['-'][0] == '-');
        }
        None
    }
}

fn parse_pool(s: &Vec<char>) -> (r: Option<Vec<u32>>)
    ensures
        match r {
            Some(bag) => pool_of(s@) == Some(bag@),
            None => pool_of(s@) is None,
        },
{
    let mut bag: Vec<u32> = Vec::new();
    let mut k: usize = 0;
    while k < NCODES
        invariant
            k <= NCODES,
            bag@.len() == k,
            forall|i: int| 0 <= i < k ==> bag@[i] == 0,
        decreases NCODES - k,
    {
        bag.push(0);
        k = k + 1;
    }
    assert(bag@ =~= no_tiles());
    if s.len() == 1 && s[0] == '-' {
        assert(s@ =~= seq!['-']);
        return Some(bag);
    }
    assert(s@ != seq!['-']) by {
        assert(seq!['-'][0] == '-');
    }
    let mut j: usize = 0;
    while j < s.len()
        invariant
            j <= s@.len(),
            bag@.len() == 14,
            s@ != seq!['-'],
            pool_from(s@, j as int, bag@) == pool_of(s@),
        decreases s@.len() - j,
    {
        let code = match letter_to_code(s[j]) {
            Some(code) => code,
            None => return None,
        };
        let mut e: usize = j + 1;
        while e < s.len() && digit(s[e])
            invariant
                j + 1 <= e <= s@.len(),
                digits_end(s@, e as int) == digits_end(s@, j + 1),
            decreases s@.len() - e,
        {
            e = e + 1;
        }
        if e == j + 1 {
            return None;
        }
        let w = slice_of(s, j + 1, e);
        proof {
            lemma_digits_end(s@, j + 1);
            assert(is_digit(w@[0]));
            assert(number(w@) == Some(value_of(w@)));
        }
        match parse_number(&w, u32::MAX as u64) {
            Some(n) => {
                bag.set(code as usize, n as u32);
            },
            None => {
                return None;
            },
        }
        j = e;
    }
    Some(bag)
}

/// Reads a redacted position; `None` where any field is malformed.
pub fn state_from_fen(fen: &str) -> (r: Option<Parsed>)
    ensures
        match r {
            Some(p) => reading(fen@) == Some(p@),
            None => reading(fen@) is None,
        },
{
    let all = chars_of(fen);
    read_position(&all)
}

/// As `state_from_fen`, of a vector of characters.
pub fn read_position(all: &Vec<char>) -> (r: Option<Parsed>)
    ensures
        match r {
            Some(p) => reading(all@) == Some(p@),
            None => reading(all@) is None,
        },
{
    let parts = split_words(all);
    assert(texts(parts@).len() == parts@.len());
    if parts.len() < 4 {
        return None;
    }
    assert forall|k: int| 0 <= k < 4 implies parts@[k]@ == words(all@)[k] by {
        assert(texts(parts@)[k] == parts@[k]@);
    }
    match (
        parse_board(&parts[0]),
        parse_turn(&parts[1]),
        parse_pool(&parts[2]),
        parse_number(&parts[3], u32::MAX as u64),
    ) {
        (Some(squares), Some(first_color), Some(bag), Some(n)) => {
            Some(Parsed { squares, bag, first_color, no_progress: n as u32 })
        },
        _ => None,
    }
}

// ---------------------------------------------------------------- writing

/// The text of the first `n` squares of a rank, and the empty squares at its end that are
/// still to be written.
pub open spec fn row_text(row: Seq<i16>, n: int) -> (Seq<char>, nat)
    decreases n,
{
    if n <= 0 {
        (seq![], 0)
    } else {
        let (t, e) = row_text(row, n - 1);
        let c = row[n - 1];
        if c == EMPTY {
            (t, e + 1)
        } else {
            (
                with_run(t, e).push(
                    if c == DOWN {
                        'X'
                    } else {
                        letter_of(c as int)
                    },
                ),
                0,
            )
        }
    }
}

/// A text followed by the number of empty squares, if there are any.
pub open spec fn with_run(t: Seq<char>, e: nat) -> Seq<char> {
    if e > 0 {
        t + decimal(e)
    } else {
        t
    }
}

pub open spec fn rank_text(row: Seq<i16>) -> Seq<char> {
    let (t, e) = row_text(row, 8);
    with_run(t, e)
}

/// The eight squares of a rank, counted from zero at the bottom.
pub open spec fn rank_squares(squares: Seq<i16>, r: int) -> Seq<i16> {
    squares.subrange(r * 8, r * 8 + 8)
}

pub open spec fn board_text(squares: Seq<i16>) -> Seq<char> {
    rank_text(rank_squares(squares, 3)) + seq!['/'] + rank_text(rank_squares(squares, 2)) + seq![
        '/',
    ] + rank_text(rank_squares(squares, 1)) + seq!['/'] + rank_text(rank_squares(squares, 0))
}

pub open spec fn turn_text(first_color: int) -> Seq<char> {
    if first_color == 0 {
        seq!['r']
    } else if first_color == 1 {
        seq!['b']
    } else {
        seq!['-']
    }
}

/// The pairs for the first `n` codes that the bag holds.
pub open spec fn pairs_text(bag: Seq<u32>, n: int) -> Seq<char>
    decreases n,
{
    if n <= 0 {
        seq![]
    } else if bag[n - 1] > 0 {
        pairs_text(bag, n - 1).push(letter_of(n - 1)) + decimal(bag[n - 1] as nat)
    } else {
        pairs_text(bag, n - 1)
    }
}

pub open spec fn pool_text(bag: Seq<u32>) -> Seq<char> {
    if pairs_text(bag, 14).len() == 0 {
        seq!['-']
    } else {
        pairs_text(bag, 14)
    }
}

/// The text of a position.
pub open spec fn fen_text(
    squares: Seq<i16>,
    bag: Seq<u32>,
    first_color: int,
    no_progress: nat,
    movenum: nat,
) -> Seq<char> {
    board_text(squares) + seq![' '] + turn_text(first_color) + seq![' '] + pool_text(bag) + seq![
        ' ',
    ] + decimal(no_progress) + seq![' '] + decimal(movenum)
}

/// Squares that have a letter: codes of the encoding, and multiples of seven below it.
pub open spec fn printable(squares: Seq<i16>) -> bool {
    forall|i: int|
        0 <= i < 32 ==> #[trigger] squares[i] >= -2 || (squares[i] as int) % 7 == 0
}

fn push_rank(s: &mut String, squares: &[i16], r: usize)
    requires
        r < 4,
        squares@.len() >= 32,
        printable(squares@),
    ensures
        final(s)@ == old(s)@ + rank_text(rank_squares(squares@, r as int)),
{
    let ghost base = s@;
    let ghost row = rank_squares(squares@, r as int);
    let mut run: u64 = 0;
    let mut f: usize = 0;
    while f < 8
        invariant
            f <= 8,
            r < 4,
            squares@.len() >= 32,
            printable(squares@),
            row == rank_squares(squares@, r as int),
            run <= f,
            run == row_text(row, f as int).1,
            s@ == base + row_text(row, f as int).0,
        decreases 8 - f,
    {
        let c = squares[f + r * 8];
        assert(c == row[f as int]);
        if c == EMPTY {
            run = run + 1;
        } else {
            if run > 0 {
                push_decimal(s, run);
                run = 0;
            }
            if c == DOWN {
                s.push('X');
            } else {
                s.push(code_to_letter(c));
            }
            assert(s@ =~= base + row_text(row, f + 1).0);
        }
        f = f + 1;
    }
    if run > 0 {
        push_decimal(s, run);
    }
    assert(s@ =~= base + rank_text(row));
}

/// Writes a position; the inverse of `state_from_fen`.
pub fn fen_from_state(
    squares: &[i16],
    bag: &[u32],
    first_color: i16,
    no_progress: u32,
    movenum: u32,
) -> (r: String)
    requires
        squares@.len() >= 32,
        bag@.len() >= 14,
        printable(squares@),
    ensures
        r@ == fen_text(
            squares@,
            bag@,
            first_color as int,
            no_progress as nat,
            movenum as nat,
        ),
{
    let mut s = String::new();
    push_rank(&mut s, squares, 3);
    s.push('/');
    push_rank(&mut s, squares, 2);
    s.push('/');
    push_rank(&mut s, squares, 1);
    s.push('/');
    push_rank(&mut s, squares, 0);
    assert(s@ =~= board_text(squares@));
    s.push(' ');
    s.push(
        if first_color == 0 {
            'r'
        } else if first_color == 1 {
            'b'
        } else {
            '-'
        },
    );
    s.push(' ');
    let ghost base = s@;
    assert(base =~= board_text(squares@) + seq![' '] + turn_text(first_color as int) + seq![' ']);
    let mut none: bool = true;
    let mut code: usize = 0;
    while code < NCODES
        invariant
            code <= NCODES,
            bag@.len() >= 14,
            s@ == base + pairs_text(bag@, code as int),
            none == (pairs_text(bag@, code as int).len() == 0),
        decreases NCODES - code,
    {
        if bag[code] > 0 {
            s.push(code_to_letter(code as i16));
            push_decimal(&mut s, bag[code] as u64);
            none = false;
            assert(s@ =~= base + pairs_text(bag@, code + 1));
        }
        code = code + 1;
    }
    if none {
        s.push('-');
    }
    assert(s@ =~= base + pool_text(bag@));
    s.push(' ');
    push_decimal(&mut s, no_progress as u64);
    s.push(' ');
    push_decimal(&mut s, movenum as u64);
    assert(s@ =~= fen_text(
        squares@,
        bag@,
        first_color as int,
        no_progress as nat,
        movenum as nat,
    ));
    s
}

} // verus!
