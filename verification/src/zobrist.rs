//! Zobrist keys over the squares, the bag and the side to move.
//!
//! The bag is part of the key: two positions with the same board and different unrevealed
//! pieces have different flips. The clock is not part of it.
use vstd::prelude::*;

use crate::board::{make_state, mover, position, Pos, State, DOWN, EMPTY, NCODES, NSQ};
use crate::rng::{advanced, law_outputs_differ, output, Rng};

verus! {

pub const ZOBRIST_SEED: u64 = 0x1234_5678_9ABC_DEF0;

/// Contents that a square can have: fourteen pieces, face down, empty.
pub const SQ_WORDS: usize = 16;

/// Counts of the bag that have a word of their own; larger ones share the last.
pub const BAG_WORDS: usize = 33;

pub const TABLE_WORDS: usize = 977;

/// The `n`-th random word of the table.
pub open spec fn word(n: int) -> u64 {
    output(ZOBRIST_SEED, n as nat)
}

/// The word for content `c` (0 to 13 a piece, 14 face down, 15 empty) on square `i`.
pub open spec fn square_word(i: int, c: int) -> u64 {
    word(i * 16 + c)
}

/// The word for `count` unrevealed pieces of `code`.
pub open spec fn bag_word(code: int, count: int) -> u64 {
    word(512 + code * 33 + count)
}

/// The word for the side to move: 0 red, 1 black, 2 unbound.
pub open spec fn side_word(s: int) -> u64 {
    word(974 + s)
}

pub struct Zobrist {
    pub words: Vec<u64>,
}

impl Zobrist {
    pub open spec fn wf(&self) -> bool {
        &&& self.words@.len() == 977
        &&& forall|n: int| 0 <= n < 977 ==> #[trigger] self.words@[n] == word(n)
    }
}

pub fn zob() -> (r: Zobrist)
    ensures
        r.wf(),
{
    let mut words: Vec<u64> = Vec::with_capacity(TABLE_WORDS);
    let mut rng = Rng(ZOBRIST_SEED);
    let mut n: usize = 0;
    while n < TABLE_WORDS
        invariant
            n <= TABLE_WORDS,
            words@.len() == n,
            rng.0 == advanced(ZOBRIST_SEED, n as nat),
            forall|k: int| 0 <= k < n ==> #[trigger] words@[k] == word(k),
        decreases TABLE_WORDS - n,
    {
        let w = rng.next_u64();
        words.push(w);
        n = n + 1;
    }
    Zobrist { words }
}

/// Index of a square's content among its words.
pub open spec fn content(c: int) -> int {
    if c == EMPTY {
        15
    } else if c == DOWN {
        14
    } else {
        c
    }
}

pub open spec fn key_of_squares(sq: Seq<i16>, n: int) -> u64
    decreases n,
{
    if n <= 0 {
        0
    } else {
        key_of_squares(sq, n - 1) ^ square_word(n - 1, content(sq[n - 1] as int))
    }
}

pub open spec fn capped(count: u32) -> int {
    if count < 32 {
        count as int
    } else {
        32
    }
}

pub open spec fn key_of_bag(bag: Seq<u32>, n: int, start: u64) -> u64
    decreases n,
{
    if n <= 0 {
        start
    } else {
        key_of_bag(bag, n - 1, start) ^ bag_word(n - 1, capped(bag[n - 1]))
    }
}

/// The side to move, as the key has it.
pub open spec fn side_of(p: Pos) -> int {
    if mover(p) < 0 {
        2
    } else {
        mover(p)
    }
}

/// The key of a position: the exclusive or of the words of its squares, of its bag counts
/// and of its side to move.
pub open spec fn key_of(p: Pos) -> u64 {
    key_of_bag(p.bag, 14, key_of_squares(p.sq, 32)) ^ side_word(side_of(p))
}

/// The contents and the side to move have a word.
pub open spec fn keyed(p: Pos) -> bool {
    &&& mover(p) <= 2
    &&& forall|i: int| 0 <= i < 32 ==> -2 <= #[trigger] p.sq[i] < 16
}

pub fn zkey(z: &Zobrist, st: &State) -> (r: u64)
    requires
        z.wf(),
        keyed(st@),
    ensures
        r == key_of(st@),
{
    let mut h: u64 = 0;
    let ghost p = st@;
    let mut i: usize = 0;
    while i < NSQ
        invariant
            i <= NSQ,
            p == st@,
            p.sq.len() == 32,
            z.wf(),
            keyed(p),
            h == key_of_squares(p.sq, i as int),
        decreases NSQ - i,
    {
        let c = st.sq[i];
        let ci: usize = if c == EMPTY {
            15
        } else if c == DOWN {
            14
        } else {
            c as usize
        };
        h = h ^ z.words[i * SQ_WORDS + ci];
        i = i + 1;
    }
    let ghost h0 = h;
    let mut code: usize = 0;
    while code < NCODES
        invariant
            code <= NCODES,
            p == st@,
            p.bag.len() == 14,
            z.wf(),
            h == key_of_bag(p.bag, code as int, h0),
        decreases NCODES - code,
    {
        let b = st.bag[code];
        let cnt: usize = if b < 32 {
            b as usize
        } else {
            32
        };
        h = h ^ z.words[NSQ * SQ_WORDS + code * BAG_WORDS + cnt];
        code = code + 1;
    }
    let mc = st.mover_color();
    let side: usize = if mc < 0 {
        2
    } else {
        mc as usize
    };
    h ^ z.words[NSQ * SQ_WORDS + NCODES * BAG_WORDS + side]
}

/// The key of a position, for callers that collect the keys of a repetition window.
pub fn zkey_for(squares: Vec<i16>, bag: Vec<u32>, first_color: i16, ply: u32) -> (r: u64)
    requires
        keyed(position(squares@, bag@, first_color as int, ply as nat, 0)),
    ensures
        r == key_of(position(squares@, bag@, first_color as int, ply as nat, 0)),
{
    let z = zob();
    let st = make_state(squares, bag, first_color, ply, 0);
    zkey(&z, &st)
}

/// The clock does not enter the key.
pub proof fn law_key_ignores_clock(p: Pos, no_progress: nat)
    ensures
        key_of(Pos { no_progress, ..p }) == key_of(p),
{
}

/// Of the number of plies only the parity enters the key.
pub proof fn law_key_of_ply_parity(p: Pos, ply: nat)
    requires
        ply % 2 == p.ply % 2,
    ensures
        key_of(Pos { ply, ..p }) == key_of(p),
{
}

// ---------------------------------------------------------------- keys differ

/// `b` is `a` but for one square, one bag count or the side to move.
pub open spec fn differs_in_one(a: Pos, b: Pos) -> bool {
    ||| {
        &&& exists|i: int| 0 <= i < 32 && #[trigger] a.sq[i] != b.sq[i] && b.sq == a.sq.update(
            i,
            b.sq[i],
        )
        &&& a.bag == b.bag
        &&& side_of(a) == side_of(b)
    }
    ||| {
        &&& a.sq == b.sq
        &&& exists|i: int| 0 <= i < 14 && #[trigger] a.bag[i] != b.bag[i] && b.bag == a.bag.update(
            i,
            b.bag[i],
        )
        &&& side_of(a) == side_of(b)
    }
    ||| {
        &&& a.sq == b.sq
        &&& a.bag == b.bag
        &&& side_of(a) != side_of(b)
    }
}

/// Contents and counts that have words of their own.
pub open spec fn told_apart(p: Pos) -> bool {
    &&& p.sq.len() == 32
    &&& p.bag.len() == 14
    &&& p.first_color <= 1
    &&& forall|i: int| 0 <= i < 32 ==> -2 <= #[trigger] p.sq[i] < 14
    &&& forall|i: int| 0 <= i < 14 ==> #[trigger] p.bag[i] <= 32
}

proof fn lemma_squares_update(sq: Seq<i16>, i: int, c: i16, n: int)
    requires
        0 <= i < sq.len(),
        0 <= n <= sq.len(),
    ensures
        key_of_squares(sq.update(i, c), n) == if i < n {
            key_of_squares(sq, n) ^ (square_word(i, content(sq[i] as int)) ^ square_word(
                i,
                content(c as int),
            ))
        } else {
            key_of_squares(sq, n)
        },
    decreases n,
{
    if n > 0 {
        lemma_squares_update(sq, i, c, n - 1);
        let h = key_of_squares(sq, n - 1);
        let x = square_word(i, content(sq[i] as int));
        let y = square_word(i, content(c as int));
        let w = square_word(n - 1, content(sq[n - 1] as int));
        assert((h ^ x) ^ (x ^ y) == h ^ y && (h ^ (x ^ y)) ^ w == (h ^ w) ^ (x ^ y))
            by (bit_vector);
    }
}

proof fn lemma_bag_update(bag: Seq<u32>, i: int, c: u32, n: int, start: u64)
    requires
        0 <= i < bag.len(),
        0 <= n <= bag.len(),
    ensures
        key_of_bag(bag.update(i, c), n, start) == if i < n {
            key_of_bag(bag, n, start) ^ (bag_word(i, capped(bag[i])) ^ bag_word(i, capped(c)))
        } else {
            key_of_bag(bag, n, start)
        },
    decreases n,
{
    if n > 0 {
        lemma_bag_update(bag, i, c, n - 1, start);
        let h = key_of_bag(bag, n - 1, start);
        let x = bag_word(i, capped(bag[i]));
        let y = bag_word(i, capped(c));
        let w = bag_word(n - 1, capped(bag[n - 1]));
        assert((h ^ x) ^ (x ^ y) == h ^ y && (h ^ (x ^ y)) ^ w == (h ^ w) ^ (x ^ y))
            by (bit_vector);
    }
}

/// A word changed at the start of the bag changes the key by as much.
proof fn lemma_bag_start(bag: Seq<u32>, n: int, start: u64, d: u64)
    ensures
        key_of_bag(bag, n, start ^ d) == key_of_bag(bag, n, start) ^ d,
    decreases n,
{
    if n > 0 {
        lemma_bag_start(bag, n - 1, start, d);
        let h = key_of_bag(bag, n - 1, start);
        let w = bag_word(n - 1, capped(bag[n - 1]));
        assert((h ^ d) ^ w == (h ^ w) ^ d) by (bit_vector);
    }
}

/// The board, the bag and the side to move all enter the key: positions that differ in exactly
/// one square, one bag count or the side to move have different keys.
pub proof fn law_keys_differ(a: Pos, b: Pos)
    requires
        told_apart(a),
        told_apart(b),
        differs_in_one(a, b),
    ensures
        key_of(a) != key_of(b),
{
    let sa = key_of_squares(a.sq, 32);
    let sb = key_of_squares(b.sq, 32);
    let ba = key_of_bag(a.bag, 14, sa);
    let bb = key_of_bag(b.bag, 14, sb);
    let wa = side_word(side_of(a));
    let wb = side_word(side_of(b));
    if side_of(a) != side_of(b) {
        law_outputs_differ(
            ZOBRIST_SEED,
            (974 + side_of(a)) as nat,
            (974 + side_of(b)) as nat,
        );
        assert(wa != wb ==> ba ^ wa != ba ^ wb) by (bit_vector);
    } else if a.sq == b.sq {
        let i = choose|i: int|
            0 <= i < 14 && #[trigger] a.bag[i] != b.bag[i] && b.bag == a.bag.update(i, b.bag[i]);
        let x = bag_word(i, capped(a.bag[i]));
        let y = bag_word(i, capped(b.bag[i]));
        lemma_bag_update(a.bag, i, b.bag[i], 14, sa);
        assert(a.bag[i] <= 32 && b.bag[i] <= 32);
        law_outputs_differ(
            ZOBRIST_SEED,
            (512 + i * 33 + capped(a.bag[i])) as nat,
            (512 + i * 33 + capped(b.bag[i])) as nat,
        );
        assert(x != y ==> ba ^ wa != (ba ^ (x ^ y)) ^ wa) by (bit_vector);
    } else {
        let i = choose|i: int|
            0 <= i < 32 && #[trigger] a.sq[i] != b.sq[i] && b.sq == a.sq.update(i, b.sq[i]);
        let x = square_word(i, content(a.sq[i] as int));
        let y = square_word(i, content(b.sq[i] as int));
        lemma_squares_update(a.sq, i, b.sq[i], 32);
        lemma_bag_start(a.bag, 14, sa, x ^ y);
        assert(-2 <= a.sq[i] < 14 && -2 <= b.sq[i] < 14);
        law_outputs_differ(
            ZOBRIST_SEED,
            (i * 16 + content(a.sq[i] as int)) as nat,
            (i * 16 + content(b.sq[i] as int)) as nat,
        );
        assert(x != y ==> ba ^ wa != (ba ^ (x ^ y)) ^ wa) by (bit_vector);
    }
}

} // verus!
