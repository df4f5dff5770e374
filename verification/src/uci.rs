//! Moves in the notation of the UCI protocol: a square is a file `a` to `h` followed by a rank
//! digit `0` to `3`, a move is two squares, and a flip names its square twice.
use vstd::prelude::*;

use crate::text::{chars_of, skip_spaces, trim, trim_end, trimmed, is_space};

verus! {

/// The text of a square.
pub open spec fn square_text(i: int) -> Seq<char> {
    seq![('a' as int + i % 8) as char, ('0' as int + (i / 8) % 256) as char]
}

/// The text of a move.
pub open spec fn move_text(m: (u8, u8)) -> Seq<char> {
    square_text(m.0 as int) + square_text(m.1 as int)
}

/// The square that two characters name.
pub open spec fn square_of(file: char, rank: char) -> Option<u8> {
    if 'a' <= file <= 'h' && '0' <= rank <= '3' {
        Some(((file as int - 'a' as int) + (rank as int - '0' as int) * 8) as u8)
    } else {
        None
    }
}

/// The move that a text names, white space around it aside.
pub open spec fn move_of(s: Seq<char>) -> Option<(u8, u8)> {
    let t = trimmed(s);
    if t.len() != 4 {
        None
    } else {
        match (square_of(t[0], t[1]), square_of(t[2], t[3])) {
            (Some(a), Some(b)) => Some((a, b)),
            _ => None,
        }
    }
}

/// The text of a square. The rank is written as the character that many places after `0`,
/// which is a digit for the squares of the board.
pub fn square_to_uci(i: usize) -> (r: String)
    requires
        (i / 8) % 256 <= 207,
    ensures
        r@ == square_text(i as int),
{
    let mut s = String::new();
    push_square(&mut s, i);
    assert(s@ =~= square_text(i as int));
    s
}

fn push_square(s: &mut String, i: usize)
    requires
        (i / 8) % 256 <= 207,
    ensures
        final(s)@ == old(s)@ + square_text(i as int),
{
    let ghost base = s@;
    let file: u8 = (i % 8) as u8;
    let rank: u8 = ((i / 8) % 256) as u8;
    s.push((97 + file) as char);
    s.push((48 + rank) as char);
    assert(s@ =~= base + square_text(i as int));
}

fn uci_to_square(file: char, rank: char) -> (r: Option<u8>)
    ensures
        r == square_of(file, rank),
{
    if 'a' <= file && file <= 'h' && '0' <= rank && rank <= '3' {
        let f: u8 = (file as u32 - 'a' as u32) as u8;
        let k: u8 = (rank as u32 - '0' as u32) as u8;
        Some(f + k * 8)
    } else {
        None
    }
}

/// The text of a move; a flip is written as its square twice.
pub fn move_to_uci(m: (u8, u8)) -> (r: String)
    ensures
        r@ == move_text(m),
{
    let mut s = String::new();
    push_square(&mut s, m.0 as usize);
    push_square(&mut s, m.1 as usize);
    assert(s@ =~= move_text(m));
    s
}

/// The move that a text names; `None` where it is malformed.
pub fn uci_to_move(s: &str) -> (r: Option<(u8, u8)>)
    ensures
        r == move_of(s@),
{
    let all = chars_of(s);
    read_move(&all)
}

/// As `uci_to_move`, of a vector of characters.
pub fn read_move(all: &Vec<char>) -> (r: Option<(u8, u8)>)
    ensures
        r == move_of(all@),
{
    let t = trim(all);
    if t.len() != 4 {
        return None;
    }
    match (uci_to_square(t[0], t[1]), uci_to_square(t[2], t[3])) {
        (Some(a), Some(b)) => Some((a, b)),
        _ => None,
    }
}

/// Reading back the text of a move on the board gives the move.
pub proof fn law_move_round_trip(m: (u8, u8))
    requires
        m.0 < 32,
        m.1 < 32,
    ensures
        move_of(move_text(m)) == Some(m),
{
    let s = move_text(m);
    assert(!is_space(s[0]));
    assert(!is_space(s[3]));
    assert(skip_spaces(s, 0) == 0);
    assert(trim_end(s, 4) == 4);
    assert(trimmed(s) =~= s);
}

/// A text that names a move names one of the board.
pub proof fn law_move_on_board(s: Seq<char>)
    ensures
        move_of(s) matches Some(m) ==> m.0 < 32 && m.1 < 32,
{
}

} // verus!
