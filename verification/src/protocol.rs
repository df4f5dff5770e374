//! The engine's side of the UCI protocol.
//!
//! * `uci` is answered with the name of the engine and `uciok`.
//! * `isready` is answered with `readyok`.
//! * `ucinewgame` forgets the position.
//! * `position fen <position> [moves ...]` sets the position. With a list of moves, the text is
//!   the position after the last capture or flip, and the moves are the quiet ones since; they
//!   count as history for repetitions.
//! * `go [movetime <ms>] [nodes <n>]` searches, and is answered with a line of information and
//!   `bestmove`.
//! * `quit` ends the session.
//!
//! Any other line is passed over. Reading lines, printing the answers and timing a search are
//! left to the caller.
use vstd::prelude::*;

use crate::arith::{whole, Arith, Score};
use crate::board::{all_moves, position, wf, Pos};
use crate::engine::{
    answers, best_move_with_moves_scored_stats, is_window, window_request, Request, QUIESCE_MAX,
};
use crate::eval::{whole_number, Feat};
use crate::fen::{read_position, reading, Parsed, Reading};
use crate::root::SearchStats;
use crate::round_trip::law_readings_are_well_formed;
use crate::rules::law_all_moves_are_the_legal_moves;
use crate::text::{
    chars_of, decimal, number, parse_number, push_decimal, push_signed, push_text, signed_decimal,
    slice_of, spells, split_words, texts, trim, trimmed, words,
};
use crate::uci::{law_move_on_board, move_of, move_text, move_to_uci, read_move};

verus! {

// ---------------------------------------------------------------- the shipped parameters

/// Table, repetitions, covered material, general in context, valued mobility, domination,
/// danger to the general, and the guard against losing captures.
pub const FEATURES: u32 = 1018;

pub const MAX_DEPTH: i32 = 24;

pub const DEFAULT_MOVETIME_MS: u64 = 1000;

pub const DEFAULT_NODES: u64 = 100_000_000;

/// The values of the roles.
pub open spec fn shipped_values<A: Arith>() -> Seq<A> {
    seq![whole(30), whole(14), whole(11), whole(9), whole(7), whole(16), whole(4)]
}

pub fn default_values<S: Score>() -> (r: Vec<S>)
    ensures
        r@ == shipped_values::<S>(),
{
    let mut v: Vec<S> = Vec::new();
    v.push(whole_number(30));
    v.push(whole_number(14));
    v.push(whole_number(11));
    v.push(whole_number(9));
    v.push(whole_number(7));
    v.push(whole_number(16));
    v.push(whole_number(4));
    assert(v@ =~= shipped_values::<S>());
    v
}

/// The search that a position with a window of quiet moves gets.
pub open spec fn shipped_request<A: Arith>(
    p: Reading,
    moves: Seq<(u8, u8)>,
    movetime_ms: u64,
    node_budget: u64,
) -> Request<A> {
    window_request(
        start_of(p),
        moves,
        node_budget,
        A::ratio_of(1, 10),
        true,
        MAX_DEPTH as int,
        A::ratio_of(8, 10),
        whole(28),
        shipped_values(),
        movetime_ms,
        Feat::of_bits(FEATURES),
    )
}

/// The position that was read, at ply zero.
pub open spec fn start_of(p: Reading) -> Pos {
    position(p.squares, p.bag, p.first_color, 0, p.no_progress)
}

// ---------------------------------------------------------------- the line of information

/// The line that reports a search. The depth is left out where no depth was finished, and the
/// nodes per second where no time has passed.
pub open spec fn info_text(
    nodes: nat,
    depth: int,
    elapsed_ms: nat,
    cp: int,
    pv: Seq<char>,
) -> Seq<char> {
    "info"@ + (if depth > 0 {
        " depth "@ + decimal(depth as nat)
    } else {
        seq![]
    }) + " nodes "@ + decimal(nodes) + (if elapsed_ms > 0 {
        " nps "@ + decimal(per_second(nodes, elapsed_ms))
    } else {
        seq![]
    }) + " time "@ + decimal(elapsed_ms) + " score cp "@ + signed_decimal(cp) + " pv "@ + pv
}

/// Nodes per second, where a thousand times the nodes stops at the largest count.
pub open spec fn per_second(nodes: nat, elapsed_ms: nat) -> nat {
    if nodes * 1000 > u64::MAX {
        u64::MAX as nat / elapsed_ms
    } else {
        nodes * 1000 / elapsed_ms
    }
}

pub fn search_info_line(stats: &SearchStats, elapsed_ms: u64, cp: i64, pv: &str) -> (r: String)
    ensures
        r@ == info_text(stats.nodes as nat, stats.depth as int, elapsed_ms as nat, cp as int, pv@),
{
    let mut line = String::new();
    push_text(&mut line, "info");
    if stats.depth > 0 {
        push_text(&mut line, " depth ");
        push_decimal(&mut line, stats.depth as u64);
    }
    push_text(&mut line, " nodes ");
    push_decimal(&mut line, stats.nodes);
    if elapsed_ms > 0 {
        push_text(&mut line, " nps ");
        let thousandfold: u64 = if stats.nodes > u64::MAX / 1000 {
            u64::MAX
        } else {
            stats.nodes * 1000
        };
        push_decimal(&mut line, thousandfold / elapsed_ms);
    }
    push_text(&mut line, " time ");
    push_decimal(&mut line, elapsed_ms);
    push_text(&mut line, " score cp ");
    push_signed(&mut line, cp);
    push_text(&mut line, " pv ");
    push_text(&mut line, pv);
    assert(line@ =~= info_text(
        stats.nodes as nat,
        stats.depth as int,
        elapsed_ms as nat,
        cp as int,
        pv@,
    ));
    line
}

// ---------------------------------------------------------------- searching

/// A move and its value as they are reported: the text of the move and thousandths, or
/// `(none)` and zero.
pub open spec fn reported<A: Arith>(m: (u8, u8), value: A) -> (Seq<char>, int) {
    if m.0 == 255 {
        ("(none)"@, 0)
    } else {
        (move_text(m), A::milli_of(value) as int)
    }
}

/// The report of a search that answers a request.
pub open spec fn reports<A: Arith>(
    text: Seq<char>,
    cp: int,
    stats: SearchStats,
    q: Request<A>,
) -> bool {
    exists|m: (u8, u8), value: A|
        #[trigger] answers((m, value, stats), q) && (text, cp) == reported(m, value)
}

/// What is reported is a legal move of the position, or none where there is none.
pub proof fn law_reported_move_is_legal<A: Arith>(
    text: Seq<char>,
    cp: int,
    stats: SearchStats,
    q: Request<A>,
)
    requires
        reports(text, cp, stats, q),
    ensures
        all_moves(q.pos).len() == 0 ==> text == "(none)"@ && cp == 0,
        all_moves(q.pos).len() > 0 ==> exists|m: (u8, u8)|
            #[trigger] all_moves(q.pos).contains(m) && text == move_text(m),
{
    let (m, value) = choose|m: (u8, u8), value: A|
        #[trigger] answers((m, value, stats), q) && (text, cp) == reported(m, value);
    if all_moves(q.pos).len() > 0 {
        law_all_moves_are_the_legal_moves(q.pos, m);
        assert(m.0 < 32);
    }
}

/// The counters have room for the search of a window.
pub open spec fn window_fits(p: Reading, moves: Seq<(u8, u8)>) -> bool {
    &&& moves.len() + MAX_DEPTH + QUIESCE_MAX <= u32::MAX
    &&& p.no_progress + moves.len() < u32::MAX
}

pub fn search_best<S: Score>(
    p: &Parsed,
    window_moves: &[(u8, u8)],
    movetime_ms: u64,
    node_budget: u64,
) -> (r: (String, i64, SearchStats))
    requires
        wf(start_of(p@)),
        is_window(window_moves@),
        window_fits(p@, window_moves@),
    ensures
        reports(
            r.0@,
            r.1 as int,
            r.2,
            shipped_request::<S>(p@, window_moves@, movetime_ms, node_budget),
        ),
        -1000 <= r.1 <= 1000,
{
    let ghost q = shipped_request::<S>(p@, window_moves@, movetime_ms, node_budget);
    let squares = p.squares.clone();
    let bag = p.bag.clone();
    assert(squares@ =~= p.squares@);
    assert(bag@ =~= p.bag@);
    let mut moves: Vec<(u8, u8)> = Vec::with_capacity(window_moves.len());
    let mut i: usize = 0;
    while i < window_moves.len()
        invariant
            i <= window_moves@.len(),
            moves@ == window_moves@.take(i as int),
        decreases window_moves@.len() - i,
    {
        moves.push(window_moves[i]);
        assert(window_moves@.take(i + 1) =~= window_moves@.take(i as int).push(
            window_moves@[i as int],
        ));
        i = i + 1;
    }
    assert(moves@ =~= window_moves@);
    let (m, value, stats) = best_move_with_moves_scored_stats(
        squares,
        bag,
        p.first_color,
        p.no_progress,
        moves,
        node_budget,
        S::ratio(1, 10),
        true,
        MAX_DEPTH,
        S::ratio(8, 10),
        whole_number(28),
        default_values(),
        movetime_ms,
        FEATURES,
    );
    assert(answers((m, value, stats), q));
    if m.0 == 255 {
        let mut none = String::new();
        push_text(&mut none, "(none)");
        assert(none@ =~= "(none)"@);
        (none, 0, stats)
    } else {
        (move_to_uci(m), value.milli(), stats)
    }
}

// ---------------------------------------------------------------- reading commands

/// What follows `pat` at the start of `s`.
pub open spec fn after_prefix(s: Seq<char>, pat: Seq<char>) -> Option<Seq<char>> {
    if pat.len() <= s.len() && s.take(pat.len() as int) == pat {
        Some(s.skip(pat.len() as int))
    } else {
        None
    }
}

/// The first index from `i` on at which `pat` occurs.
pub open spec fn find_from(s: Seq<char>, pat: Seq<char>, i: int) -> Option<int>
    decreases s.len() + 1 - i,
{
    if i < 0 || i + pat.len() > s.len() {
        None
    } else if s.subrange(i, i + pat.len()) == pat {
        Some(i)
    } else {
        find_from(s, pat, i + 1)
    }
}

/// The text before the first ` moves `.
pub open spec fn before_moves(s: Seq<char>) -> Seq<char> {
    match find_from(s, " moves "@, 0) {
        Some(i) => s.take(i),
        None => s,
    }
}

/// The text after the first ` moves ` and before the next.
pub open spec fn after_moves(s: Seq<char>) -> Seq<char> {
    match find_from(s, " moves "@, 0) {
        Some(i) => before_moves(s.skip(i + " moves "@.len())),
        None => seq![],
    }
}

/// The moves that the first `n` words name; other words are passed over.
pub open spec fn moves_in(ws: Seq<Seq<char>>, n: int) -> Seq<(u8, u8)>
    decreases n,
{
    if n <= 0 {
        seq![]
    } else {
        match move_of(ws[n - 1]) {
            Some(m) => moves_in(ws, n - 1).push(m),
            None => moves_in(ws, n - 1),
        }
    }
}

/// The limits that the words of `go` from index `i` on set: the time, then the nodes. A time
/// that is no number is the default, a number of nodes that is none changes nothing.
pub open spec fn limits_from(
    ws: Seq<Seq<char>>,
    i: int,
    movetime: u64,
    nodes: u64,
) -> (u64, u64)
    decreases ws.len() - i,
{
    if i < 0 || i >= ws.len() {
        (movetime, nodes)
    } else if ws[i] == "movetime"@ && i + 1 < ws.len() {
        limits_from(ws, i + 2, count_or(ws[i + 1], DEFAULT_MOVETIME_MS), nodes)
    } else if ws[i] == "nodes"@ && i + 1 < ws.len() {
        limits_from(ws, i + 2, movetime, count_or(ws[i + 1], nodes))
    } else {
        limits_from(ws, i + 1, movetime, nodes)
    }
}

/// The number that a word spells, or `other`.
pub open spec fn count_or(s: Seq<char>, other: u64) -> u64 {
    match number(s) {
        Some(n) => if n <= u64::MAX {
            n as u64
        } else {
            other
        },
        None => other,
    }
}

fn strip(v: &Vec<char>, pat: &str) -> (r: Option<Vec<char>>)
    ensures
        match r {
            Some(rest) => after_prefix(v@, pat@) == Some(rest@),
            None => after_prefix(v@, pat@) is None,
        },
{
    let p = chars_of(pat);
    if p.len() > v.len() {
        return None;
    }
    let head = slice_of(v, 0, p.len());
    assert(head@ =~= v@.take(pat@.len() as int));
    if spells(&head, pat) {
        let rest = slice_of(v, p.len(), v.len());
        assert(rest@ =~= v@.skip(pat@.len() as int));
        Some(rest)
    } else {
        None
    }
}

fn find(v: &Vec<char>, pat: &str) -> (r: Option<usize>)
    ensures
        match r {
            Some(i) => find_from(v@, pat@, 0) == Some(i as int) && i + pat@.len() <= v@.len(),
            None => find_from(v@, pat@, 0) is None,
        },
{
    let p = chars_of(pat);
    if p.len() > v.len() {
        return None;
    }
    let last: usize = v.len() - p.len();
    let mut i: usize = 0;
    loop
        invariant
            i <= last,
            p@ == pat@,
            last + p@.len() == v@.len(),
            v@.len() <= usize::MAX,
            find_from(v@, pat@, i as int) == find_from(v@, pat@, 0),
        decreases last - i,
    {
        let w = slice_of(v, i, i + p.len());
        if spells(&w, pat) {
            return Some(i);
        }
        if i == last {
            assert(find_from(v@, pat@, i + 1) is None);
            return None;
        }
        i = i + 1;
    }
}

/// The text before and after the first ` moves `.
fn split_moves(v: &Vec<char>) -> (r: (Vec<char>, Vec<char>))
    ensures
        r.0@ == before_moves(v@),
        r.1@ == after_moves(v@),
{
    proof {
        reveal_strlit(" moves ");
    }
    let n: usize = v.len();
    match find(v, " moves ") {
        Some(i) => {
            let head = slice_of(v, 0, i);
            assert(head@ =~= v@.take(i as int));
            let rest = slice_of(v, i + 7, n);
            assert(rest@ =~= v@.skip(i + " moves "@.len()));
            let tail = match find(&rest, " moves ") {
                Some(j) => {
                    let t = slice_of(&rest, 0, j);
                    assert(t@ =~= rest@.take(j as int));
                    t
                },
                None => rest,
            };
            (head, tail)
        },
        None => {
            let head = slice_of(v, 0, n);
            assert(head@ =~= v@);
            let tail: Vec<char> = Vec::new();
            assert(tail@ =~= seq![]);
            (head, tail)
        },
    }
}

fn read_moves(v: &Vec<char>) -> (r: Vec<(u8, u8)>)
    ensures
        r@ == moves_in(words(v@), words(v@).len() as int),
{
    let ws = split_words(v);
    let mut moves: Vec<(u8, u8)> = Vec::new();
    let mut i: usize = 0;
    assert(moves@ =~= seq![]);
    while i < ws.len()
        invariant
            i <= ws@.len(),
            moves@ == moves_in(texts(ws@), i as int),
        decreases ws@.len() - i,
    {
        assert(texts(ws@)[i as int] == ws@[i as int]@);
        match read_move(&ws[i]) {
            Some(m) => {
                moves.push(m);
            },
            None => {},
        }
        i = i + 1;
    }
    moves
}

fn read_count(v: &Vec<char>, other: u64) -> (r: u64)
    ensures
        r == count_or(v@, other),
{
    match parse_number(v, u64::MAX) {
        Some(n) => n,
        None => other,
    }
}

fn read_limits(ws: &Vec<Vec<char>>) -> (r: (u64, u64))
    ensures
        r == limits_from(texts(ws@), 1, DEFAULT_MOVETIME_MS, DEFAULT_NODES),
{
    let mut movetime: u64 = DEFAULT_MOVETIME_MS;
    let mut nodes: u64 = DEFAULT_NODES;
    if ws.len() == 0 {
        return (movetime, nodes);
    }
    let mut i: usize = 1;
    while i < ws.len()
        invariant
            1 <= i <= ws@.len(),
            limits_from(texts(ws@), i as int, movetime, nodes) == limits_from(
                texts(ws@),
                1,
                DEFAULT_MOVETIME_MS,
                DEFAULT_NODES,
            ),
        decreases ws@.len() - i,
    {
        let ghost t = texts(ws@);
        assert(t[i as int] == ws@[i as int]@);
        if i + 1 < ws.len() {
            assert(t[i + 1] == ws@[i + 1]@);
            if spells(&ws[i], "movetime") {
                movetime = read_count(&ws[i + 1], DEFAULT_MOVETIME_MS);
                i = i + 2;
                continue;
            }
            if spells(&ws[i], "nodes") {
                nodes = read_count(&ws[i + 1], nodes);
                i = i + 2;
                continue;
            }
        }
        i = i + 1;
    }
    (movetime, nodes)
}

// ---------------------------------------------------------------- sessions

/// What a session remembers: the position, and the quiet moves since.
#[verifier::ext_equal]
pub struct Game {
    pub current: Option<Reading>,
    pub moves: Seq<(u8, u8)>,
}

/// What a command asks for: lines to print, a search, or the end of the session.
pub enum Deed {
    Say(Seq<Seq<char>>),
    Search { movetime: u64, nodes: u64 },
    Quit,
}

/// The first word of a line.
pub open spec fn command_of(line: Seq<char>) -> Seq<char> {
    let ws = words(trimmed(line));
    if ws.len() == 0 {
        seq![]
    } else {
        ws[0]
    }
}

/// The game after `position` with the given rest of the line.
pub open spec fn positioned(g: Game, rest: Seq<char>) -> Game {
    match after_prefix(trimmed(rest), "fen"@) {
        Some(f) => Game {
            current: reading(trimmed(before_moves(f))),
            moves: moves_in(words(after_moves(f)), words(after_moves(f)).len() as int),
        },
        None => g,
    }
}

/// The game after a line.
pub open spec fn game_after(g: Game, line: Seq<char>) -> Game {
    if command_of(line) == "ucinewgame"@ {
        Game { current: None, moves: seq![] }
    } else if command_of(line) == "position"@ {
        match after_prefix(trimmed(line), "position"@) {
            Some(rest) => positioned(g, rest),
            None => g,
        }
    } else {
        g
    }
}

/// What a line asks for.
pub open spec fn deed_of(g: Game, line: Seq<char>) -> Deed {
    let c = command_of(line);
    if c == "uci"@ {
        Deed::Say(seq!["id name MistyBanqi 0.2.5"@, "id author Mistboard"@, "uciok"@])
    } else if c == "isready"@ {
        Deed::Say(seq!["readyok"@])
    } else if c == "go"@ {
        if g.current is None {
            Deed::Say(seq!["bestmove (none)"@])
        } else {
            let (movetime, nodes) = limits_from(
                words(trimmed(line)),
                1,
                DEFAULT_MOVETIME_MS,
                DEFAULT_NODES,
            );
            Deed::Search { movetime, nodes }
        }
    } else if c == "quit"@ {
        Deed::Quit
    } else {
        Deed::Say(seq![])
    }
}

/// The lines that answer a finished search.
pub open spec fn answer_lines(uci: Seq<char>, cp: int, stats: SearchStats, elapsed_ms: nat) -> Seq<
    Seq<char>,
> {
    if uci == "(none)"@ {
        seq!["bestmove (none)"@]
    } else {
        seq![
            info_text(stats.nodes as nat, stats.depth as int, elapsed_ms, cp, uci),
            "bestmove "@ + uci,
        ]
    }
}

/// The contents of a vector of lines.
pub open spec fn lines_of(v: Seq<String>) -> Seq<Seq<char>> {
    v.map_values(|s: String| s@)
}

/// What the caller is to do.
pub enum Action {
    Say(Vec<String>),
    Search { movetime: u64, nodes: u64 },
    Quit,
}

impl View for Action {
    type V = Deed;

    open spec fn view(&self) -> Deed {
        match self {
            Action::Say(v) => Deed::Say(lines_of(v@)),
            Action::Search { movetime, nodes } => Deed::Search {
                movetime: *movetime,
                nodes: *nodes,
            },
            Action::Quit => Deed::Quit,
        }
    }
}

fn line_of(t: &str) -> (r: String)
    ensures
        r@ == t@,
{
    let mut s = String::new();
    push_text(&mut s, t);
    assert(s@ =~= t@);
    s
}

/// A single line.
fn one_line(t: &str) -> (r: Vec<String>)
    ensures
        lines_of(r@) == seq![t@],
{
    let mut v: Vec<String> = Vec::new();
    v.push(line_of(t));
    assert(lines_of(v@) =~= seq![t@]);
    v
}

/// The state of a conversation with a driver.
pub struct Session {
    pub current: Option<Parsed>,
    pub moves: Vec<(u8, u8)>,
}

impl View for Session {
    type V = Game;

    open spec fn view(&self) -> Game {
        Game {
            current: match self.current {
                Some(p) => Some(p@),
                None => None,
            },
            moves: self.moves@,
        }
    }
}

/// The position is well formed, and the moves are on the board.
pub open spec fn game_wf(g: Game) -> bool {
    &&& g.current matches Some(p) ==> wf(start_of(p))
    &&& forall|i: int|
        0 <= i < g.moves.len() ==> (#[trigger] g.moves[i]).0 < 32 && g.moves[i].1 < 32
}

proof fn lemma_moves_on_board(ws: Seq<Seq<char>>, n: int)
    ensures
        forall|i: int|
            0 <= i < moves_in(ws, n).len() ==> (#[trigger] moves_in(ws, n)[i]).0 < 32 && moves_in(
                ws,
                n,
            )[i].1 < 32,
    decreases n,
{
    if n > 0 {
        lemma_moves_on_board(ws, n - 1);
        law_move_on_board(ws[n - 1]);
        let all = moves_in(ws, n);
        let before = moves_in(ws, n - 1);
        assert forall|i: int| 0 <= i < all.len() implies (#[trigger] all[i]).0 < 32 && all[i].1
            < 32 by {
            if i < before.len() {
                assert(all[i] == before[i]);
            }
        }
    }
}

/// The commands are words of different lengths.
proof fn lemma_commands_differ()
    ensures
        "uci"@.len() == 3,
        "isready"@.len() == 7,
        "ucinewgame"@.len() == 10,
        "position"@.len() == 8,
        "go"@.len() == 2,
        "quit"@.len() == 4,
{
    reveal_strlit("uci");
    reveal_strlit("isready");
    reveal_strlit("ucinewgame");
    reveal_strlit("position");
    reveal_strlit("go");
    reveal_strlit("quit");
}

/// Whatever is said, the game stays well formed.
pub proof fn law_games_stay_well_formed(g: Game, line: Seq<char>)
    requires
        game_wf(g),
    ensures
        game_wf(game_after(g, line)),
{
    if let Some(rest) = after_prefix(trimmed(line), "position"@) {
        if let Some(f) = after_prefix(trimmed(rest), "fen"@) {
            law_readings_are_well_formed(trimmed(before_moves(f)));
            lemma_moves_on_board(words(after_moves(f)), words(after_moves(f)).len() as int);
        }
    }
}

impl Session {
    pub fn new() -> (r: Session)
        ensures
            r@ == (Game { current: None, moves: seq![] }),
            game_wf(r@),
    {
        let r = Session { current: None, moves: Vec::new() };
        assert(r@ =~= (Game { current: None, moves: seq![] }));
        r
    }

    /// Takes a line from the driver.
    pub fn step(&mut self, line: &str) -> (r: Action)
        requires
            game_wf(old(self)@),
        ensures
            final(self)@ == game_after(old(self)@, line@),
            game_wf(final(self)@),
            r@ == deed_of(old(self)@, line@),
    {
        proof {
            law_games_stay_well_formed(self@, line@);
            lemma_commands_differ();
        }
        let all = chars_of(line);
        let t = trim(&all);
        let ws = split_words(&t);
        let ghost g = self@;
        assert(texts(ws@).len() == ws@.len());
        if ws.len() == 0 {
            let none: Vec<String> = Vec::new();
            assert(lines_of(none@) =~= seq![]);
            return Action::Say(none);
        }
        assert(texts(ws@)[0] == ws@[0]@);
        if spells(&ws[0], "uci") {
            let mut v: Vec<String> = Vec::new();
            v.push(line_of("id name MistyBanqi 0.2.5"));
            v.push(line_of("id author Mistboard"));
            v.push(line_of("uciok"));
            assert(lines_of(v@) =~= seq![
                "id name MistyBanqi 0.2.5"@,
                "id author Mistboard"@,
                "uciok"@,
            ]);
            return Action::Say(v);
        }
        if spells(&ws[0], "isready") {
            return Action::Say(one_line("readyok"));
        }
        if spells(&ws[0], "ucinewgame") {
            self.current = None;
            self.moves = Vec::new();
            assert(self@ =~= (Game { current: None, moves: seq![] }));
        } else if spells(&ws[0], "position") {
            match strip(&t, "position") {
                Some(rest) => {
                    self.set_position(&rest);
                },
                None => {},
            }
        } else if spells(&ws[0], "go") {
            if self.current.is_none() {
                return Action::Say(one_line("bestmove (none)"));
            }
            let (movetime, nodes) = read_limits(&ws);
            return Action::Search { movetime, nodes };
        } else if spells(&ws[0], "quit") {
            return Action::Quit;
        }
        let none: Vec<String> = Vec::new();
        assert(lines_of(none@) =~= seq![]);
        Action::Say(none)
    }

    fn set_position(&mut self, rest: &Vec<char>)
        ensures
            final(self)@ == positioned(old(self)@, rest@),
    {
        let t = trim(rest);
        match strip(&t, "fen") {
            Some(f) => {
                let (head, tail) = split_moves(&f);
                self.current = read_position(&trim(&head));
                self.moves = read_moves(&tail);
            },
            None => {},
        }
    }

    /// Whether the position can be searched: there is one, no move of the window is a flip, and
    /// the counters have room.
    pub fn can_search(&self) -> (r: bool)
        requires
            game_wf(self@),
        ensures
            r == (self@.current matches Some(p) && is_window(self@.moves) && window_fits(
                p,
                self@.moves,
            )),
    {
        let n: u64 = self.moves.len() as u64;
        let fits = match &self.current {
            Some(p) => n <= 0xffff_ffff - 32 && p.no_progress as u64 + n < 0xffff_ffff,
            None => false,
        };
        if !fits {
            return false;
        }
        let mut i: usize = 0;
        while i < self.moves.len()
            invariant
                i <= self.moves@.len(),
                forall|j: int|
                    0 <= j < i ==> (#[trigger] self.moves@[j]).0 != self.moves@[j].1,
            decreases self.moves@.len() - i,
        {
            if self.moves[i].0 == self.moves[i].1 {
                assert(self@.moves[i as int].0 == self@.moves[i as int].1);
                return false;
            }
            i = i + 1;
        }
        true
    }

    /// Searches the position within the limits of a command.
    pub fn search<S: Score>(&self, movetime: u64, nodes: u64) -> (r: (String, i64, SearchStats))
        requires
            game_wf(self@),
            self@.current is Some,
            is_window(self@.moves),
            window_fits(self@.current->0, self@.moves),
        ensures
            reports(
                r.0@,
                r.1 as int,
                r.2,
                shipped_request::<S>(self@.current->0, self@.moves, movetime, nodes),
            ),
            -1000 <= r.1 <= 1000,
    {
        match &self.current {
            Some(p) => search_best::<S>(p, self.moves.as_slice(), movetime, nodes),
            None => (String::new(), 0, SearchStats { nodes: 0, depth: 0 }),
        }
    }
}

/// The lines that answer a finished search.
pub fn answer(uci: &str, cp: i64, stats: &SearchStats, elapsed_ms: u64) -> (r: Vec<String>)
    ensures
        lines_of(r@) == answer_lines(uci@, cp as int, *stats, elapsed_ms as nat),
{
    let text = chars_of(uci);
    if spells(&text, "(none)") {
        return one_line("bestmove (none)");
    }
    let mut v: Vec<String> = Vec::new();
    v.push(search_info_line(stats, elapsed_ms, cp, uci));
    let mut best = line_of("bestmove ");
    push_text(&mut best, uci);
    v.push(best);
    assert(lines_of(v@) =~= answer_lines(uci@, cp as int, *stats, elapsed_ms as nat));
    v
}

} // verus!
