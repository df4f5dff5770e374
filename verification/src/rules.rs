//! What the rules of the game guarantee: which moves are legal, and what a move changes.
use vstd::prelude::*;

use crate::board::{
    after, alive, all_moves, bag_total, beyond, cannon_jump, cannon_jumps, cannon_step,
    cannon_steps, color_of, count_of, dir_file, dir_rank, eliminated, emit, file_of, flips, holds,
    holds_other, index_of, mover, moves_from, moves_of, on_board, outcome, rank_of, ray, role_of,
    room, step, tiles, walk, walks, wf, win_for, Pos, CLOCK_LIMIT, DOWN, EMPTY, RES_DRAW,
};

verus! {

// ---------------------------------------------------------------- legality

/// A piece of `color` on `i` may go to `t`.
pub open spec fn reaches(sq: Seq<i16>, i: int, t: int, color: int) -> bool {
    exists|k: int| 0 <= k < 4 && #[trigger] reaches_by(sq, i, k, t, color)
}

/// It may go there in direction `k`.
pub open spec fn reaches_by(sq: Seq<i16>, i: int, k: int, t: int, color: int) -> bool {
    if role_of(sq[i] as int) == 5 {
        cannon_step(sq, i, k) == Some(t) || cannon_jump(sq, i, k, color) == Some(t)
    } else {
        walk(sq, role_of(sq[i] as int), i, k, color) == Some(t)
    }
}

/// `m` turns up a face-down tile.
pub open spec fn is_flip(p: Pos, m: (u8, u8)) -> bool {
    m.0 == m.1 && m.0 < 32 && p.sq[m.0 as int] == DOWN
}

/// `m` moves a piece of the player to move.
pub open spec fn is_step(p: Pos, m: (u8, u8)) -> bool {
    &&& mover(p) >= 0
    &&& m.0 < 32
    &&& m.1 < 32
    &&& holds(p.sq, m.0 as int, mover(p))
    &&& reaches(p.sq, m.0 as int, m.1 as int, mover(p))
}

/// `m` is a legal move.
pub open spec fn legal(p: Pos, m: (u8, u8)) -> bool {
    is_flip(p, m) || is_step(p, m)
}

proof fn lemma_flips(sq: Seq<i16>, n: int, m: (u8, u8))
    requires
        0 <= n <= 32,
    ensures
        flips(sq, n).contains(m) <==> m.0 == m.1 && m.0 < n && sq[m.0 as int] == DOWN,
    decreases n,
{
    if n > 0 {
        lemma_flips(sq, n - 1, m);
        let s = flips(sq, n - 1);
        let x = ((n - 1) as u8, (n - 1) as u8);
        if sq[n - 1] == DOWN {
            lemma_push_contains(s, x, m);
        }
    }
}

proof fn lemma_push_contains<T>(s: Seq<T>, x: T, m: T)
    ensures
        s.push(x).contains(m) <==> s.contains(m) || m == x,
{
    if s.contains(m) {
        let i = choose|i: int| 0 <= i < s.len() && s[i] == m;
        assert(s.push(x)[i] == m);
    }
    assert(s.push(x)[s.len() as int] == x);
}

proof fn lemma_add_contains<T>(s: Seq<T>, t: Seq<T>, m: T)
    ensures
        (s + t).contains(m) <==> s.contains(m) || t.contains(m),
{
    if s.contains(m) {
        let i = choose|i: int| 0 <= i < s.len() && s[i] == m;
        assert((s + t)[i] == m);
    }
    if t.contains(m) {
        let i = choose|i: int| 0 <= i < t.len() && t[i] == m;
        assert((s + t)[s.len() + i] == m);
    }
    if (s + t).contains(m) {
        let i = choose|i: int| 0 <= i < (s + t).len() && (s + t)[i] == m;
        if i < s.len() {
            assert(s[i] == m);
        } else {
            assert(t[i - s.len()] == m);
        }
    }
}

proof fn lemma_emit(i: int, target: Option<int>, m: (u8, u8))
    requires
        0 <= i < 32,
        target matches Some(t) ==> 0 <= t < 32,
    ensures
        emit(i, target).contains(m) <==> m.0 == i && target == Some(m.1 as int),
{
    if let Some(t) = target {
        assert(emit(i, target)[0] == (i as u8, t as u8));
        if emit(i, target).contains(m) {
        }
        if m.0 == i && t == m.1 {
            assert(emit(i, target)[0] == m);
        }
    }
}

/// A line that starts on the board stays on it, and does not turn back.
pub proof fn lemma_ray(sq: Seq<i16>, f: int, r: int, k: int)
    requires
        0 <= k < 4,
    ensures
        ray(sq, f, r, k) matches Some(t) ==> {
            &&& 0 <= t < 32
            &&& sq[t] != EMPTY
            &&& k == 0 ==> file_of(t) >= f && rank_of(t) == r
            &&& k == 1 ==> file_of(t) <= f && rank_of(t) == r
            &&& k == 2 ==> rank_of(t) >= r && file_of(t) == f
            &&& k == 3 ==> rank_of(t) <= r && file_of(t) == f
        },
    decreases room(f, r, k),
{
    if on_board(f, r) && sq[index_of(f, r)] == EMPTY {
        lemma_ray(sq, f + dir_file(k), r + dir_rank(k), k);
    }
}

/// Where a piece goes is on the board and not where it stands.
pub proof fn lemma_targets(sq: Seq<i16>, role: int, i: int, k: int, color: int)
    requires
        0 <= i < 32,
        0 <= k < 4,
    ensures
        step(i, k) matches Some(t) ==> 0 <= t < 32 && t != i,
        cannon_step(sq, i, k) matches Some(t) ==> 0 <= t < 32 && t != i,
        cannon_jump(sq, i, k, color) matches Some(t) ==> 0 <= t < 32 && t != i,
        walk(sq, role, i, k, color) matches Some(t) ==> 0 <= t < 32 && t != i,
{
    lemma_ray(sq, file_of(i) + dir_file(k), rank_of(i) + dir_rank(k), k);
    if let Some(s) = beyond(sq, i, k) {
        lemma_ray(sq, file_of(s) + dir_file(k), rank_of(s) + dir_rank(k), k);
    }
}

proof fn lemma_moves_from(sq: Seq<i16>, i: int, color: int, m: (u8, u8))
    requires
        0 <= i < 32,
    ensures
        moves_from(sq, i, color).contains(m) <==> m.0 == i && reaches(sq, i, m.1 as int, color),
{
    let role = role_of(sq[i] as int);
    let t = m.1 as int;
    if role_of(sq[i] as int) == 5 {
        lemma_cannon_steps(sq, i, 4, m);
        lemma_cannon_jumps(sq, i, 4, color, m);
        lemma_add_contains(cannon_steps(sq, i, 4), cannon_jumps(sq, i, 4, color), m);
        if reaches(sq, i, t, color) {
            let k = choose|k: int| 0 <= k < 4 && #[trigger] reaches_by(sq, i, k, t, color);
            assert(cannon_step(sq, i, k) == Some(t) || cannon_jump(sq, i, k, color) == Some(t));
        }
        if exists|k: int| 0 <= k < 4 && #[trigger] cannon_step(sq, i, k) == Some(t) {
            let k = choose|k: int| 0 <= k < 4 && #[trigger] cannon_step(sq, i, k) == Some(t);
            assert(reaches_by(sq, i, k, t, color));
        }
        if exists|k: int| 0 <= k < 4 && #[trigger] cannon_jump(sq, i, k, color) == Some(t) {
            let k = choose|k: int| 0 <= k < 4 && #[trigger] cannon_jump(sq, i, k, color) == Some(t);
            assert(reaches_by(sq, i, k, t, color));
        }
    } else {
        lemma_walks(sq, role, i, 4, color, m);
        if reaches(sq, i, t, color) {
            let k = choose|k: int| 0 <= k < 4 && #[trigger] reaches_by(sq, i, k, t, color);
            assert(walk(sq, role, i, k, color) == Some(t));
        }
        if exists|k: int| 0 <= k < 4 && #[trigger] walk(sq, role, i, k, color) == Some(t) {
            let k = choose|k: int| 0 <= k < 4 && #[trigger] walk(sq, role, i, k, color) == Some(t);
            assert(reaches_by(sq, i, k, t, color));
        }
    }
}

proof fn lemma_cannon_steps(sq: Seq<i16>, i: int, n: int, m: (u8, u8))
    requires
        0 <= i < 32,
        0 <= n <= 4,
    ensures
        cannon_steps(sq, i, n).contains(m) <==> m.0 == i && exists|k: int|
            0 <= k < n && #[trigger] cannon_step(sq, i, k) == Some(m.1 as int),
    decreases n,
{
    if n > 0 {
        lemma_cannon_steps(sq, i, n - 1, m);
        lemma_targets(sq, 5, i, n - 1, 0);
        let o = cannon_step(sq, i, n - 1);
        lemma_emit(i, o, m);
        lemma_add_contains(cannon_steps(sq, i, n - 1), emit(i, o), m);
        if m.0 == i && exists|k: int| 0 <= k < n && #[trigger] cannon_step(sq, i, k) == Some(
            m.1 as int,
        ) {
            let k = choose|k: int| 0 <= k < n && #[trigger] cannon_step(sq, i, k) == Some(
                m.1 as int,
            );
            assert(k == n - 1 || k < n - 1);
        }
    }
}

proof fn lemma_cannon_jumps(sq: Seq<i16>, i: int, n: int, color: int, m: (u8, u8))
    requires
        0 <= i < 32,
        0 <= n <= 4,
    ensures
        cannon_jumps(sq, i, n, color).contains(m) <==> m.0 == i && exists|k: int|
            0 <= k < n && #[trigger] cannon_jump(sq, i, k, color) == Some(m.1 as int),
    decreases n,
{
    if n > 0 {
        lemma_cannon_jumps(sq, i, n - 1, color, m);
        lemma_targets(sq, 5, i, n - 1, color);
        let o = cannon_jump(sq, i, n - 1, color);
        lemma_emit(i, o, m);
        lemma_add_contains(cannon_jumps(sq, i, n - 1, color), emit(i, o), m);
        if m.0 == i && exists|k: int|
            0 <= k < n && #[trigger] cannon_jump(sq, i, k, color) == Some(m.1 as int) {
            let k = choose|k: int|
                0 <= k < n && #[trigger] cannon_jump(sq, i, k, color) == Some(m.1 as int);
            assert(k == n - 1 || k < n - 1);
        }
    }
}

proof fn lemma_walks(sq: Seq<i16>, role: int, i: int, n: int, color: int, m: (u8, u8))
    requires
        0 <= i < 32,
        0 <= n <= 4,
    ensures
        walks(sq, role, i, n, color).contains(m) <==> m.0 == i && exists|k: int|
            0 <= k < n && #[trigger] walk(sq, role, i, k, color) == Some(m.1 as int),
    decreases n,
{
    if n > 0 {
        lemma_walks(sq, role, i, n - 1, color, m);
        lemma_targets(sq, role, i, n - 1, color);
        let o = walk(sq, role, i, n - 1, color);
        lemma_emit(i, o, m);
        lemma_add_contains(walks(sq, role, i, n - 1, color), emit(i, o), m);
        if m.0 == i && exists|k: int| 0 <= k < n && #[trigger] walk(sq, role, i, k, color) == Some(
            m.1 as int,
        ) {
            let k = choose|k: int| 0 <= k < n && #[trigger] walk(sq, role, i, k, color) == Some(
                m.1 as int,
            );
            assert(k == n - 1 || k < n - 1);
        }
    }
}

pub proof fn lemma_moves_of(sq: Seq<i16>, color: int, n: int, m: (u8, u8))
    requires
        0 <= n <= 32,
    ensures
        moves_of(sq, color, n).contains(m) <==> m.0 < n && holds(sq, m.0 as int, color) && reaches(
            sq,
            m.0 as int,
            m.1 as int,
            color,
        ),
    decreases n,
{
    if n > 0 {
        lemma_moves_of(sq, color, n - 1, m);
        if holds(sq, n - 1, color) {
            lemma_moves_from(sq, n - 1, color, m);
            lemma_add_contains(moves_of(sq, color, n - 1), moves_from(sq, n - 1, color), m);
        }
    }
}

/// The list of moves holds the legal moves and no others.
pub proof fn law_all_moves_are_the_legal_moves(p: Pos, m: (u8, u8))
    ensures
        all_moves(p).contains(m) <==> legal(p, m),
{
    lemma_flips(p.sq, 32, m);
    if mover(p) >= 0 {
        lemma_moves_of(p.sq, mover(p), 32, m);
        lemma_add_contains(flips(p.sq, 32), moves_of(p.sq, mover(p), 32), m);
        if m.0 < 32 && reaches(p.sq, m.0 as int, m.1 as int, mover(p)) {
            let k = choose|k: int|
                0 <= k < 4 && #[trigger] reaches_by(p.sq, m.0 as int, k, m.1 as int, mover(p));
            lemma_targets(p.sq, role_of(p.sq[m.0 as int] as int), m.0 as int, k, mover(p));
        }
    }
}

/// A legal move that is not a flip changes squares.
pub proof fn lemma_step_moves(p: Pos, m: (u8, u8))
    requires
        is_step(p, m),
    ensures
        m.0 != m.1,
        p.sq[m.1 as int] == EMPTY || holds_other(p.sq, m.1 as int, mover(p)),
{
    let k = choose|k: int|
        0 <= k < 4 && #[trigger] reaches_by(p.sq, m.0 as int, k, m.1 as int, mover(p));
    lemma_targets(p.sq, role_of(p.sq[m.0 as int] as int), m.0 as int, k, mover(p));
}

/// A move with `from == to` is legal exactly on a face-down tile, and any other legal move
/// takes a piece of the player to move onto an empty square or onto a piece of the other
/// color.
pub proof fn law_moves_and_flips(p: Pos, m: (u8, u8))
    requires
        legal(p, m),
    ensures
        m.0 == m.1 <==> is_flip(p, m),
        m.0 != m.1 ==> holds(p.sq, m.0 as int, mover(p)) && (p.sq[m.1 as int] == EMPTY
            || holds_other(p.sq, m.1 as int, mover(p))),
{
    if is_step(p, m) {
        lemma_step_moves(p, m);
    }
}

/// While the colors are unbound the legal moves are exactly the flips.
pub proof fn law_unbound_only_flips(p: Pos, m: (u8, u8))
    requires
        p.first_color < 0,
    ensures
        all_moves(p).contains(m) <==> is_flip(p, m),
{
    law_all_moves_are_the_legal_moves(p, m);
}

// ---------------------------------------------------------------- no move twice

proof fn lemma_add_distinct<T>(s: Seq<T>, t: Seq<T>)
    requires
        s.no_duplicates(),
        t.no_duplicates(),
        forall|m: T| !(#[trigger] s.contains(m) && t.contains(m)),
    ensures
        (s + t).no_duplicates(),
{
    let u = s + t;
    assert forall|i: int, j: int| 0 <= i < u.len() && 0 <= j < u.len() && i != j implies u[i]
        != u[j] by {
        if i < s.len() && j >= s.len() {
            assert(s.contains(s[i]));
            assert(t.contains(t[j - s.len()]));
        } else if j < s.len() && i >= s.len() {
            assert(s.contains(s[j]));
            assert(t.contains(t[i - s.len()]));
        }
    }
}

/// What a piece reaches in one direction it does not reach in another.
proof fn lemma_directions_differ(sq: Seq<i16>, i: int, color: int, j: int, k: int, t: int)
    requires
        0 <= i < 32,
        0 <= j < 4,
        0 <= k < 4,
        j != k,
    ensures
        !(step(i, j) == Some(t) && step(i, k) == Some(t)),
        !(cannon_jump(sq, i, j, color) == Some(t) && cannon_jump(sq, i, k, color) == Some(t)),
{
    lemma_ray(sq, file_of(i) + dir_file(j), rank_of(i) + dir_rank(j), j);
    lemma_ray(sq, file_of(i) + dir_file(k), rank_of(i) + dir_rank(k), k);
    if let Some(s) = beyond(sq, i, j) {
        lemma_ray(sq, file_of(s) + dir_file(j), rank_of(s) + dir_rank(j), j);
    }
    if let Some(s) = beyond(sq, i, k) {
        lemma_ray(sq, file_of(s) + dir_file(k), rank_of(s) + dir_rank(k), k);
    }
}

proof fn lemma_walks_distinct(sq: Seq<i16>, role: int, i: int, n: int, color: int)
    requires
        0 <= i < 32,
        0 <= n <= 4,
    ensures
        walks(sq, role, i, n, color).no_duplicates(),
        cannon_steps(sq, i, n).no_duplicates(),
        cannon_jumps(sq, i, n, color).no_duplicates(),
    decreases n,
{
    if n > 0 {
        lemma_walks_distinct(sq, role, i, n - 1, color);
        lemma_targets(sq, role, i, n - 1, color);
        let w = walks(sq, role, i, n - 1, color);
        let a = cannon_steps(sq, i, n - 1);
        let b = cannon_jumps(sq, i, n - 1, color);
        let ow = walk(sq, role, i, n - 1, color);
        let oa = cannon_step(sq, i, n - 1);
        let ob = cannon_jump(sq, i, n - 1, color);
        assert forall|m: (u8, u8)| !(#[trigger] w.contains(m) && emit(i, ow).contains(m)) by {
            lemma_walks(sq, role, i, n - 1, color, m);
            lemma_emit(i, ow, m);
            if w.contains(m) {
                let k = choose|k: int|
                    0 <= k < n - 1 && #[trigger] walk(sq, role, i, k, color) == Some(m.1 as int);
                lemma_directions_differ(sq, i, color, k, n - 1, m.1 as int);
            }
        }
        lemma_add_distinct(w, emit(i, ow));
        assert forall|m: (u8, u8)| !(#[trigger] a.contains(m) && emit(i, oa).contains(m)) by {
            lemma_cannon_steps(sq, i, n - 1, m);
            lemma_emit(i, oa, m);
            if a.contains(m) {
                let k = choose|k: int|
                    0 <= k < n - 1 && #[trigger] cannon_step(sq, i, k) == Some(m.1 as int);
                lemma_directions_differ(sq, i, color, k, n - 1, m.1 as int);
            }
        }
        lemma_add_distinct(a, emit(i, oa));
        assert forall|m: (u8, u8)| !(#[trigger] b.contains(m) && emit(i, ob).contains(m)) by {
            lemma_cannon_jumps(sq, i, n - 1, color, m);
            lemma_emit(i, ob, m);
            if b.contains(m) {
                let k = choose|k: int|
                    0 <= k < n - 1 && #[trigger] cannon_jump(sq, i, k, color) == Some(m.1 as int);
                lemma_directions_differ(sq, i, color, k, n - 1, m.1 as int);
            }
        }
        lemma_add_distinct(b, emit(i, ob));
    }
}

proof fn lemma_moves_from_distinct(sq: Seq<i16>, i: int, color: int)
    requires
        0 <= i < 32,
    ensures
        moves_from(sq, i, color).no_duplicates(),
{
    let role = role_of(sq[i] as int);
    lemma_walks_distinct(sq, role, i, 4, color);
    let a = cannon_steps(sq, i, 4);
    let b = cannon_jumps(sq, i, 4, color);
    assert forall|m: (u8, u8)| !(#[trigger] a.contains(m) && b.contains(m)) by {
        lemma_cannon_steps(sq, i, 4, m);
        lemma_cannon_jumps(sq, i, 4, color, m);
        if a.contains(m) && b.contains(m) {
            let j = choose|k: int| 0 <= k < 4 && #[trigger] cannon_step(sq, i, k) == Some(
                m.1 as int,
            );
            let k = choose|k: int| 0 <= k < 4 && #[trigger] cannon_jump(sq, i, k, color) == Some(
                m.1 as int,
            );
            assert(sq[m.1 as int] == EMPTY);
            assert(sq[m.1 as int] >= 0);
        }
    }
    lemma_add_distinct(a, b);
}

proof fn lemma_moves_of_distinct(sq: Seq<i16>, color: int, n: int)
    requires
        0 <= n <= 32,
    ensures
        moves_of(sq, color, n).no_duplicates(),
    decreases n,
{
    if n > 0 {
        lemma_moves_of_distinct(sq, color, n - 1);
        lemma_moves_from_distinct(sq, n - 1, color);
        let s = moves_of(sq, color, n - 1);
        let t = moves_from(sq, n - 1, color);
        assert forall|m: (u8, u8)| !(#[trigger] s.contains(m) && t.contains(m)) by {
            lemma_moves_of(sq, color, n - 1, m);
            lemma_moves_from(sq, n - 1, color, m);
        }
        lemma_add_distinct(s, t);
    }
}

proof fn lemma_flips_distinct(sq: Seq<i16>, n: int)
    requires
        0 <= n <= 32,
    ensures
        flips(sq, n).no_duplicates(),
    decreases n,
{
    if n > 0 {
        lemma_flips_distinct(sq, n - 1);
        let s = flips(sq, n - 1);
        let x = ((n - 1) as u8, (n - 1) as u8);
        lemma_flips(sq, n - 1, x);
        assert forall|i: int| 0 <= i < s.len() implies #[trigger] s[i] != x by {
            assert(s.contains(s[i]));
        }
    }
}

/// No move is listed twice.
pub proof fn law_moves_are_distinct(p: Pos)
    ensures
        all_moves(p).no_duplicates(),
{
    lemma_flips_distinct(p.sq, 32);
    if mover(p) >= 0 {
        lemma_moves_of_distinct(p.sq, mover(p), 32);
        let s = flips(p.sq, 32);
        let t = moves_of(p.sq, mover(p), 32);
        assert forall|m: (u8, u8)| !(#[trigger] s.contains(m) && t.contains(m)) by {
            lemma_flips(p.sq, 32, m);
            lemma_moves_of(p.sq, mover(p), 32, m);
            if s.contains(m) && t.contains(m) {
                assert(p.sq[m.0 as int] >= 0);
            }
        }
        lemma_add_distinct(s, t);
    }
}

// ---------------------------------------------------------------- what a move changes

/// `m` can be played: it is legal, and a flip turns up a piece that the bag still counts.
pub open spec fn playable(p: Pos, m: (u8, u8), revealed: int) -> bool {
    &&& legal(p, m)
    &&& m.0 == m.1 ==> 0 <= revealed < 14 && p.bag[revealed] > 0
}

/// Playing a move keeps a position well formed.
pub proof fn law_play_keeps_form(p: Pos, m: (u8, u8), revealed: int)
    requires
        wf(p),
        playable(p, m, revealed),
    ensures
        wf(after(p, m, revealed)),
{
    let q = after(p, m, revealed);
    assert forall|i: int| 0 <= i < 32 implies -2 <= #[trigger] q.sq[i] < 14 by {
        assert(-2 <= p.sq[i] < 14);
        assert(-2 <= p.sq[m.0 as int] < 14);
    }
}

/// Once the colors are bound, every move passes the turn.
pub proof fn law_turn_passes(p: Pos, m: (u8, u8), revealed: int)
    requires
        0 <= p.first_color <= 1,
    ensures
        mover(after(p, m, revealed)) == 1 - mover(p),
{
}

/// The first flip binds the colors. On an even ply the player who flips takes the color that
/// turns up, and the other color moves next.
pub proof fn law_first_flip_binds(p: Pos, m: (u8, u8), revealed: int)
    requires
        p.first_color < 0,
        m.0 == m.1,
        p.ply % 2 == 0,
        0 <= revealed < 14,
    ensures
        after(p, m, revealed).first_color == color_of(revealed),
        mover(after(p, m, revealed)) == 1 - color_of(revealed),
{
}

pub proof fn lemma_count_update(sq: Seq<i16>, i: int, v: i16, c: int, n: int)
    requires
        0 <= i < sq.len(),
        n <= sq.len(),
    ensures
        count_of(sq.update(i, v), c, n) == count_of(sq, c, n) + (if i < n && v == c {
            1int
        } else {
            0
        }) - (if i < n && sq[i] == c {
            1int
        } else {
            0
        }),
    decreases n,
{
    if n > 0 {
        lemma_count_update(sq, i, v, c, n - 1);
    }
}

pub proof fn lemma_tiles_update(bag: Seq<u32>, i: int, v: u32, from: int, n: int)
    requires
        0 <= i < bag.len(),
        0 <= from,
        from + n <= bag.len(),
    ensures
        tiles(bag.update(i, v), from, n) == tiles(bag, from, n) + (if from <= i < from + n {
            v - bag[i]
        } else {
            0
        }),
    decreases n,
{
    if n > 0 {
        lemma_tiles_update(bag, i, v, from, n - 1);
    }
}

/// A flip moves a piece from the bag to the board: no piece joins or leaves the game.
pub proof fn law_flip_keeps_pieces(p: Pos, m: (u8, u8), revealed: int, code: int)
    requires
        wf(p),
        playable(p, m, revealed),
        m.0 == m.1,
        0 <= code < 14,
    ensures
        alive(after(p, m, revealed), code) == alive(p, code),
{
    law_moves_and_flips(p, m);
    lemma_count_update(p.sq, m.0 as int, revealed as i16, code, 32);
}

/// A move that is not a flip removes the piece that it takes from the game, and no other.
pub proof fn law_step_removes_what_it_takes(p: Pos, m: (u8, u8), code: int)
    requires
        wf(p),
        legal(p, m),
        m.0 != m.1,
        0 <= code < 14,
    ensures
        alive(after(p, m, 0), code) == alive(p, code) - if p.sq[m.1 as int] == code {
            1int
        } else {
            0
        },
{
    let s1 = p.sq.update(m.1 as int, p.sq[m.0 as int]);
    lemma_count_update(p.sq, m.1 as int, p.sq[m.0 as int], code, 32);
    lemma_count_update(s1, m.0 as int, EMPTY, code, 32);
}

/// The face-down tiles and the bag shrink together: a flip takes one of each, another move
/// none of either.
pub proof fn law_bag_follows_tiles(p: Pos, m: (u8, u8), revealed: int)
    requires
        wf(p),
        playable(p, m, revealed),
    ensures
        bag_total(after(p, m, revealed).bag) - count_of(
            after(p, m, revealed).sq,
            DOWN as int,
            32,
        ) == bag_total(p.bag) - count_of(p.sq, DOWN as int, 32),
        m.0 == m.1 ==> bag_total(after(p, m, revealed).bag) == bag_total(p.bag) - 1,
        m.0 != m.1 ==> bag_total(after(p, m, revealed).bag) == bag_total(p.bag),
{
    law_moves_and_flips(p, m);
    if m.0 == m.1 {
        lemma_count_update(p.sq, m.0 as int, revealed as i16, DOWN as int, 32);
        lemma_tiles_update(p.bag, revealed, (p.bag[revealed] - 1) as u32, 0, 14);
    } else {
        let s1 = p.sq.update(m.1 as int, p.sq[m.0 as int]);
        lemma_count_update(p.sq, m.1 as int, p.sq[m.0 as int], DOWN as int, 32);
        lemma_count_update(s1, m.0 as int, EMPTY, DOWN as int, 32);
    }
}

/// What playing a move keeps, taken together: the bag goes on accounting for the face-down tiles,
/// no piece joins or leaves the game but the one that is taken, and the turn passes.
pub proof fn law_play_conserves(p: Pos, m: (u8, u8), revealed: int)
    requires
        wf(p),
        playable(p, m, revealed),
        bag_total(p.bag) == count_of(p.sq, DOWN as int, 32),
    ensures
        ({
            let q = after(p, m, revealed);
            &&& wf(q)
            &&& bag_total(q.bag) == count_of(q.sq, DOWN as int, 32)
            &&& forall|code: int|
                0 <= code < 14 ==> #[trigger] alive(q, code) == alive(p, code) - if m.0 != m.1
                    && p.sq[m.1 as int] == code {
                    1int
                } else {
                    0
                }
            &&& p.first_color >= 0 ==> mover(q) == 1 - mover(p)
        }),
{
    let q = after(p, m, revealed);
    law_play_keeps_form(p, m, revealed);
    law_bag_follows_tiles(p, m, revealed);
    assert forall|code: int| 0 <= code < 14 implies #[trigger] alive(q, code) == alive(p, code)
        - if m.0 != m.1 && p.sq[m.1 as int] == code {
        1int
    } else {
        0
    } by {
        if m.0 == m.1 {
            law_flip_keeps_pieces(p, m, revealed, code);
        } else {
            law_step_removes_what_it_takes(p, m, code);
            assert(after(p, m, 0) == q);
        }
    }
}

/// A capture or a flip resets the clock; any other move advances it by one.
pub proof fn law_clock(p: Pos, m: (u8, u8), revealed: int)
    requires
        wf(p),
        legal(p, m),
    ensures
        m.0 == m.1 || p.sq[m.1 as int] >= 0 ==> after(p, m, revealed).no_progress == 0,
        m.0 != m.1 && p.sq[m.1 as int] < 0 ==> after(p, m, revealed).no_progress == p.no_progress
            + 1,
{
}

// ---------------------------------------------------------------- the end of the game

/// The clock takes precedence over everything else.
pub proof fn law_clock_draws_first(p: Pos)
    ensures
        p.no_progress >= CLOCK_LIMIT ==> outcome(p) == RES_DRAW,
{
}

/// A player without a legal move has lost.
pub proof fn law_no_move_loses(p: Pos)
    requires
        p.no_progress < CLOCK_LIMIT,
        0 <= mover(p) <= 1,
        all_moves(p).len() == 0,
    ensures
        outcome(p) == win_for(1 - mover(p)),
{
}

/// A color without a piece on the board and without a tile in the bag, where the bag accounts
/// for the face-down tiles, has lost at once, whoever is to move; unless the opponent is to
/// move and cannot, which is decided first.
pub proof fn law_eliminated_loses(p: Pos, color: int)
    requires
        wf(p),
        p.no_progress < CLOCK_LIMIT,
        p.first_color >= 0,
        0 <= color <= 1,
        bag_total(p.bag) == count_of(p.sq, DOWN as int, 32),
        forall|i: int| 0 <= i < 32 ==> !#[trigger] holds(p.sq, i, color),
        tiles(p.bag, color * 7, 7) == 0,
        mover(p) == color || all_moves(p).len() > 0,
    ensures
        outcome(p) == win_for(1 - color),
{
    assert(eliminated(p, color));
    if eliminated(p, 1 - color) {
        lemma_nothing_left(p);
    }
}

/// Where both colors are eliminated there is no move.
proof fn lemma_nothing_left(p: Pos)
    requires
        wf(p),
        p.first_color >= 0,
        bag_total(p.bag) == count_of(p.sq, DOWN as int, 32),
        eliminated(p, 0),
        eliminated(p, 1),
    ensures
        all_moves(p).len() == 0,
{
    if all_moves(p).len() > 0 {
        let m = all_moves(p)[0];
        assert(all_moves(p).contains(m));
        law_all_moves_are_the_legal_moves(p, m);
        if is_step(p, m) {
            assert(holds(p.sq, m.0 as int, mover(p)));
        } else {
            lemma_count_positive(p.sq, DOWN as int, m.0 as int, 32);
            lemma_bag_by_color(p.bag);
        }
    }
}

proof fn lemma_bag_by_color(bag: Seq<u32>)
    ensures
        bag_total(bag) == tiles(bag, 0, 7) + tiles(bag, 7, 7),
{
    reveal_with_fuel(tiles, 15);
}

proof fn lemma_count_positive(sq: Seq<i16>, c: int, i: int, n: int)
    requires
        0 <= i < n,
        sq[i] == c,
    ensures
        count_of(sq, c, n) > 0,
    decreases n,
{
    if i < n - 1 {
        lemma_count_positive(sq, c, i, n - 1);
    }
}

/// A color that is eliminated stays so, whatever is played: it can never hold a piece again.
pub proof fn law_eliminated_stays(p: Pos, m: (u8, u8), revealed: int, color: int)
    requires
        wf(p),
        playable(p, m, revealed),
        0 <= color <= 1,
        eliminated(p, color),
    ensures
        eliminated(after(p, m, revealed), color),
{
    let q = after(p, m, revealed);
    law_moves_and_flips(p, m);
    law_bag_follows_tiles(p, m, revealed);
    if m.0 == m.1 {
        lemma_count_positive(p.sq, DOWN as int, m.0 as int, 32);
        lemma_no_count(p.bag, color * 7, 7);
        if color_of(revealed) == color {
            assert(p.bag[color * 7 + (revealed - color * 7)] == 0);
        }
        lemma_tiles_update(p.bag, revealed, (p.bag[revealed] - 1) as u32, color * 7, 7);
    } else {
        assert(q.bag == p.bag);
        let s1 = p.sq.update(m.1 as int, p.sq[m.0 as int]);
        lemma_count_update(p.sq, m.1 as int, p.sq[m.0 as int], DOWN as int, 32);
        lemma_count_update(s1, m.0 as int, EMPTY, DOWN as int, 32);
    }
    assert forall|i: int| 0 <= i < 32 implies !#[trigger] holds(q.sq, i, color) by {
        assert(!holds(p.sq, i, color));
        assert(!holds(p.sq, m.0 as int, color));
    }
}

proof fn lemma_no_count(bag: Seq<u32>, from: int, n: int)
    requires
        tiles(bag, from, n) == 0,
    ensures
        forall|k: int| 0 <= k < n ==> #[trigger] bag[from + k] == 0,
    decreases n,
{
    if n > 0 {
        lemma_no_count(bag, from, n - 1);
    }
}

} // verus!
