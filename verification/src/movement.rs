//! The rules of movement in plain words: which squares are neighbours, who takes whom, what a
//! cannon jumps over, in what order moves are listed, and how a game ends.
//!
//! The statements here speak of squares by number, of codes by color and role, and of the result
//! of the game by its number: 0 red has won, 1 black has won, 2 a draw, 3 the game goes on.
use vstd::prelude::*;

use crate::board::{
    after, all_moves, bag_total, beyond, cannon_jump, cannon_jumps, cannon_step, cannon_steps,
    captures, color_of, count_of, dir_file, dir_rank, eliminated, emit, file_of, flips, holds,
    holds_other, index_of, mover, moves_from, moves_of, on_board, outcome, position, rank_of, ray,
    role_of, room, step, tiles, walk, walks, wf, Pos, EMPTY,
};
use crate::rules::{
    law_all_moves_are_the_legal_moves, lemma_ray, lemma_targets, reaches, reaches_by,
};

verus! {

// ---------------------------------------------------------------- pieces

/// A piece code is made of a color and a role.
pub proof fn law_codes(c: int)
    requires
        0 <= c < 14,
    ensures
        c == color_of(c) * 7 + role_of(c),
        0 <= role_of(c) < 7,
        color_of(c) == 0 <==> c < 7,
        color_of(c) == 0 || color_of(c) == 1,
{
}

/// Who takes whom: general, advisor, elephant, chariot, horse, cannon and soldier, in this order,
/// each take their equals and those after them, but the general does not take the soldier, and
/// the soldier takes the general. So a soldier takes exactly soldiers and the general.
pub proof fn law_who_takes_whom(a: int, t: int)
    requires
        0 <= a < 7,
        0 <= t < 7,
    ensures
        captures(a, t) <==> (a == 6 && t == 0) || (a <= t && !(a == 0 && t == 6)),
        a == 6 ==> (captures(a, t) <==> t == 0 || t == 6),
        t == 0 ==> (captures(a, t) <==> a == 0 || a == 6),
{
}

// ---------------------------------------------------------------- squares

/// `t` is the square before or after `i` in its rank, or the square above or below.
pub open spec fn next_to(i: int, t: int) -> bool {
    0 <= t < 32 && ((t / 8 == i / 8 && (t == i + 1 || t == i - 1)) || t == i + 8 || t == i - 8)
}

/// The four directions: along the rank, back along the rank, up, down.
pub proof fn law_directions(i: int)
    requires
        0 <= i < 32,
    ensures
        step(i, 0) == if i % 8 == 7 {
            None::<int>
        } else {
            Some(i + 1)
        },
        step(i, 1) == if i % 8 == 0 {
            None::<int>
        } else {
            Some(i - 1)
        },
        step(i, 2) == if i >= 24 {
            None::<int>
        } else {
            Some(i + 8)
        },
        step(i, 3) == if i < 8 {
            None::<int>
        } else {
            Some(i - 8)
        },
{
}

/// What one step leads to are the neighbours.
pub proof fn law_steps_lead_to_neighbours(i: int, t: int)
    requires
        0 <= i < 32,
    ensures
        (exists|k: int| 0 <= k < 4 && #[trigger] step(i, k) == Some(t)) <==> next_to(i, t),
{
    law_directions(i);
    if next_to(i, t) {
        if t == i + 1 && t / 8 == i / 8 {
            assert(step(i, 0) == Some(t));
        } else if t == i - 1 && t / 8 == i / 8 {
            assert(step(i, 1) == Some(t));
        } else if t == i + 8 {
            assert(step(i, 2) == Some(t));
        } else {
            assert(step(i, 3) == Some(t));
        }
    }
    if exists|k: int| 0 <= k < 4 && #[trigger] step(i, k) == Some(t) {
        let k = choose|k: int| 0 <= k < 4 && #[trigger] step(i, k) == Some(t);
        assert(k == 0 || k == 1 || k == 2 || k == 3);
    }
}

/// `s` lies strictly between `i` and `t` on a rank or a file.
pub open spec fn between(i: int, s: int, t: int) -> bool {
    &&& (i / 8 == s / 8 && s / 8 == t / 8) || (i % 8 == s % 8 && s % 8 == t % 8)
    &&& (i < s && s < t) || (t < s && s < i)
}

/// Exactly one of the squares between `i` and `t` is not empty.
pub open spec fn one_screen(sq: Seq<i16>, i: int, t: int) -> bool {
    exists|s: int| #[trigger]
        between(i, s, t) && sq[s] != -1 && forall|o: int| #[trigger]
            between(i, o, t) && o != s ==> sq[o] == -1
}

// ---------------------------------------------------------------- lines

/// The square `n` steps from `(f, r)` in direction `k`.
spec fn along(f: int, r: int, k: int, n: int) -> int {
    index_of(f + n * dir_file(k), r + n * dir_rank(k))
}

spec fn along_board(f: int, r: int, k: int, n: int) -> bool {
    on_board(f + n * dir_file(k), r + n * dir_rank(k))
}

/// The line from `(f, r)` first meets something after `n` steps.
spec fn meets(sq: Seq<i16>, f: int, r: int, k: int, n: int) -> bool {
    &&& 0 <= n
    &&& along_board(f, r, k, n)
    &&& sq[along(f, r, k, n)] != -1
    &&& forall|j: int| 0 <= j < n ==> sq[#[trigger] along(f, r, k, j)] == -1
}

proof fn lemma_dirs(k: int, n: int)
    requires
        0 <= k < 4,
    ensures
        n * dir_file(k) == if k == 0 {
            n
        } else if k == 1 {
            -n
        } else {
            0
        },
        n * dir_rank(k) == if k == 2 {
            n
        } else if k == 3 {
            -n
        } else {
            0
        },
{
    let x = dir_file(k);
    let y = dir_rank(k);
    assert(x == 1 ==> n * x == n) by (nonlinear_arith);
    assert(x == -1 ==> n * x == -n) by (nonlinear_arith);
    assert(x == 0 ==> n * x == 0) by (nonlinear_arith);
    assert(y == 1 ==> n * y == n) by (nonlinear_arith);
    assert(y == -1 ==> n * y == -n) by (nonlinear_arith);
    assert(y == 0 ==> n * y == 0) by (nonlinear_arith);
}

proof fn lemma_along_shift(f: int, r: int, k: int, n: int)
    requires
        0 <= k < 4,
    ensures
        along(f + dir_file(k), r + dir_rank(k), k, n) == along(f, r, k, n + 1),
        along_board(f + dir_file(k), r + dir_rank(k), k, n) == along_board(f, r, k, n + 1),
{
    assert((n + 1) * dir_file(k) == n * dir_file(k) + dir_file(k)) by (nonlinear_arith);
    assert((n + 1) * dir_rank(k) == n * dir_rank(k) + dir_rank(k)) by (nonlinear_arith);
}

/// A line that starts on the board and is on it after `n` steps was on it all the way.
proof fn lemma_along_convex(f: int, r: int, k: int, n: int, j: int)
    requires
        0 <= k < 4,
        0 <= j <= n,
        on_board(f, r),
        along_board(f, r, k, n),
    ensures
        along_board(f, r, k, j),
{
    lemma_dirs(k, n);
    lemma_dirs(k, j);
}

proof fn lemma_ray_meets(sq: Seq<i16>, f: int, r: int, k: int)
    requires
        0 <= k < 4,
    ensures
        ray(sq, f, r, k) matches Some(t) ==> exists|n: int|
            #[trigger] meets(sq, f, r, k, n) && t == along(f, r, k, n) && on_board(f, r),
    decreases room(f, r, k),
{
    if on_board(f, r) {
        if sq[index_of(f, r)] != EMPTY {
            assert(meets(sq, f, r, k, 0));
        } else {
            let f1 = f + dir_file(k);
            let r1 = r + dir_rank(k);
            lemma_ray_meets(sq, f1, r1, k);
            if let Some(t) = ray(sq, f1, r1, k) {
                let n = choose|n: int| #[trigger]
                    meets(sq, f1, r1, k, n) && t == along(f1, r1, k, n) && on_board(f1, r1);
                lemma_along_shift(f, r, k, n);
                assert forall|j: int| 0 <= j < n + 1 implies sq[#[trigger] along(f, r, k, j)]
                    == -1 by {
                    if j > 0 {
                        lemma_along_shift(f, r, k, j - 1);
                        assert(sq[along(f1, r1, k, j - 1)] == -1);
                    }
                }
                assert(meets(sq, f, r, k, n + 1));
            }
        }
    }
}

proof fn lemma_meets_ray(sq: Seq<i16>, f: int, r: int, k: int, n: int)
    requires
        0 <= k < 4,
        on_board(f, r),
        meets(sq, f, r, k, n),
    ensures
        ray(sq, f, r, k) == Some(along(f, r, k, n)),
    decreases n,
{
    assert(along(f, r, k, 0) == index_of(f, r));
    if n > 0 {
        let f1 = f + dir_file(k);
        let r1 = r + dir_rank(k);
        assert(sq[along(f, r, k, 0)] == -1);
        lemma_along_convex(f, r, k, n, 1);
        lemma_along_shift(f, r, k, n - 1);
        lemma_along_shift(f, r, k, 0);
        assert forall|j: int| 0 <= j < n - 1 implies sq[#[trigger] along(f1, r1, k, j)] == -1 by {
            lemma_along_shift(f, r, k, j);
            assert(sq[along(f, r, k, j + 1)] == -1);
        }
        assert(meets(sq, f1, r1, k, n - 1));
        lemma_meets_ray(sq, f1, r1, k, n - 1);
    }
}

/// The square `n` steps from square `i`.
spec fn away(i: int, k: int, n: int) -> int {
    along(file_of(i), rank_of(i), k, n)
}

spec fn away_board(i: int, k: int, n: int) -> bool {
    along_board(file_of(i), rank_of(i), k, n)
}

proof fn lemma_away(i: int, k: int, n: int)
    requires
        0 <= i < 32,
        0 <= k < 4,
        away_board(i, k, n),
    ensures
        0 <= away(i, k, n) < 32,
        file_of(away(i, k, n)) == file_of(i) + n * dir_file(k),
        rank_of(away(i, k, n)) == rank_of(i) + n * dir_rank(k),
        k == 0 ==> away(i, k, n) == i + n,
        k == 1 ==> away(i, k, n) == i - n,
        k == 2 ==> away(i, k, n) == i + 8 * n,
        k == 3 ==> away(i, k, n) == i - 8 * n,
{
    lemma_dirs(k, n);
}

/// What lies beyond a square is the first thing on the line.
proof fn lemma_beyond(sq: Seq<i16>, i: int, k: int, n: int)
    requires
        0 <= i < 32,
        0 <= k < 4,
        n >= 1,
        away_board(i, k, n),
    ensures
        beyond(sq, i, k) == Some(away(i, k, n)) <==> sq[away(i, k, n)] != -1 && forall|j: int|
            1 <= j < n ==> sq[#[trigger] away(i, k, j)] == -1,
{
    let f = file_of(i);
    let r = rank_of(i);
    let f1 = f + dir_file(k);
    let r1 = r + dir_rank(k);
    lemma_along_convex(f, r, k, n, 1);
    lemma_along_shift(f, r, k, n - 1);
    lemma_away(i, k, n);
    if sq[away(i, k, n)] != -1 && forall|j: int| 1 <= j < n ==> sq[#[trigger] away(i, k, j)]
        == -1 {
        assert forall|j: int| 0 <= j < n - 1 implies sq[#[trigger] along(f1, r1, k, j)] == -1 by {
            lemma_along_shift(f, r, k, j);
            assert(sq[away(i, k, j + 1)] == -1);
        }
        assert(meets(sq, f1, r1, k, n - 1));
        lemma_meets_ray(sq, f1, r1, k, n - 1);
    }
    if beyond(sq, i, k) == Some(away(i, k, n)) {
        lemma_ray_meets(sq, f1, r1, k);
        let t = away(i, k, n);
        let m = choose|m: int| #[trigger]
            meets(sq, f1, r1, k, m) && t == along(f1, r1, k, m) && on_board(f1, r1);
        lemma_along_shift(f, r, k, m);
        lemma_away(i, k, m + 1);
        assert(m == n - 1);
        assert forall|j: int| 1 <= j < n implies sq[#[trigger] away(i, k, j)] == -1 by {
            lemma_along_shift(f, r, k, j - 1);
            assert(sq[along(f1, r1, k, j - 1)] == -1);
        }
    }
}

proof fn lemma_away_again(i: int, k: int, a: int, b: int)
    requires
        0 <= i < 32,
        0 <= k < 4,
        away_board(i, k, a),
    ensures
        away(away(i, k, a), k, b) == away(i, k, a + b),
        away_board(away(i, k, a), k, b) == away_board(i, k, a + b),
{
    lemma_away(i, k, a);
    assert((a + b) * dir_file(k) == a * dir_file(k) + b * dir_file(k)) by (nonlinear_arith);
    assert((a + b) * dir_rank(k) == a * dir_rank(k) + b * dir_rank(k)) by (nonlinear_arith);
}

/// Beyond a square lies something at some distance.
proof fn lemma_beyond_somewhere(sq: Seq<i16>, i: int, k: int) -> (n: int)
    requires
        0 <= i < 32,
        0 <= k < 4,
        beyond(sq, i, k) is Some,
    ensures
        n >= 1,
        away_board(i, k, n),
        beyond(sq, i, k) == Some(away(i, k, n)),
{
    let f1 = file_of(i) + dir_file(k);
    let r1 = rank_of(i) + dir_rank(k);
    lemma_ray_meets(sq, f1, r1, k);
    let t = beyond(sq, i, k)->0;
    let m = choose|m: int| #[trigger]
        meets(sq, f1, r1, k, m) && t == along(f1, r1, k, m) && on_board(f1, r1);
    lemma_along_shift(file_of(i), rank_of(i), k, m);
    m + 1
}

/// A jump in direction `k` over exactly one thing.
proof fn lemma_jump(sq: Seq<i16>, i: int, k: int, color: int, d: int)
    requires
        0 <= i < 32,
        0 <= k < 4,
        d >= 1,
        away_board(i, k, d),
    ensures
        cannon_jump(sq, i, k, color) == Some(away(i, k, d)) <==> {
            &&& holds_other(sq, away(i, k, d), color)
            &&& exists|s: int|
                1 <= s < d && sq[#[trigger] away(i, k, s)] != -1 && forall|j: int|
                    1 <= j < d && j != s ==> sq[#[trigger] away(i, k, j)] == -1
        },
{
    let t = away(i, k, d);
    lemma_away(i, k, d);
    if cannon_jump(sq, i, k, color) == Some(t) {
        let a = lemma_beyond_somewhere(sq, i, k);
        let screen = away(i, k, a);
        lemma_away(i, k, a);
        let b = lemma_beyond_somewhere(sq, screen, k);
        lemma_away_again(i, k, a, b);
        lemma_away(i, k, a + b);
        assert(a + b == d);
        lemma_beyond(sq, i, k, a);
        lemma_beyond(sq, screen, k, b);
        assert(sq[away(i, k, a)] != -1);
        assert forall|j: int| 1 <= j < d && j != a implies sq[#[trigger] away(i, k, j)] == -1 by {
            if j > a {
                lemma_along_convex(file_of(i), rank_of(i), k, d, j);
                lemma_away_again(i, k, a, j - a);
                assert(sq[away(screen, k, j - a)] == -1);
            }
        }
    }
    if holds_other(sq, t, color) && exists|s: int|
        1 <= s < d && sq[#[trigger] away(i, k, s)] != -1 && forall|j: int|
            1 <= j < d && j != s ==> sq[#[trigger] away(i, k, j)] == -1 {
        let s = choose|s: int|
            1 <= s < d && sq[#[trigger] away(i, k, s)] != -1 && forall|j: int|
                1 <= j < d && j != s ==> sq[#[trigger] away(i, k, j)] == -1;
        lemma_along_convex(file_of(i), rank_of(i), k, d, s);
        lemma_beyond(sq, i, k, s);
        let screen = away(i, k, s);
        lemma_away(i, k, s);
        lemma_away_again(i, k, s, d - s);
        assert forall|j: int| 1 <= j < d - s implies sq[#[trigger] away(screen, k, j)] == -1 by {
            lemma_away_again(i, k, s, j);
            assert(sq[away(i, k, s + j)] == -1);
        }
        lemma_beyond(sq, screen, k, d - s);
    }
}

/// The direction of a square on the same rank or file.
pub open spec fn heading(i: int, t: int) -> int {
    if i / 8 == t / 8 {
        if t > i {
            0
        } else {
            1
        }
    } else if t > i {
        2
    } else {
        3
    }
}

spec fn distance(i: int, t: int) -> int {
    if i / 8 == t / 8 {
        if t > i {
            t - i
        } else {
            i - t
        }
    } else if t > i {
        t / 8 - i / 8
    } else {
        i / 8 - t / 8
    }
}

spec fn in_line(i: int, t: int) -> bool {
    i != t && (i / 8 == t / 8 || i % 8 == t % 8)
}

proof fn lemma_heading(i: int, t: int)
    requires
        0 <= i < 32,
        0 <= t < 32,
        in_line(i, t),
    ensures
        0 <= heading(i, t) < 4,
        distance(i, t) >= 1,
        away_board(i, heading(i, t), distance(i, t)),
        away(i, heading(i, t), distance(i, t)) == t,
        forall|j: int|
            1 <= j < distance(i, t) ==> between(i, #[trigger] away(i, heading(i, t), j), t),
{
    let k = heading(i, t);
    let d = distance(i, t);
    lemma_dirs(k, d);
    assert(away_board(i, k, d));
    lemma_away(i, k, d);
    assert forall|j: int| 1 <= j < d implies between(i, #[trigger] away(i, k, j), t) by {
        lemma_along_convex(file_of(i), rank_of(i), k, d, j);
        lemma_away(i, k, j);
    }
}

proof fn lemma_between(i: int, s: int, t: int) -> (j: int)
    requires
        0 <= i < 32,
        0 <= t < 32,
        between(i, s, t),
    ensures
        in_line(i, t),
        1 <= j < distance(i, t),
        away(i, heading(i, t), j) == s,
        0 <= s < 32,
{
    let j = distance(i, s);
    lemma_heading(i, s);
    j
}

proof fn lemma_away_in_line(i: int, k: int, d: int)
    requires
        0 <= i < 32,
        0 <= k < 4,
        d >= 1,
        away_board(i, k, d),
    ensures
        in_line(i, away(i, k, d)),
        heading(i, away(i, k, d)) == k,
        distance(i, away(i, k, d)) == d,
{
    lemma_away(i, k, d);
}

/// What a cannon takes: a piece of the other color in line with it, with exactly one thing, be it
/// a piece or a face-down tile, on the squares between.
pub proof fn law_cannons_jump_one_screen(sq: Seq<i16>, i: int, t: int, color: int)
    requires
        0 <= i < 32,
        0 <= t < 32,
    ensures
        (exists|k: int| 0 <= k < 4 && #[trigger] cannon_jump(sq, i, k, color) == Some(t)) <==> {
            &&& sq[t] >= 0
            &&& sq[t] as int / 7 != color
            &&& one_screen(sq, i, t)
        },
{
    if exists|k: int| 0 <= k < 4 && #[trigger] cannon_jump(sq, i, k, color) == Some(t) {
        let k = choose|k: int| 0 <= k < 4 && #[trigger] cannon_jump(sq, i, k, color) == Some(t);
        let a = lemma_beyond_somewhere(sq, i, k);
        lemma_away(i, k, a);
        let b = lemma_beyond_somewhere(sq, away(i, k, a), k);
        lemma_away_again(i, k, a, b);
        let d = a + b;
        lemma_jump(sq, i, k, color, d);
        lemma_away_in_line(i, k, d);
        lemma_heading(i, t);
        let s = choose|s: int|
            1 <= s < d && sq[#[trigger] away(i, k, s)] != -1 && forall|j: int|
                1 <= j < d && j != s ==> sq[#[trigger] away(i, k, j)] == -1;
        let screen = away(i, k, s);
        assert(between(i, screen, t));
        assert forall|o: int| #[trigger] between(i, o, t) && o != screen implies sq[o] == -1 by {
            let j = lemma_between(i, o, t);
            assert(sq[away(i, k, j)] == -1);
        }
    }
    if sq[t] >= 0 && sq[t] as int / 7 != color && one_screen(sq, i, t) {
        let s = choose|s: int| #[trigger]
            between(i, s, t) && sq[s] != -1 && forall|o: int| #[trigger]
                between(i, o, t) && o != s ==> sq[o] == -1;
        let j = lemma_between(i, s, t);
        let k = heading(i, t);
        let d = distance(i, t);
        lemma_heading(i, t);
        assert forall|x: int| 1 <= x < d && x != j implies sq[#[trigger] away(i, k, x)] == -1 by {
            assert(between(i, away(i, k, x), t));
            lemma_along_convex(file_of(i), rank_of(i), k, d, x);
            lemma_along_convex(file_of(i), rank_of(i), k, d, j);
            lemma_away(i, k, x);
            lemma_away(i, k, j);
        }
        assert(sq[away(i, k, j)] != -1);
        lemma_jump(sq, i, k, color, d);
        assert(cannon_jump(sq, i, k, color) == Some(t));
    }
}

// ---------------------------------------------------------------- legal moves

/// Which moves there are, said of the squares alone. A flip is of a face-down tile. Any other
/// move takes a piece of the player to move: a cannon to an empty neighbour or over one screen
/// onto a piece of the other color, another piece to a neighbour that is empty or holds a piece of
/// the other color that it takes.
pub open spec fn may_move(p: Pos, m: (u8, u8)) -> bool {
    let i = m.0 as int;
    let t = m.1 as int;
    let a = p.sq[i] as int;
    let b = p.sq[t] as int;
    if i == t {
        i < 32 && a == -2
    } else {
        &&& i < 32
        &&& t < 32
        &&& mover(p) >= 0
        &&& a >= 0
        &&& a / 7 == mover(p)
        &&& if a % 7 == 5 {
            (next_to(i, t) && b == -1) || (b >= 0 && b / 7 != a / 7 && one_screen(p.sq, i, t))
        } else {
            next_to(i, t) && (b == -1 || (b >= 0 && b / 7 != a / 7 && ((a % 7 == 6 && b % 7 == 0)
                || (a % 7 <= b % 7 && !(a % 7 == 0 && b % 7 == 6)))))
        }
    }
}

/// The listed moves are exactly the moves there are.
pub proof fn law_moves_on_squares(p: Pos, m: (u8, u8))
    requires
        wf(p),
    ensures
        all_moves(p).contains(m) <==> may_move(p, m),
{
    law_all_moves_are_the_legal_moves(p, m);
    let i = m.0 as int;
    let t = m.1 as int;
    if i != t && i < 32 && t < 32 && mover(p) >= 0 && holds(p.sq, i, mover(p)) {
        let color = mover(p);
        let role = role_of(p.sq[i] as int);
        law_steps_lead_to_neighbours(i, t);
        law_cannons_jump_one_screen(p.sq, i, t, color);
        assert(-2 <= p.sq[i] < 14 && -2 <= p.sq[t] < 14);
        if p.sq[t] >= 0 {
            law_who_takes_whom(role, role_of(p.sq[t] as int));
        }
        if reaches(p.sq, i, t, color) {
            let k = choose|k: int| 0 <= k < 4 && #[trigger] reaches_by(p.sq, i, k, t, color);
            if role == 5 {
                assert(cannon_step(p.sq, i, k) == Some(t) || cannon_jump(p.sq, i, k, color) == Some(
                    t,
                ));
                if cannon_step(p.sq, i, k) == Some(t) {
                    assert(step(i, k) == Some(t));
                }
            } else {
                assert(walk(p.sq, role, i, k, color) == Some(t));
                assert(step(i, k) == Some(t));
            }
        }
        if may_move(p, m) {
            if role == 5 && !(next_to(i, t) && p.sq[t] == -1) {
                let k = choose|k: int|
                    0 <= k < 4 && #[trigger] cannon_jump(p.sq, i, k, color) == Some(t);
                assert(reaches_by(p.sq, i, k, t, color));
            } else {
                let k = choose|k: int| 0 <= k < 4 && #[trigger] step(i, k) == Some(t);
                assert(reaches_by(p.sq, i, k, t, color));
            }
        }
    }
    if i < 32 && reaches(p.sq, i, t, mover(p)) {
        let k = choose|k: int| 0 <= k < 4 && #[trigger] reaches_by(p.sq, i, k, t, mover(p));
        lemma_targets(p.sq, role_of(p.sq[i] as int), i, k, mover(p));
    }
}

// ---------------------------------------------------------------- the order of the list

/// The place of a move in the list: flips by square, then the other moves by the square they start
/// from; of one piece first the steps, then the jumps of a cannon, each by direction.
pub open spec fn list_number(p: Pos, m: (u8, u8)) -> int {
    if m.0 == m.1 {
        m.0 as int
    } else {
        32 + m.0 * 8 + heading(m.0 as int, m.1 as int) + if p.sq[m.0 as int] as int % 7 == 5
            && p.sq[m.1 as int] >= 0 {
            4int
        } else {
            0
        }
    }
}

/// The numbers ascend.
spec fn ascends(p: Pos, s: Seq<(u8, u8)>) -> bool {
    forall|a: int, b: int|
        0 <= a < b < s.len() ==> list_number(p, #[trigger] s[a]) < list_number(p, #[trigger] s[b])
}

/// The numbers lie from `lo` on, and below `hi`.
spec fn numbered(p: Pos, s: Seq<(u8, u8)>, lo: int, hi: int) -> bool {
    forall|a: int| 0 <= a < s.len() ==> lo <= list_number(p, #[trigger] s[a]) < hi
}

proof fn lemma_join(p: Pos, s: Seq<(u8, u8)>, t: Seq<(u8, u8)>, lo: int, mid: int, hi: int)
    requires
        ascends(p, s),
        ascends(p, t),
        numbered(p, s, lo, mid),
        numbered(p, t, mid, hi),
        lo <= mid <= hi,
    ensures
        ascends(p, s + t),
        numbered(p, s + t, lo, hi),
{
    let u = s + t;
    assert forall|a: int| 0 <= a < u.len() implies lo <= list_number(p, #[trigger] u[a]) < hi by {
        if a < s.len() {
            assert(u[a] == s[a]);
        } else {
            assert(u[a] == t[a - s.len()]);
        }
    }
    assert forall|a: int, b: int| 0 <= a < b < u.len() implies list_number(p, #[trigger] u[a])
        < list_number(p, #[trigger] u[b]) by {
        if b < s.len() {
            assert(u[a] == s[a] && u[b] == s[b]);
        } else if a >= s.len() {
            assert(u[a] == t[a - s.len()] && u[b] == t[b - s.len()]);
        } else {
            assert(u[a] == s[a] && u[b] == t[b - s.len()]);
        }
    }
}

proof fn lemma_step_heading(i: int, k: int)
    requires
        0 <= i < 32,
        0 <= k < 4,
    ensures
        step(i, k) matches Some(t) ==> heading(i, t) == k && 0 <= t < 32 && t != i,
{
    law_directions(i);
}

proof fn lemma_jump_heading(sq: Seq<i16>, i: int, k: int, color: int)
    requires
        0 <= i < 32,
        0 <= k < 4,
    ensures
        cannon_jump(sq, i, k, color) matches Some(t) ==> heading(i, t) == k && 0 <= t < 32 && t != i
            && sq[t] >= 0,
{
    lemma_ray(sq, file_of(i) + dir_file(k), rank_of(i) + dir_rank(k), k);
    if let Some(s) = beyond(sq, i, k) {
        lemma_ray(sq, file_of(s) + dir_file(k), rank_of(s) + dir_rank(k), k);
    }
}

proof fn lemma_walks_ascend(p: Pos, i: int, n: int, color: int)
    requires
        0 <= i < 32,
        0 <= n <= 4,
        p.sq[i] >= 0,
    ensures
        ({
            let role = p.sq[i] as int % 7;
            let lo = 32 + i * 8;
            &&& role != 5 ==> {
                &&& ascends(p, walks(p.sq, role, i, n, color))
                &&& numbered(p, walks(p.sq, role, i, n, color), lo, lo + n)
            }
            &&& role == 5 ==> {
                &&& ascends(p, cannon_steps(p.sq, i, n))
                &&& numbered(p, cannon_steps(p.sq, i, n), lo, lo + n)
                &&& ascends(p, cannon_jumps(p.sq, i, n, color))
                &&& numbered(p, cannon_jumps(p.sq, i, n, color), lo + 4, lo + 4 + n)
            }
        }),
    decreases n,
{
    let role = p.sq[i] as int % 7;
    let lo = 32 + i * 8;
    if n > 0 {
        let k = n - 1;
        lemma_walks_ascend(p, i, k, color);
        lemma_step_heading(i, k);
        lemma_jump_heading(p.sq, i, k, color);
        if role != 5 {
            let o = walk(p.sq, role, i, k, color);
            assert(numbered(p, emit(i, o), lo + k, lo + n));
            lemma_join(p, walks(p.sq, role, i, k, color), emit(i, o), lo, lo + k, lo + n);
        } else {
            let a = cannon_step(p.sq, i, k);
            let b = cannon_jump(p.sq, i, k, color);
            assert(numbered(p, emit(i, a), lo + k, lo + n));
            assert(numbered(p, emit(i, b), lo + 4 + k, lo + 4 + n));
            lemma_join(p, cannon_steps(p.sq, i, k), emit(i, a), lo, lo + k, lo + n);
            lemma_join(
                p,
                cannon_jumps(p.sq, i, k, color),
                emit(i, b),
                lo + 4,
                lo + 4 + k,
                lo + 4 + n,
            );
        }
    }
}

proof fn lemma_moves_of_ascend(p: Pos, color: int, n: int)
    requires
        0 <= n <= 32,
    ensures
        ascends(p, moves_of(p.sq, color, n)),
        numbered(p, moves_of(p.sq, color, n), 32, 32 + 8 * n),
    decreases n,
{
    if n > 0 {
        let i = n - 1;
        lemma_moves_of_ascend(p, color, i);
        if holds(p.sq, i, color) {
            lemma_walks_ascend(p, i, 4, color);
            let s = moves_from(p.sq, i, color);
            let lo = 32 + i * 8;
            if p.sq[i] as int % 7 == 5 {
                lemma_join(
                    p,
                    cannon_steps(p.sq, i, 4),
                    cannon_jumps(p.sq, i, 4, color),
                    lo,
                    lo + 4,
                    lo + 8,
                );
            }
            assert(numbered(p, s, lo, lo + 8));
            lemma_join(p, moves_of(p.sq, color, i), s, 32, lo, lo + 8);
        }
    }
}

proof fn lemma_flips_ascend(p: Pos, n: int)
    requires
        0 <= n <= 32,
    ensures
        ascends(p, flips(p.sq, n)),
        numbered(p, flips(p.sq, n), 0, n),
    decreases n,
{
    if n > 0 {
        lemma_flips_ascend(p, n - 1);
        let x = ((n - 1) as u8, (n - 1) as u8);
        let one = seq![x];
        assert(numbered(p, one, n - 1, n));
        lemma_join(p, flips(p.sq, n - 1), one, 0, n - 1, n);
        assert(flips(p.sq, n - 1).push(x) =~= flips(p.sq, n - 1) + one);
    }
}

/// Moves are listed in this order: the flips by square, then the moves of the pieces by square;
/// of one piece along the rank, back, up and down, and the jumps of a cannon after its steps.
pub proof fn law_list_order(p: Pos, a: int, b: int)
    requires
        0 <= a < b < all_moves(p).len(),
    ensures
        list_number(p, all_moves(p)[a]) < list_number(p, all_moves(p)[b]),
{
    lemma_flips_ascend(p, 32);
    if mover(p) >= 0 {
        lemma_moves_of_ascend(p, mover(p), 32);
        lemma_join(p, flips(p.sq, 32), moves_of(p.sq, mover(p), 32), 0, 32, 288);
    }
}

// ---------------------------------------------------------------- playing

/// A step or a capture moves one piece and touches nothing else.
pub proof fn law_step_on_squares(p: Pos, m: (u8, u8), revealed: int, i: int)
    requires
        p.sq.len() == 32,
        m.0 != m.1,
        m.0 < 32,
        m.1 < 32,
        0 <= i < 32,
    ensures
        ({
            let q = after(p, m, revealed);
            &&& q.sq.len() == 32
            &&& q.sq[i] == if i == m.1 {
                p.sq[m.0 as int]
            } else if i == m.0 {
                -1i16
            } else {
                p.sq[i]
            }
            &&& q.bag == p.bag
            &&& q.first_color == p.first_color
            &&& q.ply == p.ply + 1
            &&& q.no_progress == if p.sq[m.1 as int] >= 0 {
                0
            } else {
                p.no_progress + 1
            }
        }),
{
}

/// A flip turns one tile up, takes one piece out of the bag, and binds the colors if they were
/// not: the player who flips has the color that turns up.
pub proof fn law_flip_on_squares(p: Pos, s: u8, revealed: int, i: int, code: int)
    requires
        p.sq.len() == 32,
        p.bag.len() == 14,
        s < 32,
        0 <= revealed < 14,
        p.bag[revealed] > 0,
        0 <= i < 32,
        0 <= code < 14,
    ensures
        ({
            let q = after(p, (s, s), revealed);
            &&& q.sq[i] == if i == s {
                revealed
            } else {
                p.sq[i] as int
            }
            &&& q.bag[code] == if code == revealed {
                p.bag[code] - 1
            } else {
                p.bag[code] as int
            }
            &&& q.first_color == if p.first_color >= 0 {
                p.first_color
            } else if revealed < 7 {
                0
            } else {
                1
            }
            &&& q.ply == p.ply + 1
            &&& q.no_progress == 0
        }),
{
}

/// Whose turn it is: nobody's color while the colors are unbound, the first color on even plies,
/// the other on odd ones.
pub proof fn law_turns(p: Pos)
    ensures
        p.first_color < 0 ==> mover(p) == -1,
        p.first_color >= 0 && p.ply % 2 == 0 ==> mover(p) == p.first_color,
        p.first_color >= 0 && p.ply % 2 == 1 ==> mover(p) == 1 - p.first_color,
{
}

/// A position holds the given squares and counts, and is empty where none are given.
pub proof fn law_positions(
    squares: Seq<i16>,
    bag: Seq<u32>,
    first_color: int,
    ply: nat,
    no_progress: nat,
    i: int,
)
    ensures
        ({
            let p = position(squares, bag, first_color, ply, no_progress);
            &&& p.sq.len() == 32
            &&& p.bag.len() == 14
            &&& 0 <= i < 32 ==> p.sq[i] == if i < squares.len() {
                squares[i]
            } else {
                -1i16
            }
            &&& 0 <= i < 14 ==> p.bag[i] == if i < bag.len() {
                bag[i]
            } else {
                0u32
            }
            &&& p.first_color == first_color
            &&& p.ply == ply
            &&& p.no_progress == no_progress
        }),
{
}

// ---------------------------------------------------------------- counting

proof fn lemma_count_filter(sq: Seq<i16>, c: int, n: int)
    requires
        0 <= n <= sq.len(),
        -2 <= c < 14,
    ensures
        count_of(sq, c, n) == squares_with(sq.take(n), c),
    decreases n,
{
    reveal(Seq::filter);
    if n > 0 {
        lemma_count_filter(sq, c, n - 1);
        assert(sq.take(n).drop_last() =~= sq.take(n - 1));
    }
}

/// The number of squares that hold a code.
pub open spec fn squares_with(sq: Seq<i16>, c: int) -> nat {
    sq.filter(|x: i16| x == c).len()
}

/// Counting squares counts the squares that hold the code.
pub proof fn law_counting(sq: Seq<i16>, c: int)
    requires
        sq.len() == 32,
        -2 <= c < 14,
    ensures
        count_of(sq, c, 32) == squares_with(sq, c),
{
    lemma_count_filter(sq, c, 32);
    assert(sq.take(32) =~= sq);
}

/// The pieces in the bag, of one color and of both.
pub proof fn law_bag_sums(bag: Seq<u32>, color: int)
    requires
        0 <= color <= 1,
    ensures
        tiles(bag, color * 7, 7) == bag[color * 7] + bag[color * 7 + 1] + bag[color * 7 + 2]
            + bag[color * 7 + 3] + bag[color * 7 + 4] + bag[color * 7 + 5] + bag[color * 7 + 6],
        bag_total(bag) == bag[0] + bag[1] + bag[2] + bag[3] + bag[4] + bag[5] + bag[6] + bag[7]
            + bag[8] + bag[9] + bag[10] + bag[11] + bag[12] + bag[13],
{
    reveal_with_fuel(tiles, 15);
}

// ---------------------------------------------------------------- the end of the game

/// A color is gone: it has no piece on the board, and no tile can turn out to be one. Either
/// there is no face-down tile, or the bag accounts for all of them and holds none of the color.
pub open spec fn gone(p: Pos, color: int) -> bool {
    let down = squares_with(p.sq, -2);
    &&& forall|i: int| 0 <= i < 32 ==> !((#[trigger] p.sq[i]) >= 0 && p.sq[i] as int / 7 == color)
    &&& {
        ||| down == 0
        ||| {
            &&& bag_total(p.bag) >= down
            &&& forall|r: int| 0 <= r < 7 ==> #[trigger] p.bag[color * 7 + r] == 0
        }
    }
}

proof fn lemma_gone(p: Pos, color: int)
    requires
        wf(p),
        0 <= color <= 1,
    ensures
        gone(p, color) <==> eliminated(p, color),
{
    law_counting(p.sq, -2);
    law_bag_sums(p.bag, color);
    if gone(p, color) {
        assert forall|i: int| 0 <= i < 32 implies !#[trigger] holds(p.sq, i, color) by {
            assert(!(p.sq[i] >= 0 && p.sq[i] as int / 7 == color));
        }
        if squares_with(p.sq, -2) > 0 {
            assert(p.bag[color * 7 + 0] == 0 && p.bag[color * 7 + 1] == 0 && p.bag[color * 7 + 2]
                == 0 && p.bag[color * 7 + 3] == 0 && p.bag[color * 7 + 4] == 0 && p.bag[color * 7
                + 5] == 0 && p.bag[color * 7 + 6] == 0);
        }
    }
    if eliminated(p, color) {
        assert forall|i: int| 0 <= i < 32 implies !((#[trigger] p.sq[i]) >= 0 && p.sq[i] as int / 7
            == color) by {
            assert(!holds(p.sq, i, color));
        }
    }
}

/// How a game ends. Forty plies without a capture or a flip draw it. A player without a move has
/// lost, or drawn while the colors are unbound. A color that is gone has lost, the waiting one
/// first. Otherwise the game goes on.
pub proof fn law_how_games_end(p: Pos)
    requires
        wf(p),
    ensures
        ({
            let m = mover(p);
            if p.no_progress >= 40 {
                outcome(p) == 2
            } else if forall|x: (u8, u8)| !#[trigger] may_move(p, x) {
                outcome(p) == if m < 0 {
                    2
                } else {
                    1 - m
                }
            } else if m < 0 {
                outcome(p) == 3
            } else if gone(p, 1 - m) {
                outcome(p) == m
            } else if gone(p, m) {
                outcome(p) == 1 - m
            } else {
                outcome(p) == 3
            }
        }),
{
    let m = mover(p);
    if m >= 0 {
        lemma_gone(p, m);
        lemma_gone(p, 1 - m);
    }
    if all_moves(p).len() > 0 {
        let x = all_moves(p)[0];
        assert(all_moves(p).contains(x));
        law_moves_on_squares(p, x);
    } else {
        assert forall|x: (u8, u8)| !#[trigger] may_move(p, x) by {
            law_moves_on_squares(p, x);
        }
    }
}

} // verus!
