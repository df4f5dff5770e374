//! What the evaluation counts, and in whose favour.
//!
//! The terms are stated in numbers that are faithful to the real ones, as sums over the squares
//! and with their weights written out. Then: what is good for a player raises the evaluation, and
//! danger to the player's general lowers it.
use vstd::prelude::*;

use crate::arith::{faithful, rising, whole, Arith};
use crate::board::{
    alive, captures, color_of, count_of, lemma_few_moves_from, moves_from, moves_of, role_of, step,
    wf, Pos,
};
use crate::eval::{
    adjacent, at_most_four, base_value, beside, covered_material, danger_points, domination,
    domination_bonus, dominators, enemy_soldier, escapes, evaluation, find_code, general_danger,
    king_ctx_term, king_danger, king_term, material, material_terms, mobility_term, mobility_valued,
    near, soldier_weight, threat, touches, values_or_base, walls, weighed_moves, Feat,
};
use crate::expectimax::lemma_whole;
use crate::movement::{
    law_counting, law_directions, law_steps_lead_to_neighbours, law_who_takes_whom, next_to,
    squares_with,
};

verus! {

// ---------------------------------------------------------------- sums

/// The sum of `f` over the first `n` squares.
pub open spec fn sum_over(f: spec_fn(int) -> real, n: int) -> real
    decreases n,
{
    if n <= 0 {
        0real
    } else {
        sum_over(f, n - 1) + f(n - 1)
    }
}

/// `x` for a player's own piece, and `-x` for another.
pub open spec fn for_or_against(code: int, persp: int, x: real) -> real {
    if code / 7 == persp {
        x
    } else {
        -x
    }
}

// ---------------------------------------------------------------- switches and values

/// The bits of the switches, from the lowest.
pub proof fn law_switches(b: u32)
    ensures
        ({
            let f = Feat::of_bits(b);
            &&& f.ordering == (b % 2 == 1)
            &&& f.tt == (b / 2 % 2 == 1)
            &&& f.lmr == (b / 4 % 2 == 1)
            &&& f.rep == (b / 8 % 2 == 1)
            &&& f.cover_mat == (b / 16 % 2 == 1)
            &&& f.king_ctx == (b / 32 % 2 == 1)
            &&& f.vmob == (b / 64 % 2 == 1)
            &&& f.dom_val == (b / 128 % 2 == 1)
            &&& f.gen_danger == (b / 256 % 2 == 1)
            &&& f.no_draw_sac == (b / 512 % 2 == 1)
        }),
{
    assert((b & 1 != 0) == (b % 2 == 1) && (b & 2 != 0) == (b / 2 % 2 == 1) && (b & 4 != 0) == (b
        / 4 % 2 == 1) && (b & 8 != 0) == (b / 8 % 2 == 1) && (b & 16 != 0) == (b / 16 % 2 == 1)
        && (b & 32 != 0) == (b / 32 % 2 == 1) && (b & 64 != 0) == (b / 64 % 2 == 1) && (b & 128
        != 0) == (b / 128 % 2 == 1) && (b & 256 != 0) == (b / 256 % 2 == 1) && (b & 512 != 0) == (b
        / 512 % 2 == 1)) by (bit_vector);
}

/// The built-in values: of general, advisor, elephant, chariot, horse, cannon and soldier.
pub proof fn law_built_in_values(role: int)
    requires
        0 <= role < 7,
    ensures
        base_value(role) == seq![30int, 10, 10, 14, 8, 12, 4][role],
{
}

/// Seven given values are used; any other number of them stands for the built-in ones.
pub proof fn law_values_in_use<A: Arith>(v: Seq<A>, role: int)
    requires
        0 <= role < 7,
    ensures
        values_or_base(v).len() == 7,
        v.len() == 7 ==> values_or_base(v)[role] == v[role],
        v.len() != 7 ==> values_or_base(v)[role] == A::ratio_of(
            seq![30i64, 10, 10, 14, 8, 12, 4][role],
            1,
        ),
{
}

// ---------------------------------------------------------------- material

proof fn lemma_material_sum<A: Arith>(
    sq: Seq<i16>,
    persp: int,
    values: Seq<A>,
    n: int,
    f: spec_fn(int) -> real,
    val: spec_fn(A) -> real,
)
    requires
        faithful(val),
        forall|i: int|
            0 <= i < n ==> #[trigger] f(i) == if sq[i] >= 0 {
                for_or_against(sq[i] as int, persp, val(values[sq[i] as int % 7]))
            } else {
                0real
            },
    ensures
        val(material(sq, persp, values, n)) == sum_over(f, n),
    decreases n,
{
    lemma_whole(0, val);
    if n > 0 {
        lemma_material_sum(sq, persp, values, n - 1, f, val);
    }
}

/// Material is the sum of the values of the pieces on the board, those of the player counted for
/// and the others against.
pub proof fn law_material<A: Arith>(
    sq: Seq<i16>,
    persp: int,
    values: Seq<A>,
    val: spec_fn(A) -> real,
)
    requires
        faithful(val),
    ensures
        val(material(sq, persp, values, 32)) == sum_over(
            |i: int|
                if sq[i] >= 0 {
                    for_or_against(sq[i] as int, persp, val(values[sq[i] as int % 7]))
                } else {
                    0real
                },
            32,
        ),
{
    let f = |i: int|
        if sq[i] >= 0 {
            for_or_against(sq[i] as int, persp, val(values[sq[i] as int % 7]))
        } else {
            0real
        };
    lemma_material_sum(sq, persp, values, 32, f, val);
}

/// Covered material counts each unrevealed piece at its value, the player's own for and the
/// opponent's against.
pub proof fn law_covered_material<A: Arith>(
    bag: Seq<u32>,
    persp: int,
    values: Seq<A>,
    val: spec_fn(A) -> real,
)
    requires
        faithful(val),
        0 <= persp <= 1,
    ensures
        val(covered_material(bag, persp, values, 7)) == sum_over(
            |r: int|
                (bag[persp * 7 + r] as real) * val(values[r]) - (bag[(1 - persp) * 7 + r] as real)
                    * val(values[r]),
            7,
        ),
{
    let f = |r: int|
        (bag[persp * 7 + r] as real) * val(values[r]) - (bag[(1 - persp) * 7 + r] as real) * val(
            values[r],
        );
    lemma_covered_sum(bag, persp, values, 7, f, val);
}

proof fn lemma_covered_sum<A: Arith>(
    bag: Seq<u32>,
    persp: int,
    values: Seq<A>,
    n: int,
    f: spec_fn(int) -> real,
    val: spec_fn(A) -> real,
)
    requires
        faithful(val),
        0 <= n <= 7,
        forall|r: int|
            0 <= r < n ==> #[trigger] f(r) == (bag[persp * 7 + r] as real) * val(values[r])
                - (bag[(1 - persp) * 7 + r] as real) * val(values[r]),
    ensures
        val(covered_material(bag, persp, values, n)) == sum_over(f, n),
    decreases n,
{
    lemma_whole(0, val);
    if n > 0 {
        lemma_covered_sum(bag, persp, values, n - 1, f, val);
        lemma_whole(bag[persp * 7 + n - 1] as int, val);
        lemma_whole(bag[(1 - persp) * 7 + n - 1] as int, val);
    }
}

// ---------------------------------------------------------------- the general in context

/// What a general that faces `n` enemy soldiers is worth more.
pub open spec fn fearless(n: int) -> real {
    if n == 0 {
        141real / 10real
    } else if n == 1 {
        41real / 10real
    } else if n == 2 {
        8real / 10real
    } else if n == 3 {
        2real / 10real
    } else {
        0real
    }
}

/// Pieces of a code that are still in the game, counted on the board and in the bag.
pub open spec fn in_the_game(p: Pos, code: int) -> int {
    squares_with(p.sq, code) + p.bag[code]
}

/// A general in the game counts for its player, the more the fewer enemy soldiers are in it: 14.1,
/// 4.1, 0.8, 0.2 for none to three, and nothing from four on.
pub proof fn law_general_in_context<A: Arith>(p: Pos, persp: int, val: spec_fn(A) -> real)
    requires
        faithful(val),
        wf(p),
        0 <= persp <= 1,
    ensures
        ({
            let opp = 1 - persp;
            let mine = if in_the_game(p, persp * 7) > 0 {
                fearless(in_the_game(p, opp * 7 + 6))
            } else {
                0real
            };
            let theirs = if in_the_game(p, opp * 7) > 0 {
                fearless(in_the_game(p, persp * 7 + 6))
            } else {
                0real
            };
            val(king_ctx_term::<A>(p, persp)) == mine - theirs
        }),
{
    lemma_whole(0, val);
    law_counting(p.sq, 0);
    law_counting(p.sq, 7);
    law_counting(p.sq, 6);
    law_counting(p.sq, 13);
}

// ---------------------------------------------------------------- domination

/// The pieces of `enemy` in the game that take a piece of `role`: the cannons, which take
/// anything over a screen, and those that take it by stepping.
pub open spec fn hunters(p: Pos, enemy: int, role: int) -> int {
    let n = |d: int|
        if d == 5 || (d == 6 && role == 0) || (d <= role && !(d == 0 && role == 6)) {
            in_the_game(p, enemy * 7 + d)
        } else {
            0
        };
    n(0) + n(1) + n(2) + n(3) + n(4) + n(5) + n(6)
}

proof fn lemma_hunters(p: Pos, enemy: int, role: int)
    requires
        wf(p),
        0 <= enemy <= 1,
        0 <= role < 7,
    ensures
        dominators(p, enemy, role, 7) == hunters(p, enemy, role),
{
    reveal_with_fuel(dominators, 8);
    assert forall|d: int| 0 <= d < 7 implies alive(p, enemy * 7 + d) == #[trigger] in_the_game(
        p,
        enemy * 7 + d,
    ) by {
        law_counting(p.sq, enemy * 7 + d);
    }
    assert forall|d: int| 0 <= d < 7 implies #[trigger] captures(d, role) == ((d == 6 && role == 0)
        || (d <= role && !(d == 0 && role == 6))) by {
        law_who_takes_whom(d, role);
    }
    assert(in_the_game(p, enemy * 7 + 0) == alive(p, enemy * 7 + 0));
    assert(in_the_game(p, enemy * 7 + 1) == alive(p, enemy * 7 + 1));
    assert(in_the_game(p, enemy * 7 + 2) == alive(p, enemy * 7 + 2));
    assert(in_the_game(p, enemy * 7 + 3) == alive(p, enemy * 7 + 3));
    assert(in_the_game(p, enemy * 7 + 4) == alive(p, enemy * 7 + 4));
    assert(in_the_game(p, enemy * 7 + 5) == alive(p, enemy * 7 + 5));
    assert(in_the_game(p, enemy * 7 + 6) == alive(p, enemy * 7 + 6));
    assert(captures(0, role) || !captures(0, role));
    assert(captures(1, role) || !captures(1, role));
    assert(captures(2, role) || !captures(2, role));
    assert(captures(3, role) || !captures(3, role));
    assert(captures(4, role) || !captures(4, role));
    assert(captures(6, role) || !captures(6, role));
}

proof fn lemma_few_alive(p: Pos, code: int, n: int)
    requires
        0 <= n,
    ensures
        count_of(p.sq, code, n) <= n,
    decreases n,
{
    if n > 0 {
        lemma_few_alive(p, code, n - 1);
    }
}

proof fn lemma_few_dominators(p: Pos, enemy: int, role: int, n: int)
    requires
        0 <= n <= 7,
    ensures
        dominators(p, enemy, role, n) <= n * 0x1_0000_001f,
    decreases n,
{
    if n > 0 {
        assert(n * 0x1_0000_001f == (n - 1) * 0x1_0000_001f + 0x1_0000_001f);
        lemma_few_dominators(p, enemy, role, n - 1);
        lemma_few_alive(p, enemy * 7 + n - 1, 32);
    }
}

/// What a revealed piece gains by domination: half its value, divided by one more than the enemy
/// pieces in the game that can take it.
pub open spec fn dominance<A: Arith>(
    p: Pos,
    c: int,
    values: Seq<A>,
    val: spec_fn(A) -> real,
) -> real {
    val(values[c % 7]) / 2real / ((1 + hunters(p, 1 - c / 7, c % 7)) as real)
}

proof fn lemma_dominance<A: Arith>(p: Pos, c: int, values: Seq<A>, val: spec_fn(A) -> real)
    requires
        faithful(val),
        wf(p),
        0 <= c < 14,
    ensures
        val(domination_bonus(p, c, values)) == dominance(p, c, values, val),
{
    let enemy = 1 - color_of(c);
    let role = role_of(c);
    lemma_hunters(p, enemy, role);
    lemma_few_dominators(p, enemy, role, 7);
    let d = dominators(p, enemy, role, 7) as int;
    lemma_whole(1, val);
    lemma_whole(d, val);
    let v = val(values[role]);
    assert(val(A::ratio_of(1, 2)) == 1real / 2real);
    assert(v * (1real / 2real) == v / 2real) by (nonlinear_arith);
    assert(1real + d as real == (1 + d) as real);
}

proof fn lemma_domination_sum<A: Arith>(
    p: Pos,
    persp: int,
    values: Seq<A>,
    n: int,
    f: spec_fn(int) -> real,
    val: spec_fn(A) -> real,
)
    requires
        faithful(val),
        wf(p),
        0 <= n <= 32,
        forall|i: int|
            0 <= i < n ==> #[trigger] f(i) == if p.sq[i] >= 0 {
                for_or_against(p.sq[i] as int, persp, dominance(p, p.sq[i] as int, values, val))
            } else {
                0real
            },
    ensures
        val(domination(p, persp, values, n)) == sum_over(f, n),
    decreases n,
{
    lemma_whole(0, val);
    if n > 0 {
        lemma_domination_sum(p, persp, values, n - 1, f, val);
        let c = p.sq[n - 1] as int;
        assert(-2 <= p.sq[n - 1] < 14);
        if c >= 0 {
            lemma_dominance(p, c, values, val);
        }
    }
}

/// Domination is the sum of what the revealed pieces gain by it, the player's own for and the
/// others against.
pub proof fn law_domination<A: Arith>(
    p: Pos,
    persp: int,
    values: Seq<A>,
    val: spec_fn(A) -> real,
)
    requires
        faithful(val),
        wf(p),
    ensures
        val(domination(p, persp, values, 32)) == sum_over(
            |i: int|
                if p.sq[i] >= 0 {
                    for_or_against(p.sq[i] as int, persp, dominance(p, p.sq[i] as int, values, val))
                } else {
                    0real
                },
            32,
        ),
{
    let f = |i: int|
        if p.sq[i] >= 0 {
            for_or_against(p.sq[i] as int, persp, dominance(p, p.sq[i] as int, values, val))
        } else {
            0real
        };
    lemma_domination_sum(p, persp, values, 32, f, val);
}

// ---------------------------------------------------------------- mobility

proof fn lemma_weighed_sum<A: Arith>(
    sq: Seq<i16>,
    color: int,
    values: Seq<A>,
    n: int,
    f: spec_fn(int) -> real,
    val: spec_fn(A) -> real,
)
    requires
        faithful(val),
        forall|i: int|
            0 <= i < n ==> #[trigger] f(i) == if sq[i] >= 0 && sq[i] as int / 7 == color {
                val(values[sq[i] as int % 7]) * (moves_from(sq, i, color).len() as real)
            } else {
                0real
            },
    ensures
        val(weighed_moves(sq, color, values, n)) == sum_over(f, n),
    decreases n,
{
    lemma_whole(0, val);
    if n > 0 {
        lemma_weighed_sum(sq, color, values, n - 1, f, val);
        lemma_few_moves_from(sq, n - 1, color);
        lemma_whole(moves_from(sq, n - 1, color).len() as int, val);
    }
}

/// Weighed mobility counts every move of a color at the value of the piece that makes it, in
/// twelfths.
pub proof fn law_weighed_mobility<A: Arith>(
    sq: Seq<i16>,
    color: int,
    values: Seq<A>,
    val: spec_fn(A) -> real,
)
    requires
        faithful(val),
    ensures
        val(mobility_valued(sq, color, values)) == sum_over(
            |i: int|
                if sq[i] >= 0 && sq[i] as int / 7 == color {
                    val(values[sq[i] as int % 7]) * (moves_from(sq, i, color).len() as real)
                } else {
                    0real
                },
            32,
        ) / 12real,
{
    let f = |i: int|
        if sq[i] >= 0 && sq[i] as int / 7 == color {
            val(values[sq[i] as int % 7]) * (moves_from(sq, i, color).len() as real)
        } else {
            0real
        };
    lemma_weighed_sum(sq, color, values, 32, f, val);
    lemma_whole(12, val);
}

/// The moves of a color are those of its pieces together.
pub proof fn law_moves_of_a_color(sq: Seq<i16>, color: int, n: int)
    requires
        0 <= n,
    ensures
        moves_of(sq, color, n).len() as real == sum_over(
            |i: int|
                if sq[i] >= 0 && sq[i] as int / 7 == color {
                    moves_from(sq, i, color).len() as real
                } else {
                    0real
                },
            n,
        ),
    decreases n,
{
    let f = |i: int|
        if sq[i] >= 0 && sq[i] as int / 7 == color {
            moves_from(sq, i, color).len() as real
        } else {
            0real
        };
    if n > 0 {
        law_moves_of_a_color(sq, color, n - 1);
    }
}

proof fn lemma_color_has_few_moves(sq: Seq<i16>, color: int, n: int)
    requires
        0 <= n <= 32,
    ensures
        moves_of(sq, color, n).len() <= 8 * n,
    decreases n,
{
    if n > 0 {
        lemma_color_has_few_moves(sq, color, n - 1);
        lemma_few_moves_from(sq, n - 1, color);
    }
}

/// Mobility is the player's moves less the opponent's, counted or weighed.
pub proof fn law_mobility<A: Arith>(
    p: Pos,
    persp: int,
    values: Seq<A>,
    feat: Feat,
    val: spec_fn(A) -> real,
)
    requires
        faithful(val),
    ensures
        val(mobility_term(p, persp, values, feat)) == if feat.vmob {
            val(mobility_valued(p.sq, persp, values)) - val(
                mobility_valued(p.sq, 1 - persp, values),
            )
        } else {
            moves_of(p.sq, persp, 32).len() as real - moves_of(p.sq, 1 - persp, 32).len() as real
        },
{
    lemma_color_has_few_moves(p.sq, persp, 32);
    lemma_color_has_few_moves(p.sq, 1 - persp, 32);
    lemma_whole(moves_of(p.sq, persp, 32).len() - moves_of(p.sq, 1 - persp, 32).len(), val);
}

// ---------------------------------------------------------------- danger next to the general

/// Where a code stands first.
pub proof fn law_finding(sq: Seq<i16>, c: int, n: int)
    requires
        0 <= n,
    ensures
        match find_code(sq, c, n) {
            Some(g) => n <= g < 32 && sq[g] == c && forall|i: int| n <= i < g ==> sq[i] != c,
            None => forall|i: int| n <= i < 32 ==> sq[i] != c,
        },
    decreases 32 - n,
{
    if n < 32 && sq[n] != c {
        law_finding(sq, c, n + 1);
    }
}

/// What a neighbour of the general of `color` counts: two for a face-down tile, one for an enemy
/// soldier.
pub open spec fn menace(c: int, color: int) -> int {
    if c == -2 {
        2
    } else if c == (1 - color) * 7 + 6 {
        1
    } else {
        0
    }
}

/// Danger from what stands next to the general: the sum over its neighbours, along the rank and
/// along the file.
pub proof fn law_danger_next_to_the_general<A: Arith>(
    p: Pos,
    color: int,
    g: int,
    val: spec_fn(A) -> real,
)
    requires
        faithful(val),
        wf(p),
        0 <= color <= 1,
        0 <= g < 32,
        p.sq[g] == color * 7,
        forall|i: int| 0 <= i < g ==> p.sq[i] != color * 7,
    ensures
        val(king_danger::<A>(p.sq, color)) == ((if g % 8 < 7 {
            menace(p.sq[g + 1] as int, color)
        } else {
            0
        }) + (if g % 8 > 0 {
            menace(p.sq[g - 1] as int, color)
        } else {
            0
        }) + (if g < 24 {
            menace(p.sq[g + 8] as int, color)
        } else {
            0
        }) + (if g >= 8 {
            menace(p.sq[g - 8] as int, color)
        } else {
            0
        })) as real,
{
    law_finding(p.sq, color * 7, 0);
    law_directions(g);
    reveal_with_fuel(danger_points, 5);
    assert(danger_points(p.sq, g, color, 4) == danger_points(p.sq, g, color, 4));
    lemma_whole(danger_points(p.sq, g, color, 4), val);
    if g % 8 < 7 {
        assert(-2 <= p.sq[g + 1] < 14);
    }
    if g % 8 > 0 {
        assert(-2 <= p.sq[g - 1] < 14);
    }
    if g < 24 {
        assert(-2 <= p.sq[g + 8] < 14);
    }
    if g >= 8 {
        assert(-2 <= p.sq[g - 8] < 14);
    }
}

/// Without a general there is no danger to it.
pub proof fn law_no_general_no_danger<A: Arith>(p: Pos, color: int)
    requires
        forall|i: int| 0 <= i < 32 ==> p.sq[i] != color * 7,
    ensures
        king_danger::<A>(p.sq, color) == whole::<A>(0),
        general_danger::<A>(p, color) == whole::<A>(0),
{
    law_finding(p.sq, color * 7, 0);
}

// ---------------------------------------------------------------- danger from afar

/// A soldier on `i` takes what stands on `g` with its `n`-th move, if it walks over empty squares.
pub open spec fn marches(sq: Seq<i16>, g: int, i: int, n: int) -> bool
    decreases n,
{
    if n <= 0 {
        false
    } else if n == 1 {
        next_to(i, g)
    } else {
        exists|j: int| #[trigger] next_to(i, j) && sq[j] == -1 && marches(sq, g, j, n - 1)
    }
}

proof fn lemma_adjacent(i: int, j: int)
    requires
        0 <= i < 32,
    ensures
        adjacent(i, j) <==> next_to(i, j),
        0 <= j < 32 ==> (next_to(i, j) <==> next_to(j, i)),
{
    law_steps_lead_to_neighbours(i, j);
}

/// Being near is to be on an empty square from which few moves lead to the general.
proof fn lemma_near(sq: Seq<i16>, g: int, d: int, i: int)
    requires
        0 <= g < 32,
        0 <= i < 32,
        0 <= d,
    ensures
        near(sq, g, d, i) <==> sq[i] == -1 && exists|n: int|
            1 <= n <= d + 1 && #[trigger] marches(sq, g, i, n),
    decreases d,
{
    lemma_adjacent(g, i);
    lemma_adjacent(i, g);
    if d == 0 {
        if near(sq, g, 0, i) {
            assert(marches(sq, g, i, 1));
        }
    } else {
        lemma_near(sq, g, d - 1, i);
        if near(sq, g, d, i) && !near(sq, g, d - 1, i) {
            let j = choose|j: int|
                0 <= j < 32 && #[trigger] adjacent(i, j) && near(sq, g, d - 1, j);
            lemma_adjacent(i, j);
            lemma_near(sq, g, d - 1, j);
            let n = choose|n: int| 1 <= n <= d && #[trigger] marches(sq, g, j, n);
            assert(next_to(i, j));
            assert(marches(sq, g, i, n + 1));
        }
        if sq[i] == -1 && exists|n: int| 1 <= n <= d + 1 && #[trigger] marches(sq, g, i, n) {
            let n = choose|n: int| 1 <= n <= d + 1 && #[trigger] marches(sq, g, i, n);
            if n == d + 1 {
                let j = choose|j: int| #[trigger]
                    next_to(i, j) && sq[j] == -1 && marches(sq, g, j, n - 1);
                lemma_adjacent(i, j);
                lemma_near(sq, g, d - 1, j);
                assert(adjacent(i, j) && near(sq, g, d - 1, j));
            } else {
                assert(near(sq, g, d - 1, i));
            }
        }
    }
}

proof fn lemma_touches(sq: Seq<i16>, g: int, d: int, i: int)
    requires
        0 <= g < 32,
        0 <= i < 32,
        0 <= d,
    ensures
        touches(sq, g, d, i) <==> exists|n: int|
            2 <= n <= d + 2 && #[trigger] marches(sq, g, i, n),
{
    if touches(sq, g, d, i) {
        let j = choose|j: int| 0 <= j < 32 && adjacent(i, j) && #[trigger] near(sq, g, d, j);
        lemma_adjacent(i, j);
        lemma_near(sq, g, d, j);
        let n = choose|n: int| 1 <= n <= d + 1 && #[trigger] marches(sq, g, j, n);
        assert(next_to(i, j));
        assert(marches(sq, g, i, n + 1));
    }
    if exists|n: int| 2 <= n <= d + 2 && #[trigger] marches(sq, g, i, n) {
        let n = choose|n: int| 2 <= n <= d + 2 && #[trigger] marches(sq, g, i, n);
        let j = choose|j: int| #[trigger]
            next_to(i, j) && sq[j] == -1 && marches(sq, g, j, n - 1);
        lemma_adjacent(i, j);
        lemma_near(sq, g, d, j);
        assert(near(sq, g, d, j));
    }
}

/// A soldier that takes the general with its `n`-th move, and not earlier, threatens it with
/// `1 / 2^(n - 1)`, in parts of 32; from the seventh move on not at all.
pub proof fn law_threat_of_a_soldier(sq: Seq<i16>, g: int, i: int, n: int)
    requires
        0 <= g < 32,
        0 <= i < 32,
        1 <= n,
        marches(sq, g, i, n) || n == 7,
        forall|m: int| 1 <= m < n ==> !#[trigger] marches(sq, g, i, m),
    ensures
        soldier_weight(sq, g, i) == if n == 1 {
            32
        } else if n == 2 {
            16
        } else if n == 3 {
            8
        } else if n == 4 {
            4
        } else if n == 5 {
            2
        } else if n == 6 {
            1
        } else {
            0int
        },
{
    lemma_adjacent(g, i);
    lemma_adjacent(i, g);
    assert(marches(sq, g, i, 1) == next_to(i, g));
    lemma_touches(sq, g, 0, i);
    lemma_touches(sq, g, 1, i);
    lemma_touches(sq, g, 2, i);
    lemma_touches(sq, g, 3, i);
    lemma_touches(sq, g, 4, i);
}

proof fn lemma_threat_sum(sq: Seq<i16>, g: int, color: int, n: int, f: spec_fn(int) -> real)
    requires
        forall|i: int|
            0 <= i < n ==> #[trigger] f(i) == if sq[i] == (1 - color) * 7 + 6 {
                soldier_weight(sq, g, i) as real
            } else {
                0real
            },
    ensures
        threat(sq, g, color, n) as real == sum_over(f, n),
    decreases n,
{
    if n > 0 {
        lemma_threat_sum(sq, g, color, n - 1, f);
    }
}

/// All enemy soldiers on the board threaten together, and nothing else does.
pub proof fn law_threats_add_up(sq: Seq<i16>, g: int, color: int)
    ensures
        threat(sq, g, color, 32) as real == sum_over(
            |i: int|
                if sq[i] == (1 - color) * 7 + 6 {
                    soldier_weight(sq, g, i) as real
                } else {
                    0real
                },
            32,
        ),
{
    let f = |i: int|
        if sq[i] == (1 - color) * 7 + 6 {
            soldier_weight(sq, g, i) as real
        } else {
            0real
        };
    lemma_threat_sum(sq, g, color, 32, f);
}

/// The general of `color` can flee to `t`: the square is empty and has no enemy soldier beside it.
pub open spec fn safe(sq: Seq<i16>, t: int, color: int) -> bool {
    sq[t] == -1 && forall|s: int| #[trigger] next_to(t, s) ==> sq[s] != (1 - color) * 7 + 6
}

proof fn lemma_beside(sq: Seq<i16>, t: int, c: int)
    requires
        0 <= t < 32,
    ensures
        beside(sq, t, c) <==> exists|s: int| #[trigger] next_to(t, s) && sq[s] == c,
{
    if beside(sq, t, c) {
        let k = choose|k: int|
            0 <= k < 4 && (#[trigger] step(t, k) matches Some(j) && sq[j] == c);
        let j = step(t, k)->0;
        law_steps_lead_to_neighbours(t, j);
        assert(next_to(t, j));
    }
    if exists|s: int| #[trigger] next_to(t, s) && sq[s] == c {
        let s = choose|s: int| #[trigger] next_to(t, s) && sq[s] == c;
        law_steps_lead_to_neighbours(t, s);
        let k = choose|k: int| 0 <= k < 4 && #[trigger] step(t, k) == Some(s);
        assert(step(t, k) matches Some(j) && sq[j] == c);
    }
}

/// The squares the general can flee to, among its neighbours along the rank and the file.
pub proof fn law_escapes(sq: Seq<i16>, g: int, color: int)
    requires
        0 <= g < 32,
    ensures
        escapes(sq, g, color, 4) == (if g % 8 < 7 && safe(sq, g + 1, color) {
            1int
        } else {
            0
        }) + (if g % 8 > 0 && safe(sq, g - 1, color) {
            1int
        } else {
            0
        }) + (if g < 24 && safe(sq, g + 8, color) {
            1int
        } else {
            0
        }) + (if g >= 8 && safe(sq, g - 8, color) {
            1int
        } else {
            0
        }),
{
    law_directions(g);
    reveal_with_fuel(escapes, 5);
    let c = enemy_soldier(color);
    if g % 8 < 7 {
        lemma_beside(sq, g + 1, c);
    }
    if g % 8 > 0 {
        lemma_beside(sq, g - 1, c);
    }
    if g < 24 {
        lemma_beside(sq, g + 8, c);
    }
    if g >= 8 {
        lemma_beside(sq, g - 8, c);
    }
}

/// A corner has two walls, an edge one, the middle none.
pub proof fn law_walls(g: int)
    requires
        0 <= g < 32,
    ensures
        walls(g, 4) == (if g % 8 == 0 || g % 8 == 7 {
            1int
        } else {
            0
        }) + (if g < 8 || g >= 24 {
            1int
        } else {
            0
        }),
{
    law_directions(g);
    reveal_with_fuel(walls, 5);
}

proof fn lemma_small_threat(sq: Seq<i16>, g: int, color: int, n: int)
    requires
        0 <= n,
    ensures
        0 <= threat(sq, g, color, n) <= 32 * n,
    decreases n,
{
    if n > 0 {
        lemma_small_threat(sq, g, color, n - 1);
    }
}

/// Danger from afar: the threats, divided by one more than the squares to flee to, and 0.15 for
/// each wall, as far as up to four enemy soldiers are in the game.
pub proof fn law_danger_from_afar<A: Arith>(
    p: Pos,
    color: int,
    g: int,
    val: spec_fn(A) -> real,
)
    requires
        faithful(val),
        wf(p),
        0 <= color <= 1,
        0 <= g < 32,
        p.sq[g] == color * 7,
        forall|i: int| 0 <= i < g ==> p.sq[i] != color * 7,
    ensures
        ({
            let soldiers = in_the_game(p, (1 - color) * 7 + 6);
            val(general_danger::<A>(p, color)) == (threat(p.sq, g, color, 32) as real) / 32real
                / ((1 + escapes(p.sq, g, color, 4)) as real) + 15real / 100real
                * (walls(g, 4) as real) * ((if soldiers < 4 {
                soldiers
            } else {
                4
            }) as real / 4real)
        }),
{
    law_finding(p.sq, color * 7, 0);
    law_counting(p.sq, (1 - color) * 7 + 6);
    law_escapes(p.sq, g, color);
    law_walls(g);
    lemma_small_threat(p.sq, g, color, 32);
    let e = escapes(p.sq, g, color, 4) as int;
    let w = walls(g, 4) as int;
    let n = at_most_four(alive(p, enemy_soldier(color)));
    lemma_whole(1, val);
    lemma_whole(4, val);
    lemma_whole(e, val);
    lemma_whole(w, val);
    lemma_whole(n, val);
    assert(1real + e as real == (1 + e) as real);
}

// ---------------------------------------------------------------- the evaluation

/// The sum of the terms: material and what is switched on of it, plus weighed mobility, less the
/// weighed danger to one's own general over that to the other's.
pub open spec fn score<A: Arith>(
    p: Pos,
    persp: int,
    w_mob: A,
    w_king: A,
    values: Seq<A>,
    feat: Feat,
    val: spec_fn(A) -> real,
) -> real {
    let opp = 1 - persp;
    val(material(p.sq, persp, values, 32)) + (if feat.cover_mat {
        val(covered_material(p.bag, persp, values, 7))
    } else {
        0real
    }) + (if feat.king_ctx {
        val(king_ctx_term::<A>(p, persp))
    } else {
        0real
    }) + (if feat.dom_val {
        val(domination(p, persp, values, 32))
    } else {
        0real
    }) + val(w_mob) * (if feat.vmob {
        val(mobility_valued(p.sq, persp, values)) - val(mobility_valued(p.sq, opp, values))
    } else {
        moves_of(p.sq, persp, 32).len() as real - moves_of(p.sq, opp, 32).len() as real
    }) - val(w_king) * (if feat.gen_danger {
        val(general_danger::<A>(p, persp)) - val(general_danger::<A>(p, opp))
    } else {
        val(king_danger::<A>(p.sq, persp)) - val(king_danger::<A>(p.sq, opp))
    })
}

/// The evaluation is the hyperbolic tangent of a sixtieth of the score.
pub proof fn law_evaluation_of_the_score<A: Arith>(
    p: Pos,
    persp: int,
    w_mob: A,
    w_king: A,
    values: Seq<A>,
    feat: Feat,
    val: spec_fn(A) -> real,
) -> (t: A)
    requires
        faithful(val),
        0 <= persp <= 1,
    ensures
        val(t) == score(p, persp, w_mob, w_king, values, feat, val) / 60real,
        evaluation(p, persp, w_mob, w_king, values, feat) == A::tanh_of(t),
{
    law_mobility(p, persp, values, feat, val);
    lemma_whole(0, val);
    lemma_whole(60, val);
    let mat = material_terms(p, persp, values, feat);
    let mob = mobility_term(p, persp, values, feat);
    let king = king_term(p, persp, w_king, feat);
    let k = if feat.gen_danger {
        val(general_danger::<A>(p, persp)) - val(general_danger::<A>(p, 1 - persp))
    } else {
        val(king_danger::<A>(p.sq, persp)) - val(king_danger::<A>(p.sq, 1 - persp))
    };
    let wk = val(w_king);
    if A::is_same(w_king, whole(0)) {
        assert(wk * val(king) == wk * k) by (nonlinear_arith)
            requires
                wk == 0real,
        ;
    }
    A::quotient_of(
        A::difference_of(
            A::sum_of(mat, A::product_of(w_mob, mob)),
            A::product_of(w_king, king),
        ),
        whole(60),
    )
}

/// A higher score gives a higher evaluation.
pub proof fn law_evaluation_rises<A: Arith>(
    p: Pos,
    q: Pos,
    persp: int,
    w_mob: A,
    w_king: A,
    values: Seq<A>,
    feat: Feat,
    val: spec_fn(A) -> real,
)
    requires
        faithful(val),
        rising(val),
        0 <= persp <= 1,
        score(p, persp, w_mob, w_king, values, feat, val) < score(
            q,
            persp,
            w_mob,
            w_king,
            values,
            feat,
            val,
        ),
    ensures
        val(evaluation(p, persp, w_mob, w_king, values, feat)) < val(
            evaluation(q, persp, w_mob, w_king, values, feat),
        ),
{
    let a = law_evaluation_of_the_score(p, persp, w_mob, w_king, values, feat, val);
    let b = law_evaluation_of_the_score(q, persp, w_mob, w_king, values, feat, val);
    let x = score(p, persp, w_mob, w_king, values, feat, val);
    let y = score(q, persp, w_mob, w_king, values, feat, val);
    assert(x / 60real < y / 60real) by (nonlinear_arith)
        requires
            x < y,
    ;
}

/// Danger to one's own general lowers the evaluation, and danger to the other's raises it, where
/// everything else is equal and the weight is positive.
pub proof fn law_danger_lowers_the_evaluation<A: Arith>(
    p: Pos,
    q: Pos,
    persp: int,
    w_mob: A,
    w_king: A,
    values: Seq<A>,
    feat: Feat,
    val: spec_fn(A) -> real,
)
    requires
        faithful(val),
        rising(val),
        0 <= persp <= 1,
        val(w_king) > 0real,
        val(material_terms(p, persp, values, feat)) == val(material_terms(q, persp, values, feat)),
        val(mobility_term(p, persp, values, feat)) == val(mobility_term(q, persp, values, feat)),
    ensures
        ({
            let ep = val(evaluation(p, persp, w_mob, w_king, values, feat));
            let eq = val(evaluation(q, persp, w_mob, w_king, values, feat));
            let mine = |s: Pos|
                if feat.gen_danger {
                    val(general_danger::<A>(s, persp))
                } else {
                    val(king_danger::<A>(s.sq, persp))
                };
            let theirs = |s: Pos|
                if feat.gen_danger {
                    val(general_danger::<A>(s, 1 - persp))
                } else {
                    val(king_danger::<A>(s.sq, 1 - persp))
                };
            &&& mine(p) > mine(q) && theirs(p) == theirs(q) ==> ep < eq
            &&& mine(p) == mine(q) && theirs(p) > theirs(q) ==> ep > eq
        }),
{
    let wk = val(w_king);
    let kp = if feat.gen_danger {
        val(general_danger::<A>(p, persp)) - val(general_danger::<A>(p, 1 - persp))
    } else {
        val(king_danger::<A>(p.sq, persp)) - val(king_danger::<A>(p.sq, 1 - persp))
    };
    let kq = if feat.gen_danger {
        val(general_danger::<A>(q, persp)) - val(general_danger::<A>(q, 1 - persp))
    } else {
        val(king_danger::<A>(q.sq, persp)) - val(king_danger::<A>(q.sq, 1 - persp))
    };
    assert(kp > kq ==> wk * kp > wk * kq) by (nonlinear_arith)
        requires
            wk > 0real,
    ;
    assert(kq > kp ==> wk * kq > wk * kp) by (nonlinear_arith)
        requires
            wk > 0real,
    ;
    law_mobility(p, persp, values, feat, val);
    law_mobility(q, persp, values, feat, val);
    if kp > kq {
        law_evaluation_rises(p, q, persp, w_mob, w_king, values, feat, val);
    }
    if kq > kp {
        law_evaluation_rises(q, p, persp, w_mob, w_king, values, feat, val);
    }
}

/// More moves for a player, or fewer for the opponent, raise the evaluation, where everything else
/// is equal and the weight is positive.
pub proof fn law_mobility_raises_the_evaluation<A: Arith>(
    p: Pos,
    q: Pos,
    persp: int,
    w_mob: A,
    w_king: A,
    values: Seq<A>,
    feat: Feat,
    val: spec_fn(A) -> real,
)
    requires
        faithful(val),
        rising(val),
        0 <= persp <= 1,
        !feat.vmob,
        val(w_mob) > 0real,
        val(material_terms(p, persp, values, feat)) == val(material_terms(q, persp, values, feat)),
        val(king_term(p, persp, w_king, feat)) == val(king_term(q, persp, w_king, feat)),
        moves_of(p.sq, persp, 32).len() - moves_of(p.sq, 1 - persp, 32).len() < moves_of(
            q.sq,
            persp,
            32,
        ).len() - moves_of(q.sq, 1 - persp, 32).len(),
    ensures
        val(evaluation(p, persp, w_mob, w_king, values, feat)) < val(
            evaluation(q, persp, w_mob, w_king, values, feat),
        ),
{
    let wm = val(w_mob);
    let mp = moves_of(p.sq, persp, 32).len() as real - moves_of(p.sq, 1 - persp, 32).len() as real;
    let mq = moves_of(q.sq, persp, 32).len() as real - moves_of(q.sq, 1 - persp, 32).len() as real;
    assert(wm * mp < wm * mq) by (nonlinear_arith)
        requires
            wm > 0real,
            mp < mq,
    ;
    lemma_king_part(p, persp, w_king, feat, val);
    lemma_king_part(q, persp, w_king, feat, val);
    law_evaluation_rises(p, q, persp, w_mob, w_king, values, feat, val);
}

/// The weighed danger, whether or not it is left out for a weight of zero.
proof fn lemma_king_part<A: Arith>(
    p: Pos,
    persp: int,
    w_king: A,
    feat: Feat,
    val: spec_fn(A) -> real,
)
    requires
        faithful(val),
    ensures
        val(w_king) * val(king_term(p, persp, w_king, feat)) == val(w_king) * (
        if feat.gen_danger {
            val(general_danger::<A>(p, persp)) - val(general_danger::<A>(p, 1 - persp))
        } else {
            val(king_danger::<A>(p.sq, persp)) - val(king_danger::<A>(p.sq, 1 - persp))
        }),
{
    let k = if feat.gen_danger {
        val(general_danger::<A>(p, persp)) - val(general_danger::<A>(p, 1 - persp))
    } else {
        val(king_danger::<A>(p.sq, persp)) - val(king_danger::<A>(p.sq, 1 - persp))
    };
    let wk = val(w_king);
    let x = val(king_term(p, persp, w_king, feat));
    lemma_whole(0, val);
    if A::is_same(w_king, whole(0)) {
        assert(wk * x == wk * k) by (nonlinear_arith)
            requires
                wk == 0real,
        ;
    }
}

/// More material raises the evaluation, where everything else is equal.
pub proof fn law_material_raises_the_evaluation<A: Arith>(
    p: Pos,
    q: Pos,
    persp: int,
    w_mob: A,
    w_king: A,
    values: Seq<A>,
    feat: Feat,
    val: spec_fn(A) -> real,
)
    requires
        faithful(val),
        rising(val),
        0 <= persp <= 1,
        val(material_terms(p, persp, values, feat)) < val(material_terms(q, persp, values, feat)),
        val(mobility_term(p, persp, values, feat)) == val(mobility_term(q, persp, values, feat)),
        val(king_term(p, persp, w_king, feat)) == val(king_term(q, persp, w_king, feat)),
    ensures
        val(evaluation(p, persp, w_mob, w_king, values, feat)) < val(
            evaluation(q, persp, w_mob, w_king, values, feat),
        ),
{
    law_mobility(p, persp, values, feat, val);
    law_mobility(q, persp, values, feat, val);
    lemma_king_part(p, persp, w_king, feat, val);
    lemma_king_part(q, persp, w_king, feat, val);
    law_evaluation_rises(p, q, persp, w_mob, w_king, values, feat, val);
}

} // verus!
