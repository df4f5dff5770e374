//! Repetitions inside a search.
//!
//! A search keeps the positions of its line on a path, and a position that is on the path is worth
//! a draw. The value of a position that this defines has no windows in it; alpha-beta search finds
//! it.
use vstd::prelude::*;

use crate::arith::{faithful, whole, Arith};
use crate::board::{after, all_moves, bag_total, mover, outcome, wf, Pos, RES_DRAW, RES_ONGOING};
use crate::engine::lemma_search_order_keeps;
use crate::eval::evaluation;
use crate::expectimax::{
    agrees, bounded, calm_value, flip_average, larger, lemma_agree_larger, lemma_calm_bounds,
    lemma_chance, lemma_empty_bag, lemma_leaf_bounds, lemma_lengths_agree, lemma_quiesce_agrees,
    lemma_rest_step, lemma_some_tiles, lemma_star1, lemma_terminal_bounds, lemma_whole, move_worth,
    probability, rest, window,
};
use crate::model::{
    chance, chance_left, flip_from, law_search_keeps, leaf_value, lemma_move_value_keeps,
    move_value, negamax, node_from, node_move, quiesce, search_order, star1_bound, terminal_value,
    ticked, vmax, vmin, Mem, Params,
};
use crate::movement::{law_moves_on_squares, may_move};
use crate::order::{lemma_same_moves, promoted};
use crate::searching::{wide_negamax, wide_quiesce};
use crate::zobrist::key_of;

verus! {

/// Neither the table nor reductions are switched on.
pub open spec fn no_shortcuts<A: Arith>(c: Params<A>) -> bool {
    !c.feat.tt && !c.feat.lmr
}

/// The value of `p` for the player to move, `depth` plies deep, where the positions of `path` have
/// been seen. A position that has been seen is a draw.
pub open spec fn line_value<A: Arith>(
    p: Pos,
    depth: int,
    c: Params<A>,
    path: Seq<u64>,
    val: spec_fn(A) -> real,
) -> real
    decreases depth, 3int, 0int,
{
    if outcome(p) != RES_ONGOING {
        val(terminal_value(p, outcome(p), c))
    } else if depth <= 0 {
        if c.quiesce {
            calm_value(p, c, c.quiesce_max, val)
        } else {
            val(leaf_value(p, c))
        }
    } else if c.feat.rep && path.contains(key_of(p)) {
        val(terminal_value(p, RES_DRAW as int, c))
    } else {
        line_best(p, all_moves(p), 0, depth, c, longer(p, c, path), val)
    }
}

/// The path with `p`, where repetitions count.
pub open spec fn longer<A>(p: Pos, c: Params<A>, path: Seq<u64>) -> Seq<u64> {
    if c.feat.rep {
        path.push(key_of(p))
    } else {
        path
    }
}

/// The best of the moves from index `i` on; `path` holds what has been seen before them.
pub open spec fn line_best<A: Arith>(
    p: Pos,
    mv: Seq<(u8, u8)>,
    i: int,
    depth: int,
    c: Params<A>,
    path: Seq<u64>,
    val: spec_fn(A) -> real,
) -> real
    decreases depth, 2int, mv.len() - i,
    when depth >= 1
{
    if i >= mv.len() - 1 {
        line_move(p, mv[i], depth, c, path, val)
    } else {
        larger(
            line_move(p, mv[i], depth, c, path, val),
            line_best(p, mv, i + 1, depth, c, path, val),
        )
    }
}

/// The value of a move: of a flip the average over what it turns up.
pub open spec fn line_move<A: Arith>(
    p: Pos,
    x: (u8, u8),
    depth: int,
    c: Params<A>,
    path: Seq<u64>,
    val: spec_fn(A) -> real,
) -> real
    decreases depth, 1int, 0int,
    when depth >= 1
{
    if x.0 == x.1 {
        line_average(p, x, 0, depth, c, path, val)
    } else {
        -line_value(after(p, x, 0), depth - 1, c, path, val)
    }
}

/// The share of the outcomes from `code` on in the average.
pub open spec fn line_average<A: Arith>(
    p: Pos,
    x: (u8, u8),
    code: int,
    depth: int,
    c: Params<A>,
    path: Seq<u64>,
    val: spec_fn(A) -> real,
) -> real
    decreases depth, 0int, 14 - code,
    when depth >= 1
{
    if code >= 14 {
        0real
    } else if p.bag[code] == 0 {
        line_average(p, x, code + 1, depth, c, path, val)
    } else {
        probability(p.bag, code) * -line_value(after(p, x, code), depth - 1, c, path, val)
            + line_average(
            p,
            x,
            code + 1,
            depth,
            c,
            path,
            val,
        )
    }
}

/// Every value lies between -1 and 1.
pub proof fn lemma_line_values_bounded<A: Arith>(
    p: Pos,
    depth: int,
    c: Params<A>,
    path: Seq<u64>,
    val: spec_fn(A) -> real,
)
    requires
        faithful(val),
        bounded(c, val),
    ensures
        -1real <= line_value(p, depth, c, path, val) <= 1real,
    decreases depth, 3int, 0int,
{
    if outcome(p) != RES_ONGOING {
        lemma_terminal_bounds(p, outcome(p), c, val);
    } else if depth <= 0 {
        lemma_calm_bounds(p, c, c.quiesce_max, val);
        lemma_leaf_bounds(p, c, val);
    } else {
        lemma_terminal_bounds(p, RES_DRAW as int, c, val);
        lemma_line_best_of_bounds(p, all_moves(p), 0, depth, c, longer(p, c, path), val);
    }
}

proof fn lemma_line_best_of_bounds<A: Arith>(
    p: Pos,
    mv: Seq<(u8, u8)>,
    i: int,
    depth: int,
    c: Params<A>,
    path: Seq<u64>,
    val: spec_fn(A) -> real,
)
    requires
        faithful(val),
        bounded(c, val),
        depth >= 1,
    ensures
        -1real <= line_best(p, mv, i, depth, c, path, val) <= 1real,
    decreases depth, 2int, mv.len() - i,
{
    lemma_line_exact_move_bounds(p, mv[i], depth, c, path, val);
    if i < mv.len() - 1 {
        lemma_line_best_of_bounds(p, mv, i + 1, depth, c, path, val);
    }
}

pub proof fn lemma_line_exact_move_bounds<A: Arith>(
    p: Pos,
    x: (u8, u8),
    depth: int,
    c: Params<A>,
    path: Seq<u64>,
    val: spec_fn(A) -> real,
)
    requires
        faithful(val),
        bounded(c, val),
        depth >= 1,
    ensures
        -1real <= line_move(p, x, depth, c, path, val) <= 1real,
    decreases depth, 1int, 0int,
{
    if x.0 == x.1 {
        lemma_line_average_bounds(p, x, 0, depth, c, path, val);
        let t = bag_total(p.bag) as real;
        if t > 0real {
            assert(t / t == 1real) by (nonlinear_arith)
                requires
                    t > 0real,
            ;
        } else {
            lemma_empty_bag(p.bag);
            lemma_line_average_of_nothing(p, x, 0, depth, c, path, val);
        }
    } else {
        lemma_line_values_bounded(after(p, x, 0), depth - 1, c, path, val);
    }
}

proof fn lemma_line_average_of_nothing<A: Arith>(
    p: Pos,
    x: (u8, u8),
    code: int,
    depth: int,
    c: Params<A>,
    path: Seq<u64>,
    val: spec_fn(A) -> real,
)
    requires
        faithful(val),
        depth >= 1,
        0 <= code,
        forall|k: int| 0 <= k < 14 ==> #[trigger] p.bag[k] == 0,
    ensures
        line_average(p, x, code, depth, c, path, val) == 0real,
    decreases 14 - code,
{
    if code < 14 {
        lemma_line_average_of_nothing(p, x, code + 1, depth, c, path, val);
    }
}

proof fn lemma_line_average_bounds<A: Arith>(
    p: Pos,
    x: (u8, u8),
    code: int,
    depth: int,
    c: Params<A>,
    path: Seq<u64>,
    val: spec_fn(A) -> real,
)
    requires
        faithful(val),
        bounded(c, val),
        depth >= 1,
        0 <= code <= 14,
    ensures
        bag_total(p.bag) > 0 ==> -rest(p.bag, code) <= line_average(p, x, code, depth, c, path, val)
            <= rest(p.bag, code),
    decreases depth, 0int, 14 - code,
{
    if code >= 14 {
        if bag_total(p.bag) > 0 {
            let t = bag_total(p.bag) as real;
            assert(0real / t == 0real) by (nonlinear_arith)
                requires
                    t > 0real,
            ;
        }
    } else {
        lemma_line_average_bounds(p, x, code + 1, depth, c, path, val);
        if bag_total(p.bag) > 0 {
            lemma_rest_step(p.bag, code);
            if p.bag[code] > 0 {
                lemma_line_values_bounded(after(p, x, code), depth - 1, c, path, val);
                let pr = probability(p.bag, code);
                let v = -line_value(after(p, x, code), depth - 1, c, path, val);
                assert(-pr <= pr * v <= pr) by (nonlinear_arith)
                    requires
                        pr > 0real,
                        -1real <= v <= 1real,
                ;
            }
        }
    }
}

pub proof fn lemma_line_best_of_is_largest<A: Arith>(
    p: Pos,
    mv: Seq<(u8, u8)>,
    i: int,
    depth: int,
    c: Params<A>,
    path: Seq<u64>,
    val: spec_fn(A) -> real,
)
    requires
        faithful(val),
        depth >= 1,
        0 <= i < mv.len(),
    ensures
        forall|j: int|
            i <= j < mv.len() ==> line_move(p, #[trigger] mv[j], depth, c, path, val) <= line_best(
                p,
                mv,
                i,
                depth,
                c,
                path,
                val,
            ),
        exists|j: int|
            i <= j < mv.len() && line_move(p, #[trigger] mv[j], depth, c, path, val) == line_best(
                p,
                mv,
                i,
                depth,
                c,
                path,
                val,
            ),
    decreases mv.len() - i,
{
    if i < mv.len() - 1 {
        lemma_line_best_of_is_largest(p, mv, i + 1, depth, c, path, val);
        let k = choose|j: int|
            i + 1 <= j < mv.len() && line_move(p, #[trigger] mv[j], depth, c, path, val)
                == line_best(p, mv, i + 1, depth, c, path, val);
        let best = line_best(p, mv, i, depth, c, path, val);
        assert(line_move(p, mv[i], depth, c, path, val) == best
            || line_move(p, mv[k], depth, c, path, val) == best);
    } else {
        let best = line_best(p, mv, i, depth, c, path, val);
        assert(line_move(p, mv[i], depth, c, path, val) == best);
    }
}

/// The best of the moves does not depend on their order.
pub proof fn lemma_line_order<A: Arith>(
    p: Pos,
    a: Seq<(u8, u8)>,
    b: Seq<(u8, u8)>,
    depth: int,
    c: Params<A>,
    path: Seq<u64>,
    val: spec_fn(A) -> real,
)
    requires
        faithful(val),
        depth >= 1,
        a.len() > 0,
        a.to_multiset() == b.to_multiset(),
    ensures
        line_best(p, a, 0, depth, c, path, val) == line_best(p, b, 0, depth, c, path, val),
{
    assert(b.len() > 0) by {
        lemma_same_moves(a, b, a[0]);
        assert(a.contains(a[0]));
    }
    lemma_line_best_of_is_largest(p, a, 0, depth, c, path, val);
    lemma_line_best_of_is_largest(p, b, 0, depth, c, path, val);
    let i = choose|j: int|
        0 <= j < a.len() && line_move(p, #[trigger] a[j], depth, c, path, val) == line_best(
            p,
            a,
            0,
            depth,
            c,
            path,
            val,
        );
    let j = choose|j: int|
        0 <= j < b.len() && line_move(p, #[trigger] b[j], depth, c, path, val) == line_best(
            p,
            b,
            0,
            depth,
            c,
            path,
            val,
        );
    assert(a.contains(a[i]));
    assert(b.contains(b[j]));
    lemma_same_moves(a, b, a[i]);
    lemma_same_moves(a, b, b[j]);
    let i2 = choose|k: int| 0 <= k < b.len() && b[k] == a[i];
    let j2 = choose|k: int| 0 <= k < a.len() && a[k] == b[j];
    assert(b[i2] == a[i]);
    assert(a[j2] == b[j]);
}

/// Alpha-beta search with Star1 bounds is correct with repetitions, too: where the path of a search
/// holds what has been seen, its result is, for its window, a correct answer about the value in
/// which positions that were seen are draws. The table and reductions are switched off.
pub proof fn law_pruning_is_exact_on_lines<A: Arith>(
    p: Pos,
    depth: int,
    alpha: A,
    beta: A,
    c: Params<A>,
    m: Mem<A>,
    path: Seq<u64>,
    val: spec_fn(A) -> real,
)
    requires
        faithful(val),
        bounded(c, val),
        no_shortcuts(c),
        m.path == path,
        val(alpha) < val(beta),
    ensures
        agrees(
            val(negamax(p, depth, alpha, beta, c, m).0),
            line_value(p, depth, c, path, val),
            val(alpha),
            val(beta),
        ),
        window(val(alpha), val(beta)) ==> -1real <= val(negamax(p, depth, alpha, beta, c, m).0)
            <= 1real,
    decreases depth, 3int, 0int,
{
    lemma_terminal_bounds(p, outcome(p), c, val);
    lemma_leaf_bounds(p, c, val);
    let m1 = ticked(m);
    if outcome(p) != RES_ONGOING {
    } else if depth <= 0 {
        if c.quiesce {
            lemma_quiesce_agrees(p, alpha, beta, c, m1, c.quiesce_max, val);
        }
    } else if c.feat.rep && path.contains(key_of(p)) {
        lemma_terminal_bounds(p, RES_DRAW as int, c, val);
    } else {
        let m2 = Mem { path: longer(p, c, path), ..m1 };
        let o = search_order(p, all_moves(p), depth, c, m1);
        let mv = promoted(o, None);
        assert(mv == o);
        lemma_search_order_keeps(p, all_moves(p), depth, c, m1);
        lemma_lengths_agree(o, all_moves(p));
        lemma_line_order(p, all_moves(p), mv, depth, c, longer(p, c, path), val);
        lemma_line_node_agrees(
            p,
            mv,
            0,
            depth,
            alpha,
            alpha,
            beta,
            A::lowest_of(),
            mv[0],
            val(A::lowest_of()),
            c,
            m2,
            longer(p, c, path),
            val,
        );
        lemma_line_best_of_bounds(p, mv, 0, depth, c, longer(p, c, path), val);
        assert(c.feat.rep ==> m2 == (Mem { path: m1.path.push(key_of(p)), ..m1 }));
        assert(!c.feat.rep ==> m2 == m1);
    }
}

/// The larger of `x` and the best of the moves from index `i` on, or `x` if there are none.
spec fn line_best_with<A: Arith>(
    x: real,
    p: Pos,
    mv: Seq<(u8, u8)>,
    i: int,
    depth: int,
    c: Params<A>,
    path: Seq<u64>,
    val: spec_fn(A) -> real,
) -> real {
    if i >= mv.len() {
        x
    } else {
        larger(x, line_best(p, mv, i, depth, c, path, val))
    }
}

proof fn lemma_line_node_agrees<A: Arith>(
    p: Pos,
    mv: Seq<(u8, u8)>,
    i: int,
    depth: int,
    alpha: A,
    a: A,
    beta: A,
    best: A,
    best_m: (u8, u8),
    x: real,
    c: Params<A>,
    m: Mem<A>,
    path: Seq<u64>,
    val: spec_fn(A) -> real,
)
    requires
        faithful(val),
        bounded(c, val),
        no_shortcuts(c),
        m.path == path,
        depth >= 1,
        0 <= i,
        val(alpha) < val(beta),
        val(a) < val(beta),
        i < mv.len() || i > 0,
        i == 0 ==> a == alpha && best == A::lowest_of() && x == val(best),
        i > 0 ==> {
            &&& val(a) == larger(val(alpha), val(best))
            &&& agrees(val(best), x, val(alpha), val(beta))
            &&& window(val(alpha), val(beta)) ==> -1real <= val(best) <= 1real
        },
    ensures
        ({
            let r = val(node_from(p, mv, i, depth, a, beta, best, best_m, c, m).0);
            &&& agrees(r, line_best_with(x, p, mv, i, depth, c, path, val), val(alpha), val(beta))
            &&& window(val(alpha), val(beta)) ==> -1real <= r <= 1real
        }),
    decreases depth, 2int, mv.len() - i,
{
    if i < mv.len() {
        let y = line_move(p, mv[i], depth, c, path, val);
        lemma_line_move_agrees(p, mv[i], depth, a, beta, c, m, path, val);
        let (v, m1) = node_move(p, mv[i], i, depth, a, beta, c, m);
        lemma_move_value_keeps(p, mv[i], depth, a, beta, c, m);
        if i > 0 {
            lemma_agree_larger(x, val(best), y, val(v), val(alpha), val(beta));
        } else {
            lemma_line_exact_move_bounds(p, mv[i], depth, c, path, val);
        }
        let best1 = if A::is_less(best, v) {
            v
        } else {
            best
        };
        let best_m1 = if A::is_less(best, v) {
            mv[i]
        } else {
            best_m
        };
        let a1 = if A::is_less(a, best1) {
            best1
        } else {
            a
        };
        assert(val(best1) == larger(val(best), val(v)));
        assert(line_best_with(x, p, mv, i, depth, c, path, val) == line_best_with(
            larger(x, y),
            p,
            mv,
            i + 1,
            depth,
            c,
            path,
            val,
        ));
        if !A::is_at_most(beta, a1) {
            lemma_line_node_agrees(
                p,
                mv,
                i + 1,
                depth,
                alpha,
                a1,
                beta,
                best1,
                best_m1,
                larger(x, y),
                c,
                m1,
                path,
                val,
            );
        }
    }
}

pub proof fn lemma_line_move_agrees<A: Arith>(
    p: Pos,
    x: (u8, u8),
    depth: int,
    alpha: A,
    beta: A,
    c: Params<A>,
    m: Mem<A>,
    path: Seq<u64>,
    val: spec_fn(A) -> real,
)
    requires
        faithful(val),
        bounded(c, val),
        no_shortcuts(c),
        m.path == path,
        depth >= 1,
        val(alpha) < val(beta),
    ensures
        ({
            let r = val(move_value(p, x, depth, alpha, beta, c, m).0);
            &&& agrees(r, line_move(p, x, depth, c, path, val), val(alpha), val(beta))
            &&& window(val(alpha), val(beta)) ==> -1real <= r <= 1real
        }),
    decreases depth, 1int, 0int,
{
    if x.0 == x.1 {
        lemma_whole(0, val);
        lemma_whole(1, val);
        let t = bag_total(p.bag) as real;
        if t > 0real {
            assert(t / t == 1real) by (nonlinear_arith)
                requires
                    t > 0real,
            ;
        }
        lemma_line_exact_move_bounds(p, x, depth, c, path, val);
        lemma_line_flip_agrees(p, x, 0, depth, alpha, beta, whole(0), whole(1), c, m, path, val);
    } else {
        let nb = A::negation_of(beta);
        let na = A::negation_of(alpha);
        law_pruning_is_exact_on_lines(after(p, x, 0), depth - 1, nb, na, c, m, path, val);
    }
}

proof fn lemma_line_flip_agrees<A: Arith>(
    p: Pos,
    x: (u8, u8),
    code: int,
    depth: int,
    alpha: A,
    beta: A,
    vsum: A,
    rem: A,
    c: Params<A>,
    m: Mem<A>,
    path: Seq<u64>,
    val: spec_fn(A) -> real,
)
    requires
        faithful(val),
        bounded(c, val),
        no_shortcuts(c),
        m.path == path,
        depth >= 1,
        0 <= code <= 14,
        val(alpha) < val(beta),
        bag_total(p.bag) > 0 ==> val(rem) == rest(p.bag, code),
        -1real <= val(vsum) + line_average(p, x, code, depth, c, path, val) <= 1real,
    ensures
        ({
            let r = val(flip_from(p, x, code, depth, alpha, beta, vsum, rem, c, m).0);
            &&& agrees(
                r,
                val(vsum) + line_average(p, x, code, depth, c, path, val),
                val(alpha),
                val(beta),
            )
            &&& window(val(alpha), val(beta)) ==> -1real <= r <= 1real
        }),
    decreases depth, 0int, 14 - code,
{
    if code >= 14 {
    } else if p.bag[code] == 0 {
        if bag_total(p.bag) > 0 {
            lemma_rest_step(p.bag, code);
        }
        lemma_line_flip_agrees(p, x, code + 1, depth, alpha, beta, vsum, rem, c, m, path, val);
    } else {
        lemma_some_tiles(p.bag, code);
        lemma_rest_step(p.bag, code);
        lemma_line_average_bounds(p, x, code + 1, depth, c, path, val);
        let child = after(p, x, code);
        lemma_line_values_bounded(child, depth - 1, c, path, val);
        let pr = chance::<A>(p.bag, code);
        lemma_chance(p.bag, code, val);
        lemma_whole(0, val);
        lemma_whole(1, val);
        lemma_whole(-1, val);
        let rem1 = chance_left(rem, pr);
        let ai = star1_bound(alpha, vsum, rem1, vmax(), pr);
        let bi = star1_bound(beta, vsum, rem1, vmin(), pr);
        let y = -line_value(child, depth - 1, c, path, val);
        let tail = line_average(p, x, code + 1, depth, c, path, val);
        assert(val(rem1) == rest(p.bag, code + 1));
        lemma_star1(
            val(alpha),
            val(beta),
            val(vsum),
            val(rem1),
            val(pr),
            y,
            tail,
            val(ai),
            val(bi),
        );
        if val(ai) < 1real && val(bi) > -1real {
            let cl = if -1real < val(ai) {
                ai
            } else {
                vmin()
            };
            let cu = if val(bi) < 1real {
                bi
            } else {
                vmax()
            };
            let lo = A::negation_of(cu);
            let hi = A::negation_of(cl);
            law_pruning_is_exact_on_lines(child, depth - 1, lo, hi, c, m, path, val);
            let (w, m1) = negamax(child, depth - 1, lo, hi, c, m);
            law_search_keeps(child, depth - 1, lo, hi, c, m);
            let v = A::negation_of(w);
            assert(agrees(val(v), y, val(cl), val(cu)));
            if !(val(v) <= val(ai)) && !(val(bi) <= val(v)) {
                assert(val(v) == y);
                let sum = A::sum_of(vsum, A::product_of(pr, v));
                lemma_line_flip_agrees(
                    p,
                    x,
                    code + 1,
                    depth,
                    alpha,
                    beta,
                    sum,
                    rem1,
                    c,
                    m1,
                    path,
                    val,
                );
            }
        }
    }
}

pub proof fn lemma_wide_line<A: Arith>(
    p: Pos,
    depth: int,
    c: Params<A>,
    m: Mem<A>,
    val: spec_fn(A) -> real,
)
    requires
        faithful(val),
        bounded(c, val),
        no_shortcuts(c),
    ensures
        val(wide_negamax(p, depth, c, m)) == line_value(p, depth, c, m.path, val),
{
    lemma_whole(2, val);
    lemma_whole(-2, val);
    law_pruning_is_exact_on_lines(p, depth, whole(-2), whole(2), c, m, m.path, val);
    lemma_line_values_bounded(p, depth, c, m.path, val);
}

proof fn lemma_line_flips<A: Arith>(
    p: Pos,
    x: (u8, u8),
    code: int,
    depth: int,
    c: Params<A>,
    path: Seq<u64>,
    f: spec_fn(Pos) -> real,
    val: spec_fn(A) -> real,
)
    requires
        depth >= 1,
        forall|q: Pos| #[trigger] f(q) == line_value(q, depth - 1, c, path, val),
    ensures
        line_average(p, x, code, depth, c, path, val) == flip_average(p, x, code, f),
    decreases 14 - code,
{
    if code < 14 {
        lemma_line_flips(p, x, code + 1, depth, c, path, f, val);
    }
}

/// The search of a position, in the widest window, where repetitions count. A finished game is
/// worth its result, and the horizon is as without repetitions. A position on the path is worth a
/// draw. Any other is worth the most that its moves are, each searched with the position on the
/// path.
pub proof fn law_search_with_repetitions<A: Arith>(
    p: Pos,
    depth: int,
    c: Params<A>,
    m: Mem<A>,
    child_m: Mem<A>,
    val: spec_fn(A) -> real,
)
    requires
        faithful(val),
        bounded(c, val),
        wf(p),
        c.feat.rep,
        !c.feat.tt,
        !c.feat.lmr,
        child_m.path == m.path.push(key_of(p)),
    ensures
        ({
            let v = val(wide_negamax(p, depth, c, m));
            let f = |q: Pos| val(wide_negamax(q, depth - 1, c, child_m));
            if outcome(p) != 3 {
                v == val(terminal_value(p, outcome(p), c))
            } else if depth <= 0 && c.quiesce {
                v == val(wide_quiesce(p, c, m, c.quiesce_max))
            } else if depth <= 0 {
                v == val(evaluation(p, mover(p), c.w_mob, c.w_king, c.values, c.feat))
            } else if m.path.contains(key_of(p)) {
                v == val(terminal_value(p, 2, c))
            } else {
                &&& forall|x: (u8, u8)| #[trigger] may_move(p, x) ==> move_worth(p, x, f) <= v
                &&& exists|x: (u8, u8)| #[trigger] may_move(p, x) && move_worth(p, x, f) == v
            }
        }),
{
    lemma_wide_line(p, depth, c, m, val);
    let v = val(wide_negamax(p, depth, c, m));
    if outcome(p) == 3 && depth <= 0 && c.quiesce {
        lemma_whole(2, val);
        lemma_whole(-2, val);
        lemma_calm_bounds(p, c, c.quiesce_max, val);
        lemma_quiesce_agrees(p, whole(-2), whole(2), c, m, c.quiesce_max, val);
    }
    if outcome(p) == 3 && depth >= 1 && !m.path.contains(key_of(p)) {
        let mv = all_moves(p);
        let path = child_m.path;
        let f = |q: Pos| val(wide_negamax(q, depth - 1, c, child_m));
        assert forall|q: Pos| #[trigger] f(q) == line_value(q, depth - 1, c, path, val) by {
            lemma_wide_line(q, depth - 1, c, child_m, val);
        }
        assert forall|x: (u8, u8)| #[trigger] move_worth(p, x, f) == line_move(
            p,
            x,
            depth,
            c,
            path,
            val,
        ) by {
            lemma_line_flips(p, x, 0, depth, c, path, f, val);
        }
        lemma_line_best_of_is_largest(p, mv, 0, depth, c, path, val);
        assert forall|x: (u8, u8)| #[trigger] may_move(p, x) implies move_worth(p, x, f) <= v by {
            law_moves_on_squares(p, x);
            let i = choose|i: int| 0 <= i < mv.len() && mv[i] == x;
            assert(line_move(p, mv[i], depth, c, path, val) <= v);
        }
        let k = choose|j: int|
            0 <= j < mv.len() && line_move(p, #[trigger] mv[j], depth, c, path, val) == line_best(
                p,
                mv,
                0,
                depth,
                c,
                path,
                val,
            );
        assert(mv.contains(mv[k]));
        law_moves_on_squares(p, mv[k]);
        assert(may_move(p, mv[k]) && move_worth(p, mv[k], f) == v);
    }
}

} // verus!
