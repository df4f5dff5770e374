//! That pruning changes nothing.
//!
//! The value of a position is defined here without windows, bounds or memory: the best move of
//! the player to move, the average over the outcomes of a flip. In numbers that are faithful to
//! the real ones, alpha-beta search with Star1 bounds returns that value whenever it lies inside
//! the window, and otherwise a bound of it outside the window.
use vstd::prelude::*;

use crate::arith::{faithful, whole, Arith};
use crate::board::{after, all_moves, bag_total, outcome, tiles, Pos, RES_ONGOING};
use crate::engine::{bare_params, bare_search, lemma_search_order_keeps};
use crate::model::{
    best_captures, chance, chance_left, flip_from, leaf_value, move_value, negamax, node_from,
    node_move, quiesce, quiesce_from, search_order, star1_bound, terminal_value, ticked, tt_entry,
    tt_hit, tt_stored, vmax, vmin, Mem, Params,
};
use crate::order::{lemma_same_moves, promoted};
use crate::search::{fresh, killer_slots};

verus! {

// ---------------------------------------------------------------- values without pruning

pub open spec fn larger(a: real, b: real) -> real {
    if a < b {
        b
    } else {
        a
    }
}

/// The value of `p` where only captures are searched, at most `q` plies deep, and the player
/// to move may always stand.
pub open spec fn calm_value<A: Arith>(p: Pos, c: Params<A>, q: int, val: spec_fn(A) -> real) -> real
    decreases q, 1int, 0int,
{
    if outcome(p) != RES_ONGOING {
        val(terminal_value(p, outcome(p), c))
    } else if q <= 0 {
        val(leaf_value(p, c))
    } else {
        calm_best(p, best_captures(p), 0, c, q, val)
    }
}

/// The evaluation, or the best of the captures from index `i` on.
pub open spec fn calm_best<A: Arith>(
    p: Pos,
    caps: Seq<(i32, (u8, u8))>,
    i: int,
    c: Params<A>,
    q: int,
    val: spec_fn(A) -> real,
) -> real
    decreases q, 0int, caps.len() - i,
    when q >= 1
{
    if i >= caps.len() {
        val(leaf_value(p, c))
    } else {
        larger(
            calm_best(p, caps, i + 1, c, q, val),
            -calm_value(after(p, caps[i].1, 0), c, q - 1, val),
        )
    }
}

/// The value of `p` for the player to move, `depth` plies deep.
pub open spec fn expectimax<A: Arith>(
    p: Pos,
    depth: int,
    c: Params<A>,
    val: spec_fn(A) -> real,
) -> real
    decreases depth, 3int, 0int,
{
    if outcome(p) != RES_ONGOING {
        val(terminal_value(p, outcome(p), c))
    } else if depth <= 0 {
        if c.quiesce {
            calm_value(p, c, c.quiesce_max, val)
        } else {
            val(leaf_value(p, c))
        }
    } else {
        best_of(p, all_moves(p), 0, depth, c, val)
    }
}

/// The best of the moves from index `i` on.
pub open spec fn best_of<A: Arith>(
    p: Pos,
    mv: Seq<(u8, u8)>,
    i: int,
    depth: int,
    c: Params<A>,
    val: spec_fn(A) -> real,
) -> real
    decreases depth, 2int, mv.len() - i,
    when depth >= 1
{
    if i >= mv.len() - 1 {
        exact_move(p, mv[i], depth, c, val)
    } else {
        larger(exact_move(p, mv[i], depth, c, val), best_of(p, mv, i + 1, depth, c, val))
    }
}

/// The value of a move: of a flip the average over what it turns up.
pub open spec fn exact_move<A: Arith>(
    p: Pos,
    x: (u8, u8),
    depth: int,
    c: Params<A>,
    val: spec_fn(A) -> real,
) -> real
    decreases depth, 1int, 0int,
    when depth >= 1
{
    if x.0 == x.1 {
        average(p, x, 0, depth, c, val)
    } else {
        -expectimax(after(p, x, 0), depth - 1, c, val)
    }
}

/// The share of the outcomes from `code` on in the average.
pub open spec fn average<A: Arith>(
    p: Pos,
    x: (u8, u8),
    code: int,
    depth: int,
    c: Params<A>,
    val: spec_fn(A) -> real,
) -> real
    decreases depth, 0int, 14 - code,
    when depth >= 1
{
    if code >= 14 {
        0real
    } else if p.bag[code] == 0 {
        average(p, x, code + 1, depth, c, val)
    } else {
        probability(p.bag, code) * -expectimax(after(p, x, code), depth - 1, c, val) + average(
            p,
            x,
            code + 1,
            depth,
            c,
            val,
        )
    }
}

/// The chance that a flip turns up `code`.
pub open spec fn probability(bag: Seq<u32>, code: int) -> real {
    (bag[code] as real) / (bag_total(bag) as real)
}

/// The chance that a flip turns up a code from `code` on.
pub open spec fn rest(bag: Seq<u32>, code: int) -> real {
    ((bag_total(bag) - tiles(bag, 0, code)) as real) / (bag_total(bag) as real)
}

// ---------------------------------------------------------------- bounds

/// Parameters under which every value lies between -1 and 1.
pub open spec fn bounded<A: Arith>(c: Params<A>, val: spec_fn(A) -> real) -> bool {
    -1real <= val(c.contempt) <= 1real
}

pub proof fn lemma_whole<A: Arith>(n: int, val: spec_fn(A) -> real)
    requires
        faithful(val),
        i64::MIN <= n <= i64::MAX,
    ensures
        val(whole::<A>(n)) == n as real,
{
    let x = n as real;
    assert(x / 1real == x) by (nonlinear_arith);
    assert((1i64 as real) == 1real);
    assert(((n as i64) as real) == x);
}

pub proof fn lemma_terminal_bounds<A: Arith>(
    p: Pos,
    res: int,
    c: Params<A>,
    val: spec_fn(A) -> real,
)
    requires
        faithful(val),
        bounded(c, val),
    ensures
        -1real <= val(terminal_value(p, res, c)) <= 1real,
{
    lemma_whole(0, val);
    lemma_whole(1, val);
    lemma_whole(-1, val);
}

pub proof fn lemma_leaf_bounds<A: Arith>(p: Pos, c: Params<A>, val: spec_fn(A) -> real)
    requires
        faithful(val),
    ensures
        -1real <= val(leaf_value(p, c)) <= 1real,
{
    lemma_whole(0, val);
}

pub proof fn lemma_calm_bounds<A: Arith>(p: Pos, c: Params<A>, q: int, val: spec_fn(A) -> real)
    requires
        faithful(val),
        bounded(c, val),
    ensures
        -1real <= calm_value(p, c, q, val) <= 1real,
    decreases q, 1int, 0int,
{
    if outcome(p) != RES_ONGOING {
        lemma_terminal_bounds(p, outcome(p), c, val);
    } else if q <= 0 {
        lemma_leaf_bounds(p, c, val);
    } else {
        lemma_calm_best_bounds(p, best_captures(p), 0, c, q, val);
    }
}

proof fn lemma_calm_best_bounds<A: Arith>(
    p: Pos,
    caps: Seq<(i32, (u8, u8))>,
    i: int,
    c: Params<A>,
    q: int,
    val: spec_fn(A) -> real,
)
    requires
        faithful(val),
        bounded(c, val),
        q >= 1,
    ensures
        -1real <= calm_best(p, caps, i, c, q, val) <= 1real,
    decreases q, 0int, caps.len() - i,
{
    lemma_leaf_bounds(p, c, val);
    if i < caps.len() {
        lemma_calm_best_bounds(p, caps, i + 1, c, q, val);
        lemma_calm_bounds(after(p, caps[i].1, 0), c, q - 1, val);
    }
}

/// Every value lies between -1 and 1.
pub proof fn law_values_bounded<A: Arith>(p: Pos, depth: int, c: Params<A>, val: spec_fn(A) -> real)
    requires
        faithful(val),
        bounded(c, val),
    ensures
        -1real <= expectimax(p, depth, c, val) <= 1real,
    decreases depth, 3int, 0int,
{
    if outcome(p) != RES_ONGOING {
        lemma_terminal_bounds(p, outcome(p), c, val);
    } else if depth <= 0 {
        lemma_calm_bounds(p, c, c.quiesce_max, val);
        lemma_leaf_bounds(p, c, val);
    } else {
        lemma_best_of_bounds(p, all_moves(p), 0, depth, c, val);
    }
}

proof fn lemma_best_of_bounds<A: Arith>(
    p: Pos,
    mv: Seq<(u8, u8)>,
    i: int,
    depth: int,
    c: Params<A>,
    val: spec_fn(A) -> real,
)
    requires
        faithful(val),
        bounded(c, val),
        depth >= 1,
    ensures
        -1real <= best_of(p, mv, i, depth, c, val) <= 1real,
    decreases depth, 2int, mv.len() - i,
{
    lemma_exact_move_bounds(p, mv[i], depth, c, val);
    if i < mv.len() - 1 {
        lemma_best_of_bounds(p, mv, i + 1, depth, c, val);
    }
}

pub proof fn lemma_exact_move_bounds<A: Arith>(
    p: Pos,
    x: (u8, u8),
    depth: int,
    c: Params<A>,
    val: spec_fn(A) -> real,
)
    requires
        faithful(val),
        bounded(c, val),
        depth >= 1,
    ensures
        -1real <= exact_move(p, x, depth, c, val) <= 1real,
    decreases depth, 1int, 0int,
{
    if x.0 == x.1 {
        lemma_average_bounds(p, x, 0, depth, c, val);
        let t = bag_total(p.bag) as real;
        if t > 0real {
            assert(t / t == 1real) by (nonlinear_arith)
                requires
                    t > 0real,
            ;
        } else {
            lemma_empty_bag(p.bag);
            lemma_average_of_nothing(p, x, 0, depth, c, val);
        }
    } else {
        law_values_bounded(after(p, x, 0), depth - 1, c, val);
    }
}

proof fn lemma_tiles_grow(bag: Seq<u32>, k: int, n: int)
    requires
        0 <= k <= n,
    ensures
        tiles(bag, 0, k) <= tiles(bag, 0, n),
    decreases n,
{
    if k < n {
        lemma_tiles_grow(bag, k, n - 1);
    }
}

pub proof fn lemma_empty_bag(bag: Seq<u32>)
    requires
        bag_total(bag) == 0,
    ensures
        forall|k: int| 0 <= k < 14 ==> #[trigger] bag[k] == 0,
{
    assert forall|k: int| 0 <= k < 14 implies #[trigger] bag[k] == 0 by {
        lemma_tiles_grow(bag, k + 1, 14);
        assert(tiles(bag, 0, k + 1) == tiles(bag, 0, k) + bag[k] as nat);
    }
}

proof fn lemma_average_of_nothing<A: Arith>(
    p: Pos,
    x: (u8, u8),
    code: int,
    depth: int,
    c: Params<A>,
    val: spec_fn(A) -> real,
)
    requires
        faithful(val),
        depth >= 1,
        0 <= code,
        forall|k: int| 0 <= k < 14 ==> #[trigger] p.bag[k] == 0,
    ensures
        average(p, x, code, depth, c, val) == 0real,
    decreases 14 - code,
{
    if code < 14 {
        lemma_average_of_nothing(p, x, code + 1, depth, c, val);
    }
}

pub proof fn lemma_rest_step(bag: Seq<u32>, code: int)
    requires
        0 <= code < 14,
        bag_total(bag) > 0,
    ensures
        rest(bag, code) == probability(bag, code) + rest(bag, code + 1),
        probability(bag, code) >= 0real,
        bag[code] > 0 ==> probability(bag, code) > 0real,
        rest(bag, code + 1) >= 0real,
        bag[code] == 0 ==> probability(bag, code) == 0real,
{
    lemma_tiles_grow(bag, code + 1, 14);
    let t = bag_total(bag) as real;
    let b = bag[code] as real;
    let s = (bag_total(bag) - tiles(bag, 0, code + 1)) as real;
    assert(tiles(bag, 0, code + 1) == tiles(bag, 0, code) + bag[code] as nat);
    assert((b + s) / t == b / t + s / t && b / t >= 0real && s / t >= 0real && (b > 0real ==> b / t
        > 0real) && (b == 0real ==> b / t == 0real)) by (nonlinear_arith)
        requires
            t > 0real,
            b >= 0real,
            s >= 0real,
    ;
}

proof fn lemma_average_bounds<A: Arith>(
    p: Pos,
    x: (u8, u8),
    code: int,
    depth: int,
    c: Params<A>,
    val: spec_fn(A) -> real,
)
    requires
        faithful(val),
        bounded(c, val),
        depth >= 1,
        0 <= code <= 14,
    ensures
        bag_total(p.bag) > 0 ==> -rest(p.bag, code) <= average(p, x, code, depth, c, val) <= rest(
            p.bag,
            code,
        ),
    decreases depth, 0int, 14 - code,
{
    if code >= 14 {
        if bag_total(p.bag) > 0 {
            let t = bag_total(p.bag) as real;
            assert(0real / t == 0real) by (nonlinear_arith)
                requires
                    t > 0real,
            ;
        }
    } else {
        lemma_average_bounds(p, x, code + 1, depth, c, val);
        if bag_total(p.bag) > 0 {
            lemma_rest_step(p.bag, code);
            if p.bag[code] > 0 {
                law_values_bounded(after(p, x, code), depth - 1, c, val);
                let pr = probability(p.bag, code);
                let v = -expectimax(after(p, x, code), depth - 1, c, val);
                assert(-pr <= pr * v <= pr) by (nonlinear_arith)
                    requires
                        pr > 0real,
                        -1real <= v <= 1real,
                ;
            }
        }
    }
}

// ---------------------------------------------------------------- agreement

/// `r` is a correct answer about `v` for a window: inside the window it is `v`, at or below the
/// window it is an upper bound of `v`, and at or above the window a lower bound.
pub open spec fn agrees(r: real, v: real, alpha: real, beta: real) -> bool {
    &&& r <= alpha ==> v <= r
    &&& r >= beta ==> v >= r
    &&& alpha < r < beta ==> r == v
}

/// A window that does not lie beyond the values.
pub open spec fn window(alpha: real, beta: real) -> bool {
    alpha <= 1real && -1real <= beta
}

/// The best answer so far and a new one together agree with the larger of what they are about.
pub proof fn lemma_agree_larger(x: real, best: real, y: real, v: real, alpha: real, beta: real)
    requires
        alpha < beta,
        agrees(best, x, alpha, beta),
        larger(alpha, best) < beta,
        agrees(v, y, larger(alpha, best), beta),
    ensures
        agrees(larger(best, v), larger(x, y), alpha, beta),
{
}

pub proof fn lemma_quiesce_agrees<A: Arith>(
    p: Pos,
    alpha: A,
    beta: A,
    c: Params<A>,
    m: Mem<A>,
    q: int,
    val: spec_fn(A) -> real,
)
    requires
        faithful(val),
        bounded(c, val),
        val(alpha) < val(beta),
    ensures
        agrees(
            val(quiesce(p, alpha, beta, c, m, q).0),
            calm_value(p, c, q, val),
            val(alpha),
            val(beta),
        ),
        -1real <= val(quiesce(p, alpha, beta, c, m, q).0) <= 1real,
    decreases q, 1int, 0int,
{
    lemma_terminal_bounds(p, outcome(p), c, val);
    lemma_leaf_bounds(p, c, val);
    let stand = leaf_value(p, c);
    if outcome(p) != RES_ONGOING || q <= 0 {
    } else {
        lemma_calm_stands(p, best_captures(p), 0, c, q, val);
        if !(val(beta) <= val(stand)) {
            let a = if val(alpha) < val(stand) {
                stand
            } else {
                alpha
            };
            lemma_quiesce_from_agrees(
                p,
                best_captures(p),
                0,
                alpha,
                a,
                beta,
                stand,
                val(stand),
                c,
                ticked(m),
                q,
                val,
            );
        }
    }
}

proof fn lemma_calm_stands<A: Arith>(
    p: Pos,
    caps: Seq<(i32, (u8, u8))>,
    i: int,
    c: Params<A>,
    q: int,
    val: spec_fn(A) -> real,
)
    requires
        faithful(val),
        q >= 1,
    ensures
        val(leaf_value(p, c)) <= calm_best(p, caps, i, c, q, val),
    decreases caps.len() - i,
{
    if i < caps.len() {
        lemma_calm_stands(p, caps, i + 1, c, q, val);
    }
}

proof fn lemma_quiesce_from_agrees<A: Arith>(
    p: Pos,
    caps: Seq<(i32, (u8, u8))>,
    i: int,
    alpha: A,
    a: A,
    beta: A,
    best: A,
    x: real,
    c: Params<A>,
    m: Mem<A>,
    q: int,
    val: spec_fn(A) -> real,
)
    requires
        faithful(val),
        bounded(c, val),
        q >= 1,
        val(alpha) < val(beta),
        val(a) == larger(val(alpha), val(best)),
        val(a) < val(beta),
        val(leaf_value(p, c)) <= x,
        -1real <= val(best) <= 1real,
        agrees(val(best), x, val(alpha), val(beta)),
    ensures
        ({
            let r = val(quiesce_from(p, caps, i, a, beta, best, c, m, q).0);
            &&& agrees(r, larger(x, calm_best(p, caps, i, c, q, val)), val(alpha), val(beta))
            &&& -1real <= r <= 1real
        }),
    decreases q, 0int, caps.len() - i,
{
    if i < caps.len() {
        let child = after(p, caps[i].1, 0);
        let nb = A::negation_of(beta);
        let na = A::negation_of(a);
        lemma_quiesce_agrees(child, nb, na, c, m, q - 1, val);
        let (w, m1) = quiesce(child, nb, na, c, m, q - 1);
        let v = A::negation_of(w);
        let y = -calm_value(child, c, q - 1, val);
        assert(agrees(val(v), y, val(a), val(beta)));
        lemma_agree_larger(x, val(best), y, val(v), val(alpha), val(beta));
        let best1 = if A::is_less(best, v) {
            v
        } else {
            best
        };
        let a1 = if A::is_less(a, best1) {
            best1
        } else {
            a
        };
        assert(val(best1) == larger(val(best), val(v)));
        if !A::is_at_most(beta, a1) {
            lemma_quiesce_from_agrees(
                p,
                caps,
                i + 1,
                alpha,
                a1,
                beta,
                best1,
                larger(x, y),
                c,
                m1,
                q,
                val,
            );
        }
    }
}

// ---------------------------------------------------------------- the order of moves

pub proof fn lemma_best_of_is_largest<A: Arith>(
    p: Pos,
    mv: Seq<(u8, u8)>,
    i: int,
    depth: int,
    c: Params<A>,
    val: spec_fn(A) -> real,
)
    requires
        faithful(val),
        depth >= 1,
        0 <= i < mv.len(),
    ensures
        forall|j: int|
            i <= j < mv.len() ==> exact_move(p, #[trigger] mv[j], depth, c, val) <= best_of(
                p,
                mv,
                i,
                depth,
                c,
                val,
            ),
        exists|j: int|
            i <= j < mv.len() && exact_move(p, #[trigger] mv[j], depth, c, val) == best_of(
                p,
                mv,
                i,
                depth,
                c,
                val,
            ),
    decreases mv.len() - i,
{
    if i < mv.len() - 1 {
        lemma_best_of_is_largest(p, mv, i + 1, depth, c, val);
        let k = choose|j: int|
            i + 1 <= j < mv.len() && exact_move(p, #[trigger] mv[j], depth, c, val) == best_of(
                p,
                mv,
                i + 1,
                depth,
                c,
                val,
            );
        let best = best_of(p, mv, i, depth, c, val);
        assert(exact_move(p, mv[i], depth, c, val) == best || exact_move(p, mv[k], depth, c, val)
            == best);
    } else {
        assert(exact_move(p, mv[i], depth, c, val) == best_of(p, mv, i, depth, c, val));
    }
}

/// The best of the moves does not depend on their order.
pub proof fn law_order_is_irrelevant<A: Arith>(
    p: Pos,
    a: Seq<(u8, u8)>,
    b: Seq<(u8, u8)>,
    depth: int,
    c: Params<A>,
    val: spec_fn(A) -> real,
)
    requires
        faithful(val),
        depth >= 1,
        a.len() > 0,
        a.to_multiset() == b.to_multiset(),
    ensures
        best_of(p, a, 0, depth, c, val) == best_of(p, b, 0, depth, c, val),
{
    assert(b.len() > 0) by {
        lemma_same_moves(a, b, a[0]);
        assert(a.contains(a[0]));
    }
    lemma_best_of_is_largest(p, a, 0, depth, c, val);
    lemma_best_of_is_largest(p, b, 0, depth, c, val);
    let i = choose|j: int|
        0 <= j < a.len() && exact_move(p, #[trigger] a[j], depth, c, val) == best_of(
            p,
            a,
            0,
            depth,
            c,
            val,
        );
    let j = choose|j: int|
        0 <= j < b.len() && exact_move(p, #[trigger] b[j], depth, c, val) == best_of(
            p,
            b,
            0,
            depth,
            c,
            val,
        );
    assert(a.contains(a[i]));
    assert(b.contains(b[j]));
    lemma_same_moves(a, b, a[i]);
    lemma_same_moves(a, b, b[j]);
    let i2 = choose|k: int| 0 <= k < b.len() && b[k] == a[i];
    let j2 = choose|k: int| 0 <= k < a.len() && a[k] == b[j];
    assert(b[i2] == a[i]);
    assert(a[j2] == b[j]);
}

// ---------------------------------------------------------------- decision and chance nodes

/// Switches under which pruning is exact: no table, no repetitions, no reductions. The order of
/// the moves may be any.
pub open spec fn exact_feat<A: Arith>(c: Params<A>) -> bool {
    !c.feat.tt && !c.feat.rep && !c.feat.lmr
}

/// Alpha-beta search with Star1 bounds is correct: in faithful numbers a result inside the
/// window is the value without pruning, a result at or below it is an upper bound of that value,
/// and a result at or above it a lower bound; and it stays between -1 and 1 where the window does
/// not lie beyond. This holds for every window and every order of the moves, for the search of
/// captures at the horizon, and for any contempt between -1 and 1, where the transposition table,
/// repetitions and reductions are switched off.
pub proof fn law_pruning_is_exact<A: Arith>(
    p: Pos,
    depth: int,
    alpha: A,
    beta: A,
    c: Params<A>,
    m: Mem<A>,
    val: spec_fn(A) -> real,
)
    requires
        faithful(val),
        bounded(c, val),
        exact_feat(c),
        val(alpha) < val(beta),
    ensures
        agrees(
            val(negamax(p, depth, alpha, beta, c, m).0),
            expectimax(p, depth, c, val),
            val(alpha),
            val(beta),
        ),
        window(val(alpha), val(beta)) ==> -1real <= val(negamax(p, depth, alpha, beta, c, m).0)
            <= 1real,
    decreases depth, 3int, 0int,
{
    lemma_terminal_bounds(p, outcome(p), c, val);
    lemma_leaf_bounds(p, c, val);
    let m1 = ticked(m);
    if outcome(p) != RES_ONGOING {
    } else if depth <= 0 {
        if c.quiesce {
            lemma_quiesce_agrees(p, alpha, beta, c, m1, c.quiesce_max, val);
        }
    } else {
        let o = search_order(p, all_moves(p), depth, c, m1);
        let mv = promoted(o, None);
        assert(mv == o);
        lemma_search_order_keeps(p, all_moves(p), depth, c, m1);
        lemma_lengths_agree(o, all_moves(p));
        law_order_is_irrelevant(p, all_moves(p), mv, depth, c, val);
        lemma_node_agrees(
            p,
            mv,
            0,
            depth,
            alpha,
            alpha,
            beta,
            A::lowest_of(),
            mv[0],
            val(A::lowest_of()),
            c,
            m1,
            val,
        );
        lemma_best_of_bounds(p, mv, 0, depth, c, val);
    }
}

pub proof fn lemma_lengths_agree(a: Seq<(u8, u8)>, b: Seq<(u8, u8)>)
    requires
        a.to_multiset() == b.to_multiset(),
    ensures
        a.len() == b.len(),
{
    broadcast use vstd::seq_lib::group_to_multiset_ensures;

    assert(a.to_multiset().len() == a.len());
    assert(b.to_multiset().len() == b.len());
}

/// The larger of `x` and the best of the moves from index `i` on, or `x` if there are none.
spec fn best_with<A: Arith>(
    x: real,
    p: Pos,
    mv: Seq<(u8, u8)>,
    i: int,
    depth: int,
    c: Params<A>,
    val: spec_fn(A) -> real,
) -> real {
    if i >= mv.len() {
        x
    } else {
        larger(x, best_of(p, mv, i, depth, c, val))
    }
}

proof fn lemma_node_agrees<A: Arith>(
    p: Pos,
    mv: Seq<(u8, u8)>,
    i: int,
    depth: int,
    alpha: A,
    a: A,
    beta: A,
    best: A,
    best_m: (u8, u8),
    x: real,
    c: Params<A>,
    m: Mem<A>,
    val: spec_fn(A) -> real,
)
    requires
        faithful(val),
        bounded(c, val),
        exact_feat(c),
        depth >= 1,
        0 <= i,
        val(alpha) < val(beta),
        val(a) < val(beta),
        i < mv.len() || i > 0,
        i == 0 ==> a == alpha && best == A::lowest_of() && x == val(best),
        i > 0 ==> {
            &&& val(a) == larger(val(alpha), val(best))
            &&& agrees(val(best), x, val(alpha), val(beta))
            &&& window(val(alpha), val(beta)) ==> -1real <= val(best) <= 1real
        },
    ensures
        ({
            let r = val(node_from(p, mv, i, depth, a, beta, best, best_m, c, m).0);
            &&& agrees(r, best_with(x, p, mv, i, depth, c, val), val(alpha), val(beta))
            &&& window(val(alpha), val(beta)) ==> -1real <= r <= 1real
        }),
    decreases depth, 2int, mv.len() - i,
{
    if i < mv.len() {
        let y = exact_move(p, mv[i], depth, c, val);
        lemma_move_agrees(p, mv[i], depth, a, beta, c, m, val);
        let (v, m1) = node_move(p, mv[i], i, depth, a, beta, c, m);
        if i > 0 {
            lemma_agree_larger(x, val(best), y, val(v), val(alpha), val(beta));
        } else {
            lemma_exact_move_bounds(p, mv[i], depth, c, val);
        }
        let best1 = if A::is_less(best, v) {
            v
        } else {
            best
        };
        let best_m1 = if A::is_less(best, v) {
            mv[i]
        } else {
            best_m
        };
        let a1 = if A::is_less(a, best1) {
            best1
        } else {
            a
        };
        assert(val(best1) == larger(val(best), val(v)));
        assert(best_with(x, p, mv, i, depth, c, val) == best_with(
            larger(x, y),
            p,
            mv,
            i + 1,
            depth,
            c,
            val,
        ));
        if !A::is_at_most(beta, a1) {
            lemma_node_agrees(
                p,
                mv,
                i + 1,
                depth,
                alpha,
                a1,
                beta,
                best1,
                best_m1,
                larger(x, y),
                c,
                m1,
                val,
            );
        }
    }
}

pub proof fn lemma_move_agrees<A: Arith>(
    p: Pos,
    x: (u8, u8),
    depth: int,
    alpha: A,
    beta: A,
    c: Params<A>,
    m: Mem<A>,
    val: spec_fn(A) -> real,
)
    requires
        faithful(val),
        bounded(c, val),
        exact_feat(c),
        depth >= 1,
        val(alpha) < val(beta),
    ensures
        ({
            let r = val(move_value(p, x, depth, alpha, beta, c, m).0);
            &&& agrees(r, exact_move(p, x, depth, c, val), val(alpha), val(beta))
            &&& window(val(alpha), val(beta)) ==> -1real <= r <= 1real
        }),
    decreases depth, 1int, 0int,
{
    if x.0 == x.1 {
        lemma_whole(0, val);
        lemma_whole(1, val);
        let t = bag_total(p.bag) as real;
        if t > 0real {
            assert(t / t == 1real) by (nonlinear_arith)
                requires
                    t > 0real,
            ;
        }
        lemma_exact_move_bounds(p, x, depth, c, val);
        lemma_flip_agrees(p, x, 0, depth, alpha, beta, whole(0), whole(1), c, m, val);
    } else {
        let nb = A::negation_of(beta);
        let na = A::negation_of(alpha);
        law_pruning_is_exact(after(p, x, 0), depth - 1, nb, na, c, m, val);
    }
}

/// One outcome of a flip: what the bounds say of the average.
pub proof fn lemma_star1(
    alpha: real,
    beta: real,
    vsum: real,
    rem: real,
    pr: real,
    v: real,
    tail: real,
    ai: real,
    bi: real,
)
    requires
        pr > 0real,
        rem >= 0real,
        alpha < beta,
        -1real <= v <= 1real,
        -rem <= tail <= rem,
        ai == (alpha - vsum - rem * 1real) / pr,
        bi == (beta - vsum - rem * -1real) / pr,
    ensures
        ai < bi,
        ai >= 1real ==> vsum + pr * v + tail <= alpha,
        bi <= -1real ==> vsum + pr * v + tail >= beta,
        v <= ai ==> vsum + pr * v + tail <= alpha,
        v >= bi ==> vsum + pr * v + tail >= beta,
{
    let na = alpha - vsum - rem;
    let nb = beta - vsum + rem;
    assert(rem * 1real == rem) by (nonlinear_arith);
    assert(rem * -1real == -rem) by (nonlinear_arith);
    assert(pr * ai == na) by (nonlinear_arith)
        requires
            pr > 0real,
            ai == na / pr,
    ;
    assert(pr * bi == nb) by (nonlinear_arith)
        requires
            pr > 0real,
            bi == nb / pr,
    ;
    assert(ai < bi) by (nonlinear_arith)
        requires
            pr > 0real,
            pr * ai < pr * bi,
    ;
    if v <= ai {
        assert(pr * v <= pr * ai) by (nonlinear_arith)
            requires
                pr > 0real,
                v <= ai,
        ;
    }
    if v >= bi {
        assert(pr * v >= pr * bi) by (nonlinear_arith)
            requires
                pr > 0real,
                v >= bi,
        ;
    }
}

proof fn lemma_flip_agrees<A: Arith>(
    p: Pos,
    x: (u8, u8),
    code: int,
    depth: int,
    alpha: A,
    beta: A,
    vsum: A,
    rem: A,
    c: Params<A>,
    m: Mem<A>,
    val: spec_fn(A) -> real,
)
    requires
        faithful(val),
        bounded(c, val),
        exact_feat(c),
        depth >= 1,
        0 <= code <= 14,
        val(alpha) < val(beta),
        bag_total(p.bag) > 0 ==> val(rem) == rest(p.bag, code),
        -1real <= val(vsum) + average(p, x, code, depth, c, val) <= 1real,
    ensures
        ({
            let r = val(flip_from(p, x, code, depth, alpha, beta, vsum, rem, c, m).0);
            &&& agrees(
                r,
                val(vsum) + average(p, x, code, depth, c, val),
                val(alpha),
                val(beta),
            )
            &&& window(val(alpha), val(beta)) ==> -1real <= r <= 1real
        }),
    decreases depth, 0int, 14 - code,
{
    if code >= 14 {
    } else if p.bag[code] == 0 {
        if bag_total(p.bag) > 0 {
            lemma_rest_step(p.bag, code);
        }
        lemma_flip_agrees(p, x, code + 1, depth, alpha, beta, vsum, rem, c, m, val);
    } else {
        lemma_some_tiles(p.bag, code);
        lemma_rest_step(p.bag, code);
        lemma_average_bounds(p, x, code + 1, depth, c, val);
        let child = after(p, x, code);
        law_values_bounded(child, depth - 1, c, val);
        let pr = chance::<A>(p.bag, code);
        lemma_chance(p.bag, code, val);
        lemma_whole(0, val);
        lemma_whole(1, val);
        lemma_whole(-1, val);
        let rem1 = chance_left(rem, pr);
        let ai = star1_bound(alpha, vsum, rem1, vmax(), pr);
        let bi = star1_bound(beta, vsum, rem1, vmin(), pr);
        let y = -expectimax(child, depth - 1, c, val);
        let tail = average(p, x, code + 1, depth, c, val);
        assert(val(rem1) == rest(p.bag, code + 1));
        lemma_star1(
            val(alpha),
            val(beta),
            val(vsum),
            val(rem1),
            val(pr),
            y,
            tail,
            val(ai),
            val(bi),
        );
        if val(ai) < 1real && val(bi) > -1real {
            let cl = if -1real < val(ai) {
                ai
            } else {
                vmin()
            };
            let cu = if val(bi) < 1real {
                bi
            } else {
                vmax()
            };
            let lo = A::negation_of(cu);
            let hi = A::negation_of(cl);
            law_pruning_is_exact(child, depth - 1, lo, hi, c, m, val);
            let (w, m1) = negamax(child, depth - 1, lo, hi, c, m);
            let v = A::negation_of(w);
            assert(agrees(val(v), y, val(cl), val(cu)));
            if !(val(v) <= val(ai)) && !(val(bi) <= val(v)) {
                assert(val(v) == y);
                let sum = A::sum_of(vsum, A::product_of(pr, v));
                lemma_flip_agrees(p, x, code + 1, depth, alpha, beta, sum, rem1, c, m1, val);
            }
        }
    }
}

pub proof fn lemma_some_tiles(bag: Seq<u32>, code: int)
    requires
        0 <= code < 14,
        bag[code] > 0,
    ensures
        bag_total(bag) > 0,
{
    lemma_tiles_grow(bag, code + 1, 14);
    assert(tiles(bag, 0, code + 1) == tiles(bag, 0, code) + bag[code] as nat);
}

proof fn lemma_total_fits(bag: Seq<u32>, n: int)
    requires
        0 <= n,
    ensures
        tiles(bag, 0, n) <= n * 0xffff_ffff,
    decreases n,
{
    if n > 0 {
        lemma_total_fits(bag, n - 1);
    }
}

pub proof fn lemma_chance<A: Arith>(bag: Seq<u32>, code: int, val: spec_fn(A) -> real)
    requires
        faithful(val),
        bag_total(bag) > 0,
    ensures
        val(chance::<A>(bag, code)) == probability(bag, code),
{
    lemma_total_fits(bag, 14);
    lemma_whole(bag[code] as int, val);
    lemma_whole(bag_total(bag) as int, val);
}

/// In the widest window a search gives the value without pruning.
pub proof fn law_full_window_is_exact<A: Arith>(
    p: Pos,
    depth: int,
    c: Params<A>,
    m: Mem<A>,
    val: spec_fn(A) -> real,
)
    requires
        faithful(val),
        bounded(c, val),
        exact_feat(c),
    ensures
        val(negamax(p, depth, whole(-2), whole(2), c, m).0) == expectimax(p, depth, c, val),
{
    lemma_whole(2, val);
    lemma_whole(-2, val);
    law_pruning_is_exact(p, depth, whole(-2), whole(2), c, m, val);
    law_values_bounded(p, depth, c, val);
}

/// The average of what a flip is worth, where `f` gives the value of the position that comes out
/// for the player to move there; outcomes from `code` on.
pub open spec fn flip_average(p: Pos, x: (u8, u8), code: int, f: spec_fn(Pos) -> real) -> real
    decreases 14 - code,
{
    if code >= 14 {
        0real
    } else if p.bag[code] == 0 {
        flip_average(p, x, code + 1, f)
    } else {
        probability(p.bag, code) * -f(after(p, x, code)) + flip_average(p, x, code + 1, f)
    }
}

/// What a move is worth, where `f` gives the value of the position that comes out.
pub open spec fn move_worth(p: Pos, x: (u8, u8), f: spec_fn(Pos) -> real) -> real {
    if x.0 == x.1 {
        flip_average(p, x, 0, f)
    } else {
        -f(after(p, x, 0))
    }
}

proof fn lemma_average_is_flip_average<A: Arith>(
    p: Pos,
    x: (u8, u8),
    code: int,
    depth: int,
    c: Params<A>,
    f: spec_fn(Pos) -> real,
    val: spec_fn(A) -> real,
)
    requires
        depth >= 1,
        forall|q: Pos| #[trigger] f(q) == expectimax(q, depth - 1, c, val),
    ensures
        average(p, x, code, depth, c, val) == flip_average(p, x, code, f),
    decreases 14 - code,
{
    if code < 14 {
        lemma_average_is_flip_average(p, x, code + 1, depth, c, f, val);
    }
}

/// The value of a flip by Star1 is the average of the values of its outcomes, each searched in
/// the widest window, where that lies inside the window; otherwise it is a bound of it.
pub proof fn law_flip_value<A: Arith>(
    p: Pos,
    x: (u8, u8),
    depth: int,
    alpha: A,
    beta: A,
    c: Params<A>,
    m: Mem<A>,
    outcome_m: Mem<A>,
    val: spec_fn(A) -> real,
)
    requires
        faithful(val),
        bounded(c, val),
        exact_feat(c),
        depth >= 1,
        x.0 == x.1,
        val(alpha) < val(beta),
    ensures
        agrees(
            val(flip_from(p, x, 0, depth, alpha, beta, whole(0), whole(1), c, m).0),
            flip_average(
                p,
                x,
                0,
                |q: Pos| val(negamax(q, depth - 1, whole(-2), whole(2), c, outcome_m).0),
            ),
            val(alpha),
            val(beta),
        ),
{
    let f = |q: Pos| val(negamax(q, depth - 1, whole(-2), whole(2), c, outcome_m).0);
    assert forall|q: Pos| #[trigger] f(q) == expectimax(q, depth - 1, c, val) by {
        law_full_window_is_exact(q, depth - 1, c, outcome_m, val);
    }
    lemma_average_is_flip_average(p, x, 0, depth, c, f, val);
    lemma_move_agrees(p, x, depth, alpha, beta, c, m, val);
}

/// What the bare search says of a position.
pub open spec fn bare_value<A: Arith>(p: Pos, depth: int, val: spec_fn(A) -> real) -> real {
    val(bare_search::<A>(p, depth).0)
}

/// The bare search of a position that is not over gives the largest worth of its moves: of a step
/// or a capture the negated value of the position it leads to, of a flip the average over what it
/// may turn up. Neither pruning nor the order of moves enters. The value lies between -1 and 1.
pub proof fn law_bare_value_is_expectimax<A: Arith>(p: Pos, depth: int, val: spec_fn(A) -> real)
    requires
        faithful(val),
    ensures
        bare_value(p, depth, val) == expectimax(p, depth, bare_params::<A>(), val),
        -1real <= bare_value(p, depth, val) <= 1real,
        outcome(p) == RES_ONGOING && depth >= 1 ==> {
            let f = |q: Pos| bare_value(q, depth - 1, val);
            &&& forall|i: int|
                0 <= i < all_moves(p).len() ==> move_worth(p, #[trigger] all_moves(p)[i], f)
                    <= bare_value(p, depth, val)
            &&& exists|i: int|
                0 <= i < all_moves(p).len() && move_worth(p, #[trigger] all_moves(p)[i], f)
                    == bare_value(p, depth, val)
        },
{
    let c = bare_params::<A>();
    let mv = all_moves(p);
    lemma_whole(0, val);
    law_full_window_is_exact(p, depth, c, fresh(killer_slots(depth), 0), val);
    law_values_bounded(p, depth, c, val);
    if outcome(p) == RES_ONGOING && depth >= 1 {
        let f = |q: Pos| bare_value(q, depth - 1, val);
        assert forall|q: Pos| #[trigger] f(q) == expectimax(q, depth - 1, c, val) by {
            law_full_window_is_exact(q, depth - 1, c, fresh(killer_slots(depth - 1), 0), val);
        }
        assert forall|i: int| 0 <= i < mv.len() implies move_worth(p, #[trigger] mv[i], f)
            == exact_move(p, mv[i], depth, c, val) by {
            lemma_average_is_flip_average(p, mv[i], 0, depth, c, f, val);
        }
        lemma_best_of_is_largest(p, mv, 0, depth, c, val);
        let k = choose|j: int|
            0 <= j < mv.len() && exact_move(p, #[trigger] mv[j], depth, c, val) == best_of(
                p,
                mv,
                0,
                depth,
                c,
                val,
            );
        assert(move_worth(p, mv[k], f) == bare_value(p, depth, val));
    }
}

/// The entry that records the result of such a search is sound: an exact one holds the value
/// without pruning at its depth, a lower bound does not exceed it, and an upper bound is not less.
pub proof fn law_recorded_bounds_are_sound<A: Arith>(
    p: Pos,
    depth: int,
    alpha: A,
    beta: A,
    c: Params<A>,
    m: Mem<A>,
    table: Mem<A>,
    key: u64,
    best_m: (u8, u8),
    val: spec_fn(A) -> real,
)
    requires
        faithful(val),
        bounded(c, val),
        exact_feat(c),
        val(alpha) < val(beta),
        1 <= depth <= i16::MAX,
        table.tt.len() > 0,
        !tt_hit(table, key),
    ensures
        ({
            let r = negamax(p, depth, alpha, beta, c, m).0;
            let e = tt_entry(tt_stored(table, key, depth, alpha, beta, r, best_m), key);
            let v = expectimax(p, depth, c, val);
            &&& e.key == key && e.depth == depth && e.best == best_m
            &&& e.flag == 1 ==> val(e.value) == v
            &&& e.flag == 2 ==> val(e.value) <= v
            &&& e.flag == 3 ==> v <= val(e.value)
            &&& 1 <= e.flag <= 3
        }),
{
    law_pruning_is_exact(p, depth, alpha, beta, c, m, val);
    assert(0 <= key as int % table.tt.len() as int) by (nonlinear_arith)
        requires
            key >= 0,
            table.tt.len() > 0,
    ;
}

} // verus!
