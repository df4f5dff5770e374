//! That values stay between -1 and 1.
//!
//! In faithful numbers every value that a search returns or stores lies between a certain
//! loss and a certain win, whatever is switched on.
use vstd::prelude::*;

use crate::arith::{faithful, whole, Arith};
use crate::board::{after, all_moves, bag_total, mover, outcome, Pos, RES_DRAW, RES_ONGOING};
use crate::engine::{lemma_search_order_keeps, value_by_search, Request};
use crate::expectimax::{
    bounded, lemma_chance, lemma_leaf_bounds, lemma_lengths_agree, lemma_rest_step,
    lemma_some_tiles, lemma_terminal_bounds, lemma_whole, rest,
};
use crate::model::{
    best_captures, chance, chance_left, flip_from, leaf_value, move_value, negamax, node_from,
    node_key, node_move, quiesce, quiesce_from, quiet, search_order, star1_bound, terminal_value,
    ticked, tt_move, tt_stored, tt_value, vmax, vmin, Mem, Params,
};
use crate::order::{lemma_promote_keeps, promoted};
use crate::root::{draw_value, guarded, losing_capture, root_best, root_from};
use crate::search::stop_count;
use crate::zobrist::key_of;

verus! {

pub open spec fn tame_value<A: Arith>(v: A, val: spec_fn(A) -> real) -> bool {
    -1real <= val(v) <= 1real
}

/// The table holds only values between -1 and 1.
pub open spec fn tame<A: Arith>(m: Mem<A>, c: Params<A>, val: spec_fn(A) -> real) -> bool {
    c.feat.tt ==> {
        &&& m.tt.len() > 0
        &&& forall|i: int| 0 <= i < m.tt.len() ==> tame_value((#[trigger] m.tt[i]).value, val)
    }
}

/// The width of the window in which a late move is probed.
pub open spec fn probe_width() -> real {
    1real / 1_000_000real
}

/// The window does not lie beyond the values. Where late moves are reduced, it does not reach
/// further beyond them than a probe does.
pub open spec fn reasonable<A: Arith>(
    alpha: A,
    beta: A,
    c: Params<A>,
    val: spec_fn(A) -> real,
) -> bool {
    &&& val(alpha) <= 1real
    &&& -1real <= val(beta)
    &&& c.feat.lmr ==> -1real - probe_width() <= val(alpha) && val(beta) <= 1real + probe_width()
}

proof fn lemma_quiesce_tame<A: Arith>(
    p: Pos,
    alpha: A,
    beta: A,
    c: Params<A>,
    m: Mem<A>,
    q: int,
    val: spec_fn(A) -> real,
)
    requires
        faithful(val),
        bounded(c, val),
        tame(m, c, val),
    ensures
        tame_value(quiesce(p, alpha, beta, c, m, q).0, val),
        tame(quiesce(p, alpha, beta, c, m, q).1, c, val),
    decreases q, 1int, 0int,
{
    lemma_terminal_bounds(p, outcome(p), c, val);
    lemma_leaf_bounds(p, c, val);
    let stand = leaf_value(p, c);
    if outcome(p) == RES_ONGOING && !A::is_at_most(beta, stand) && q > 0 {
        let a = if A::is_less(alpha, stand) {
            stand
        } else {
            alpha
        };
        lemma_quiesce_from_tame(p, best_captures(p), 0, a, beta, stand, c, ticked(m), q, val);
    }
}

proof fn lemma_quiesce_from_tame<A: Arith>(
    p: Pos,
    caps: Seq<(i32, (u8, u8))>,
    i: int,
    alpha: A,
    beta: A,
    best: A,
    c: Params<A>,
    m: Mem<A>,
    q: int,
    val: spec_fn(A) -> real,
)
    requires
        faithful(val),
        bounded(c, val),
        tame(m, c, val),
        q >= 1,
        tame_value(best, val),
    ensures
        tame_value(quiesce_from(p, caps, i, alpha, beta, best, c, m, q).0, val),
        tame(quiesce_from(p, caps, i, alpha, beta, best, c, m, q).1, c, val),
    decreases q, 0int, caps.len() - i,
{
    if i < caps.len() {
        let child = after(p, caps[i].1, 0);
        let nb = A::negation_of(beta);
        let na = A::negation_of(alpha);
        lemma_quiesce_tame(child, nb, na, c, m, q - 1, val);
        let (w, m1) = quiesce(child, nb, na, c, m, q - 1);
        let v = A::negation_of(w);
        let best1 = if A::is_less(best, v) {
            v
        } else {
            best
        };
        let alpha1 = if A::is_less(alpha, best1) {
            best1
        } else {
            alpha
        };
        if !A::is_at_most(beta, alpha1) {
            lemma_quiesce_from_tame(p, caps, i + 1, alpha1, beta, best1, c, m1, q, val);
        }
    }
}

proof fn lemma_stored_tame<A: Arith>(
    m: Mem<A>,
    key: u64,
    depth: int,
    alpha: A,
    beta: A,
    best: A,
    best_m: (u8, u8),
    c: Params<A>,
    val: spec_fn(A) -> real,
)
    requires
        faithful(val),
        c.feat.tt,
        tame(m, c, val),
        tame_value(best, val),
    ensures
        tame(tt_stored(m, key, depth, alpha, beta, best, best_m), c, val),
{
}

/// Every value that a search returns, and every value that it stores, lies between -1 and 1,
/// with any switches, if the table held such values before.
pub proof fn law_search_values_bounded<A: Arith>(
    p: Pos,
    depth: int,
    alpha: A,
    beta: A,
    c: Params<A>,
    m: Mem<A>,
    val: spec_fn(A) -> real,
)
    requires
        faithful(val),
        bounded(c, val),
        tame(m, c, val),
        reasonable(alpha, beta, c, val),
    ensures
        tame_value(negamax(p, depth, alpha, beta, c, m).0, val),
        tame(negamax(p, depth, alpha, beta, c, m).1, c, val),
    decreases depth, 3int, 0int,
{
    lemma_terminal_bounds(p, outcome(p), c, val);
    lemma_terminal_bounds(p, RES_DRAW as int, c, val);
    lemma_leaf_bounds(p, c, val);
    let m1 = ticked(m);
    let key = node_key(p, c);
    if outcome(p) != RES_ONGOING {
    } else if depth <= 0 {
        if c.quiesce {
            lemma_quiesce_tame(p, alpha, beta, c, m1, c.quiesce_max, val);
        }
    } else if c.feat.rep && m1.path.contains(key) {
    } else if c.feat.tt && tt_value(m1, key, depth, alpha, beta) is Some {
        assert(0 <= key as int % m1.tt.len() as int) by (nonlinear_arith)
            requires
                key >= 0,
                m1.tt.len() > 0,
        ;
        assert(tame_value(m1.tt[key as int % m1.tt.len() as int].value, val));
    } else {
        let o = search_order(p, all_moves(p), depth, c, m1);
        let hint = if c.feat.tt {
            tt_move(m1, key)
        } else {
            None
        };
        let mv = promoted(o, hint);
        lemma_search_order_keeps(p, all_moves(p), depth, c, m1);
        lemma_promote_keeps(o, hint);
        lemma_lengths_agree(mv, all_moves(p));
        let m2 = if c.feat.rep {
            Mem { path: m1.path.push(key), ..m1 }
        } else {
            m1
        };
        lemma_node_tame(p, mv, 0, depth, alpha, beta, A::lowest_of(), mv[0], c, m2, val);
        let (best, best_m, m3) = node_from(
            p,
            mv,
            0,
            depth,
            alpha,
            beta,
            A::lowest_of(),
            mv[0],
            c,
            m2,
        );
        let m4 = if c.feat.rep {
            Mem { path: m3.path.drop_last(), ..m3 }
        } else {
            m3
        };
        if c.feat.tt {
            lemma_stored_tame(m4, key, depth, alpha, beta, best, best_m, c, val);
        }
    }
}

pub proof fn lemma_node_tame<A: Arith>(
    p: Pos,
    mv: Seq<(u8, u8)>,
    i: int,
    depth: int,
    alpha: A,
    beta: A,
    best: A,
    best_m: (u8, u8),
    c: Params<A>,
    m: Mem<A>,
    val: spec_fn(A) -> real,
)
    requires
        faithful(val),
        bounded(c, val),
        tame(m, c, val),
        depth >= 1,
        0 <= i,
        reasonable(alpha, beta, c, val),
        val(best) <= 1real,
        i >= mv.len() || i > 0 ==> -1real <= val(best),
    ensures
        tame_value(node_from(p, mv, i, depth, alpha, beta, best, best_m, c, m).0, val),
        tame(node_from(p, mv, i, depth, alpha, beta, best, best_m, c, m).2, c, val),
    decreases depth, 2int, mv.len() - i,
{
    if i < mv.len() {
        lemma_node_move_tame(p, mv[i], i, depth, alpha, beta, c, m, val);
        let (v, m1) = node_move(p, mv[i], i, depth, alpha, beta, c, m);
        let best1 = if A::is_less(best, v) {
            v
        } else {
            best
        };
        let best_m1 = if A::is_less(best, v) {
            mv[i]
        } else {
            best_m
        };
        let alpha1 = if A::is_less(alpha, best1) {
            best1
        } else {
            alpha
        };
        if !A::is_at_most(beta, alpha1) {
            lemma_node_tame(p, mv, i + 1, depth, alpha1, beta, best1, best_m1, c, m1, val);
        }
    }
}

proof fn lemma_node_move_tame<A: Arith>(
    p: Pos,
    x: (u8, u8),
    i: int,
    depth: int,
    alpha: A,
    beta: A,
    c: Params<A>,
    m: Mem<A>,
    val: spec_fn(A) -> real,
)
    requires
        faithful(val),
        bounded(c, val),
        tame(m, c, val),
        depth >= 1,
        reasonable(alpha, beta, c, val),
    ensures
        tame_value(node_move(p, x, i, depth, alpha, beta, c, m).0, val),
        tame(node_move(p, x, i, depth, alpha, beta, c, m).1, c, val),
    decreases depth, 1int, 1int,
{
    if c.feat.lmr && quiet(p, x) && i >= 3 && depth >= 3 {
        let child = after(p, x, 0);
        let lo = A::difference_of(A::negation_of(alpha), A::ratio_of(1, 1_000_000));
        let na = A::negation_of(alpha);
        let nb = A::negation_of(beta);
        assert(val(A::ratio_of(1, 1_000_000)) == probe_width());
        assert(probe_width() > 0real) by (nonlinear_arith)
            requires
                probe_width() == 1real / 1_000_000real,
        ;
        law_search_values_bounded(child, depth - 2, lo, na, c, m, val);
        let (w, m1) = negamax(child, depth - 2, lo, na, c, m);
        law_search_values_bounded(child, depth - 1, nb, na, c, m1, val);
    } else {
        lemma_move_tame(p, x, depth, alpha, beta, c, m, val);
    }
}

/// The value of a move lies between -1 and 1.
pub proof fn lemma_move_tame<A: Arith>(
    p: Pos,
    x: (u8, u8),
    depth: int,
    alpha: A,
    beta: A,
    c: Params<A>,
    m: Mem<A>,
    val: spec_fn(A) -> real,
)
    requires
        faithful(val),
        bounded(c, val),
        tame(m, c, val),
        depth >= 1,
        reasonable(alpha, beta, c, val),
    ensures
        tame_value(move_value(p, x, depth, alpha, beta, c, m).0, val),
        tame(move_value(p, x, depth, alpha, beta, c, m).1, c, val),
    decreases depth, 1int, 0int,
{
    if x.0 == x.1 {
        lemma_whole(0, val);
        lemma_whole(1, val);
        let t = bag_total(p.bag) as real;
        if t > 0real {
            assert(t / t == 1real) by (nonlinear_arith)
                requires
                    t > 0real,
            ;
        }
        lemma_flip_tame(p, x, 0, depth, alpha, beta, whole(0), whole(1), c, m, val);
    } else {
        let nb = A::negation_of(beta);
        let na = A::negation_of(alpha);
        law_search_values_bounded(after(p, x, 0), depth - 1, nb, na, c, m, val);
    }
}

/// The bounds of a window that a flip returns lie between -1 and 1.
proof fn lemma_star1_tame(
    alpha: real,
    beta: real,
    vsum: real,
    rem: real,
    pr: real,
    v: real,
    ai: real,
    bi: real,
)
    requires
        pr > 0real,
        rem >= 0real,
        -1real <= v <= 1real,
        -(1real - rem - pr) <= vsum <= 1real - rem - pr,
        ai == (alpha - vsum - rem * 1real) / pr,
        bi == (beta - vsum - rem * -1real) / pr,
    ensures
        v <= ai || ai >= 1real ==> -1real <= alpha,
        bi <= v || bi <= -1real ==> beta <= 1real,
        -(1real - rem) <= vsum + pr * v <= 1real - rem,
{
    let na = alpha - vsum - rem;
    let nb = beta - vsum + rem;
    assert(rem * 1real == rem) by (nonlinear_arith);
    assert(rem * -1real == -rem) by (nonlinear_arith);
    assert(pr * ai == na) by (nonlinear_arith)
        requires
            pr > 0real,
            ai == na / pr,
    ;
    assert(pr * bi == nb) by (nonlinear_arith)
        requires
            pr > 0real,
            bi == nb / pr,
    ;
    assert(-pr <= pr * v <= pr) by (nonlinear_arith)
        requires
            pr > 0real,
            -1real <= v <= 1real,
    ;
    if -1real <= ai {
        assert(-pr <= pr * ai) by (nonlinear_arith)
            requires
                pr > 0real,
                -1real <= ai,
        ;
    }
    if bi <= 1real {
        assert(pr * bi <= pr) by (nonlinear_arith)
            requires
                pr > 0real,
                bi <= 1real,
        ;
    }
}

proof fn lemma_flip_tame<A: Arith>(
    p: Pos,
    x: (u8, u8),
    code: int,
    depth: int,
    alpha: A,
    beta: A,
    vsum: A,
    rem: A,
    c: Params<A>,
    m: Mem<A>,
    val: spec_fn(A) -> real,
)
    requires
        faithful(val),
        bounded(c, val),
        tame(m, c, val),
        depth >= 1,
        0 <= code <= 14,
        reasonable(alpha, beta, c, val),
        tame_value(vsum, val),
        bag_total(p.bag) > 0 ==> {
            &&& val(rem) == rest(p.bag, code)
            &&& -(1real - val(rem)) <= val(vsum) <= 1real - val(rem)
        },
    ensures
        tame_value(flip_from(p, x, code, depth, alpha, beta, vsum, rem, c, m).0, val),
        tame(flip_from(p, x, code, depth, alpha, beta, vsum, rem, c, m).1, c, val),
    decreases depth, 0int, 14 - code,
{
    if code >= 14 {
    } else if p.bag[code] == 0 {
        if bag_total(p.bag) > 0 {
            lemma_rest_step(p.bag, code);
        }
        lemma_flip_tame(p, x, code + 1, depth, alpha, beta, vsum, rem, c, m, val);
    } else {
        lemma_some_tiles(p.bag, code);
        lemma_rest_step(p.bag, code);
        lemma_chance(p.bag, code, val);
        lemma_whole(0, val);
        lemma_whole(1, val);
        lemma_whole(-1, val);
        let pr = chance::<A>(p.bag, code);
        let rem1 = chance_left(rem, pr);
        let ai = star1_bound(alpha, vsum, rem1, vmax(), pr);
        let bi = star1_bound(beta, vsum, rem1, vmin(), pr);
        assert(val(rem1) == rest(p.bag, code + 1));
        lemma_star1_tame(
            val(alpha),
            val(beta),
            val(vsum),
            val(rem1),
            val(pr),
            0real,
            val(ai),
            val(bi),
        );
        if val(ai) < 1real && val(bi) > -1real {
            let cl = if -1real < val(ai) {
                ai
            } else {
                vmin()
            };
            let cu = if val(bi) < 1real {
                bi
            } else {
                vmax()
            };
            let lo = A::negation_of(cu);
            let hi = A::negation_of(cl);
            assert(probe_width() > 0real) by (nonlinear_arith)
                requires
                    probe_width() == 1real / 1_000_000real,
            ;
            law_search_values_bounded(after(p, x, code), depth - 1, lo, hi, c, m, val);
            let (w, m1) = negamax(after(p, x, code), depth - 1, lo, hi, c, m);
            let v = A::negation_of(w);
            lemma_star1_tame(
                val(alpha),
                val(beta),
                val(vsum),
                val(rem1),
                val(pr),
                val(v),
                val(ai),
                val(bi),
            );
            if !(val(v) <= val(ai)) && !(val(bi) <= val(v)) {
                let sum = A::sum_of(vsum, A::product_of(pr, v));
                lemma_flip_tame(p, x, code + 1, depth, alpha, beta, sum, rem1, c, m1, val);
            }
        }
    }
}

// ---------------------------------------------------------------- the root

/// Where the guard against losing captures is on, a thousandth less than a draw is not less
/// than a loss.
pub open spec fn guard_bounded<A: Arith>(c: Params<A>, val: spec_fn(A) -> real) -> bool {
    c.feat.no_draw_sac ==> val(c.contempt) <= 999real / 1000real
}

pub proof fn lemma_guarded_tame<A: Arith>(
    p: Pos,
    x: (u8, u8),
    v: A,
    c: Params<A>,
    val: spec_fn(A) -> real,
)
    requires
        faithful(val),
        bounded(c, val),
        guard_bounded(c, val),
        tame_value(v, val),
    ensures
        tame_value(guarded(p, x, v, c), val),
{
    lemma_whole(0, val);
    assert(val(A::ratio_of(1, 1000)) == 1real / 1000real);
    assert(999real / 1000real + 1real / 1000real == 1real) by (nonlinear_arith);
    assert(1real / 1000real > 0real) by (nonlinear_arith);
}

pub proof fn lemma_root_tame<A: Arith>(
    p: Pos,
    mv: Seq<(u8, u8)>,
    i: int,
    depth: int,
    alpha: A,
    best_val: A,
    best: Option<((u8, u8), A)>,
    c: Params<A>,
    m: Mem<A>,
    val: spec_fn(A) -> real,
)
    requires
        faithful(val),
        bounded(c, val),
        guard_bounded(c, val),
        tame(m, c, val),
        depth >= 1,
        tame_value(alpha, val),
        best matches Some(b) ==> tame_value(b.1, val),
    ensures
        ({
            let r = root_from(p, mv, i, depth, alpha, best_val, best, c, m);
            &&& r.0 matches Some(b) ==> tame_value(b.1, val)
            &&& tame(r.1, c, val)
        }),
    decreases mv.len() - i,
{
    if i < mv.len() {
        let x = mv[i];
        lemma_whole(1, val);
        assert(probe_width() > 0real) by (nonlinear_arith)
            requires
                probe_width() == 1real / 1_000_000real,
        ;
        lemma_move_tame(p, x, depth, alpha, vmax(), c, m, val);
        let (w, m1) = move_value(p, x, depth, alpha, vmax(), c, m);
        let v = guarded(p, x, w, c);
        lemma_guarded_tame(p, x, w, c, val);
        let alpha1 = if A::is_less(alpha, v) {
            v
        } else {
            alpha
        };
        lemma_root_tame(p, mv, i + 1, depth, alpha1, v, Some((x, v)), c, m1, val);
        lemma_root_tame(p, mv, i + 1, depth, alpha, best_val, best, c, m1, val);
    }
}

proof fn lemma_root_keeps_a_move<A: Arith>(
    p: Pos,
    mv: Seq<(u8, u8)>,
    i: int,
    depth: int,
    alpha: A,
    best_val: A,
    best: Option<((u8, u8), A)>,
    c: Params<A>,
    m: Mem<A>,
)
    requires
        best is Some,
    ensures
        root_from(p, mv, i, depth, alpha, best_val, best, c, m).0 is Some,
    decreases mv.len() - i,
{
    if i < mv.len() {
        let x = mv[i];
        let (w, m1) = move_value(p, x, depth, alpha, vmax(), c, m);
        let v = guarded(p, x, w, c);
        let alpha1 = if A::is_less(alpha, v) {
            v
        } else {
            alpha
        };
        lemma_root_keeps_a_move(p, mv, i + 1, depth, alpha1, v, Some((x, v)), c, m1);
        lemma_root_keeps_a_move(p, mv, i + 1, depth, alpha, best_val, best, c, m1);
    }
}

/// The root search of a depth finds a move exactly where there is one.
pub proof fn law_root_finds_a_move<A: Arith>(
    p: Pos,
    depth: int,
    c: Params<A>,
    m: Mem<A>,
    hint: Option<(u8, u8)>,
    val: spec_fn(A) -> real,
)
    requires
        faithful(val),
        bounded(c, val),
        guard_bounded(c, val),
        tame(m, c, val),
        depth >= 1,
    ensures
        root_best(p, depth, c, m, hint).0 is Some <==> all_moves(p).len() > 0,
{
    let o = search_order(p, all_moves(p), depth, c, m);
    let mv = promoted(o, hint);
    lemma_search_order_keeps(p, all_moves(p), depth, c, m);
    lemma_promote_keeps(o, hint);
    lemma_lengths_agree(mv, all_moves(p));
    if mv.len() > 0 {
        lemma_whole(1, val);
        lemma_whole(-1, val);
        assert(probe_width() > 0real) by (nonlinear_arith)
            requires
                probe_width() == 1real / 1_000_000real,
        ;
        lemma_move_tame(p, mv[0], depth, vmin(), vmax(), c, m, val);
        let (w, m1) = move_value(p, mv[0], depth, vmin(), vmax(), c, m);
        let v = guarded(p, mv[0], w, c);
        lemma_guarded_tame(p, mv[0], w, c, val);
        let alpha1 = if A::is_less(vmin(), v) {
            v
        } else {
            vmin()
        };
        lemma_root_keeps_a_move(p, mv, 1, depth, alpha1, v, Some((mv[0], v)), c, m1);
    }
}

/// At every depth the value of the best move lies between -1 and 1.
pub proof fn law_engine_values_bounded<A: Arith>(q: Request<A>, n: int, val: spec_fn(A) -> real)
    requires
        faithful(val),
        bounded(q.params(), val),
        guard_bounded(q.params(), val),
    ensures
        tame_value(q.deepened(n).value, val),
        tame(q.deepened(n).mem, q.params(), val),
    decreases n,
{
    let p = q.pos;
    let c = q.params();
    lemma_whole(0, val);
    lemma_whole(-1, val);
    if n <= 0 {
        lemma_leaf_bounds(p, c, val);
    } else {
        law_engine_values_bounded(q, n - 1, val);
        let g = q.deepened(n - 1);
        let mv = promoted(search_order(p, all_moves(p), n, c, g.mem), g.hint);
        lemma_root_tame(p, mv, 0, n, vmin(), A::lowest_of(), None, c, g.mem, val);
    }
}

/// What is reported as visited is what the search took: all of the budget, and one node more,
/// unless every depth up to the last was finished.
pub proof fn law_unfinished_search_spends_the_budget<A: Arith>(
    q: Request<A>,
    n: int,
    val: spec_fn(A) -> real,
)
    requires
        faithful(val),
        bounded(q.params(), val),
        guard_bounded(q.params(), val),
        all_moves(q.pos).len() > 0,
        n >= 0,
    ensures
        q.deepened(n).done ==> q.deepened(n).nodes == stop_count(q.node_budget),
        !q.deepened(n).done ==> q.deepened(n).depth == n && q.deepened(n).nodes == q.deepened(
            n,
        ).mem.nodes,
        q.deepened(n).depth < n ==> q.deepened(n).nodes == stop_count(q.node_budget),
    decreases n,
{
    if n > 0 {
        law_unfinished_search_spends_the_budget(q, n - 1, val);
        law_engine_values_bounded(q, n - 1, val);
        let g = q.deepened(n - 1);
        law_root_finds_a_move(q.pos, n, q.params(), g.mem, g.hint, val);
    }
}

/// The value of a position by search lies between -1 and 1.
pub proof fn law_searched_value_bounded<A: Arith>(q: Request<A>, val: spec_fn(A) -> real)
    requires
        faithful(val),
        bounded(q.params(), val),
        guard_bounded(q.params(), val),
    ensures
        tame_value(value_by_search(q), val),
{
    lemma_terminal_bounds(q.pos, outcome(q.pos), q.params(), val);
    law_engine_values_bounded(q, q.max_depth, val);
}

// ---------------------------------------------------------------- draws

/// A position that repeats one of the path is worth a draw, whatever the depth and the window.
pub proof fn law_repetition_is_a_draw<A: Arith>(
    p: Pos,
    depth: int,
    alpha: A,
    beta: A,
    c: Params<A>,
    m: Mem<A>,
)
    requires
        c.feat.rep,
        depth >= 1,
        outcome(p) == RES_ONGOING,
        m.path.contains(key_of(p)),
    ensures
        negamax(p, depth, alpha, beta, c, m).0 == terminal_value(p, RES_DRAW as int, c),
{
}

/// With contempt, a draw is worth that much less to the player at the root, and that much more to
/// the opponent.
pub proof fn law_contempt<A: Arith>(p: Pos, c: Params<A>, val: spec_fn(A) -> real)
    requires
        faithful(val),
        0 <= c.root <= 1,
    ensures
        val(terminal_value(p, RES_DRAW as int, c)) == if mover(p) == c.root {
            -val(c.contempt)
        } else {
            val(c.contempt)
        },
{
    lemma_whole(0, val);
}

/// The guard puts a losing capture of little value below a draw, and changes no other move.
pub proof fn law_guard_prefers_a_draw<A: Arith>(
    p: Pos,
    x: (u8, u8),
    v: A,
    c: Params<A>,
    val: spec_fn(A) -> real,
)
    requires
        faithful(val),
        c.feat.no_draw_sac,
    ensures
        val(v) < 3real / 10real && losing_capture(p, x, c.values) ==> val(guarded(p, x, v, c))
            < val(draw_value(c)),
        !(val(v) < 3real / 10real && losing_capture(p, x, c.values)) ==> guarded(p, x, v, c) == v,
{
    assert(val(A::ratio_of(1, 1000)) == 1real / 1000real);
    assert(val(A::ratio_of(3, 10)) == 3real / 10real);
    assert(1real / 1000real > 0real) by (nonlinear_arith);
}

} // verus!
