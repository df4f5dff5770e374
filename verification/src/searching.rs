//! What a search looks at, and what it makes of it.
//!
//! The moves it tries and their order, the captures at the horizon, the value of a finished game,
//! repetitions, the table, reductions and the guard at the root: each is stated here of the moves
//! and the squares themselves.
use vstd::prelude::*;

use crate::arith::{faithful, whole, Arith};
use crate::board::{after, all_moves, mover, outcome, wf, Pos};
use crate::bounds::{lemma_node_tame, reasonable, tame};
use crate::engine::lemma_search_order_keeps;
use crate::eval::{base_value, evaluation};
use crate::expectimax::{
    agrees, average, best_of, bounded, calm_best, calm_value, exact_move, expectimax, flip_average,
    law_full_window_is_exact, lemma_best_of_is_largest, lemma_lengths_agree, lemma_chance,
    lemma_quiesce_agrees, lemma_some_tiles, lemma_terminal_bounds, lemma_whole, move_worth,
    probability,
};
use crate::model::{
    best_captures, captures_of, chance, cutoff_recorded, quiesce_from, tt_move, leaf_value,
    move_value, negamax, node_from, node_move, quiesce, search_order, terminal_value, ticked,
    tt_entry, tt_stored, tt_value, Mem, Params, TtEntry,
};
use crate::movement::{law_bag_sums, law_list_order, law_moves_on_squares, law_turns, may_move};
use crate::order::{
    law_sorted_descends, law_sorted_keeps, lemma_promote_keeps, lemma_same_moves, order_key,
    plain_entries, plainly_ordered, promoted, rich_entries, rich_key, sorted, unkeyed,
};
use crate::zobrist::key_of;

verus! {

// ---------------------------------------------------------------- the order of moves

/// The built-in values by role.
pub open spec fn price(role: int) -> int {
    seq![30int, 10, 10, 14, 8, 12, 4][role]
}

/// What a move counts in plain order: flips least, then quiet moves, then captures by the value of
/// the victim.
pub open spec fn plain_rank(p: Pos, m: (u8, u8)) -> int {
    let t = p.sq[m.1 as int] as int;
    if m.0 == m.1 {
        -1
    } else if t < 0 {
        0
    } else {
        100 + price(t % 7)
    }
}

proof fn lemma_unkeyed_index(s: Seq<(i32, (u8, u8))>, f: spec_fn((u8, u8)) -> i32, i: int)
    requires
        0 <= i < sorted(s).len(),
        forall|k: int| 0 <= k < s.len() ==> (#[trigger] s[k]).0 == f(s[k].1),
    ensures
        sorted(s)[i].0 == f(unkeyed(sorted(s))[i]),
        sorted(s).len() == s.len(),
{
    broadcast use vstd::seq_lib::group_to_multiset_ensures;

    law_sorted_keeps(s);
    let x = sorted(s)[i];
    assert(sorted(s).contains(x));
    assert(s.to_multiset().count(x) > 0);
    assert(s.contains(x));
}

/// In plain order the moves that count more come first.
pub proof fn law_plain_order(p: Pos, mv: Seq<(u8, u8)>, i: int, j: int)
    requires
        0 <= i <= j < plainly_ordered(p, mv).len(),
    ensures
        plain_rank(p, plainly_ordered(p, mv)[i]) >= plain_rank(p, plainly_ordered(p, mv)[j]),
{
    let s = plain_entries(p, mv);
    let f = |m: (u8, u8)| order_key(p, m) as i32;
    assert forall|k: int| 0 <= k < s.len() implies (#[trigger] s[k]).0 == f(s[k].1) by {
    }
    lemma_unkeyed_index(s, f, i);
    lemma_unkeyed_index(s, f, j);
    law_sorted_descends(s, i, j);
    assert forall|m: (u8, u8)| #[trigger] order_key(p, m) == plain_rank(p, m) by {
    }
    assert(f(plainly_ordered(p, mv)[i]) >= f(plainly_ordered(p, mv)[j]));
}

/// The moves of a node are ordered by captures, killer moves and history where that is switched
/// on, and plainly where it is not.
pub proof fn law_search_order<A: Arith>(
    p: Pos,
    depth: int,
    c: Params<A>,
    m: Mem<A>,
    i: int,
    j: int,
)
    requires
        0 <= i <= j < search_order(p, all_moves(p), depth, c, m).len(),
    ensures
        ({
            let o = search_order(p, all_moves(p), depth, c, m);
            &&& !c.feat.ordering ==> plain_rank(p, o[i]) >= plain_rank(p, o[j])
            &&& c.feat.ordering ==> rich_key(p, o[i], depth, m.killers, m.history) >= rich_key(
                p,
                o[j],
                depth,
                m.killers,
                m.history,
            )
        }),
{
    let mv = all_moves(p);
    if c.feat.ordering {
        let s = rich_entries(p, mv, depth, m.killers, m.history);
        let f = |x: (u8, u8)| rich_key(p, x, depth, m.killers, m.history) as i32;
        assert forall|k: int| 0 <= k < s.len() implies (#[trigger] s[k]).0 == f(s[k].1) by {
        }
        lemma_unkeyed_index(s, f, i);
        lemma_unkeyed_index(s, f, j);
        law_sorted_descends(s, i, j);
        let o = search_order(p, mv, depth, c, m);
        lemma_rich_key_small(p, o[i], depth, m.killers, m.history);
        lemma_rich_key_small(p, o[j], depth, m.killers, m.history);
        assert(f(o[i]) >= f(o[j]));
    } else {
        law_plain_order(p, mv, i, j);
    }
}

proof fn lemma_rich_key_small(
    p: Pos,
    m: (u8, u8),
    depth: int,
    killers: Seq<((u8, u8), (u8, u8))>,
    history: Seq<i32>,
)
    ensures
        -1_000_000 <= rich_key(p, m, depth, killers, history) <= 1_001_000,
{
}

/// Where the moves are ordered by captures, killer moves and history: captures come first, those of
/// dearer pieces before those of cheaper ones, and of the same piece by the cheaper attacker first;
/// then the first and the second killer move of the depth; then the quiet moves with the larger
/// history first, which counts from zero and up to a limit; flips come last.
pub proof fn law_rich_order<A: Arith>(
    p: Pos,
    depth: int,
    c: Params<A>,
    m: Mem<A>,
    i: int,
    j: int,
)
    requires
        wf(p),
        c.feat.ordering,
        0 <= depth < m.killers.len(),
        0 <= i <= j < search_order(p, all_moves(p), depth, c, m).len(),
    ensures
        ({
            let x = search_order(p, all_moves(p), depth, c, m)[i];
            let y = search_order(p, all_moves(p), depth, c, m)[j];
            let (first, second) = m.killers[depth];
            let takes_x = x.0 != x.1 && p.sq[x.1 as int] >= 0;
            let takes_y = y.0 != y.1 && p.sq[y.1 as int] >= 0;
            let h = m.history[x.0 as int * 32 + x.1 as int];
            let k = m.history[y.0 as int * 32 + y.1 as int];
            &&& x.0 == x.1 ==> y.0 == y.1
            &&& takes_y ==> takes_x
            &&& takes_x && takes_y ==> {
                let victim_x = price(p.sq[x.1 as int] as int % 7);
                let victim_y = price(p.sq[y.1 as int] as int % 7);
                &&& victim_x >= victim_y
                &&& victim_x == victim_y ==> price(p.sq[x.0 as int] as int % 7) <= price(
                    p.sq[y.0 as int] as int % 7,
                )
            }
            &&& y == first && y.0 != y.1 && !takes_y ==> takes_x || x == first
            &&& y == second && y.0 != y.1 && !takes_y ==> takes_x || x == first || x == second
            &&& x.0 != x.1 && !takes_x && x != first && x != second && y.0 != y.1 ==> {
                ||| h >= k
                ||| h >= 799_999
                ||| k <= 0
            }
        }),
{
    let o = search_order(p, all_moves(p), depth, c, m);
    let x = o[i];
    let y = o[j];
    law_search_order(p, depth, c, m, i, j);
    lemma_search_order_keeps(p, all_moves(p), depth, c, m);
    assert(o.contains(x) && o.contains(y));
    lemma_same_moves(o, all_moves(p), x);
    lemma_same_moves(o, all_moves(p), y);
    law_moves_on_squares(p, x);
    law_moves_on_squares(p, y);
    assert forall|r: int| 0 <= r < 7 implies #[trigger] base_value(r) == price(r) && 4 <= price(r)
        <= 30 by {
    }
}

/// A move that is tried first comes first, and the others keep their order.
pub proof fn law_promotion(mv: Seq<(u8, u8)>, x: (u8, u8), k: int)
    requires
        0 <= k < mv.len(),
        mv[k] == x,
        forall|j: int| 0 <= j < k ==> mv[j] != x,
    ensures
        promoted(mv, Some(x)).len() == mv.len(),
        promoted(mv, Some(x))[0] == x,
        forall|i: int| 0 <= i < k ==> #[trigger] promoted(mv, Some(x))[i + 1] == mv[i],
        forall|i: int| k < i < mv.len() ==> #[trigger] promoted(mv, Some(x))[i] == mv[i],
        promoted(mv, None) == mv,
{
    lemma_index(mv, x, 0, k);
    let r = promoted(mv, Some(x));
    assert(r == mv.remove(k).insert(0, x));
    assert forall|i: int| 0 <= i < k implies #[trigger] r[i + 1] == mv[i] by {
        assert(mv.remove(k)[i] == mv[i]);
    }
    assert forall|i: int| k < i < mv.len() implies #[trigger] r[i] == mv[i] by {
        assert(mv.remove(k)[i - 1] == mv[i]);
    }
}

proof fn lemma_index(mv: Seq<(u8, u8)>, x: (u8, u8), i: int, k: int)
    requires
        0 <= i <= k < mv.len(),
        mv[k] == x,
        forall|j: int| 0 <= j < k ==> mv[j] != x,
    ensures
        crate::order::index_from(mv, x, i) == k,
    decreases k - i,
{
    if i < k {
        lemma_index(mv, x, i + 1, k);
    }
}

/// A quiet move that cut off becomes the first killer of its depth, the former first becomes the
/// second, and its history grows by the square of the depth; nothing else changes.
pub proof fn law_cutoffs_are_remembered<A>(m: Mem<A>, x: (u8, u8), depth: int, i: int, h: int)
    requires
        x.0 < 32,
        x.1 < 32,
        m.history.len() == 1024,
        0 <= i < m.killers.len(),
        0 <= h < 1024,
    ensures
        ({
            let n = cutoff_recorded(m, x, depth);
            let before = m.killers[i];
            &&& n.killers[i] == if i == depth && before.0 != x {
                (x, before.0)
            } else {
                before
            }
            &&& n.history[h] == if h == x.0 * 32 + x.1 {
                if m.history[h] + depth * depth > 0x7fff_ffff {
                    0x7fff_ffff
                } else {
                    m.history[h] + depth * depth
                }
            } else {
                m.history[h] as int
            }
            &&& n.nodes == m.nodes && n.tt == m.tt && n.path == m.path
        }),
{
    assert(depth * depth >= 0) by (nonlinear_arith);
}

// ---------------------------------------------------------------- captures at the horizon

proof fn lemma_captures_contain(p: Pos, mv: Seq<(u8, u8)>, n: int, x: (u8, u8))
    requires
        0 <= n <= mv.len(),
    ensures
        (exists|k: int|
            0 <= k < captures_of(p, mv, n).len() && #[trigger] captures_of(p, mv, n)[k].1 == x)
            <==> (exists|j: int| 0 <= j < n && #[trigger] mv[j] == x) && x.0 != x.1
            && p.sq[x.1 as int] >= 0,
    decreases n,
{
    let s = captures_of(p, mv, n);
    if n > 0 {
        lemma_captures_contain(p, mv, n - 1, x);
        let t = captures_of(p, mv, n - 1);
        if exists|k: int| 0 <= k < t.len() && #[trigger] t[k].1 == x {
            let k = choose|k: int| 0 <= k < t.len() && #[trigger] t[k].1 == x;
            assert(s[k].1 == x);
        }
        if exists|k: int| 0 <= k < s.len() && #[trigger] s[k].1 == x {
            let k = choose|k: int| 0 <= k < s.len() && #[trigger] s[k].1 == x;
            if k < t.len() {
                assert(t[k].1 == x);
            } else {
                assert(mv[n - 1] == x);
            }
        }
        if mv[n - 1] == x && x.0 != x.1 && p.sq[x.1 as int] >= 0 {
            assert(s[t.len() as int].1 == x);
        }
        if exists|j: int| 0 <= j < n && #[trigger] mv[j] == x {
            let j = choose|j: int| 0 <= j < n && #[trigger] mv[j] == x;
            assert(j == n - 1 || j < n - 1);
        }
    }
}

proof fn lemma_captures_once(p: Pos, mv: Seq<(u8, u8)>, n: int)
    requires
        0 <= n <= mv.len(),
        forall|a: int, b: int| 0 <= a < b < mv.len() ==> #[trigger] mv[a] != #[trigger] mv[b],
    ensures
        forall|k: int|
            0 <= k < captures_of(p, mv, n).len() ==> exists|j: int|
                0 <= j < n && mv[j] == (#[trigger] captures_of(p, mv, n)[k]).1,
        captures_of(p, mv, n).no_duplicates(),
    decreases n,
{
    if n > 0 {
        lemma_captures_once(p, mv, n - 1);
        let t = captures_of(p, mv, n - 1);
        let s = captures_of(p, mv, n);
        assert forall|k: int| 0 <= k < s.len() implies exists|j: int|
            0 <= j < n && mv[j] == (#[trigger] s[k]).1 by {
            if k < t.len() {
                assert(s[k] == t[k]);
                let j = choose|j: int| 0 <= j < n - 1 && mv[j] == t[k].1;
                assert(mv[j] == s[k].1);
            } else {
                assert(mv[n - 1] == s[k].1);
            }
        }
        assert forall|k: int| 0 <= k < t.len() implies #[trigger] t[k].1 != mv[n - 1] by {
            let j = choose|j: int| 0 <= j < n - 1 && mv[j] == t[k].1;
            assert(mv[j] != mv[n - 1]);
        }
    }
}

/// Each capture is searched once.
pub proof fn law_captures_are_searched_once(p: Pos)
    ensures
        best_captures(p).no_duplicates(),
{
    broadcast use vstd::seq_lib::group_to_multiset_ensures;

    let mv = all_moves(p);
    let c = captures_of(p, mv, mv.len() as int);
    let b = best_captures(p);
    assert forall|i: int, j: int| 0 <= i < j < mv.len() implies #[trigger] mv[i] != #[trigger] mv[j]
        by {
        law_list_order(p, i, j);
    }
    lemma_captures_once(p, mv, mv.len() as int);
    law_sorted_keeps(c);
    c.lemma_multiset_has_no_duplicates();
    assert forall|x: (i32, (u8, u8))| #[trigger] b.to_multiset().contains(x) implies
        b.to_multiset().count(x) == 1 by {
        assert(c.to_multiset().contains(x));
    }
    b.lemma_multiset_has_no_duplicates_conv();
}

/// The captures that are searched at the horizon are all captures of the position, and only those.
pub proof fn law_every_capture_is_searched(p: Pos, x: (u8, u8))
    requires
        wf(p),
    ensures
        (exists|k: int| 0 <= k < best_captures(p).len() && #[trigger] best_captures(p)[k].1 == x)
            <==> (may_move(p, x) && x.0 != x.1 && p.sq[x.1 as int] >= 0),
        (exists|k: int| 0 <= k < best_captures(p).len() && #[trigger] best_captures(p)[k].1 == x)
            <==> (all_moves(p).contains(x) && x.0 != x.1 && p.sq[x.1 as int] >= 0),
{
    broadcast use vstd::seq_lib::group_to_multiset_ensures;

    let mv = all_moves(p);
    let c = captures_of(p, mv, mv.len() as int);
    let b = best_captures(p);
    law_sorted_keeps(c);
    lemma_captures_contain(p, mv, mv.len() as int, x);
    law_moves_on_squares(p, x);
    if exists|k: int| 0 <= k < b.len() && #[trigger] b[k].1 == x {
        let k = choose|k: int| 0 <= k < b.len() && #[trigger] b[k].1 == x;
        assert(b.contains(b[k]));
        assert(c.to_multiset().count(b[k]) > 0);
        assert(c.contains(b[k]));
        let j = choose|j: int| 0 <= j < c.len() && c[j] == b[k];
        assert(c[j].1 == x);
    }
    if exists|k: int| 0 <= k < c.len() && #[trigger] c[k].1 == x {
        let k = choose|k: int| 0 <= k < c.len() && #[trigger] c[k].1 == x;
        assert(c.contains(c[k]));
        assert(b.to_multiset().count(c[k]) > 0);
        assert(b.contains(c[k]));
        let j = choose|j: int| 0 <= j < b.len() && b[j] == c[k];
        assert(b[j].1 == x);
    }
    if mv.contains(x) {
        let j = choose|j: int| 0 <= j < mv.len() && mv[j] == x;
        assert(mv[j] == x);
    }
}

proof fn lemma_capture_keys(p: Pos, mv: Seq<(u8, u8)>, n: int)
    ensures
        forall|k: int|
            0 <= k < captures_of(p, mv, n).len() ==> (#[trigger] captures_of(p, mv, n)[k]).0
                == price(p.sq[captures_of(p, mv, n)[k].1.1 as int] as int % 7),
    decreases n,
{
    if n > 0 {
        lemma_capture_keys(p, mv, n - 1);
        let s = captures_of(p, mv, n);
        let t = captures_of(p, mv, n - 1);
        assert forall|k: int| 0 <= k < s.len() implies (#[trigger] s[k]).0 == price(
            p.sq[s[k].1.1 as int] as int % 7,
        ) by {
            if k < t.len() {
                assert(s[k] == t[k]);
            }
        }
    }
}

/// The most valuable victims are searched first.
pub proof fn law_dear_victims_first(p: Pos, i: int, j: int)
    requires
        0 <= i <= j < best_captures(p).len(),
    ensures
        ({
            let a = best_captures(p)[i].1;
            let b = best_captures(p)[j].1;
            price(p.sq[a.1 as int] as int % 7) >= price(p.sq[b.1 as int] as int % 7)
        }),
{
    let mv = all_moves(p);
    let c = captures_of(p, mv, mv.len() as int);
    let f = |m: (u8, u8)| price(p.sq[m.1 as int] as int % 7) as i32;
    lemma_capture_keys(p, mv, mv.len() as int);
    lemma_unkeyed_index(c, f, i);
    lemma_unkeyed_index(c, f, j);
    law_sorted_descends(c, i, j);
}

// ---------------------------------------------------------------- values

/// What a finished game is worth to the player to move: one where that player has won, minus one
/// where the other has, and for a draw nothing, or the contempt: against the player at the root,
/// for the other.
pub proof fn law_worth_of_a_finished_game<A: Arith>(
    p: Pos,
    c: Params<A>,
    val: spec_fn(A) -> real,
)
    requires
        faithful(val),
    ensures
        outcome(p) == 0 || outcome(p) == 1 ==> val(terminal_value(p, outcome(p), c)) == if mover(p)
            == outcome(p) {
            1real
        } else {
            -1real
        },
        val(terminal_value(p, 2, c)) == if c.root < 0 {
            0real
        } else if mover(p) == c.root {
            -val(c.contempt)
        } else {
            val(c.contempt)
        },
{
    lemma_whole(0, val);
    lemma_whole(1, val);
    lemma_whole(-1, val);
}

/// At the horizon a position is worth its evaluation for the player to move.
pub proof fn law_leaf_is_evaluated_for_the_mover<A: Arith>(p: Pos, c: Params<A>)
    ensures
        p.first_color < 0 ==> leaf_value(p, c) == whole::<A>(0),
        p.first_color >= 0 && p.ply % 2 == 0 ==> leaf_value(p, c) == evaluation(
            p,
            p.first_color,
            c.w_mob,
            c.w_king,
            c.values,
            c.feat,
        ),
        p.first_color >= 0 && p.ply % 2 == 1 ==> leaf_value(p, c) == evaluation(
            p,
            1 - p.first_color,
            c.w_mob,
            c.w_king,
            c.values,
            c.feat,
        ),
{
    law_turns(p);
}

/// The widest window.
pub open spec fn wide_quiesce<A: Arith>(p: Pos, c: Params<A>, m: Mem<A>, q: int) -> A {
    quiesce(p, whole(-2), whole(2), c, m, q).0
}

pub open spec fn wide_negamax<A: Arith>(p: Pos, depth: int, c: Params<A>, m: Mem<A>) -> A {
    negamax(p, depth, whole(-2), whole(2), c, m).0
}

proof fn lemma_wide_quiesce<A: Arith>(
    p: Pos,
    c: Params<A>,
    m: Mem<A>,
    q: int,
    val: spec_fn(A) -> real,
)
    requires
        faithful(val),
        bounded(c, val),
    ensures
        val(wide_quiesce(p, c, m, q)) == calm_value(p, c, q, val),
{
    lemma_whole(2, val);
    lemma_whole(-2, val);
    lemma_quiesce_agrees(p, whole(-2), whole(2), c, m, q, val);
}

proof fn lemma_calm_best_is_largest<A: Arith>(
    p: Pos,
    caps: Seq<(i32, (u8, u8))>,
    i: int,
    c: Params<A>,
    q: int,
    val: spec_fn(A) -> real,
)
    requires
        q >= 1,
        0 <= i,
    ensures
        ({
            let v = calm_best(p, caps, i, c, q, val);
            &&& val(leaf_value(p, c)) <= v
            &&& forall|k: int|
                i <= k < caps.len() ==> -calm_value(
                    after(p, (#[trigger] caps[k]).1, 0),
                    c,
                    q - 1,
                    val,
                )
                    <= v
            &&& v == val(leaf_value(p, c)) || exists|k: int|
                i <= k < caps.len() && v == -calm_value(
                    after(p, (#[trigger] caps[k]).1, 0),
                    c,
                    q - 1,
                    val,
                )
        }),
    decreases caps.len() - i,
{
    if i < caps.len() {
        lemma_calm_best_is_largest(p, caps, i + 1, c, q, val);
        let v = calm_best(p, caps, i, c, q, val);
        let t = calm_best(p, caps, i + 1, c, q, val);
        if v == t && t != val(leaf_value(p, c)) {
            let k = choose|k: int|
                i + 1 <= k < caps.len() && t == -calm_value(
                    after(p, (#[trigger] caps[k]).1, 0),
                    c,
                    q - 1,
                    val,
                );
            assert(v == -calm_value(after(p, caps[k].1, 0), c, q - 1, val));
        } else if v != t {
            assert(v == -calm_value(after(p, caps[i].1, 0), c, q - 1, val));
        }
    }
}

/// The search at the horizon, in the widest window. A finished game is worth its result. Otherwise
/// the player to move takes the best of the evaluation and of every capture there is, each worth
/// what the opponent makes of it, negated; with no plies left, the evaluation.
pub proof fn law_search_of_captures<A: Arith>(
    p: Pos,
    c: Params<A>,
    m: Mem<A>,
    child_m: Mem<A>,
    q: int,
    val: spec_fn(A) -> real,
)
    requires
        faithful(val),
        bounded(c, val),
        wf(p),
    ensures
        ({
            let v = val(wide_quiesce(p, c, m, q));
            let stand = val(evaluation(p, mover(p), c.w_mob, c.w_king, c.values, c.feat));
            let takes = |x: (u8, u8)| may_move(p, x) && x.0 != x.1 && p.sq[x.1 as int] >= 0;
            let worth = |x: (u8, u8)| -val(wide_quiesce(after(p, x, 0), c, child_m, q - 1));
            if outcome(p) != 3 {
                v == val(terminal_value(p, outcome(p), c))
            } else if q <= 0 {
                v == stand
            } else {
                &&& stand <= v
                &&& forall|x: (u8, u8)| #[trigger] takes(x) ==> worth(x) <= v
                &&& v == stand || exists|x: (u8, u8)| #[trigger] takes(x) && v == worth(x)
            }
        }),
{
    lemma_wide_quiesce(p, c, m, q, val);
    let takes = |x: (u8, u8)| may_move(p, x) && x.0 != x.1 && p.sq[x.1 as int] >= 0;
    let worth = |x: (u8, u8)| -val(wide_quiesce(after(p, x, 0), c, child_m, q - 1));
    let v = val(wide_quiesce(p, c, m, q));
    if outcome(p) == 3 && q > 0 {
        let caps = best_captures(p);
        lemma_calm_best_is_largest(p, caps, 0, c, q, val);
        assert forall|x: (u8, u8)| #[trigger] takes(x) implies worth(x) <= v by {
            law_every_capture_is_searched(p, x);
            let k = choose|k: int| 0 <= k < caps.len() && #[trigger] caps[k].1 == x;
            lemma_wide_quiesce(after(p, x, 0), c, child_m, q - 1, val);
            assert(-calm_value(after(p, caps[k].1, 0), c, q - 1, val) <= v);
        }
        if v != val(leaf_value(p, c)) {
            let k = choose|k: int|
                0 <= k < caps.len() && v == -calm_value(
                    after(p, (#[trigger] caps[k]).1, 0),
                    c,
                    q - 1,
                    val,
                );
            let x = caps[k].1;
            assert(caps[k].1 == x);
            law_every_capture_is_searched(p, x);
            lemma_wide_quiesce(after(p, x, 0), c, child_m, q - 1, val);
            assert(takes(x) && v == worth(x));
        }
    }
}

proof fn lemma_average_of<A: Arith>(
    p: Pos,
    x: (u8, u8),
    code: int,
    depth: int,
    c: Params<A>,
    f: spec_fn(Pos) -> real,
    val: spec_fn(A) -> real,
)
    requires
        depth >= 1,
        forall|q: Pos| #[trigger] f(q) == expectimax(q, depth - 1, c, val),
    ensures
        average(p, x, code, depth, c, val) == flip_average(p, x, code, f),
    decreases 14 - code,
{
    if code < 14 {
        lemma_average_of(p, x, code + 1, depth, c, f, val);
    }
}

/// The search of a position, in the widest window, without the table, repetitions and reductions.
/// A finished game is worth its result. At the horizon the value is the evaluation for the player
/// to move, or what the search of captures gives where that is switched on. Otherwise it is the
/// largest worth of the moves there are: of a step or a capture the negated value of the position
/// it leads to, of a flip the average over what it may turn up.
pub proof fn law_search_of_moves<A: Arith>(
    p: Pos,
    depth: int,
    c: Params<A>,
    m: Mem<A>,
    child_m: Mem<A>,
    val: spec_fn(A) -> real,
)
    requires
        faithful(val),
        bounded(c, val),
        wf(p),
        !c.feat.tt,
        !c.feat.rep,
        !c.feat.lmr,
    ensures
        ({
            let v = val(wide_negamax(p, depth, c, m));
            let f = |q: Pos| val(wide_negamax(q, depth - 1, c, child_m));
            if outcome(p) != 3 {
                v == val(terminal_value(p, outcome(p), c))
            } else if depth <= 0 && c.quiesce {
                v == val(wide_quiesce(p, c, child_m, c.quiesce_max))
            } else if depth <= 0 {
                v == val(evaluation(p, mover(p), c.w_mob, c.w_king, c.values, c.feat))
            } else {
                &&& forall|x: (u8, u8)| #[trigger] may_move(p, x) ==> move_worth(p, x, f) <= v
                &&& exists|x: (u8, u8)| #[trigger] may_move(p, x) && move_worth(p, x, f) == v
            }
        }),
{
    law_full_window_is_exact(p, depth, c, m, val);
    let v = val(wide_negamax(p, depth, c, m));
    if outcome(p) == 3 && depth <= 0 {
        lemma_wide_quiesce(p, c, child_m, c.quiesce_max, val);
    }
    if outcome(p) == 3 && depth >= 1 {
        let mv = all_moves(p);
        let f = |q: Pos| val(wide_negamax(q, depth - 1, c, child_m));
        assert forall|q: Pos| #[trigger] f(q) == expectimax(q, depth - 1, c, val) by {
            law_full_window_is_exact(q, depth - 1, c, child_m, val);
        }
        assert forall|x: (u8, u8)| #[trigger]
            move_worth(p, x, f) == exact_move(p, x, depth, c, val) by {
            lemma_average_of(p, x, 0, depth, c, f, val);
        }
        lemma_best_of_is_largest(p, mv, 0, depth, c, val);
        assert forall|x: (u8, u8)| #[trigger] may_move(p, x) implies move_worth(p, x, f) <= v by {
            law_moves_on_squares(p, x);
            let i = choose|i: int| 0 <= i < mv.len() && mv[i] == x;
            assert(exact_move(p, mv[i], depth, c, val) <= v);
        }
        let k = choose|j: int|
            0 <= j < mv.len() && exact_move(p, #[trigger] mv[j], depth, c, val) == best_of(
                p,
                mv,
                0,
                depth,
                c,
                val,
            );
        assert(mv.contains(mv[k]));
        law_moves_on_squares(p, mv[k]);
        assert(may_move(p, mv[k]) && move_worth(p, mv[k], f) == v);
    }
}

/// A search counts the nodes it visits: one for a position that it does not search further.
pub proof fn law_one_node_for_a_leaf<A: Arith>(
    p: Pos,
    depth: int,
    alpha: A,
    beta: A,
    c: Params<A>,
    m: Mem<A>,
)
    requires
        outcome(p) != 3 || (depth <= 0 && !c.quiesce),
    ensures
        negamax(p, depth, alpha, beta, c, m).1.nodes == m.nodes + 1,
        outcome(p) != 3 ==> quiesce(p, alpha, beta, c, m, depth).1.nodes == m.nodes + 1,
{
}

// ---------------------------------------------------------------- repetitions

/// `x` is the only move of `p`, and no flip.
pub open spec fn forced(p: Pos, x: (u8, u8)) -> bool {
    all_moves(p) == seq![x] && x.0 != x.1
}

proof fn lemma_single(s: Seq<(u8, u8)>, x: (u8, u8))
    requires
        s.to_multiset() == seq![x].to_multiset(),
    ensures
        s == seq![x],
{
    lemma_lengths_agree(s, seq![x]);
    lemma_same_moves(s, seq![x], s[0]);
    assert(s.contains(s[0]));
    assert(s =~= seq![x]);
}

/// A node with one move is worth what that move leads to, negated; the position joins the path on
/// the way.
proof fn lemma_forced_node<A: Arith>(
    p: Pos,
    x: (u8, u8),
    depth: int,
    alpha: A,
    beta: A,
    c: Params<A>,
    m: Mem<A>,
    val: spec_fn(A) -> real,
)
    requires
        faithful(val),
        c.feat.rep,
        !c.feat.tt,
        !c.feat.lmr,
        outcome(p) == 3,
        depth >= 1,
        forced(p, x),
        !m.path.contains(key_of(p)),
        ({
            let m1 = Mem { path: m.path.push(key_of(p)), ..ticked(m) };
            let w = negamax(
                after(p, x, 0),
                depth - 1,
                A::negation_of(beta),
                A::negation_of(alpha),
                c,
                m1,
            ).0;
            -1real <= val(w) <= 1real
        }),
    ensures
        ({
            let m1 = Mem { path: m.path.push(key_of(p)), ..ticked(m) };
            let w = negamax(
                after(p, x, 0),
                depth - 1,
                A::negation_of(beta),
                A::negation_of(alpha),
                c,
                m1,
            ).0;
            val(negamax(p, depth, alpha, beta, c, m).0) == -val(w)
        }),
{
    let m0 = ticked(m);
    let m1 = Mem { path: m.path.push(key_of(p)), ..m0 };
    let o = search_order(p, all_moves(p), depth, c, m0);
    lemma_search_order_keeps(p, all_moves(p), depth, c, m0);
    lemma_single(o, x);
    let mv = promoted(o, None);
    assert(mv == seq![x]);
    let (v, m2) = node_move(p, x, 0, depth, alpha, beta, c, m1);
    assert(A::is_less(A::lowest_of(), v));
    let alpha1 = if A::is_less(alpha, v) {
        v
    } else {
        alpha
    };
    assert(node_from(p, mv, 1, depth, alpha1, beta, v, x, c, m2).0 == v);
    assert(node_from(p, mv, 0, depth, alpha, beta, A::lowest_of(), mv[0], c, m1).0 == v);
}

/// Where both players have one move only and these lead back to where they began, the search sees
/// the repetition inside its own line, and the position is worth a draw.
pub proof fn law_forced_cycle_is_a_draw<A: Arith>(
    p: Pos,
    x: (u8, u8),
    y: (u8, u8),
    depth: int,
    alpha: A,
    beta: A,
    c: Params<A>,
    m: Mem<A>,
    val: spec_fn(A) -> real,
)
    requires
        faithful(val),
        bounded(c, val),
        c.feat.rep,
        !c.feat.tt,
        !c.feat.lmr,
        depth >= 3,
        ({
            let q = after(p, x, 0);
            let r = after(q, y, 0);
            &&& forced(p, x)
            &&& forced(q, y)
            &&& outcome(p) == 3
            &&& outcome(q) == 3
            &&& outcome(r) == 3
            &&& key_of(r) == key_of(p)
            &&& key_of(q) != key_of(p)
            &&& !m.path.contains(key_of(p))
            &&& !m.path.contains(key_of(q))
        }),
    ensures
        val(negamax(p, depth, alpha, beta, c, m).0) == val(
            terminal_value(after(after(p, x, 0), y, 0), 2, c),
        ),
{
    let q = after(p, x, 0);
    let r = after(q, y, 0);
    let m1 = Mem { path: m.path.push(key_of(p)), ..ticked(m) };
    let m2 = Mem { path: m1.path.push(key_of(q)), ..ticked(m1) };
    let na = A::negation_of(alpha);
    let nb = A::negation_of(beta);
    assert(!m1.path.contains(key_of(q))) by {
        if m1.path.contains(key_of(q)) {
            let i = choose|i: int| 0 <= i < m1.path.len() && m1.path[i] == key_of(q);
            if i < m.path.len() {
                assert(m.path[i] == key_of(q));
            }
        }
    }
    assert(ticked(m2).path.contains(key_of(r))) by {
        assert(ticked(m2).path[m.path.len() as int] == key_of(p));
    }
    let nna = A::negation_of(na);
    let nnb = A::negation_of(nb);
    assert(negamax(r, depth - 2, nna, nnb, c, m2).0 == terminal_value(r, 2, c));
    lemma_terminal_bounds(r, 2, c, val);
    lemma_forced_node(q, y, depth - 1, nb, na, c, m1, val);
    lemma_forced_node(p, x, depth, alpha, beta, c, m, val);
}

// ---------------------------------------------------------------- the table

/// An entry says the truth about `v`: the value itself, a bound below it, or one above it.
pub open spec fn truthful<A: Arith>(e: TtEntry<A>, v: real, val: spec_fn(A) -> real) -> bool {
    &&& e.flag == 1 ==> val(e.value) == v
    &&& e.flag == 2 ==> val(e.value) <= v
    &&& e.flag == 3 ==> v <= val(e.value)
}

/// What the table answers, from an entry that says the truth, is right for the window. It answers
/// for the position asked for, and only from a search that was at least as deep.
pub proof fn law_table_answers<A: Arith>(
    m: Mem<A>,
    key: u64,
    depth: int,
    alpha: A,
    beta: A,
    v: real,
    val: spec_fn(A) -> real,
)
    requires
        faithful(val),
        val(alpha) < val(beta),
        truthful(tt_entry(m, key), v, val),
    ensures
        tt_value(m, key, depth, alpha, beta) matches Some(r) ==> agrees(
            val(r),
            v,
            val(alpha),
            val(beta),
        ) && tt_entry(m, key).key == key && tt_entry(m, key).depth >= depth && tt_entry(m, key).flag
            != 0,
        ({
            let e = tt_entry(m, key);
            e.key == key && e.depth >= depth && (e.flag == 1 || (e.flag == 2 && val(e.value) >= val(
                beta,
            )) || (e.flag == 3 && val(e.value) <= val(alpha)))
        }) ==> tt_value(m, key, depth, alpha, beta) == Some(tt_entry(m, key).value),
{
}

/// A search that finds the answer in the table gives it, at the cost of one node.
pub proof fn law_table_settles<A: Arith>(
    p: Pos,
    depth: int,
    alpha: A,
    beta: A,
    c: Params<A>,
    m: Mem<A>,
)
    requires
        c.feat.tt,
        !c.feat.rep,
        outcome(p) == 3,
        depth >= 1,
        tt_value(m, key_of(p), depth, alpha, beta) is Some,
    ensures
        negamax(p, depth, alpha, beta, c, m).0 == tt_value(m, key_of(p), depth, alpha, beta)->0,
        negamax(p, depth, alpha, beta, c, m).1.nodes == m.nodes + 1,
        negamax(p, depth, alpha, beta, c, m).1.tt == m.tt,
{
    assert(ticked(m).tt == m.tt);
    assert(tt_value(ticked(m), key_of(p), depth, alpha, beta) == tt_value(
        m,
        key_of(p),
        depth,
        alpha,
        beta,
    ));
}

/// A result takes the place of an empty entry, of one for another position, and of one that was
/// not searched deeper; a deeper entry for the same position stays.
pub proof fn law_deeper_entries_stay<A: Arith>(
    m: Mem<A>,
    key: u64,
    depth: int,
    alpha: A,
    beta: A,
    best: A,
    best_m: (u8, u8),
)
    requires
        m.tt.len() > 0,
        0 <= depth <= i16::MAX,
    ensures
        ({
            let old = tt_entry(m, key);
            let n = tt_stored(m, key, depth, alpha, beta, best, best_m);
            let new = tt_entry(n, key);
            if old.flag != 0 && old.key == key && old.depth > depth {
                n == m
            } else {
                &&& new.key == key
                &&& new.value == best
                &&& new.depth == depth
                &&& new.best == best_m
                &&& new.flag == if A::is_at_most(best, alpha) {
                    3u8
                } else if A::is_at_most(beta, best) {
                    2u8
                } else {
                    1u8
                }
            }
        }),
{
    assert(0 <= key as int % m.tt.len() as int) by (nonlinear_arith)
        requires
            key >= 0,
            m.tt.len() > 0,
    ;
}

// ---------------------------------------------------------------- reductions

/// Captures, flips and the first three moves of a node are searched in full, and so is every move
/// of a node with a remaining depth of less than three, or with reductions off.
pub proof fn law_what_is_searched_in_full<A: Arith>(
    p: Pos,
    x: (u8, u8),
    i: int,
    depth: int,
    alpha: A,
    beta: A,
    c: Params<A>,
    m: Mem<A>,
)
    requires
        depth >= 1,
        !c.feat.lmr || x.0 == x.1 || p.sq[x.1 as int] >= 0 || i < 3 || depth < 3,
    ensures
        node_move(p, x, i, depth, alpha, beta, c, m) == move_value(p, x, depth, alpha, beta, c, m),
{
}

/// Any other move is probed two plies less deep, in a window of a millionth above alpha. Where the
/// probe does not beat alpha it stands; where it does, the move is searched in full.
pub proof fn law_late_moves_are_probed<A: Arith>(
    p: Pos,
    x: (u8, u8),
    i: int,
    depth: int,
    alpha: A,
    beta: A,
    c: Params<A>,
    m: Mem<A>,
    val: spec_fn(A) -> real,
)
    requires
        faithful(val),
        c.feat.lmr,
        x.0 != x.1,
        p.sq[x.1 as int] < 0,
        i >= 3,
        depth >= 3,
    ensures
        exists|lo: A|
            #![trigger A::negation_of(lo)]
            val(lo) == -val(alpha) - 1real / 1_000_000real && {
                let (w, m1) = negamax(
                    after(p, x, 0),
                    depth - 2,
                    lo,
                    A::negation_of(alpha),
                    c,
                    m,
                );
                let v = val(node_move(p, x, i, depth, alpha, beta, c, m).0);
                if -val(w) <= val(alpha) {
                    v == -val(w)
                } else {
                    v == val(move_value(p, x, depth, alpha, beta, c, m1).0)
                }
            },
{
    let lo = A::difference_of(A::negation_of(alpha), A::ratio_of(1, 1_000_000));
    assert(val(A::ratio_of(1, 1_000_000)) == 1real / 1_000_000real);
    let n = A::negation_of(lo);
    assert(val(lo) == -val(alpha) - 1real / 1_000_000real);
}

// ---------------------------------------------------------------- chances and records

/// The chance of an outcome is its share of the bag.
pub proof fn law_chances<A: Arith>(bag: Seq<u32>, code: int, val: spec_fn(A) -> real)
    requires
        faithful(val),
        0 <= code < 14,
        bag[code] > 0,
    ensures
        ({
            let total = bag[0] + bag[1] + bag[2] + bag[3] + bag[4] + bag[5] + bag[6] + bag[7]
                + bag[8] + bag[9] + bag[10] + bag[11] + bag[12] + bag[13];
            &&& val(chance::<A>(bag, code)) == (bag[code] as real) / (total as real)
            &&& probability(bag, code) == (bag[code] as real) / (total as real)
        }),
{
    law_bag_sums(bag, 0);
    lemma_some_tiles(bag, code);
    lemma_chance(bag, code, val);
}

/// At the horizon neither the history nor the table is looked at.
pub proof fn law_horizon<A: Arith>(
    p: Pos,
    depth: int,
    alpha: A,
    beta: A,
    c: Params<A>,
    m: Mem<A>,
)
    requires
        outcome(p) == 3,
        depth <= 0,
    ensures
        !c.quiesce ==> negamax(p, depth, alpha, beta, c, m).0 == evaluation(
            p,
            mover(p),
            c.w_mob,
            c.w_king,
            c.values,
            c.feat,
        ),
        c.quiesce ==> negamax(p, depth, alpha, beta, c, m).0 == quiesce(
            p,
            alpha,
            beta,
            c,
            ticked(m),
            c.quiesce_max,
        ).0,
        negamax(p, depth, alpha, beta, c, m).1.tt == m.tt,
{
    if c.quiesce {
        lemma_quiesce_leaves_the_table(p, alpha, beta, c, ticked(m), c.quiesce_max);
    }
}

proof fn lemma_quiesce_leaves_the_table<A: Arith>(
    p: Pos,
    alpha: A,
    beta: A,
    c: Params<A>,
    m: Mem<A>,
    q: int,
)
    ensures
        quiesce(p, alpha, beta, c, m, q).1.tt == m.tt,
    decreases q, 1int, 0int,
{
    let stand = leaf_value(p, c);
    if outcome(p) == 3 && !A::is_at_most(beta, stand) && q > 0 {
        let a = if A::is_less(alpha, stand) {
            stand
        } else {
            alpha
        };
        lemma_captures_leave_the_table(p, best_captures(p), 0, a, beta, stand, c, ticked(m), q);
    }
}

proof fn lemma_captures_leave_the_table<A: Arith>(
    p: Pos,
    caps: Seq<(i32, (u8, u8))>,
    i: int,
    alpha: A,
    beta: A,
    best: A,
    c: Params<A>,
    m: Mem<A>,
    q: int,
)
    requires
        q >= 1,
    ensures
        quiesce_from(p, caps, i, alpha, beta, best, c, m, q).1.tt == m.tt,
    decreases q, 0int, caps.len() - i,
{
    if i < caps.len() {
        let child = after(p, caps[i].1, 0);
        let nb = A::negation_of(beta);
        let na = A::negation_of(alpha);
        lemma_quiesce_leaves_the_table(child, nb, na, c, m, q - 1);
        let (w, m1) = quiesce(child, nb, na, c, m, q - 1);
        let v = A::negation_of(w);
        let best1 = if A::is_less(best, v) {
            v
        } else {
            best
        };
        let alpha1 = if A::is_less(alpha, best1) {
            best1
        } else {
            alpha
        };
        if !A::is_at_most(beta, alpha1) {
            lemma_captures_leave_the_table(p, caps, i + 1, alpha1, beta, best1, c, m1, q);
        }
    }
}

/// A position that was searched is in the table afterwards: with the result and the depth of this
/// search, or with those of a deeper one.
pub proof fn law_results_are_recorded<A: Arith>(
    p: Pos,
    depth: int,
    alpha: A,
    beta: A,
    c: Params<A>,
    m: Mem<A>,
    val: spec_fn(A) -> real,
)
    requires
        faithful(val),
        bounded(c, val),
        tame(m, c, val),
        reasonable(alpha, beta, c, val),
        c.feat.tt,
        !(c.feat.rep && m.path.contains(key_of(p))),
        outcome(p) == 3,
        1 <= depth <= i16::MAX,
        tt_value(m, key_of(p), depth, alpha, beta) is None,
    ensures
        ({
            let (r, n) = negamax(p, depth, alpha, beta, c, m);
            let e = tt_entry(n, key_of(p));
            &&& e.key == key_of(p)
            &&& e.flag != 0
            &&& e.depth > depth || (e.depth == depth && e.value == r)
        }),
{
    let key = key_of(p);
    let m1 = ticked(m);
    assert(m1.tt == m.tt);
    assert(tt_value(m1, key, depth, alpha, beta) == tt_value(m, key, depth, alpha, beta));
    let o = search_order(p, all_moves(p), depth, c, m1);
    let hint = tt_move(m1, key);
    let mv = promoted(o, hint);
    lemma_search_order_keeps(p, all_moves(p), depth, c, m1);
    lemma_promote_keeps(o, hint);
    lemma_lengths_agree(mv, all_moves(p));
    let m2 = if c.feat.rep {
        Mem { path: m1.path.push(key), ..m1 }
    } else {
        m1
    };
    lemma_node_tame(p, mv, 0, depth, alpha, beta, A::lowest_of(), mv[0], c, m2, val);
    let (best, best_m, m3) = node_from(
        p,
        mv,
        0,
        depth,
        alpha,
        beta,
        A::lowest_of(),
        mv[0],
        c,
        m2,
    );
    let m4 = if c.feat.rep {
        Mem { path: m3.path.drop_last(), ..m3 }
    } else {
        m3
    };
    law_deeper_entries_stay(m4, key, depth, alpha, beta, best, best_m);
}

} // verus!
