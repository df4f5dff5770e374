//! That the engine's choice is best.
//!
//! Where pruning is exact, the move that the root search chooses at a depth has the largest
//! value without pruning of all moves, and the value that comes with it is that value. The same
//! holds of the values in the table of all root moves.
use vstd::prelude::*;

use crate::arith::{faithful, Arith};
use crate::board::{all_moves, Pos};
use crate::bounds::{lemma_move_tame, tame};
use crate::engine::{lemma_search_order_keeps, Request};
use crate::expectimax::{
    bounded, exact_feat, exact_move, lemma_exact_move_bounds, lemma_lengths_agree,
    lemma_move_agrees, lemma_whole,
};
use crate::model::{move_value, search_order, vmax, vmin, Mem, Params};
use crate::order::{lemma_promote_keeps, lemma_same_moves, promoted};
use crate::root::{root_best, root_from};
use crate::table::{law_ranked_descends, law_ranked_keeps, ranked, rows_of};

verus! {

/// Switches under which the root search is exact.
pub open spec fn exact_root<A: Arith>(c: Params<A>) -> bool {
    exact_feat(c) && !c.feat.no_draw_sac
}

/// The move `x` is one of `mv`, and none of them is worth more.
pub open spec fn is_best<A: Arith>(
    p: Pos,
    mv: Seq<(u8, u8)>,
    x: (u8, u8),
    depth: int,
    c: Params<A>,
    val: spec_fn(A) -> real,
) -> bool {
    &&& mv.contains(x)
    &&& forall|i: int|
        0 <= i < mv.len() ==> exact_move(p, #[trigger] mv[i], depth, c, val) <= exact_move(
            p,
            x,
            depth,
            c,
            val,
        )
}

proof fn lemma_root_is_best<A: Arith>(
    p: Pos,
    mv: Seq<(u8, u8)>,
    i: int,
    depth: int,
    alpha: A,
    best_val: A,
    best: Option<((u8, u8), A)>,
    c: Params<A>,
    m: Mem<A>,
    val: spec_fn(A) -> real,
)
    requires
        faithful(val),
        bounded(c, val),
        exact_root(c),
        depth >= 1,
        0 <= i <= mv.len(),
        i == 0 ==> val(alpha) == -1real && best_val == A::lowest_of(),
        i > 0 ==> {
            &&& best matches Some(b)
            &&& val(alpha) == val(best_val)
            &&& best_val == (best->0).1
            &&& val(best_val) == exact_move(p, (best->0).0, depth, c, val)
            &&& is_best(p, mv.take(i), (best->0).0, depth, c, val)
        },
        mv.len() > 0,
    ensures
        ({
            let r = root_from(p, mv, i, depth, alpha, best_val, best, c, m).0;
            &&& r matches Some(b)
            &&& val((r->0).1) == exact_move(p, (r->0).0, depth, c, val)
            &&& is_best(p, mv, (r->0).0, depth, c, val)
        }),
    decreases mv.len() - i,
{
    if i < mv.len() {
        let x = mv[i];
        let y = exact_move(p, x, depth, c, val);
        lemma_whole(1, val);
        lemma_exact_move_bounds(p, x, depth, c, val);
        let (v, m1) = move_value(p, x, depth, alpha, vmax(), c, m);
        assert(tame(m, c, val));
        lemma_exact_move_bounds(p, (best->0).0, depth, c, val);
        lemma_move_tame(p, x, depth, alpha, vmax(), c, m, val);
        if val(alpha) < 1real {
            lemma_move_agrees(p, x, depth, alpha, vmax(), c, m, val);
        }
        let old = mv.take(i);
        let new = mv.take(i + 1);
        assert(new[i] == x);
        assert(new.contains(x));
        assert forall|j: int| 0 <= j < i implies #[trigger] new[j] == old[j] by {}
        if A::is_less(best_val, v) {
            assert(val(v) == y);
            assert(is_best(p, new, x, depth, c, val)) by {
                assert forall|j: int| 0 <= j < new.len() implies exact_move(
                    p,
                    #[trigger] new[j],
                    depth,
                    c,
                    val,
                ) <= y by {
                    if j < i {
                        assert(exact_move(p, old[j], depth, c, val) <= exact_move(
                            p,
                            (best->0).0,
                            depth,
                            c,
                            val,
                        ));
                    }
                }
            }
            let alpha1 = if A::is_less(alpha, v) {
                v
            } else {
                alpha
            };
            assert(val(alpha1) == val(v));
            lemma_root_is_best(p, mv, i + 1, depth, alpha1, v, Some((x, v)), c, m1, val);
        } else {
            assert(i > 0);
            assert(y <= val(best_val));
            assert(is_best(p, new, (best->0).0, depth, c, val)) by {
                let k = choose|k: int| 0 <= k < old.len() && old[k] == (best->0).0;
                assert(new[k] == (best->0).0);
                assert forall|j: int| 0 <= j < new.len() implies exact_move(
                    p,
                    #[trigger] new[j],
                    depth,
                    c,
                    val,
                ) <= val(best_val) by {
                    if j < i {
                        assert(exact_move(p, old[j], depth, c, val) <= val(best_val));
                    }
                }
            }
            lemma_root_is_best(p, mv, i + 1, depth, alpha, best_val, best, c, m1, val);
        }
    } else {
        assert(mv.take(i) =~= mv);
    }
}

/// The root search at a depth finds a best move, and its value.
pub proof fn law_root_move_is_best<A: Arith>(
    p: Pos,
    depth: int,
    c: Params<A>,
    m: Mem<A>,
    hint: Option<(u8, u8)>,
    val: spec_fn(A) -> real,
)
    requires
        faithful(val),
        bounded(c, val),
        exact_root(c),
        depth >= 1,
        all_moves(p).len() > 0,
    ensures
        ({
            let r = root_best(p, depth, c, m, hint).0;
            &&& r matches Some(b)
            &&& val((r->0).1) == exact_move(p, (r->0).0, depth, c, val)
            &&& is_best(p, all_moves(p), (r->0).0, depth, c, val)
        }),
{
    let o = search_order(p, all_moves(p), depth, c, m);
    let mv = promoted(o, hint);
    lemma_search_order_keeps(p, all_moves(p), depth, c, m);
    lemma_promote_keeps(o, hint);
    lemma_lengths_agree(mv, all_moves(p));
    lemma_whole(-1, val);
    lemma_root_is_best(p, mv, 0, depth, vmin(), A::lowest_of(), None, c, m, val);
    let x = (root_best(p, depth, c, m, hint).0->0).0;
    lemma_same_moves(mv, all_moves(p), x);
    assert forall|i: int| 0 <= i < all_moves(p).len() implies exact_move(
        p,
        #[trigger] all_moves(p)[i],
        depth,
        c,
        val,
    ) <= exact_move(p, x, depth, c, val) by {
        let y = all_moves(p)[i];
        assert(all_moves(p).contains(y));
        lemma_same_moves(mv, all_moves(p), y);
        let j = choose|j: int| 0 <= j < mv.len() && mv[j] == y;
        assert(exact_move(p, mv[j], depth, c, val) <= exact_move(p, x, depth, c, val));
    }
}

/// Iterative deepening ends with a best move of the last depth that it finished, and with the
/// value of that move.
pub proof fn law_deepening_finds_a_best_move<A: Arith>(
    q: Request<A>,
    n: int,
    val: spec_fn(A) -> real,
)
    requires
        faithful(val),
        bounded(q.params(), val),
        exact_root(q.params()),
        all_moves(q.pos).len() > 0,
    ensures
        ({
            let g = q.deepened(n);
            g.depth >= 1 ==> {
                &&& val(g.value) == exact_move(q.pos, g.best, g.depth, q.params(), val)
                &&& is_best(q.pos, all_moves(q.pos), g.best, g.depth, q.params(), val)
            }
        }),
    decreases n,
{
    if n > 0 {
        law_deepening_finds_a_best_move(q, n - 1, val);
        let g = q.deepened(n - 1);
        if !g.done {
            law_root_move_is_best(q.pos, n, q.params(), g.mem, g.hint, val);
        }
    }
}

// ---------------------------------------------------------------- the table of root moves

proof fn lemma_move_is_exact<A: Arith>(
    p: Pos,
    x: (u8, u8),
    depth: int,
    c: Params<A>,
    m: Mem<A>,
    val: spec_fn(A) -> real,
)
    requires
        faithful(val),
        bounded(c, val),
        exact_feat(c),
        depth >= 1,
    ensures
        val(move_value(p, x, depth, vmin(), vmax(), c, m).0) == exact_move(p, x, depth, c, val),
{
    lemma_whole(1, val);
    lemma_whole(-1, val);
    lemma_move_agrees(p, x, depth, vmin(), vmax(), c, m, val);
    lemma_exact_move_bounds(p, x, depth, c, val);
}

/// Every value in the table of root moves is the value of its move without pruning.
pub proof fn law_rows_are_exact<A: Arith>(
    p: Pos,
    mv: Seq<(u8, u8)>,
    n: int,
    depth: int,
    c: Params<A>,
    m: Mem<A>,
    val: spec_fn(A) -> real,
)
    requires
        faithful(val),
        bounded(c, val),
        exact_feat(c),
        depth >= 1,
        0 <= n <= mv.len(),
    ensures
        ({
            let rows = rows_of(p, mv, n, depth, c, m).0;
            &&& rows.len() == n
            &&& forall|i: int|
                0 <= i < n ==> (#[trigger] rows[i]).0 == mv[i] && val(rows[i].1) == exact_move(
                    p,
                    mv[i],
                    depth,
                    c,
                    val,
                )
        }),
    decreases n,
{
    if n > 0 {
        law_rows_are_exact(p, mv, n - 1, depth, c, m, val);
        let (rows, m1) = rows_of(p, mv, n - 1, depth, c, m);
        lemma_move_is_exact(p, mv[n - 1], depth, c, m1, val);
        let all = rows_of(p, mv, n, depth, c, m).0;
        assert forall|i: int| 0 <= i < n implies (#[trigger] all[i]).0 == mv[i] && val(all[i].1)
            == exact_move(p, mv[i], depth, c, val) by {
            if i < n - 1 {
                assert(all[i] == rows[i]);
            }
        }
    }
}

/// Every row of the table gives its move the value without pruning, and the best comes first.
pub proof fn law_table_is_exact<A: Arith>(q: Request<A>, n: int, val: spec_fn(A) -> real)
    requires
        faithful(val),
        bounded(q.params(), val),
        exact_feat(q.params()),
    ensures
        ({
            let g = q.tabled(n);
            &&& g.depth >= 1 ==> forall|i: int|
                0 <= i < g.rows.len() ==> val((#[trigger] g.rows[i]).1) == exact_move(
                    q.pos,
                    g.rows[i].0,
                    g.depth,
                    q.params(),
                    val,
                )
            &&& forall|i: int, j: int|
                0 <= i <= j < g.rows.len() ==> val((#[trigger] g.rows[j]).1) <= val((
                #[trigger] g.rows[i]).1)
        }),
    decreases n,
{
    if n > 0 {
        law_table_is_exact(q, n - 1, val);
        let g = q.tabled(n - 1);
        if !g.done {
            let c = q.params();
            let mv = promoted(search_order(q.pos, g.mv, n, c, g.mem), g.hint);
            let rows = rows_of(q.pos, mv, mv.len() as int, n, c, g.mem).0;
            law_rows_are_exact(q.pos, mv, mv.len() as int, n, c, g.mem, val);
            law_ranked_descends(rows, val);
            law_ranked_keeps(rows);
            let r = ranked(rows);
            assert forall|i: int| 0 <= i < r.len() implies val((#[trigger] r[i]).1) == exact_move(
                q.pos,
                r[i].0,
                n,
                c,
                val,
            ) by {
                broadcast use vstd::seq_lib::group_to_multiset_ensures;

                assert(r.contains(r[i]));
                assert(rows.to_multiset().count(r[i]) > 0);
                assert(rows.contains(r[i]));
                let j = choose|j: int| 0 <= j < rows.len() && rows[j] == r[i];
                assert(rows[j].0 == mv[j]);
            }
        }
    }
}

} // verus!
