//! What the engine is asked for, what it remembers of the game, and what it decides.
use vstd::prelude::*;

use crate::arith::{faithful, Arith};
use crate::board::{after, all_moves, flips, mover, moves_of, outcome, wf, Pos};
use crate::bounds::{
    guard_bounded, law_engine_values_bounded, law_root_finds_a_move,
    law_unfinished_search_spends_the_budget, lemma_guarded_tame, lemma_move_tame, tame,
};
use crate::cycles::{
    lemma_line_exact_move_bounds, lemma_line_move_agrees, lemma_wide_line, line_average, line_move,
    line_value, no_shortcuts,
};
use crate::engine::{
    answers, bare_params, lemma_search_order_keeps, plain_request, replayed, value_by_search,
    window_request, Request,
};
use crate::eval::{evaluation, Feat};
use crate::expectimax::{
    bounded, flip_average, law_full_window_is_exact, lemma_lengths_agree, lemma_whole, move_worth,
};
use crate::fen::Reading;
use crate::model::{
    lemma_move_value_keeps, move_value, search_order, terminal_value, vmax, vmin, Mem, Params,
};
use crate::movement::{law_moves_on_squares, law_turns, may_move};
use crate::order::{
    lemma_plain_order_keeps, lemma_promote_keeps, lemma_same_moves, plainly_ordered, promoted,
};
use crate::protocol::{reported, reports, shipped_request};
use crate::root::{
    deepening_result, draw_value, guarded, lemma_root_from_grows, losing_capture, retaken,
    root_best, root_from, timed_out, SearchStats,
};
use crate::rules::{
    law_all_moves_are_the_legal_moves, law_moves_and_flips, law_play_keeps_form, law_turn_passes,
    lemma_moves_of,
};
use crate::search::{ran, stop_count, Ctx};
use crate::searching::{law_plain_order, plain_rank, wide_negamax};
use crate::table::{rows_of, table_rows, Table};
use crate::uci::move_text;
use crate::zobrist::key_of;

verus! {

// ---------------------------------------------------------------- losing captures

/// The moves of a color are the moves there are for the player to move that are no flips.
proof fn lemma_color_moves(p: Pos, y: (u8, u8))
    requires
        wf(p),
        mover(p) >= 0,
    ensures
        moves_of(p.sq, mover(p), 32).contains(y) <==> may_move(p, y) && y.0 != y.1,
{
    law_moves_on_squares(p, y);
    law_all_moves_are_the_legal_moves(p, y);
    lemma_moves_of(p.sq, mover(p), 32, y);
    let f = flips(p.sq, 32);
    let s = moves_of(p.sq, mover(p), 32);
    if s.contains(y) {
        let i = choose|i: int| 0 <= i < s.len() && s[i] == y;
        assert((f + s)[f.len() + i] == y);
        assert(all_moves(p).contains(y));
        law_moves_and_flips(p, y);
    }
    if may_move(p, y) && y.0 != y.1 {
        law_moves_and_flips(p, y);
        assert(!crate::rules::is_flip(p, y));
    }
}

/// A losing capture takes a piece worth less with one worth more, where an answer of the opponent
/// lands on the same square.
pub proof fn law_losing_captures<A: Arith>(
    p: Pos,
    x: (u8, u8),
    values: Seq<A>,
    val: spec_fn(A) -> real,
)
    requires
        faithful(val),
        wf(p),
        p.first_color >= 0,
        may_move(p, x),
    ensures
        losing_capture(p, x, values) <==> {
            &&& x.0 != x.1
            &&& p.sq[x.1 as int] >= 0
            &&& val(values[p.sq[x.1 as int] as int % 7]) < val(values[p.sq[x.0 as int] as int % 7])
            &&& exists|y: (u8, u8)| #[trigger]
                may_move(after(p, x, 0), y) && y.0 != y.1 && y.1 == x.1
        },
{
    law_moves_on_squares(p, x);
    law_all_moves_are_the_legal_moves(p, x);
    if x.0 != x.1 {
        let q = after(p, x, 0);
        law_play_keeps_form(p, x, 0);
        law_turn_passes(p, x, 0);
        let s = moves_of(q.sq, 1 - mover(p), 32);
        if retaken(q.sq, x.1 as int, mover(p)) {
            let i = choose|i: int| 0 <= i < s.len() && (#[trigger] s[i]).1 == x.1 as int;
            assert(s.contains(s[i]));
            lemma_color_moves(q, s[i]);
            assert(may_move(q, s[i]) && s[i].0 != s[i].1 && s[i].1 == x.1);
        }
        if exists|y: (u8, u8)| #[trigger] may_move(q, y) && y.0 != y.1 && y.1 == x.1 {
            let y = choose|y: (u8, u8)| #[trigger] may_move(q, y) && y.0 != y.1 && y.1 == x.1;
            lemma_color_moves(q, y);
            let i = choose|i: int| 0 <= i < s.len() && s[i] == y;
            assert(s[i].1 == x.1 as int);
        }
    }
}

/// The draw that the guard measures against is the draw of the player at the root.
pub proof fn law_draw_at_the_root<A: Arith>(p: Pos, c: Params<A>, val: spec_fn(A) -> real)
    requires
        faithful(val),
        c.root == mover(p),
    ensures
        val(draw_value(c)) == val(terminal_value(p, 2, c)),
        val(draw_value(c)) == if p.first_color < 0 {
            0real
        } else if mover(p) >= 0 {
            -val(c.contempt)
        } else {
            0real
        },
{
    law_turns(p);
    lemma_whole(0, val);
}

/// What a move that is worth `y` counts at the root: a losing capture worth less than 0.3 counts
/// at most a thousandth less than a draw.
pub open spec fn counted<A: Arith>(
    p: Pos,
    x: (u8, u8),
    y: real,
    c: Params<A>,
    val: spec_fn(A) -> real,
) -> real {
    let limit = val(draw_value(c)) - 1real / 1000real;
    if c.feat.no_draw_sac && y < 3real / 10real && y > limit && losing_capture(p, x, c.values) {
        limit
    } else {
        y
    }
}

/// The guard counts a value as stated.
pub proof fn law_guard_counts<A: Arith>(
    p: Pos,
    x: (u8, u8),
    v: A,
    c: Params<A>,
    val: spec_fn(A) -> real,
)
    requires
        faithful(val),
    ensures
        val(guarded(p, x, v, c)) == counted(p, x, val(v), c, val),
{
    assert(val(A::ratio_of(1, 1000)) == 1real / 1000real);
    assert(val(A::ratio_of(3, 10)) == 3real / 10real);
}

// ---------------------------------------------------------------- the root, guarded

/// The move `x` counts as much as any of `mv`.
spec fn counts_most<A: Arith>(
    p: Pos,
    mv: Seq<(u8, u8)>,
    x: (u8, u8),
    depth: int,
    c: Params<A>,
    path: Seq<u64>,
    val: spec_fn(A) -> real,
) -> bool {
    &&& mv.contains(x)
    &&& forall|i: int|
        0 <= i < mv.len() ==> counted(
            p,
            #[trigger] mv[i],
            line_move(p, mv[i], depth, c, path, val),
            c,
            val,
        ) <= counted(p, x, line_move(p, x, depth, c, path, val), c, val)
}

proof fn lemma_guarded_root<A: Arith>(
    p: Pos,
    mv: Seq<(u8, u8)>,
    i: int,
    depth: int,
    alpha: A,
    best_val: A,
    best: Option<((u8, u8), A)>,
    c: Params<A>,
    m: Mem<A>,
    path: Seq<u64>,
    val: spec_fn(A) -> real,
)
    requires
        faithful(val),
        bounded(c, val),
        guard_bounded(c, val),
        no_shortcuts(c),
        m.path == path,
        depth >= 1,
        0 <= i <= mv.len(),
        mv.len() > 0,
        i == 0 ==> val(alpha) == -1real && best_val == A::lowest_of(),
        i > 0 ==> {
            &&& best matches Some(b)
            &&& val(alpha) == val(best_val)
            &&& best_val == (best->0).1
            &&& -1real <= val(best_val) <= 1real
            &&& val(best_val) == counted(
                p,
                (best->0).0,
                line_move(p, (best->0).0, depth, c, path, val),
                c,
                val,
            )
            &&& counts_most(p, mv.take(i), (best->0).0, depth, c, path, val)
        },
    ensures
        ({
            let r = root_from(p, mv, i, depth, alpha, best_val, best, c, m).0;
            &&& r matches Some(b)
            &&& val((r->0).1) == counted(
                p,
                (r->0).0,
                line_move(p, (r->0).0, depth, c, path, val),
                c,
                val,
            )
            &&& counts_most(p, mv, (r->0).0, depth, c, path, val)
        }),
    decreases mv.len() - i,
{
    if i < mv.len() {
        let x = mv[i];
        let y = line_move(p, x, depth, c, path, val);
        lemma_whole(1, val);
        lemma_whole(0, val);
        lemma_line_exact_move_bounds(p, x, depth, c, path, val);
        lemma_move_value_keeps(p, x, depth, alpha, vmax(), c, m);
        let (w, m1) = move_value(p, x, depth, alpha, vmax(), c, m);
        let v = guarded(p, x, w, c);
        assert(tame(m, c, val));
        lemma_move_tame(p, x, depth, alpha, vmax(), c, m, val);
        lemma_guarded_tame(p, x, w, c, val);
        law_guard_counts(p, x, w, c, val);
        assert(1real / 1000real > 0real) by (nonlinear_arith);
        assert(999real / 1000real + 1real / 1000real == 1real) by (nonlinear_arith);
        assert(3real / 10real < 1real) by (nonlinear_arith);
        let limit = val(draw_value(c)) - 1real / 1000real;
        assert(c.feat.no_draw_sac ==> limit >= -1real);
        if val(alpha) < 1real {
            lemma_line_move_agrees(p, x, depth, alpha, vmax(), c, m, path, val);
        }
        let old = mv.take(i);
        let new = mv.take(i + 1);
        assert(new[i] == x);
        assert(new.contains(x));
        assert forall|j: int| 0 <= j < i implies #[trigger] new[j] == old[j] by {}
        let cy = counted(p, x, y, c, val);
        if A::is_less(best_val, v) {
            assert(val(v) == cy);
            assert(counts_most(p, new, x, depth, c, path, val)) by {
                assert forall|j: int| 0 <= j < new.len() implies counted(
                    p,
                    #[trigger] new[j],
                    line_move(p, new[j], depth, c, path, val),
                    c,
                    val,
                ) <= cy by {
                    if j < i {
                        assert(counted(p, old[j], line_move(p, old[j], depth, c, path, val), c, val)
                            <= val(best_val));
                    }
                }
            }
            let alpha1 = if A::is_less(alpha, v) {
                v
            } else {
                alpha
            };
            assert(val(alpha1) == val(v));
            lemma_guarded_root(p, mv, i + 1, depth, alpha1, v, Some((x, v)), c, m1, path, val);
        } else {
            assert(i > 0);
            assert(cy <= val(best_val));
            assert(counts_most(p, new, (best->0).0, depth, c, path, val)) by {
                let k = choose|k: int| 0 <= k < old.len() && old[k] == (best->0).0;
                assert(new[k] == (best->0).0);
                assert forall|j: int| 0 <= j < new.len() implies counted(
                    p,
                    #[trigger] new[j],
                    line_move(p, new[j], depth, c, path, val),
                    c,
                    val,
                ) <= val(best_val) by {
                    if j < i {
                        assert(counted(p, old[j], line_move(p, old[j], depth, c, path, val), c, val)
                            <= val(best_val));
                    }
                }
            }
            lemma_guarded_root(p, mv, i + 1, depth, alpha, best_val, best, c, m1, path, val);
        }
    } else {
        assert(mv.take(i) =~= mv);
    }
}

proof fn lemma_worth<A: Arith>(
    p: Pos,
    x: (u8, u8),
    code: int,
    depth: int,
    c: Params<A>,
    path: Seq<u64>,
    f: spec_fn(Pos) -> real,
    val: spec_fn(A) -> real,
)
    requires
        depth >= 1,
        forall|q: Pos| #[trigger] f(q) == line_value(q, depth - 1, c, path, val),
    ensures
        line_average(p, x, code, depth, c, path, val) == flip_average(p, x, code, f),
        code == 0 ==> line_move(p, x, depth, c, path, val) == move_worth(p, x, f),
    decreases 14 - code,
{
    if code < 14 {
        lemma_worth(p, x, code + 1, depth, c, path, f, val);
    }
}

/// The root search of a depth finds a move that counts most, with what it counts: of every move
/// there is, its worth as the search of moves has it, held down for losing captures where the
/// guard is on. Where repetitions count, the moves are searched with the path of the root.
pub proof fn law_root_decides<A: Arith>(
    p: Pos,
    depth: int,
    c: Params<A>,
    m: Mem<A>,
    child_m: Mem<A>,
    hint: Option<(u8, u8)>,
    val: spec_fn(A) -> real,
)
    requires
        faithful(val),
        bounded(c, val),
        guard_bounded(c, val),
        !c.feat.tt,
        !c.feat.lmr,
        c.feat.rep ==> child_m.path == m.path,
        wf(p),
        depth >= 1,
        all_moves(p).len() > 0,
    ensures
        ({
            let f = |q: Pos| val(wide_negamax(q, depth - 1, c, child_m));
            let count = |x: (u8, u8)| counted(p, x, move_worth(p, x, f), c, val);
            let r = root_best(p, depth, c, m, hint).0;
            &&& r matches Some(b)
            &&& may_move(p, (r->0).0)
            &&& val((r->0).1) == count((r->0).0)
            &&& forall|x: (u8, u8)| #[trigger] may_move(p, x) ==> count(x) <= val((r->0).1)
        }),
{
    let f = |q: Pos| val(wide_negamax(q, depth - 1, c, child_m));
    let count = |x: (u8, u8)| counted(p, x, move_worth(p, x, f), c, val);
    let path = m.path;
    assert forall|q: Pos| #[trigger] f(q) == line_value(q, depth - 1, c, path, val) by {
        lemma_wide_line(q, depth - 1, c, child_m, val);
        if !c.feat.rep {
            lemma_wide_line(q, depth - 1, c, m, val);
            law_full_window_is_exact(q, depth - 1, c, m, val);
            law_full_window_is_exact(q, depth - 1, c, child_m, val);
        }
    }
    let o = search_order(p, all_moves(p), depth, c, m);
    let mv = promoted(o, hint);
    lemma_search_order_keeps(p, all_moves(p), depth, c, m);
    lemma_promote_keeps(o, hint);
    lemma_lengths_agree(mv, all_moves(p));
    lemma_whole(-1, val);
    lemma_guarded_root(p, mv, 0, depth, vmin(), A::lowest_of(), None, c, m, path, val);
    let b = root_best(p, depth, c, m, hint).0->0;
    lemma_worth(p, b.0, 0, depth, c, path, f, val);
    lemma_same_moves(mv, all_moves(p), b.0);
    law_moves_on_squares(p, b.0);
    assert forall|x: (u8, u8)| #[trigger] may_move(p, x) implies count(x) <= val(b.1) by {
        law_moves_on_squares(p, x);
        lemma_same_moves(mv, all_moves(p), x);
        let j = choose|j: int| 0 <= j < mv.len() && mv[j] == x;
        lemma_worth(p, x, 0, depth, c, path, f, val);
        assert(counted(p, mv[j], line_move(p, mv[j], depth, c, path, val), c, val) <= val(b.1));
    }
}

proof fn lemma_deepening_keeps_the_path<A: Arith>(q: Request<A>, n: int)
    ensures
        q.deepened(n).mem.path == q.memory().path,
    decreases n,
{
    if n > 0 {
        lemma_deepening_keeps_the_path(q, n - 1);
        let g = q.deepened(n - 1);
        if !g.done {
            lemma_root_from_grows(
                q.pos,
                promoted(search_order(q.pos, all_moves(q.pos), n, q.params(), g.mem), g.hint),
                0,
                n,
                vmin(),
                A::lowest_of(),
                None,
                q.params(),
                g.mem,
            );
        }
    }
}

/// Iterative deepening ends with a move that counts most at the last depth it finished, and with
/// what it counts. Where repetitions count, what was seen in the game counts at every depth.
pub proof fn law_deepening_decides<A: Arith>(
    q: Request<A>,
    n: int,
    child_m: Mem<A>,
    val: spec_fn(A) -> real,
)
    requires
        faithful(val),
        bounded(q.params(), val),
        guard_bounded(q.params(), val),
        !q.feat.tt,
        !q.feat.lmr,
        q.feat.rep ==> child_m.path == q.memory().path,
        wf(q.pos),
        all_moves(q.pos).len() > 0,
    ensures
        ({
            let g = q.deepened(n);
            let c = q.params();
            let f = |s: Pos| val(wide_negamax(s, g.depth - 1, c, child_m));
            let count = |x: (u8, u8)| counted(q.pos, x, move_worth(q.pos, x, f), c, val);
            g.depth >= 1 ==> {
                &&& may_move(q.pos, g.best)
                &&& val(g.value) == count(g.best)
                &&& forall|x: (u8, u8)| #[trigger] may_move(q.pos, x) ==> count(x) <= val(g.value)
            }
        }),
    decreases n,
{
    if n > 0 {
        law_deepening_decides(q, n - 1, child_m, val);
        let g = q.deepened(n - 1);
        lemma_deepening_keeps_the_path(q, n - 1);
        if !g.done {
            law_root_decides(q.pos, n, q.params(), g.mem, child_m, g.hint, val);
        }
    }
}

// ---------------------------------------------------------------- what is asked for

/// A request is searched as it says: for the player to move at the root, with captures searched
/// eight plies beyond the horizon.
pub proof fn law_request_parameters<A: Arith>(q: Request<A>, role: int)
    requires
        0 <= role < 7,
    ensures
        ({
            let c = q.params();
            &&& c.contempt == q.contempt
            &&& c.root == mover(q.pos)
            &&& c.quiesce == q.quiesce
            &&& c.quiesce_max == 8
            &&& c.w_mob == q.w_mob
            &&& c.w_king == q.w_king
            &&& c.feat == q.feat
            &&& c.values.len() == 7
            &&& q.values.len() == 7 ==> c.values[role] == q.values[role]
            &&& q.values.len() != 7 ==> c.values[role] == A::ratio_of(
                seq![30i64, 10, 10, 14, 8, 12, 4][role],
                1,
            )
        }),
{
}

/// Before it has finished a depth, the engine has the first move in plain order, which is one
/// there is and which none outranks, and the evaluation for the player to move.
pub proof fn law_before_the_first_depth<A: Arith>(q: Request<A>, x: (u8, u8))
    requires
        wf(q.pos),
        may_move(q.pos, x),
    ensures
        ({
            let g = q.deepened(0);
            let c = q.params();
            &&& may_move(q.pos, g.best)
            &&& plain_rank(q.pos, g.best) >= plain_rank(q.pos, x)
            &&& g.value == evaluation(q.pos, mover(q.pos), q.w_mob, q.w_king, c.values, q.feat)
            &&& g.depth == 0
            &&& g.nodes == 0
            &&& !g.done
        }),
{
    let p = q.pos;
    let mv = all_moves(p);
    let o = plainly_ordered(p, mv);
    law_moves_on_squares(p, x);
    lemma_plain_order_keeps(p, mv);
    lemma_same_moves(o, mv, x);
    let j = choose|j: int| 0 <= j < o.len() && o[j] == x;
    law_plain_order(p, mv, 0, j);
    assert(o.contains(o[0]));
    lemma_same_moves(o, mv, o[0]);
    law_moves_on_squares(p, o[0]);
}

/// A search starts with nothing remembered but the positions that count as seen.
pub proof fn law_memory_at_the_start<A: Arith>(q: Request<A>, i: int)
    ensures
        ({
            let m = q.memory();
            &&& m.nodes == 0
            &&& m.killers.len() == if q.max_depth > 1 {
                q.max_depth + 2
            } else {
                3
            }
            &&& 0 <= i < m.killers.len() ==> m.killers[i] == ((255u8, 255u8), (255u8, 255u8))
            &&& m.history.len() == 1024
            &&& 0 <= i < 1024 ==> m.history[i] == 0
            &&& m.tt.len() == if q.feat.tt {
                262144
            } else {
                0int
            }
            &&& 0 <= i < m.tt.len() ==> m.tt[i].flag == 0
            &&& !q.feat.rep ==> m.path.len() == 0
        }),
{
}

/// Where repetitions count, the position itself and every key of the given history count as seen,
/// and nothing else does.
pub proof fn law_history_counts_as_seen<A: Arith>(q: Request<A>, key: u64)
    requires
        q.feat.rep,
    ensures
        q.memory().path.contains(key) <==> key == key_of(q.pos) || q.rep_history.contains(key),
{
    let s = seq![key_of(q.pos)] + q.rep_history;
    if q.rep_history.contains(key) {
        let i = choose|i: int| 0 <= i < q.rep_history.len() && q.rep_history[i] == key;
        assert(s[i + 1] == key);
    }
    if key == key_of(q.pos) {
        assert(s[0] == key);
    }
    if s.contains(key) {
        let i = choose|i: int| 0 <= i < s.len() && s[i] == key;
        if i > 0 {
            assert(q.rep_history[i - 1] == key);
        }
    }
}

// ---------------------------------------------------------------- windows

/// Replaying plays the moves of a window one after the other, from the position where it starts.
pub proof fn law_replay(p: Pos, moves: Seq<(u8, u8)>, i: int, revealed: int)
    requires
        0 <= i < moves.len(),
        moves[i].0 != moves[i].1,
    ensures
        replayed(p, moves, 0) == p,
        replayed(p, moves, i + 1) == after(replayed(p, moves, i), moves[i], revealed),
{
}

/// Every position of a window counts as seen: the one it starts from, those in between and the one
/// at its end, and no other.
pub proof fn law_window_counts_as_seen<A: Arith>(
    p: Pos,
    moves: Seq<(u8, u8)>,
    node_budget: u64,
    contempt: A,
    quiesce: bool,
    max_depth: int,
    w_mob: A,
    w_king: A,
    values: Seq<A>,
    time_ms: u64,
    feat: Feat,
    key: u64,
)
    requires
        feat.rep,
    ensures
        ({
            let q = window_request(
                p,
                moves,
                node_budget,
                contempt,
                quiesce,
                max_depth,
                w_mob,
                w_king,
                values,
                time_ms,
                feat,
            );
            &&& q.memory().path.contains(key_of(p))
            &&& forall|i: int|
                0 <= i <= moves.len() ==> q.memory().path.contains(
                    key_of(#[trigger] replayed(p, moves, i)),
                )
            &&& q.memory().path.contains(key) ==> exists|i: int|
                0 <= i <= moves.len() && key == key_of(#[trigger] replayed(p, moves, i))
        }),
{
    let q = window_request(
        p,
        moves,
        node_budget,
        contempt,
        quiesce,
        max_depth,
        w_mob,
        w_king,
        values,
        time_ms,
        feat,
    );
    let path = q.memory().path;
    let n = moves.len() as int;
    assert forall|i: int| 0 <= i <= n implies path.contains(
        key_of(#[trigger] replayed(p, moves, i)),
    ) by {
        if i == n {
            assert(path[0] == key_of(replayed(p, moves, i)));
        } else {
            assert(path[i + 1] == key_of(replayed(p, moves, i)));
        }
    }
    assert(replayed(p, moves, 0) == p);
    if path.contains(key) {
        let j = choose|j: int| 0 <= j < path.len() && path[j] == key;
        if j == 0 {
            assert(key == key_of(replayed(p, moves, n)));
        } else {
            assert(key == key_of(replayed(p, moves, j - 1)));
        }
    }
}

/// A window is searched from its end, with everything else as it was asked.
pub proof fn law_window_is_searched_from_its_end<A: Arith>(
    p: Pos,
    moves: Seq<(u8, u8)>,
    node_budget: u64,
    contempt: A,
    quiesce: bool,
    max_depth: int,
    w_mob: A,
    w_king: A,
    values: Seq<A>,
    time_ms: u64,
    feat: Feat,
)
    ensures
        ({
            let q = window_request(
                p,
                moves,
                node_budget,
                contempt,
                quiesce,
                max_depth,
                w_mob,
                w_king,
                values,
                time_ms,
                feat,
            );
            &&& q.pos == replayed(p, moves, moves.len() as int)
            &&& q.node_budget == node_budget
            &&& q.contempt == contempt
            &&& q.quiesce == quiesce
            &&& q.max_depth == max_depth
            &&& q.w_mob == w_mob
            &&& q.w_king == w_king
            &&& q.values == values
            &&& q.time_ms == time_ms
            &&& q.feat == feat
        }),
{
}

// ---------------------------------------------------------------- fixed requests

/// A search stops one node after its budget.
pub proof fn law_budget(budget: u64)
    ensures
        budget < 0xffff_ffff_ffff_ffff ==> stop_count(budget) == budget + 1,
        stop_count(0xffff_ffff_ffff_ffff) == 0xffff_ffff_ffff_ffff,
{
}

/// Where there is no move the answer is 255 and 255, worth nothing, at no cost; else it is a move
/// there is.
pub proof fn law_answers_are_moves<A: Arith>(r: ((u8, u8), A, SearchStats), q: Request<A>)
    requires
        wf(q.pos),
        answers(r, q),
    ensures
        (forall|x: (u8, u8)| !#[trigger] may_move(q.pos, x)) ==> r.0 == (255u8, 255u8) && r.1
            == A::ratio_of(0, 1) && r.2.nodes == 0 && r.2.depth == 0,
        (exists|x: (u8, u8)| #[trigger] may_move(q.pos, x)) ==> may_move(q.pos, r.0),
{
    law_moves_on_squares(q.pos, r.0);
    if all_moves(q.pos).len() == 0 {
        assert forall|x: (u8, u8)| !#[trigger] may_move(q.pos, x) by {
            law_moves_on_squares(q.pos, x);
        }
    } else {
        law_moves_on_squares(q.pos, all_moves(q.pos)[0]);
        assert(all_moves(q.pos).contains(all_moves(q.pos)[0]));
        assert(may_move(q.pos, all_moves(q.pos)[0]));
    }
}

/// The value of a position by search, without contempt or switches: of a finished game its result,
/// else what deepening ends with.
pub proof fn law_value_by_search<A: Arith>(
    p: Pos,
    node_budget: u64,
    quiesce: bool,
    max_depth: int,
    w_mob: A,
    w_king: A,
    values: Seq<A>,
    val: spec_fn(A) -> real,
)
    requires
        faithful(val),
    ensures
        ({
            let q = plain_request(p, node_budget, quiesce, max_depth, w_mob, w_king, values);
            let v = value_by_search(q);
            &&& outcome(p) == 2 ==> val(v) == 0real
            &&& outcome(p) == 0 || outcome(p) == 1 ==> val(v) == if outcome(p) == mover(p) {
                1real
            } else {
                -1real
            }
            &&& outcome(p) == 3 ==> v == q.deepened(max_depth).value
            &&& val(q.contempt) == 0real
            &&& q.time_ms == 0
            &&& q.rep_history.len() == 0
            &&& q.pos == p
            &&& q.node_budget == node_budget
            &&& q.quiesce == quiesce
            &&& q.max_depth == max_depth
            &&& q.w_mob == w_mob
            &&& q.w_king == w_king
            &&& q.values == values
            &&& q.feat == Feat::of_bits(0)
        }),
{
    lemma_whole(0, val);
    lemma_whole(1, val);
    lemma_whole(-1, val);
    crate::eval::law_no_bits_is_plain();
}

/// The bare search counts moves at 0.8, no danger, and the built-in values.
pub proof fn law_bare_search<A: Arith>(role: int, val: spec_fn(A) -> real)
    requires
        faithful(val),
        0 <= role < 7,
    ensures
        ({
            let c = bare_params::<A>();
            &&& val(c.contempt) == 0real
            &&& !c.quiesce
            &&& val(c.w_mob) == 8real / 10real
            &&& val(c.w_king) == 0real
            &&& val(c.values[role])
                == seq![30real, 10real, 10real, 14real, 8real, 12real, 4real][role]
            &&& c.feat == Feat::of_bits(0)
        }),
{
    lemma_whole(0, val);
    lemma_whole(30, val);
    lemma_whole(10, val);
    lemma_whole(14, val);
    lemma_whole(8, val);
    lemma_whole(12, val);
    lemma_whole(4, val);
    crate::eval::law_no_bits_is_plain();
}

/// What the engine ships with: contempt 0.1, captures searched, depth 24, moves at 0.8, danger to
/// the general at 28, a table of values, and all switches but the rich order and the reductions.
pub proof fn law_shipped_request<A: Arith>(
    p: Reading,
    moves: Seq<(u8, u8)>,
    movetime_ms: u64,
    node_budget: u64,
    role: int,
    val: spec_fn(A) -> real,
)
    requires
        faithful(val),
        0 <= role < 7,
    ensures
        ({
            let q = shipped_request::<A>(p, moves, movetime_ms, node_budget);
            &&& val(q.contempt) == 1real / 10real
            &&& q.quiesce
            &&& q.max_depth == 24
            &&& val(q.w_mob) == 8real / 10real
            &&& val(q.w_king) == 28real
            &&& q.values.len() == 7
            &&& val(q.values[role])
                == seq![30real, 14real, 11real, 9real, 7real, 16real, 4real][role]
            &&& q.time_ms == movetime_ms
            &&& q.node_budget == node_budget
            &&& q.feat.tt && q.feat.rep && q.feat.cover_mat && q.feat.king_ctx && q.feat.vmob
            &&& q.feat.dom_val && q.feat.gen_danger && q.feat.no_draw_sac
            &&& !q.feat.ordering && !q.feat.lmr
        }),
{
    lemma_whole(28, val);
    lemma_whole(30, val);
    lemma_whole(14, val);
    lemma_whole(11, val);
    lemma_whole(9, val);
    lemma_whole(7, val);
    lemma_whole(16, val);
    lemma_whole(4, val);
    crate::appraisal::law_switches(1018);
}

// ---------------------------------------------------------------- how deep

/// Deepening goes one depth at a time, and as deep as the budget allows: where it ends before the
/// depth it was asked for, the next depth takes more nodes than the budget. Each depth adds to the
/// nodes of those before.
pub proof fn law_as_deep_as_the_budget<A: Arith>(q: Request<A>, n: int, val: spec_fn(A) -> real)
    requires
        faithful(val),
        bounded(q.params(), val),
        guard_bounded(q.params(), val),
        all_moves(q.pos).len() > 0,
        n >= 0,
    ensures
        ({
            let k = q.deepened(n).depth;
            let g = q.deepened(k);
            &&& 0 <= k <= n
            &&& g.depth == k && !g.done
            &&& q.deepened(n).best == g.best && q.deepened(n).value == g.value
            &&& k < n ==> root_best(q.pos, k + 1, q.params(), g.mem, g.hint).1.nodes
                > q.node_budget
            &&& k >= 1 ==> {
                let before = q.deepened(k - 1);
                &&& g.mem == root_best(q.pos, k, q.params(), before.mem, before.hint).1
                &&& g.nodes == g.mem.nodes
                &&& before.nodes <= g.nodes <= q.node_budget
            }
        }),
    decreases n,
{
    if n > 0 {
        law_as_deep_as_the_budget(q, n - 1, val);
        law_engine_values_bounded(q, n - 1, val);
        law_unfinished_search_spends_the_budget(q, n - 1, val);
        let g = q.deepened(n - 1);
        law_root_finds_a_move(q.pos, n, q.params(), g.mem, g.hint, val);
        if !g.done {
            lemma_root_from_grows(
                q.pos,
                promoted(search_order(q.pos, all_moves(q.pos), n, q.params(), g.mem), g.hint),
                0,
                n,
                vmin(),
                A::lowest_of(),
                None,
                q.params(),
                g.mem,
            );
        }
    }
}

/// The table of root moves goes as deep as the budget allows, too.
pub proof fn law_table_as_deep_as_the_budget<A: Arith>(q: Request<A>, n: int)
    requires
        n >= 0,
    ensures
        ({
            let k = q.tabled(n).depth;
            let g = q.tabled(k);
            let c = q.params();
            let mv = promoted(search_order(q.pos, g.mv, k + 1, c, g.mem), g.hint);
            &&& 0 <= k <= n
            &&& g.depth == k && !g.done
            &&& q.tabled(n).rows == g.rows
            &&& k < n ==> rows_of(q.pos, mv, mv.len() as int, k + 1, c, g.mem).1.nodes
                > q.node_budget
        }),
    decreases n,
{
    if n > 0 {
        law_table_as_deep_as_the_budget(q, n - 1);
    }
}

/// A row of the table is handed out as the squares of its move, its value and the depth.
pub proof fn law_rows_are_handed_out<A>(g: Table<A>, i: int)
    requires
        0 <= i < g.rows.len(),
        0 <= g.depth <= i32::MAX,
    ensures
        table_rows(g).len() == g.rows.len(),
        table_rows(g)[i].0 == g.rows[i].0.0,
        table_rows(g)[i].1 == g.rows[i].0.1,
        table_rows(g)[i].2 == g.rows[i].1,
        table_rows(g)[i].3 == g.depth,
{
}

/// A move is reported by its name, with its value in thousandths; no move as such, with zero.
pub proof fn law_reports<A: Arith>(m: (u8, u8), value: A)
    ensures
        m.0 < 32 ==> reported(m, value) == (move_text(m), A::milli_of(value) as int),
        reported((255u8, 255u8), value) == ("(none)"@, 0int),
{
}

proof fn lemma_deepening_visits_more<A: Arith>(q: Request<A>, k: int, n: int)
    requires
        0 <= k <= n,
    ensures
        q.deepened(k).nodes <= q.deepened(n).nodes,
        !q.deepened(n).done ==> q.deepened(n).nodes == q.deepened(n).mem.nodes
            && q.deepened(n).nodes <= q.node_budget,
    decreases n,
{
    if n > 0 {
        let before = if k < n {
            k
        } else {
            n - 1
        };
        lemma_deepening_visits_more(q, before, n - 1);
        let g = q.deepened(n - 1);
        if !g.done {
            lemma_root_from_grows(
                q.pos,
                promoted(search_order(q.pos, all_moves(q.pos), n, q.params(), g.mem), g.hint),
                0,
                n,
                vmin(),
                A::lowest_of(),
                None,
                q.params(),
                g.mem,
            );
        }
    }
}

/// What is answered is what deepening found: up to the depth that was asked for, or, where there is
/// a time limit, up to some lesser depth. The budget is exceeded by one node at most. The clock is
/// looked at every 1024 nodes: an answer after any other number of nodes was not cut short, nor is
/// a search that takes fewer.
pub proof fn law_answers_are_found_by_deepening<A: Arith>(
    r: ((u8, u8), A, SearchStats),
    q: Request<A>,
)
    requires
        answers(r, q),
        all_moves(q.pos).len() > 0,
    ensures
        ({
            let g = q.deepened(q.max_depth);
            let whole_search = r.0 == g.best && r.1 == g.value && r.2.depth == g.depth && r.2.nodes
                == g.nodes;
            &&& q.time_ms == 0 ==> whole_search
            &&& r.2.nodes % 1024 != 0 ==> whole_search
            &&& g.nodes < 1024 ==> whole_search
        }),
        exists|n: int|
            n <= q.max_depth && r.0 == (#[trigger] q.deepened(n)).best && r.1 == q.deepened(n).value
                && r.2.depth == q.deepened(n).depth,
        r.2.nodes <= q.node_budget + 1,
{
    let g = q.deepened(q.max_depth);
    let c = q.params();
    if !(deepening_result(r, g) && r.2.nodes == g.nodes) {
        let n = choose|n: int|
            0 <= n < q.max_depth && #[trigger] timed_out(
                r,
                q.pos,
                n,
                q.node_budget,
                c,
                q.start(),
            );
        assert(r.0 == q.deepened(n).best);
        lemma_deepening_visits_more(q, n + 1, q.max_depth);
        assert(q.deepened(n + 1).nodes >= r.2.nodes);
    } else {
        assert(r.0 == q.deepened(q.max_depth).best);
    }
}

/// A search for a value that finishes returns the value and leaves behind what it is to leave, and
/// it took no more nodes than the budget. It finishes where the budget suffices and there is no
/// time limit; and it is stopped only by the node after the budget, or at a multiple of 1024 nodes.
pub proof fn law_searches_finish<S, T>(
    r: Result<T, ()>,
    want: (T, Mem<S>),
    old: &Ctx<S>,
    new: &Ctx<S>,
    feat: Feat,
)
    requires
        ran(r, want, old, new, feat),
    ensures
        r matches Ok(v) ==> v == want.0 && new@ == want.1 && want.1.nodes <= old.budget,
        old.time_limit_ms == 0 && want.1.nodes <= old.budget ==> r is Ok,
        old.time_limit_ms == 0 && want.1.nodes > old.budget ==> r is Err,
        r is Err && new.nodes % 1024 != 0 ==> new.nodes == old.budget + 1 || new.nodes
            == 0xffff_ffff_ffff_ffff,
{
}

/// The report of a search without a time limit names the move that deepening found, gives its value
/// in thousandths, and says how deep it went and what it took.
pub proof fn law_reports_of_searches<A: Arith>(
    text: Seq<char>,
    cp: int,
    stats: SearchStats,
    q: Request<A>,
)
    requires
        reports(text, cp, stats, q),
        wf(q.pos),
    ensures
        all_moves(q.pos).len() == 0 ==> text == "(none)"@ && cp == 0 && stats.nodes == 0
            && stats.depth == 0,
        all_moves(q.pos).len() > 0 && q.time_ms == 0 ==> {
            let g = q.deepened(q.max_depth);
            &&& text == move_text(g.best)
            &&& cp == A::milli_of(g.value)
            &&& stats.depth == g.depth
            &&& stats.nodes == g.nodes
        },
{
    let (m, value) = choose|m: (u8, u8), value: A|
        #[trigger] answers((m, value, stats), q) && (text, cp) == reported(m, value);
    if all_moves(q.pos).len() > 0 {
        law_answers_are_found_by_deepening((m, value, stats), q);
        law_moves_on_squares(q.pos, m);
    }
}

} // verus!
