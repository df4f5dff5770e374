//! Search from the root: the best move of a depth, and iterative deepening.
use vstd::prelude::*;

use crate::arith::{whole, Arith, Score};
use crate::board::{after, all_moves, code_role, is_piece, mover, moves_of, role_of, wf, Pos, State};
use crate::engine::lemma_search_order_keeps;
use crate::eval::whole_number;
use crate::model;
use crate::model::{lemma_move_value_keeps, search_order, vmax, vmin, Mem, Params};
use crate::order::{
    lemma_promote_absent, lemma_promote_keeps, lemma_same_moves, promote, promoted,
};
use crate::rules::{law_moves_and_flips, legal};
use crate::search::{
    all_legal, lemma_all_legal, move_value, order_moves, positive, ran, room_for, searchable,
    stop_count, Cfg, Ctx,
};

verus! {

// ---------------------------------------------------------------- the guard against bad trades

/// An enemy of `color` can move onto `t`.
pub open spec fn retaken(sq: Seq<i16>, t: int, color: int) -> bool {
    exists|i: int|
        0 <= i < moves_of(sq, 1 - color, 32).len() && (#[trigger] moves_of(sq, 1 - color, 32)[i]).1
            == t
}

/// The move takes a piece of lower value with one of higher value, and can be retaken.
pub open spec fn losing_capture<A: Arith>(p: Pos, x: (u8, u8), values: Seq<A>) -> bool {
    let t = p.sq[x.1 as int] as int;
    let a = p.sq[x.0 as int] as int;
    &&& x.0 != x.1
    &&& t >= 0
    &&& A::is_less(values[role_of(t)], values[role_of(a)])
    &&& retaken(after(p, x, 0).sq, x.1 as int, mover(p))
}

/// The value of a draw for the player at the root of the search.
pub open spec fn draw_value<A: Arith>(c: Params<A>) -> A {
    if !A::is_same(c.contempt, whole(0)) && c.root >= 0 {
        A::negation_of(c.contempt)
    } else {
        whole(0)
    }
}

/// The value of a root move, as it counts. Where the guard is switched on, a losing capture
/// worth less than three tenths counts at most a thousandth less than a draw.
pub open spec fn guarded<A: Arith>(p: Pos, x: (u8, u8), v: A, c: Params<A>) -> A {
    let limit = A::difference_of(draw_value(c), A::ratio_of(1, 1000));
    if c.feat.no_draw_sac && A::is_less(v, A::ratio_of(3, 10)) && A::is_less(limit, v)
        && losing_capture(p, x, c.values) {
        limit
    } else {
        v
    }
}

fn is_losing_capture<S: Score>(st: &State, x: (u8, u8), values: &[S; 7]) -> (r: bool)
    requires
        wf(st@),
        legal(st@, x),
        st.ply < u32::MAX,
        st.no_progress < u32::MAX,
    ensures
        r == losing_capture(st@, x, values@),
{
    proof {
        law_moves_and_flips(st@, x);
    }
    if x.0 == x.1 {
        return false;
    }
    let t = st.sq[x.1 as usize];
    if !is_piece(t) {
        return false;
    }
    let a = st.sq[x.0 as usize];
    let victim = values[code_role(t)];
    let attacker = values[code_role(a)];
    if !victim.less(attacker) {
        return false;
    }
    let mut child = *st;
    child.push(x.0, x.1, 0);
    let mc = st.mover_color();
    let mut replies: Vec<(u8, u8)> = Vec::new();
    child.moves_of_color(1 - mc, &mut replies);
    any_onto(&replies, x.1)
}

fn any_onto(mv: &Vec<(u8, u8)>, t: u8) -> (r: bool)
    ensures
        r == exists|i: int| 0 <= i < mv@.len() && (#[trigger] mv@[i]).1 == t,
{
    let mut i: usize = 0;
    while i < mv.len()
        invariant
            i <= mv@.len(),
            forall|j: int| 0 <= j < i ==> (#[trigger] mv@[j]).1 != t,
        decreases mv@.len() - i,
    {
        if mv[i].1 == t {
            assert(mv@[i as int].1 == t);
            return true;
        }
        i = i + 1;
    }
    false
}

fn guard<S: Score>(st: &State, x: (u8, u8), v: S, cfg: &Cfg<S>) -> (r: S)
    requires
        wf(st@),
        legal(st@, x),
        st.ply < u32::MAX,
        st.no_progress < u32::MAX,
    ensures
        r == guarded(st@, x, v, cfg@),
{
    if !cfg.feat.no_draw_sac {
        return v;
    }
    let draw: S = if !cfg.contempt.same(whole_number(0)) && cfg.root >= 0 {
        cfg.contempt.negated()
    } else {
        whole_number(0)
    };
    let limit: S = draw.minus(S::ratio(1, 1000));
    if v.less(S::ratio(3, 10)) && limit.less(v) && is_losing_capture(st, x, &cfg.values) {
        limit
    } else {
        v
    }
}

// ---------------------------------------------------------------- one depth

/// The root moves from index `i` on: the best so far, with its value, and the memory.
pub open spec fn root_from<A: Arith>(
    p: Pos,
    mv: Seq<(u8, u8)>,
    i: int,
    depth: int,
    alpha: A,
    best_val: A,
    best: Option<((u8, u8), A)>,
    c: Params<A>,
    m: Mem<A>,
) -> (Option<((u8, u8), A)>, Mem<A>)
    decreases mv.len() - i,
{
    if i >= mv.len() {
        (best, m)
    } else {
        let x = mv[i];
        let (w, m1) = model::move_value(p, x, depth, alpha, vmax(), c, m);
        let v = guarded(p, x, w, c);
        if A::is_less(best_val, v) {
            root_from(
                p,
                mv,
                i + 1,
                depth,
                if A::is_less(alpha, v) {
                    v
                } else {
                    alpha
                },
                v,
                Some((x, v)),
                c,
                m1,
            )
        } else {
            root_from(p, mv, i + 1, depth, alpha, best_val, best, c, m1)
        }
    }
}

/// The best root move of a search `depth` plies deep, with its value; `hint` is tried first.
pub open spec fn root_best<A: Arith>(
    p: Pos,
    depth: int,
    c: Params<A>,
    m: Mem<A>,
    hint: Option<(u8, u8)>,
) -> (Option<((u8, u8), A)>, Mem<A>) {
    root_from(
        p,
        promoted(search_order(p, all_moves(p), depth, c, m), hint),
        0,
        depth,
        vmin(),
        A::lowest_of(),
        None,
        c,
        m,
    )
}

pub proof fn lemma_root_from_grows<A: Arith>(
    p: Pos,
    mv: Seq<(u8, u8)>,
    i: int,
    depth: int,
    alpha: A,
    best_val: A,
    best: Option<((u8, u8), A)>,
    c: Params<A>,
    m: Mem<A>,
)
    requires
        depth >= 1,
    ensures
        m.nodes <= root_from(p, mv, i, depth, alpha, best_val, best, c, m).1.nodes,
        root_from(p, mv, i, depth, alpha, best_val, best, c, m).1.path == m.path,
    decreases mv.len() - i,
{
    if i < mv.len() {
        let x = mv[i];
        lemma_move_value_keeps(p, x, depth, alpha, vmax(), c, m);
        let (w, m1) = model::move_value(p, x, depth, alpha, vmax(), c, m);
        let v = guarded(p, x, w, c);
        let alpha1 = if A::is_less(alpha, v) {
            v
        } else {
            alpha
        };
        lemma_root_from_grows(p, mv, i + 1, depth, alpha1, v, Some((x, v)), c, m1);
        lemma_root_from_grows(p, mv, i + 1, depth, alpha, best_val, best, c, m1);
    }
}

/// The best move of a depth and its value.
pub fn root_value_at_depth<S: Score>(
    st: &State,
    depth: i32,
    cfg: &Cfg<S>,
    ctx: &mut Ctx<S>,
    hint: Option<(u8, u8)>,
) -> (r: Result<Option<((u8, u8), S)>, ()>)
    requires
        searchable(st, depth as int, cfg, old(ctx)),
        depth >= 1,
        st.no_progress < u32::MAX,
    ensures
        ran(
            r,
            root_best(st@, depth as int, cfg@, old(ctx)@, hint),
            old(ctx),
            final(ctx),
            cfg.feat,
        ),
{
    let ghost p = st@;
    let ghost c = cfg@;
    let ghost d = depth as int;
    let ghost want = root_best(p, d, c, ctx@, hint);
    let mut moves: Vec<(u8, u8)> = Vec::new();
    st.legal_moves(&mut moves);
    proof {
        lemma_all_legal(p, moves@);
    }
    let mut mv = order_moves(st, &moves, depth, cfg, ctx);
    proof {
        lemma_promote_keeps(mv@, hint);
    }
    promote(&mut mv, hint);
    proof {
        lemma_all_legal(p, mv@);
    }
    let u: S = whole_number(1);
    let mut alpha: S = whole_number(-1);
    let mut best_val: S = S::lowest();
    let mut best: Option<((u8, u8), S)> = None;
    let mut i: usize = 0;
    while i < mv.len()
        invariant
            i <= mv@.len(),
            p == st@,
            c == cfg@,
            d == depth,
            depth >= 1,
            st.no_progress < u32::MAX,
            all_legal(p, mv@),
            searchable(st, depth as int, cfg, ctx),
            ctx.same_limits(old(ctx)),
            u == vmax::<S>(),
            want == root_best(p, d, c, old(ctx)@, hint),
            want == root_from(p, mv@, i as int, d, alpha, best_val, best, c, ctx@),
        decreases mv@.len() - i,
    {
        let x = mv[i];
        let ghost before = ctx@;
        assert(legal(p, x));
        let w: S = match move_value(st, x, depth, alpha, u, cfg, ctx) {
            Ok(w) => w,
            Err(_) => {
                proof {
                    let (w, m1) = model::move_value(p, x, d, alpha, u, c, before);
                    let v = guarded(p, x, w, c);
                    let alpha1 = if S::is_less(alpha, v) {
                        v
                    } else {
                        alpha
                    };
                    lemma_root_from_grows(p, mv@, i + 1, d, alpha1, v, Some((x, v)), c, m1);
                    lemma_root_from_grows(p, mv@, i + 1, d, alpha, best_val, best, c, m1);
                }
                return Err(());
            },
        };
        let v: S = guard(st, x, w, cfg);
        if best_val.less(v) {
            best_val = v;
            best = Some((x, v));
            if alpha.less(v) {
                alpha = v;
            }
        }
        i = i + 1;
    }
    Ok(best)
}

/// The best move of a depth.
pub fn best_at_depth<S: Score>(
    st: &State,
    depth: i32,
    cfg: &Cfg<S>,
    ctx: &mut Ctx<S>,
    hint: Option<(u8, u8)>,
) -> (r: Result<Option<(u8, u8)>, ()>)
    requires
        searchable(st, depth as int, cfg, old(ctx)),
        depth >= 1,
        st.no_progress < u32::MAX,
    ensures
        ({
            let want = root_best(st@, depth as int, cfg@, old(ctx)@, hint);
            ran(
                r,
                (
                    match want.0 {
                        Some(b) => Some(b.0),
                        None => None,
                    },
                    want.1,
                ),
                old(ctx),
                final(ctx),
                cfg.feat,
            )
        }),
{
    match root_value_at_depth(st, depth, cfg, ctx, hint) {
        Ok(Some((m, _))) => Ok(Some(m)),
        Ok(None) => Ok(None),
        Err(_) => Err(()),
    }
}

// ---------------------------------------------------------------- iterative deepening

/// Where iterative deepening stands.
#[verifier::ext_equal]
pub struct Progress<A> {
    pub best: (u8, u8),
    pub value: A,
    /// The last depth that was searched to its end.
    pub depth: int,
    /// The best move of that depth.
    pub hint: Option<(u8, u8)>,
    pub mem: Mem<A>,
    /// Nodes visited, those of an unfinished depth among them.
    pub nodes: nat,
    pub done: bool,
}

/// Deepening up to `n` with a budget of nodes. It is over when the budget is exceeded, or when
/// a depth has no best move; an unfinished depth changes nothing but the node count.
pub open spec fn deepened<A: Arith>(
    p: Pos,
    n: int,
    budget: u64,
    c: Params<A>,
    start: Progress<A>,
) -> Progress<A>
    decreases n,
{
    if n <= 0 {
        start
    } else {
        let g = deepened(p, n - 1, budget, c, start);
        if g.done {
            g
        } else {
            let (r, m1) = root_best(p, n, c, g.mem, g.hint);
            if m1.nodes > budget {
                Progress { nodes: stop_count(budget) as nat, done: true, ..g }
            } else {
                match r {
                    Some((x, v)) => Progress {
                        best: x,
                        value: v,
                        depth: n,
                        hint: Some(x),
                        mem: m1,
                        nodes: m1.nodes,
                        done: false,
                    },
                    None => Progress { mem: m1, nodes: m1.nodes, done: true, ..g },
                }
            }
        }
    }
}

/// What a search consumed.
#[derive(Clone, Copy)]
pub struct SearchStats {
    /// Nodes visited.
    pub nodes: u64,
    /// The last depth that was searched to its end; zero if none was.
    pub depth: i32,
}

/// The result of deepening: the best move, its value, and what it took.
pub open spec fn deepening_result<A>(
    r: ((u8, u8), A, SearchStats),
    g: Progress<A>,
) -> bool {
    r.0 == g.best && r.1 == g.value && r.2.depth == g.depth
}

/// The result of deepening where the time ran out in the depth after `n`. The time is looked at
/// every 1024 nodes, so that depth takes at least as many.
pub open spec fn timed_out<A: Arith>(
    r: ((u8, u8), A, SearchStats),
    p: Pos,
    n: int,
    budget: u64,
    c: Params<A>,
    start: Progress<A>,
) -> bool {
    let g = deepened(p, n, budget, c, start);
    &&& !g.done
    &&& deepening_result(r, g)
    &&& r.2.nodes % 1024 == 0
    &&& 1024 <= r.2.nodes <= root_best(p, n + 1, c, g.mem, g.hint).1.nodes
}

/// The result of deepening up to `max_depth`: the one that the budget allows, unless a time limit
/// is set and runs out before.
pub open spec fn deepening_ran<A: Arith>(
    r: ((u8, u8), A, SearchStats),
    p: Pos,
    max_depth: int,
    budget: u64,
    time_ms: u64,
    c: Params<A>,
    start: Progress<A>,
) -> bool {
    let g = deepened(p, max_depth, budget, c, start);
    &&& r.2.nodes <= stop_count(budget)
    &&& {
        ||| deepening_result(r, g) && r.2.nodes == g.nodes
        ||| time_ms > 0 && exists|n: int|
            0 <= n < max_depth && #[trigger] timed_out(r, p, n, budget, c, start)
    }
}

pub proof fn lemma_done_stays<A: Arith>(
    p: Pos,
    k: int,
    n: int,
    budget: u64,
    c: Params<A>,
    start: Progress<A>,
)
    requires
        k <= n,
        deepened(p, k, budget, c, start).done,
    ensures
        deepened(p, n, budget, c, start) == deepened(p, k, budget, c, start),
    decreases n - k,
{
    if n <= 0 {
    } else if k < n {
        lemma_done_stays(p, k, n - 1, budget, c, start);
    }
}

/// Searches deeper and deeper until a limit.
pub fn deepen<S: Score>(
    st: &State,
    max_depth: i32,
    cfg: &Cfg<S>,
    ctx: &mut Ctx<S>,
    first: (u8, u8),
    value: S,
) -> (r: ((u8, u8), S, SearchStats))
    requires
        searchable(st, max_depth as int, cfg, old(ctx)),
        st.no_progress < u32::MAX,
        max_depth < i32::MAX,
    ensures
        deepening_ran(
            r,
            st@,
            max_depth as int,
            old(ctx).budget,
            old(ctx).time_limit_ms,
            cfg@,
            (Progress {
                best: first,
                value,
                depth: 0,
                hint: None,
                mem: old(ctx)@,
                nodes: old(ctx)@.nodes,
                done: false,
            }),
        ),
{
    let ghost p = st@;
    let ghost c = cfg@;
    let ghost budget = ctx.budget;
    let ghost start = Progress {
        best: first,
        value,
        depth: 0,
        hint: None,
        mem: ctx@,
        nodes: ctx@.nodes,
        done: false,
    };
    let mut best = first;
    let mut val = value;
    let mut reached: i32 = 0;
    let mut hint: Option<(u8, u8)> = None;
    let mut depth: i32 = 1;
    let mut over: bool = false;
    while depth <= max_depth && !over
        invariant
            1 <= depth,
            max_depth < i32::MAX,
            depth <= positive(max_depth as int) + 1,
            p == st@,
            c == cfg@,
            st.no_progress < u32::MAX,
            budget == ctx.budget,
            budget == old(ctx).budget,
            ctx.same_limits(old(ctx)),
            ctx.wf(cfg.feat),
            room_for(st, positive(max_depth as int) + positive(cfg.quiesce_max as int)),
            ctx.nodes <= stop_count(budget),
            !over ==> {
                let g = deepened(p, depth - 1, budget, c, start);
                let r = (best, val, SearchStats { nodes: ctx.nodes, depth: reached });
                &&& deepening_result(r, g)
                &&& ctx.nodes <= budget
                &&& !g.done
                &&& g.hint == hint
                &&& g.mem == ctx@
                &&& g.nodes == ctx.nodes
            },
            over ==> {
                let g = deepened(p, depth - 1, budget, c, start);
                let r = (best, val, SearchStats { nodes: ctx.nodes, depth: reached });
                &&& depth - 1 <= max_depth
                &&& {
                    ||| g.done && g.nodes == ctx.nodes && deepening_result(r, g)
                    ||| ctx.time_limit_ms > 0 && 2 <= depth && timed_out(
                        r,
                        p,
                        depth - 2,
                        budget,
                        c,
                        start,
                    )
                }
            },
        decreases max_depth - depth + 1,
    {
        match root_value_at_depth(st, depth, cfg, ctx, hint) {
            Ok(Some((m, v))) => {
                best = m;
                val = v;
                hint = Some(m);
                reached = depth;
            },
            Ok(None) => {
                over = true;
            },
            Err(_) => {
                over = true;
            },
        }
        depth = depth + 1;
    }
    let r = (best, val, SearchStats { nodes: ctx.nodes, depth: reached });
    proof {
        if over {
            let g = deepened(p, depth - 1, budget, c, start);
            if g.done {
                lemma_done_stays(p, depth - 1, max_depth as int, budget, c, start);
            }
        } else if max_depth <= 0 {
            assert(deepened(p, 0, budget, c, start) == deepened(
                p,
                max_depth as int,
                budget,
                c,
                start,
            ));
        }
    }
    r
}

// ---------------------------------------------------------------- laws of the root search

/// A hint that is no legal move has no effect.
pub proof fn law_foreign_hint_is_ignored<A: Arith>(
    p: Pos,
    depth: int,
    c: Params<A>,
    m: Mem<A>,
    hint: (u8, u8),
)
    requires
        !all_moves(p).contains(hint),
    ensures
        root_best(p, depth, c, m, Some(hint)) == root_best(p, depth, c, m, None),
{
    let o = search_order(p, all_moves(p), depth, c, m);
    lemma_search_order_keeps(p, all_moves(p), depth, c, m);
    lemma_same_moves(o, all_moves(p), hint);
    lemma_promote_absent(o, hint);
}

/// The best move of a depth, and the best move with its value, belong together: called on equal
/// states without a time limit, both find the same move, both find none, or both stop at the
/// budget, and they visit the same number of nodes.
pub proof fn law_best_and_value_belong_together<S: Score>(
    value: Result<Option<((u8, u8), S)>, ()>,
    best: Result<Option<(u8, u8)>, ()>,
    p: Pos,
    depth: int,
    cfg: &Cfg<S>,
    hint: Option<(u8, u8)>,
    before: &Ctx<S>,
    after_value: &Ctx<S>,
    after_best: &Ctx<S>,
)
    requires
        before.time_limit_ms == 0,
        ran(value, root_best(p, depth, cfg@, before@, hint), before, after_value, cfg.feat),
        ran(
            best,
            (
                match root_best(p, depth, cfg@, before@, hint).0 {
                    Some(b) => Some(b.0),
                    None => None,
                },
                root_best(p, depth, cfg@, before@, hint).1,
            ),
            before,
            after_best,
            cfg.feat,
        ),
    ensures
        match value {
            Ok(Some(b)) => best == Ok::<Option<(u8, u8)>, ()>(Some(b.0)),
            Ok(None) => best == Ok::<Option<(u8, u8)>, ()>(None),
            Err(_) => best is Err,
        },
        after_value.nodes == after_best.nodes,
{
    assert(best is Err ==> value is Err);
    assert(value is Err ==> best is Err);
}

} // verus!
