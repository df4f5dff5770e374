//! What alpha-beta search over decision nodes and chance nodes computes.
//!
//! A decision node is searched by negamax. A flip is a chance node: its value is the average
//! over the pieces that the bag can turn up, and the Star1 bounds cut it off as soon as the
//! average must leave the window. At the horizon a quiescence search follows the captures.
//!
//! The functions here say what a search returns, and what it leaves in the memory of the
//! search, if nothing interrupts it.
use vstd::prelude::*;

use crate::arith::{whole, Arith};
use crate::board::{
    after, all_moves, bag_total, mover, outcome, role_of, Pos, RES_DRAW, RES_ONGOING, RES_RED,
};
use crate::eval::{base_value, evaluation, Feat};
use crate::order::{plainly_ordered, promoted, richly_ordered, sorted};
use crate::zobrist::key_of;

verus! {

// ---------------------------------------------------------------- parameters and memory

/// The parameters of a search.
pub struct Params<A> {
    /// How much a draw is worth less than nothing to the player at the root.
    pub contempt: A,
    /// The player at the root; negative while the colors are unbound.
    pub root: int,
    pub quiesce: bool,
    pub quiesce_max: int,
    pub w_mob: A,
    pub w_king: A,
    pub values: Seq<A>,
    pub feat: Feat,
}

/// An entry of the transposition table.
pub struct TtEntry<S> {
    pub key: u64,
    pub value: S,
    pub depth: i16,
    /// 0 empty, 1 exact, 2 lower bound, 3 upper bound.
    pub flag: u8,
    pub best: (u8, u8),
}

/// What a search remembers.
#[verifier::ext_equal]
pub struct Mem<A> {
    /// Nodes visited.
    pub nodes: nat,
    /// Two quiet moves per remaining depth that cut off before.
    pub killers: Seq<((u8, u8), (u8, u8))>,
    /// A score per quiet move, at `from * 32 + to`.
    pub history: Seq<i32>,
    pub tt: Seq<TtEntry<A>>,
    /// Keys of the positions that a new one would repeat.
    pub path: Seq<u64>,
}

/// One more node.
pub open spec fn ticked<A>(m: Mem<A>) -> Mem<A> {
    Mem { nodes: m.nodes + 1, ..m }
}

// ---------------------------------------------------------------- values of positions

/// The value, for the player to move, of a game that ended with `res`.
pub open spec fn terminal_value<A: Arith>(p: Pos, res: int, c: Params<A>) -> A {
    if res == RES_DRAW {
        if !A::is_same(c.contempt, whole(0)) && c.root >= 0 {
            if mover(p) == c.root {
                A::negation_of(c.contempt)
            } else {
                c.contempt
            }
        } else {
            whole(0)
        }
    } else if (if res == RES_RED {
        0int
    } else {
        1
    }) == mover(p) {
        whole(1)
    } else {
        whole(-1)
    }
}

/// The evaluation for the player to move.
pub open spec fn leaf_value<A: Arith>(p: Pos, c: Params<A>) -> A {
    evaluation(p, mover(p), c.w_mob, c.w_king, c.values, c.feat)
}

// ---------------------------------------------------------------- quiescence

/// The captures among the first `n` moves, with the value of the victim.
pub open spec fn captures_of(p: Pos, mv: Seq<(u8, u8)>, n: int) -> Seq<(i32, (u8, u8))>
    decreases n,
{
    if n <= 0 {
        seq![]
    } else {
        let m = mv[n - 1];
        let t = p.sq[m.1 as int] as int;
        if m.0 != m.1 && t >= 0 {
            captures_of(p, mv, n - 1).push((base_value(role_of(t)) as i32, m))
        } else {
            captures_of(p, mv, n - 1)
        }
    }
}

/// The captures, the most valuable victim first.
pub open spec fn best_captures(p: Pos) -> Seq<(i32, (u8, u8))> {
    sorted(captures_of(p, all_moves(p), all_moves(p).len() as int))
}

/// The value of `p` where only captures are searched, at most `q` plies deep. The player to
/// move may also stand and take the evaluation.
pub open spec fn quiesce<A: Arith>(
    p: Pos,
    alpha: A,
    beta: A,
    c: Params<A>,
    m0: Mem<A>,
    q: int,
) -> (A, Mem<A>)
    decreases q, 1int, 0int,
{
    let m = ticked(m0);
    let res = outcome(p);
    let stand = leaf_value(p, c);
    if res != RES_ONGOING {
        (terminal_value(p, res, c), m)
    } else if A::is_at_most(beta, stand) || q <= 0 {
        (stand, m)
    } else {
        let a = if A::is_less(alpha, stand) {
            stand
        } else {
            alpha
        };
        quiesce_from(p, best_captures(p), 0, a, beta, stand, c, m, q)
    }
}

/// The captures from index `i` on.
pub open spec fn quiesce_from<A: Arith>(
    p: Pos,
    caps: Seq<(i32, (u8, u8))>,
    i: int,
    alpha: A,
    beta: A,
    best: A,
    c: Params<A>,
    m: Mem<A>,
    q: int,
) -> (A, Mem<A>)
    decreases q, 0int, caps.len() - i,
    when q >= 1
{
    if i >= caps.len() {
        (best, m)
    } else {
        let child = after(p, caps[i].1, 0);
        let (w, m1) = quiesce(
            child,
            A::negation_of(beta),
            A::negation_of(alpha),
            c,
            m,
            q - 1,
        );
        let v = A::negation_of(w);
        let best1 = if A::is_less(best, v) {
            v
        } else {
            best
        };
        let alpha1 = if A::is_less(alpha, best1) {
            best1
        } else {
            alpha
        };
        if A::is_at_most(beta, alpha1) {
            (best1, m1)
        } else {
            quiesce_from(p, caps, i + 1, alpha1, beta, best1, c, m1, q)
        }
    }
}

// ---------------------------------------------------------------- the transposition table

pub open spec fn tt_entry<A>(m: Mem<A>, key: u64) -> TtEntry<A> {
    m.tt[key as int % m.tt.len() as int]
}

/// The entry for `key` is there.
pub open spec fn tt_hit<A>(m: Mem<A>, key: u64) -> bool {
    tt_entry(m, key).flag != 0 && tt_entry(m, key).key == key
}

/// The value that the table gives for a search of `depth` in the window, if it settles it.
pub open spec fn tt_value<A: Arith>(
    m: Mem<A>,
    key: u64,
    depth: int,
    alpha: A,
    beta: A,
) -> Option<A> {
    let e = tt_entry(m, key);
    if tt_hit(m, key) && e.depth >= depth && (e.flag == 1 || (e.flag == 2 && A::is_at_most(
        beta,
        e.value,
    )) || (e.flag == 3 && A::is_at_most(e.value, alpha))) {
        Some(e.value)
    } else {
        None
    }
}

/// The move that the table suggests.
pub open spec fn tt_move<A>(m: Mem<A>, key: u64) -> Option<(u8, u8)> {
    if tt_hit(m, key) {
        Some(tt_entry(m, key).best)
    } else {
        None
    }
}

/// The memory after storing a result. A deeper entry for the same position stays.
pub open spec fn tt_stored<A: Arith>(
    m: Mem<A>,
    key: u64,
    depth: int,
    alpha: A,
    beta: A,
    best: A,
    best_m: (u8, u8),
) -> Mem<A> {
    let flag: u8 = if A::is_at_most(best, alpha) {
        3
    } else if A::is_at_most(beta, best) {
        2
    } else {
        1
    };
    let cur = tt_entry(m, key);
    if cur.flag == 0 || cur.key != key || cur.depth <= depth {
        Mem {
            tt: m.tt.update(
                key as int % m.tt.len() as int,
                TtEntry { key, value: best, depth: depth as i16, flag, best: best_m },
            ),
            ..m
        }
    } else {
        m
    }
}

// ---------------------------------------------------------------- move ordering memory

/// The memory after a quiet move cut off: it becomes the first killer of its depth, and its
/// history grows by the square of the depth.
pub open spec fn cutoff_recorded<A>(m: Mem<A>, x: (u8, u8), depth: int) -> Mem<A> {
    let killers = if 0 <= depth < m.killers.len() && m.killers[depth].0 != x {
        m.killers.update(depth, (x, m.killers[depth].0))
    } else {
        m.killers
    };
    let h = x.0 as int * 32 + x.1 as int;
    let sum = m.history[h] + depth * depth;
    Mem {
        killers,
        history: m.history.update(
            h,
            if sum < i32::MAX {
                sum as i32
            } else {
                i32::MAX
            },
        ),
        ..m
    }
}

/// Moves in the order in which they are searched.
pub open spec fn search_order<A>(
    p: Pos,
    mv: Seq<(u8, u8)>,
    depth: int,
    c: Params<A>,
    m: Mem<A>,
) -> Seq<(u8, u8)> {
    if c.feat.ordering {
        richly_ordered(p, mv, depth, m.killers, m.history)
    } else {
        plainly_ordered(p, mv)
    }
}

// ---------------------------------------------------------------- negamax

/// The key that repetitions and the table use; zero if neither is switched on.
pub open spec fn node_key<A>(p: Pos, c: Params<A>) -> u64 {
    if c.feat.tt || c.feat.rep {
        key_of(p)
    } else {
        0
    }
}

/// The value of `p` for the player to move, searched `depth` plies deep in a window.
pub open spec fn negamax<A: Arith>(
    p: Pos,
    depth: int,
    alpha: A,
    beta: A,
    c: Params<A>,
    m0: Mem<A>,
) -> (A, Mem<A>)
    decreases depth, 3int, 0int,
{
    let m = ticked(m0);
    let res = outcome(p);
    let key = node_key(p, c);
    if res != RES_ONGOING {
        (terminal_value(p, res, c), m)
    } else if depth <= 0 {
        if c.quiesce {
            quiesce(p, alpha, beta, c, m, c.quiesce_max)
        } else {
            (leaf_value(p, c), m)
        }
    } else if c.feat.rep && m.path.contains(key) {
        (terminal_value(p, RES_DRAW as int, c), m)
    } else if c.feat.tt && tt_value(m, key, depth, alpha, beta) is Some {
        (tt_value(m, key, depth, alpha, beta)->0, m)
    } else {
        let mv = promoted(
            search_order(p, all_moves(p), depth, c, m),
            if c.feat.tt {
                tt_move(m, key)
            } else {
                None
            },
        );
        let m1 = if c.feat.rep {
            Mem { path: m.path.push(key), ..m }
        } else {
            m
        };
        let (best, best_m, m2) = node_from(
            p,
            mv,
            0,
            depth,
            alpha,
            beta,
            A::lowest_of(),
            mv[0],
            c,
            m1,
        );
        let m3 = if c.feat.rep {
            Mem { path: m2.path.drop_last(), ..m2 }
        } else {
            m2
        };
        if c.feat.tt {
            (best, tt_stored(m3, key, depth, alpha, beta, best, best_m))
        } else {
            (best, m3)
        }
    }
}

/// A move that neither flips nor captures.
pub open spec fn quiet(p: Pos, x: (u8, u8)) -> bool {
    x.0 != x.1 && p.sq[x.1 as int] < 0
}

/// The value of a move at a decision node. A late quiet move is probed at a smaller depth and
/// searched in full only if the probe beats alpha.
pub open spec fn node_move<A: Arith>(
    p: Pos,
    x: (u8, u8),
    i: int,
    depth: int,
    alpha: A,
    beta: A,
    c: Params<A>,
    m: Mem<A>,
) -> (A, Mem<A>)
    decreases depth, 1int, 1int,
    when depth >= 1
{
    if c.feat.lmr && quiet(p, x) && i >= 3 && depth >= 3 {
        let child = after(p, x, 0);
        let (w, m1) = negamax(
            child,
            depth - 2,
            A::difference_of(A::negation_of(alpha), A::ratio_of(1, 1_000_000)),
            A::negation_of(alpha),
            c,
            m,
        );
        let probe = A::negation_of(w);
        if A::is_less(alpha, probe) {
            let (w2, m2) = negamax(
                child,
                depth - 1,
                A::negation_of(beta),
                A::negation_of(alpha),
                c,
                m1,
            );
            (A::negation_of(w2), m2)
        } else {
            (probe, m1)
        }
    } else {
        move_value(p, x, depth, alpha, beta, c, m)
    }
}

/// The moves of a decision node from index `i` on: the best value, its move, the memory.
pub open spec fn node_from<A: Arith>(
    p: Pos,
    mv: Seq<(u8, u8)>,
    i: int,
    depth: int,
    alpha: A,
    beta: A,
    best: A,
    best_m: (u8, u8),
    c: Params<A>,
    m: Mem<A>,
) -> (A, (u8, u8), Mem<A>)
    decreases depth, 2int, mv.len() - i,
    when depth >= 1
{
    if i >= mv.len() {
        (best, best_m, m)
    } else {
        let x = mv[i];
        let (v, m1) = node_move(p, x, i, depth, alpha, beta, c, m);
        let best1 = if A::is_less(best, v) {
            v
        } else {
            best
        };
        let best_m1 = if A::is_less(best, v) {
            x
        } else {
            best_m
        };
        let alpha1 = if A::is_less(alpha, best1) {
            best1
        } else {
            alpha
        };
        if A::is_at_most(beta, alpha1) {
            (
                best1,
                best_m1,
                if c.feat.ordering && quiet(p, x) {
                    cutoff_recorded(m1, x, depth)
                } else {
                    m1
                },
            )
        } else {
            node_from(p, mv, i + 1, depth, alpha1, beta, best1, best_m1, c, m1)
        }
    }
}

/// The value of a move: of a flip its average, of another move the value of the position that
/// it leads to.
pub open spec fn move_value<A: Arith>(
    p: Pos,
    x: (u8, u8),
    depth: int,
    alpha: A,
    beta: A,
    c: Params<A>,
    m: Mem<A>,
) -> (A, Mem<A>)
    decreases depth, 1int, 0int,
    when depth >= 1
{
    if x.0 == x.1 {
        flip_from(p, x, 0, depth, alpha, beta, whole(0), whole(1), c, m)
    } else {
        let (w, m1) = negamax(
            after(p, x, 0),
            depth - 1,
            A::negation_of(beta),
            A::negation_of(alpha),
            c,
            m,
        );
        (A::negation_of(w), m1)
    }
}

/// The largest and the smallest value of a position.
pub open spec fn vmax<A: Arith>() -> A {
    whole(1)
}

pub open spec fn vmin<A: Arith>() -> A {
    whole(-1)
}

/// The chance that a flip turns up `code`.
pub open spec fn chance<A: Arith>(bag: Seq<u32>, code: int) -> A {
    A::quotient_of(whole(bag[code] as int), whole(bag_total(bag) as int))
}

/// What is left of the chances, not below zero.
pub open spec fn chance_left<A: Arith>(rem: A, pr: A) -> A {
    let r = A::difference_of(rem, pr);
    if A::is_less(r, whole(0)) {
        whole(0)
    } else {
        r
    }
}

/// The value that this outcome must reach for the average to reach `bound`, if all outcomes to
/// come take the value `extreme`.
pub open spec fn star1_bound<A: Arith>(bound: A, vsum: A, rem: A, extreme: A, pr: A) -> A {
    A::quotient_of(
        A::difference_of(A::difference_of(bound, vsum), A::product_of(rem, extreme)),
        pr,
    )
}

/// The outcomes of a flip from `code` on, where those before have contributed `vsum` and the
/// chances of the others sum to `rem`. The result is the average, or a bound of the window as
/// soon as the average cannot lie inside it.
pub open spec fn flip_from<A: Arith>(
    p: Pos,
    x: (u8, u8),
    code: int,
    depth: int,
    alpha: A,
    beta: A,
    vsum: A,
    rem: A,
    c: Params<A>,
    m: Mem<A>,
) -> (A, Mem<A>)
    decreases depth, 0int, 14 - code,
    when depth >= 1
{
    if code >= 14 {
        (vsum, m)
    } else if p.bag[code] == 0 {
        flip_from(p, x, code + 1, depth, alpha, beta, vsum, rem, c, m)
    } else {
        let pr = chance(p.bag, code);
        let rem1 = chance_left(rem, pr);
        let ai = star1_bound(alpha, vsum, rem1, vmax(), pr);
        let bi = star1_bound(beta, vsum, rem1, vmin(), pr);
        if A::is_at_most(vmax(), ai) {
            (alpha, m)
        } else if A::is_at_most(bi, vmin()) {
            (beta, m)
        } else {
            let cl = if A::is_less(vmin(), ai) {
                ai
            } else {
                vmin()
            };
            let cu = if A::is_less(bi, vmax()) {
                bi
            } else {
                vmax()
            };
            let (w, m1) = negamax(
                after(p, x, code),
                depth - 1,
                A::negation_of(cu),
                A::negation_of(cl),
                c,
                m,
            );
            let v = A::negation_of(w);
            if A::is_at_most(v, ai) {
                (alpha, m1)
            } else if A::is_at_most(bi, v) {
                (beta, m1)
            } else {
                flip_from(
                    p,
                    x,
                    code + 1,
                    depth,
                    alpha,
                    beta,
                    A::sum_of(vsum, A::product_of(pr, v)),
                    rem1,
                    c,
                    m1,
                )
            }
        }
    }
}

// ---------------------------------------------------------------- what a search keeps

/// A search adds nodes and leaves the path as it found it.
pub open spec fn kept<A>(m: Mem<A>, n: Mem<A>) -> bool {
    &&& n.nodes >= m.nodes
    &&& n.path == m.path
}

/// A quiescence search keeps what a search keeps, and visits at least one node.
pub proof fn lemma_quiesce_keeps<A: Arith>(
    p: Pos,
    alpha: A,
    beta: A,
    c: Params<A>,
    m0: Mem<A>,
    q: int,
)
    ensures
        kept(ticked(m0), quiesce(p, alpha, beta, c, m0, q).1),
    decreases q, 1int, 0int,
{
    let stand = leaf_value(p, c);
    if outcome(p) != RES_ONGOING || A::is_at_most(beta, stand) || q <= 0 {
    } else {
        let a = if A::is_less(alpha, stand) {
            stand
        } else {
            alpha
        };
        lemma_quiesce_from_keeps(p, best_captures(p), 0, a, beta, stand, c, ticked(m0), q);
    }
}

pub proof fn lemma_quiesce_from_keeps<A: Arith>(
    p: Pos,
    caps: Seq<(i32, (u8, u8))>,
    i: int,
    alpha: A,
    beta: A,
    best: A,
    c: Params<A>,
    m: Mem<A>,
    q: int,
)
    requires
        q >= 1,
    ensures
        kept(m, quiesce_from(p, caps, i, alpha, beta, best, c, m, q).1),
    decreases q, 0int, caps.len() - i,
{
    if i < caps.len() {
        let child = after(p, caps[i].1, 0);
        let nb = A::negation_of(beta);
        let na = A::negation_of(alpha);
        lemma_quiesce_keeps(child, nb, na, c, m, q - 1);
        let (w, m1) = quiesce(child, nb, na, c, m, q - 1);
        let v = A::negation_of(w);
        let best1 = if A::is_less(best, v) {
            v
        } else {
            best
        };
        let alpha1 = if A::is_less(alpha, best1) {
            best1
        } else {
            alpha
        };
        if !A::is_at_most(beta, alpha1) {
            lemma_quiesce_from_keeps(p, caps, i + 1, alpha1, beta, best1, c, m1, q);
        }
    }
}

/// A search visits at least one node and leaves the path of positions as it found it.
pub proof fn law_search_keeps<A: Arith>(
    p: Pos,
    depth: int,
    alpha: A,
    beta: A,
    c: Params<A>,
    m0: Mem<A>,
)
    ensures
        kept(ticked(m0), negamax(p, depth, alpha, beta, c, m0).1),
    decreases depth, 3int, 0int,
{
    let m = ticked(m0);
    let key = node_key(p, c);
    if outcome(p) != RES_ONGOING {
    } else if depth <= 0 {
        if c.quiesce {
            lemma_quiesce_keeps(p, alpha, beta, c, m, c.quiesce_max);
        }
    } else if c.feat.rep && m.path.contains(key) {
    } else if c.feat.tt && tt_value(m, key, depth, alpha, beta) is Some {
    } else {
        let mv = promoted(
            search_order(p, all_moves(p), depth, c, m),
            if c.feat.tt {
                tt_move(m, key)
            } else {
                None
            },
        );
        let m1 = if c.feat.rep {
            Mem { path: m.path.push(key), ..m }
        } else {
            m
        };
        lemma_node_from_keeps(p, mv, 0, depth, alpha, beta, A::lowest_of(), mv[0], c, m1);
        assert(m.path.push(key).drop_last() =~= m.path);
    }
}

proof fn lemma_node_move_keeps<A: Arith>(
    p: Pos,
    x: (u8, u8),
    i: int,
    depth: int,
    alpha: A,
    beta: A,
    c: Params<A>,
    m: Mem<A>,
)
    requires
        depth >= 1,
    ensures
        kept(m, node_move(p, x, i, depth, alpha, beta, c, m).1),
    decreases depth, 1int, 1int,
{
    if c.feat.lmr && quiet(p, x) && i >= 3 && depth >= 3 {
        let child = after(p, x, 0);
        let na = A::negation_of(alpha);
        let lo = A::difference_of(na, A::ratio_of(1, 1_000_000));
        law_search_keeps(child, depth - 2, lo, na, c, m);
        let m1 = negamax(child, depth - 2, lo, na, c, m).1;
        law_search_keeps(child, depth - 1, A::negation_of(beta), na, c, m1);
    } else {
        lemma_move_value_keeps(p, x, depth, alpha, beta, c, m);
    }
}

pub proof fn lemma_node_from_keeps<A: Arith>(
    p: Pos,
    mv: Seq<(u8, u8)>,
    i: int,
    depth: int,
    alpha: A,
    beta: A,
    best: A,
    best_m: (u8, u8),
    c: Params<A>,
    m: Mem<A>,
)
    requires
        depth >= 1,
    ensures
        kept(m, node_from(p, mv, i, depth, alpha, beta, best, best_m, c, m).2),
    decreases depth, 2int, mv.len() - i,
{
    if i < mv.len() {
        let x = mv[i];
        lemma_node_move_keeps(p, x, i, depth, alpha, beta, c, m);
        let (v, m1) = node_move(p, x, i, depth, alpha, beta, c, m);
        let best1 = if A::is_less(best, v) {
            v
        } else {
            best
        };
        let best_m1 = if A::is_less(best, v) {
            x
        } else {
            best_m
        };
        let alpha1 = if A::is_less(alpha, best1) {
            best1
        } else {
            alpha
        };
        if !A::is_at_most(beta, alpha1) {
            lemma_node_from_keeps(p, mv, i + 1, depth, alpha1, beta, best1, best_m1, c, m1);
        }
    }
}

pub proof fn lemma_move_value_keeps<A: Arith>(
    p: Pos,
    x: (u8, u8),
    depth: int,
    alpha: A,
    beta: A,
    c: Params<A>,
    m: Mem<A>,
)
    requires
        depth >= 1,
    ensures
        kept(m, move_value(p, x, depth, alpha, beta, c, m).1),
    decreases depth, 1int, 0int,
{
    if x.0 == x.1 {
        lemma_flip_from_keeps(p, x, 0, depth, alpha, beta, whole(0), whole(1), c, m);
    } else {
        law_search_keeps(
            after(p, x, 0),
            depth - 1,
            A::negation_of(beta),
            A::negation_of(alpha),
            c,
            m,
        );
    }
}

pub proof fn lemma_flip_from_keeps<A: Arith>(
    p: Pos,
    x: (u8, u8),
    code: int,
    depth: int,
    alpha: A,
    beta: A,
    vsum: A,
    rem: A,
    c: Params<A>,
    m: Mem<A>,
)
    requires
        depth >= 1,
    ensures
        kept(m, flip_from(p, x, code, depth, alpha, beta, vsum, rem, c, m).1),
    decreases depth, 0int, 14 - code,
{
    if code >= 14 {
    } else if p.bag[code] == 0 {
        lemma_flip_from_keeps(p, x, code + 1, depth, alpha, beta, vsum, rem, c, m);
    } else {
        let pr = chance(p.bag, code);
        let rem1 = chance_left(rem, pr);
        let ai = star1_bound(alpha, vsum, rem1, vmax(), pr);
        let bi = star1_bound(beta, vsum, rem1, vmin(), pr);
        if A::is_at_most(vmax(), ai) || A::is_at_most(bi, vmin()) {
        } else {
            let cl = if A::is_less(vmin(), ai) {
                ai
            } else {
                vmin()
            };
            let cu = if A::is_less(bi, vmax()) {
                bi
            } else {
                vmax()
            };
            let child = after(p, x, code);
            let lo = A::negation_of(cu);
            let hi = A::negation_of(cl);
            law_search_keeps(child, depth - 1, lo, hi, c, m);
            let (w, m1) = negamax(child, depth - 1, lo, hi, c, m);
            let v = A::negation_of(w);
            if A::is_at_most(v, ai) || A::is_at_most(bi, v) {
            } else {
                lemma_flip_from_keeps(
                    p,
                    x,
                    code + 1,
                    depth,
                    alpha,
                    beta,
                    A::sum_of(vsum, A::product_of(pr, v)),
                    rem1,
                    c,
                    m1,
                );
            }
        }
    }
}

} // verus!
