//! Tree search by sampling.
//!
//! The tree grows by one simulation at a time. A simulation walks down from the root. At a
//! vertex with untried actions it tries the most promising of them; at others it takes the action
//! with the highest upper confidence bound. A flip draws the piece that it turns up from the bag.
//! The walk ends at a vertex that is new, at the end of the game, or at the depth limit, and its
//! value is added to every action on the way, with the sign of the player who owns it.
//!
//! The draws come from a seeded generator, so a seed fixes the tree.
use vstd::prelude::*;

use crate::arith::{whole, RootArith, RootScore, Score};
use crate::board::{
    after, all_moves, bag_total, count_of, make_state, mover, outcome, position, tiles, wf, Pos,
    State, DOWN, RES_ONGOING,
};
use crate::engine::{no_move, QUIESCE_MAX};
use crate::eval::{to_values, values_or_base, whole_number, Feat};
use crate::expectimax::lemma_lengths_agree;
use crate::model;
use crate::model::{leaf_value, Params};
use crate::order::{lemma_plain_order_keeps, order, plainly_ordered};
use crate::rng::{mixed, Rng, GAMMA};
use crate::rules::{
    law_all_moves_are_the_legal_moves, law_bag_follows_tiles, law_moves_and_flips,
    law_moves_are_distinct, law_play_keeps_form, legal, playable,
};
use crate::search::{
    all_legal, fresh, killer_slots, leaf, lemma_all_legal, negamax, positive, terminal_value, Cfg,
    Ctx,
};

verus! {

// ---------------------------------------------------------------- the tree

/// An action of a vertex.
pub struct Branch<A> {
    pub action: (u8, u8),
    /// Simulations that took the action.
    pub n: nat,
    /// The sum of their values for the player who owns the action.
    pub w: A,
    /// The vertices that it led to, by the piece that a flip turned up; code 0 for a move.
    pub kids: Seq<(i16, usize)>,
}

/// A position in the tree.
pub struct Vertex<A> {
    pub pos: Pos,
    pub edges: Seq<Branch<A>>,
    pub untried: Seq<(u8, u8)>,
    /// Simulations that passed.
    pub n: nat,
    /// The value for the player to move, where the game has ended.
    pub terminal: Option<A>,
}

/// What a tree search is asked for.
pub struct Plan<A> {
    pub params: Params<A>,
    pub c_uct: A,
    /// Zero for the evaluation of a leaf, more for an alpha-beta search of it.
    pub leaf_depth: int,
}

/// A tree and the generator it draws from.
pub struct Grown<A> {
    pub nodes: Seq<Vertex<A>>,
    pub rng: u64,
}

/// The value of a leaf for the player to move.
pub open spec fn worth<A: RootArith>(p: Pos, plan: Plan<A>) -> A {
    if plan.leaf_depth > 0 {
        let want = model::negamax(
            p,
            plan.leaf_depth,
            whole(-2),
            whole(2),
            plan.params,
            fresh(killer_slots(plan.leaf_depth), 0),
        );
        if want.1.nodes <= u64::MAX {
            want.0
        } else {
            whole(0)
        }
    } else {
        leaf_value(p, plan.params)
    }
}

/// A vertex that no simulation has passed.
pub open spec fn vertex<A: RootArith>(p: Pos, plan: Plan<A>) -> Vertex<A> {
    if outcome(p) != RES_ONGOING {
        Vertex {
            pos: p,
            edges: seq![],
            untried: seq![],
            n: 0,
            terminal: Some(model::terminal_value(p, outcome(p), plan.params)),
        }
    } else {
        Vertex {
            pos: p,
            edges: seq![],
            untried: plainly_ordered(p, all_moves(p)),
            n: 0,
            terminal: None,
        }
    }
}

pub open spec fn vertex_worth<A: RootArith>(v: Vertex<A>, plan: Plan<A>) -> A {
    match v.terminal {
        Some(x) => x,
        None => worth(v.pos, plan),
    }
}

// ---------------------------------------------------------------- draws

/// The piece that tile `r` is, where the tiles of the bag are lined up by code from `code` on.
pub open spec fn drawn(bag: Seq<u32>, r: int, code: int) -> int
    decreases 14 - code,
{
    if code >= 14 {
        0
    } else if r < bag[code] {
        code
    } else {
        drawn(bag, r - bag[code], code + 1)
    }
}

/// The piece that an action turns up (0 for a move), and the generator after that.
pub open spec fn turned_up(p: Pos, action: (u8, u8), rng: u64) -> (int, u64) {
    if action.0 == action.1 {
        let s = rng.wrapping_add(GAMMA);
        (drawn(p.bag, mixed(s) as int % bag_total(p.bag) as int, 0), s)
    } else {
        (0, rng)
    }
}

proof fn lemma_drawn(bag: Seq<u32>, r: int, code: int)
    requires
        0 <= code <= 14,
        0 <= r,
        tiles(bag, 0, code) + r < bag_total(bag),
    ensures
        ({
            let c = drawn(bag, r, code);
            code <= c < 14 && tiles(bag, 0, c) <= tiles(bag, 0, code) + r < tiles(bag, 0, c + 1)
        }),
    decreases 14 - code,
{
    if code < 14 {
        assert(tiles(bag, 0, code + 1) == tiles(bag, 0, code) + bag[code] as nat);
        if r >= bag[code] {
            lemma_drawn(bag, r - bag[code], code + 1);
        }
    }
}

proof fn lemma_tiles_ascend(bag: Seq<u32>, i: int, j: int)
    requires
        0 <= i <= j,
    ensures
        tiles(bag, 0, i) <= tiles(bag, 0, j),
    decreases j - i,
{
    if i < j {
        lemma_tiles_ascend(bag, i, j - 1);
    }
}

/// Draws follow the bag: of the numbers below its total, exactly as many draw a piece as the
/// bag counts of it.
pub proof fn law_draws_follow_the_bag(bag: Seq<u32>, r: int, code: int)
    requires
        0 <= r < bag_total(bag),
        0 <= code < 14,
    ensures
        drawn(bag, r, 0) == code <==> tiles(bag, 0, code) <= r < tiles(bag, 0, code)
            + bag[code] as nat,
{
    lemma_drawn(bag, r, 0);
    let c = drawn(bag, r, 0);
    assert(tiles(bag, 0, code + 1) == tiles(bag, 0, code) + bag[code] as nat);
    if c < code {
        lemma_tiles_ascend(bag, c + 1, code);
    } else if c > code {
        lemma_tiles_ascend(bag, code + 1, c);
    }
}

/// What is drawn is in the bag.
pub proof fn law_draw_is_in_the_bag(p: Pos, action: (u8, u8), rng: u64)
    requires
        bag_total(p.bag) > 0,
        action.0 == action.1,
    ensures
        0 <= turned_up(p, action, rng).0 < 14,
        p.bag[turned_up(p, action, rng).0] > 0,
{
    let r = mixed(rng.wrapping_add(GAMMA)) as int % bag_total(p.bag) as int;
    lemma_drawn(p.bag, r, 0);
    let c = drawn(p.bag, r, 0);
    assert(tiles(p.bag, 0, c + 1) == tiles(p.bag, 0, c) + p.bag[c] as nat);
}

// ---------------------------------------------------------------- simulations

/// The vertex for a code among the kids from index `i` on.
pub open spec fn kid_of(kids: Seq<(i16, usize)>, code: int, i: int) -> Option<usize>
    decreases kids.len() - i,
{
    if i >= kids.len() {
        None
    } else if kids[i].0 == code {
        Some(kids[i].1)
    } else {
        kid_of(kids, code, i + 1)
    }
}

/// The vertex that a branch leads to, and whether it is new. A new one is added to the tree.
pub open spec fn resolved<A: RootArith>(
    g: Grown<A>,
    node: int,
    edge: int,
    plan: Plan<A>,
) -> (Grown<A>, int, bool) {
    let v = g.nodes[node];
    let b = v.edges[edge];
    let (code, rng) = turned_up(v.pos, b.action, g.rng);
    match kid_of(b.kids, code, 0) {
        Some(k) => (Grown { nodes: g.nodes, rng }, k as int, false),
        None => {
            let child = g.nodes.len() as int;
            let b1 = Branch { kids: b.kids.push((code as i16, child as usize)), ..b };
            let v1 = Vertex { edges: v.edges.update(edge, b1), ..v };
            (
                Grown {
                    nodes: g.nodes.update(node, v1).push(
                        vertex(after(v.pos, b.action, code), plan),
                    ),
                    rng,
                },
                child,
                true,
            )
        },
    }
}

/// The upper confidence bound of a branch, where `ln` is the logarithm of the simulations that
/// passed its vertex.
pub open spec fn bound_of<A: RootArith>(b: Branch<A>, ln: A, c_uct: A) -> A {
    let n = whole::<A>(b.n as int);
    A::sum_of(
        A::quotient_of(b.w, n),
        A::product_of(c_uct, A::sqrt_of(A::quotient_of(ln, n))),
    )
}

pub open spec fn log_passed<A: RootArith>(v: Vertex<A>) -> A {
    A::ln_of(
        whole(
            if v.n > 1 {
                v.n as int
            } else {
                1
            },
        ),
    )
}

/// The first of the first `k` branches with the highest bound, and that bound.
pub open spec fn favoured<A: RootArith>(v: Vertex<A>, k: int, c_uct: A) -> (int, A)
    decreases k,
{
    if k <= 0 {
        (0, A::lowest_of())
    } else {
        let (best, score) = favoured(v, k - 1, c_uct);
        let s = bound_of(v.edges[k - 1], log_passed(v), c_uct);
        if A::is_less(score, s) {
            (k - 1, s)
        } else {
            (best, score)
        }
    }
}

pub open spec fn selected<A: RootArith>(v: Vertex<A>, c_uct: A) -> int {
    favoured(v, v.edges.len() as int, c_uct).0
}

/// The vertex with a branch for the action that is tried next.
pub open spec fn expanded<A: RootArith>(v: Vertex<A>) -> Vertex<A> {
    Vertex {
        edges: v.edges.push(
            Branch { action: v.untried.first(), n: 0, w: whole(0), kids: seq![] },
        ),
        untried: v.untried.drop_first(),
        ..v
    }
}

/// The tree after a simulation with value `val` passed a branch.
pub open spec fn credited<A: RootArith>(g: Grown<A>, node: int, edge: int, val: A) -> Grown<A> {
    let v = g.nodes[node];
    let b = v.edges[edge];
    Grown {
        nodes: g.nodes.update(
            node,
            Vertex {
                edges: v.edges.update(
                    edge,
                    Branch { n: b.n + 1, w: A::sum_of(b.w, val), ..b },
                ),
                n: v.n + 1,
                ..v
            },
        ),
        rng: g.rng,
    }
}

/// One simulation from a vertex, at most `depth` actions deep: its value for the player to
/// move there, and the tree after it.
pub open spec fn simulated<A: RootArith>(
    g: Grown<A>,
    node: int,
    depth: int,
    plan: Plan<A>,
) -> (A, Grown<A>)
    decreases depth,
{
    let v = g.nodes[node];
    if v.terminal is Some {
        (v.terminal->0, g)
    } else if depth <= 0 {
        (worth(v.pos, plan), g)
    } else if v.untried.len() > 0 {
        let edge = v.edges.len() as int;
        let g1 = Grown { nodes: g.nodes.update(node, expanded(v)), rng: g.rng };
        let (g2, child, _) = resolved(g1, node, edge, plan);
        let val = A::negation_of(vertex_worth(g2.nodes[child], plan));
        (val, credited(g2, node, edge, val))
    } else {
        let edge = selected(v, plan.c_uct);
        let (g1, child, new) = resolved(g, node, edge, plan);
        let (x, g2) = if new {
            (vertex_worth(g1.nodes[child], plan), g1)
        } else {
            simulated(g1, child, depth - 1, plan)
        };
        let val = A::negation_of(x);
        (val, credited(g2, node, edge, val))
    }
}

/// The tree after `sims` simulations from the root.
pub open spec fn grown<A: RootArith>(
    g: Grown<A>,
    sims: int,
    depth: int,
    plan: Plan<A>,
) -> Grown<A>
    decreases sims,
{
    if sims <= 0 {
        g
    } else {
        simulated(grown(g, sims - 1, depth, plan), 0, depth, plan).1
    }
}

/// The action that most simulations took, and how many did; the first of the first `k`
/// branches where several did.
pub open spec fn robust<A>(edges: Seq<Branch<A>>, k: int) -> ((u8, u8), nat)
    decreases k,
{
    if k <= 0 {
        (no_move(), 0)
    } else {
        let (best, n) = robust(edges, k - 1);
        if edges[k - 1].n > n {
            (edges[k - 1].action, edges[k - 1].n)
        } else {
            (best, n)
        }
    }
}

/// The most visited action is one of the branches, and no branch was visited more often; there
/// is none only where no branch was visited.
pub proof fn law_robust_is_most_visited<A>(edges: Seq<Branch<A>>, k: int)
    requires
        0 <= k <= edges.len(),
    ensures
        forall|j: int| 0 <= j < k ==> (#[trigger] edges[j]).n <= robust(edges, k).1,
        robust(edges, k).1 > 0 ==> exists|j: int|
            0 <= j < k && (#[trigger] edges[j]).n == robust(edges, k).1 && edges[j].action
                == robust(edges, k).0,
        robust(edges, k).1 == 0 ==> robust(edges, k).0 == no_move(),
    decreases k,
{
    if k > 0 {
        law_robust_is_most_visited(edges, k - 1);
        let (best, n) = robust(edges, k - 1);
        if edges[k - 1].n > n {
            assert(edges[k - 1].n == robust(edges, k).1);
        } else if n > 0 {
            let j = choose|j: int|
                0 <= j < k - 1 && (#[trigger] edges[j]).n == n && edges[j].action == best;
            assert(edges[j].n == robust(edges, k).1);
        }
    }
}

// ---------------------------------------------------------------- sound trees

/// The bag accounts for every face-down tile, and its total can be counted.
pub open spec fn covered(p: Pos) -> bool {
    count_of(p.sq, DOWN as int, 32) <= bag_total(p.bag) <= u32::MAX
}

pub open spec fn branch_sound<A>(g: Seq<Vertex<A>>, i: int, b: Branch<A>, k: nat) -> bool {
    &&& legal(g[i].pos, b.action)
    &&& b.n <= k
    &&& forall|h: int|
        0 <= h < b.kids.len() ==> i < (#[trigger] b.kids[h]).1 < g.len()
            && g[b.kids[h].1 as int].pos.ply == g[i].pos.ply + 1
}

/// The simulations that took one of the first `n` branches.
pub open spec fn visits<A>(edges: Seq<Branch<A>>, n: int) -> nat
    decreases n,
{
    if n <= 0 {
        0
    } else {
        visits(edges, n - 1) + edges[n - 1].n
    }
}

proof fn lemma_visits_update<A>(edges: Seq<Branch<A>>, j: int, b: Branch<A>, n: int)
    requires
        0 <= j < edges.len(),
        0 <= n <= edges.len(),
    ensures
        visits(edges.update(j, b), n) == visits(edges, n) + if j < n {
            b.n - edges[j].n
        } else {
            0
        },
    decreases n,
{
    if n > 0 {
        lemma_visits_update(edges, j, b, n - 1);
    }
}

proof fn lemma_visits_push<A>(edges: Seq<Branch<A>>, b: Branch<A>, n: int)
    requires
        0 <= n <= edges.len(),
    ensures
        visits(edges.push(b), n) == visits(edges, n),
    decreases n,
{
    if n > 0 {
        lemma_visits_push(edges, b, n - 1);
    }
}

/// The actions of a vertex: those of its branches, then the untried ones.
pub open spec fn actions<A>(v: Vertex<A>) -> Seq<(u8, u8)> {
    Seq::new(v.edges.len(), |j: int| v.edges[j].action) + v.untried
}

pub open spec fn vertex_sound<A>(g: Seq<Vertex<A>>, i: int, k: nat) -> bool {
    let v = g[i];
    &&& wf(v.pos)
    &&& covered(v.pos)
    &&& v.n <= k
    &&& visits(v.edges, v.edges.len() as int) == v.n
    &&& v.terminal is None ==> outcome(v.pos) == RES_ONGOING && v.edges.len() + v.untried.len() > 0
    &&& v.terminal is None ==> actions(v) == plainly_ordered(v.pos, all_moves(v.pos))
    &&& v.terminal is Some ==> actions(v).len() == 0
    &&& all_legal(v.pos, v.untried)
    &&& forall|j: int| 0 <= j < v.edges.len() ==> branch_sound(g, i, #[trigger] v.edges[j], k)
}

/// A tree that `k` simulations have grown: its positions are well formed, its actions legal,
/// its counts at most `k`, and the count of a vertex is the sum of those of its branches. The
/// actions of a vertex are its legal moves in plain order. Kids come after their parents.
pub open spec fn sound<A>(g: Seq<Vertex<A>>, k: nat) -> bool {
    forall|i: int| 0 <= i < g.len() ==> #[trigger] vertex_sound(g, i, k)
}

/// `h` is `g` with vertices added, where those before `node` are the same, and the positions
/// and ends of the others.
pub open spec fn extends<A>(h: Seq<Vertex<A>>, g: Seq<Vertex<A>>, node: int) -> bool {
    &&& g.len() <= h.len()
    &&& forall|i: int| 0 <= i < node && i < g.len() ==> #[trigger] h[i] == g[i]
    &&& forall|i: int|
        0 <= i < g.len() ==> (#[trigger] h[i]).pos == g[i].pos && h[i].terminal == g[i].terminal
}

pub open spec fn some_visited<A>(v: Vertex<A>) -> bool {
    exists|j: int| 0 <= j < v.edges.len() && (#[trigger] v.edges[j]).n > 0
}

proof fn lemma_vertex<A: RootArith>(g: Seq<Vertex<A>>, i: int, p: Pos, plan: Plan<A>, k: nat)
    requires
        wf(p),
        covered(p),
        g[i] == vertex(p, plan),
    ensures
        vertex_sound(g, i, k),
{
    assert(actions(g[i]) =~= g[i].untried);
    if outcome(p) == RES_ONGOING {
        lemma_plain_order_keeps(p, all_moves(p));
        lemma_all_legal(p, plainly_ordered(p, all_moves(p)));
        assert(g[i].untried.len() > 0) by {
            let m = all_moves(p)[0];
            assert(all_moves(p).contains(m));
            crate::order::lemma_same_moves(all_moves(p), g[i].untried, m);
        }
    }
}

/// An action keeps the position well formed and the tiles covered.
proof fn lemma_turned_up(p: Pos, action: (u8, u8), rng: u64)
    requires
        wf(p),
        covered(p),
        legal(p, action),
    ensures
        action.0 == action.1 ==> bag_total(p.bag) > 0,
        0 <= turned_up(p, action, rng).0 < 14,
        playable(p, action, turned_up(p, action, rng).0),
        wf(after(p, action, turned_up(p, action, rng).0)),
        covered(after(p, action, turned_up(p, action, rng).0)),
{
    law_moves_and_flips(p, action);
    if action.0 == action.1 {
        lemma_counted(p.sq, action.0 as int, 32);
        law_draw_is_in_the_bag(p, action, rng);
    }
    let code = turned_up(p, action, rng).0;
    law_play_keeps_form(p, action, code);
    law_bag_follows_tiles(p, action, code);
}

proof fn lemma_counted(sq: Seq<i16>, i: int, n: int)
    requires
        0 <= i < n,
    ensures
        count_of(sq, sq[i] as int, n) > 0,
    decreases n,
{
    if i < n - 1 {
        lemma_counted(sq, i, n - 1);
    }
}

proof fn lemma_kid_of(kids: Seq<(i16, usize)>, code: int, i: int)
    requires
        0 <= i,
    ensures
        kid_of(kids, code, i) matches Some(k) ==> exists|h: int|
            0 <= h < kids.len() && (#[trigger] kids[h]).1 == k,
    decreases kids.len() - i,
{
    if i < kids.len() {
        if kids[i].0 == code {
            assert(kids[i].1 == kid_of(kids, code, i)->0);
        } else {
            lemma_kid_of(kids, code, i + 1);
        }
    }
}

/// Where a branch leads: a later vertex, one ply on.
pub proof fn lemma_resolved<A: RootArith>(g: Grown<A>, node: int, edge: int, plan: Plan<A>, k: nat)
    requires
        sound(g.nodes, k),
        0 <= node < g.nodes.len(),
        0 <= edge < g.nodes[node].edges.len(),
        g.nodes.len() < usize::MAX,
    ensures
        ({
            let (g1, child, new) = resolved(g, node, edge, plan);
            &&& sound(g1.nodes, k)
            &&& extends(g1.nodes, g.nodes, node)
            &&& node < child < g1.nodes.len()
            &&& g1.nodes[child].pos.ply == g.nodes[node].pos.ply + 1
            &&& g1.nodes.len() <= g.nodes.len() + 1
            &&& g1.nodes[node].n == g.nodes[node].n
            &&& g1.nodes[node].untried == g.nodes[node].untried
            &&& g1.nodes[node].edges.len() == g.nodes[node].edges.len()
            &&& g1.nodes[node].edges[edge].n == g.nodes[node].edges[edge].n
            &&& g1.nodes[node].edges[edge].w == g.nodes[node].edges[edge].w
            &&& g1.nodes[node].edges[edge].action == g.nodes[node].edges[edge].action
            &&& forall|j: int|
                0 <= j < g.nodes[node].edges.len() && j != edge
                    ==> #[trigger] g1.nodes[node].edges[j] == g.nodes[node].edges[j]
        }),
{
    let v = g.nodes[node];
    let b = v.edges[edge];
    assert(vertex_sound(g.nodes, node, k));
    assert(branch_sound(g.nodes, node, b, k));
    let (code, rng) = turned_up(v.pos, b.action, g.rng);
    lemma_turned_up(v.pos, b.action, g.rng);
    lemma_kid_of(b.kids, code, 0);
    let (g1, child, new) = resolved(g, node, edge, plan);
    if new {
        let h = g1.nodes;
        let b1 = Branch { kids: b.kids.push((code as i16, child as usize)), ..b };
        lemma_visits_update(v.edges, edge, b1, v.edges.len() as int);
        assert forall|i: int| 0 <= i < h.len() implies #[trigger] vertex_sound(h, i, k) by {
            if i == child {
                lemma_vertex(h, i, after(v.pos, b.action, code), plan, k);
            } else {
                assert(vertex_sound(g.nodes, i, k));
                assert(actions(h[i]) =~= actions(g.nodes[i]));
                assert forall|j: int| 0 <= j < h[i].edges.len() implies branch_sound(
                    h,
                    i,
                    #[trigger] h[i].edges[j],
                    k,
                ) by {
                    let o = g.nodes[i].edges[j];
                    assert(branch_sound(g.nodes, i, o, k));
                    let bb = h[i].edges[j];
                    assert forall|x: int| 0 <= x < bb.kids.len() implies i < (
                    #[trigger] bb.kids[x]).1 < h.len() && h[bb.kids[x].1 as int].pos.ply
                        == h[i].pos.ply + 1 by {
                        if x < o.kids.len() {
                            assert(o.kids[x] == bb.kids[x]);
                        }
                    }
                }
            }
        }
    }
}

proof fn lemma_sound_grows<A>(g: Seq<Vertex<A>>, k: nat)
    requires
        sound(g, k),
    ensures
        sound(g, k + 1),
{
    assert forall|i: int| 0 <= i < g.len() implies #[trigger] vertex_sound(g, i, k + 1) by {
        assert(vertex_sound(g, i, k));
        assert forall|j: int| 0 <= j < g[i].edges.len() implies branch_sound(
            g,
            i,
            #[trigger] g[i].edges[j],
            k + 1,
        ) by {
            assert(branch_sound(g, i, g[i].edges[j], k));
        }
    }
}

proof fn lemma_credited<A: RootArith>(g: Grown<A>, node: int, edge: int, val: A, k: nat)
    requires
        sound(g.nodes, k + 1),
        0 <= node < g.nodes.len(),
        0 <= edge < g.nodes[node].edges.len(),
        g.nodes[node].n <= k,
        g.nodes[node].edges[edge].n <= k,
    ensures
        sound(credited(g, node, edge, val).nodes, k + 1),
        extends(credited(g, node, edge, val).nodes, g.nodes, node),
        some_visited(credited(g, node, edge, val).nodes[node]),
{
    let h = credited(g, node, edge, val).nodes;
    let v = g.nodes[node];
    let b = v.edges[edge];
    lemma_visits_update(
        v.edges,
        edge,
        Branch { n: b.n + 1, w: A::sum_of(b.w, val), ..b },
        v.edges.len() as int,
    );
    assert forall|i: int| 0 <= i < h.len() implies #[trigger] vertex_sound(h, i, k + 1) by {
        assert(vertex_sound(g.nodes, i, k + 1));
        assert(actions(h[i]) =~= actions(g.nodes[i]));
        assert forall|j: int| 0 <= j < h[i].edges.len() implies branch_sound(
            h,
            i,
            #[trigger] h[i].edges[j],
            k + 1,
        ) by {
            let o = g.nodes[i].edges[j];
            assert(branch_sound(g.nodes, i, o, k + 1));
            let bb = h[i].edges[j];
            assert(bb.kids == o.kids);
        }
    }
    assert(h[node].edges[edge].n > 0);
}

proof fn lemma_expanded<A: RootArith>(g: Seq<Vertex<A>>, node: int, k: nat)
    requires
        sound(g, k),
        0 <= node < g.len(),
        g[node].untried.len() > 0,
    ensures
        sound(g.update(node, expanded(g[node])), k),
{
    let h = g.update(node, expanded(g[node]));
    lemma_visits_push(g[node].edges, expanded(g[node]).edges.last(), g[node].edges.len() as int);
    assert forall|i: int| 0 <= i < h.len() implies #[trigger] vertex_sound(h, i, k) by {
        assert(vertex_sound(g, i, k));
        assert(actions(h[i]) =~= actions(g[i]));
        if i == node {
            assert(legal(g[i].pos, g[i].untried[0]));
            assert forall|j: int| 0 <= j < h[i].untried.len() implies legal(
                h[i].pos,
                #[trigger] h[i].untried[j],
            ) by {
                assert(h[i].untried[j] == g[i].untried[j + 1]);
            }
        }
        assert forall|j: int| 0 <= j < h[i].edges.len() implies branch_sound(
            h,
            i,
            #[trigger] h[i].edges[j],
            k,
        ) by {
            if j < g[i].edges.len() {
                assert(branch_sound(g, i, g[i].edges[j], k));
            }
        }
    }
}

pub proof fn lemma_favoured<A: RootArith>(v: Vertex<A>, k: int, c_uct: A)
    requires
        0 <= k <= v.edges.len(),
        v.edges.len() > 0,
    ensures
        0 <= favoured(v, k, c_uct).0 < v.edges.len(),
    decreases k,
{
    if k > 0 {
        lemma_favoured(v, k - 1, c_uct);
    }
}

/// A simulation keeps a tree sound, adds at most one vertex, and visits a branch of the vertex
/// where it starts.
pub proof fn lemma_simulated<A: RootArith>(
    g: Grown<A>,
    node: int,
    depth: int,
    plan: Plan<A>,
    k: nat,
)
    requires
        sound(g.nodes, k),
        0 <= node < g.nodes.len(),
        g.nodes.len() < usize::MAX,
    ensures
        ({
            let h = simulated(g, node, depth, plan).1.nodes;
            &&& sound(h, k + 1)
            &&& extends(h, g.nodes, node)
            &&& h.len() <= g.nodes.len() + 1
            &&& depth > 0 && g.nodes[node].terminal is None ==> some_visited(h[node]) && h[node].n
                == g.nodes[node].n + 1
        }),
    decreases depth,
{
    let v = g.nodes[node];
    assert(vertex_sound(g.nodes, node, k));
    lemma_sound_grows(g.nodes, k);
    if v.terminal is None && depth > 0 {
        if v.untried.len() > 0 {
            let edge = v.edges.len() as int;
            let g1 = Grown { nodes: g.nodes.update(node, expanded(v)), rng: g.rng };
            lemma_expanded(g.nodes, node, k);
            lemma_resolved(g1, node, edge, plan, k);
            let (g2, child, _) = resolved(g1, node, edge, plan);
            let val = A::negation_of(vertex_worth(g2.nodes[child], plan));
            lemma_sound_grows(g2.nodes, k);
            lemma_credited(g2, node, edge, val, k);
        } else {
            let edge = selected(v, plan.c_uct);
            lemma_favoured(v, v.edges.len() as int, plan.c_uct);
            lemma_resolved(g, node, edge, plan, k);
            assert(branch_sound(g.nodes, node, v.edges[edge], k));
            let (g1, child, new) = resolved(g, node, edge, plan);
            lemma_sound_grows(g1.nodes, k);
            if new {
                let val = A::negation_of(vertex_worth(g1.nodes[child], plan));
                lemma_credited(g1, node, edge, val, k);
            } else {
                lemma_simulated(g1, child, depth - 1, plan, k);
                let (x, g2) = simulated(g1, child, depth - 1, plan);
                assert(g2.nodes[node] == g1.nodes[node]);
                lemma_credited(g2, node, edge, A::negation_of(x), k);
            }
        }
    }
}

// ---------------------------------------------------------------- the search

pub struct Edge<S> {
    pub action: (u8, u8),
    pub n: u32,
    pub w: S,
    pub kids: Vec<(i16, usize)>,
}

impl<S> View for Edge<S> {
    type V = Branch<S>;

    open spec fn view(&self) -> Branch<S> {
        Branch { action: self.action, n: self.n as nat, w: self.w, kids: self.kids@ }
    }
}

pub struct MNode<S> {
    pub state: State,
    pub edges: Vec<Edge<S>>,
    pub untried: Vec<(u8, u8)>,
    pub n: u32,
    pub terminal: Option<S>,
}

impl<S> View for MNode<S> {
    type V = Vertex<S>;

    open spec fn view(&self) -> Vertex<S> {
        Vertex {
            pos: self.state@,
            edges: Seq::new(self.edges@.len(), |i: int| self.edges@[i]@),
            untried: self.untried@,
            n: self.n as nat,
            terminal: self.terminal,
        }
    }
}

/// A search tree. Its root is vertex 0.
pub struct Tree<S> {
    pub nodes: Vec<MNode<S>>,
    pub cfg: Cfg<S>,
    pub c_uct: S,
    pub leaf_depth: i32,
}

impl<S> View for Tree<S> {
    type V = Seq<Vertex<S>>;

    open spec fn view(&self) -> Seq<Vertex<S>> {
        Seq::new(self.nodes@.len(), |i: int| self.nodes@[i]@)
    }
}

impl<S> Tree<S> {
    pub open spec fn plan(&self) -> Plan<S> {
        Plan { params: self.cfg@, c_uct: self.c_uct, leaf_depth: self.leaf_depth as int }
    }

    /// The leaves can be searched without the table.
    pub open spec fn wf(&self) -> bool {
        &&& !self.cfg.feat.tt
        &&& self.leaf_depth <= i32::MAX - 2
    }

    /// The plies that searching a leaf adds.
    pub open spec fn reach(&self) -> int {
        positive(self.leaf_depth as int) + positive(self.cfg.quiesce_max as int)
    }

    /// Nothing but the vertices differs from `other`.
    pub open spec fn same_plan(&self, other: &Tree<S>) -> bool {
        &&& self.cfg == other.cfg
        &&& self.c_uct == other.c_uct
        &&& self.leaf_depth == other.leaf_depth
    }
}

impl<S: RootScore> Tree<S> {
    /// The value of a leaf for the player to move.
    pub fn leaf_value(&self, st: &State) -> (r: S)
        requires
            self.wf(),
            wf(st@),
            st.ply + self.reach() <= u32::MAX,
        ensures
            r == worth(st@, self.plan()),
    {
        if self.leaf_depth > 0 {
            let mut ctx: Ctx<S> = Ctx::new(u64::MAX, 0, self.leaf_depth, 0);
            match negamax(
                st,
                self.leaf_depth,
                whole_number(-2),
                whole_number(2),
                &self.cfg,
                &mut ctx,
            ) {
                Ok(v) => v,
                Err(_) => whole_number(0),
            }
        } else {
            leaf(st, &self.cfg)
        }
    }

    fn node_value(&self, i: usize) -> (r: S)
        requires
            self.wf(),
            i < self.nodes@.len(),
            wf(self.nodes@[i as int].state@),
            self.nodes@[i as int].state.ply + self.reach() <= u32::MAX,
        ensures
            r == vertex_worth(self@[i as int], self.plan()),
    {
        match self.nodes[i].terminal {
            Some(v) => v,
            None => self.leaf_value(&self.nodes[i].state),
        }
    }

    /// Adds a vertex for a state, and returns its index.
    pub fn new_node(&mut self, st: State) -> (r: usize)
        requires
            wf(st@),
        ensures
            final(self)@ == old(self)@.push(vertex(st@, old(self).plan())),
            final(self).same_plan(old(self)),
            r == old(self)@.len(),
    {
        let ghost before = self@;
        let ghost plan = self.plan();
        let mut mv: Vec<(u8, u8)> = Vec::new();
        let res = st.result(&mut mv);
        let mut untried: Vec<(u8, u8)> = Vec::new();
        let terminal: Option<S> = if res != RES_ONGOING {
            Some(terminal_value(&st, res, &self.cfg))
        } else {
            proof {
                lemma_all_legal(st@, mv@);
            }
            untried = order(&st, &mv);
            None
        };
        let edges: Vec<Edge<S>> = Vec::new();
        let node = MNode { state: st, edges, untried, n: 0, terminal };
        proof {
            assert(node@.edges =~= seq![]);
            if res != RES_ONGOING {
                assert(node@.untried =~= seq![]);
            }
            assert(node@ == vertex(st@, plan));
        }
        self.nodes.push(node);
        assert(self@ =~= before.push(vertex(st@, plan)));
        self.nodes.len() - 1
    }
}

/// The piece that a flip turns up, drawn from the bag.
fn draw(bag: &[u32; 14], rng: &mut Rng) -> (r: i16)
    requires
        0 < bag_total(bag@) <= u32::MAX,
    ensures
        final(rng).0 == old(rng).0.wrapping_add(GAMMA),
        r == drawn(bag@, mixed(final(rng).0) as int % bag_total(bag@) as int, 0),
        0 <= r < 14,
{
    let mut total: u32 = 0;
    let mut i: usize = 0;
    while i < 14
        invariant
            i <= 14,
            bag@.len() == 14,
            total == tiles(bag@, 0, i as int),
            bag_total(bag@) <= u32::MAX,
        decreases 14 - i,
    {
        proof {
            lemma_tiles_ascend(bag@, i + 1, 14);
        }
        total = total + bag[i];
        i = i + 1;
    }
    let pick = rng.below(total);
    let mut r: u32 = pick;
    proof {
        lemma_drawn(bag@, r as int, 0);
    }
    let mut c: usize = 0;
    while c < 14
        invariant
            c <= 14,
            bag@.len() == 14,
            drawn(bag@, pick as int, 0) == drawn(bag@, r as int, c as int),
            0 <= drawn(bag@, pick as int, 0) < 14,
            pick == mixed(rng.0) as int % bag_total(bag@) as int,
            rng.0 == old(rng).0.wrapping_add(GAMMA),
        decreases 14 - c,
    {
        if r < bag[c] {
            return c as i16;
        }
        r = r - bag[c];
        c = c + 1;
    }
    0
}

/// The vertex for a code among the kids.
fn find_kid(kids: &Vec<(i16, usize)>, code: i16) -> (r: Option<usize>)
    ensures
        r == kid_of(kids@, code as int, 0),
{
    let mut i: usize = 0;
    while i < kids.len()
        invariant
            i <= kids@.len(),
            kid_of(kids@, code as int, 0) == kid_of(kids@, code as int, i as int),
        decreases kids@.len() - i,
    {
        if kids[i].0 == code {
            return Some(kids[i].1);
        }
        i = i + 1;
    }
    None
}

impl<S: RootScore> Tree<S> {
    /// Resolves a branch to a vertex, drawing the piece that a flip turns up. The second result
    /// says whether the vertex is new.
    pub fn resolve_child(&mut self, node_idx: usize, edge_idx: usize, rng: &mut Rng) -> (r: (
        usize,
        bool,
    ))
        requires
            exists|k: nat| sound(old(self)@, k),
            node_idx < old(self)@.len(),
            edge_idx < old(self)@[node_idx as int].edges.len(),
            old(self)@[node_idx as int].terminal is None,
            old(self)@[node_idx as int].pos.ply < u32::MAX,
            old(self)@.len() < usize::MAX,
        ensures
            final(self).same_plan(old(self)),
            (Grown { nodes: final(self)@, rng: final(rng).0 }, r.0 as int, r.1) == resolved(
                Grown { nodes: old(self)@, rng: old(rng).0 },
                node_idx as int,
                edge_idx as int,
                old(self).plan(),
            ),
    {
        let ghost before = self@;
        let ghost plan = self.plan();
        let ghost rng0 = rng.0;
        let ghost v = self@[node_idx as int];
        let ghost b = v.edges[edge_idx as int];
        let action = self.nodes[node_idx].edges[edge_idx].action;
        proof {
            let k = choose|k: nat| sound(before, k);
            assert(vertex_sound(before, node_idx as int, k));
            assert(branch_sound(before, node_idx as int, b, k));
            lemma_turned_up(v.pos, action, rng0);
        }
        let code: i16 = if action.0 == action.1 {
            draw(&self.nodes[node_idx].state.bag, rng)
        } else {
            0
        };
        assert((code as int, rng.0) == turned_up(v.pos, action, rng0));
        match find_kid(&self.nodes[node_idx].edges[edge_idx].kids, code) {
            Some(idx) => {
                return (idx, false);
            },
            None => {},
        }
        let mut child = self.nodes[node_idx].state;
        child.push(action.0, action.1, code);
        let cidx = self.new_node(child);
        let ghost mid = self@;
        assert(mid[node_idx as int] == v);
        assert(mid.len() == self.nodes@.len());
        assert(self.nodes@[node_idx as int]@ == v);
        let node = &mut self.nodes[node_idx];
        let edge = &mut node.edges[edge_idx];
        edge.kids.push((code, cidx));
        proof {
            let b1 = Branch { kids: b.kids.push((code, cidx)), ..b };
            let v1 = Vertex { edges: v.edges.update(edge_idx as int, b1), ..v };
            assert(self@[node_idx as int].edges =~= v1.edges);
            assert(self@ =~= mid.update(node_idx as int, v1));
            assert(mid.update(node_idx as int, v1) =~= before.update(node_idx as int, v1).push(
                vertex(child@, plan),
            ));
        }
        (cidx, true)
    }

    /// The branch with the highest upper confidence bound.
    pub fn select_edge(&self, node_idx: usize) -> (r: usize)
        requires
            node_idx < self@.len(),
            self@[node_idx as int].edges.len() > 0,
        ensures
            r == selected(self@[node_idx as int], self.c_uct),
            r < self@[node_idx as int].edges.len(),
    {
        let node = &self.nodes[node_idx];
        let ghost v = node@;
        let ln: S = whole_number::<S>(
            if node.n > 1 {
                node.n as i64
            } else {
                1
            },
        ).ln();
        let mut best: usize = 0;
        let mut best_score: S = S::lowest();
        let mut i: usize = 0;
        while i < node.edges.len()
            invariant
                i <= node.edges@.len(),
                v == node@,
                ln == log_passed(v),
                (best as int, best_score) == favoured(v, i as int, self.c_uct),
                best < node.edges@.len(),
            decreases node.edges@.len() - i,
        {
            let e = &node.edges[i];
            assert(v.edges[i as int] == e@);
            let n: S = whole_number(e.n as i64);
            let q = e.w.over(n);
            let u = self.c_uct.times(ln.over(n).sqrt());
            let s = q.plus(u);
            if best_score.less(s) {
                best_score = s;
                best = i;
            }
            i = i + 1;
        }
        best
    }

    /// Adds the value of a simulation to a branch.
    fn credit(&mut self, node_idx: usize, edge_idx: usize, val: S)
        requires
            node_idx < old(self)@.len(),
            edge_idx < old(self)@[node_idx as int].edges.len(),
            old(self)@[node_idx as int].n < u32::MAX,
            old(self)@[node_idx as int].edges[edge_idx as int].n < u32::MAX,
        ensures
            final(self).same_plan(old(self)),
            forall|rng: u64|
                (Grown { nodes: final(self)@, rng }) == #[trigger] credited(
                    Grown { nodes: old(self)@, rng },
                    node_idx as int,
                    edge_idx as int,
                    val,
                ),
    {
        let ghost before = self@;
        let ghost v = before[node_idx as int];
        let ghost b = v.edges[edge_idx as int];
        let node = &mut self.nodes[node_idx];
        node.n = node.n + 1;
        let edge = &mut node.edges[edge_idx];
        edge.n = edge.n + 1;
        edge.w = edge.w.plus(val);
        proof {
            let b1 = Branch { n: b.n + 1, w: S::sum_of(b.w, val), ..b };
            assert(self@[node_idx as int].edges =~= v.edges.update(edge_idx as int, b1));
            let v1 = Vertex { edges: v.edges.update(edge_idx as int, b1), n: v.n + 1, ..v };
            assert(self@ =~= before.update(node_idx as int, v1));
        }
    }

    /// One simulation from a vertex: its value for the player to move there.
    pub fn simulate(&mut self, node_idx: usize, depth: i32, rng: &mut Rng) -> (r: S)
        requires
            old(self).wf(),
            exists|k: nat| k < u32::MAX && sound(old(self)@, k),
            node_idx < old(self)@.len(),
            old(self)@[node_idx as int].pos.ply + positive(depth as int) + old(self).reach()
                <= u32::MAX,
            old(self)@.len() < usize::MAX,
        ensures
            final(self).same_plan(old(self)),
            (r, Grown { nodes: final(self)@, rng: final(rng).0 }) == simulated(
                Grown { nodes: old(self)@, rng: old(rng).0 },
                node_idx as int,
                depth as int,
                old(self).plan(),
            ),
        decreases depth,
    {
        let ghost k = choose|k: nat| k < u32::MAX && sound(self@, k);
        let ghost node = node_idx as int;
        let ghost plan = self.plan();
        let ghost g = Grown { nodes: self@, rng: rng.0 };
        let ghost v = self@[node];
        assert(vertex_sound(self@, node, k));
        match self.nodes[node_idx].terminal {
            Some(v) => {
                return v;
            },
            None => {},
        }
        if depth <= 0 {
            return self.leaf_value(&self.nodes[node_idx].state);
        }
        if self.nodes[node_idx].untried.len() > 0 {
            let edge_idx = self.nodes[node_idx].edges.len();
            let ghost edge = edge_idx as int;
            let zero: S = whole_number(0);
            let slot = &mut self.nodes[node_idx];
            let action = slot.untried.remove(0);
            let kids: Vec<(i16, usize)> = Vec::new();
            slot.edges.push(Edge { action, n: 0, w: zero, kids });
            let ghost g1 = Grown { nodes: g.nodes.update(node, expanded(v)), rng: g.rng };
            proof {
                assert(self@[node].edges.last().kids =~= seq![]);
                assert(self@[node].edges =~= expanded(v).edges);
                assert(self@[node].untried =~= expanded(v).untried);
                assert(self@[node] == expanded(v));
                assert(self@ =~= g1.nodes);
                lemma_expanded(g.nodes, node, k);
                lemma_resolved(g1, node, edge, plan, k);
            }
            let (cidx, _) = self.resolve_child(node_idx, edge_idx, rng);
            assert(vertex_sound(self@, cidx as int, k));
            assert(self@[cidx as int].pos == self.nodes@[cidx as int].state@);
            let val = self.node_value(cidx).negated();
            self.credit(node_idx, edge_idx, val);
            return val;
        }
        proof {
            lemma_favoured(v, v.edges.len() as int, plan.c_uct);
        }
        let edge_idx = self.select_edge(node_idx);
        let ghost edge = edge_idx as int;
        proof {
            lemma_resolved(g, node, edge, plan, k);
            assert(branch_sound(g.nodes, node, v.edges[edge], k));
        }
        let (cidx, is_new) = self.resolve_child(node_idx, edge_idx, rng);
        let ghost g1 = Grown { nodes: self@, rng: rng.0 };
        assert(vertex_sound(self@, cidx as int, k));
        assert(self@[cidx as int].pos == self.nodes@[cidx as int].state@);
        let val = if is_new {
            self.node_value(cidx).negated()
        } else {
            proof {
                lemma_simulated(g1, cidx as int, depth - 1, plan, k);
            }
            self.simulate(cidx, depth - 1, rng).negated()
        };
        self.credit(node_idx, edge_idx, val);
        val
    }
}

// ---------------------------------------------------------------- the move

/// What a tree search of a position is asked for.
pub open spec fn mcts_plan<A: RootArith>(
    p: Pos,
    c_uct: A,
    leaf_depth: int,
    w_mob: A,
    w_king: A,
    values: Seq<A>,
) -> Plan<A> {
    Plan {
        params: Params {
            contempt: whole(0),
            root: mover(p),
            quiesce: leaf_depth > 0,
            quiesce_max: QUIESCE_MAX as int,
            w_mob,
            w_king,
            values: values_or_base(values),
            feat: Feat::plain(),
        },
        c_uct,
        leaf_depth,
    }
}

/// The tree of one vertex that a search of a position starts from.
pub open spec fn seedling<A: RootArith>(p: Pos, seed: u64, plan: Plan<A>) -> Grown<A> {
    Grown { nodes: seq![vertex(p, plan)], rng: seed ^ 0x0123_4567_89AB_CDEF }
}

/// The move that a tree search chooses.
pub open spec fn sampled_move<A: RootArith>(
    p: Pos,
    sims: int,
    depth: int,
    seed: u64,
    plan: Plan<A>,
) -> (u8, u8) {
    let root = grown(seedling(p, seed, plan), sims, depth, plan).nodes[0];
    robust(root.edges, root.edges.len() as int).0
}

/// The tree is sound after every simulation, and its root keeps its position.
pub proof fn lemma_grown<A: RootArith>(
    p: Pos,
    sims: int,
    depth: int,
    seed: u64,
    plan: Plan<A>,
)
    requires
        wf(p),
        covered(p),
        0 <= sims < usize::MAX,
    ensures
        ({
            let h = grown(seedling(p, seed, plan), sims, depth, plan).nodes;
            &&& sound(h, sims as nat)
            &&& 1 <= h.len() <= 1 + sims
            &&& h[0].pos == p
            &&& h[0].terminal == vertex(p, plan).terminal
            &&& sims > 0 && depth > 0 && outcome(p) == RES_ONGOING ==> some_visited(h[0])
            &&& depth > 0 && outcome(p) == RES_ONGOING ==> h[0].n == sims
        }),
    decreases sims,
{
    let start = seedling(p, seed, plan);
    if sims == 0 {
        lemma_vertex(start.nodes, 0, p, plan, 0);
    } else {
        lemma_grown(p, sims - 1, depth, seed, plan);
        let g = grown(start, sims - 1, depth, plan);
        lemma_simulated(g, 0, depth, plan, (sims - 1) as nat);
    }
}

/// The actions of a vertex, tried and untried, are its legal moves, each once, after any number
/// of simulations; there are none where the game has ended.
pub proof fn law_actions_are_the_legal_moves<A>(g: Seq<Vertex<A>>, i: int, k: nat)
    requires
        sound(g, k),
        0 <= i < g.len(),
    ensures
        g[i].terminal is None ==> actions(g[i]).to_multiset() == all_moves(g[i].pos).to_multiset()
            && actions(g[i]).no_duplicates(),
        g[i].terminal is Some ==> actions(g[i]).len() == 0,
{
    assert(vertex_sound(g, i, k));
    if g[i].terminal is None {
        lemma_plain_order_keeps(g[i].pos, all_moves(g[i].pos));
        law_moves_are_distinct(g[i].pos);
        all_moves(g[i].pos).lemma_multiset_has_no_duplicates();
        actions(g[i]).lemma_multiset_has_no_duplicates_conv();
    }
}

/// A simulation is the value of an ended game, or of a leaf at the depth limit, and changes
/// nothing then. Otherwise it changes one branch of its vertex, by one visit and by its value: a
/// new branch where there was an untried action, which leaves the untried ones, and the selected
/// branch where there was none.
pub proof fn law_simulation_credits_one_branch<A: RootArith>(
    g: Grown<A>,
    node: int,
    depth: int,
    plan: Plan<A>,
    k: nat,
)
    requires
        sound(g.nodes, k),
        0 <= node < g.nodes.len(),
        g.nodes.len() < usize::MAX,
    ensures
        ({
            let v = g.nodes[node];
            let (r, h) = simulated(g, node, depth, plan);
            let v1 = h.nodes[node];
            let e = if v.untried.len() > 0 {
                v.edges.len() as int
            } else {
                selected(v, plan.c_uct)
            };
            if v.terminal is Some {
                r == v.terminal->0 && h == g
            } else if depth <= 0 {
                r == worth(v.pos, plan) && h == g
            } else {
                &&& v1.n == v.n + 1
                &&& visits(v1.edges, v1.edges.len() as int) == v1.n
                &&& actions(v1) == actions(v)
                &&& 0 <= e < v1.edges.len()
                &&& forall|j: int|
                    0 <= j < v.edges.len() && j != e ==> #[trigger] v1.edges[j] == v.edges[j]
                &&& if v.untried.len() > 0 {
                    &&& v1.edges.len() == v.edges.len() + 1
                    &&& v1.untried == v.untried.drop_first()
                    &&& v1.edges[e].action == v.untried.first()
                    &&& v1.edges[e].n == 1
                    &&& v1.edges[e].w == A::sum_of(whole(0), r)
                } else {
                    &&& v1.edges.len() == v.edges.len()
                    &&& v1.untried == v.untried
                    &&& v1.edges[e].action == v.edges[e].action
                    &&& v1.edges[e].n == v.edges[e].n + 1
                    &&& v1.edges[e].w == A::sum_of(v.edges[e].w, r)
                }
            }
        }),
{
    let v = g.nodes[node];
    assert(vertex_sound(g.nodes, node, k));
    lemma_simulated(g, node, depth, plan, k);
    let (r, h) = simulated(g, node, depth, plan);
    let v1 = h.nodes[node];
    if v.terminal is None && depth > 0 {
        assert(vertex_sound(h.nodes, node, k + 1));
        if v.untried.len() > 0 {
            let edge = v.edges.len() as int;
            let g1 = Grown { nodes: g.nodes.update(node, expanded(v)), rng: g.rng };
            lemma_expanded(g.nodes, node, k);
            lemma_resolved(g1, node, edge, plan, k);
        } else {
            let edge = selected(v, plan.c_uct);
            lemma_favoured(v, v.edges.len() as int, plan.c_uct);
            lemma_resolved(g, node, edge, plan, k);
            let (g1, child, new) = resolved(g, node, edge, plan);
            if !new {
                lemma_simulated(g1, child, depth - 1, plan, k);
            }
        }
    }
}

/// Promising actions are tried first: as long as there are untried ones, the actions that the
/// simulations have taken at the root are the first of the moves in plain order.
pub proof fn law_promising_actions_first<A: RootArith>(
    p: Pos,
    sims: int,
    depth: int,
    seed: u64,
    plan: Plan<A>,
)
    requires
        wf(p),
        covered(p),
        0 <= sims < usize::MAX,
        sims <= all_moves(p).len(),
        depth > 0,
        outcome(p) == RES_ONGOING,
    ensures
        ({
            let root = grown(seedling(p, seed, plan), sims, depth, plan).nodes[0];
            let ordered = plainly_ordered(p, all_moves(p));
            &&& root.edges.len() == sims
            &&& root.untried == ordered.skip(sims)
            &&& forall|j: int| 0 <= j < sims ==> (#[trigger] root.edges[j]).action == ordered[j]
        }),
    decreases sims,
{
    let ordered = plainly_ordered(p, all_moves(p));
    lemma_plain_order_keeps(p, all_moves(p));
    lemma_lengths_agree(ordered, all_moves(p));
    let start = seedling(p, seed, plan);
    if sims == 0 {
        assert(ordered.skip(0) =~= ordered);
    } else {
        law_promising_actions_first(p, sims - 1, depth, seed, plan);
        lemma_grown(p, sims - 1, depth, seed, plan);
        let g = grown(start, sims - 1, depth, plan);
        let v = g.nodes[0];
        let edge = v.edges.len() as int;
        let g1 = Grown { nodes: g.nodes.update(0, expanded(v)), rng: g.rng };
        lemma_expanded(g.nodes, 0, (sims - 1) as nat);
        lemma_resolved(g1, 0, edge, plan, (sims - 1) as nat);
        let (g2, child, new) = resolved(g1, 0, edge, plan);
        let root = grown(start, sims, depth, plan).nodes[0];
        assert(v.untried[0] == ordered[sims - 1]);
        assert(root.untried =~= ordered.skip(sims));
        assert forall|j: int| 0 <= j < sims implies (#[trigger] root.edges[j]).action
            == ordered[j] by {
            if j < sims - 1 {
                assert(v.edges[j].action == ordered[j]);
            }
        }
    }
}

/// Every simulation takes one action at the root: the counts of the actions add up to the number
/// of simulations.
pub proof fn law_simulations_add_up<A: RootArith>(
    p: Pos,
    sims: int,
    depth: int,
    seed: u64,
    plan: Plan<A>,
)
    requires
        wf(p),
        covered(p),
        0 <= sims < usize::MAX,
        depth > 0,
        outcome(p) == RES_ONGOING,
    ensures
        ({
            let root = grown(seedling(p, seed, plan), sims, depth, plan).nodes[0];
            root.n == sims && visits(root.edges, root.edges.len() as int) == sims
        }),
{
    lemma_grown(p, sims, depth, seed, plan);
    assert(vertex_sound(
        grown(seedling(p, seed, plan), sims, depth, plan).nodes,
        0,
        sims as nat,
    ));
}

/// A tree search chooses a legal move wherever the game goes on and it may simulate at all.
pub proof fn law_sampled_move_is_legal<A: RootArith>(
    p: Pos,
    sims: int,
    depth: int,
    seed: u64,
    plan: Plan<A>,
)
    requires
        wf(p),
        covered(p),
        0 < sims < usize::MAX,
        depth > 0,
        outcome(p) == RES_ONGOING,
    ensures
        all_moves(p).contains(sampled_move(p, sims, depth, seed, plan)),
{
    lemma_grown(p, sims, depth, seed, plan);
    let h = grown(seedling(p, seed, plan), sims, depth, plan).nodes;
    let edges = h[0].edges;
    law_robust_is_most_visited(edges, edges.len() as int);
    let i = choose|j: int| 0 <= j < edges.len() && (#[trigger] edges[j]).n > 0;
    assert(edges[i].n <= robust(edges, edges.len() as int).1);
    let j = choose|j: int|
        0 <= j < edges.len() && (#[trigger] edges[j]).n == robust(edges, edges.len() as int).1
            && edges[j].action == robust(edges, edges.len() as int).0;
    assert(vertex_sound(h, 0, sims as nat));
    assert(branch_sound(h, 0, edges[j], sims as nat));
    law_all_moves_are_the_legal_moves(p, edges[j].action);
}

/// The move of a tree search with `sims` simulations. It is fixed by the seed. There is none,
/// `(255, 255)`, where the game has ended or nothing may be simulated.
pub fn mcts_move<S: RootScore>(
    squares: Vec<i16>,
    bag: Vec<u32>,
    first_color: i16,
    ply: u32,
    no_progress: u32,
    sims: u32,
    c_uct: S,
    max_depth: i32,
    leaf_depth: i32,
    seed: u64,
    w_mob: S,
    w_king: S,
    values: Vec<S>,
) -> (r: (u8, u8))
    requires
        ({
            let p = position(squares@, bag@, first_color as int, ply as nat, no_progress as nat);
            &&& wf(p)
            &&& sims > 0 && max_depth > 0 && outcome(p) == RES_ONGOING ==> {
                &&& covered(p)
                &&& sims < usize::MAX
                &&& leaf_depth <= i32::MAX - 2
                &&& ply + positive(max_depth as int) + positive(leaf_depth as int) + QUIESCE_MAX
                    <= u32::MAX
            }
        }),
    ensures
        ({
            let p = position(squares@, bag@, first_color as int, ply as nat, no_progress as nat);
            if sims > 0 && max_depth > 0 && outcome(p) == RES_ONGOING {
                &&& r == sampled_move(
                    p,
                    sims as int,
                    max_depth as int,
                    seed,
                    mcts_plan(p, c_uct, leaf_depth as int, w_mob, w_king, values@),
                )
                &&& all_moves(p).contains(r)
            } else {
                r == no_move()
            }
        }),
{
    let ghost p = position(squares@, bag@, first_color as int, ply as nat, no_progress as nat);
    let ghost plan = mcts_plan(p, c_uct, leaf_depth as int, w_mob, w_king, values@);
    let st = make_state(squares, bag, first_color, ply, no_progress);
    let cfg = Cfg {
        contempt: whole_number(0),
        root: st.mover_color(),
        quiesce: leaf_depth > 0,
        quiesce_max: QUIESCE_MAX,
        w_mob,
        w_king,
        values: to_values(&values),
        feat: Feat::none(),
    };
    assert(cfg@ == plan.params);
    let nodes: Vec<MNode<S>> = Vec::new();
    let mut tree = Tree { nodes, cfg, c_uct, leaf_depth };
    assert(tree@ =~= seq![]);
    let root = tree.new_node(st);
    let mut rng = Rng(seed ^ 0x0123_4567_89AB_CDEF);
    assert(tree@ =~= seedling(p, seed, plan).nodes);
    assert(tree@[0] == vertex(p, plan) && tree@[0].terminal == tree.nodes@[0].terminal);
    if sims == 0 || max_depth <= 0 || tree.nodes[root].terminal.is_some() {
        return (255, 255);
    }
    assert(outcome(p) == RES_ONGOING);
    let ghost depth = max_depth as int;
    let ghost start = seedling(p, seed, plan);
    let mut k: u32 = 0;
    while k < sims
        invariant
            k <= sims < usize::MAX,
            wf(p),
            covered(p),
            outcome(p) == RES_ONGOING,
            depth == max_depth,
            tree.plan() == plan,
            tree.wf(),
            root == 0,
            p.ply + positive(depth) + tree.reach() <= u32::MAX,
            start == seedling(p, seed, plan),
            (Grown { nodes: tree@, rng: rng.0 }) == grown(start, k as int, depth, plan),
        decreases sims - k,
    {
        proof {
            lemma_grown(p, k as int, depth, seed, plan);
        }
        let _ = tree.simulate(root, max_depth, &mut rng);
        k = k + 1;
    }
    proof {
        lemma_grown(p, sims as int, depth, seed, plan);
        law_sampled_move_is_legal(p, sims as int, depth, seed, plan);
    }
    let mut best: (u8, u8) = (255, 255);
    let mut best_n: u32 = 0;
    let edges = &tree.nodes[root].edges;
    let ghost want = tree@[0].edges;
    let mut i: usize = 0;
    while i < edges.len()
        invariant
            i <= edges@.len(),
            want == Seq::new(edges@.len(), |i: int| edges@[i]@),
            (best, best_n as nat) == robust(want, i as int),
        decreases edges@.len() - i,
    {
        let e = &edges[i];
        assert(want[i as int] == e@);
        if e.n > best_n {
            best_n = e.n;
            best = e.action;
        }
        i = i + 1;
    }
    best
}

} // verus!
