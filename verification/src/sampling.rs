//! What tree search by sampling makes of a position: the values of its leaves, of its simulations,
//! the action it prefers, and the move it chooses.
use vstd::prelude::*;

use crate::arith::{faithful, measured, whole, Arith, RootArith};
use crate::board::{after, all_moves, bag_total, mover, outcome, wf, Pos};
use crate::eval::{evaluation, Feat};
use crate::expectimax::lemma_whole;
use crate::mcts::{
    bound_of, covered, drawn, expanded, favoured, grown, kid_of, law_robust_is_most_visited,
    law_simulation_credits_one_branch, lemma_favoured, lemma_grown, log_passed, mcts_plan, resolved,
    robust, sampled_move, seedling, selected, simulated, sound, turned_up, vertex, vertex_sound,
    worth, Grown, Plan, Vertex,
};
use crate::model::{negamax, terminal_value};
use crate::movement::{law_moves_on_squares, law_turns, may_move};
use crate::order::{lemma_plain_order_keeps, lemma_same_moves, plainly_ordered};
use crate::rng::mixed;
use crate::search::{fresh, killer_slots};
use crate::searching::{law_plain_order, plain_rank};

verus! {

// ---------------------------------------------------------------- leaves

/// Without a search of leaves, a leaf is worth its evaluation for the player to move there.
pub proof fn law_leaf_is_evaluated<A: RootArith>(p: Pos, plan: Plan<A>)
    requires
        plan.leaf_depth <= 0,
    ensures
        ({
            let c = plan.params;
            let e = |persp: int| evaluation(p, persp, c.w_mob, c.w_king, c.values, c.feat);
            &&& p.first_color < 0 ==> worth(p, plan) == A::ratio_of(0, 1)
            &&& p.first_color >= 0 && p.ply % 2 == 0 ==> worth(p, plan) == e(p.first_color)
            &&& p.first_color >= 0 && p.ply % 2 == 1 ==> worth(p, plan) == e(1 - p.first_color)
        }),
{
    law_turns(p);
}

/// With one, a leaf is worth what the search gives in the widest window, as long as its nodes can
/// be counted.
pub proof fn law_leaf_is_searched<A: RootArith>(p: Pos, plan: Plan<A>, val: spec_fn(A) -> real)
    requires
        faithful(val),
        plan.leaf_depth > 0,
    ensures
        ({
            let r = negamax(
                p,
                plan.leaf_depth,
                whole(-2),
                whole(2),
                plan.params,
                fresh(killer_slots(plan.leaf_depth), 0),
            );
            &&& r.1.nodes <= 0xffff_ffff_ffff_ffff ==> worth(p, plan) == r.0
            &&& r.1.nodes > 0xffff_ffff_ffff_ffff ==> val(worth(p, plan)) == 0real
        }),
{
    lemma_whole(0, val);
}

/// A position that joins the tree has been passed by no simulation. Where the game has ended there
/// it has a value and no actions; where it goes on, all its moves are untried, the most promising
/// first.
pub proof fn law_new_vertices<A: RootArith>(p: Pos, plan: Plan<A>, x: (u8, u8), i: int, j: int)
    requires
        wf(p),
    ensures
        ({
            let v = vertex(p, plan);
            &&& v.pos == p
            &&& v.n == 0
            &&& v.edges.len() == 0
            &&& outcome(p) != 3 ==> v.terminal == Some(terminal_value(p, outcome(p), plan.params))
                && v.untried.len() == 0
            &&& outcome(p) == 3 ==> v.terminal is None && (v.untried.contains(x) <==> may_move(
                p,
                x,
            ))
            &&& 0 <= i <= j < v.untried.len() ==> plain_rank(p, v.untried[i]) >= plain_rank(
                p,
                v.untried[j],
            )
        }),
{
    lemma_plain_order_keeps(p, all_moves(p));
    lemma_same_moves(plainly_ordered(p, all_moves(p)), all_moves(p), x);
    law_moves_on_squares(p, x);
    if outcome(p) == 3 && 0 <= i <= j < vertex(p, plan).untried.len() {
        law_plain_order(p, all_moves(p), i, j);
    }
}

// ---------------------------------------------------------------- chance

/// What an action turns up: nothing for a move, which draws no number; for a flip the tile whose
/// number is the next output of the generator, within the bag.
pub proof fn law_what_turns_up(p: Pos, action: (u8, u8), rng: u64)
    ensures
        action.0 != action.1 ==> turned_up(p, action, rng) == (0int, rng),
        action.0 == action.1 ==> {
            let next = rng.wrapping_add(0x9E37_79B9_7F4A_7C15);
            &&& turned_up(p, action, rng).1 == next
            &&& turned_up(p, action, rng).0 == drawn(
                p.bag,
                mixed(next) as int % bag_total(p.bag) as int,
                0,
            )
        },
{
}

/// An outcome that a branch has seen leads to the vertex it led to before, and the tree stays as
/// it is; one that it has not seen leads to a new vertex at the end.
pub proof fn law_outcomes_lead_on<A: RootArith>(
    g: Grown<A>,
    node: int,
    edge: int,
    plan: Plan<A>,
    h: int,
)
    requires
        0 <= node < g.nodes.len(),
        0 <= edge < g.nodes[node].edges.len(),
        g.nodes.len() < usize::MAX,
    ensures
        ({
            let v = g.nodes[node];
            let b = v.edges[edge];
            let code = turned_up(v.pos, b.action, g.rng).0;
            let (g1, child, new) = resolved(g, node, edge, plan);
            &&& g1.rng == turned_up(v.pos, b.action, g.rng).1
            &&& 0 <= h < b.kids.len() && b.kids[h].0 == code && (forall|x: int|
                0 <= x < h ==> (#[trigger] b.kids[x]).0 != code) ==> !new && child == b.kids[h].1
                && g1.nodes == g.nodes
            &&& (forall|x: int| 0 <= x < b.kids.len() ==> (#[trigger] b.kids[x]).0 != code) ==> {
                &&& new
                &&& child == g.nodes.len()
                &&& g1.nodes.len() == g.nodes.len() + 1
                &&& g1.nodes[child] == vertex(after(v.pos, b.action, code), plan)
            }
        }),
{
    let v = g.nodes[node];
    let b = v.edges[edge];
    let code = turned_up(v.pos, b.action, g.rng).0;
    if 0 <= h < b.kids.len() && b.kids[h].0 == code && (forall|x: int|
        0 <= x < h ==> (#[trigger] b.kids[x]).0 != code) {
        lemma_kid_found(b.kids, code, 0, h);
    }
    if forall|x: int| 0 <= x < b.kids.len() ==> (#[trigger] b.kids[x]).0 != code {
        lemma_kid_missing(b.kids, code, 0);
    }
}

proof fn lemma_kid_found(kids: Seq<(i16, usize)>, code: int, i: int, h: int)
    requires
        0 <= i <= h < kids.len(),
        kids[h].0 == code,
        forall|x: int| 0 <= x < h ==> (#[trigger] kids[x]).0 != code,
    ensures
        kid_of(kids, code, i) == Some(kids[h].1),
    decreases h - i,
{
    if i < h {
        assert(kids[i].0 != code);
        lemma_kid_found(kids, code, i + 1, h);
    }
}

proof fn lemma_kid_missing(kids: Seq<(i16, usize)>, code: int, i: int)
    requires
        0 <= i <= kids.len(),
        forall|x: int| 0 <= x < kids.len() ==> (#[trigger] kids[x]).0 != code,
    ensures
        kid_of(kids, code, i) is None,
    decreases kids.len() - i,
{
    if i < kids.len() {
        assert(kids[i].0 != code);
        lemma_kid_missing(kids, code, i + 1);
    }
}

// ---------------------------------------------------------------- simulations

/// What a position is worth to the player to move, without simulating further: the result of a
/// finished game, or the worth of a leaf.
pub open spec fn outright<A: RootArith>(q: Pos, plan: Plan<A>) -> A {
    if outcome(q) != 3 {
        terminal_value(q, outcome(q), plan.params)
    } else {
        worth(q, plan)
    }
}

/// The value of a simulation for the player to move where it starts. An ended game is worth its
/// result, and a vertex at the depth limit its worth as a leaf. An untried action is worth what the
/// position it leads to is worth to the opponent, negated. So is the selected action where it leads
/// to something new; where it leads to a known vertex, it is worth what a simulation from there,
/// one ply less deep, is worth to the opponent, negated.
pub proof fn law_value_of_a_simulation<A: RootArith>(
    g: Grown<A>,
    node: int,
    depth: int,
    plan: Plan<A>,
    k: nat,
    val: spec_fn(A) -> real,
)
    requires
        faithful(val),
        sound(g.nodes, k),
        0 <= node < g.nodes.len(),
        g.nodes.len() < usize::MAX,
    ensures
        ({
            let v = g.nodes[node];
            let r = simulated(g, node, depth, plan).0;
            if v.terminal is Some {
                r == v.terminal->0
            } else if depth <= 0 {
                r == worth(v.pos, plan)
            } else if v.untried.len() > 0 {
                let x = v.untried[0];
                let q = after(v.pos, x, turned_up(v.pos, x, g.rng).0);
                val(r) == -val(outright(q, plan))
            } else {
                let e = selected(v, plan.c_uct);
                let (g1, child, new) = resolved(g, node, e, plan);
                if new {
                    val(r) == -val(outright(g1.nodes[child].pos, plan))
                } else {
                    val(r) == -val(simulated(g1, child, depth - 1, plan).0)
                }
            }
        }),
{
    let v = g.nodes[node];
    assert(vertex_sound(g.nodes, node, k));
    if v.terminal is None && depth > 0 {
        if v.untried.len() > 0 {
            let edge = v.edges.len() as int;
            let g1 = Grown { nodes: g.nodes.update(node, expanded(v)), rng: g.rng };
            let b = g1.nodes[node].edges[edge];
            assert(b.kids.len() == 0);
            let code = turned_up(v.pos, b.action, g.rng).0;
            lemma_kid_missing(b.kids, code, 0);
            let (g2, child, new) = resolved(g1, node, edge, plan);
            assert(g2.nodes[child] == vertex(after(v.pos, b.action, code), plan));
        } else {
            let edge = selected(v, plan.c_uct);
            lemma_favoured(v, v.edges.len() as int, plan.c_uct);
        }
    }
}

/// Of two untried moves that are no flips, tried one after the other from the same vertex, the one
/// whose position is worth less to the opponent brings more to its owner.
pub proof fn law_better_moves_bring_more<A: RootArith>(
    g: Grown<A>,
    h: Grown<A>,
    node: int,
    depth: int,
    plan: Plan<A>,
    k: nat,
    val: spec_fn(A) -> real,
)
    requires
        faithful(val),
        sound(g.nodes, k),
        sound(h.nodes, k),
        0 <= node < g.nodes.len(),
        node < h.nodes.len(),
        g.nodes.len() < usize::MAX,
        h.nodes.len() < usize::MAX,
        depth > 0,
        g.nodes[node].terminal is None,
        h.nodes[node].terminal is None,
        g.nodes[node].untried.len() > 0,
        h.nodes[node].untried.len() > 0,
        g.nodes[node].pos == h.nodes[node].pos,
        ({
            let p = g.nodes[node].pos;
            let x = g.nodes[node].untried[0];
            let y = h.nodes[node].untried[0];
            &&& x.0 != x.1
            &&& y.0 != y.1
            &&& val(outright(after(p, x, 0), plan)) < val(outright(after(p, y, 0), plan))
        }),
    ensures
        ({
            let a = simulated(g, node, depth, plan).1.nodes[node].edges.last();
            let b = simulated(h, node, depth, plan).1.nodes[node].edges.last();
            &&& a.action == g.nodes[node].untried[0]
            &&& b.action == h.nodes[node].untried[0]
            &&& a.n == 1
            &&& b.n == 1
            &&& val(a.w) > val(b.w)
        }),
{
    lemma_whole(0, val);
    law_value_of_a_simulation(g, node, depth, plan, k, val);
    law_value_of_a_simulation(h, node, depth, plan, k, val);
    law_simulation_credits_one_branch(g, node, depth, plan, k);
    law_simulation_credits_one_branch(h, node, depth, plan, k);
}

// ---------------------------------------------------------------- selection

/// The bound of a branch: the mean of its values, and the constant times the root of the logarithm
/// of the simulations that passed its vertex, at least one, over those that took it.
pub proof fn law_upper_bounds<A: RootArith>(
    v: Vertex<A>,
    j: int,
    c_uct: A,
    val: spec_fn(A) -> real,
) -> (t: (A, A))
    requires
        faithful(val),
        0 <= j < v.edges.len(),
        0 < v.edges[j].n <= u32::MAX,
        v.n <= u32::MAX,
    ensures
        val(t.0) == if v.n > 1 {
            v.n as real
        } else {
            1real
        },
        val(t.1) == val(A::ln_of(t.0)) / (v.edges[j].n as real),
        val(bound_of(v.edges[j], log_passed(v), c_uct)) == val(v.edges[j].w)
            / (v.edges[j].n as real) + val(c_uct) * val(A::sqrt_of(t.1)),
{
    let n = v.edges[j].n as int;
    let passed = if v.n > 1 {
        v.n as int
    } else {
        1
    };
    lemma_whole(n, val);
    lemma_whole(passed, val);
    (whole(passed), A::quotient_of(log_passed(v), whole(n)))
}

proof fn lemma_favoured_highest<A: RootArith>(
    v: Vertex<A>,
    k: int,
    c_uct: A,
    val: spec_fn(A) -> real,
)
    requires
        measured(val),
        0 <= k <= v.edges.len(),
        forall|j: int|
            0 <= j < v.edges.len() ==> val(A::lowest_of()) < val(
                bound_of(#[trigger] v.edges[j], log_passed(v), c_uct),
            ),
    ensures
        ({
            let (e, s) = favoured(v, k, c_uct);
            &&& k == 0 ==> s == A::lowest_of()
            &&& k > 0 ==> 0 <= e < k && s == bound_of(v.edges[e], log_passed(v), c_uct)
            &&& forall|j: int|
                0 <= j < k ==> val(bound_of(#[trigger] v.edges[j], log_passed(v), c_uct)) <= val(s)
            &&& forall|j: int|
                0 <= j < k && j < e ==> val(bound_of(#[trigger] v.edges[j], log_passed(v), c_uct))
                    < val(s)
        }),
    decreases k,
{
    if k > 0 {
        lemma_favoured_highest(v, k - 1, c_uct, val);
        assert(val(A::lowest_of()) < val(bound_of(v.edges[k - 1], log_passed(v), c_uct)));
    }
}

/// The first of the branches with the highest bound is selected.
pub proof fn law_selection<A: RootArith>(
    v: Vertex<A>,
    j: int,
    c_uct: A,
    val: spec_fn(A) -> real,
)
    requires
        measured(val),
        0 <= j < v.edges.len(),
        forall|i: int|
            0 <= i < v.edges.len() ==> val(A::lowest_of()) < val(
                bound_of(#[trigger] v.edges[i], log_passed(v), c_uct),
            ),
    ensures
        ({
            let e = selected(v, c_uct);
            let bound = |i: int| val(bound_of(v.edges[i], log_passed(v), c_uct));
            &&& 0 <= e < v.edges.len()
            &&& bound(j) <= bound(e)
            &&& j < e ==> bound(j) < bound(e)
        }),
{
    lemma_favoured_highest(v, v.edges.len() as int, c_uct, val);
    let b = v.edges[j];
    assert(val(bound_of(b, log_passed(v), c_uct)) <= val(
        favoured(v, v.edges.len() as int, c_uct).1,
    ));
}

/// Without exploration the branch with the highest mean is selected.
pub proof fn law_selection_by_mean<A: RootArith>(
    v: Vertex<A>,
    j: int,
    c_uct: A,
    val: spec_fn(A) -> real,
)
    requires
        faithful(val),
        val(c_uct) == 0real,
        0 <= j < v.edges.len(),
        v.n <= u32::MAX,
        forall|i: int| 0 <= i < v.edges.len() ==> 0 < (#[trigger] v.edges[i]).n <= u32::MAX,
        forall|i: int|
            0 <= i < v.edges.len() ==> -2real <= val((#[trigger] v.edges[i]).w) / (
            v.edges[i].n as real),
    ensures
        ({
            let e = selected(v, c_uct);
            &&& 0 <= e < v.edges.len()
            &&& val(v.edges[j].w) / (v.edges[j].n as real) <= val(v.edges[e].w) / (
            v.edges[e].n as real)
        }),
{
    assert forall|i: int| 0 <= i < v.edges.len() implies val(
        bound_of(#[trigger] v.edges[i], log_passed(v), c_uct),
    ) == val(v.edges[i].w) / (v.edges[i].n as real) by {
        let t = law_upper_bounds(v, i, c_uct, val);
        let s = val(A::sqrt_of(t.1));
        assert(0real * s == 0real) by (nonlinear_arith);
    }
    law_selection(v, j, c_uct, val);
    let e = selected(v, c_uct);
    assert(val(bound_of(v.edges[e], log_passed(v), c_uct)) == val(v.edges[e].w) / (
    v.edges[e].n as real));
}

/// Exploration prefers what was tried less: of two branches with the same mean, the one with fewer
/// simulations has the higher bound, where the root rises and the logarithm is positive.
pub proof fn law_exploration<A: RootArith>(
    v: Vertex<A>,
    i: int,
    j: int,
    c_uct: A,
    val: spec_fn(A) -> real,
)
    requires
        faithful(val),
        val(c_uct) > 0real,
        0 <= i < v.edges.len(),
        0 <= j < v.edges.len(),
        v.n <= u32::MAX,
        0 < v.edges[i].n < v.edges[j].n <= u32::MAX,
        val(v.edges[i].w) / (v.edges[i].n as real) == val(v.edges[j].w) / (v.edges[j].n as real),
        forall|a: A, b: A|
            val(a) < val(b) ==> val(#[trigger] A::sqrt_of(a)) < val(#[trigger] A::sqrt_of(b)),
        forall|a: A| val(a) == v.n as real ==> val(#[trigger] A::ln_of(a)) > 0real,
        v.n > 1,
    ensures
        val(bound_of(v.edges[j], log_passed(v), c_uct)) < val(
            bound_of(v.edges[i], log_passed(v), c_uct),
        ),
{
    let s = law_upper_bounds(v, i, c_uct, val);
    let t = law_upper_bounds(v, j, c_uct, val);
    let l = val(A::ln_of(s.0));
    let a = v.edges[i].n as real;
    let b = v.edges[j].n as real;
    assert(val(A::ln_of(t.0)) > 0real);
    assert(log_passed(v) == A::ln_of(whole(v.n as int)));
    lemma_whole(v.n as int, val);
    lemma_bound_logs(v, i, j, c_uct, val);
    let x = val(A::sqrt_of(A::quotient_of(log_passed(v), whole(v.edges[i].n as int))));
    let y = val(A::sqrt_of(A::quotient_of(log_passed(v), whole(v.edges[j].n as int))));
    let c = val(c_uct);
    assert(c * y < c * x) by (nonlinear_arith)
        requires
            c > 0real,
            y < x,
    ;
}

proof fn lemma_bound_logs<A: RootArith>(
    v: Vertex<A>,
    i: int,
    j: int,
    c_uct: A,
    val: spec_fn(A) -> real,
)
    requires
        faithful(val),
        0 <= i < v.edges.len(),
        0 <= j < v.edges.len(),
        0 < v.edges[i].n < v.edges[j].n <= u32::MAX,
        val(log_passed(v)) > 0real,
        forall|a: A, b: A|
            val(a) < val(b) ==> val(#[trigger] A::sqrt_of(a)) < val(#[trigger] A::sqrt_of(b)),
    ensures
        val(A::sqrt_of(A::quotient_of(log_passed(v), whole(v.edges[j].n as int)))) < val(
            A::sqrt_of(A::quotient_of(log_passed(v), whole(v.edges[i].n as int))),
        ),
        forall|k: int|
            k == i || k == j ==> val(bound_of(#[trigger] v.edges[k], log_passed(v), c_uct)) == val(
                v.edges[k].w,
            ) / (v.edges[k].n as real) + val(c_uct) * val(
                A::sqrt_of(A::quotient_of(log_passed(v), whole(v.edges[k].n as int))),
            ),
{
    lemma_whole(v.edges[i].n as int, val);
    lemma_whole(v.edges[j].n as int, val);
    let l = val(log_passed(v));
    let a = v.edges[i].n as real;
    let b = v.edges[j].n as real;
    assert(l / b < l / a) by (nonlinear_arith)
        requires
            l > 0real,
            0real < a < b,
    ;
}

// ---------------------------------------------------------------- the move

/// A tree search weighs leaves without contempt or switches, for the player to move at the root,
/// with captures searched eight plies beyond the horizon where leaves are searched at all.
pub proof fn law_tree_search_parameters<A: RootArith>(
    p: Pos,
    c_uct: A,
    leaf_depth: int,
    w_mob: A,
    w_king: A,
    values: Seq<A>,
    role: int,
    val: spec_fn(A) -> real,
)
    requires
        faithful(val),
        0 <= role < 7,
    ensures
        ({
            let t = mcts_plan(p, c_uct, leaf_depth, w_mob, w_king, values);
            &&& t.c_uct == c_uct
            &&& t.leaf_depth == leaf_depth
            &&& val(t.params.contempt) == 0real
            &&& t.params.root == mover(p)
            &&& t.params.quiesce == (leaf_depth > 0)
            &&& t.params.quiesce_max == 8
            &&& t.params.w_mob == w_mob
            &&& t.params.w_king == w_king
            &&& t.params.feat == Feat::of_bits(0)
            &&& values.len() == 7 ==> t.params.values[role] == values[role]
            &&& values.len() != 7 ==> t.params.values[role] == A::ratio_of(
                seq![30i64, 10, 10, 14, 8, 12, 4][role],
                1,
            )
        }),
{
    lemma_whole(0, val);
    crate::eval::law_no_bits_is_plain();
}

/// The tree starts with the position alone, and the generator with the seed, mixed with a constant.
/// Each simulation starts at the root.
pub proof fn law_growth<A: RootArith>(p: Pos, seed: u64, plan: Plan<A>, sims: int, depth: int)
    requires
        sims >= 0,
    ensures
        seedling(p, seed, plan).nodes == seq![vertex(p, plan)],
        seedling(p, seed, plan).rng == seed ^ 0x0123_4567_89AB_CDEF,
        grown(seedling(p, seed, plan), 0, depth, plan) == seedling(p, seed, plan),
        grown(seedling(p, seed, plan), sims + 1, depth, plan) == simulated(
            grown(seedling(p, seed, plan), sims, depth, plan),
            0,
            depth,
            plan,
        ).1,
{
}

/// The chosen move is the action of the root that most simulations took.
pub proof fn law_most_visited_is_chosen<A: RootArith>(
    p: Pos,
    sims: int,
    depth: int,
    seed: u64,
    plan: Plan<A>,
    j: int,
)
    requires
        wf(p),
        covered(p),
        0 < sims < usize::MAX,
        depth > 0,
        outcome(p) == 3,
    ensures
        ({
            let root = grown(seedling(p, seed, plan), sims, depth, plan).nodes[0];
            let x = sampled_move(p, sims, depth, seed, plan);
            &&& may_move(p, x)
            &&& exists|e: int|
                0 <= e < root.edges.len() && (#[trigger] root.edges[e]).action == x && (0 <= j
                    < root.edges.len() ==> root.edges[j].n <= root.edges[e].n)
        }),
{
    crate::mcts::law_sampled_move_is_legal(p, sims, depth, seed, plan);
    law_moves_on_squares(p, sampled_move(p, sims, depth, seed, plan));
    lemma_grown(p, sims, depth, seed, plan);
    let root = grown(seedling(p, seed, plan), sims, depth, plan).nodes[0];
    let n = root.edges.len() as int;
    law_robust_is_most_visited(root.edges, n);
    let i = choose|i: int| 0 <= i < n && (#[trigger] root.edges[i]).n > 0;
    assert(root.edges[i].n <= robust(root.edges, n).1);
    let e = choose|e: int|
        0 <= e < n && (#[trigger] root.edges[e]).n == robust(root.edges, n).1
            && root.edges[e].action == robust(root.edges, n).0;
    assert(root.edges[e].action == sampled_move(p, sims, depth, seed, plan));
    if 0 <= j < n {
        assert(root.edges[j].n <= robust(root.edges, n).1);
    }
}

/// The branch that is tried next starts without simulations, without value and without outcomes,
/// and it has the first action that was not tried; that action is then no longer untried. The
/// other branches stay.
pub proof fn law_new_branches<A: RootArith>(v: Vertex<A>, i: int, val: spec_fn(A) -> real)
    requires
        faithful(val),
        v.untried.len() > 0,
        0 <= i < v.edges.len(),
    ensures
        ({
            let w = expanded(v);
            let b = w.edges.last();
            &&& w.edges.len() == v.edges.len() + 1
            &&& b.action == v.untried[0] && b.n == 0 && val(b.w) == 0real && b.kids.len() == 0
            &&& w.edges[i] == v.edges[i]
            &&& seq![b.action] + w.untried == v.untried
            &&& w.pos == v.pos && w.n == v.n && w.terminal == v.terminal
        }),
{
    lemma_whole(0, val);
    let w = expanded(v);
    assert(seq![w.edges.last().action] + w.untried =~= v.untried);
}

} // verus!
