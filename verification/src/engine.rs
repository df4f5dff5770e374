//! The engine: the best move of a position, its value, and the values of all its moves.
use vstd::prelude::*;

use crate::arith::{whole, Arith, Score};
use crate::board::{
    after, all_moves, make_state, mover, outcome, position, wf, Pos, State, RES_ONGOING,
};
use crate::eval::{to_values, values_or_base, whole_number, Feat};
use crate::model;
use crate::model::{leaf_value, search_order, vmax, vmin, Mem, Params};
use crate::order::{
    lemma_plain_order_keeps, lemma_promote_keeps, lemma_rich_order_keeps, lemma_same_moves, order,
    plainly_ordered, promoted,
};
use crate::root::{
    deepen, deepened, deepening_ran, deepening_result, lemma_root_from_grows, root_best, root_from,
    timed_out, Progress, SearchStats,
};
use crate::search::{
    fresh, killer_slots, leaf, lemma_all_legal, move_value, negamax, positive, terminal_value, Cfg,
    Ctx,
};
use crate::zobrist::{key_of, zkey, zob};

verus! {

/// Plies that a quiescence search adds to the depth.
pub const QUIESCE_MAX: i32 = 8;

/// Entries of the transposition table.
pub const TT_SIZE: usize = 262144;

/// What is asked of the engine.
pub struct Request<A> {
    pub pos: Pos,
    pub node_budget: u64,
    pub contempt: A,
    pub quiesce: bool,
    pub max_depth: int,
    pub w_mob: A,
    pub w_king: A,
    /// Seven values by role, or any other number of them for the built-in ones.
    pub values: Seq<A>,
    /// In milliseconds; zero for no limit.
    pub time_ms: u64,
    pub feat: Feat,
    /// Keys of the positions of the game that a new one would repeat.
    pub rep_history: Seq<u64>,
}

impl<A: Arith> Request<A> {
    pub open spec fn params(self) -> Params<A> {
        Params {
            contempt: self.contempt,
            root: mover(self.pos),
            quiesce: self.quiesce,
            quiesce_max: QUIESCE_MAX as int,
            w_mob: self.w_mob,
            w_king: self.w_king,
            values: values_or_base(self.values),
            feat: self.feat,
        }
    }

    /// The memory at the start: empty, but for the path of positions where repetitions count.
    pub open spec fn memory(self) -> Mem<A> {
        Mem {
            path: if self.feat.rep {
                seq![key_of(self.pos)] + self.rep_history
            } else {
                seq![]
            },
            ..fresh(
                killer_slots(self.max_depth),
                if self.feat.tt {
                    TT_SIZE as nat
                } else {
                    0
                },
            )
        }
    }

    /// Before the first depth the best move is the first in plain order, and its value the
    /// evaluation.
    pub open spec fn start(self) -> Progress<A> {
        Progress {
            best: plainly_ordered(self.pos, all_moves(self.pos))[0],
            value: leaf_value(self.pos, self.params()),
            depth: 0,
            hint: None,
            mem: self.memory(),
            nodes: 0,
            done: false,
        }
    }

    /// Where deepening up to `n` stands.
    pub open spec fn deepened(self, n: int) -> Progress<A> {
        deepened(self.pos, n, self.node_budget, self.params(), self.start())
    }

    /// Deepening up to `n` is within the budget, and the next depth takes at least 1024 nodes, so
    /// that the time can run out in it.
    pub open spec fn slow_after(self, n: int) -> bool {
        let g = self.deepened(n);
        !g.done && root_best(self.pos, n + 1, self.params(), g.mem, g.hint).1.nodes >= 1024
    }

    /// The position is well formed, and the counters have room for the search.
    pub open spec fn fits(self) -> bool {
        &&& wf(self.pos)
        &&& self.max_depth <= i32::MAX - 2
        &&& self.pos.ply + positive(self.max_depth) + QUIESCE_MAX <= u32::MAX
        &&& self.pos.no_progress < u32::MAX
    }
}

/// The move that stands for none.
pub open spec fn no_move() -> (u8, u8) {
    (255u8, 255u8)
}

/// What the engine answers: no move if there is none; else a legal move, the result of deepening
/// as far as the budget and the time allow.
pub open spec fn answers<A: Arith>(r: ((u8, u8), A, SearchStats), q: Request<A>) -> bool {
    if all_moves(q.pos).len() == 0 {
        r.0 == no_move() && r.1 == whole::<A>(0) && r.2.nodes == 0 && r.2.depth == 0
    } else {
        &&& all_moves(q.pos).contains(r.0)
        &&& deepening_ran(
            r,
            q.pos,
            q.max_depth,
            q.node_budget,
            q.time_ms,
            q.params(),
            q.start(),
        )
    }
}

proof fn lemma_root_from_legal<A: Arith>(
    p: Pos,
    mv: Seq<(u8, u8)>,
    i: int,
    depth: int,
    alpha: A,
    best_val: A,
    best: Option<((u8, u8), A)>,
    c: Params<A>,
    m: Mem<A>,
)
    requires
        0 <= i <= mv.len(),
        best matches Some(b) ==> mv.contains(b.0),
    ensures
        root_from(p, mv, i, depth, alpha, best_val, best, c, m).0 matches Some(b) ==> mv.contains(
            b.0,
        ),
    decreases mv.len() - i,
{
    if i < mv.len() {
        let x = mv[i];
        assert(mv.contains(x));
        let (w, m1) = model::move_value(p, x, depth, alpha, vmax(), c, m);
        let v = crate::root::guarded(p, x, w, c);
        let alpha1 = if A::is_less(alpha, v) {
            v
        } else {
            alpha
        };
        lemma_root_from_legal(p, mv, i + 1, depth, alpha1, v, Some((x, v)), c, m1);
        lemma_root_from_legal(p, mv, i + 1, depth, alpha, best_val, best, c, m1);
    }
}

pub proof fn lemma_search_order_keeps<A: Arith>(
    p: Pos,
    mv: Seq<(u8, u8)>,
    depth: int,
    c: Params<A>,
    m: Mem<A>,
)
    ensures
        search_order(p, mv, depth, c, m).to_multiset() == mv.to_multiset(),
{
    lemma_plain_order_keeps(p, mv);
    lemma_rich_order_keeps(p, mv, depth, m.killers, m.history);
}

/// The best move that the root search of a depth finds is a legal one.
pub proof fn law_root_move_is_legal<A: Arith>(
    p: Pos,
    depth: int,
    c: Params<A>,
    m: Mem<A>,
    hint: Option<(u8, u8)>,
)
    ensures
        root_best(p, depth, c, m, hint).0 matches Some(b) ==> all_moves(p).contains(b.0),
{
    let o = search_order(p, all_moves(p), depth, c, m);
    let mv = promoted(o, hint);
    lemma_search_order_keeps(p, all_moves(p), depth, c, m);
    lemma_promote_keeps(o, hint);
    lemma_root_from_legal(p, mv, 0, depth, vmin(), A::lowest_of(), None, c, m);
    if let Some(b) = root_best(p, depth, c, m, hint).0 {
        lemma_same_moves(mv, all_moves(p), b.0);
    }
}

/// At every depth the best move is a legal one.
pub proof fn law_best_move_is_legal<A: Arith>(q: Request<A>, n: int)
    requires
        all_moves(q.pos).len() > 0,
    ensures
        all_moves(q.pos).contains(q.deepened(n).best),
    decreases n,
{
    let p = q.pos;
    if n <= 0 {
        let mv = plainly_ordered(p, all_moves(p));
        lemma_plain_order_keeps(p, all_moves(p));
        assert(mv.contains(mv[0]));
        lemma_same_moves(mv, all_moves(p), mv[0]);
    } else {
        law_best_move_is_legal(q, n - 1);
        let g = q.deepened(n - 1);
        law_root_move_is_legal(p, n, q.params(), g.mem, g.hint);
    }
}

/// The best move of a state.
fn best_of<S: Score>(
    st: &State,
    node_budget: u64,
    contempt: S,
    quiesce_on: bool,
    max_depth: i32,
    w_mob: S,
    w_king: S,
    values: &Vec<S>,
    time_ms: u64,
    feat: Feat,
    rep_history: &Vec<u64>,
) -> (r: ((u8, u8), S, SearchStats))
    requires
        (Request {
            pos: st@,
            node_budget,
            contempt,
            quiesce: quiesce_on,
            max_depth: max_depth as int,
            w_mob,
            w_king,
            values: values@,
            time_ms,
            feat,
            rep_history: rep_history@,
        }).fits(),
    ensures
        answers(
            r,
            (Request {
                pos: st@,
                node_budget,
                contempt,
                quiesce: quiesce_on,
                max_depth: max_depth as int,
                w_mob,
                w_king,
                values: values@,
                time_ms,
                feat,
                rep_history: rep_history@,
            }),
        ),
{
    let ghost q = Request {
        pos: st@,
        node_budget,
        contempt,
        quiesce: quiesce_on,
        max_depth: max_depth as int,
        w_mob,
        w_king,
        values: values@,
        time_ms,
        feat,
        rep_history: rep_history@,
    };
    let mut moves: Vec<(u8, u8)> = Vec::new();
    st.legal_moves(&mut moves);
    if moves.len() == 0 {
        return ((255, 255), whole_number(0), SearchStats { nodes: 0, depth: 0 });
    }
    proof {
        lemma_all_legal(st@, moves@);
        lemma_plain_order_keeps(st@, moves@);
    }
    let mv = order(st, &moves);
    let cfg = Cfg {
        contempt,
        root: st.mover_color(),
        quiesce: quiesce_on,
        quiesce_max: QUIESCE_MAX,
        w_mob,
        w_king,
        values: to_values(values),
        feat,
    };
    assert(cfg@ == q.params());
    let mut ctx: Ctx<S> = Ctx::new(
        node_budget,
        time_ms,
        max_depth,
        if feat.tt {
            TT_SIZE
        } else {
            0
        },
    );
    if feat.rep {
        let key = zkey(&ctx.zobrist, st);
        ctx.path.push(key);
        let ghost base = ctx@;
        let mut i: usize = 0;
        while i < rep_history.len()
            invariant
                i <= rep_history@.len(),
                ctx@ == (Mem { path: base.path + rep_history@.take(i as int), ..base }),
                ctx.zobrist.wf(),
                ctx.budget == node_budget,
                ctx.time_limit_ms == time_ms,
                ctx.start is Some <==> time_ms > 0,
            decreases rep_history@.len() - i,
        {
            ctx.path.push(rep_history[i]);
            assert(rep_history@.take(i + 1) =~= rep_history@.take(i as int).push(
                rep_history@[i as int],
            ));
            i = i + 1;
        }
        assert(rep_history@.take(rep_history@.len() as int) =~= rep_history@);
        assert(ctx.path@ =~= seq![key] + rep_history@);
    }
    assert(ctx@ =~= q.memory());
    let value = leaf(st, &cfg);
    let r = deepen(st, max_depth, &cfg, &mut ctx, mv[0], value);
    proof {
        law_best_move_is_legal(q, q.max_depth);
        if !deepening_result(r, q.deepened(q.max_depth)) {
            let n = choose|n: int|
                0 <= n < q.max_depth && #[trigger] timed_out(
                    r,
                    q.pos,
                    n,
                    q.node_budget,
                    q.params(),
                    q.start(),
                );
            law_best_move_is_legal(q, n);
        }
    }
    r
}

/// The best move, its value for the player to move, and what the search consumed.
pub fn best_move_scored_stats<S: Score>(
    squares: Vec<i16>,
    bag: Vec<u32>,
    first_color: i16,
    ply: u32,
    no_progress: u32,
    node_budget: u64,
    contempt: S,
    quiesce_on: bool,
    max_depth: i32,
    w_mob: S,
    w_king: S,
    values: Vec<S>,
    time_ms: u64,
    features: u32,
    rep_history: Vec<u64>,
) -> (r: ((u8, u8), S, SearchStats))
    requires
        (Request {
            pos: position(squares@, bag@, first_color as int, ply as nat, no_progress as nat),
            node_budget,
            contempt,
            quiesce: quiesce_on,
            max_depth: max_depth as int,
            w_mob,
            w_king,
            values: values@,
            time_ms,
            feat: Feat::of_bits(features),
            rep_history: rep_history@,
        }).fits(),
    ensures
        answers(
            r,
            (Request {
                pos: position(squares@, bag@, first_color as int, ply as nat, no_progress as nat),
                node_budget,
                contempt,
                quiesce: quiesce_on,
                max_depth: max_depth as int,
                w_mob,
                w_king,
                values: values@,
                time_ms,
                feat: Feat::of_bits(features),
                rep_history: rep_history@,
            }),
        ),
{
    let st = make_state(squares, bag, first_color, ply, no_progress);
    best_of(
        &st,
        node_budget,
        contempt,
        quiesce_on,
        max_depth,
        w_mob,
        w_king,
        &values,
        time_ms,
        Feat::from_bits(features),
        &rep_history,
    )
}

/// A larger budget is spent: it visits no fewer nodes and finishes no fewer depths; and where the
/// smaller one suffices, the larger gives the same.
pub proof fn law_larger_budget<A: Arith>(q: Request<A>, larger: Request<A>, n: int)
    requires
        larger == (Request { node_budget: larger.node_budget, ..q }),
        q.node_budget <= larger.node_budget,
    ensures
        q.deepened(n).nodes <= larger.deepened(n).nodes,
        q.deepened(n).depth <= larger.deepened(n).depth,
        !q.deepened(n).done ==> q.deepened(n) == larger.deepened(n),
        q.deepened(n).depth == larger.deepened(n).depth ==> q.deepened(n).best == larger.deepened(
            n,
        ).best && q.deepened(n).value == larger.deepened(n).value,
        0 <= q.deepened(n).depth <= positive(n),
        larger.deepened(n).depth <= positive(n),
        !larger.deepened(n).done ==> larger.deepened(n).depth == positive(n),
    decreases n,
{
    if n > 0 {
        law_larger_budget(q, larger, n - 1);
        let g = q.deepened(n - 1);
        let h = larger.deepened(n - 1);
        if !h.done {
            lemma_root_from_grows(
                q.pos,
                promoted(search_order(q.pos, all_moves(q.pos), n, q.params(), h.mem), h.hint),
                0,
                n,
                vmin(),
                A::lowest_of(),
                None,
                q.params(),
                h.mem,
            );
        }
    }
}

/// What the engine answers, without the value and the consumption.
pub open spec fn answers_move<A: Arith>(r: (u8, u8), q: Request<A>) -> bool {
    if all_moves(q.pos).len() == 0 {
        r == no_move()
    } else {
        &&& all_moves(q.pos).contains(r)
        &&& {
            ||| r == q.deepened(q.max_depth).best
            ||| q.time_ms > 0 && exists|n: int|
                0 <= n < q.max_depth && #[trigger] q.slow_after(n) && r == q.deepened(n).best
        }
    }
}

proof fn lemma_answers_move<A: Arith>(r: ((u8, u8), A, SearchStats), q: Request<A>)
    requires
        answers(r, q),
    ensures
        answers_move(r.0, q),
{
    if all_moves(q.pos).len() > 0 && !deepening_result(r, q.deepened(q.max_depth)) {
        let n = choose|n: int|
            0 <= n < q.max_depth && #[trigger] timed_out(
                r,
                q.pos,
                n,
                q.node_budget,
                q.params(),
                q.start(),
            );
        assert(q.slow_after(n));
    }
}

/// The best move by iterative deepening under a node budget; `(255, 255)` if there is none.
pub fn best_move<S: Score>(
    squares: Vec<i16>,
    bag: Vec<u32>,
    first_color: i16,
    ply: u32,
    no_progress: u32,
    node_budget: u64,
    contempt: S,
    quiesce_on: bool,
    max_depth: i32,
    w_mob: S,
    w_king: S,
    values: Vec<S>,
    time_ms: u64,
    features: u32,
    rep_history: Vec<u64>,
) -> (r: (u8, u8))
    requires
        (Request {
            pos: position(squares@, bag@, first_color as int, ply as nat, no_progress as nat),
            node_budget,
            contempt,
            quiesce: quiesce_on,
            max_depth: max_depth as int,
            w_mob,
            w_king,
            values: values@,
            time_ms,
            feat: Feat::of_bits(features),
            rep_history: rep_history@,
        }).fits(),
    ensures
        answers_move(r, (Request {
            pos: position(squares@, bag@, first_color as int, ply as nat, no_progress as nat),
            node_budget,
            contempt,
            quiesce: quiesce_on,
            max_depth: max_depth as int,
            w_mob,
            w_king,
            values: values@,
            time_ms,
            feat: Feat::of_bits(features),
            rep_history: rep_history@,
        })),
{
    let ghost q = (Request {
            pos: position(squares@, bag@, first_color as int, ply as nat, no_progress as nat),
            node_budget,
            contempt,
            quiesce: quiesce_on,
            max_depth: max_depth as int,
            w_mob,
            w_king,
            values: values@,
            time_ms,
            feat: Feat::of_bits(features),
            rep_history: rep_history@,
        });
    let r = best_move_scored_stats(
        squares,
        bag,
        first_color,
        ply,
        no_progress,
        node_budget,
        contempt,
        quiesce_on,
        max_depth,
        w_mob,
        w_king,
        values,
        time_ms,
        features,
        rep_history,
    );
    proof {
        lemma_answers_move(r, q);
    }
    r.0
}

/// Without a time limit a request has one answer.
pub proof fn law_answer_is_unique<A: Arith>(a: (u8, u8), b: (u8, u8), q: Request<A>)
    requires
        q.time_ms == 0,
        answers_move(a, q),
        answers_move(b, q),
    ensures
        a == b,
{
}

// ---------------------------------------------------------------- repetition windows

/// The position after the first `n` moves of a window.
pub open spec fn replayed(p: Pos, moves: Seq<(u8, u8)>, n: int) -> Pos
    decreases n,
{
    if n <= 0 {
        p
    } else {
        after(replayed(p, moves, n - 1), moves[n - 1], -1)
    }
}

/// The keys of the positions before each of the first `n` moves of a window.
pub open spec fn window_keys(p: Pos, moves: Seq<(u8, u8)>, n: int) -> Seq<u64> {
    Seq::new(n as nat, |i: int| key_of(replayed(p, moves, i)))
}

/// A window holds no flips, and its moves stay on the board.
pub open spec fn is_window(moves: Seq<(u8, u8)>) -> bool {
    forall|i: int|
        0 <= i < moves.len() ==> (#[trigger] moves[i]).0 != moves[i].1 && moves[i].0 < 32
            && moves[i].1 < 32
}

/// The request for the position at the end of a window, with the keys of the window.
pub open spec fn window_request<A>(
    p: Pos,
    moves: Seq<(u8, u8)>,
    node_budget: u64,
    contempt: A,
    quiesce: bool,
    max_depth: int,
    w_mob: A,
    w_king: A,
    values: Seq<A>,
    time_ms: u64,
    feat: Feat,
) -> Request<A> {
    Request {
        pos: replayed(p, moves, moves.len() as int),
        node_budget,
        contempt,
        quiesce,
        max_depth,
        w_mob,
        w_king,
        values,
        time_ms,
        feat,
        rep_history: window_keys(p, moves, moves.len() as int),
    }
}

/// An empty window asks for the same as the position alone.
pub proof fn law_empty_window<A: Arith>(
    p: Pos,
    node_budget: u64,
    contempt: A,
    quiesce: bool,
    max_depth: int,
    w_mob: A,
    w_king: A,
    values: Seq<A>,
    time_ms: u64,
    feat: Feat,
)
    ensures
        window_request(
            p,
            seq![],
            node_budget,
            contempt,
            quiesce,
            max_depth,
            w_mob,
            w_king,
            values,
            time_ms,
            feat,
        ) == (Request {
            pos: p,
            node_budget,
            contempt,
            quiesce,
            max_depth,
            w_mob,
            w_king,
            values,
            time_ms,
            feat,
            rep_history: seq![],
        }),
{
    let none: Seq<(u8, u8)> = seq![];
    assert(window_keys(p, none, 0) =~= seq![]);
}

/// Replaying a window keeps a position well formed and counts its plies.
pub proof fn lemma_replayed(p: Pos, moves: Seq<(u8, u8)>, n: int)
    requires
        wf(p),
        is_window(moves),
        0 <= n <= moves.len(),
    ensures
        wf(replayed(p, moves, n)),
        replayed(p, moves, n).ply == p.ply + n,
        replayed(p, moves, n).no_progress <= p.no_progress + n,
        replayed(p, moves, n).bag == p.bag,
        replayed(p, moves, n).first_color == p.first_color,
    decreases n,
{
    if n > 0 {
        lemma_replayed(p, moves, n - 1);
        let before = replayed(p, moves, n - 1);
        let q = replayed(p, moves, n);
        assert(moves[n - 1].0 != moves[n - 1].1);
        assert forall|i: int| 0 <= i < 32 implies -2 <= #[trigger] q.sq[i] < 14 by {
            assert(-2 <= before.sq[i] < 14);
            assert(-2 <= before.sq[moves[n - 1].0 as int] < 14);
        }
    }
}

/// A window of moves asks for the same as the position at its end, with the keys of the positions
/// before: what `best_move` is asked with these fields and this history is what
/// `best_move_with_moves` is asked with the window.
pub proof fn law_window_asks_for_its_end<A: Arith>(
    p: Pos,
    moves: Seq<(u8, u8)>,
    node_budget: u64,
    contempt: A,
    quiesce: bool,
    max_depth: int,
    w_mob: A,
    w_king: A,
    values: Seq<A>,
    time_ms: u64,
    feat: Feat,
)
    requires
        wf(p),
        p.ply == 0,
        is_window(moves),
    ensures
        ({
            let n = moves.len() as int;
            let end = replayed(p, moves, n);
            &&& end.ply == n
            &&& end.bag == p.bag
            &&& end.first_color == p.first_color
            &&& window_request(
                p,
                moves,
                node_budget,
                contempt,
                quiesce,
                max_depth,
                w_mob,
                w_king,
                values,
                time_ms,
                feat,
            ) == (Request {
                pos: position(end.sq, end.bag, end.first_color, moves.len(), end.no_progress),
                node_budget,
                contempt,
                quiesce,
                max_depth,
                w_mob,
                w_king,
                values,
                time_ms,
                feat,
                rep_history: window_keys(p, moves, n),
            })
        }),
{
    let n = moves.len() as int;
    lemma_replayed(p, moves, n);
    let end = replayed(p, moves, n);
    assert(position(end.sq, end.bag, end.first_color, moves.len(), end.no_progress) =~= end);
}

/// The best move at the end of a window of moves without flips, with its value and what the
/// search consumed. The positions of the window count as seen.
pub fn best_move_with_moves_scored_stats<S: Score>(
    squares: Vec<i16>,
    bag: Vec<u32>,
    first_color: i16,
    no_progress: u32,
    window_moves: Vec<(u8, u8)>,
    node_budget: u64,
    contempt: S,
    quiesce_on: bool,
    max_depth: i32,
    w_mob: S,
    w_king: S,
    values: Vec<S>,
    time_ms: u64,
    features: u32,
) -> (r: ((u8, u8), S, SearchStats))
    requires
        wf(position(squares@, bag@, first_color as int, 0, no_progress as nat)),
        is_window(window_moves@),
        max_depth <= i32::MAX - 2,
        window_moves@.len() + positive(max_depth as int) + QUIESCE_MAX <= u32::MAX,
        no_progress + window_moves@.len() < u32::MAX,
    ensures
        answers(r, window_request(
            position(squares@, bag@, first_color as int, 0, no_progress as nat),
            window_moves@,
            node_budget,
            contempt,
            quiesce_on,
            max_depth as int,
            w_mob,
            w_king,
            values@,
            time_ms,
            Feat::of_bits(features),
        )),
{
    let ghost p = position(squares@, bag@, first_color as int, 0, no_progress as nat);
    let mut st = make_state(squares, bag, first_color, 0, no_progress);
    let mut rep_history: Vec<u64> = Vec::with_capacity(window_moves.len());
    let z = zob();
    let mut i: usize = 0;
    while i < window_moves.len()
        invariant
            i <= window_moves@.len(),
            wf(p),
            p.ply == 0,
            p.no_progress == no_progress,
            z.wf(),
            is_window(window_moves@),
            window_moves@.len() <= u32::MAX,
            no_progress + window_moves@.len() < u32::MAX,
            st@ == replayed(p, window_moves@, i as int),
            rep_history@ == window_keys(p, window_moves@, i as int),
        decreases window_moves@.len() - i,
    {
        proof {
            lemma_replayed(p, window_moves@, i as int);
        }
        rep_history.push(zkey(&z, &st));
        let (frm, to) = window_moves[i];
        assert(window_moves@[i as int].0 != window_moves@[i as int].1);
        st.push(frm, to, -1);
        i = i + 1;
        assert(rep_history@ =~= window_keys(p, window_moves@, i as int));
    }
    proof {
        lemma_replayed(p, window_moves@, window_moves@.len() as int);
    }
    best_of(
        &st,
        node_budget,
        contempt,
        quiesce_on,
        max_depth,
        w_mob,
        w_king,
        &values,
        time_ms,
        Feat::from_bits(features),
        &rep_history,
    )
}

/// The best move at the end of a window of moves without flips.
pub fn best_move_with_moves<S: Score>(
    squares: Vec<i16>,
    bag: Vec<u32>,
    first_color: i16,
    no_progress: u32,
    window_moves: Vec<(u8, u8)>,
    node_budget: u64,
    contempt: S,
    quiesce_on: bool,
    max_depth: i32,
    w_mob: S,
    w_king: S,
    values: Vec<S>,
    time_ms: u64,
    features: u32,
) -> (r: (u8, u8))
    requires
        wf(position(squares@, bag@, first_color as int, 0, no_progress as nat)),
        is_window(window_moves@),
        max_depth <= i32::MAX - 2,
        window_moves@.len() + positive(max_depth as int) + QUIESCE_MAX <= u32::MAX,
        no_progress + window_moves@.len() < u32::MAX,
    ensures
        answers_move(r, window_request(
            position(squares@, bag@, first_color as int, 0, no_progress as nat),
            window_moves@,
            node_budget,
            contempt,
            quiesce_on,
            max_depth as int,
            w_mob,
            w_king,
            values@,
            time_ms,
            Feat::of_bits(features),
        )),
{
    let ghost q = window_request(
            position(squares@, bag@, first_color as int, 0, no_progress as nat),
            window_moves@,
            node_budget,
            contempt,
            quiesce_on,
            max_depth as int,
            w_mob,
            w_king,
            values@,
            time_ms,
            Feat::of_bits(features),
        );
    let r = best_move_with_moves_scored_stats(
        squares,
        bag,
        first_color,
        no_progress,
        window_moves,
        node_budget,
        contempt,
        quiesce_on,
        max_depth,
        w_mob,
        w_king,
        values,
        time_ms,
        features,
    );
    proof {
        lemma_answers_move(r, q);
    }
    r.0
}

// ---------------------------------------------------------------- values of positions

/// The request of a plain search: no contempt, no switches, no time limit.
pub open spec fn plain_request<A: Arith>(
    p: Pos,
    node_budget: u64,
    quiesce: bool,
    max_depth: int,
    w_mob: A,
    w_king: A,
    values: Seq<A>,
) -> Request<A> {
    Request {
        pos: p,
        node_budget,
        contempt: whole(0),
        quiesce,
        max_depth,
        w_mob,
        w_king,
        values,
        time_ms: 0,
        feat: Feat::plain(),
        rep_history: seq![],
    }
}

/// The value that a search gives a position, for the player to move: that of the end of the
/// game, or of the deepest search that the budget allows, or the evaluation if it allows none.
pub open spec fn value_by_search<A: Arith>(q: Request<A>) -> A {
    if outcome(q.pos) != RES_ONGOING {
        model::terminal_value(q.pos, outcome(q.pos), q.params())
    } else {
        q.deepened(q.max_depth).value
    }
}

/// The value of a position by iterative deepening under a node budget.
pub fn search_value<S: Score>(
    squares: Vec<i16>,
    bag: Vec<u32>,
    first_color: i16,
    ply: u32,
    no_progress: u32,
    node_budget: u64,
    quiesce_on: bool,
    max_depth: i32,
    w_mob: S,
    w_king: S,
    values: Vec<S>,
) -> (r: S)
    requires
        plain_request(
            position(squares@, bag@, first_color as int, ply as nat, no_progress as nat),
            node_budget,
            quiesce_on,
            max_depth as int,
            w_mob,
            w_king,
            values@,
        ).fits(),
    ensures
        r == value_by_search(
            plain_request(
                position(squares@, bag@, first_color as int, ply as nat, no_progress as nat),
                node_budget,
                quiesce_on,
                max_depth as int,
                w_mob,
                w_king,
                values@,
            ),
        ),
{
    let st = make_state(squares, bag, first_color, ply, no_progress);
    let ghost q = plain_request(
        st@,
        node_budget,
        quiesce_on,
        max_depth as int,
        w_mob,
        w_king,
        values@,
    );
    let cfg = Cfg {
        contempt: whole_number(0),
        root: st.mover_color(),
        quiesce: quiesce_on,
        quiesce_max: QUIESCE_MAX,
        w_mob,
        w_king,
        values: to_values(&values),
        feat: Feat::none(),
    };
    assert(cfg@ == q.params());
    let mut moves: Vec<(u8, u8)> = Vec::new();
    let res = st.result(&mut moves);
    if res != RES_ONGOING {
        return terminal_value(&st, res, &cfg);
    }
    let empty: Vec<u64> = Vec::new();
    let (_, value, _) = best_of(
        &st,
        node_budget,
        cfg.contempt,
        quiesce_on,
        max_depth,
        w_mob,
        w_king,
        &values,
        0,
        Feat::none(),
        &empty,
    );
    value
}

/// The parameters of a search without quiescence, contempt or switches.
pub open spec fn bare_params<A: Arith>() -> Params<A> {
    Params {
        contempt: whole(0),
        root: -1,
        quiesce: false,
        quiesce_max: QUIESCE_MAX as int,
        w_mob: A::ratio_of(8, 10),
        w_king: whole(0),
        values: values_or_base(seq![]),
        feat: Feat::plain(),
    }
}

/// The bare search of a position in the widest window.
pub open spec fn bare_search<A: Arith>(p: Pos, depth: int) -> (A, Mem<A>) {
    model::negamax(
        p,
        depth,
        whole(-2),
        whole(2),
        bare_params(),
        fresh(killer_slots(depth), 0),
    )
}

/// The value of a position by a bare search in the widest window, or zero if that visits more
/// nodes than can be counted.
pub fn negamax_value<S: Score>(
    squares: Vec<i16>,
    bag: Vec<u32>,
    first_color: i16,
    ply: u32,
    no_progress: u32,
    depth: i32,
) -> (r: S)
    requires
        wf(position(squares@, bag@, first_color as int, ply as nat, no_progress as nat)),
        ply + positive(depth as int) + QUIESCE_MAX <= u32::MAX,
        depth <= i32::MAX - 2,
    ensures
        ({
            let want = bare_search::<S>(
                position(squares@, bag@, first_color as int, ply as nat, no_progress as nat),
                depth as int,
            );
            r == if want.1.nodes <= u64::MAX {
                want.0
            } else {
                whole(0)
            }
        }),
{
    let st = make_state(squares, bag, first_color, ply, no_progress);
    let none: Vec<S> = Vec::new();
    let cfg = Cfg {
        contempt: whole_number(0),
        root: -1,
        quiesce: false,
        quiesce_max: QUIESCE_MAX,
        w_mob: S::ratio(8, 10),
        w_king: whole_number(0),
        values: to_values(&none),
        feat: Feat::none(),
    };
    assert(none@ =~= seq![]);
    assert(cfg@ == bare_params::<S>());
    let mut ctx: Ctx<S> = Ctx::new(u64::MAX, 0, depth, 0);
    match negamax(&st, depth, whole_number(-2), whole_number(2), &cfg, &mut ctx) {
        Ok(v) => v,
        Err(_) => whole_number(0),
    }
}

} // verus!
