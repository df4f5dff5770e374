//! Alpha-beta search that stops at a node budget or a time limit.
use std::time::{Duration, Instant};
use vstd::prelude::*;

use crate::arith::{whole, Arith, Score};
use crate::board::{
    after, all_moves, bag_total, code_role, is_piece, tiles, wf, Pos, State, RES_DRAW, RES_ONGOING,
    RES_RED,
};
use crate::eval::{base_value_of, whole_number, Feat};
use crate::model::{
    best_captures, captures_of, chance, chance_left, cutoff_recorded, law_search_keeps, leaf_value,
    lemma_flip_from_keeps, lemma_node_from_keeps, lemma_quiesce_from_keeps, node_key, search_order,
    star1_bound, ticked, tt_move, tt_stored, tt_value, vmax, vmin, Mem, Params, TtEntry,
};
use crate::model;
use crate::order::{
    lemma_plain_order_keeps, lemma_promote_keeps, lemma_rich_order_keeps, lemma_same_moves,
    moves_have_pieces, moves_on_board, order, order_rich, promote, sort_keyed, sorted,
};
use crate::rules::{
    law_all_moves_are_the_legal_moves, law_moves_and_flips, law_play_keeps_form, legal,
};
use crate::zobrist::{zkey, zob, Zobrist};

verus! {

/// `std::time::Instant`, a reading of the machine's clock. Nothing is known of its value.
#[verifier::external_type_specification]
#[verifier::external_body]
pub struct ExInstant(Instant);

/// `Instant::now` reads the clock. Nothing is claimed of the reading. It is called only for a
/// search with a time limit, so that one without also runs where the platform has no clock.
pub assume_specification[ Instant::now ]() -> Instant
;

/// `Instant::elapsed` measures the time since a reading. Nothing is claimed of the result.
pub assume_specification[ Instant::elapsed ](start: &Instant) -> Duration
;

/// `Duration::as_millis` gives a duration in whole milliseconds. Nothing is claimed of the
/// result: it rests on the clock.
pub assume_specification[ Duration::as_millis ](d: &Duration) -> u128
;

/// The parameters of a search.
pub struct Cfg<S> {
    pub contempt: S,
    pub root: i16,
    pub quiesce: bool,
    pub quiesce_max: i32,
    pub w_mob: S,
    pub w_king: S,
    pub values: [S; 7],
    pub feat: Feat,
}

impl<S> View for Cfg<S> {
    type V = Params<S>;

    open spec fn view(&self) -> Params<S> {
        Params {
            contempt: self.contempt,
            root: self.root as int,
            quiesce: self.quiesce,
            quiesce_max: self.quiesce_max as int,
            w_mob: self.w_mob,
            w_king: self.w_king,
            values: self.values@,
            feat: self.feat,
        }
    }
}

/// The memory and the limits of a search.
pub struct Ctx<S> {
    pub nodes: u64,
    pub budget: u64,
    /// When the search began; read from the clock only where there is a time limit.
    pub start: Option<Instant>,
    /// Zero for no time limit.
    pub time_limit_ms: u64,
    pub killers: Vec<((u8, u8), (u8, u8))>,
    pub history: Vec<i32>,
    pub tt: Vec<TtEntry<S>>,
    pub path: Vec<u64>,
    pub zobrist: Zobrist,
}

impl<S> View for Ctx<S> {
    type V = Mem<S>;

    open spec fn view(&self) -> Mem<S> {
        Mem {
            nodes: self.nodes as nat,
            killers: self.killers@,
            history: self.history@,
            tt: self.tt@,
            path: self.path@,
        }
    }
}

/// The node count at which a search with this budget stops.
pub open spec fn stop_count(budget: u64) -> int {
    if budget < u64::MAX {
        budget + 1
    } else {
        u64::MAX as int
    }
}

/// The memory of a search that has visited no node: no killer moves, no history, an empty
/// table of `size` entries, an empty path.
pub open spec fn fresh<A: Arith>(depths: nat, size: nat) -> Mem<A> {
    Mem {
        nodes: 0,
        killers: Seq::new(depths, |i: int| ((255u8, 255u8), (255u8, 255u8))),
        history: Seq::new(1024, |i: int| 0i32),
        tt: Seq::new(
            size,
            |i: int|
                TtEntry { key: 0, value: whole::<A>(0), depth: 0, flag: 0, best: (255u8, 255u8) },
        ),
        path: seq![],
    }
}

/// Killer slots for searches up to `max_depth`.
pub open spec fn killer_slots(max_depth: int) -> nat {
    if max_depth > 1 {
        (max_depth + 2) as nat
    } else {
        3
    }
}

impl<S> Ctx<S> {
    pub open spec fn wf(&self, feat: Feat) -> bool {
        &&& self.history@.len() == 1024
        &&& self.zobrist.wf()
        &&& feat.tt ==> self.tt@.len() > 0
        &&& self.time_limit_ms > 0 ==> self.start is Some
    }

    /// The limits are those of `other`.
    pub open spec fn same_limits(&self, other: &Ctx<S>) -> bool {
        &&& self.budget == other.budget
        &&& self.time_limit_ms == other.time_limit_ms
        &&& self.start == other.start
    }
}

/// Whether a search stops for time: a limit is set, `elapsed_ms` has reached it, and the node
/// count is one of those, every 1024, at which the clock is looked at.
pub fn out_of_time(elapsed_ms: u128, limit_ms: u64, nodes: u64) -> (r: bool)
    ensures
        r == (limit_ms > 0 && nodes % 1024 == 0 && elapsed_ms >= limit_ms),
{
    limit_ms > 0 && nodes % 1024 == 0 && elapsed_ms >= limit_ms as u128
}

/// A search that takes `nodes` nodes in all was stopped: by the budget, or by the time limit,
/// which is looked at every 1024 nodes.
pub open spec fn interrupted<S>(nodes: nat, ctx: &Ctx<S>) -> bool {
    ||| nodes > ctx.budget && ctx.nodes == stop_count(ctx.budget)
    ||| ctx.time_limit_ms > 0 && ctx.nodes % 1024 == 0 && 1024 <= ctx.nodes <= nodes
}

/// How a search that began in `old` ended in `new`, where without limits it would return and
/// leave behind `want`. It finishes, or it is interrupted.
pub open spec fn ran<S, T>(
    r: Result<T, ()>,
    want: (T, Mem<S>),
    old: &Ctx<S>,
    new: &Ctx<S>,
    feat: Feat,
) -> bool {
    &&& new.wf(feat)
    &&& new.same_limits(old)
    &&& new.nodes <= stop_count(new.budget)
    &&& match r {
        Ok(v) => v == want.0 && new@ == want.1 && new.nodes <= new.budget,
        Err(_) => interrupted(want.1.nodes, new),
    }
}

impl<S: Score> Ctx<S> {
    pub fn new(budget: u64, time_limit_ms: u64, max_depth: i32, tt_size: usize) -> (r: Ctx<S>)
        requires
            max_depth <= i32::MAX - 2,
        ensures
            r@ == fresh::<S>(killer_slots(max_depth as int), tt_size as nat),
            r.budget == budget,
            r.time_limit_ms == time_limit_ms,
            r.start is Some <==> time_limit_ms > 0,
            r.zobrist.wf(),
    {
        let depths: usize = if max_depth > 1 {
            (max_depth + 2) as usize
        } else {
            3
        };
        let mut killers: Vec<((u8, u8), (u8, u8))> = Vec::new();
        while killers.len() < depths
            invariant
                killers@.len() <= depths,
                forall|i: int|
                    0 <= i < killers@.len() ==> #[trigger] killers@[i] == (
                        (255u8, 255u8),
                        (255u8, 255u8),
                    ),
            decreases depths - killers@.len(),
        {
            killers.push(((255, 255), (255, 255)));
        }
        let mut history: Vec<i32> = Vec::new();
        while history.len() < 1024
            invariant
                history@.len() <= 1024,
                forall|i: int| 0 <= i < history@.len() ==> #[trigger] history@[i] == 0,
            decreases 1024 - history@.len(),
        {
            history.push(0);
        }
        let zero: S = whole_number(0);
        let mut tt: Vec<TtEntry<S>> = Vec::new();
        while tt.len() < tt_size
            invariant
                zero == whole::<S>(0),
                tt@.len() <= tt_size,
                forall|i: int|
                    0 <= i < tt@.len() ==> #[trigger] tt@[i] == (TtEntry {
                        key: 0,
                        value: whole::<S>(0),
                        depth: 0,
                        flag: 0,
                        best: (255u8, 255u8),
                    }),
            decreases tt_size - tt@.len(),
        {
            tt.push(TtEntry { key: 0, value: zero, depth: 0, flag: 0, best: (255, 255) });
        }
        let path: Vec<u64> = Vec::new();
        let start: Option<Instant> = if time_limit_ms > 0 {
            Some(Instant::now())
        } else {
            None
        };
        let r = Ctx {
            nodes: 0,
            budget,
            start,
            time_limit_ms,
            killers,
            history,
            tt,
            path,
            zobrist: zob(),
        };
        assert(r@ =~= fresh::<S>(killer_slots(max_depth as int), tt_size as nat));
        r
    }

    /// Counts a node, where `elapsed_ms` have passed since the start. Fails exactly where the
    /// count exceeds the budget or the search is out of time.
    pub fn tick_at(&mut self, elapsed_ms: u128) -> (r: Result<(), ()>)
        requires
            old(self).nodes <= old(self).budget,
        ensures
            final(self).same_limits(old(self)),
            final(self).zobrist == old(self).zobrist,
            final(self)@ == (Mem { nodes: final(self)@.nodes, ..old(self)@ }),
            final(self).nodes == if old(self).nodes < u64::MAX {
                old(self).nodes + 1
            } else {
                u64::MAX as int
            },
            r is Err <==> {
                ||| old(self).nodes + 1 > old(self).budget
                ||| {
                    &&& old(self).time_limit_ms > 0
                    &&& (old(self).nodes + 1) % 1024 == 0
                    &&& elapsed_ms >= old(self).time_limit_ms
                }
            },
    {
        if self.nodes == u64::MAX {
            return Err(());
        }
        self.nodes = self.nodes + 1;
        if self.nodes > self.budget || out_of_time(elapsed_ms, self.time_limit_ms, self.nodes) {
            return Err(());
        }
        Ok(())
    }

    /// Counts a node. Fails when the budget is exceeded, and, every 1024 nodes, when the time is
    /// up.
    pub fn tick(&mut self) -> (r: Result<(), ()>)
        requires
            old(self).nodes <= old(self).budget,
        ensures
            final(self).same_limits(old(self)),
            final(self).zobrist == old(self).zobrist,
            final(self)@ == (Mem { nodes: final(self)@.nodes, ..old(self)@ }),
            final(self).nodes <= stop_count(final(self).budget),
            match r {
                Ok(_) => {
                    &&& final(self)@ == ticked(old(self)@)
                    &&& final(self).nodes <= final(self).budget
                },
                Err(_) => interrupted(ticked(old(self)@).nodes, final(self)),
            },
    {
        let looks = self.time_limit_ms > 0 && self.nodes % 1024 == 1023;
        let elapsed_ms: u128 = match &self.start {
            Some(start) => if looks {
                start.elapsed().as_millis()
            } else {
                0
            },
            None => 0,
        };
        self.tick_at(elapsed_ms)
    }

    /// Remembers a quiet move that cut off.
    pub fn record_cutoff(&mut self, m: (u8, u8), depth: i32)
        requires
            m.0 < 32,
            m.1 < 32,
            0 <= depth,
            old(self).history@.len() == 1024,
        ensures
            final(self)@ == cutoff_recorded(old(self)@, m, depth as int),
            final(self).same_limits(old(self)),
            final(self).zobrist == old(self).zobrist,
            final(self).history@.len() == 1024,
    {
        let ghost before = self@;
        if (depth as usize) < self.killers.len() {
            let d = depth as usize;
            let (first, _) = self.killers[d];
            if !(first.0 == m.0 && first.1 == m.1) {
                self.killers.set(d, (m, first));
            }
        }
        let h: usize = m.0 as usize * 32 + m.1 as usize;
        assert(0 <= depth * depth <= 0x7fff_ffff * 0x7fff_ffff) by (nonlinear_arith)
            requires
                0 <= depth <= 0x7fff_ffff,
        ;
        let square: i64 = (depth as i64) * (depth as i64);
        let sum: i64 = self.history[h] as i64 + square;
        let score: i32 = if sum < i32::MAX as i64 {
            sum as i32
        } else {
            i32::MAX
        };
        self.history.set(h, score);
        assert(self@ =~= cutoff_recorded(before, m, depth as int));
    }
}

// ---------------------------------------------------------------- moves of a node

/// Every move of `mv` is legal in `p`.
pub open spec fn all_legal(p: Pos, mv: Seq<(u8, u8)>) -> bool {
    forall|i: int| 0 <= i < mv.len() ==> legal(p, #[trigger] mv[i])
}

pub proof fn lemma_all_legal(p: Pos, mv: Seq<(u8, u8)>)
    requires
        wf(p),
        mv.to_multiset() == all_moves(p).to_multiset(),
    ensures
        all_legal(p, mv),
        moves_on_board(mv),
        moves_have_pieces(p, mv),
{
    assert forall|i: int| 0 <= i < mv.len() implies legal(p, #[trigger] mv[i]) by {
        let m = mv[i];
        assert(mv.contains(m));
        lemma_same_moves(mv, all_moves(p), m);
        law_all_moves_are_the_legal_moves(p, m);
    }
    assert forall|i: int| 0 <= i < mv.len() implies (#[trigger] mv[i]).0 == mv[i].1
        || p.sq[mv[i].0 as int] >= 0 by {
        law_moves_and_flips(p, mv[i]);
    }
}

/// Searching a position needs room in the ply counter for every ply below it.
pub open spec fn room_for(st: &State, plies: int) -> bool {
    &&& wf(st@)
    &&& st.ply + plies <= u32::MAX
}

/// The larger of `n` and zero.
pub open spec fn positive(n: int) -> int {
    if n > 0 {
        n
    } else {
        0
    }
}

fn node_key_of<S: Score>(st: &State, cfg: &Cfg<S>, ctx: &Ctx<S>) -> (r: u64)
    requires
        wf(st@),
        ctx.zobrist.wf(),
    ensures
        r == node_key(st@, cfg@),
{
    if cfg.feat.tt || cfg.feat.rep {
        zkey(&ctx.zobrist, st)
    } else {
        0
    }
}

/// Puts moves in the order in which they are searched.
pub fn order_moves<S: Score>(
    st: &State,
    mv: &Vec<(u8, u8)>,
    depth: i32,
    cfg: &Cfg<S>,
    ctx: &Ctx<S>,
) -> (r: Vec<(u8, u8)>)
    requires
        moves_on_board(mv@),
        moves_have_pieces(st@, mv@),
        ctx.history@.len() == 1024,
    ensures
        r@ == search_order(st@, mv@, depth as int, cfg@, ctx@),
        r@.to_multiset() == mv@.to_multiset(),
        r@.len() == mv@.len(),
{
    if cfg.feat.ordering {
        proof {
            lemma_rich_order_keeps(st@, mv@, depth as int, ctx.killers@, ctx.history@);
        }
        order_rich(st, mv, depth, &ctx.killers, &ctx.history)
    } else {
        proof {
            lemma_plain_order_keeps(st@, mv@);
        }
        order(st, mv)
    }
}

/// The value of a game that ended.
pub fn terminal_value<S: Score>(st: &State, res: i16, cfg: &Cfg<S>) -> (r: S)
    ensures
        r == model::terminal_value(st@, res as int, cfg@),
{
    if res == RES_DRAW {
        if !cfg.contempt.same(whole_number(0)) && cfg.root >= 0 {
            return if st.mover_color() == cfg.root {
                cfg.contempt.negated()
            } else {
                cfg.contempt
            };
        }
        return whole_number(0);
    }
    let winner: i16 = if res == RES_RED {
        0
    } else {
        1
    };
    if winner == st.mover_color() {
        whole_number(1)
    } else {
        whole_number(-1)
    }
}

/// The evaluation for the player to move.
pub fn leaf<S: Score>(st: &State, cfg: &Cfg<S>) -> (r: S)
    requires
        wf(st@),
    ensures
        r == leaf_value(st@, cfg@),
{
    st.eval(st.mover_color(), cfg.w_mob, cfg.w_king, &cfg.values, &cfg.feat)
}

// ---------------------------------------------------------------- quiescence

fn collect_captures(st: &State, mv: &Vec<(u8, u8)>) -> (r: Vec<(i32, (u8, u8))>)
    requires
        moves_on_board(mv@),
    ensures
        r@ == captures_of(st@, mv@, mv@.len() as int),
{
    let mut caps: Vec<(i32, (u8, u8))> = Vec::new();
    let mut i: usize = 0;
    while i < mv.len()
        invariant
            i <= mv@.len(),
            moves_on_board(mv@),
            caps@ == captures_of(st@, mv@, i as int),
        decreases mv@.len() - i,
    {
        let m = mv[i];
        if m.0 != m.1 {
            let t = st.sq[m.1 as usize];
            if is_piece(t) {
                caps.push((base_value_of(code_role(t)), m));
            }
        }
        i = i + 1;
    }
    caps
}

/// Every entry is a capture that is legal in `p`.
spec fn all_captures(p: Pos, caps: Seq<(i32, (u8, u8))>) -> bool {
    forall|i: int|
        0 <= i < caps.len() ==> {
            let m = (#[trigger] caps[i]).1;
            legal(p, m) && m.0 != m.1 && p.sq[m.1 as int] >= 0
        }
}

proof fn lemma_captures_of(p: Pos, mv: Seq<(u8, u8)>, n: int)
    requires
        0 <= n <= mv.len(),
        all_legal(p, mv),
    ensures
        all_captures(p, captures_of(p, mv, n)),
    decreases n,
{
    if n > 0 {
        lemma_captures_of(p, mv, n - 1);
        assert(legal(p, mv[n - 1]));
    }
}

proof fn lemma_sorted_captures(p: Pos, caps: Seq<(i32, (u8, u8))>)
    requires
        all_captures(p, caps),
    ensures
        all_captures(p, sorted(caps)),
{
    broadcast use vstd::seq_lib::group_to_multiset_ensures;

    crate::order::law_sorted_keeps(caps);
    assert forall|i: int| 0 <= i < sorted(caps).len() implies {
        let m = (#[trigger] sorted(caps)[i]).1;
        legal(p, m) && m.0 != m.1 && p.sq[m.1 as int] >= 0
    } by {
        let x = sorted(caps)[i];
        assert(sorted(caps).contains(x));
        assert(caps.to_multiset().count(x) > 0);
        assert(caps.contains(x));
    }
}

/// Searches captures only.
pub fn quiesce<S: Score>(
    st: &State,
    alpha: S,
    beta: S,
    cfg: &Cfg<S>,
    ctx: &mut Ctx<S>,
    qdepth: i32,
) -> (r: Result<S, ()>)
    requires
        room_for(st, positive(qdepth as int)),
        old(ctx).wf(cfg.feat),
        old(ctx).nodes <= old(ctx).budget,
    ensures
        ran(
            r,
            model::quiesce(st@, alpha, beta, cfg@, old(ctx)@, qdepth as int),
            old(ctx),
            final(ctx),
            cfg.feat,
        ),
    decreases qdepth,
{
    let ghost p = st@;
    let ghost m0 = ctx@;
    let ghost want = model::quiesce(p, alpha, beta, cfg@, m0, qdepth as int);
    proof {
        model::lemma_quiesce_keeps(p, alpha, beta, cfg@, m0, qdepth as int);
    }
    match ctx.tick() {
        Ok(_) => {},
        Err(_) => {
            return Err(());
        },
    }
    let mut mv: Vec<(u8, u8)> = Vec::new();
    let res = st.result(&mut mv);
    if res != RES_ONGOING {
        return Ok(terminal_value(st, res, cfg));
    }
    let stand = leaf(st, cfg);
    if beta.at_most(stand) || qdepth <= 0 {
        return Ok(stand);
    }
    let mut a: S = if alpha.less(stand) {
        stand
    } else {
        alpha
    };
    proof {
        lemma_all_legal(p, mv@);
        lemma_captures_of(p, mv@, mv@.len() as int);
        lemma_sorted_captures(p, captures_of(p, mv@, mv@.len() as int));
    }
    let caps = sort_keyed(&collect_captures(st, &mv));
    let mut best: S = stand;
    let mut i: usize = 0;
    while i < caps.len()
        invariant
            i <= caps@.len(),
            p == st@,
            qdepth >= 1,
            room_for(st, qdepth as int),
            caps@ == best_captures(p),
            all_captures(p, caps@),
            ctx.wf(cfg.feat),
            ctx.same_limits(old(ctx)),
            ctx.nodes <= ctx.budget,
            want == model::quiesce(p, alpha, beta, cfg@, old(ctx)@, qdepth as int),
            want == model::quiesce_from(
                p,
                caps@,
                i as int,
                a,
                beta,
                best,
                cfg@,
                ctx@,
                qdepth as int,
            ),
        decreases caps@.len() - i,
    {
        let m = caps[i].1;
        let ghost before = ctx@;
        proof {
            assert(legal(p, m));
            law_moves_and_flips(p, m);
            law_play_keeps_form(p, m, 0);
        }
        let mut child = *st;
        child.push(m.0, m.1, 0);
        let v: S = match quiesce(&child, beta.negated(), a.negated(), cfg, ctx, qdepth - 1) {
            Ok(w) => w.negated(),
            Err(_) => {
                proof {
                    lemma_quiesce_child_bounds(
                        p,
                        caps@,
                        i as int,
                        a,
                        beta,
                        best,
                        cfg@,
                        before,
                        qdepth as int,
                    );
                }
                return Err(());
            },
        };
        if best.less(v) {
            best = v;
        }
        if a.less(best) {
            a = best;
        }
        if beta.at_most(a) {
            return Ok(best);
        }
        i = i + 1;
    }
    Ok(best)
}

/// The search of one capture visits no more nodes than that of all from it on.
proof fn lemma_quiesce_child_bounds<A: Arith>(
    p: Pos,
    caps: Seq<(i32, (u8, u8))>,
    i: int,
    alpha: A,
    beta: A,
    best: A,
    c: Params<A>,
    m: Mem<A>,
    q: int,
)
    requires
        q >= 1,
        0 <= i < caps.len(),
    ensures
        model::quiesce(
            after(p, caps[i].1, 0),
            A::negation_of(beta),
            A::negation_of(alpha),
            c,
            m,
            q - 1,
        ).1.nodes <= model::quiesce_from(p, caps, i, alpha, beta, best, c, m, q).1.nodes,
{
    let (w, m1) = model::quiesce(
        after(p, caps[i].1, 0),
        A::negation_of(beta),
        A::negation_of(alpha),
        c,
        m,
        q - 1,
    );
    let v = A::negation_of(w);
    let best1 = if A::is_less(best, v) {
        v
    } else {
        best
    };
    let alpha1 = if A::is_less(alpha, best1) {
        best1
    } else {
        alpha
    };
    lemma_quiesce_from_keeps(p, caps, i + 1, alpha1, beta, best1, c, m1, q);
}

// ---------------------------------------------------------------- decision and chance nodes

/// What a search from `st` needs.
pub open spec fn searchable<S>(
    st: &State,
    depth: int,
    cfg: &Cfg<S>,
    ctx: &Ctx<S>,
) -> bool {
    &&& room_for(st, positive(depth) + positive(cfg.quiesce_max as int))
    &&& ctx.wf(cfg.feat)
    &&& ctx.nodes <= ctx.budget
}

/// The value of a flip by Star1.
pub fn flip_value<S: Score>(
    st: &State,
    m: (u8, u8),
    depth: i32,
    alpha: S,
    beta: S,
    cfg: &Cfg<S>,
    ctx: &mut Ctx<S>,
) -> (r: Result<S, ()>)
    requires
        searchable(st, depth as int, cfg, old(ctx)),
        depth >= 1,
        legal(st@, m),
        m.0 == m.1,
    ensures
        ran(
            r,
            model::move_value(st@, m, depth as int, alpha, beta, cfg@, old(ctx)@),
            old(ctx),
            final(ctx),
            cfg.feat,
        ),
    decreases depth, 0int, 0int,
{
    let ghost p = st@;
    let ghost want = model::move_value(p, m, depth as int, alpha, beta, cfg@, ctx@);
    let total = st.tiles_in_bag(0, 14);
    proof {
        lemma_total_bound(st.bag@, 0, 14);
    }
    let l: S = whole_number(-1);
    let u: S = whole_number(1);
    let zero: S = whole_number(0);
    let mut vsum: S = zero;
    let mut rem: S = u;
    let mut code: usize = 0;
    while code < 14
        invariant
            code <= 14,
            p == st@,
            depth >= 1,
            legal(p, m),
            m.0 == m.1,
            searchable(st, depth as int, cfg, ctx),
            ctx.same_limits(old(ctx)),
            total == bag_total(p.bag),
            total <= 0xe_ffff_fff2,
            l == vmin::<S>(),
            u == vmax::<S>(),
            zero == whole::<S>(0),
            want == model::move_value(p, m, depth as int, alpha, beta, cfg@, old(ctx)@),
            want == model::flip_from(
                p,
                m,
                code as int,
                depth as int,
                alpha,
                beta,
                vsum,
                rem,
                cfg@,
                ctx@,
            ),
        decreases 14 - code,
    {
        let cnt = st.bag[code];
        if cnt != 0 {
            let ghost before = ctx@;
            let ghost rem0 = rem;
            let pr: S = whole_number::<S>(cnt as i64).over(whole_number(total as i64));
            assert(pr == chance::<S>(p.bag, code as int));
            rem = rem.minus(pr);
            if rem.less(zero) {
                rem = zero;
            }
            let ai: S = alpha.minus(vsum).minus(rem.times(u)).over(pr);
            let bi: S = beta.minus(vsum).minus(rem.times(l)).over(pr);
            if u.at_most(ai) {
                return Ok(alpha);
            }
            if bi.at_most(l) {
                return Ok(beta);
            }
            let cl: S = if l.less(ai) {
                ai
            } else {
                l
            };
            let cu: S = if bi.less(u) {
                bi
            } else {
                u
            };
            proof {
                assert(p.bag[code as int] > 0);
                law_play_keeps_form(p, m, code as int);
                law_moves_and_flips(p, m);
            }
            let mut child = *st;
            child.push(m.0, m.1, code as i16);
            let v: S = match negamax(&child, depth - 1, cu.negated(), cl.negated(), cfg, ctx) {
                Ok(w) => w.negated(),
                Err(_) => {
                    proof {
                        lemma_flip_child_bounds(
                            p,
                            m,
                            code as int,
                            depth as int,
                            alpha,
                            beta,
                            vsum,
                            rem0,
                            cfg@,
                            before,
                        );
                    }
                    return Err(());
                },
            };
            if v.at_most(ai) {
                return Ok(alpha);
            }
            if bi.at_most(v) {
                return Ok(beta);
            }
            vsum = vsum.plus(pr.times(v));
        }
        code = code + 1;
    }
    Ok(vsum)
}

proof fn lemma_total_bound(bag: Seq<u32>, from: int, n: int)
    requires
        0 <= n,
    ensures
        tiles(bag, from, n) <= n * 0xffff_ffff,
    decreases n,
{
    if n > 0 {
        lemma_total_bound(bag, from, n - 1);
    }
}

/// The search of one outcome visits no more nodes than that of all from it on.
proof fn lemma_flip_child_bounds<A: Arith>(
    p: Pos,
    x: (u8, u8),
    code: int,
    depth: int,
    alpha: A,
    beta: A,
    vsum: A,
    rem: A,
    c: Params<A>,
    m: Mem<A>,
)
    requires
        depth >= 1,
        0 <= code < 14,
        p.bag[code] > 0,
        ({
            let pr = chance::<A>(p.bag, code);
            let rem1 = chance_left(rem, pr);
            let ai = star1_bound(alpha, vsum, rem1, vmax(), pr);
            let bi = star1_bound(beta, vsum, rem1, vmin(), pr);
            !A::is_at_most(vmax(), ai) && !A::is_at_most(bi, vmin())
        }),
    ensures
        ({
            let pr = chance::<A>(p.bag, code);
            let rem1 = chance_left(rem, pr);
            let ai = star1_bound(alpha, vsum, rem1, vmax(), pr);
            let bi = star1_bound(beta, vsum, rem1, vmin(), pr);
            let cl = if A::is_less(vmin(), ai) {
                ai
            } else {
                vmin()
            };
            let cu = if A::is_less(bi, vmax()) {
                bi
            } else {
                vmax()
            };
            model::negamax(
                after(p, x, code),
                depth - 1,
                A::negation_of(cu),
                A::negation_of(cl),
                c,
                m,
            ).1.nodes <= model::flip_from(
                p,
                x,
                code,
                depth,
                alpha,
                beta,
                vsum,
                rem,
                c,
                m,
            ).1.nodes
        }),
{
    let pr = chance::<A>(p.bag, code);
    let rem1 = chance_left(rem, pr);
    let ai = star1_bound(alpha, vsum, rem1, vmax(), pr);
    let bi = star1_bound(beta, vsum, rem1, vmin(), pr);
    let cl = if A::is_less(vmin(), ai) {
        ai
    } else {
        vmin()
    };
    let cu = if A::is_less(bi, vmax()) {
        bi
    } else {
        vmax()
    };
    let (w, m1) = model::negamax(
        after(p, x, code),
        depth - 1,
        A::negation_of(cu),
        A::negation_of(cl),
        c,
        m,
    );
    let v = A::negation_of(w);
    lemma_flip_from_keeps(
        p,
        x,
        code + 1,
        depth,
        alpha,
        beta,
        A::sum_of(vsum, A::product_of(pr, v)),
        rem1,
        c,
        m1,
    );
}

/// The value of a move.
pub fn move_value<S: Score>(
    st: &State,
    m: (u8, u8),
    depth: i32,
    alpha: S,
    beta: S,
    cfg: &Cfg<S>,
    ctx: &mut Ctx<S>,
) -> (r: Result<S, ()>)
    requires
        searchable(st, depth as int, cfg, old(ctx)),
        depth >= 1,
        legal(st@, m),
        st.no_progress < u32::MAX,
    ensures
        ran(
            r,
            model::move_value(st@, m, depth as int, alpha, beta, cfg@, old(ctx)@),
            old(ctx),
            final(ctx),
            cfg.feat,
        ),
    decreases depth, 1int, 0int,
{
    if m.0 == m.1 {
        return flip_value(st, m, depth, alpha, beta, cfg, ctx);
    }
    proof {
        law_play_keeps_form(st@, m, 0);
    }
    let mut child = *st;
    child.push(m.0, m.1, 0);
    match negamax(&child, depth - 1, beta.negated(), alpha.negated(), cfg, ctx) {
        Ok(w) => Ok(w.negated()),
        Err(_) => Err(()),
    }
}

/// The value of the `i`-th move of a decision node.
fn node_move<S: Score>(
    st: &State,
    m: (u8, u8),
    i: usize,
    depth: i32,
    alpha: S,
    beta: S,
    cfg: &Cfg<S>,
    ctx: &mut Ctx<S>,
) -> (r: Result<S, ()>)
    requires
        searchable(st, depth as int, cfg, old(ctx)),
        depth >= 1,
        legal(st@, m),
        st.no_progress < u32::MAX,
    ensures
        ran(
            r,
            model::node_move(st@, m, i as int, depth as int, alpha, beta, cfg@, old(ctx)@),
            old(ctx),
            final(ctx),
            cfg.feat,
        ),
    decreases depth, 1int, 1int,
{
    let ghost p = st@;
    let is_quiet = m.0 != m.1 && !is_piece(st.sq[m.1 as usize]);
    if cfg.feat.lmr && is_quiet && i >= 3 && depth >= 3 {
        proof {
            law_play_keeps_form(p, m, 0);
        }
        let mut child = *st;
        child.push(m.0, m.1, 0);
        let na: S = alpha.negated();
        let probe: S = match negamax(
            &child,
            depth - 2,
            na.minus(S::ratio(1, 1_000_000)),
            na,
            cfg,
            ctx,
        ) {
            Ok(w) => w.negated(),
            Err(_) => {
                proof {
                    let lo = S::difference_of(na, S::ratio_of(1, 1_000_000));
                    let m1 = model::negamax(child@, depth - 2, lo, na, cfg@, old(ctx)@).1;
                    law_search_keeps(child@, depth - 1, S::negation_of(beta), na, cfg@, m1);
                }
                return Err(());
            },
        };
        if alpha.less(probe) {
            match negamax(&child, depth - 1, beta.negated(), na, cfg, ctx) {
                Ok(w) => Ok(w.negated()),
                Err(_) => Err(()),
            }
        } else {
            Ok(probe)
        }
    } else {
        move_value(st, m, depth, alpha, beta, cfg, ctx)
    }
}

/// The index of `key` in the table.
fn tt_index<S>(ctx: &Ctx<S>, key: u64) -> (r: usize)
    requires
        ctx.tt@.len() > 0,
    ensures
        r == key as int % ctx.tt@.len() as int,
        r < ctx.tt@.len(),
{
    (key % (ctx.tt.len() as u64)) as usize
}

fn tt_probe<S: Score>(ctx: &Ctx<S>, key: u64, depth: i32, alpha: S, beta: S) -> (r: (
    Option<S>,
    Option<(u8, u8)>,
))
    requires
        ctx.tt@.len() > 0,
    ensures
        r.0 == tt_value(ctx@, key, depth as int, alpha, beta),
        r.1 == tt_move(ctx@, key),
{
    let idx = tt_index(ctx, key);
    let e = &ctx.tt[idx];
    if e.flag != 0 && e.key == key {
        let settled = e.depth as i32 >= depth && (e.flag == 1 || (e.flag == 2 && beta.at_most(
            e.value,
        )) || (e.flag == 3 && e.value.at_most(alpha)));
        if settled {
            (Some(e.value), Some(e.best))
        } else {
            (None, Some(e.best))
        }
    } else {
        (None, None)
    }
}

fn tt_store<S: Score>(
    ctx: &mut Ctx<S>,
    key: u64,
    depth: i32,
    alpha: S,
    beta: S,
    best: S,
    best_m: (u8, u8),
)
    requires
        old(ctx).tt@.len() > 0,
    ensures
        final(ctx)@ == tt_stored(old(ctx)@, key, depth as int, alpha, beta, best, best_m),
        final(ctx).same_limits(old(ctx)),
        final(ctx).zobrist == old(ctx).zobrist,
        final(ctx).tt@.len() == old(ctx).tt@.len(),
{
    let ghost before = ctx@;
    let flag: u8 = if best.at_most(alpha) {
        3
    } else if beta.at_most(best) {
        2
    } else {
        1
    };
    let idx = tt_index(ctx, key);
    let replace = ctx.tt[idx].flag == 0 || ctx.tt[idx].key != key || ctx.tt[idx].depth as i32
        <= depth;
    if replace {
        ctx.tt.set(
            idx,
            TtEntry {
                key,
                value: best,
                depth: #[verifier::truncate] (depth as i16),
                flag,
                best: best_m,
            },
        );
    }
    assert(ctx@ =~= tt_stored(before, key, depth as int, alpha, beta, best, best_m));
}

fn on_path(path: &Vec<u64>, key: u64) -> (r: bool)
    ensures
        r == path@.contains(key),
{
    let mut i: usize = 0;
    while i < path.len()
        invariant
            i <= path@.len(),
            forall|j: int| 0 <= j < i ==> path@[j] != key,
        decreases path@.len() - i,
    {
        if path[i] == key {
            assert(path@.contains(path@[i as int]));
            return true;
        }
        i = i + 1;
    }
    false
}

/// The value of a position, searched in a window.
pub fn negamax<S: Score>(
    st: &State,
    depth: i32,
    alpha: S,
    beta: S,
    cfg: &Cfg<S>,
    ctx: &mut Ctx<S>,
) -> (r: Result<S, ()>)
    requires
        searchable(st, depth as int, cfg, old(ctx)),
    ensures
        ran(
            r,
            model::negamax(st@, depth as int, alpha, beta, cfg@, old(ctx)@),
            old(ctx),
            final(ctx),
            cfg.feat,
        ),
    decreases depth, 3int, 0int,
{
    let ghost p = st@;
    let ghost c = cfg@;
    let ghost d = depth as int;
    let ghost want = model::negamax(p, d, alpha, beta, c, ctx@);
    proof {
        law_search_keeps(p, d, alpha, beta, c, ctx@);
    }
    match ctx.tick() {
        Ok(_) => {},
        Err(_) => {
            return Err(());
        },
    }
    let mut moves: Vec<(u8, u8)> = Vec::new();
    let res = st.result(&mut moves);
    if res != RES_ONGOING {
        return Ok(terminal_value(st, res, cfg));
    }
    if depth <= 0 {
        if cfg.quiesce {
            return quiesce(st, alpha, beta, cfg, ctx, cfg.quiesce_max);
        }
        return Ok(leaf(st, cfg));
    }
    let ghost m = ctx@;
    let key = node_key_of(st, cfg, ctx);
    if cfg.feat.rep && on_path(&ctx.path, key) {
        return Ok(terminal_value(st, RES_DRAW, cfg));
    }
    let mut hash_move: Option<(u8, u8)> = None;
    if cfg.feat.tt {
        let (known, hm) = tt_probe(ctx, key, depth, alpha, beta);
        if let Some(v) = known {
            return Ok(v);
        }
        hash_move = hm;
    }
    proof {
        lemma_all_legal(p, moves@);
    }
    let mut mv = order_moves(st, &moves, depth, cfg, ctx);
    proof {
        lemma_promote_keeps(mv@, hash_move);
    }
    promote(&mut mv, hash_move);
    proof {
        lemma_all_legal(p, mv@);
    }
    if cfg.feat.rep {
        ctx.path.push(key);
    }
    let ghost m1 = ctx@;
    let ghost inner = model::node_from(p, mv@, 0, d, alpha, beta, S::lowest_of(), mv@[0], c, m1);
    let mut a: S = alpha;
    let mut best: S = S::lowest();
    let mut best_m = mv[0];
    let mut i: usize = 0;
    let mut cut: bool = false;
    while i < mv.len() && !cut
        invariant
            i <= mv@.len(),
            p == st@,
            c == cfg@,
            d == depth,
            depth >= 1,
            p.no_progress < 40,
            all_legal(p, mv@),
            searchable(st, depth as int, cfg, ctx),
            ctx.same_limits(old(ctx)),
            inner.2.nodes <= want.1.nodes,
            want == model::negamax(p, d, alpha, beta, c, old(ctx)@),
            !cut ==> inner == model::node_from(p, mv@, i as int, d, a, beta, best, best_m, c, ctx@),
            cut ==> inner == (best, best_m, ctx@),
        ensures
            inner == (best, best_m, ctx@),
        decreases mv@.len() - i,
    {
        let x = mv[i];
        let ghost before = ctx@;
        assert(legal(p, x));
        let v: S = match node_move(st, x, i, depth, a, beta, cfg, ctx) {
            Ok(v) => v,
            Err(_) => {
                proof {
                    lemma_node_child_bounds(p, mv@, i as int, d, a, beta, best, best_m, c, before);
                }
                return Err(());
            },
        };
        if best.less(v) {
            best = v;
            best_m = x;
        }
        if a.less(best) {
            a = best;
        }
        if beta.at_most(a) {
            if cfg.feat.ordering && x.0 != x.1 && !is_piece(st.sq[x.1 as usize]) {
                ctx.record_cutoff(x, depth);
            }
            cut = true;
        }
        i = i + 1;
    }
    proof {
        lemma_node_from_keeps(p, mv@, 0, d, alpha, beta, S::lowest_of(), mv@[0], c, m1);
    }
    if cfg.feat.rep {
        let _ = ctx.path.pop();
        assert(ctx@ =~= Mem { path: inner.2.path.drop_last(), ..inner.2 });
    }
    if cfg.feat.tt {
        tt_store(ctx, key, depth, alpha, beta, best, best_m);
    }
    assert(want == (best, ctx@));
    Ok(best)
}

/// The search of one move visits no more nodes than that of all from it on.
proof fn lemma_node_child_bounds<A: Arith>(
    p: Pos,
    mv: Seq<(u8, u8)>,
    i: int,
    depth: int,
    alpha: A,
    beta: A,
    best: A,
    best_m: (u8, u8),
    c: Params<A>,
    m: Mem<A>,
)
    requires
        depth >= 1,
        0 <= i < mv.len(),
    ensures
        model::node_move(p, mv[i], i, depth, alpha, beta, c, m).1.nodes <= model::node_from(
            p,
            mv,
            i,
            depth,
            alpha,
            beta,
            best,
            best_m,
            c,
            m,
        ).2.nodes,
{
    let x = mv[i];
    let (v, m1) = model::node_move(p, x, i, depth, alpha, beta, c, m);
    let best1 = if A::is_less(best, v) {
        v
    } else {
        best
    };
    let best_m1 = if A::is_less(best, v) {
        x
    } else {
        best_m
    };
    let alpha1 = if A::is_less(alpha, best1) {
        best1
    } else {
        alpha
    };
    lemma_node_from_keeps(p, mv, i + 1, depth, alpha1, beta, best1, best_m1, c, m1);
}

} // verus!
