//! The values of all root moves.
use vstd::prelude::*;

use crate::arith::{measured, Arith, Score};
use crate::board::{all_moves, make_state, position, wf, Pos, State};
use crate::engine::{lemma_search_order_keeps, Request, QUIESCE_MAX, TT_SIZE};
use crate::eval::{to_values, whole_number, Feat};
use crate::model;
use crate::model::{lemma_move_value_keeps, search_order, vmax, vmin, Mem, Params};
use crate::order::{lemma_promote_keeps, promote, promoted};
use crate::rules::{law_moves_are_distinct, legal};
use crate::search::{
    all_legal, lemma_all_legal, move_value, order_moves, positive, ran, room_for, searchable, Cfg,
    Ctx,
};
use crate::zobrist::zkey;

verus! {

// ---------------------------------------------------------------- sorting by value

/// Where a row with value `v` goes among the first `n` rows.
pub open spec fn row_slot<A: Arith>(t: Seq<((u8, u8), A)>, v: A, n: int) -> int
    decreases n,
{
    if n > 0 && A::is_less(t[n - 1].1, v) {
        row_slot(t, v, n - 1)
    } else {
        n
    }
}

/// Rows with the largest value first; rows of equal value keep their order.
pub open spec fn ranked<A: Arith>(s: Seq<((u8, u8), A)>) -> Seq<((u8, u8), A)>
    decreases s.len(),
{
    if s.len() == 0 {
        s
    } else {
        let t = ranked(s.drop_last());
        t.insert(row_slot(t, s.last().1, t.len() as int), s.last())
    }
}

fn rank_rows<S: Score>(v: &Vec<((u8, u8), S)>) -> (r: Vec<((u8, u8), S)>)
    ensures
        r@ == ranked(v@),
        r@.len() == v@.len(),
{
    let mut out: Vec<((u8, u8), S)> = Vec::with_capacity(v.len());
    let mut i: usize = 0;
    while i < v.len()
        invariant
            i <= v@.len(),
            out@.len() == i,
            out@ == ranked(v@.take(i as int)),
        decreases v@.len() - i,
    {
        let x = v[i];
        let ghost t = out@;
        let mut pos: usize = out.len();
        while pos > 0 && out[pos - 1].1.less(x.1)
            invariant
                pos <= out@.len(),
                out@ == t,
                row_slot(t, x.1, pos as int) == row_slot(t, x.1, t.len() as int),
            decreases pos,
        {
            pos = pos - 1;
        }
        assert(v@.take(i + 1).drop_last() == v@.take(i as int));
        out.insert(pos, x);
        i = i + 1;
    }
    assert(v@.take(v@.len() as int) == v@);
    out
}

proof fn lemma_row_slot<A: Arith>(t: Seq<((u8, u8), A)>, v: A, n: int)
    requires
        0 <= n <= t.len(),
    ensures
        0 <= row_slot(t, v, n) <= n,
    decreases n,
{
    if n > 0 && A::is_less(t[n - 1].1, v) {
        lemma_row_slot(t, v, n - 1);
    }
}

/// Ranking keeps the rows.
pub proof fn law_ranked_keeps<A: Arith>(s: Seq<((u8, u8), A)>)
    ensures
        ranked(s).to_multiset() == s.to_multiset(),
        ranked(s).len() == s.len(),
    decreases s.len(),
{
    broadcast use vstd::seq_lib::group_to_multiset_ensures;

    if s.len() > 0 {
        let t = ranked(s.drop_last());
        law_ranked_keeps(s.drop_last());
        lemma_row_slot(t, s.last().1, t.len() as int);
        assert(s == s.drop_last().push(s.last()));
    }
}

/// The moves of the rows.
pub open spec fn moves_in_rows<A>(s: Seq<((u8, u8), A)>) -> Seq<(u8, u8)> {
    Seq::new(s.len(), |i: int| s[i].0)
}

/// Ranking keeps the moves of the rows.
pub proof fn lemma_ranked_moves<A: Arith>(s: Seq<((u8, u8), A)>)
    ensures
        moves_in_rows(ranked(s)).to_multiset() == moves_in_rows(s).to_multiset(),
        ranked(s).len() == s.len(),
    decreases s.len(),
{
    broadcast use vstd::seq_lib::group_to_multiset_ensures;

    if s.len() > 0 {
        let t = ranked(s.drop_last());
        let k = row_slot(t, s.last().1, t.len() as int);
        lemma_ranked_moves(s.drop_last());
        lemma_row_slot(t, s.last().1, t.len() as int);
        assert(moves_in_rows(s) =~= moves_in_rows(s.drop_last()).push(s.last().0));
        assert(moves_in_rows(ranked(s)) =~= moves_in_rows(t).insert(k, s.last().0));
    }
}

/// In numbers that are ordered, the values of ranked rows descend.
pub proof fn law_ranked_descends<A: Arith>(s: Seq<((u8, u8), A)>, val: spec_fn(A) -> real)
    requires
        measured(val),
    ensures
        forall|i: int, j: int|
            0 <= i <= j < ranked(s).len() ==> val((#[trigger] ranked(s)[j]).1) <= val((
            #[trigger] ranked(s)[i]).1),
    decreases s.len(),
{
    if s.len() > 0 {
        let t = ranked(s.drop_last());
        let x = s.last();
        let k = row_slot(t, x.1, t.len() as int);
        law_ranked_descends(s.drop_last(), val);
        lemma_row_slot(t, x.1, t.len() as int);
        lemma_slot_splits(t, x.1, t.len() as int, val);
        let r = ranked(s);
        assert forall|i: int, j: int| 0 <= i <= j < r.len() implies val((#[trigger] r[j]).1) <= val(
            (#[trigger] r[i]).1,
        ) by {
            assert(r[i] == if i < k {
                t[i]
            } else if i == k {
                x
            } else {
                t[i - 1]
            });
            assert(r[j] == if j < k {
                t[j]
            } else if j == k {
                x
            } else {
                t[j - 1]
            });
            if i < k && j == k {
                assert(val(t[k - 1].1) <= val(t[i].1));
            }
        }
    }
}

proof fn lemma_slot_splits<A: Arith>(t: Seq<((u8, u8), A)>, v: A, n: int, val: spec_fn(A) -> real)
    requires
        measured(val),
        0 <= n <= t.len(),
    ensures
        row_slot(t, v, n) > 0 ==> val(v) <= val(t[row_slot(t, v, n) - 1].1),
        forall|i: int| row_slot(t, v, n) <= i < n ==> val((#[trigger] t[i]).1) < val(v),
    decreases n,
{
    if n > 0 && A::is_less(t[n - 1].1, v) {
        lemma_slot_splits(t, v, n - 1, val);
    }
}

// ---------------------------------------------------------------- one depth

/// The values of the first `n` moves, each in the full window, and the memory.
pub open spec fn rows_of<A: Arith>(
    p: Pos,
    mv: Seq<(u8, u8)>,
    n: int,
    depth: int,
    c: Params<A>,
    m: Mem<A>,
) -> (Seq<((u8, u8), A)>, Mem<A>)
    decreases n,
{
    if n <= 0 {
        (seq![], m)
    } else {
        let (rows, m1) = rows_of(p, mv, n - 1, depth, c, m);
        let (v, m2) = model::move_value(p, mv[n - 1], depth, vmin(), vmax(), c, m1);
        (rows.push((mv[n - 1], v)), m2)
    }
}

proof fn lemma_rows_grow<A: Arith>(
    p: Pos,
    mv: Seq<(u8, u8)>,
    k: int,
    n: int,
    depth: int,
    c: Params<A>,
    m: Mem<A>,
)
    requires
        0 <= k <= n,
        depth >= 1,
    ensures
        rows_of(p, mv, k, depth, c, m).1.nodes <= rows_of(p, mv, n, depth, c, m).1.nodes,
        rows_of(p, mv, n, depth, c, m).0.len() == n,
    decreases n,
{
    if n > 0 {
        let m1 = rows_of(p, mv, n - 1, depth, c, m).1;
        lemma_move_value_keeps(p, mv[n - 1], depth, vmin(), vmax(), c, m1);
        lemma_rows_grow(
            p,
            mv,
            if k < n {
                k
            } else {
                n - 1
            },
            n - 1,
            depth,
            c,
            m,
        );
    }
}

fn rows_at<S: Score>(
    st: &State,
    mv: &Vec<(u8, u8)>,
    depth: i32,
    cfg: &Cfg<S>,
    ctx: &mut Ctx<S>,
) -> (r: Result<Vec<((u8, u8), S)>, ()>)
    requires
        searchable(st, depth as int, cfg, old(ctx)),
        depth >= 1,
        st.no_progress < u32::MAX,
        all_legal(st@, mv@),
    ensures
        ran(
            match r {
                Ok(rows) => Ok(rows@),
                Err(e) => Err(e),
            },
            rows_of(st@, mv@, mv@.len() as int, depth as int, cfg@, old(ctx)@),
            old(ctx),
            final(ctx),
            cfg.feat,
        ),
{
    let ghost p = st@;
    let ghost c = cfg@;
    let ghost d = depth as int;
    let ghost m0 = ctx@;
    let l: S = whole_number(-1);
    let u: S = whole_number(1);
    let mut rows: Vec<((u8, u8), S)> = Vec::with_capacity(mv.len());
    let mut i: usize = 0;
    while i < mv.len()
        invariant
            i <= mv@.len(),
            p == st@,
            c == cfg@,
            d == depth,
            depth >= 1,
            st.no_progress < u32::MAX,
            all_legal(p, mv@),
            m0 == old(ctx)@,
            searchable(st, depth as int, cfg, ctx),
            ctx.same_limits(old(ctx)),
            l == vmin::<S>(),
            u == vmax::<S>(),
            (rows@, ctx@) == rows_of(p, mv@, i as int, d, c, m0),
        decreases mv@.len() - i,
    {
        let x = mv[i];
        assert(legal(p, x));
        match move_value(st, x, depth, l, u, cfg, ctx) {
            Ok(v) => {
                rows.push((x, v));
            },
            Err(_) => {
                proof {
                    lemma_rows_grow(p, mv@, i + 1, mv@.len() as int, d, c, m0);
                }
                return Err(());
            },
        }
        i = i + 1;
    }
    Ok(rows)
}

// ---------------------------------------------------------------- deepening

/// Where the table of values stands.
#[verifier::ext_equal]
pub struct Table<A> {
    /// The moves in the order of the last depth.
    pub mv: Seq<(u8, u8)>,
    pub rows: Seq<((u8, u8), A)>,
    /// The last depth that was searched to its end.
    pub depth: int,
    pub hint: Option<(u8, u8)>,
    pub mem: Mem<A>,
    pub done: bool,
}

/// The table up to depth `n` with a budget of nodes. A depth that exceeds the budget leaves the
/// table of the one before.
pub open spec fn tabled<A: Arith>(
    p: Pos,
    n: int,
    budget: u64,
    c: Params<A>,
    start: Table<A>,
) -> Table<A>
    decreases n,
{
    if n <= 0 {
        start
    } else {
        let g = tabled(p, n - 1, budget, c, start);
        if g.done {
            g
        } else {
            let mv = promoted(search_order(p, g.mv, n, c, g.mem), g.hint);
            let (rows, m1) = rows_of(p, mv, mv.len() as int, n, c, g.mem);
            if m1.nodes > budget {
                Table { done: true, ..g }
            } else {
                Table {
                    mv,
                    rows: ranked(rows),
                    depth: n,
                    hint: Some(ranked(rows)[0].0),
                    mem: m1,
                    done: false,
                }
            }
        }
    }
}

impl<A: Arith> Request<A> {
    pub open spec fn table_start(self) -> Table<A> {
        Table {
            mv: all_moves(self.pos),
            rows: seq![],
            depth: 0,
            hint: None,
            mem: self.memory(),
            done: false,
        }
    }

    /// The table up to depth `n`.
    pub open spec fn tabled(self, n: int) -> Table<A> {
        tabled(self.pos, n, self.node_budget, self.params(), self.table_start())
    }

    /// The table up to depth `n` is within the budget, and the next depth takes at least 1024
    /// nodes, so that the time can run out in it.
    pub open spec fn table_slow_after(self, n: int) -> bool {
        let g = self.tabled(n);
        let c = self.params();
        let mv = promoted(search_order(self.pos, g.mv, n + 1, c, g.mem), g.hint);
        !g.done && rows_of(self.pos, mv, mv.len() as int, n + 1, c, g.mem).1.nodes >= 1024
    }
}

/// The rows of a table as they are handed out, each with the depth.
pub open spec fn table_rows<A>(g: Table<A>) -> Seq<(u8, u8, A, i32)> {
    g.rows.map_values(|row: ((u8, u8), A)| (row.0.0, row.0.1, row.1, g.depth as i32))
}

/// What the engine tells of the root moves: the table that the budget allows, unless a time limit
/// is set and runs out before.
pub open spec fn tells<A: Arith>(r: Seq<(u8, u8, A, i32)>, q: Request<A>) -> bool {
    if all_moves(q.pos).len() == 0 {
        r.len() == 0
    } else {
        ||| r == table_rows(q.tabled(q.max_depth))
        ||| q.time_ms > 0 && exists|n: int|
            0 <= n < q.max_depth && #[trigger] q.table_slow_after(n) && r == table_rows(q.tabled(n))
    }
}

proof fn lemma_rows_moves<A: Arith>(
    p: Pos,
    mv: Seq<(u8, u8)>,
    n: int,
    depth: int,
    c: Params<A>,
    m: Mem<A>,
)
    requires
        0 <= n <= mv.len(),
    ensures
        moves_in_rows(rows_of(p, mv, n, depth, c, m).0) == mv.take(n),
    decreases n,
{
    let rows = rows_of(p, mv, n, depth, c, m).0;
    if n > 0 {
        lemma_rows_moves(p, mv, n - 1, depth, c, m);
        let before = rows_of(p, mv, n - 1, depth, c, m).0;
        assert(moves_in_rows(rows) =~= moves_in_rows(before).push(mv[n - 1]));
        assert(mv.take(n) =~= mv.take(n - 1).push(mv[n - 1]));
    } else {
        assert(moves_in_rows(rows) =~= mv.take(0));
    }
}

/// The table lists every legal move exactly once, as soon as a depth is finished.
pub proof fn law_table_lists_every_move<A: Arith>(q: Request<A>, n: int)
    ensures
        q.tabled(n).mv.to_multiset() == all_moves(q.pos).to_multiset(),
        q.tabled(n).depth >= 1 ==> moves_in_rows(q.tabled(n).rows).to_multiset() == all_moves(
            q.pos,
        ).to_multiset() && moves_in_rows(q.tabled(n).rows).no_duplicates(),
    decreases n,
{
    if n > 0 {
        law_table_lists_every_move(q, n - 1);
        let g = q.tabled(n - 1);
        if !g.done {
            let c = q.params();
            let o = search_order(q.pos, g.mv, n, c, g.mem);
            let mv = promoted(o, g.hint);
            lemma_search_order_keeps(q.pos, g.mv, n, c, g.mem);
            lemma_promote_keeps(o, g.hint);
            let rows = rows_of(q.pos, mv, mv.len() as int, n, c, g.mem).0;
            lemma_rows_moves(q.pos, mv, mv.len() as int, n, c, g.mem);
            assert(mv.take(mv.len() as int) =~= mv);
            lemma_ranked_moves(rows);
            law_moves_are_distinct(q.pos);
            all_moves(q.pos).lemma_multiset_has_no_duplicates();
            moves_in_rows(ranked(rows)).lemma_multiset_has_no_duplicates_conv();
        }
    }
}

/// The best move comes first in the table, and no move after it is worth more.
pub proof fn law_table_descends<A: Arith>(q: Request<A>, n: int, val: spec_fn(A) -> real)
    requires
        measured(val),
    ensures
        forall|i: int, j: int|
            0 <= i <= j < q.tabled(n).rows.len() ==> val((#[trigger] q.tabled(n).rows[j]).1)
                <= val((#[trigger] q.tabled(n).rows[i]).1),
    decreases n,
{
    if n > 0 {
        law_table_descends(q, n - 1, val);
        let g = q.tabled(n - 1);
        if !g.done {
            let c = q.params();
            let mv = promoted(search_order(q.pos, g.mv, n, c, g.mem), g.hint);
            law_ranked_descends(rows_of(q.pos, mv, mv.len() as int, n, c, g.mem).0, val);
        }
    }
}

proof fn lemma_table_done_stays<A: Arith>(q: Request<A>, k: int, n: int)
    requires
        k <= n,
        q.tabled(k).done,
    ensures
        q.tabled(n) == q.tabled(k),
    decreases n - k,
{
    if n <= 0 {
    } else if k < n {
        lemma_table_done_stays(q, k, n - 1);
    }
}

fn hand_out<S: Score>(rows: &Vec<((u8, u8), S)>, depth: i32) -> (r: Vec<(u8, u8, S, i32)>)
    ensures
        r@ == rows@.map_values(|row: ((u8, u8), S)| (row.0.0, row.0.1, row.1, depth)),
{
    let mut out: Vec<(u8, u8, S, i32)> = Vec::with_capacity(rows.len());
    let ghost want = rows@.map_values(|row: ((u8, u8), S)| (row.0.0, row.0.1, row.1, depth));
    let mut i: usize = 0;
    while i < rows.len()
        invariant
            i <= rows@.len(),
            want == rows@.map_values(|row: ((u8, u8), S)| (row.0.0, row.0.1, row.1, depth)),
            out@ == want.take(i as int),
        decreases rows@.len() - i,
    {
        let ((f, t), v) = rows[i];
        out.push((f, t, v, depth));
        assert(want.take(i + 1) =~= want.take(i as int).push((f, t, v, depth)));
        i = i + 1;
    }
    assert(want.take(rows@.len() as int) =~= want);
    out
}

/// Every root move with its exact value, at the deepest depth that the limits allow, the best
/// first.
pub fn root_move_values<S: Score>(
    squares: Vec<i16>,
    bag: Vec<u32>,
    first_color: i16,
    ply: u32,
    no_progress: u32,
    node_budget: u64,
    contempt: S,
    quiesce_on: bool,
    max_depth: i32,
    w_mob: S,
    w_king: S,
    values: Vec<S>,
    time_ms: u64,
    features: u32,
) -> (r: Vec<(u8, u8, S, i32)>)
    requires
        (Request {
            pos: position(squares@, bag@, first_color as int, ply as nat, no_progress as nat),
            node_budget,
            contempt,
            quiesce: quiesce_on,
            max_depth: max_depth as int,
            w_mob,
            w_king,
            values: values@,
            time_ms,
            feat: Feat::of_bits(features),
            rep_history: seq![],
        }).fits(),
    ensures
        tells(
            r@,
            (Request {
                pos: position(squares@, bag@, first_color as int, ply as nat, no_progress as nat),
                node_budget,
                contempt,
                quiesce: quiesce_on,
                max_depth: max_depth as int,
                w_mob,
                w_king,
                values: values@,
                time_ms,
                feat: Feat::of_bits(features),
                rep_history: seq![],
            }),
        ),
{
    let st = make_state(squares, bag, first_color, ply, no_progress);
    let feat = Feat::from_bits(features);
    let ghost q = Request {
        pos: st@,
        node_budget,
        contempt,
        quiesce: quiesce_on,
        max_depth: max_depth as int,
        w_mob,
        w_king,
        values: values@,
        time_ms,
        feat,
        rep_history: seq![],
    };
    let cfg = Cfg {
        contempt,
        root: st.mover_color(),
        quiesce: quiesce_on,
        quiesce_max: QUIESCE_MAX,
        w_mob,
        w_king,
        values: to_values(&values),
        feat,
    };
    assert(cfg@ == q.params());
    let mut ctx: Ctx<S> = Ctx::new(
        node_budget,
        time_ms,
        max_depth,
        if feat.tt {
            TT_SIZE
        } else {
            0
        },
    );
    let mut mv: Vec<(u8, u8)> = Vec::new();
    st.legal_moves(&mut mv);
    if mv.len() == 0 {
        return Vec::new();
    }
    if feat.rep {
        let key = zkey(&ctx.zobrist, &st);
        ctx.path.push(key);
        assert(ctx.path@ =~= seq![key] + seq![]);
    }
    assert(ctx@ =~= q.memory());
    let ghost p = st@;
    let ghost c = cfg@;
    let mut rows: Vec<((u8, u8), S)> = Vec::new();
    let mut reached: i32 = 0;
    let mut hint: Option<(u8, u8)> = None;
    let mut depth: i32 = 1;
    let mut over: bool = false;
    let ghost mut last: int = 0;
    assert(rows@ =~= seq![]);
    while depth <= max_depth && !over
        invariant
            1 <= depth,
            max_depth < i32::MAX,
            depth <= positive(max_depth as int) + 1,
            p == st@,
            c == cfg@,
            q.pos == p,
            q.params() == c,
            q.node_budget == ctx.budget,
            q.time_ms == ctx.time_limit_ms,
            cfg.quiesce_max == QUIESCE_MAX,
            st.no_progress < u32::MAX,
            ctx.wf(cfg.feat),
            room_for(&st, positive(max_depth as int) + positive(QUIESCE_MAX as int)),
            0 <= last <= positive(max_depth as int),
            rows@ == q.tabled(last).rows,
            reached == q.tabled(last).depth,
            !over ==> {
                let g = q.tabled(depth - 1);
                &&& last == depth - 1
                &&& ctx.nodes <= ctx.budget
                &&& !g.done
                &&& g.hint == hint
                &&& g.mem == ctx@
                &&& g.mv == mv@
                &&& mv@.len() > 0
                &&& mv@.to_multiset() == all_moves(p).to_multiset()
            },
            over ==> {
                let g = q.tabled(depth - 1);
                &&& 2 <= depth
                &&& depth - 1 <= max_depth
                &&& last == depth - 2
                &&& {
                    ||| g.done && g.rows == rows@ && g.depth == reached
                    ||| ctx.time_limit_ms > 0 && q.table_slow_after(last)
                }
            },
        decreases max_depth - depth + 1,
    {
        proof {
            lemma_all_legal(p, mv@);
        }
        let mut next = order_moves(&st, &mv, depth, &cfg, &ctx);
        proof {
            lemma_promote_keeps(next@, hint);
        }
        promote(&mut next, hint);
        proof {
            lemma_all_legal(p, next@);
            lemma_rows_grow(p, next@, 0, next@.len() as int, depth as int, c, ctx@);
        }
        mv = next;
        match rows_at(&st, &mv, depth, &cfg, &mut ctx) {
            Ok(this) => {
                rows = rank_rows(&this);
                hint = Some(rows[0].0);
                reached = depth;
                proof {
                    last = depth as int;
                }
            },
            Err(_) => {
                over = true;
            },
        }
        depth = depth + 1;
    }
    proof {
        if over {
            if q.tabled(depth - 1).done {
                lemma_table_done_stays(q, depth - 1, max_depth as int);
            }
        } else if max_depth <= 0 {
            assert(q.tabled(0) == q.tabled(max_depth as int));
        }
    }
    let r = hand_out(&rows, reached);
    assert(r@ =~= table_rows(q.tabled(last)));
    r
}

} // verus!
