//! Search and evaluation over `f64`.
use banqi::analysis::analyze;
use banqi::arith::{Arith, RootArith, RootScore, Score};
use banqi::board::{
    legal_moves, make_state, State, DOWN, EMPTY, NSQ, RES_BLACK, RES_DRAW, RES_ONGOING, RES_RED,
};
use banqi::engine::{
    best_move, best_move_scored_stats, best_move_with_moves, best_move_with_moves_scored_stats,
    negamax_value, search_value,
};
use banqi::eval::Feat;
use banqi::fen::state_from_fen;
use banqi::mcts::{mcts_move, Tree};
use banqi::protocol::{answer, search_best, search_info_line, Action, Session, FEATURES};
use banqi::rng::Rng;
use banqi::root::{best_at_depth, root_value_at_depth, SearchStats};
use banqi::search::{flip_value, negamax, out_of_time, Cfg, Ctx};
use banqi::table::root_move_values;
use banqi::uci::move_to_uci;
use banqi::zobrist::zkey_for;

#[derive(Clone, Copy, Debug, PartialEq, PartialOrd)]
struct R(f64);

impl Arith for R {
    fn ratio_of(num: i64, den: i64) -> Self {
        R(num as f64 / den as f64)
    }
    fn sum_of(a: Self, b: Self) -> Self {
        R(a.0 + b.0)
    }
    fn difference_of(a: Self, b: Self) -> Self {
        R(a.0 - b.0)
    }
    fn product_of(a: Self, b: Self) -> Self {
        R(a.0 * b.0)
    }
    fn quotient_of(a: Self, b: Self) -> Self {
        R(a.0 / b.0)
    }
    fn negation_of(a: Self) -> Self {
        R(-a.0)
    }
    fn is_less(a: Self, b: Self) -> bool {
        a.0 < b.0
    }
    fn is_at_most(a: Self, b: Self) -> bool {
        a.0 <= b.0
    }
    fn is_same(a: Self, b: Self) -> bool {
        a.0 == b.0
    }
    fn tanh_of(a: Self) -> Self {
        R(a.0.tanh())
    }
    fn lowest_of() -> Self {
        R(f64::NEG_INFINITY)
    }
    fn milli_of(a: Self) -> i64 {
        (a.0.clamp(-1.0, 1.0) * 1000.0).round() as i64
    }
}

impl Score for R {
    fn ratio(num: i64, den: i64) -> Self {
        R::ratio_of(num, den)
    }
    fn plus(self, b: Self) -> Self {
        R::sum_of(self, b)
    }
    fn minus(self, b: Self) -> Self {
        R::difference_of(self, b)
    }
    fn times(self, b: Self) -> Self {
        R::product_of(self, b)
    }
    fn over(self, b: Self) -> Self {
        R::quotient_of(self, b)
    }
    fn negated(self) -> Self {
        R::negation_of(self)
    }
    fn less(self, b: Self) -> bool {
        R::is_less(self, b)
    }
    fn at_most(self, b: Self) -> bool {
        R::is_at_most(self, b)
    }
    fn same(self, b: Self) -> bool {
        R::is_same(self, b)
    }
    fn tanh(self) -> Self {
        R::tanh_of(self)
    }
    fn lowest() -> Self {
        R::lowest_of()
    }
    fn milli(self) -> i64 {
        R::milli_of(self)
    }
}

impl RootArith for R {
    fn ln_of(a: Self) -> Self {
        R(a.0.ln())
    }
    fn sqrt_of(a: Self) -> Self {
        R(a.0.sqrt())
    }
}

impl RootScore for R {
    fn ln(self) -> Self {
        R::ln_of(self)
    }
    fn sqrt(self) -> Self {
        R::sqrt_of(self)
    }
}

const V: [R; 7] = [R(30.0), R(14.0), R(11.0), R(9.0), R(7.0), R(16.0), R(4.0)];

const CLOSE: f64 = 1e-12;

fn idx(file: usize, rank0: usize) -> usize {
    file + rank0 * 8
}

fn board(pieces: &[(usize, i16)]) -> Vec<i16> {
    let mut sq = vec![EMPTY; NSQ];
    for &(i, c) in pieces {
        sq[i] = c;
    }
    sq
}

/// The full opening deal: 32 face-down tiles, colors unbound.
fn opening_deal() -> (Vec<i16>, Vec<u32>) {
    let mut bag = vec![0u32; 14];
    for c in 0..2 {
        let b = c * 7;
        bag[b] = 1;
        bag[b + 1] = 2;
        bag[b + 2] = 2;
        bag[b + 3] = 2;
        bag[b + 4] = 2;
        bag[b + 5] = 2;
        bag[b + 6] = 5;
    }
    (vec![-2i16; 32], bag)
}

// ---------------------------------------------------------------- best moves

#[test]
fn best_move_is_always_a_legal_move() {
    // Red general d2, black soldier e2 (adjacent). A general can't capture a soldier, so it must
    // step to an empty square: whatever it picks must be a legal move.
    let mut sq = vec![-1i16; 32];
    sq[idx(3, 1)] = 0;
    sq[idx(4, 1)] = 1 * 7 + 6;
    let bag = vec![0u32; 14];
    let mv = best_move(
        sq.clone(),
        bag.clone(),
        0,
        0,
        0,
        100_000,
        R(0.1),
        true,
        12,
        R(0.8),
        R(0.0),
        V.to_vec(),
        0,
        0,
        vec![],
    );
    let legal = legal_moves(sq, bag, 0, 0, 0);
    assert!(legal.contains(&mv), "best_move {mv:?} not in legal set {legal:?}");
}

#[test]
fn wiped_out_waiting_side_is_an_immediate_win() {
    let mut sq = vec![-1i16; 32];
    sq[idx(3, 1)] = 0;
    let v = search_value(
        sq,
        vec![0u32; 14],
        0,
        0,
        0,
        100_000,
        true,
        8,
        R(0.8),
        R(0.0),
        V.to_vec(),
    );
    assert_eq!(v.0, 1.0, "opponent wiped out with no flips left → win adjudicated immediately");
}

#[test]
fn wiped_out_waiting_side_ends_at_once() {
    const BLACK_GENERAL: i16 = 7;
    const BLACK_SOLDIER: i16 = 13;
    const RED_GENERAL: i16 = 0;
    // Black to move on a fully revealed, all-black board: red can never act again.
    let squares = board(&[(0, BLACK_GENERAL), (31, BLACK_SOLDIER)]);
    let st = make_state(squares, vec![], 0, 1, 0);
    let mut probe = Vec::new();
    st.legal_moves(&mut probe);
    assert!(!probe.is_empty());
    let mut mv = Vec::new();
    assert_eq!(st.result(&mut mv), RES_BLACK);

    // A lone face-down tile keeps red potentially alive.
    let sq2 = board(&[(0, BLACK_GENERAL), (31, DOWN)]);
    let st2 = make_state(sq2, vec![], 0, 1, 0);
    let mut mv2 = Vec::new();
    assert_eq!(st2.result(&mut mv2), RES_ONGOING);

    // Red still has a piece on a fully revealed board.
    let sq3 = board(&[(0, BLACK_GENERAL), (16, RED_GENERAL)]);
    let st3 = make_state(sq3, vec![], 0, 1, 0);
    let mut mv3 = Vec::new();
    assert_eq!(st3.result(&mut mv3), RES_ONGOING);
}

#[test]
fn search_info_reports_real_consumption_not_the_budget() {
    let (sq, bag) = opening_deal();
    let budget = 200_000u64;
    let ((frm, to), score, stats) = best_move_scored_stats(
        sq,
        bag,
        -1,
        0,
        0,
        budget,
        R(0.1),
        true,
        24,
        R(0.8),
        R(28.0),
        V.to_vec(),
        0,
        FEATURES,
        vec![],
    );
    assert!(stats.nodes > budget / 2, "{} nodes", stats.nodes);
    assert!(stats.nodes <= budget + 1, "{} nodes", stats.nodes);
    assert!(stats.depth >= 1, "depth {} — at least one iteration completes", stats.depth);
    let cp = (score.0.clamp(-1.0, 1.0) * 1000.0).round() as i64;
    let line = search_info_line(&stats, 123, cp, &move_to_uci((frm, to)));
    assert!(
        line.starts_with(&format!("info depth {} nodes {} nps ", stats.depth, stats.nodes)),
        "{line}"
    );
    assert!(line.contains(&format!(" time 123 score cp {cp} pv ")), "{line}");
}

#[test]
fn a_bigger_budget_is_actually_spent() {
    let (sq, bag) = opening_deal();
    let run = |budget: u64| {
        best_move_scored_stats(
            sq.clone(),
            bag.clone(),
            -1,
            0,
            0,
            budget,
            R(0.1),
            true,
            24,
            R(0.8),
            R(28.0),
            V.to_vec(),
            0,
            FEATURES,
            vec![],
        )
        .2
        .nodes
    };
    let small = run(50_000);
    let large = run(400_000);
    assert!(large > small * 2, "{small} -> {large} nodes as the budget grew 8x");
}

#[test]
fn search_info_omits_fields_the_search_did_not_produce() {
    let stats = SearchStats { nodes: 7, depth: 0 };
    assert_eq!(
        search_info_line(&stats, 0, -12, "d2e2"),
        "info nodes 7 time 0 score cp -12 pv d2e2"
    );
}

#[test]
fn search_info_writes_every_field() {
    let stats = SearchStats { nodes: 1500, depth: 6 };
    assert_eq!(
        search_info_line(&stats, 20, 314, "a0a1"),
        "info depth 6 nodes 1500 nps 75000 time 20 score cp 314 pv a0a1"
    );
    let many = SearchStats { nodes: u64::MAX, depth: 1 };
    assert_eq!(
        search_info_line(&many, 1, 0, "a0a1"),
        format!("info depth 1 nodes {} nps {} time 1 score cp 0 pv a0a1", u64::MAX, u64::MAX)
    );
}

#[test]
fn no_move_is_answered_with_255() {
    // Red to move with nothing to move.
    let sq = board(&[(0, 7)]);
    let m = best_move(
        sq.clone(),
        vec![],
        0,
        0,
        0,
        1000,
        R(0.1),
        true,
        4,
        R(0.8),
        R(0.0),
        V.to_vec(),
        0,
        0,
        vec![],
    );
    assert_eq!(m, (255, 255));
    let (m2, v, stats) = best_move_scored_stats(
        sq,
        vec![],
        0,
        0,
        0,
        1000,
        R(0.1),
        true,
        4,
        R(0.8),
        R(0.0),
        V.to_vec(),
        0,
        0,
        vec![],
    );
    assert_eq!(m2, (255, 255));
    assert_eq!(v.0, 0.0);
    assert_eq!(stats.nodes, 0);
    assert_eq!(stats.depth, 0);
}

#[test]
fn a_winning_capture_is_found() {
    // Red soldier a0 beside the lone black general b0.
    let sq = board(&[(0, 6), (1, 7)]);
    let (m, v, stats) = best_move_scored_stats(
        sq,
        vec![],
        0,
        0,
        0,
        10_000,
        R(0.1),
        true,
        3,
        R(0.8),
        R(0.0),
        V.to_vec(),
        0,
        0,
        vec![],
    );
    assert_eq!(m, (0, 1));
    assert_eq!(v.0, 1.0);
    assert_eq!(stats.depth, 3);
}

#[test]
fn a_time_limit_stops_the_search() {
    let (sq, bag) = opening_deal();
    let (m, _, stats) = best_move_scored_stats(
        sq.clone(),
        bag.clone(),
        -1,
        0,
        0,
        u64::MAX,
        R(0.1),
        true,
        24,
        R(0.8),
        R(28.0),
        V.to_vec(),
        50,
        FEATURES,
        vec![],
    );
    assert!(legal_moves(sq, bag, -1, 0, 0).contains(&m));
    assert!(stats.depth < 24);
    assert_eq!(stats.nodes % 1024, 0);
}

// ---------------------------------------------------------------- repetitions

#[test]
fn an_empty_window_changes_nothing() {
    let sq = board(&[(0, 0), (9, 13), (20, 8), (30, 5)]);
    let a = best_move_with_moves_scored_stats(
        sq.clone(),
        vec![],
        0,
        3,
        vec![],
        5_000,
        R(0.1),
        true,
        6,
        R(0.8),
        R(28.0),
        V.to_vec(),
        0,
        FEATURES,
    );
    let b = best_move_scored_stats(
        sq.clone(),
        vec![],
        0,
        0,
        3,
        5_000,
        R(0.1),
        true,
        6,
        R(0.8),
        R(28.0),
        V.to_vec(),
        0,
        FEATURES,
        vec![],
    );
    assert_eq!(a.0, b.0);
    assert_eq!(a.1, b.1);
    assert_eq!(a.2.nodes, b.2.nodes);
    assert_eq!(a.2.depth, b.2.depth);
    let c = best_move_with_moves(
        sq,
        vec![],
        0,
        3,
        vec![],
        5_000,
        R(0.1),
        true,
        6,
        R(0.8),
        R(28.0),
        V.to_vec(),
        0,
        FEATURES,
    );
    assert_eq!(c, a.0);
}

#[test]
fn a_window_is_replayed() {
    // After two quiet moves each, the position is the first one again.
    let sq = board(&[(0, 1), (31, 8), (16, 2), (23, 9)]);
    let window = vec![(0, 1), (31, 30), (1, 0), (30, 31)];
    let a = best_move_with_moves_scored_stats(
        sq.clone(),
        vec![],
        0,
        0,
        window,
        3_000,
        R(0.1),
        true,
        5,
        R(0.8),
        R(0.0),
        V.to_vec(),
        0,
        8,
    );
    let mut keys = Vec::new();
    let mut st = make_state(sq.clone(), vec![], 0, 0, 0);
    for &(f, t) in &[(0u8, 1u8), (31, 30), (1, 0), (30, 31)] {
        keys.push(zkey_for(st.sq.to_vec(), st.bag.to_vec(), st.first_color, st.ply));
        st.push(f, t, -1);
    }
    let b = best_move_scored_stats(
        sq,
        vec![],
        0,
        4,
        4,
        3_000,
        R(0.1),
        true,
        5,
        R(0.8),
        R(0.0),
        V.to_vec(),
        0,
        8,
        keys,
    );
    assert_eq!(a.0, b.0);
    assert_eq!(a.1, b.1);
    assert_eq!(a.2.nodes, b.2.nodes);
}

#[test]
fn a_repeated_position_is_worth_a_draw() {
    // Red's only move leads to a position of the history: one ply deep it is worth minus the
    // contempt, and without that history it is worth something else.
    let sq = board(&[(0, 0), (8, 6), (31, 7)]);
    let legal = legal_moves(sq.clone(), vec![], 0, 0, 0);
    let mut keys = Vec::new();
    for &(f, t) in &legal {
        let mut st = make_state(sq.clone(), vec![], 0, 0, 0);
        st.push(f, t, -1);
        keys.push(zkey_for(st.sq.to_vec(), st.bag.to_vec(), st.first_color, st.ply));
    }
    let run = |history: Vec<u64>| {
        best_move_scored_stats(
            sq.clone(),
            vec![],
            0,
            0,
            0,
            100_000,
            R(0.25),
            true,
            2,
            R(0.8),
            R(0.0),
            V.to_vec(),
            0,
            8,
            history,
        )
        .1
        .0
    };
    assert_eq!(run(keys), -0.25);
    assert!(run(vec![]) > 0.0);
}

// ---------------------------------------------------------------- exactness

/// The value without pruning.
fn brute(st: &State, depth: i32) -> f64 {
    let mut mv = Vec::new();
    let res = st.result(&mut mv);
    let mc = st.mover_color();
    if res != RES_ONGOING {
        if res == RES_DRAW {
            return 0.0;
        }
        let winner = if res == RES_RED { 0 } else { 1 };
        return if winner == mc { 1.0 } else { -1.0 };
    }
    if depth <= 0 {
        return st.eval(mc, R(0.8), R(0.0), &V_BASE, &Feat::none()).0;
    }
    let mut best = f64::NEG_INFINITY;
    for &(f, t) in &mv {
        let v = if f == t {
            let total: u32 = st.bag.iter().sum();
            let mut sum = 0.0;
            for code in 0..14 {
                if st.bag[code] > 0 {
                    let mut child = *st;
                    child.push(f, t, code as i16);
                    sum += st.bag[code] as f64 / total as f64 * -brute(&child, depth - 1);
                }
            }
            sum
        } else {
            let mut child = *st;
            child.push(f, t, 0);
            -brute(&child, depth - 1)
        };
        if v > best {
            best = v;
        }
    }
    best
}

const V_BASE: [R; 7] = [R(30.0), R(10.0), R(10.0), R(14.0), R(8.0), R(12.0), R(4.0)];

#[test]
fn pruning_changes_nothing() {
    let mut bag = vec![0u32; 14];
    bag[6] = 1;
    bag[12] = 2;
    bag[7] = 1;
    let mut sq = board(&[(0, 0), (9, 13), (10, 5), (12, 9), (20, 3)]);
    for i in [4usize, 17, 25, 31] {
        sq[i] = DOWN;
    }
    let st = make_state(sq.clone(), bag.clone(), 0, 0, 0);
    for depth in 0..4 {
        let want = brute(&st, depth);
        let got: R = negamax_value(sq.clone(), bag.clone(), 0, 0, 0, depth);
        assert!((got.0 - want).abs() < CLOSE, "depth {depth}: {} and {want}", got.0);
    }
}

#[test]
fn values_stay_between_a_loss_and_a_win() {
    let (sq, bag) = opening_deal();
    let rows = root_move_values(
        sq,
        bag,
        -1,
        0,
        0,
        20_000,
        R(0.1),
        true,
        24,
        R(0.8),
        R(28.0),
        V.to_vec(),
        0,
        FEATURES,
    );
    assert_eq!(rows.len(), 32);
    for r in rows {
        assert!(-1.0 <= r.2 .0 && r.2 .0 <= 1.0);
    }
}

#[test]
fn the_table_lists_every_move_once_and_the_best_first() {
    let sq = board(&[(0, 0), (9, 13), (10, 5), (12, 9), (20, 3)]);
    let rows = root_move_values(
        sq.clone(),
        vec![],
        0,
        0,
        0,
        50_000,
        R(0.1),
        true,
        3,
        R(0.8),
        R(28.0),
        V.to_vec(),
        0,
        0,
    );
    let mut listed: Vec<(u8, u8)> = rows.iter().map(|r| (r.0, r.1)).collect();
    let mut legal = legal_moves(sq.clone(), vec![], 0, 0, 0);
    listed.sort();
    legal.sort();
    assert_eq!(listed, legal);
    for w in rows.windows(2) {
        assert!(w[0].2 .0 >= w[1].2 .0);
    }
    assert!(rows.iter().all(|r| r.3 == 3));
    let (m, v, _) = best_move_scored_stats(
        sq,
        vec![],
        0,
        0,
        0,
        50_000,
        R(0.1),
        true,
        3,
        R(0.8),
        R(28.0),
        V.to_vec(),
        0,
        0,
        vec![],
    );
    assert_eq!(v, rows[0].2);
    let row = rows.iter().find(|r| (r.0, r.1) == m).expect("listed");
    assert_eq!(row.2, v);
}

#[test]
fn a_losing_capture_is_not_preferred_to_a_draw() {
    // Red advisor takes a horse that a black advisor retakes.
    let guard = 512;
    let sq = board(&[(9, 1), (10, 11), (18, 8), (31, 6), (7, 13), (24, 4)]);
    let run = |features: u32| {
        best_move_scored_stats(
            sq.clone(),
            vec![],
            0,
            0,
            0,
            100_000,
            R(0.1),
            false,
            1,
            R(0.8),
            R(0.0),
            V.to_vec(),
            0,
            features,
            vec![],
        )
    };
    let (m, v, _) = run(0);
    assert_eq!(m, (9, 10));
    assert!(v.0 > -0.101 && v.0 < 0.3, "{}", v.0);
    let (m, _, _) = run(guard);
    assert_ne!(m, (9, 10));
}

fn config(feat: Feat) -> Cfg<R> {
    Cfg {
        contempt: R(0.0),
        root: -1,
        quiesce: false,
        quiesce_max: 8,
        w_mob: R(0.8),
        w_king: R(0.0),
        values: V_BASE,
        feat,
    }
}

#[test]
fn no_bits_switch_nothing_on() {
    let a = Feat::from_bits(0);
    let on = [
        a.ordering,
        a.tt,
        a.lmr,
        a.rep,
        a.cover_mat,
        a.king_ctx,
        a.vmob,
        a.dom_val,
        a.gen_danger,
        a.no_draw_sac,
    ];
    assert!(on.iter().all(|&b| !b));
    let b = Feat::from_bits(FEATURES);
    assert!(b.tt && b.rep && b.cover_mat && b.king_ctx && b.vmob && b.dom_val);
    assert!(b.gen_danger && b.no_draw_sac && !b.ordering && !b.lmr);
}

#[test]
fn the_order_of_moves_changes_no_value() {
    let mut bag = vec![0u32; 14];
    bag[6] = 1;
    bag[7] = 1;
    let mut sq = board(&[(0, 0), (9, 13), (10, 5), (12, 9), (20, 3)]);
    sq[4] = DOWN;
    sq[17] = DOWN;
    let st = make_state(sq, bag, 0, 0, 0);
    let value = |features: u32, depth: i32| {
        let mut ctx = Ctx::new(u64::MAX, 0, depth, 0);
        negamax(&st, depth, R(-2.0), R(2.0), &config(Feat::from_bits(features)), &mut ctx)
            .expect("no limit")
            .0
    };
    for depth in 1..4 {
        assert!((value(0, depth) - value(1, depth)).abs() < CLOSE);
    }
}

#[test]
fn recorded_bounds_are_sound() {
    let sq = board(&[(0, 0), (9, 13), (10, 5), (12, 9), (20, 3)]);
    let st = make_state(sq.clone(), vec![], 0, 0, 0);
    let key = zkey_for(sq, vec![], 0, 0);
    let want = brute(&st, 1);
    for (alpha, beta, flag) in [(-1.0, 1.0, 1u8), (-1.0, -0.9, 2), (0.99, 1.0, 3)] {
        let mut ctx = Ctx::new(u64::MAX, 0, 1, 1024);
        let v = negamax(&st, 1, R(alpha), R(beta), &config(Feat::from_bits(2)), &mut ctx)
            .expect("no limit");
        let e = &ctx.tt[(key % 1024) as usize];
        assert_eq!(e.key, key);
        assert_eq!(e.depth, 1);
        assert_eq!(e.flag, flag);
        assert_eq!(e.value, v);
        match flag {
            1 => assert!((v.0 - want).abs() < CLOSE),
            2 => assert!(v.0 <= want + CLOSE),
            _ => assert!(v.0 >= want - CLOSE),
        }
    }
}

#[test]
fn a_search_leaves_the_path_as_it_found_it() {
    let st = make_state(board(&[(0, 0), (9, 13), (20, 3)]), vec![], 0, 0, 0);
    let mut ctx = Ctx::new(u64::MAX, 0, 3, 0);
    ctx.path.push(7);
    negamax(&st, 3, R(-2.0), R(2.0), &config(Feat::from_bits(8)), &mut ctx).expect("no limit");
    assert_eq!(ctx.path, vec![7]);
    assert!(ctx.nodes > 0);
}

#[test]
fn time_is_up_at_the_limit_only() {
    assert!(out_of_time(50, 50, 1024));
    assert!(out_of_time(51, 50, 2048));
    assert!(!out_of_time(49, 50, 1024));
    assert!(!out_of_time(51, 50, 1023));
    assert!(!out_of_time(51, 0, 1024));
    assert!(out_of_time(u128::MAX, u64::MAX, 0));
}

#[test]
fn a_search_without_a_limit_reads_no_clock() {
    let free: Ctx<R> = Ctx::new(10, 0, 3, 0);
    assert!(free.start.is_none());
    let timed: Ctx<R> = Ctx::new(10, 1, 3, 0);
    assert!(timed.start.is_some());
}

#[test]
fn a_node_is_refused_by_budget_or_time_alone() {
    let count = |nodes: u64, budget: u64, limit: u64, elapsed: u128| {
        let mut ctx: Ctx<R> = Ctx::new(budget, limit, 3, 0);
        ctx.nodes = nodes;
        let r = ctx.tick_at(elapsed);
        (r.is_ok(), ctx.nodes)
    };
    assert_eq!(count(9, 10, 0, 0), (true, 10));
    assert_eq!(count(10, 10, 0, 0), (false, 11));
    assert_eq!(count(1023, 5000, 50, 49), (true, 1024));
    assert_eq!(count(1023, 5000, 50, 50), (false, 1024));
    assert_eq!(count(1022, 5000, 50, 99), (true, 1023));
    assert_eq!(count(1023, 5000, 0, 99), (true, 1024));
    assert_eq!(count(u64::MAX, u64::MAX, 0, 0), (false, u64::MAX));
}

#[test]
fn a_flip_is_worth_its_average() {
    let mut bag = vec![0u32; 14];
    bag[6] = 1;
    bag[7] = 2;
    let mut sq = board(&[(0, 0), (9, 13), (10, 5)]);
    for i in [4usize, 17, 25] {
        sq[i] = DOWN;
    }
    let st = make_state(sq, bag, 0, 0, 0);
    let mut want = 0.0;
    for (code, p) in [(6i16, 1.0 / 3.0), (7, 2.0 / 3.0)] {
        let mut child = st;
        child.push(17, 17, code);
        want -= p * brute(&child, 1);
    }
    let value = |alpha: f64, beta: f64| {
        let mut ctx = Ctx::new(u64::MAX, 0, 2, 0);
        flip_value(&st, (17, 17), 2, R(alpha), R(beta), &config(Feat::none()), &mut ctx)
            .expect("no limit")
            .0
    };
    assert!((value(-1.0, 1.0) - want).abs() < CLOSE);
    assert!(value(want + 0.1, 1.0) <= want + 0.1);
    assert!(value(-1.0, want - 0.1) >= want - 0.1);
    assert_eq!(value(5.0, 6.0), 5.0);
}

#[test]
fn the_best_move_and_its_value_belong_together() {
    let st = make_state(board(&[(0, 0), (9, 13), (10, 5), (12, 9)]), vec![], 0, 0, 0);
    for (budget, depth) in [(u64::MAX, 1), (u64::MAX, 3), (20, 3)] {
        for hint in [None, Some((0, 1)), Some((31, 31))] {
            let mut a = Ctx::new(budget, 0, depth, 0);
            let mut b = Ctx::new(budget, 0, depth, 0);
            let best = best_at_depth(&st, depth, &config(Feat::none()), &mut a, hint);
            let value = root_value_at_depth(&st, depth, &config(Feat::none()), &mut b, hint);
            assert_eq!(best, value.map(|v| v.map(|x| x.0)));
            assert_eq!(a.nodes, b.nodes);
        }
        let run = |hint: Option<(u8, u8)>| {
            let mut ctx = Ctx::new(budget, 0, depth, 0);
            root_value_at_depth(&st, depth, &config(Feat::none()), &mut ctx, hint)
        };
        assert_eq!(run(None), run(Some((31, 31))));
    }
    let none = make_state(board(&[(0, 7)]), vec![], 0, 0, 0);
    let mut ctx = Ctx::new(u64::MAX, 0, 1, 0);
    assert_eq!(root_value_at_depth(&none, 1, &config(Feat::none()), &mut ctx, None), Ok(None));
}

#[test]
fn the_opening_spends_its_budget() {
    let p = state_from_fen("XXXXXXXX/XXXXXXXX/XXXXXXXX/XXXXXXXX - G1A2E2R2H2C2S5g1a2e2r2h2c2s5 0 1")
        .expect("position");
    let stats = |budget: u64| search_best::<R>(&p, &[], 0, budget).2;
    let middle = stats(200_000);
    assert!(100_000 < middle.nodes && middle.nodes <= 200_001);
    assert!(middle.depth >= 1);
    assert!(stats(400_000).nodes > 2 * stats(50_000).nodes);
}

#[test]
fn a_budget_stops_a_search_one_node_later() {
    let st = make_state(board(&[(0, 0), (9, 13), (20, 3)]), vec![], 0, 0, 0);
    let mut ctx = Ctx::new(10, 0, 3, 0);
    assert!(negamax(&st, 3, R(-2.0), R(2.0), &config(Feat::none()), &mut ctx).is_err());
    assert_eq!(ctx.nodes, 11);
}

// ---------------------------------------------------------------- evaluation

#[test]
fn evaluation_of_two_pieces() {
    // Red chariot in a corner (two moves), black soldier in the middle (four moves).
    let st = make_state(board(&[(0, 3), (12, 13)]), vec![], 0, 0, 0);
    let e = st.eval(0, R(0.8), R(0.0), &V, &Feat::none()).0;
    let want = ((9.0 - 4.0 + 0.8 * (2.0 - 4.0)) / 60.0f64).tanh();
    assert!((e - want).abs() < CLOSE, "{e} and {want}");
    let other = st.eval(1, R(0.8), R(0.0), &V, &Feat::none()).0;
    assert!((e + other).abs() < CLOSE);
    assert_eq!(st.eval(-1, R(0.8), R(0.0), &V, &Feat::none()).0, 0.0);
}

#[test]
fn a_flip_creates_no_material() {
    let mut bag = vec![0u32; 14];
    bag[0] = 1;
    bag[13] = 2;
    let mut sq = board(&[(12, 13), (20, 5)]);
    for i in [0usize, 1, 2] {
        sq[i] = DOWN;
    }
    let st = make_state(sq, bag, 0, 0, 0);
    let full = |s: &State| s.material(0, &V).0 + s.covered_material(0, &V).0 + s.king_ctx_term::<R>(0).0;
    let before = full(&st);
    assert_eq!(before, 16.0 - 4.0 + 30.0 - 8.0 + 0.2);
    for code in [0i16, 13] {
        let mut child = st;
        child.push(1, 1, code);
        assert!((full(&child) - before).abs() < CLOSE);
    }
}

#[test]
fn only_captures_change_material() {
    let mut bag = vec![0u32; 14];
    bag[0] = 1;
    bag[13] = 2;
    let mut sq = board(&[(12, 13), (20, 3), (21, 9)]);
    for i in [0usize, 1, 2] {
        sq[i] = DOWN;
    }
    let st = make_state(sq, bag, 0, 0, 0);
    let full = |s: &State, persp: i16| s.material(persp, &V).0 + s.covered_material(persp, &V).0;
    let after = |f: u8, t: u8, c: i16| {
        let mut s = st;
        s.push(f, t, c);
        s
    };
    for persp in 0..2 {
        let before = full(&st, persp);
        assert_eq!(full(&after(0, 0, 13), persp), before);
        assert_eq!(full(&after(0, 0, 0), persp), before);
        assert_eq!(full(&after(20, 28, 0), persp), before);
        // The red chariot takes the black soldier.
        let gain = if persp == 0 { 4.0 } else { -4.0 };
        assert_eq!(full(&after(20, 12, 0), persp), before + gain);
    }
}

#[test]
fn a_hidden_neighbour_of_the_general_weighs_most() {
    let danger = |c: i16, color: i16| {
        let d: R = make_state(board(&[(11, 0), (12, c)]), vec![], 0, 0, 0).king_danger(color);
        d.0
    };
    assert!(danger(DOWN, 0) > danger(13, 0));
    assert!(danger(13, 0) > 0.0);
    assert_eq!(danger(6, 0), 0.0);
    assert_eq!(danger(DOWN, 1), 0.0);
    assert_eq!(danger(DOWN, 0), 2.0);
    assert_eq!(danger(13, 0), 1.0);
}

#[test]
fn unbound_and_weightless_evaluations() {
    let st = make_state(board(&[(11, 0), (12, 13), (30, 7)]), vec![], 0, 0, 0);
    for features in 0..1024 {
        let f = Feat::from_bits(features);
        assert_eq!(st.eval(-1, R(0.8), R(28.0), &V, &f).0, 0.0);
        let with = Feat::from_bits(features | 256);
        let without = Feat::from_bits(features & !256);
        assert_eq!(
            st.eval(0, R(0.8), R(0.0), &V, &with).0,
            st.eval(0, R(0.8), R(0.0), &V, &without).0
        );
    }
}

// ---------------------------------------------------------------- tree search

fn sampled(seed: u64, sims: u32, depth: i32, leaf: i32) -> (u8, u8) {
    let mut bag = vec![0u32; 14];
    bag[0] = 1;
    bag[13] = 2;
    let mut sq = board(&[(12, 13), (20, 5), (27, 9)]);
    for i in [0usize, 1, 2] {
        sq[i] = DOWN;
    }
    mcts_move(
        sq,
        bag,
        0,
        0,
        0,
        sims,
        R(0.7),
        depth,
        leaf,
        seed,
        R(0.8),
        R(0.0),
        V.to_vec(),
    )
}

#[test]
fn tree_search_is_fixed_by_its_seed() {
    for seed in 0..4 {
        assert_eq!(sampled(seed, 200, 8, 0), sampled(seed, 200, 8, 0));
        assert_eq!(sampled(seed, 50, 4, 1), sampled(seed, 50, 4, 1));
    }
}

#[test]
fn simulations_draw_from_the_bag_and_add_up() {
    let (sq, bag) = opening_deal();
    let st = make_state(sq, bag.clone(), -1, 0, 0);
    let mut tree = Tree { nodes: Vec::new(), cfg: config(Feat::none()), c_uct: R(0.7), leaf_depth: 0 };
    let root = tree.new_node(st);
    let mut rng = Rng(42);
    let mut shadow = Rng(42);
    tree.simulate(root, 3, &mut rng);
    let mut pick = shadow.below(32);
    let mut code = 0;
    while pick >= bag[code] {
        pick -= bag[code];
        code += 1;
    }
    assert_eq!(tree.nodes[0].edges.len(), 1);
    assert_eq!(tree.nodes[0].edges[0].action, (0, 0));
    assert_eq!(tree.nodes[0].edges[0].kids, vec![(code as i16, 1)]);
    assert_eq!(tree.nodes[1].state.sq[0], code as i16);
    assert_eq!(tree.nodes[1].state.sq[31], DOWN);
    for _ in 1..500 {
        tree.simulate(root, 3, &mut rng);
    }
    assert_eq!(tree.nodes[0].n, 500);
    assert_eq!(tree.nodes[0].edges.len(), 32);
    assert_eq!(tree.nodes[0].edges.iter().map(|e| e.n).sum::<u32>(), 500);
    for e in &tree.nodes[0].edges {
        assert!(e.w.0.abs() <= e.n as f64);
        for &(c, k) in &e.kids {
            assert!(bag[c as usize] > 0);
            assert_eq!(tree.nodes[k].state.ply, 1);
        }
    }
}

#[test]
fn tree_search_tries_promising_actions_first() {
    // Red general a0 beside a black advisor on b0: the capture comes first.
    let sq = board(&[(0, 0), (1, 8)]);
    let run = |sims: u32| {
        mcts_move(
            sq.clone(),
            vec![0; 14],
            0,
            0,
            0,
            sims,
            R(1.0),
            4,
            0,
            1,
            R(0.8),
            R(0.0),
            vec![],
        )
    };
    assert_eq!(run(1), (0, 1));
    let st = make_state(sq.clone(), vec![], 0, 0, 0);
    let mut tree = Tree { nodes: Vec::new(), cfg: config(Feat::none()), c_uct: R(1.0), leaf_depth: 0 };
    let root = tree.new_node(st);
    let mut rng = Rng(1);
    tree.simulate(root, 4, &mut rng);
    tree.simulate(root, 4, &mut rng);
    let tried: Vec<(u8, u8)> = tree.nodes[0].edges.iter().map(|e| e.action).collect();
    assert_eq!(tried, vec![(0, 1), (0, 8)]);
}

#[test]
fn a_simulation_credits_one_branch() {
    let sq = board(&[(0, 0), (1, 8), (20, 5), (27, 9)]);
    let st = make_state(sq.clone(), vec![], 0, 0, 0);
    let mut tree = Tree { nodes: Vec::new(), cfg: config(Feat::none()), c_uct: R(0.7), leaf_depth: 0 };
    let root = tree.new_node(st);
    let mut legal = legal_moves(sq, vec![], 0, 0, 0);
    legal.sort();
    let mut rng = Rng(5);
    for k in 1..60u32 {
        let untried = tree.nodes[0].untried.len();
        let before: Vec<(u32, f64)> = tree.nodes[0].edges.iter().map(|e| (e.n, e.w.0)).collect();
        let v = tree.simulate(root, 3, &mut rng).0;
        let now: Vec<(u32, f64)> = tree.nodes[0].edges.iter().map(|e| (e.n, e.w.0)).collect();
        assert_eq!(now.len(), before.len() + if untried > 0 { 1 } else { 0 });
        let mut changed = 0;
        for (j, &(n, w)) in now.iter().enumerate() {
            let (n0, w0) = if j < before.len() { before[j] } else { (0, 0.0) };
            if n != n0 {
                changed += 1;
                assert_eq!(n, n0 + 1);
                assert_eq!(w, w0 + v);
            } else {
                assert_eq!(w, w0);
            }
        }
        assert_eq!(changed, 1);
        assert_eq!(tree.nodes[0].n, k);
        let mut all: Vec<(u8, u8)> = tree.nodes[0].edges.iter().map(|e| e.action).collect();
        all.extend(tree.nodes[0].untried.iter());
        all.sort();
        assert_eq!(all, legal);
    }
    let n = tree.nodes.len();
    tree.simulate(root, 0, &mut rng);
    assert_eq!((tree.nodes.len(), tree.nodes[0].n), (n, 59));
}

#[test]
fn tree_search_without_simulations_has_no_move() {
    assert_eq!(sampled(1, 0, 8, 0), (255, 255));
    assert_eq!(sampled(1, 10, 0, 0), (255, 255));
}

#[test]
fn tree_search_takes_the_general() {
    // Red soldier a0 beside the lone black general b0.
    let m = mcts_move(
        board(&[(0, 6), (1, 7)]),
        vec![],
        0,
        0,
        0,
        300,
        R(0.7),
        10,
        0,
        7,
        R(0.8),
        R(0.0),
        V.to_vec(),
    );
    assert_eq!(m, (0, 1));
    // The game is over.
    let none = mcts_move(
        board(&[(0, 6)]),
        vec![],
        0,
        0,
        0,
        300,
        R(0.7),
        10,
        0,
        7,
        R(0.8),
        R(0.0),
        V.to_vec(),
    );
    assert_eq!(none, (255, 255));
}

// ---------------------------------------------------------------- the protocol

fn say(a: Action) -> Vec<String> {
    match a {
        Action::Say(lines) => lines,
        _ => panic!("lines expected"),
    }
}

#[test]
fn the_protocol_greets() {
    let mut s = Session::new();
    assert_eq!(
        say(s.step("uci")),
        vec!["id name MistyBanqi 0.2.5", "id author Mistboard", "uciok"]
    );
    assert_eq!(say(s.step("  isready  ")), vec!["readyok"]);
    assert!(say(s.step("")).is_empty());
    assert!(say(s.step("stop now")).is_empty());
    assert!(matches!(s.step("quit"), Action::Quit));
}

#[test]
fn the_protocol_searches_a_position() {
    let mut s = Session::new();
    assert_eq!(say(s.step("go nodes 100")), vec!["bestmove (none)"]);
    assert!(say(s.step("position fen 8/8/8/Sg6 r - 0 1")).is_empty());
    assert!(s.can_search());
    let (movetime, nodes) = match s.step("go movetime 0 nodes 2000") {
        Action::Search { movetime, nodes } => (movetime, nodes),
        _ => panic!("a search expected"),
    };
    assert_eq!((movetime, nodes), (0, 2000));
    let (uci, cp, stats) = s.search::<R>(movetime, nodes);
    assert_eq!(uci, "a0b0");
    assert_eq!(cp, 1000);
    assert!(stats.nodes <= 2001);
    let lines = answer(&uci, cp, &stats, 5);
    assert_eq!(lines.len(), 2);
    assert_eq!(lines[0], search_info_line(&stats, 5, 1000, "a0b0"));
    assert_eq!(lines[1], "bestmove a0b0");
    assert!(say(s.step("ucinewgame")).is_empty());
    assert_eq!(say(s.step("go")), vec!["bestmove (none)"]);
    assert!(!s.can_search());
}

#[test]
fn the_protocol_reads_limits() {
    let mut s = Session::new();
    s.step("position fen 8/8/8/Sg6 r - 0 1");
    let limits = |a: Action| match a {
        Action::Search { movetime, nodes } => (movetime, nodes),
        _ => panic!("a search expected"),
    };
    assert_eq!(limits(s.step("go")), (1000, 100_000_000));
    assert_eq!(limits(s.step("go nodes 7 movetime 9")), (9, 7));
    assert_eq!(limits(s.step("go movetime x nodes y")), (1000, 100_000_000));
    assert_eq!(limits(s.step("go movetime 5 movetime nodes 3")), (1000, 100_000_000));
    assert_eq!(limits(s.step("go infinite nodes +12 movetime")), (1000, 12));
}

#[test]
fn the_protocol_reads_windows() {
    let mut s = Session::new();
    s.step("position fen R7/8/8/6g1 b - 4 9 moves g0h0 junk a3a2 moves a0a1");
    assert_eq!(s.moves, vec![(6, 7), (24, 16)]);
    let p = s.current.as_ref().expect("position");
    assert_eq!(p.first_color, 1);
    assert_eq!(p.no_progress, 4);
    assert!(s.can_search());
    s.step("position startpos");
    assert_eq!(s.moves.len(), 2);
    s.step("position fen R7/8/8/6g1 b - 4 9 moves g0g0");
    assert!(!s.can_search());
    s.step("position fen nonsense");
    assert!(s.current.is_none());
}

#[test]
fn a_search_without_a_move_reports_none() {
    let p = state_from_fen("8/8/8/g7 r - 0 1").expect("position");
    let (uci, cp, stats) = search_best::<R>(&p, &[], 0, 1000);
    assert_eq!(uci, "(none)");
    assert_eq!(cp, 0);
    assert_eq!(answer(&uci, cp, &stats, 5), vec!["bestmove (none)"]);
}

// ---------------------------------------------------------------- analysis

#[test]
fn analysis_of_bad_text() {
    assert_eq!(analyze::<R>("nonsense", 100, 3), "{\"error\":\"bad_fen\"}");
}

#[test]
fn analysis_without_a_move() {
    assert_eq!(analyze::<R>("8/8/8/g7 r - 0 1", 100, 3), "{\"lines\":[]}");
}

#[test]
fn analysis_lists_the_best_lines() {
    let all = analyze::<R>("8/8/8/Sg6 r - 0 1", 2000, 9);
    assert!(all.starts_with("{\"lines\":[{\"uci\":\"a0b0\",\"cp\":1000,\"depth\":"), "{all}");
    assert!(all.contains("},{\"uci\":\"a0a1\",\"cp\":"), "{all}");
    assert!(all.ends_with("}]}"), "{all}");
    let one = analyze::<R>("8/8/8/Sg6 r - 0 1", 2000, 0);
    assert!(!one.contains("a0a1"), "{one}");
    assert_eq!(analyze::<R>("8/8/8/Sg6 r - 0 1", 2000, 1), one);
}

#[test]
fn thousandths_do_not_rise_down_the_list() {
    let json = analyze::<R>("G6s/3X2c1/1a1R4/e3C2X r S2 4 1", 3000, 99);
    let cps: Vec<i64> = json
        .split("\"cp\":")
        .skip(1)
        .map(|t| t.split(',').next().expect("number").parse().expect("number"))
        .collect();
    assert!(cps.len() > 3, "{json}");
    for w in cps.windows(2) {
        assert!(w[0] >= w[1]);
    }
    assert!(cps.iter().all(|&c| -1000 <= c && c <= 1000));
}
