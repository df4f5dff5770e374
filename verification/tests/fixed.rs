//! Fixed-point evaluations.
use banqi::analysis::analyze;
use banqi::arith::{RootScore, Score};
use banqi::board::make_state;
use banqi::engine::{best_move_scored_stats, negamax_value};
use banqi::eval::Feat;
use banqi::fixed::{Fixed, ONE};
use banqi::mcts::mcts_move;
use banqi::protocol::default_values;

fn f(num: i64, den: i64) -> Fixed {
    Fixed::ratio(num, den)
}

#[test]
fn fixed_arithmetic() {
    assert_eq!(f(1, 2).raw, 500_000_000);
    assert_eq!(f(-1, 3).raw, -333_333_333);
    assert_eq!(f(1, 2).plus(f(1, 4)).raw, 750_000_000);
    assert_eq!(f(1, 2).minus(f(3, 4)).raw, -250_000_000);
    assert_eq!(f(-3, 2).times(f(1, 2)).raw, -750_000_000);
    assert_eq!(f(1, 1).over(f(3, 1)).raw, 333_333_333);
    assert_eq!(f(1, 1).over(f(-3, 1)).raw, -333_333_333);
    assert_eq!(f(1, 3).negated().raw, -333_333_333);
    assert!(f(1, 3).less(f(1, 2)));
    assert!(f(1, 2).at_most(f(1, 2)));
    assert!(f(1, 2).same(f(2, 4)));
}

#[test]
fn fixed_numbers_stop_at_the_ends() {
    let top = Fixed { raw: i64::MAX };
    assert_eq!(top.plus(top).raw, i64::MAX);
    assert_eq!(top.negated().minus(top).raw, -i64::MAX);
    assert_eq!(top.times(top).raw, i64::MAX);
    assert_eq!(f(1, 1).over(f(0, 1)).raw, i64::MAX);
    assert_eq!(f(-1, 1).over(f(0, 1)).raw, -i64::MAX);
    assert_eq!(Fixed { raw: i64::MIN }.negated().raw, i64::MAX);
    assert_eq!(Fixed::lowest().raw, -i64::MAX);
}

#[test]
fn fixed_curves() {
    assert_eq!(f(0, 1).tanh().raw, 0);
    assert_eq!(f(1, 1).tanh().raw, 28 * ONE / 36);
    assert_eq!(f(-1, 1).tanh().raw, -(28 * ONE / 36));
    assert_eq!(f(5, 1).tanh().raw, ONE);
    assert_eq!(f(-3, 1).tanh().raw, -ONE);
    assert_eq!(f(4, 1).sqrt().raw, 2 * ONE);
    assert_eq!(f(2, 1).sqrt().raw, 1_414_213_562);
    assert_eq!(f(-2, 1).sqrt().raw, 0);
    assert_eq!(f(1, 1).ln().raw, 0);
    assert_eq!(f(8, 1).ln().raw, 3 * 693_147_181);
    assert_eq!(f(3, 1).ln().raw, 693_147_181 + 693_147_181 / 2);
    assert_eq!(f(1, 2).ln().raw, 0);
}

#[test]
fn fixed_thousandths() {
    assert_eq!(f(1, 4).milli(), 250);
    assert_eq!(f(1, 2000).milli(), 1);
    assert_eq!(f(-1, 2000).milli(), -1);
    assert_eq!(f(-1, 2001).milli(), 0);
    assert_eq!(f(7, 1).milli(), 1000);
    assert_eq!(f(-7, 1).milli(), -1000);
}

#[test]
fn the_engine_runs_on_fixed_numbers() {
    // Red soldier a0 beside the lone black general b0.
    let mut sq = vec![-1i16; 32];
    sq[0] = 6;
    sq[1] = 7;
    let (m, v, stats) = best_move_scored_stats(
        sq.clone(),
        vec![],
        0,
        0,
        0,
        20_000,
        f(1, 10),
        true,
        4,
        f(8, 10),
        f(28, 1),
        default_values(),
        0,
        1018,
        vec![],
    );
    assert_eq!(m, (0, 1));
    assert_eq!(v.raw, ONE);
    assert_eq!(stats.depth, 4);
    let n: Fixed = negamax_value(sq.clone(), vec![], 0, 0, 0, 3);
    assert_eq!(n.raw, ONE);
    let t = mcts_move(
        sq,
        vec![],
        0,
        0,
        0,
        200,
        f(7, 10),
        8,
        1,
        3,
        f(8, 10),
        f(0, 1),
        default_values(),
    );
    assert_eq!(t, (0, 1));
    assert!(analyze::<Fixed>("8/8/8/Sg6 r - 0 1", 500, 1).starts_with("{\"lines\":[{\"uci\":\"a0b0\",\"cp\":1000,"));
}

#[test]
fn danger_to_a_cornered_general() {
    let values: Vec<Fixed> = default_values();
    let v: [Fixed; 7] = [values[0], values[1], values[2], values[3], values[4], values[5], values[6]];
    // Red general a0, black soldier b0: adjacent. One escape, a1, is not beside the soldier.
    let mut sq = vec![-1i16; 32];
    sq[0] = 0;
    sq[1] = 13;
    let st = make_state(sq.clone(), vec![], 0, 0, 0);
    let d: Fixed = st.general_danger(0);
    // The threat of one soldier, shared by two, and the corner with one soldier alive.
    assert_eq!(d.raw, ONE / 2 + 150_000_000 * 2 / 4);
    let k: Fixed = st.king_danger(0);
    assert_eq!(k.raw, ONE);
    // A soldier three steps away on an open rank needs four plies to capture.
    sq[1] = -1;
    sq[4] = 13;
    let st = make_state(sq, vec![], 0, 0, 0);
    let d: Fixed = st.general_danger(0);
    assert_eq!(d.raw, (ONE / 8) / 3 + 150_000_000 * 2 / 4);
    let none: Fixed = st.general_danger(1);
    assert_eq!(none.raw, 0);
    let e = st.eval(0, f(8, 10), f(28, 1), &v, &Feat::from_bits(256));
    let o = st.eval(1, f(8, 10), f(28, 1), &v, &Feat::from_bits(256));
    assert_eq!(e.raw, -o.raw);
    assert!(-ONE <= e.raw && e.raw <= ONE);
}
