//! The rules of the game, keys and move ordering.
use banqi::board::{
    can_capture, legal_moves, make_state, State, DOWN, EMPTY, NSQ, RES_BLACK, RES_DRAW,
    RES_ONGOING, RES_RED,
};
use banqi::order::{order, order_key_rich, order_rich, promote, sort_keyed};
use banqi::rng::Rng;
use banqi::zobrist::zkey_for;

fn board(pieces: &[(usize, i16)]) -> Vec<i16> {
    let mut sq = vec![EMPTY; NSQ];
    for &(i, c) in pieces {
        sq[i] = c;
    }
    sq
}

fn result(st: &State) -> i16 {
    let mut mv = Vec::new();
    st.result(&mut mv)
}

fn targets(sq: &[(usize, i16)], color: i16, from: u8) -> Vec<u8> {
    let mut t: Vec<u8> = legal_moves(board(sq), vec![], color, 0, 0)
        .into_iter()
        .filter(|m| m.0 == from)
        .map(|m| m.1)
        .collect();
    t.sort();
    t
}

// ---------------------------------------------------------------- moves

#[test]
fn who_captures_whom() {
    assert!(can_capture(6, 0));
    assert!(!can_capture(0, 6));
    assert!(can_capture(0, 1));
    assert!(!can_capture(1, 0));
    assert!(can_capture(3, 3));
    assert!(!can_capture(4, 3));
    assert!(can_capture(5, 6));
}

#[test]
fn steps_go_to_neighbours() {
    // A red general on b1: empty neighbours a1, b2 and b0, and a black soldier on c1.
    assert_eq!(targets(&[(9, 0), (10, 13)], 0, 9), vec![1, 8, 17]);
    // A red soldier in the corner takes the black general beside it.
    assert_eq!(targets(&[(0, 6), (1, 7)], 0, 0), vec![1, 8]);
    // It does not take a piece of its own, nor step onto a face-down tile.
    assert_eq!(targets(&[(0, 6), (1, 5), (8, DOWN)], 0, 0), Vec::<u8>::new());
}

#[test]
fn cannons_jump_one_screen() {
    // Along the rank: screen c0, target f0; the cannon also steps to b0 and a1.
    assert_eq!(targets(&[(0, 5), (2, 13), (5, 7)], 0, 0), vec![1, 5, 8]);
    // A face-down tile is a screen, but no target.
    assert_eq!(targets(&[(0, 5), (2, DOWN), (5, 7)], 0, 0), vec![1, 5, 8]);
    assert_eq!(targets(&[(0, 5), (2, 13), (5, DOWN)], 0, 0), vec![1, 8]);
    // Without a screen it takes nothing, and it takes nothing of its own color.
    assert_eq!(targets(&[(0, 5), (1, 13)], 0, 0), vec![8]);
    assert_eq!(targets(&[(0, 5), (2, 13), (5, 0)], 0, 0), vec![1, 8]);
}

#[test]
fn no_move_is_listed_twice() {
    let sq = board(&[(0, 5), (2, 13), (5, 7), (8, DOWN), (16, 8), (20, 0), (21, 13)]);
    let mut mv = legal_moves(sq, vec![], 0, 0, 0);
    let n = mv.len();
    mv.sort();
    mv.dedup();
    assert_eq!(mv.len(), n);
}

#[test]
fn unbound_colors_only_flip() {
    let sq = board(&[(0, 5), (2, 13), (8, DOWN), (9, DOWN)]);
    assert_eq!(legal_moves(sq, vec![], -1, 0, 0), vec![(8, 8), (9, 9)]);
}

// ---------------------------------------------------------------- what a move changes

#[test]
fn the_first_flip_binds_the_colors() {
    let mut bag = vec![0u32; 14];
    bag[3] = 1;
    bag[8] = 1;
    let mut st = make_state(board(&[(0, DOWN), (1, DOWN)]), bag, -1, 0, 5);
    assert_eq!(st.mover_color(), -1);
    st.push(0, 0, 8);
    assert_eq!(st.first_color, 1);
    assert_eq!(st.mover_color(), 0);
    assert_eq!(st.sq[0], 8);
    assert_eq!(st.bag[8], 0);
    assert_eq!(st.bag[3], 1);
    assert_eq!(st.no_progress, 0);
    assert_eq!(st.ply, 1);
    st.push(1, 1, 3);
    assert_eq!(st.first_color, 1);
    assert_eq!(st.mover_color(), 1);
}

#[test]
fn the_clock_counts_quiet_moves() {
    let mut st = make_state(board(&[(0, 0), (2, 8), (31, 13)]), vec![], 0, 0, 7);
    st.push(0, 1, 0);
    assert_eq!(st.no_progress, 8);
    assert_eq!(st.mover_color(), 1);
    st.push(31, 30, 0);
    assert_eq!(st.no_progress, 9);
    st.push(1, 2, 0);
    assert_eq!(st.no_progress, 0);
    assert_eq!(st.sq[1], EMPTY);
    assert_eq!(st.sq[2], 0);
}

#[test]
fn bag_and_tiles_shrink_together() {
    let mut bag = vec![0u32; 14];
    bag[0] = 1;
    bag[13] = 2;
    let mut st = make_state(board(&[(0, DOWN), (1, DOWN), (2, DOWN), (9, 1)]), bag, 0, 0, 0);
    let down = |s: &State| s.sq.iter().filter(|&&c| c == DOWN).count() as u32;
    let left = |s: &State| s.bag.iter().sum::<u32>();
    assert_eq!(down(&st), left(&st));
    st.push(1, 1, 13);
    assert_eq!((down(&st), left(&st)), (2, 2));
    st.push(9, 10, 0);
    assert_eq!((down(&st), left(&st)), (2, 2));
    // A flip moves a piece from the bag to the board; a capture removes one.
    assert_eq!(st.alive_of(13), 2);
    assert_eq!(st.alive_of(1), 1);
    st.push(10, 1, 0);
    assert_eq!(st.alive_of(13), 1);
}

// ---------------------------------------------------------------- the end

#[test]
fn the_clock_takes_precedence() {
    let won = board(&[(0, 0)]);
    assert_eq!(result(&make_state(won.clone(), vec![], 0, 0, 39)), RES_RED);
    assert_eq!(result(&make_state(won, vec![], 0, 0, 40)), RES_DRAW);
}

#[test]
fn no_move_loses() {
    // Red to move: the general is walled in by soldiers.
    let sq = board(&[(0, 0), (1, 13), (8, 13)]);
    assert_eq!(result(&make_state(sq, vec![], 0, 0, 0)), RES_BLACK);
    // An empty board with unbound colors.
    assert_eq!(result(&make_state(vec![], vec![], -1, 0, 0)), RES_DRAW);
}

#[test]
fn provable_elimination_ends_the_game() {
    // Black has no piece, and the face-down tiles are all red.
    let mut bag = vec![0u32; 14];
    bag[4] = 2;
    let sq = board(&[(0, 0), (5, DOWN), (6, DOWN)]);
    assert_eq!(result(&make_state(sq.clone(), bag.clone(), 0, 0, 0)), RES_RED);
    assert_eq!(result(&make_state(sq.clone(), bag.clone(), 0, 1, 0)), RES_RED);
    // It stays so after a flip.
    let mut st = make_state(sq.clone(), bag.clone(), 0, 0, 0);
    st.push(5, 5, 4);
    assert_eq!(result(&st), RES_RED);
    // With a black tile in the bag the game goes on.
    bag[4] = 1;
    bag[12] = 1;
    assert_eq!(result(&make_state(sq, bag, 0, 0, 0)), RES_ONGOING);
}

// ---------------------------------------------------------------- keys

#[test]
fn keys_tell_positions_apart() {
    let sq = board(&[(0, 0), (9, 13), (5, DOWN)]);
    let mut bag = vec![0u32; 14];
    bag[4] = 1;
    let key = zkey_for(sq.clone(), bag.clone(), 0, 0);
    assert_eq!(zkey_for(sq.clone(), bag.clone(), 0, 2), key);
    assert_ne!(zkey_for(sq.clone(), bag.clone(), 0, 1), key);
    assert_eq!(zkey_for(sq.clone(), bag.clone(), 1, 1), key);
    bag[4] = 2;
    assert_ne!(zkey_for(sq.clone(), bag, 0, 0), key);
    let other = board(&[(1, 0), (9, 13), (5, DOWN)]);
    assert_ne!(zkey_for(other, vec![0; 14], 0, 0), zkey_for(sq, vec![0; 14], 0, 0));
}

#[test]
fn keys_differ_where_one_thing_differs() {
    let bag = vec![3u32; 14];
    let mut keys = Vec::new();
    for i in 0..32 {
        for c in -2..14 {
            let mut sq = board(&[]);
            sq[i] = c;
            if c != EMPTY || i == 0 {
                keys.push(zkey_for(sq, bag.clone(), 0, 0));
            }
        }
    }
    for code in 0..14 {
        for n in 0..33 {
            let mut b = bag.clone();
            b[code] = n;
            if n != 3 {
                keys.push(zkey_for(board(&[]), b, 0, 0));
            }
        }
    }
    keys.push(zkey_for(board(&[]), bag.clone(), 1, 0));
    keys.push(zkey_for(board(&[]), bag, -1, 0));
    let n = keys.len();
    keys.sort();
    keys.dedup();
    assert_eq!(keys.len(), n);
}

#[test]
fn moves_of_a_piece_that_is_not_there() {
    // What a cannon and a general would do on an empty square.
    let st = make_state(board(&[(2, 13), (5, 7)]), vec![], 0, 0, 0);
    let mut mv = Vec::new();
    st.piece_moves(0, 5, 0, &mut mv);
    assert_eq!(mv, vec![(0, 1), (0, 8), (0, 5)]);
    mv.clear();
    st.piece_moves(1, 0, 0, &mut mv);
    assert_eq!(mv, vec![(1, 0), (1, 9)]);
}

#[test]
fn the_generator_is_splitmix() {
    let mut rng = Rng(0);
    assert_eq!(rng.next_u64(), 0xE220_A839_7B1D_CDAF);
    assert_eq!(rng.next_u64(), 0x6E78_9E6A_A1B9_65F4);
    let mut rng = Rng(0);
    assert_eq!(rng.below(10), (0xE220_A839_7B1D_CDAFu64 % 10) as u32);
}

// ---------------------------------------------------------------- ordering

#[test]
fn sorting_is_stable_and_descends() {
    let v = vec![(1, (0, 1)), (5, (0, 2)), (1, (0, 3)), (7, (0, 4)), (5, (0, 5))];
    assert_eq!(
        sort_keyed(&v),
        vec![(7, (0, 4)), (5, (0, 2)), (5, (0, 5)), (1, (0, 1)), (1, (0, 3))]
    );
}

#[test]
fn plain_order_puts_captures_first_and_flips_last() {
    let st = make_state(board(&[(0, 0), (1, 8), (8, 11), (20, DOWN)]), vec![], 0, 0, 0);
    let mv = vec![(20, 20), (5, 6), (0, 8), (0, 1)];
    assert_eq!(order(&st, &mv), vec![(0, 1), (0, 8), (5, 6), (20, 20)]);
}

#[test]
fn rich_order_has_tiers() {
    let st = make_state(board(&[(0, 0), (1, 8), (9, 1), (20, DOWN)]), vec![], 0, 0, 0);
    let mut killers = vec![((255, 255), (255, 255)); 4];
    killers[2] = ((9, 10), (0, 8));
    let mut history = vec![0i32; 1024];
    history[9 * 32 + 17] = 50;
    let mv = vec![(20, 20), (9, 8), (9, 17), (0, 8), (9, 10), (0, 1), (9, 1)];
    assert_eq!(
        order_rich(&st, &mv, 2, &killers, &history),
        vec![(9, 1), (0, 1), (9, 10), (0, 8), (9, 17), (9, 8), (20, 20)]
    );
}

#[test]
fn rich_order_puts_the_dearer_victim_first() {
    // Cannon takes elephant, general takes cannon, soldier and general take advisors.
    let st = make_state(
        board(&[(0, 0), (1, 12), (8, 8), (16, 6), (24, 8), (20, 5), (22, 9)]),
        vec![],
        0,
        0,
        0,
    );
    let killers = vec![((255, 255), (255, 255)); 4];
    let history = vec![0i32; 1024];
    let key = |m: (u8, u8)| order_key_rich(&st, m, 2, &killers, &history);
    assert_eq!(key((0, 1)), 1_000_000 + 12 * 32 - 30);
    assert_eq!(key((20, 22)), 1_000_000 + 10 * 32 - 12);
    assert!(key((0, 1)) > key((20, 22)));
    assert!(key((16, 24)) > key((0, 8)));
}

#[test]
fn no_history_outranks_a_killer() {
    let st = make_state(board(&[(0, 0), (1, 8), (9, 1), (20, DOWN)]), vec![], 0, 0, 0);
    let mut killers = vec![((255, 255), (255, 255)); 4];
    killers[2] = ((9, 10), (0, 8));
    let mut history = vec![0i32; 1024];
    history[9 * 32 + 17] = 2_000_000;
    history[9 * 32 + 8] = i32::MAX;
    let key = |m: (u8, u8)| order_key_rich(&st, m, 2, &killers, &history);
    assert_eq!(key((9, 17)), 799_999);
    assert_eq!(key((9, 8)), 799_999);
    assert_eq!(key((0, 8)), 800_000);
    assert_eq!(key((9, 10)), 900_000);
    assert!(key((0, 1)) > 900_000);
    assert_eq!(key((20, 20)), -1_000_000);
    history[9 * 32 + 17] = 3;
    let mv = vec![(20, 20), (9, 17), (9, 8), (0, 8), (9, 10), (0, 1)];
    assert_eq!(
        order_rich(&st, &mv, 2, &killers, &history),
        vec![(0, 1), (9, 10), (0, 8), (9, 8), (9, 17), (20, 20)]
    );
}

#[test]
fn a_hint_comes_first() {
    let mut mv = vec![(0, 1), (2, 3), (4, 5)];
    promote(&mut mv, Some((4, 5)));
    assert_eq!(mv, vec![(4, 5), (0, 1), (2, 3)]);
    promote(&mut mv, Some((9, 9)));
    promote(&mut mv, None);
    assert_eq!(mv, vec![(4, 5), (0, 1), (2, 3)]);
}
