use banqi::board::{legal_moves, DOWN};
use banqi::fen::{fen_from_state, state_from_fen};
use banqi::uci::{move_to_uci, square_to_uci, uci_to_move};

#[test]
fn opening_all_face_down_round_trips() {
    let pool = "G1A2E2R2H2C2S5g1a2e2r2h2c2s5";
    let fen = format!("XXXXXXXX/XXXXXXXX/XXXXXXXX/XXXXXXXX - {pool} 0 1");
    let p = state_from_fen(&fen).expect("parse");
    assert_eq!(p.first_color, -1);
    assert_eq!(p.no_progress, 0);
    assert!(p.squares.iter().all(|&c| c == DOWN));
    assert_eq!(p.bag.iter().sum::<u32>(), 32);
    let re = fen_from_state(&p.squares, &p.bag, p.first_color, p.no_progress, 1);
    assert_eq!(re, fen);
}

#[test]
fn mixed_board_round_trips() {
    let fen = "G7/7s/X7/8 r G1s4 3 5";
    let p = state_from_fen(fen).expect("parse");
    assert_eq!(p.first_color, 0);
    assert_eq!(p.no_progress, 3);
    assert_eq!(p.squares[24], 0);
    assert_eq!(p.squares[23], 13);
    assert_eq!(p.squares[8], DOWN);
    assert_eq!(p.bag[0], 1);
    assert_eq!(p.bag[13], 4);
    let re = fen_from_state(&p.squares, &p.bag, p.first_color, p.no_progress, 5);
    assert_eq!(re, fen);
}

#[test]
fn uci_codec() {
    assert_eq!(square_to_uci(0), "a0");
    assert_eq!(square_to_uci(7), "h0");
    assert_eq!(square_to_uci(31), "h3");
    assert_eq!(move_to_uci((0, 1)), "a0b0");
    assert_eq!(uci_to_move("a0b0"), Some((0, 1)));
    assert_eq!(uci_to_move("a0a0"), Some((0, 0)));
    assert_eq!(uci_to_move("z9z9"), None);
}

fn idx(file: usize, rank0: usize) -> usize {
    file + rank0 * 8
}

#[test]
fn uci_move_round_trips() {
    let m = (idx(3, 1) as u8, idx(4, 1) as u8);
    let uci = move_to_uci(m);
    assert_eq!(uci_to_move(&uci), Some(m), "uci codec must round-trip ({uci})");
}

#[test]
fn opening_has_thirty_two_flips() {
    let sq = vec![-2i16; 32];
    let mut bag = vec![0u32; 14];
    for c in 0..2 {
        let b = c * 7;
        bag[b] = 1;
        bag[b + 1] = 2;
        bag[b + 2] = 2;
        bag[b + 3] = 2;
        bag[b + 4] = 2;
        bag[b + 5] = 2;
        bag[b + 6] = 5;
    }
    let legal = legal_moves(sq, bag, -1, 0, 0);
    assert_eq!(legal.len(), 32, "every face-down tile is a legal opening flip");
    assert!(legal.iter().all(|&(f, t)| f == t), "every opening move is a flip (from == to)");
}

#[test]
fn every_malformed_field_is_refused() {
    let good = "G7/7s/X7/8 r G1s4 3 5";
    assert!(state_from_fen(good).is_some());
    let bad = [
        "",
        "G7/7s/X7/8 r G1s4",
        "G7/7s/X7 r G1s4 3 5",
        "G7/7s/X7/8/8 r G1s4 3 5",
        "G8/7s/X7/8 r G1s4 3 5",
        "G6/7s/X7/8 r G1s4 3 5",
        "Q7/7s/X7/8 r G1s4 3 5",
        "x7/7s/X7/8 r G1s4 3 5",
        "G7/7s/X7/80 r G1s4 3 5",
        "G7/7s/X7/8 w G1s4 3 5",
        "G7/7s/X7/8 rr G1s4 3 5",
        "G7/7s/X7/8 r Gs4 3 5",
        "G7/7s/X7/8 r 1G 3 5",
        "G7/7s/X7/8 r G1s4x 3 5",
        "G7/7s/X7/8 r G1s4294967296 3 5",
        "G7/7s/X7/8 r G1s4 x 5",
        "G7/7s/X7/8 r G1s4 -1 5",
        "G7/7s/X7/8 r G1s4 4294967296 5",
    ];
    for fen in bad {
        assert!(state_from_fen(fen).is_none(), "{fen}");
    }
}

#[test]
fn odd_but_well_formed_fields_are_read() {
    let p = state_from_fen("\tG07/08/44/8\u{2003}b G1G2g4294967295 +7 ").expect("parse");
    assert_eq!(p.squares[24], 0);
    assert_eq!(p.squares.iter().filter(|&&c| c != -1).count(), 1);
    assert_eq!(p.first_color, 1);
    assert_eq!(p.bag[0], 2);
    assert_eq!(p.bag[7], u32::MAX);
    assert_eq!(p.no_progress, 7);
    let re = fen_from_state(&p.squares, &p.bag, p.first_color, p.no_progress, 12);
    assert_eq!(re, "G7/8/8/8 b G2g4294967295 7 12");
}

#[test]
fn every_piece_has_its_letter() {
    let mut squares = vec![-1i16; 32];
    for code in 0..14 {
        squares[code as usize] = code;
    }
    squares[31] = DOWN;
    let bag = vec![0u32; 14];
    let fen = fen_from_state(&squares, &bag, -1, 40, 1);
    assert_eq!(fen, "7X/8/aerhcs2/GAERHCSg - - 40 1");
    let p = state_from_fen(&fen).expect("parse");
    assert_eq!(p.squares, squares);
    assert_eq!(p.bag, bag);
    assert_eq!(p.first_color, -1);
    assert_eq!(p.no_progress, 40);
}

#[test]
fn every_move_round_trips() {
    for from in 0..32u8 {
        for to in 0..32u8 {
            assert_eq!(uci_to_move(&move_to_uci((from, to))), Some((from, to)));
        }
    }
    assert_eq!(uci_to_move("  h3a0\n"), Some((31, 0)));
    for bad in ["", "a0", "a0b", "a0b00", "i0a0", "a4a0", "A0a0", "a0 b", "é0"] {
        assert_eq!(uci_to_move(bad), None, "{bad}");
    }
}
