//! The board, the rules of movement and the end of the game.
//!
//! Squares are numbered `file + 8 * (rank - 1)` with files `0..8` and ranks `1..=4`.
//! A square holds `EMPTY`, `DOWN` (a face-down tile) or a piece code
//! `color * 7 + role`. Roles are 0 general, 1 advisor, 2 elephant, 3 chariot, 4 horse,
//! 5 cannon, 6 soldier; colors are 0 red and 1 black. The bag counts, per piece code,
//! the pieces that are still face down. A move is a pair `(from, to)`; a flip is the
//! pair with `from == to`.
use vstd::prelude::*;

verus! {

pub const W: i32 = 8;

pub const H: i32 = 4;

pub const NSQ: usize = 32;

pub const NCODES: usize = 14;

/// A square with nothing on it.
pub const EMPTY: i16 = -1;

/// A square with a face-down tile.
pub const DOWN: i16 = -2;

pub const RES_RED: i16 = 0;

pub const RES_BLACK: i16 = 1;

pub const RES_DRAW: i16 = 2;

pub const RES_ONGOING: i16 = 3;

/// Plies without a capture or a flip after which the game is drawn.
pub const CLOCK_LIMIT: u32 = 40;

// ---------------------------------------------------------------- pieces

/// Color of a piece code.
pub open spec fn color_of(c: int) -> int {
    c / 7
}

/// Role of a piece code.
pub open spec fn role_of(c: int) -> int {
    c % 7
}

pub fn is_piece(c: i16) -> (r: bool)
    ensures
        r == (c >= 0),
{
    c >= 0
}

pub fn code_color(c: i16) -> (r: i16)
    requires
        c >= 0,
    ensures
        r == color_of(c as int),
        0 <= r,
{
    c / 7
}

pub fn code_role(c: i16) -> (r: usize)
    requires
        c >= 0,
    ensures
        r == role_of(c as int),
        r < 7,
{
    (c % 7) as usize
}

/// Strength of a role in an ordinary capture, general highest.
pub open spec fn strength(role: int) -> int {
    7 - role
}

/// Whether a piece of role `a`, stepping onto a neighbouring square, may take a piece of
/// role `t`. The soldier takes the general, the general does not take the soldier, and
/// otherwise the stronger or equal role takes.
pub open spec fn captures(a: int, t: int) -> bool {
    if a == 6 && t == 0 {
        true
    } else if a == 0 && t == 6 {
        false
    } else {
        strength(a) >= strength(t)
    }
}

pub fn can_capture(a: usize, t: usize) -> (r: bool)
    requires
        a < 7,
        t < 7,
    ensures
        r == captures(a as int, t as int),
{
    if a == 6 && t == 0 {
        return true;
    }
    if a == 0 && t == 6 {
        return false;
    }
    7 - a >= 7 - t
}

// ---------------------------------------------------------------- geometry

pub open spec fn on_board(file: int, rank: int) -> bool {
    0 <= file < 8 && 1 <= rank <= 4
}

pub open spec fn file_of(i: int) -> int {
    i % 8
}

pub open spec fn rank_of(i: int) -> int {
    i / 8 + 1
}

pub open spec fn index_of(file: int, rank: int) -> int {
    file + (rank - 1) * 8
}

/// File change of direction `k`: east, west, north, south.
pub open spec fn dir_file(k: int) -> int {
    if k == 0 {
        1
    } else if k == 1 {
        -1
    } else {
        0
    }
}

/// Rank change of direction `k`.
pub open spec fn dir_rank(k: int) -> int {
    if k == 2 {
        1
    } else if k == 3 {
        -1
    } else {
        0
    }
}

pub fn coord(i: usize) -> (r: (i32, i32))
    requires
        i < NSQ,
    ensures
        r.0 == file_of(i as int),
        r.1 == rank_of(i as int),
        on_board(r.0 as int, r.1 as int),
        index_of(r.0 as int, r.1 as int) == i,
{
    ((i % 8) as i32, (i / 8) as i32 + 1)
}

pub fn sqi(file: i32, rank: i32) -> (r: usize)
    requires
        on_board(file as int, rank as int),
    ensures
        r == index_of(file as int, rank as int),
        r < NSQ,
        file_of(r as int) == file,
        rank_of(r as int) == rank,
{
    (file + (rank - 1) * W) as usize
}

pub fn in_bounds(file: i32, rank: i32) -> (r: bool)
    ensures
        r == on_board(file as int, rank as int),
{
    file >= 0 && file < W && rank >= 1 && rank <= H
}

/// Direction `k` as a change of file and rank.
pub fn ortho(k: usize) -> (r: (i32, i32))
    requires
        k < 4,
    ensures
        r.0 == dir_file(k as int),
        r.1 == dir_rank(k as int),
        -1 <= r.0 <= 1,
        -1 <= r.1 <= 1,
{
    if k == 0 {
        (1, 0)
    } else if k == 1 {
        (-1, 0)
    } else if k == 2 {
        (0, 1)
    } else {
        (0, -1)
    }
}

/// The neighbour of square `i` in direction `k`, if it is on the board.
pub open spec fn step(i: int, k: int) -> Option<int> {
    let f = file_of(i) + dir_file(k);
    let r = rank_of(i) + dir_rank(k);
    if on_board(f, r) {
        Some(index_of(f, r))
    } else {
        None
    }
}

/// Squares from `(f, r)` to the edge in direction `k`, both ends counted.
pub open spec fn room(f: int, r: int, k: int) -> nat {
    if !on_board(f, r) {
        0
    } else if k == 0 {
        (8 - f) as nat
    } else if k == 1 {
        (f + 1) as nat
    } else if k == 2 {
        (5 - r) as nat
    } else {
        r as nat
    }
}

/// The first square that is not empty on the line that starts at `(f, r)` itself and runs
/// in direction `k`.
pub open spec fn ray(sq: Seq<i16>, f: int, r: int, k: int) -> Option<int>
    decreases room(f, r, k),
    when 0 <= k < 4
{
    if !on_board(f, r) {
        None
    } else if sq[index_of(f, r)] != EMPTY {
        Some(index_of(f, r))
    } else {
        ray(sq, f + dir_file(k), r + dir_rank(k), k)
    }
}

/// The first square that is not empty beyond square `i` in direction `k`.
pub open spec fn beyond(sq: Seq<i16>, i: int, k: int) -> Option<int> {
    ray(sq, file_of(i) + dir_file(k), rank_of(i) + dir_rank(k), k)
}

// ---------------------------------------------------------------- positions

/// A position: what both players can see of the game.
#[verifier::ext_equal]
pub struct Pos {
    pub sq: Seq<i16>,
    pub bag: Seq<u32>,
    /// Color of the player who moves on even plies; negative until the first flip.
    pub first_color: int,
    pub ply: nat,
    pub no_progress: nat,
}

#[derive(Clone, Copy)]
pub struct State {
    pub sq: [i16; NSQ],
    pub bag: [u32; NCODES],
    pub first_color: i16,
    pub ply: u32,
    pub no_progress: u32,
}

impl View for State {
    type V = Pos;

    open spec fn view(&self) -> Pos {
        Pos {
            sq: self.sq@,
            bag: self.bag@,
            first_color: self.first_color as int,
            ply: self.ply as nat,
            no_progress: self.no_progress as nat,
        }
    }
}

/// The player to move: 0 red, 1 black, negative while the colors are unbound.
pub open spec fn mover(p: Pos) -> int {
    if p.first_color < 0 {
        -1
    } else if p.ply % 2 == 0 {
        p.first_color
    } else {
        1 - p.first_color
    }
}

/// Square `i` holds a piece of `color`.
pub open spec fn holds(sq: Seq<i16>, i: int, color: int) -> bool {
    sq[i] >= 0 && color_of(sq[i] as int) == color
}

/// Square `i` holds a piece that is not of `color`.
pub open spec fn holds_other(sq: Seq<i16>, i: int, color: int) -> bool {
    sq[i] >= 0 && color_of(sq[i] as int) != color
}

// ---------------------------------------------------------------- where a piece may go

/// Where a cannon on `i` steps in direction `k`: onto an empty neighbour only.
pub open spec fn cannon_step(sq: Seq<i16>, i: int, k: int) -> Option<int> {
    match step(i, k) {
        Some(t) => if sq[t] == EMPTY {
            Some(t)
        } else {
            None
        },
        None => None,
    }
}

/// What a cannon on `i` takes in direction `k`: the second square on the line that is not
/// empty, if a piece of another color stands there. The first is the screen.
pub open spec fn cannon_jump(sq: Seq<i16>, i: int, k: int, color: int) -> Option<int> {
    match beyond(sq, i, k) {
        Some(screen) => match beyond(sq, screen, k) {
            Some(t) => if holds_other(sq, t, color) {
                Some(t)
            } else {
                None
            },
            None => None,
        },
        None => None,
    }
}

/// Where a piece of any other `role` on `i` goes in direction `k`: onto an empty neighbour or
/// onto one with a piece that it captures.
pub open spec fn walk(sq: Seq<i16>, role: int, i: int, k: int, color: int) -> Option<int> {
    match step(i, k) {
        Some(t) => if sq[t] == EMPTY || (holds_other(sq, t, color) && captures(
            role,
            role_of(sq[t] as int),
        )) {
            Some(t)
        } else {
            None
        },
        None => None,
    }
}

/// At most one move, from `i` to the given target.
pub open spec fn emit(i: int, target: Option<int>) -> Seq<(u8, u8)> {
    match target {
        Some(t) => seq![(i as u8, t as u8)],
        None => seq![],
    }
}

pub open spec fn cannon_steps(sq: Seq<i16>, i: int, k: int) -> Seq<(u8, u8)>
    decreases k,
{
    if k <= 0 {
        seq![]
    } else {
        cannon_steps(sq, i, k - 1) + emit(i, cannon_step(sq, i, k - 1))
    }
}

pub open spec fn cannon_jumps(sq: Seq<i16>, i: int, k: int, color: int) -> Seq<(u8, u8)>
    decreases k,
{
    if k <= 0 {
        seq![]
    } else {
        cannon_jumps(sq, i, k - 1, color) + emit(i, cannon_jump(sq, i, k - 1, color))
    }
}

pub open spec fn walks(sq: Seq<i16>, role: int, i: int, k: int, color: int) -> Seq<(u8, u8)>
    decreases k,
{
    if k <= 0 {
        seq![]
    } else {
        walks(sq, role, i, k - 1, color) + emit(i, walk(sq, role, i, k - 1, color))
    }
}

/// The moves of a piece of `role` and `color` on square `i`, in the order in which they are tried.
pub open spec fn moves_as(sq: Seq<i16>, role: int, i: int, color: int) -> Seq<(u8, u8)> {
    if role == 5 {
        cannon_steps(sq, i, 4) + cannon_jumps(sq, i, 4, color)
    } else {
        walks(sq, role, i, 4, color)
    }
}

/// The moves of the piece of `color` on square `i`.
pub open spec fn moves_from(sq: Seq<i16>, i: int, color: int) -> Seq<(u8, u8)> {
    moves_as(sq, role_of(sq[i] as int), i, color)
}

/// The flips on the first `n` squares.
pub open spec fn flips(sq: Seq<i16>, n: int) -> Seq<(u8, u8)>
    decreases n,
{
    if n <= 0 {
        seq![]
    } else if sq[n - 1] == DOWN {
        flips(sq, n - 1).push(((n - 1) as u8, (n - 1) as u8))
    } else {
        flips(sq, n - 1)
    }
}

/// The moves of the pieces of `color` on the first `n` squares.
pub open spec fn moves_of(sq: Seq<i16>, color: int, n: int) -> Seq<(u8, u8)>
    decreases n,
{
    if n <= 0 {
        seq![]
    } else if holds(sq, n - 1, color) {
        moves_of(sq, color, n - 1) + moves_from(sq, n - 1, color)
    } else {
        moves_of(sq, color, n - 1)
    }
}

/// All legal moves, in order: the flips, then the moves of the player's pieces.
pub open spec fn all_moves(p: Pos) -> Seq<(u8, u8)> {
    if mover(p) < 0 {
        flips(p.sq, 32)
    } else {
        flips(p.sq, 32) + moves_of(p.sq, mover(p), 32)
    }
}

// ---------------------------------------------------------------- playing a move

/// The position after `m`; `revealed` is the piece that a flip turns up.
pub open spec fn after(p: Pos, m: (u8, u8), revealed: int) -> Pos {
    let from = m.0 as int;
    let to = m.1 as int;
    if from == to {
        Pos {
            sq: p.sq.update(from, revealed as i16),
            bag: p.bag.update(revealed, (p.bag[revealed] - 1) as u32),
            first_color: if p.first_color < 0 {
                color_of(revealed)
            } else {
                p.first_color
            },
            ply: p.ply + 1,
            no_progress: 0,
        }
    } else {
        Pos {
            sq: p.sq.update(to, p.sq[from]).update(from, EMPTY),
            bag: p.bag,
            first_color: p.first_color,
            ply: p.ply + 1,
            no_progress: if p.sq[to] >= 0 {
                0
            } else {
                p.no_progress + 1
            },
        }
    }
}

// ---------------------------------------------------------------- counting

/// How many of the first `n` squares hold exactly `c`.
pub open spec fn count_of(sq: Seq<i16>, c: int, n: int) -> nat
    decreases n,
{
    if n <= 0 {
        0
    } else {
        count_of(sq, c, n - 1) + if sq[n - 1] == c {
            1nat
        } else {
            0nat
        }
    }
}

/// The sum of `n` counts of the bag, from code `from` on.
pub open spec fn tiles(bag: Seq<u32>, from: int, n: int) -> nat
    decreases n,
{
    if n <= 0 {
        0
    } else {
        tiles(bag, from, n - 1) + bag[from + n - 1] as nat
    }
}

/// All pieces that are still face down.
pub open spec fn bag_total(bag: Seq<u32>) -> nat {
    tiles(bag, 0, 14)
}

/// Pieces of a code that are still in the game: on the board or in the bag.
pub open spec fn alive(p: Pos, code: int) -> nat {
    count_of(p.sq, code, 32) + p.bag[code] as nat
}

// ---------------------------------------------------------------- the end of the game

/// A piece of `color` stands on the board.
pub open spec fn has_piece(p: Pos, color: int) -> bool {
    exists|i: int| 0 <= i < 32 && #[trigger] holds(p.sq, i, color)
}

/// A face-down tile may turn out to be of `color`: the bag still counts one, or the bag does
/// not account for every face-down tile.
pub open spec fn may_turn_up(p: Pos, color: int) -> bool {
    &&& count_of(p.sq, DOWN as int, 32) > 0
    &&& tiles(p.bag, color * 7, 7) > 0 || bag_total(p.bag) < count_of(p.sq, DOWN as int, 32)
}

/// `color` can provably never hold a piece again.
pub open spec fn eliminated(p: Pos, color: int) -> bool {
    !has_piece(p, color) && !may_turn_up(p, color)
}

pub open spec fn win_for(color: int) -> int {
    if color == 0 {
        RES_RED as int
    } else {
        RES_BLACK as int
    }
}

/// The state of the game: the clock first, then a player without a move, then a player
/// who is provably eliminated.
pub open spec fn outcome(p: Pos) -> int {
    if p.no_progress >= CLOCK_LIMIT {
        RES_DRAW as int
    } else if all_moves(p).len() == 0 {
        if mover(p) < 0 {
            RES_DRAW as int
        } else {
            win_for(1 - mover(p))
        }
    } else if mover(p) >= 0 && eliminated(p, 1 - mover(p)) {
        win_for(mover(p))
    } else if mover(p) >= 0 && eliminated(p, mover(p)) {
        win_for(1 - mover(p))
    } else {
        RES_ONGOING as int
    }
}

// ---------------------------------------------------------------- well-formed positions

/// The squares, the bag and the color to move hold only values of the encoding.
pub open spec fn wf(p: Pos) -> bool {
    &&& p.sq.len() == 32
    &&& p.bag.len() == 14
    &&& p.first_color <= 1
    &&& forall|i: int| 0 <= i < 32 ==> -2 <= #[trigger] p.sq[i] < 14
}

impl State {
    pub fn mover_color(&self) -> (r: i16)
        ensures
            r == mover(self@),
    {
        if self.first_color < 0 {
            return -1;
        }
        if self.ply % 2 == 0 {
            self.first_color
        } else {
            1 - self.first_color
        }
    }

    /// Appends the moves of a piece `c` of color `mc` on `frm`.
    pub fn piece_moves(&self, frm: usize, c: i16, mc: i16, out: &mut Vec<(u8, u8)>)
        requires
            frm < NSQ,
            c >= 0,
        ensures
            final(out)@ == old(out)@ + moves_as(
                self.sq@,
                role_of(c as int),
                frm as int,
                mc as int,
            ),
    {
        let role = code_role(c);
        let (file, rank) = coord(frm);
        let ghost base = out@;
        let ghost sq = self.sq@;
        let ghost i0 = frm as int;
        if role == 5 {
            let mut k: usize = 0;
            while k < 4
                invariant
                    k <= 4,
                    sq == self.sq@,
                    sq.len() == 32,
                    frm < NSQ,
                    i0 == frm,
                    file == file_of(i0),
                    rank == rank_of(i0),
                    on_board(file as int, rank as int),
                    out@ == base + cannon_steps(sq, i0, k as int),
                decreases 4 - k,
            {
                let (df, dr) = ortho(k);
                let (f, r) = (file + df, rank + dr);
                if in_bounds(f, r) && self.sq[sqi(f, r)] == EMPTY {
                    out.push((frm as u8, sqi(f, r) as u8));
                }
                k = k + 1;
            }
            let ghost base2 = out@;
            k = 0;
            while k < 4
                invariant
                    k <= 4,
                    sq == self.sq@,
                    sq.len() == 32,
                    frm < NSQ,
                    i0 == frm,
                    file == file_of(i0),
                    rank == rank_of(i0),
                    on_board(file as int, rank as int),
                    out@ == base2 + cannon_jumps(sq, i0, k as int, mc as int),
                decreases 4 - k,
            {
                match self.first_beyond(frm, k) {
                    None => {},
                    Some(screen) => match self.first_beyond(screen, k) {
                        None => {},
                        Some(t) => {
                            let c2 = self.sq[t];
                            if is_piece(c2) && code_color(c2) != mc {
                                out.push((frm as u8, t as u8));
                            }
                        },
                    },
                }
                k = k + 1;
            }
            return;
        }
        let mut k: usize = 0;
        while k < 4
            invariant
                k <= 4,
                sq == self.sq@,
                sq.len() == 32,
                frm < NSQ,
                i0 == frm,
                file == file_of(i0),
                rank == rank_of(i0),
                on_board(file as int, rank as int),
                role == role_of(c as int),
                role < 7,
                out@ == base + walks(sq, role as int, i0, k as int, mc as int),
            decreases 4 - k,
        {
            let (df, dr) = ortho(k);
            let (f, r) = (file + df, rank + dr);
            if in_bounds(f, r) {
                let t = self.sq[sqi(f, r)];
                if t == EMPTY {
                    out.push((frm as u8, sqi(f, r) as u8));
                } else if is_piece(t) && code_color(t) != mc && can_capture(role, code_role(t)) {
                    out.push((frm as u8, sqi(f, r) as u8));
                }
            }
            k = k + 1;
        }
    }

    /// The first square that is not empty beyond square `i` in direction `k`.
    fn first_beyond(&self, i: usize, k: usize) -> (r: Option<usize>)
        requires
            i < NSQ,
            k < 4,
        ensures
            match r {
                Some(t) => t < NSQ && beyond(self.sq@, i as int, k as int) == Some(t as int),
                None => beyond(self.sq@, i as int, k as int) is None,
            },
    {
        let (file, rank) = coord(i);
        let (df, dr) = ortho(k);
        let mut f: i32 = file + df;
        let mut r: i32 = rank + dr;
        while in_bounds(f, r) && self.sq[sqi(f, r)] == EMPTY
            invariant
                k < 4,
                df == dir_file(k as int),
                dr == dir_rank(k as int),
                -1 <= df <= 1,
                -1 <= dr <= 1,
                -1 <= f <= 8,
                0 <= r <= 5,
                ray(self.sq@, f as int, r as int, k as int) == beyond(
                    self.sq@,
                    i as int,
                    k as int,
                ),
            decreases room(f as int, r as int, k as int),
        {
            f = f + df;
            r = r + dr;
        }
        if in_bounds(f, r) {
            Some(sqi(f, r))
        } else {
            None
        }
    }

    /// Replaces `out` by the legal moves.
    pub fn legal_moves(&self, out: &mut Vec<(u8, u8)>)
        ensures
            final(out)@ == all_moves(self@),
    {
        out.clear();
        let ghost sq = self.sq@;
        let mut i: usize = 0;
        while i < NSQ
            invariant
                i <= NSQ,
                sq == self.sq@,
                sq.len() == 32,
                out@ == flips(sq, i as int),
            decreases NSQ - i,
        {
            if self.sq[i] == DOWN {
                out.push((i as u8, i as u8));
            }
            i = i + 1;
        }
        let mc = self.mover_color();
        if mc < 0 {
            return;
        }
        self.moves_of_color(mc, out);
    }

    /// Appends the moves of the pieces of `color`.
    pub fn moves_of_color(&self, color: i16, out: &mut Vec<(u8, u8)>)
        ensures
            final(out)@ == old(out)@ + moves_of(self.sq@, color as int, 32),
    {
        let ghost base = out@;
        let ghost sq = self.sq@;
        let mut i: usize = 0;
        while i < NSQ
            invariant
                i <= NSQ,
                sq == self.sq@,
                sq.len() == 32,
                out@ == base + moves_of(sq, color as int, i as int),
            decreases NSQ - i,
        {
            let c = self.sq[i];
            if is_piece(c) && code_color(c) == color {
                self.piece_moves(i, c, color, out);
            }
            i = i + 1;
        }
    }

    /// How many moves the pieces of `color` have.
    pub fn mobility(&self, color: i16) -> (r: i32)
        ensures
            r == moves_of(self.sq@, color as int, 32).len(),
    {
        let mut tmp: Vec<(u8, u8)> = Vec::new();
        let mut n: i32 = 0;
        let ghost sq = self.sq@;
        let mut i: usize = 0;
        while i < NSQ
            invariant
                i <= NSQ,
                sq == self.sq@,
                sq.len() == 32,
                n == moves_of(sq, color as int, i as int).len(),
                n <= 8 * i,
            decreases NSQ - i,
        {
            let c = self.sq[i];
            if is_piece(c) && code_color(c) == color {
                tmp.clear();
                self.piece_moves(i, c, color, &mut tmp);
                proof {
                    lemma_few_moves_from(sq, i as int, color as int);
                }
                n = n + tmp.len() as i32;
            }
            i = i + 1;
        }
        n
    }

    /// Plays a move; `revealed` is the piece that a flip turns up.
    pub fn push(&mut self, frm: u8, to: u8, revealed: i16)
        requires
            frm < NSQ,
            to < NSQ,
            frm == to ==> 0 <= revealed < 14 && old(self).bag[revealed as int] > 0,
            old(self).ply < u32::MAX,
            frm != to && old(self).sq[to as int] < 0 ==> old(self).no_progress < u32::MAX,
        ensures
            final(self)@ == after(old(self)@, (frm, to), revealed as int),
    {
        if frm == to {
            self.sq[frm as usize] = revealed;
            self.bag[revealed as usize] = self.bag[revealed as usize] - 1;
            if self.first_color < 0 {
                self.first_color = code_color(revealed);
            }
            self.no_progress = 0;
        } else {
            let t = self.sq[to as usize];
            if is_piece(t) {
                self.no_progress = 0;
            } else {
                self.no_progress = self.no_progress + 1;
            }
            self.sq[to as usize] = self.sq[frm as usize];
            self.sq[frm as usize] = EMPTY;
        }
        self.ply = self.ply + 1;
    }

    /// Whether `color` can provably never hold a piece again.
    fn is_eliminated(&self, color: i16) -> (r: bool)
        requires
            0 <= color <= 1,
        ensures
            r == eliminated(self@, color as int),
    {
        let ghost p = self@;
        let mut down: u64 = 0;
        let mut i: usize = 0;
        while i < NSQ
            invariant
                i <= NSQ,
                p == self@,
                p.sq.len() == 32,
                down <= i,
                down == count_of(p.sq, DOWN as int, i as int),
                forall|j: int| 0 <= j < i ==> !#[trigger] holds(p.sq, j, color as int),
            decreases NSQ - i,
        {
            let c = self.sq[i];
            if is_piece(c) && code_color(c) == color {
                assert(holds(p.sq, i as int, color as int));
                return false;
            }
            if c == DOWN {
                down = down + 1;
            }
            i = i + 1;
        }
        if down == 0 {
            return true;
        }
        let own = self.tiles_in_bag(color as usize * 7, 7);
        let total = self.tiles_in_bag(0, 14);
        !(own > 0 || total < down)
    }

    /// The sum of `n` counts of the bag, from code `from` on.
    pub fn tiles_in_bag(&self, from: usize, n: usize) -> (r: u64)
        requires
            from + n <= 14,
        ensures
            r == tiles(self.bag@, from as int, n as int),
    {
        let mut sum: u64 = 0;
        let mut j: usize = 0;
        while j < n
            invariant
                j <= n,
                from + n <= 14,
                self.bag@.len() == 14,
                sum == tiles(self.bag@, from as int, j as int),
                sum <= j * 0xffff_ffff,
            decreases n - j,
        {
            sum = sum + self.bag[from + j] as u64;
            j = j + 1;
        }
        sum
    }

    /// The state of the game as a `RES_*` code. Unless the clock has run out, `mv` holds the
    /// legal moves afterwards.
    pub fn result(&self, mv: &mut Vec<(u8, u8)>) -> (r: i16)
        requires
            self.first_color <= 1,
        ensures
            r == outcome(self@),
            self.no_progress < CLOCK_LIMIT ==> final(mv)@ == all_moves(self@),
            self.no_progress >= CLOCK_LIMIT ==> final(mv)@ == old(mv)@,
    {
        if self.no_progress >= CLOCK_LIMIT {
            return RES_DRAW;
        }
        self.legal_moves(mv);
        let mc = self.mover_color();
        if mv.len() == 0 {
            if mc < 0 {
                return RES_DRAW;
            }
            return if 1 - mc == 0 {
                RES_RED
            } else {
                RES_BLACK
            };
        }
        if mc >= 0 {
            if self.is_eliminated(1 - mc) {
                return if mc == 0 {
                    RES_RED
                } else {
                    RES_BLACK
                };
            }
            if self.is_eliminated(mc) {
                return if 1 - mc == 0 {
                    RES_RED
                } else {
                    RES_BLACK
                };
            }
        }
        RES_ONGOING
    }
}

pub proof fn lemma_few_moves_from(sq: Seq<i16>, i: int, color: int)
    ensures
        moves_from(sq, i, color).len() <= 8,
{
    reveal_with_fuel(walks, 5);
    reveal_with_fuel(cannon_steps, 5);
    reveal_with_fuel(cannon_jumps, 5);
}

// ---------------------------------------------------------------- building positions

/// The first `n` entries of `s`, with `pad` where `s` is shorter.
pub open spec fn padded<T>(s: Seq<T>, n: nat, pad: T) -> Seq<T> {
    Seq::new(
        n,
        |i: int|
            if i < s.len() {
                s[i]
            } else {
                pad
            },
    )
}

/// The position that the given fields describe; missing squares are empty, missing counts
/// are zero.
pub open spec fn position(
    squares: Seq<i16>,
    bag: Seq<u32>,
    first_color: int,
    ply: nat,
    no_progress: nat,
) -> Pos {
    Pos {
        sq: padded(squares, 32, EMPTY),
        bag: padded(bag, 14, 0u32),
        first_color,
        ply,
        no_progress,
    }
}

pub fn make_state(
    squares: Vec<i16>,
    bag: Vec<u32>,
    first_color: i16,
    ply: u32,
    no_progress: u32,
) -> (r: State)
    ensures
        r@ == position(squares@, bag@, first_color as int, ply as nat, no_progress as nat),
{
    let mut sq: [i16; NSQ] = [EMPTY; NSQ];
    let mut i: usize = 0;
    while i < NSQ && i < squares.len()
        invariant
            i <= NSQ,
            i <= squares@.len(),
            sq@.len() == 32,
            forall|j: int| 0 <= j < i ==> sq@[j] == squares@[j],
            forall|j: int| i <= j < 32 ==> sq@[j] == EMPTY,
        decreases NSQ - i,
    {
        sq[i] = squares[i];
        i = i + 1;
    }
    let mut b: [u32; NCODES] = [0u32; NCODES];
    let mut k: usize = 0;
    while k < NCODES && k < bag.len()
        invariant
            k <= NCODES,
            k <= bag@.len(),
            b@.len() == 14,
            forall|j: int| 0 <= j < k ==> b@[j] == bag@[j],
            forall|j: int| k <= j < 14 ==> b@[j] == 0,
        decreases NCODES - k,
    {
        b[k] = bag[k];
        k = k + 1;
    }
    let st = State { sq, bag: b, first_color, ply, no_progress };
    assert(st@.sq =~= padded(squares@, 32, EMPTY));
    assert(st@.bag =~= padded(bag@, 14, 0u32));
    st
}

/// The legal moves of a position, as pairs `(from, to)`.
pub fn legal_moves(
    squares: Vec<i16>,
    bag: Vec<u32>,
    first_color: i16,
    ply: u32,
    no_progress: u32,
) -> (r: Vec<(u8, u8)>)
    ensures
        r@ == all_moves(
            position(squares@, bag@, first_color as int, ply as nat, no_progress as nat),
        ),
{
    let st = make_state(squares, bag, first_color, ply, no_progress);
    let mut mv: Vec<(u8, u8)> = Vec::new();
    st.legal_moves(&mut mv);
    mv
}

} // verus!
