//! The static evaluation.
//!
//! Each term is a difference, the evaluated player's share minus the opponent's. The sum is
//! scaled and squashed by the hyperbolic tangent.
use vstd::prelude::*;

use crate::arith::{whole, Arith, Score};
use crate::board::{
    alive, can_capture, captures, code_color, code_role, color_of, coord, count_of, holds,
    in_bounds, is_piece, moves_from, moves_of, ortho, role_of, sqi, step, wf, Pos, State, DOWN,
    EMPTY, NSQ,
};

verus! {

// ---------------------------------------------------------------- features

/// Switches of search and evaluation. With none set the engine is the plain one: material,
/// move counts and full-width alpha-beta.
#[derive(Clone, Copy)]
pub struct Feat {
    /// Order by captures, killer moves and history.
    pub ordering: bool,
    /// Use the transposition table.
    pub tt: bool,
    /// Reduce late quiet moves.
    pub lmr: bool,
    /// Score a repeated position as a draw.
    pub rep: bool,
    /// Count face-down pieces at their public bag value.
    pub cover_mat: bool,
    /// A general is worth more the fewer enemy soldiers are alive.
    pub king_ctx: bool,
    /// Weigh each move by the value of the piece that makes it.
    pub vmob: bool,
    /// A piece is worth more the fewer enemies that can capture it are alive.
    pub dom_val: bool,
    /// Use the proximity- and escape-aware general danger.
    pub gen_danger: bool,
    /// At the root, put a marginal losing capture below a draw.
    pub no_draw_sac: bool,
}

impl Feat {
    /// Switches as bits, from the lowest: ordering, tt, lmr, rep, cover_mat, king_ctx, vmob,
    /// dom_val, gen_danger, no_draw_sac.
    pub open spec fn of_bits(b: u32) -> Feat {
        Feat {
            ordering: b & 1 != 0,
            tt: b & 2 != 0,
            lmr: b & 4 != 0,
            rep: b & 8 != 0,
            cover_mat: b & 16 != 0,
            king_ctx: b & 32 != 0,
            vmob: b & 64 != 0,
            dom_val: b & 128 != 0,
            gen_danger: b & 256 != 0,
            no_draw_sac: b & 512 != 0,
        }
    }

    pub open spec fn plain() -> Feat {
        Feat {
            ordering: false,
            tt: false,
            lmr: false,
            rep: false,
            cover_mat: false,
            king_ctx: false,
            vmob: false,
            dom_val: false,
            gen_danger: false,
            no_draw_sac: false,
        }
    }

    pub fn from_bits(b: u32) -> (r: Feat)
        ensures
            r == Feat::of_bits(b),
    {
        Feat {
            ordering: b & 1 != 0,
            tt: b & 2 != 0,
            lmr: b & 4 != 0,
            rep: b & 8 != 0,
            cover_mat: b & 16 != 0,
            king_ctx: b & 32 != 0,
            vmob: b & 64 != 0,
            dom_val: b & 128 != 0,
            gen_danger: b & 256 != 0,
            no_draw_sac: b & 512 != 0,
        }
    }

    pub fn none() -> (r: Feat)
        ensures
            r == Feat::plain(),
    {
        Feat {
            ordering: false,
            tt: false,
            lmr: false,
            rep: false,
            cover_mat: false,
            king_ctx: false,
            vmob: false,
            dom_val: false,
            gen_danger: false,
            no_draw_sac: false,
        }
    }
}

/// No bit set means no switch set.
pub proof fn law_no_bits_is_plain()
    ensures
        Feat::of_bits(0) == Feat::plain(),
{
    assert(0u32 & 1 == 0 && 0u32 & 2 == 0 && 0u32 & 4 == 0 && 0u32 & 8 == 0 && 0u32 & 16 == 0
        && 0u32 & 32 == 0 && 0u32 & 64 == 0 && 0u32 & 128 == 0 && 0u32 & 256 == 0 && 0u32 & 512
        == 0) by (bit_vector);
}

// ---------------------------------------------------------------- piece values

/// Material value of a role where the caller gives none.
pub open spec fn base_value(role: int) -> int {
    if role == 0 {
        30
    } else if role == 1 {
        10
    } else if role == 2 {
        10
    } else if role == 3 {
        14
    } else if role == 4 {
        8
    } else if role == 5 {
        12
    } else {
        4
    }
}

pub fn base_value_of(role: usize) -> (r: i32)
    requires
        role < 7,
    ensures
        r == base_value(role as int),
        0 < r <= 30,
{
    if role == 0 {
        30
    } else if role == 1 {
        10
    } else if role == 2 {
        10
    } else if role == 3 {
        14
    } else if role == 4 {
        8
    } else if role == 5 {
        12
    } else {
        4
    }
}

/// The values to use: the given ones if there are seven, else the built-in ones.
pub open spec fn values_or_base<A: Arith>(v: Seq<A>) -> Seq<A> {
    if v.len() == 7 {
        v
    } else {
        Seq::new(7, |r: int| whole::<A>(base_value(r)))
    }
}

pub fn whole_number<S: Score>(n: i64) -> (r: S)
    ensures
        r == whole::<S>(n as int),
{
    S::ratio(n, 1)
}

pub fn to_values<S: Score>(v: &Vec<S>) -> (r: [S; 7])
    ensures
        r@ == values_or_base(v@),
{
    let a: [S; 7] = if v.len() == 7 {
        [v[0], v[1], v[2], v[3], v[4], v[5], v[6]]
    } else {
        [
            whole_number(30),
            whole_number(10),
            whole_number(10),
            whole_number(14),
            whole_number(8),
            whole_number(12),
            whole_number(4),
        ]
    };
    assert(a@ =~= values_or_base(v@));
    a
}

// ---------------------------------------------------------------- material

/// Values of the pieces on the first `n` squares, those of `persp` added and the others taken
/// away, square by square.
pub open spec fn material<A: Arith>(sq: Seq<i16>, persp: int, values: Seq<A>, n: int) -> A
    decreases n,
{
    if n <= 0 {
        whole(0)
    } else {
        let m = material(sq, persp, values, n - 1);
        let c = sq[n - 1] as int;
        if c < 0 {
            m
        } else if color_of(c) == persp {
            A::sum_of(m, values[role_of(c)])
        } else {
            A::difference_of(m, values[role_of(c)])
        }
    }
}

/// Values of the unrevealed pieces of the first `n` roles.
pub open spec fn covered_material<A: Arith>(
    bag: Seq<u32>,
    persp: int,
    values: Seq<A>,
    n: int,
) -> A
    decreases n,
{
    if n <= 0 {
        whole(0)
    } else {
        let r = n - 1;
        let m = covered_material(bag, persp, values, r);
        let mine = A::product_of(whole(bag[persp * 7 + r] as int), values[r]);
        let theirs = A::product_of(whole(bag[(1 - persp) * 7 + r] as int), values[r]);
        A::difference_of(A::sum_of(m, mine), theirs)
    }
}

// ---------------------------------------------------------------- general in context

/// The bonus of a general that faces `n` enemy soldiers.
pub open spec fn king_bonus<A: Arith>(n: int) -> A {
    if n == 0 {
        A::ratio_of(141, 10)
    } else if n == 1 {
        A::ratio_of(41, 10)
    } else if n == 2 {
        A::ratio_of(8, 10)
    } else if n == 3 {
        A::ratio_of(2, 10)
    } else {
        whole(0)
    }
}

pub open spec fn king_ctx_term<A: Arith>(p: Pos, persp: int) -> A {
    let opp = 1 - persp;
    let a = if alive(p, persp * 7) > 0 {
        A::sum_of(whole(0), king_bonus(alive(p, opp * 7 + 6) as int))
    } else {
        whole(0)
    };
    if alive(p, opp * 7) > 0 {
        A::difference_of(a, king_bonus(alive(p, persp * 7 + 6) as int))
    } else {
        a
    }
}

// ---------------------------------------------------------------- domination

/// Enemy pieces among the first `n` roles that are alive and can capture a piece of `role`. A
/// cannon captures anything.
pub open spec fn dominators(p: Pos, enemy: int, role: int, n: int) -> nat
    decreases n,
{
    if n <= 0 {
        0
    } else {
        dominators(p, enemy, role, n - 1) + if n - 1 == 5 || captures(n - 1, role) {
            alive(p, enemy * 7 + n - 1)
        } else {
            0
        }
    }
}

/// What a piece gains where few enemies can capture it.
pub open spec fn domination_bonus<A: Arith>(p: Pos, c: int, values: Seq<A>) -> A {
    A::quotient_of(
        A::product_of(values[role_of(c)], A::ratio_of(1, 2)),
        A::sum_of(whole(1), whole(dominators(p, 1 - color_of(c), role_of(c), 7) as int)),
    )
}

pub open spec fn domination<A: Arith>(p: Pos, persp: int, values: Seq<A>, n: int) -> A
    decreases n,
{
    if n <= 0 {
        whole(0)
    } else {
        let t = domination(p, persp, values, n - 1);
        let c = p.sq[n - 1] as int;
        if c < 0 {
            t
        } else if color_of(c) == persp {
            A::sum_of(t, domination_bonus(p, c, values))
        } else {
            A::sum_of(t, A::negation_of(domination_bonus(p, c, values)))
        }
    }
}

// ---------------------------------------------------------------- mobility

/// Moves of the pieces on the first `n` squares, each weighed by the piece's value.
pub open spec fn weighed_moves<A: Arith>(sq: Seq<i16>, color: int, values: Seq<A>, n: int) -> A
    decreases n,
{
    if n <= 0 {
        whole(0)
    } else {
        let s = weighed_moves(sq, color, values, n - 1);
        if holds(sq, n - 1, color) {
            A::sum_of(
                s,
                A::product_of(
                    values[role_of(sq[n - 1] as int)],
                    whole(moves_from(sq, n - 1, color).len() as int),
                ),
            )
        } else {
            s
        }
    }
}

/// Weighed moves in units of an average piece.
pub open spec fn mobility_valued<A: Arith>(sq: Seq<i16>, color: int, values: Seq<A>) -> A {
    A::quotient_of(weighed_moves(sq, color, values, 32), whole(12))
}

// ---------------------------------------------------------------- danger to the general

/// The first of the squares from `n` on that holds `c`.
pub open spec fn find_code(sq: Seq<i16>, c: int, n: int) -> Option<int>
    decreases 32 - n,
{
    if n >= 32 {
        None
    } else if sq[n] == c {
        Some(n)
    } else {
        find_code(sq, c, n + 1)
    }
}

/// The code of the enemy soldiers of `color`.
pub open spec fn enemy_soldier(color: int) -> int {
    (1 - color) * 7 + 6
}

/// Points for what stands next to a general on `g` in the first `n` directions: two for a
/// face-down tile, which could be an enemy soldier that no search sees, and one for an enemy
/// soldier.
pub open spec fn danger_points(sq: Seq<i16>, g: int, color: int, n: int) -> int
    decreases n,
{
    if n <= 0 {
        0
    } else {
        danger_points(sq, g, color, n - 1) + match step(g, n - 1) {
            Some(s) => if sq[s] == DOWN {
                2int
            } else if sq[s] >= 0 && color_of(sq[s] as int) != color && role_of(sq[s] as int) == 6 {
                1
            } else {
                0
            },
            None => 0,
        }
    }
}

pub open spec fn king_danger<A: Arith>(sq: Seq<i16>, color: int) -> A {
    match find_code(sq, color * 7, 0) {
        Some(g) => whole(danger_points(sq, g, color, 4)),
        None => whole(0),
    }
}

/// `j` is a neighbour of `i`.
pub open spec fn adjacent(i: int, j: int) -> bool {
    exists|k: int| 0 <= k < 4 && #[trigger] step(i, k) == Some(j)
}

/// `i` is an empty square from which an empty neighbour of `g` is at most `d` steps away,
/// over empty squares.
pub open spec fn near(sq: Seq<i16>, g: int, d: int, i: int) -> bool
    decreases d,
{
    if d <= 0 {
        sq[i] == EMPTY && adjacent(g, i)
    } else {
        near(sq, g, d - 1, i) || (sq[i] == EMPTY && exists|j: int|
            0 <= j < 32 && #[trigger] adjacent(i, j) && near(sq, g, d - 1, j))
    }
}

/// A neighbour of `i` is at most `d` steps away from an empty neighbour of `g`.
pub open spec fn touches(sq: Seq<i16>, g: int, d: int, i: int) -> bool {
    exists|j: int| 0 <= j < 32 && adjacent(i, j) && #[trigger] near(sq, g, d, j)
}

/// The weight, in parts of 32, of a soldier on `i` against a general on `g`: the whole if it
/// stands next to the general, and half as much for each ply more that it needs to get there
/// and capture. Beyond five steps it does not count.
pub open spec fn soldier_weight(sq: Seq<i16>, g: int, i: int) -> int {
    if adjacent(g, i) {
        32
    } else if touches(sq, g, 0, i) {
        16
    } else if touches(sq, g, 1, i) {
        8
    } else if touches(sq, g, 2, i) {
        4
    } else if touches(sq, g, 3, i) {
        2
    } else if touches(sq, g, 4, i) {
        1
    } else {
        0
    }
}

/// The weights of the enemy soldiers on the first `n` squares.
pub open spec fn threat(sq: Seq<i16>, g: int, color: int, n: int) -> int
    decreases n,
{
    if n <= 0 {
        0
    } else {
        threat(sq, g, color, n - 1) + if sq[n - 1] == enemy_soldier(color) {
            soldier_weight(sq, g, n - 1)
        } else {
            0
        }
    }
}

/// `i` has a neighbour that holds `c`.
pub open spec fn beside(sq: Seq<i16>, i: int, c: int) -> bool {
    exists|k: int| 0 <= k < 4 && (#[trigger] step(i, k) matches Some(j) && sq[j] == c)
}

/// Empty neighbours of `g`, in the first `n` directions, that no enemy soldier stands beside.
pub open spec fn escapes(sq: Seq<i16>, g: int, color: int, n: int) -> nat
    decreases n,
{
    if n <= 0 {
        0
    } else {
        escapes(sq, g, color, n - 1) + match step(g, n - 1) {
            Some(s) => if sq[s] == EMPTY && !beside(sq, s, enemy_soldier(color)) {
                1nat
            } else {
                0
            },
            None => 0,
        }
    }
}

/// Directions among the first `n` that lead off the board: two in a corner, one on an edge.
pub open spec fn walls(g: int, n: int) -> nat
    decreases n,
{
    if n <= 0 {
        0
    } else {
        walls(g, n - 1) + if step(g, n - 1) is None {
            1nat
        } else {
            0
        }
    }
}

pub open spec fn at_most_four(n: nat) -> int {
    if n < 4 {
        n as int
    } else {
        4
    }
}

/// The danger to the general of `color`: the threat of the enemy soldiers, shared among the
/// squares it can flee to, and a part for standing at an edge that grows with the number of
/// enemy soldiers alive.
pub open spec fn general_danger<A: Arith>(p: Pos, color: int) -> A {
    match find_code(p.sq, color * 7, 0) {
        Some(g) => A::sum_of(
            A::quotient_of(
                A::ratio_of(threat(p.sq, g, color, 32) as i64, 32),
                A::sum_of(whole(1), whole(escapes(p.sq, g, color, 4) as int)),
            ),
            A::product_of(
                A::product_of(A::ratio_of(15, 100), whole(walls(g, 4) as int)),
                A::quotient_of(whole(at_most_four(alive(p, enemy_soldier(color)))), whole(4)),
            ),
        ),
        None => whole(0),
    }
}

// ---------------------------------------------------------------- the sum

/// Material with the terms that are switched on.
pub open spec fn material_terms<A: Arith>(p: Pos, persp: int, values: Seq<A>, feat: Feat) -> A {
    let m0 = material(p.sq, persp, values, 32);
    let m1 = if feat.cover_mat {
        A::sum_of(m0, covered_material(p.bag, persp, values, 7))
    } else {
        m0
    };
    let m2 = if feat.king_ctx {
        A::sum_of(m1, king_ctx_term(p, persp))
    } else {
        m1
    };
    if feat.dom_val {
        A::sum_of(m2, domination(p, persp, values, 32))
    } else {
        m2
    }
}

pub open spec fn mobility_term<A: Arith>(p: Pos, persp: int, values: Seq<A>, feat: Feat) -> A {
    let opp = 1 - persp;
    if feat.vmob {
        A::difference_of(
            mobility_valued(p.sq, persp, values),
            mobility_valued(p.sq, opp, values),
        )
    } else {
        whole(moves_of(p.sq, persp, 32).len() - moves_of(p.sq, opp, 32).len())
    }
}

pub open spec fn king_term<A: Arith>(p: Pos, persp: int, w_king: A, feat: Feat) -> A {
    let opp = 1 - persp;
    if A::is_same(w_king, whole(0)) {
        whole(0)
    } else if feat.gen_danger {
        A::difference_of(general_danger(p, persp), general_danger(p, opp))
    } else {
        A::difference_of(king_danger(p.sq, persp), king_danger(p.sq, opp))
    }
}

/// The evaluation of `p` for the player `persp`.
pub open spec fn evaluation<A: Arith>(
    p: Pos,
    persp: int,
    w_mob: A,
    w_king: A,
    values: Seq<A>,
    feat: Feat,
) -> A {
    if persp < 0 {
        whole(0)
    } else {
        let mat = material_terms(p, persp, values, feat);
        let mob = mobility_term(p, persp, values, feat);
        let king = king_term(p, persp, w_king, feat);
        A::tanh_of(
            A::quotient_of(
                A::difference_of(
                    A::sum_of(mat, A::product_of(w_mob, mob)),
                    A::product_of(w_king, king),
                ),
                whole(60),
            ),
        )
    }
}

impl State {
    /// Material on the board, `persp` minus the other color.
    pub fn material<S: Score>(&self, persp: i16, values: &[S; 7]) -> (r: S)
        ensures
            r == material(self.sq@, persp as int, values@, 32),
    {
        let mut m: S = whole_number(0);
        let mut i: usize = 0;
        while i < NSQ
            invariant
                i <= NSQ,
                self.sq@.len() == 32,
                values@.len() == 7,
                m == material(self.sq@, persp as int, values@, i as int),
            decreases NSQ - i,
        {
            let c = self.sq[i];
            if is_piece(c) {
                let v = values[code_role(c)];
                if code_color(c) == persp {
                    m = m.plus(v);
                } else {
                    m = m.minus(v);
                }
            }
            i = i + 1;
        }
        m
    }

    /// Material in the bag, `persp` minus the other color.
    pub fn covered_material<S: Score>(&self, persp: i16, values: &[S; 7]) -> (r: S)
        requires
            0 <= persp <= 1,
        ensures
            r == covered_material(self.bag@, persp as int, values@, 7),
    {
        let me = persp as usize;
        let opp = (1 - persp) as usize;
        let mut m: S = whole_number(0);
        let mut r: usize = 0;
        while r < 7
            invariant
                r <= 7,
                0 <= persp <= 1,
                me == persp,
                opp == 1 - persp,
                self.bag@.len() == 14,
                values@.len() == 7,
                m == covered_material(self.bag@, persp as int, values@, r as int),
            decreases 7 - r,
        {
            let mine: S = whole_number::<S>(self.bag[me * 7 + r] as i64).times(values[r]);
            let theirs: S = whole_number::<S>(self.bag[opp * 7 + r] as i64).times(values[r]);
            m = m.plus(mine).minus(theirs);
            r = r + 1;
        }
        m
    }

    /// Pieces of a code on the board or in the bag.
    pub fn alive_of(&self, code: usize) -> (r: u64)
        requires
            code < 14,
        ensures
            r == alive(self@, code as int),
            r <= 0x1_0000_0020,
    {
        let mut n: u64 = 0;
        let mut i: usize = 0;
        while i < NSQ
            invariant
                i <= NSQ,
                code < 14,
                self.sq@.len() == 32,
                n <= i,
                n == count_of(self.sq@, code as int, i as int),
            decreases NSQ - i,
        {
            if self.sq[i] == code as i16 {
                n = n + 1;
            }
            i = i + 1;
        }
        n + self.bag[code] as u64
    }

    /// Values of the generals in context, `persp` minus the other color.
    pub fn king_ctx_term<S: Score>(&self, persp: i16) -> (r: S)
        requires
            0 <= persp <= 1,
        ensures
            r == king_ctx_term::<S>(self@, persp as int),
    {
        let me = persp as usize;
        let opp = (1 - persp) as usize;
        let mut t: S = whole_number(0);
        if self.alive_of(me * 7) > 0 {
            t = t.plus(king_bonus_of(self.alive_of(opp * 7 + 6)));
        }
        if self.alive_of(opp * 7) > 0 {
            t = t.minus(king_bonus_of(self.alive_of(me * 7 + 6)));
        }
        t
    }

    /// Values of the pieces that few can capture, `persp` minus the other color.
    pub fn domination_value<S: Score>(&self, persp: i16, values: &[S; 7]) -> (r: S)
        requires
            0 <= persp <= 1,
            wf(self@),
        ensures
            r == domination(self@, persp as int, values@, 32),
    {
        let ghost p = self@;
        let mut counts: [u64; 14] = [0u64; 14];
        let mut code: usize = 0;
        while code < 14
            invariant
                code <= 14,
                p == self@,
                forall|k: int| 0 <= k < code ==> #[trigger] counts@[k] == alive(p, k),
                forall|k: int| 0 <= k < code ==> #[trigger] counts@[k] <= 0x1_0000_0020,
            decreases 14 - code,
        {
            let n = self.alive_of(code);
            counts[code] = n;
            code = code + 1;
        }
        let mut total: S = whole_number(0);
        let half: S = S::ratio(1, 2);
        let one: S = whole_number(1);
        let mut i: usize = 0;
        while i < NSQ
            invariant
                i <= NSQ,
                0 <= persp <= 1,
                p == self@,
                wf(p),
                values@.len() == 7,
                half == S::ratio_of(1, 2),
                one == whole::<S>(1),
                forall|k: int| 0 <= k < 14 ==> #[trigger] counts@[k] == alive(p, k),
                forall|k: int| 0 <= k < 14 ==> #[trigger] counts@[k] <= 0x1_0000_0020,
                total == domination(p, persp as int, values@, i as int),
            decreases NSQ - i,
        {
            let c = self.sq[i];
            assert(-2 <= p.sq[i as int] < 14);
            if is_piece(c) {
                let r = code_role(c);
                let enemy = (1 - code_color(c)) as usize;
                let mut dom: u64 = 0;
                let mut d: usize = 0;
                while d < 7
                    invariant
                        d <= 7,
                        r < 7,
                        enemy <= 1,
                        dom <= d * 0x1_0000_0020,
                        forall|k: int| 0 <= k < 14 ==> #[trigger] counts@[k] == alive(p, k),
                        forall|k: int| 0 <= k < 14 ==> #[trigger] counts@[k] <= 0x1_0000_0020,
                        dom == dominators(p, enemy as int, r as int, d as int),
                    decreases 7 - d,
                {
                    if d == 5 || can_capture(d, r) {
                        assert(counts@[enemy * 7 + d] == alive(p, enemy as int * 7 + d as int));
                        dom = dom + counts[enemy * 7 + d];
                    }
                    d = d + 1;
                }
                let bonus: S = values[r].times(half).over(one.plus(whole_number(dom as i64)));
                if code_color(c) == persp {
                    total = total.plus(bonus);
                } else {
                    total = total.plus(bonus.negated());
                }
            }
            i = i + 1;
        }
        total
    }

    /// Moves weighed by the value of the piece, in units of an average piece.
    pub fn mobility_valued<S: Score>(&self, color: i16, values: &[S; 7]) -> (r: S)
        ensures
            r == mobility_valued(self.sq@, color as int, values@),
    {
        let mut tmp: Vec<(u8, u8)> = Vec::new();
        let mut s: S = whole_number(0);
        let mut i: usize = 0;
        while i < NSQ
            invariant
                i <= NSQ,
                self.sq@.len() == 32,
                values@.len() == 7,
                s == weighed_moves(self.sq@, color as int, values@, i as int),
            decreases NSQ - i,
        {
            let c = self.sq[i];
            if is_piece(c) && code_color(c) == color {
                tmp.clear();
                self.piece_moves(i, c, color, &mut tmp);
                assert(tmp@ =~= moves_from(self.sq@, i as int, color as int));
                proof {
                    crate::board::lemma_few_moves_from(self.sq@, i as int, color as int);
                }
                s = s.plus(values[code_role(c)].times(whole_number(tmp.len() as i64)));
            }
            i = i + 1;
        }
        s.over(whole_number(12))
    }

    /// The square of a piece code, the first if there are several.
    fn find(&self, c: i16) -> (r: Option<usize>)
        ensures
            match r {
                Some(i) => i < NSQ && find_code(self.sq@, c as int, 0) == Some(i as int),
                None => find_code(self.sq@, c as int, 0) is None,
            },
    {
        let mut i: usize = 0;
        while i < NSQ
            invariant
                i <= NSQ,
                self.sq@.len() == 32,
                find_code(self.sq@, c as int, i as int) == find_code(self.sq@, c as int, 0),
            decreases NSQ - i,
        {
            if self.sq[i] == c {
                return Some(i);
            }
            i = i + 1;
        }
        None
    }

    /// Danger to the general of `color` from what stands next to it.
    pub fn king_danger<S: Score>(&self, color: i16) -> (r: S)
        requires
            0 <= color <= 1,
        ensures
            r == king_danger::<S>(self.sq@, color as int),
    {
        let g = match self.find(color * 7) {
            Some(g) => g,
            None => {
                return whole_number(0);
            },
        };
        let mut d: i64 = 0;
        let mut k: usize = 0;
        while k < 4
            invariant
                k <= 4,
                g < NSQ,
                self.sq@.len() == 32,
                0 <= d <= 2 * k,
                d == danger_points(self.sq@, g as int, color as int, k as int),
            decreases 4 - k,
        {
            match neighbour(g, k) {
                Some(s) => {
                    let c = self.sq[s];
                    if c == DOWN {
                        d = d + 2;
                    } else if is_piece(c) && code_color(c) != color && code_role(c) == 6 {
                        d = d + 1;
                    }
                },
                None => {},
            }
            k = k + 1;
        }
        whole_number(d)
    }
}

fn king_bonus_of<S: Score>(n: u64) -> (r: S)
    ensures
        r == king_bonus::<S>(n as int),
{
    if n == 0 {
        S::ratio(141, 10)
    } else if n == 1 {
        S::ratio(41, 10)
    } else if n == 2 {
        S::ratio(8, 10)
    } else if n == 3 {
        S::ratio(2, 10)
    } else {
        whole_number(0)
    }
}

/// The neighbour of square `i` in direction `k`.
pub fn neighbour(i: usize, k: usize) -> (r: Option<usize>)
    requires
        i < NSQ,
        k < 4,
    ensures
        match r {
            Some(s) => s < NSQ && step(i as int, k as int) == Some(s as int),
            None => step(i as int, k as int) is None,
        },
{
    let (file, rank) = coord(i);
    let (df, dr) = ortho(k);
    let (f, r) = (file + df, rank + dr);
    if in_bounds(f, r) {
        Some(sqi(f, r))
    } else {
        None
    }
}

/// `level[i]` says how many steps separate `i` from an empty neighbour of `g`, up to `d`;
/// `FAR` stands for more.
spec fn levelled(sq: Seq<i16>, g: int, d: int, level: Seq<u8>) -> bool {
    &&& level.len() == 32
    &&& forall|i: int|
        0 <= i < 32 ==> {
            &&& #[trigger] level[i] == FAR || level[i] <= d
            &&& level[i] == FAR ==> !near(sq, g, d, i)
            &&& level[i] != FAR ==> near(sq, g, level[i] as int, i)
            &&& level[i] != FAR && level[i] > 0 ==> !near(sq, g, level[i] - 1, i)
        }
}

const FAR: u8 = 255;

/// More steps reach no less.
proof fn lemma_near_grows(sq: Seq<i16>, g: int, d: int, e: int, i: int)
    requires
        0 <= d <= e,
        near(sq, g, d, i),
    ensures
        near(sq, g, e, i),
    decreases e - d,
{
    if d < e {
        lemma_near_grows(sq, g, d, e - 1, i);
    }
}

/// Where the levels say so, and only there, a square is within `e` steps.
proof fn lemma_levelled(sq: Seq<i16>, g: int, d: int, level: Seq<u8>, e: int, i: int)
    requires
        levelled(sq, g, d, level),
        0 <= e <= d < FAR,
        0 <= i < 32,
    ensures
        near(sq, g, e, i) <==> level[i] <= e,
{
    if level[i] <= e {
        lemma_near_grows(sq, g, level[i] as int, e, i);
    } else if near(sq, g, e, i) {
        if level[i] == FAR {
            lemma_near_grows(sq, g, e, d, i);
        } else {
            lemma_near_grows(sq, g, e, level[i] - 1, i);
        }
    }
}

/// A square on the board has its neighbours on the board.
proof fn lemma_step_on_board(i: int, k: int)
    requires
        0 <= i < 32,
        0 <= k < 4,
    ensures
        step(i, k) matches Some(j) ==> 0 <= j < 32,
{
}

impl State {
    /// The levels of the squares around a general on `g`, up to four steps.
    fn levels(&self, g: usize) -> (r: [u8; NSQ])
        requires
            g < NSQ,
        ensures
            levelled(self.sq@, g as int, 4, r@),
    {
        let ghost sq = self.sq@;
        let ghost gi = g as int;
        let mut level: [u8; NSQ] = [FAR; NSQ];
        let mut k: usize = 0;
        while k < 4
            invariant
                k <= 4,
                g < NSQ,
                gi == g,
                sq == self.sq@,
                sq.len() == 32,
                level@.len() == 32,
                forall|i: int|
                    0 <= i < 32 ==> #[trigger] level@[i] == (if sq[i] == EMPTY && exists|m: int|
                        0 <= m < k && #[trigger] step(gi, m) == Some(i) {
                        0u8
                    } else {
                        FAR
                    }),
            decreases 4 - k,
        {
            let ghost before = level@;
            match neighbour(g, k) {
                Some(s) => {
                    if self.sq[s] == EMPTY {
                        level[s] = 0;
                    }
                },
                None => {},
            }
            assert forall|i: int| 0 <= i < 32 implies #[trigger] level@[i] == (if sq[i] == EMPTY
                && exists|m: int| 0 <= m < k + 1 && #[trigger] step(gi, m) == Some(i) {
                0u8
            } else {
                FAR
            }) by {
                assert(before[i] == (if sq[i] == EMPTY && exists|m: int|
                    0 <= m < k && #[trigger] step(gi, m) == Some(i) {
                    0u8
                } else {
                    FAR
                }));
                assert(step(gi, k as int) == Some(i) || step(gi, k as int) != Some(i));
            }
            k = k + 1;
        }
        assert(levelled(sq, gi, 0, level@)) by {
            assert forall|i: int| 0 <= i < 32 implies (#[trigger] level@[i] == FAR || level@[i]
                <= 0) && (level@[i] == FAR ==> !near(sq, gi, 0, i)) && (level@[i] != FAR ==> near(
                sq,
                gi,
                level@[i] as int,
                i,
            )) by {}
        }
        let mut d: u8 = 1;
        while d <= 4
            invariant
                1 <= d <= 5,
                g < NSQ,
                gi == g,
                sq == self.sq@,
                sq.len() == 32,
                levelled(sq, gi, d - 1, level@),
            decreases 5 - d,
        {
            self.next_level(g, d, &mut level);
            d = d + 1;
        }
        level
    }

    /// Adds the squares that are exactly `d` steps away.
    fn next_level(&self, g: usize, d: u8, level: &mut [u8; NSQ])
        requires
            g < NSQ,
            1 <= d <= 4,
            levelled(self.sq@, g as int, d - 1, old(level)@),
        ensures
            levelled(self.sq@, g as int, d as int, final(level)@),
    {
        let ghost sq = self.sq@;
        let ghost gi = g as int;
        let ghost start = level@;
        let mut i: usize = 0;
        while i < NSQ
            invariant
                i <= NSQ,
                g < NSQ,
                gi == g,
                1 <= d <= 4,
                sq == self.sq@,
                sq.len() == 32,
                start.len() == 32,
                level@.len() == 32,
                levelled(sq, gi, d - 1, start),
                forall|n: int| i <= n < 32 ==> #[trigger] level@[n] == start[n],
                forall|n: int|
                    0 <= n < i ==> #[trigger] level@[n] == (if start[n] != FAR {
                        start[n]
                    } else if near(sq, gi, d as int, n) {
                        d
                    } else {
                        FAR
                    }),
            decreases NSQ - i,
        {
            let ghost before = level@;
            if level[i] == FAR && self.sq[i] == EMPTY {
                let mut hit: bool = false;
                let mut k: usize = 0;
                while k < 4
                    invariant
                        k <= 4,
                        i < NSQ,
                        g < NSQ,
                        gi == g,
                        1 <= d <= 4,
                        sq == self.sq@,
                        sq.len() == 32,
                        level@ == before,
                        before.len() == 32,
                        start.len() == 32,
                        levelled(sq, gi, d - 1, start),
                        forall|n: int| 0 <= n < 32 ==> #[trigger] before[n] == start[n]
                            || (start[n] == FAR && before[n] == d),
                        hit ==> exists|m: int|
                            0 <= m < 4 && (#[trigger] step(i as int, m) matches Some(j) && near(
                                sq,
                                gi,
                                d - 1,
                                j,
                            )),
                        !hit ==> forall|m: int|
                            0 <= m < k ==> (#[trigger] step(i as int, m) matches Some(j) ==> !near(
                                sq,
                                gi,
                                d - 1,
                                j,
                            )),
                    decreases 4 - k,
                {
                    match neighbour(i, k) {
                        Some(j) => {
                            proof {
                                lemma_levelled(sq, gi, d - 1, start, d - 1, j as int);
                            }
                            assert(before[j as int] == start[j as int] || (start[j as int] == FAR
                                && before[j as int] == d));
                            if level[j] < d {
                                assert(step(i as int, k as int) == Some(j as int));
                                hit = true;
                            }
                        },
                        None => {},
                    }
                    k = k + 1;
                }
                assert(start[i as int] == FAR);
                assert(!near(sq, gi, d - 1, i as int));
                assert(hit == near(sq, gi, d as int, i as int)) by {
                    if hit {
                        let m = choose|m: int|
                            0 <= m < 4 && (#[trigger] step(i as int, m) matches Some(j) && near(
                                sq,
                                gi,
                                d - 1,
                                j,
                            ));
                        let j = step(i as int, m)->0;
                        lemma_step_on_board(i as int, m);
                        assert(step(i as int, m) == Some(j));
                        assert(adjacent(i as int, j));
                    } else if near(sq, gi, d as int, i as int) {
                        let j = choose|j: int|
                            0 <= j < 32 && #[trigger] adjacent(i as int, j) && near(
                                sq,
                                gi,
                                d - 1,
                                j,
                            );
                        let m = choose|m: int|
                            0 <= m < 4 && #[trigger] step(i as int, m) == Some(j);
                        assert(step(i as int, m) == Some(j));
                    }
                }
                if hit {
                    level[i] = d;
                }
            } else if level[i] == FAR {
                assert(!near(sq, gi, d as int, i as int)) by {
                    assert(start[i as int] == FAR);
                    assert(!near(sq, gi, d - 1, i as int));
                }
            }
            i = i + 1;
        }
        assert forall|n: int| 0 <= n < 32 implies (#[trigger] level@[n] == FAR || level@[n] <= d)
            && (level@[n] == FAR ==> !near(sq, gi, d as int, n)) && (level@[n] != FAR ==> near(
            sq,
            gi,
            level@[n] as int,
            n,
        )) && (level@[n] != FAR && level@[n] > 0 ==> !near(sq, gi, level@[n] - 1, n)) by {
            assert(start[n] == FAR || start[n] <= d - 1);
            if start[n] == FAR {
                assert(!near(sq, gi, d - 1, n));
            }
        }
    }

    /// The weight of a soldier on `i`, in parts of 32.
    fn weight(&self, g: usize, level: &[u8; NSQ], i: usize) -> (r: i64)
        requires
            g < NSQ,
            i < NSQ,
            levelled(self.sq@, g as int, 4, level@),
        ensures
            r == soldier_weight(self.sq@, g as int, i as int),
            0 <= r <= 32,
    {
        let ghost sq = self.sq@;
        let ghost gi = g as int;
        let mut next_to: bool = false;
        let mut best: u8 = FAR;
        let mut k: usize = 0;
        while k < 4
            invariant
                k <= 4,
                g < NSQ,
                i < NSQ,
                gi == g,
                sq == self.sq@,
                levelled(sq, gi, 4, level@),
                next_to == exists|m: int| 0 <= m < k && #[trigger] step(gi, m) == Some(i as int),
                best == FAR || exists|m: int|
                    0 <= m < 4 && (#[trigger] step(i as int, m) matches Some(j) && level@[j]
                        == best),
                forall|m: int|
                    0 <= m < k ==> (#[trigger] step(i as int, m) matches Some(j) ==> best
                        <= level@[j]),
            decreases 4 - k,
        {
            match neighbour(g, k) {
                Some(s) => {
                    if s == i {
                        assert(step(gi, k as int) == Some(i as int));
                        next_to = true;
                    }
                },
                None => {},
            }
            match neighbour(i, k) {
                Some(j) => {
                    if level[j] < best {
                        best = level[j];
                        assert(step(i as int, k as int) == Some(j as int));
                    }
                },
                None => {},
            }
            k = k + 1;
        }
        assert forall|e: int| 0 <= e <= 4 implies #[trigger] touches(sq, gi, e, i as int) == (best
            <= e) by {
            if best <= e {
                let m = choose|m: int|
                    0 <= m < 4 && (#[trigger] step(i as int, m) matches Some(j) && level@[j]
                        == best);
                let j = step(i as int, m)->0;
                lemma_step_on_board(i as int, m);
                lemma_levelled(sq, gi, 4, level@, e, j);
                assert(adjacent(i as int, j) && near(sq, gi, e, j));
            } else if touches(sq, gi, e, i as int) {
                let j = choose|j: int|
                    0 <= j < 32 && adjacent(i as int, j) && #[trigger] near(sq, gi, e, j);
                let m = choose|m: int| 0 <= m < 4 && #[trigger] step(i as int, m) == Some(j);
                lemma_levelled(sq, gi, 4, level@, e, j);
                assert(step(i as int, m) == Some(j));
            }
        }
        assert(next_to == adjacent(gi, i as int));
        if next_to {
            32
        } else if best == 0 {
            16
        } else if best <= 1 {
            8
        } else if best <= 2 {
            4
        } else if best <= 3 {
            2
        } else if best <= 4 {
            1
        } else {
            0
        }
    }

    /// Whether a neighbour of `i` holds `c`.
    fn stands_beside(&self, i: usize, c: i16) -> (r: bool)
        requires
            i < NSQ,
        ensures
            r == beside(self.sq@, i as int, c as int),
    {
        let mut k: usize = 0;
        while k < 4
            invariant
                k <= 4,
                i < NSQ,
                self.sq@.len() == 32,
                forall|m: int|
                    0 <= m < k ==> !(#[trigger] step(i as int, m) matches Some(j) && self.sq@[j]
                        == c),
            decreases 4 - k,
        {
            match neighbour(i, k) {
                Some(s) => {
                    if self.sq[s] == c {
                        assert(step(i as int, k as int) == Some(s as int));
                        return true;
                    }
                },
                None => {},
            }
            k = k + 1;
        }
        false
    }

    /// Danger to the general of `color`: soldiers on their way, squares to flee to, edges.
    pub fn general_danger<S: Score>(&self, color: i16) -> (r: S)
        requires
            0 <= color <= 1,
        ensures
            r == general_danger::<S>(self@, color as int),
    {
        let sol: i16 = (1 - color) * 7 + 6;
        let g = match self.find(color * 7) {
            Some(g) => g,
            None => {
                return whole_number(0);
            },
        };
        let ghost sq = self.sq@;
        let ghost gi = g as int;
        let mut escape: i64 = 0;
        let mut wall: i64 = 0;
        let mut k: usize = 0;
        while k < 4
            invariant
                k <= 4,
                g < NSQ,
                gi == g,
                sq == self.sq@,
                sq.len() == 32,
                sol == enemy_soldier(color as int),
                0 <= escape <= k,
                0 <= wall <= k,
                escape == escapes(sq, gi, color as int, k as int),
                wall == walls(gi, k as int),
            decreases 4 - k,
        {
            match neighbour(g, k) {
                Some(s) => {
                    if self.sq[s] == EMPTY && !self.stands_beside(s, sol) {
                        escape = escape + 1;
                    }
                },
                None => {
                    wall = wall + 1;
                },
            }
            k = k + 1;
        }
        let mut t: i64 = 0;
        let level = self.levels(g);
        let mut i: usize = 0;
        while i < NSQ
            invariant
                i <= NSQ,
                g < NSQ,
                gi == g,
                sq == self.sq@,
                sq.len() == 32,
                sol == enemy_soldier(color as int),
                levelled(sq, gi, 4, level@),
                0 <= t <= 32 * i,
                t == threat(sq, gi, color as int, i as int),
            decreases NSQ - i,
        {
            if self.sq[i] == sol {
                t = t + self.weight(g, &level, i);
            }
            i = i + 1;
        }
        let soldiers = self.alive_of(sol as usize);
        let latent: i64 = if soldiers < 4 {
            soldiers as i64
        } else {
            4
        };
        let chase: S = S::ratio(t, 32).over(whole_number::<S>(1).plus(whole_number(escape)));
        let confined: S = S::ratio(15, 100).times(whole_number(wall)).times(
            whole_number::<S>(latent).over(whole_number(4)),
        );
        chase.plus(confined)
    }

    /// The evaluation for the player `persp`.
    pub fn eval<S: Score>(
        &self,
        persp: i16,
        w_mob: S,
        w_king: S,
        values: &[S; 7],
        feat: &Feat,
    ) -> (r: S)
        requires
            persp <= 1,
            wf(self@),
        ensures
            r == evaluation(self@, persp as int, w_mob, w_king, values@, *feat),
    {
        if persp < 0 {
            return whole_number(0);
        }
        let opp = 1 - persp;
        let mut mat: S = self.material(persp, values);
        if feat.cover_mat {
            mat = mat.plus(self.covered_material(persp, values));
        }
        if feat.king_ctx {
            mat = mat.plus(self.king_ctx_term(persp));
        }
        if feat.dom_val {
            mat = mat.plus(self.domination_value(persp, values));
        }
        let mob: S = if feat.vmob {
            self.mobility_valued(persp, values).minus(self.mobility_valued(opp, values))
        } else {
            whole_number(self.mobility(persp) as i64 - self.mobility(opp) as i64)
        };
        let king: S = if w_king.same(whole_number(0)) {
            whole_number(0)
        } else if feat.gen_danger {
            self.general_danger::<S>(persp).minus(self.general_danger(opp))
        } else {
            self.king_danger::<S>(persp).minus(self.king_danger(opp))
        };
        mat.plus(w_mob.times(mob)).minus(w_king.times(king)).over(whole_number(60)).tanh()
    }
}

} // verus!
