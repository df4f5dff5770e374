//! What the evaluation balances: in faithful numbers, and in fixed-point ones.
use vstd::prelude::*;

use crate::arith::{faithful, whole, Arith};
use crate::board::{
    after, color_of, lemma_few_moves_from, moves_of, role_of, wf, Pos, EMPTY,
};
use crate::eval::{
    covered_material, domination, domination_bonus, evaluation, king_ctx_term, king_term, material,
    material_terms, mobility_term, Feat,
};
use crate::expectimax::lemma_whole;
use crate::fixed::{lemma_tanh_like_bounded, lemma_tanh_like_odd, toward_zero, Fixed, ONE};
use crate::rules::{law_flip_keeps_pieces, law_moves_and_flips, playable};

verus! {

/// The codes on the first `n` squares are those of pieces, or negative.
spec fn codes_wf(sq: Seq<i16>, n: int) -> bool {
    forall|i: int| 0 <= i < n ==> (#[trigger] sq[i]) < 14
}

// ---------------------------------------------------------------- both sides

proof fn lemma_material_flips_sign<A: Arith>(
    sq: Seq<i16>,
    persp: int,
    values: Seq<A>,
    n: int,
    val: spec_fn(A) -> real,
)
    requires
        faithful(val),
        codes_wf(sq, n),
        0 <= persp <= 1,
    ensures
        val(material(sq, 1 - persp, values, n)) == -val(material(sq, persp, values, n)),
    decreases n,
{
    lemma_whole(0, val);
    if n > 0 {
        lemma_material_flips_sign(sq, persp, values, n - 1, val);
        assert(sq[n - 1] < 14);
    }
}

proof fn lemma_covered_flips_sign<A: Arith>(
    bag: Seq<u32>,
    persp: int,
    values: Seq<A>,
    n: int,
    val: spec_fn(A) -> real,
)
    requires
        faithful(val),
        0 <= persp <= 1,
    ensures
        val(covered_material(bag, 1 - persp, values, n)) == -val(
            covered_material(bag, persp, values, n),
        ),
    decreases n,
{
    lemma_whole(0, val);
    if n > 0 {
        lemma_covered_flips_sign(bag, persp, values, n - 1, val);
        assert(1 - (1 - persp) == persp);
    }
}

proof fn lemma_domination_flips_sign<A: Arith>(
    p: Pos,
    persp: int,
    values: Seq<A>,
    n: int,
    val: spec_fn(A) -> real,
)
    requires
        faithful(val),
        codes_wf(p.sq, n),
        0 <= persp <= 1,
    ensures
        val(domination(p, 1 - persp, values, n)) == -val(domination(p, persp, values, n)),
    decreases n,
{
    lemma_whole(0, val);
    if n > 0 {
        lemma_domination_flips_sign(p, persp, values, n - 1, val);
        assert(p.sq[n - 1] < 14);
    }
}

proof fn lemma_few_moves(sq: Seq<i16>, color: int, n: int)
    requires
        0 <= n <= 32,
    ensures
        moves_of(sq, color, n).len() <= 8 * n,
    decreases n,
{
    if n > 0 {
        lemma_few_moves(sq, color, n - 1);
        lemma_few_moves_from(sq, n - 1, color);
    }
}

proof fn lemma_mobility_flips_sign<A: Arith>(
    p: Pos,
    persp: int,
    values: Seq<A>,
    feat: Feat,
    val: spec_fn(A) -> real,
)
    requires
        faithful(val),
    ensures
        val(mobility_term(p, 1 - persp, values, feat)) == -val(
            mobility_term(p, persp, values, feat),
        ),
{
    let a = moves_of(p.sq, persp, 32).len();
    let b = moves_of(p.sq, 1 - persp, 32).len();
    assert(1 - (1 - persp) == persp);
    lemma_few_moves(p.sq, persp, 32);
    lemma_few_moves(p.sq, 1 - persp, 32);
    lemma_whole(a - b, val);
    lemma_whole(b - a, val);
}

/// The evaluation lies between -1 and 1.
pub proof fn law_evaluation_bounded<A: Arith>(
    p: Pos,
    persp: int,
    w_mob: A,
    w_king: A,
    values: Seq<A>,
    feat: Feat,
    val: spec_fn(A) -> real,
)
    requires
        faithful(val),
    ensures
        -1real < val(evaluation(p, persp, w_mob, w_king, values, feat)) < 1real,
{
    lemma_whole(0, val);
}

/// What is good for one side is bad for the other: the evaluation for one color is the negative
/// of the evaluation for the other.
pub proof fn law_evaluation_is_zero_sum<A: Arith>(
    p: Pos,
    persp: int,
    w_mob: A,
    w_king: A,
    values: Seq<A>,
    feat: Feat,
    val: spec_fn(A) -> real,
)
    requires
        faithful(val),
        wf(p),
        0 <= persp <= 1,
    ensures
        val(evaluation(p, 1 - persp, w_mob, w_king, values, feat)) == -val(evaluation(
            p,
            persp,
            w_mob,
            w_king,
            values,
            feat,
        )),
{
    let opp = 1 - persp;
    assert(1 - opp == persp);
    assert(codes_wf(p.sq, 32));
    lemma_whole(0, val);
    lemma_whole(60, val);
    lemma_material_flips_sign(p.sq, persp, values, 32, val);
    lemma_covered_flips_sign(p.bag, persp, values, 7, val);
    lemma_domination_flips_sign(p, persp, values, 32, val);
    lemma_mobility_flips_sign(p, persp, values, feat, val);
    assert(val(king_ctx_term::<A>(p, opp)) == -val(king_ctx_term::<A>(p, persp)));
    let mat = val(material_terms(p, persp, values, feat));
    let mob = val(mobility_term(p, persp, values, feat));
    let king = val(king_term(p, persp, w_king, feat));
    assert(val(material_terms(p, opp, values, feat)) == -mat);
    assert(val(king_term(p, opp, w_king, feat)) == -king);
    let wm = val(w_mob);
    let wk = val(w_king);
    assert(wm * -mob == -(wm * mob)) by (nonlinear_arith);
    assert(wk * -king == -(wk * king)) by (nonlinear_arith);
    let sum = mat + wm * mob - wk * king;
    assert((-sum) / 60real == -(sum / 60real)) by (nonlinear_arith);
}

// ---------------------------------------------------------------- flips

/// The sign of a piece in the balance of a player.
spec fn signed(code: int, persp: int, value: real) -> real {
    if color_of(code) == persp {
        value
    } else {
        -value
    }
}

/// What the content of a square adds to the balance of a player.
spec fn worth<A: Arith>(c: int, persp: int, values: Seq<A>, val: spec_fn(A) -> real) -> real {
    if c < 0 {
        0real
    } else {
        signed(c, persp, val(values[role_of(c)]))
    }
}

proof fn lemma_material_update<A: Arith>(
    sq: Seq<i16>,
    i: int,
    c: i16,
    persp: int,
    values: Seq<A>,
    n: int,
    val: spec_fn(A) -> real,
)
    requires
        faithful(val),
        0 <= i < sq.len(),
        0 <= n <= sq.len(),
    ensures
        val(material(sq.update(i, c), persp, values, n)) == val(material(sq, persp, values, n))
            + if i < n {
            worth(c as int, persp, values, val) - worth(sq[i] as int, persp, values, val)
        } else {
            0real
        },
    decreases n,
{
    if n > 0 {
        lemma_material_update(sq, i, c, persp, values, n - 1, val);
    }
}

proof fn lemma_covered_loses<A: Arith>(
    bag: Seq<u32>,
    code: int,
    persp: int,
    values: Seq<A>,
    n: int,
    val: spec_fn(A) -> real,
)
    requires
        faithful(val),
        bag.len() == 14,
        0 <= code < 14,
        bag[code] > 0,
        0 <= persp <= 1,
        0 <= n <= 7,
    ensures
        val(covered_material(bag.update(code, (bag[code] - 1) as u32), persp, values, n))
            == val(covered_material(bag, persp, values, n)) - if role_of(code) < n {
            signed(code, persp, val(values[role_of(code)]))
        } else {
            0real
        },
    decreases n,
{
    if n > 0 {
        lemma_covered_loses(bag, code, persp, values, n - 1, val);
        let less = bag.update(code, (bag[code] - 1) as u32);
        let r = n - 1;
        let v = val(values[r]);
        let mine = persp * 7 + r;
        let theirs = (1 - persp) * 7 + r;
        lemma_whole(bag[mine] as int, val);
        lemma_whole(bag[theirs] as int, val);
        lemma_whole(less[mine] as int, val);
        lemma_whole(less[theirs] as int, val);
        let x = bag[code] as real;
        assert((x - 1real) * v == x * v - v) by (nonlinear_arith);
        if role_of(code) == r {
            assert(code == mine || code == theirs);
        }
    }
}

/// A flip creates no value: the material on the board and in the bag together stays the same,
/// and so does the value of the generals in context.
pub proof fn law_flip_keeps_material<A: Arith>(
    p: Pos,
    m: (u8, u8),
    revealed: int,
    persp: int,
    values: Seq<A>,
    feat: Feat,
    val: spec_fn(A) -> real,
)
    requires
        faithful(val),
        wf(p),
        playable(p, m, revealed),
        m.0 == m.1,
        0 <= persp <= 1,
        feat.cover_mat,
        !feat.dom_val,
    ensures
        val(material_terms(after(p, m, revealed), persp, values, feat)) == val(material_terms(
            p,
            persp,
            values,
            feat,
        )),
{
    law_moves_and_flips(p, m);
    lemma_material_update(p.sq, m.0 as int, revealed as i16, persp, values, 32, val);
    lemma_covered_loses(p.bag, revealed, persp, values, 7, val);
    law_flip_keeps_pieces(p, m, revealed, 0);
    law_flip_keeps_pieces(p, m, revealed, 7);
    law_flip_keeps_pieces(p, m, revealed, 6);
    law_flip_keeps_pieces(p, m, revealed, 13);
}

/// The material of a player: on the board and in the bag, less the opponent's.
pub open spec fn full_material<A: Arith>(
    p: Pos,
    persp: int,
    values: Seq<A>,
    val: spec_fn(A) -> real,
) -> real {
    val(material(p.sq, persp, values, 32)) + val(covered_material(p.bag, persp, values, 7))
}

/// Only a capture changes the material: a flip and a quiet move leave it as it is, and a capture
/// takes away the value of the victim, from the player who owned it.
pub proof fn law_only_captures_change_material<A: Arith>(
    p: Pos,
    m: (u8, u8),
    revealed: int,
    persp: int,
    values: Seq<A>,
    val: spec_fn(A) -> real,
)
    requires
        faithful(val),
        wf(p),
        playable(p, m, revealed),
        0 <= persp <= 1,
    ensures
        ({
            let before = full_material(p, persp, values, val);
            let now = full_material(after(p, m, revealed), persp, values, val);
            let victim = p.sq[m.1 as int] as int;
            if m.0 == m.1 || victim < 0 {
                now == before
            } else if color_of(victim) == persp {
                now == before - val(values[role_of(victim)])
            } else {
                now == before + val(values[role_of(victim)])
            }
        }),
{
    law_moves_and_flips(p, m);
    if m.0 == m.1 {
        lemma_material_update(p.sq, m.0 as int, revealed as i16, persp, values, 32, val);
        lemma_covered_loses(p.bag, revealed, persp, values, 7, val);
    } else {
        let piece = p.sq[m.0 as int];
        let s1 = p.sq.update(m.1 as int, piece);
        lemma_material_update(p.sq, m.1 as int, piece, persp, values, 32, val);
        lemma_material_update(s1, m.0 as int, EMPTY, persp, values, 32, val);
    }
}

// ---------------------------------------------------------------- every type of numbers

/// While the colors are unbound a position is worth nothing.
pub proof fn law_unbound_is_worth_nothing<A: Arith>(
    p: Pos,
    persp: int,
    w_mob: A,
    w_king: A,
    values: Seq<A>,
    feat: Feat,
)
    requires
        persp < 0,
    ensures
        evaluation(p, persp, w_mob, w_king, values, feat) == whole::<A>(0),
{
}

/// Where the weight of the general is zero, it does not matter how its danger is measured.
pub proof fn law_weightless_danger<A: Arith>(
    p: Pos,
    persp: int,
    w_mob: A,
    w_king: A,
    values: Seq<A>,
    feat: Feat,
    gen_danger: bool,
)
    requires
        A::is_same(w_king, whole(0)),
    ensures
        evaluation(p, persp, w_mob, w_king, values, (Feat { gen_danger, ..feat })) == evaluation(
            p,
            persp,
            w_mob,
            w_king,
            values,
            feat,
        ),
{
    let other = Feat { gen_danger, ..feat };
    assert(material_terms(p, persp, values, other) == material_terms(p, persp, values, feat));
    assert(mobility_term(p, persp, values, other) == mobility_term(p, persp, values, feat));
}

// ---------------------------------------------------------------- fixed-point numbers

/// The evaluation in fixed-point numbers lies between -1 and 1, whatever the weights.
pub proof fn law_fixed_evaluation_bounded(
    p: Pos,
    persp: int,
    w_mob: Fixed,
    w_king: Fixed,
    values: Seq<Fixed>,
    feat: Feat,
)
    ensures
        -ONE <= evaluation(p, persp, w_mob, w_king, values, feat).raw <= ONE,
{
    assert forall|x: Fixed| -ONE <= (#[trigger] Fixed::tanh_of(x)).raw <= ONE by {
        lemma_tanh_like_bounded(x.raw as int);
    }
}

/// Counts and values for which no sum of unrevealed material reaches the ends of the range: up to
/// a thousand pieces of each kind, worth up to a hundred thousand each.
pub open spec fn moderate(bag: Seq<u32>, values: Seq<Fixed>) -> bool {
    &&& forall|i: int| 0 <= i < 14 ==> #[trigger] bag[i] <= 1000
    &&& forall|r: int|
        0 <= r < 7 ==> -100_000 * ONE <= (#[trigger] values[r]).raw <= 100_000 * ONE
}

proof fn lemma_fixed_product(n: u32, v: Fixed)
    requires
        n <= 1000,
        -100_000 * ONE <= v.raw <= 100_000 * ONE,
    ensures
        Fixed::product_of(whole(n as int), v).raw == n * v.raw,
        -100_000_000_000_000_000 <= n * v.raw <= 100_000_000_000_000_000,
{
    let k = n as int;
    let x = v.raw as int;
    assert(whole::<Fixed>(k).raw == k * ONE);
    assert((k * ONE) * x == (k * x) * ONE) by (nonlinear_arith);
    assert(-100_000_000_000_000_000 <= k * x <= 100_000_000_000_000_000) by (nonlinear_arith)
        requires
            0 <= k <= 1000,
            -100_000_000_000_000 <= x <= 100_000_000_000_000,
    ;
    let y = k * x;
    assert(toward_zero(y * ONE, ONE as int) == y);
}

proof fn lemma_fixed_covered(bag: Seq<u32>, persp: int, values: Seq<Fixed>, n: int)
    requires
        moderate(bag, values),
        0 <= persp <= 1,
        0 <= n <= 7,
    ensures
        covered_material(bag, 1 - persp, values, n).raw == -covered_material(
            bag,
            persp,
            values,
            n,
        ).raw,
        -200_000_000_000_000_000 * n <= covered_material(bag, persp, values, n).raw
            <= 200_000_000_000_000_000 * n,
    decreases n,
{
    if n > 0 {
        lemma_fixed_covered(bag, persp, values, n - 1);
        let r = n - 1;
        assert(1 - (1 - persp) == persp);
        assert(bag[persp * 7 + r] <= 1000 && bag[(1 - persp) * 7 + r] <= 1000);
        assert(-100_000 * ONE <= values[r].raw <= 100_000 * ONE);
        lemma_fixed_product(bag[persp * 7 + r], values[r]);
        lemma_fixed_product(bag[(1 - persp) * 7 + r], values[r]);
    }
}

proof fn lemma_fixed_material(sq: Seq<i16>, persp: int, values: Seq<Fixed>, n: int)
    requires
        codes_wf(sq, n),
        0 <= persp <= 1,
    ensures
        material(sq, 1 - persp, values, n).raw == -material(sq, persp, values, n).raw,
    decreases n,
{
    if n > 0 {
        lemma_fixed_material(sq, persp, values, n - 1);
        assert(sq[n - 1] < 14);
    }
}

proof fn lemma_fixed_domination(p: Pos, persp: int, values: Seq<Fixed>, n: int)
    requires
        codes_wf(p.sq, n),
        0 <= persp <= 1,
    ensures
        domination(p, 1 - persp, values, n).raw == -domination(p, persp, values, n).raw,
    decreases n,
{
    if n > 0 {
        lemma_fixed_domination(p, persp, values, n - 1);
        assert(p.sq[n - 1] < 14);
        let c = p.sq[n - 1] as int;
        if c >= 0 {
            let b = domination_bonus(p, c, values);
            assert(b.raw >= -i64::MAX);
        }
    }
}

proof fn lemma_fixed_material_terms(p: Pos, persp: int, values: Seq<Fixed>, feat: Feat)
    requires
        wf(p),
        0 <= persp <= 1,
        feat.cover_mat ==> moderate(p.bag, values),
    ensures
        material_terms(p, 1 - persp, values, feat).raw == -material_terms(
            p,
            persp,
            values,
            feat,
        ).raw,
{
    assert(1 - (1 - persp) == persp);
    assert(codes_wf(p.sq, 32));
    lemma_fixed_material(p.sq, persp, values, 32);
    if feat.cover_mat {
        lemma_fixed_covered(p.bag, persp, values, 7);
    }
    lemma_fixed_domination(p, persp, values, 32);
    lemma_fixed_king_ctx(p, persp);
}

proof fn lemma_fixed_king_ctx(p: Pos, persp: int)
    requires
        0 <= persp <= 1,
    ensures
        king_ctx_term::<Fixed>(p, 1 - persp).raw == -king_ctx_term::<Fixed>(p, persp).raw,
{
    assert(1 - (1 - persp) == persp);
}

proof fn lemma_fixed_mobility(p: Pos, persp: int, values: Seq<Fixed>, feat: Feat)
    ensures
        mobility_term(p, 1 - persp, values, feat).raw == -mobility_term(
            p,
            persp,
            values,
            feat,
        ).raw,
{
    assert(1 - (1 - persp) == persp);
    lemma_few_moves(p.sq, persp, 32);
    lemma_few_moves(p.sq, 1 - persp, 32);
}

proof fn lemma_fixed_king(p: Pos, persp: int, w_king: Fixed, feat: Feat)
    ensures
        king_term(p, 1 - persp, w_king, feat).raw == -king_term(p, persp, w_king, feat).raw,
{
    assert(1 - (1 - persp) == persp);
}

/// The sum of the terms, scaled and squashed, is odd in the terms.
proof fn lemma_fixed_sum_odd(
    a: (Fixed, Fixed, Fixed),
    b: (Fixed, Fixed, Fixed),
    w_mob: Fixed,
    w_king: Fixed,
)
    requires
        b.0.raw == -a.0.raw,
        b.1.raw == -a.1.raw,
        b.2.raw == -a.2.raw,
    ensures
        fixed_sum(b, w_mob, w_king).raw == -fixed_sum(a, w_mob, w_king).raw,
{
    lemma_fixed_products_odd(w_mob, a.1, b.1);
    lemma_fixed_products_odd(w_king, a.2, b.2);
    let sum = Fixed::difference_of(
        Fixed::sum_of(a.0, Fixed::product_of(w_mob, a.1)),
        Fixed::product_of(w_king, a.2),
    );
    assert(whole::<Fixed>(60).raw == 60 * ONE);
    lemma_tanh_like_odd(Fixed::quotient_of(sum, whole(60)).raw as int);
}

spec fn fixed_sum(t: (Fixed, Fixed, Fixed), w_mob: Fixed, w_king: Fixed) -> Fixed {
    Fixed::tanh_of(
        Fixed::quotient_of(
            Fixed::difference_of(
                Fixed::sum_of(t.0, Fixed::product_of(w_mob, t.1)),
                Fixed::product_of(w_king, t.2),
            ),
            whole(60),
        ),
    )
}

/// In fixed-point numbers the evaluation for one color is exactly the negative of that for the
/// other, where no sum of unrevealed material reaches the ends of the range.
pub proof fn law_fixed_evaluation_is_zero_sum(
    p: Pos,
    persp: int,
    w_mob: Fixed,
    w_king: Fixed,
    values: Seq<Fixed>,
    feat: Feat,
)
    requires
        wf(p),
        0 <= persp <= 1,
        feat.cover_mat ==> moderate(p.bag, values),
    ensures
        evaluation(p, 1 - persp, w_mob, w_king, values, feat).raw == -evaluation(
            p,
            persp,
            w_mob,
            w_king,
            values,
            feat,
        ).raw,
{
    let opp = 1 - persp;
    lemma_fixed_material_terms(p, persp, values, feat);
    lemma_fixed_mobility(p, persp, values, feat);
    lemma_fixed_king(p, persp, w_king, feat);
    lemma_fixed_sum_odd(
        (
            material_terms(p, persp, values, feat),
            mobility_term(p, persp, values, feat),
            king_term(p, persp, w_king, feat),
        ),
        (
            material_terms(p, opp, values, feat),
            mobility_term(p, opp, values, feat),
            king_term(p, opp, w_king, feat),
        ),
        w_mob,
        w_king,
    );
}

proof fn lemma_fixed_products_odd(w: Fixed, a: Fixed, b: Fixed)
    requires
        b.raw == -a.raw,
    ensures
        Fixed::product_of(w, b).raw == -Fixed::product_of(w, a).raw,
{
    let x = w.raw as int;
    let y = a.raw as int;
    assert(x * -y == -(x * y)) by (nonlinear_arith);
}

} // verus!
