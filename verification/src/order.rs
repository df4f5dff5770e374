//! The order in which moves are searched.
use vstd::prelude::*;

use crate::board::{code_role, is_piece, role_of, Pos, State};
use crate::eval::{base_value, base_value_of};

verus! {

// ---------------------------------------------------------------- stable sorting by a key

/// Where an entry with `key` goes among the first `n` entries: behind all that are at least as
/// large, seen from the end.
pub open spec fn slot(t: Seq<(i32, (u8, u8))>, key: i32, n: int) -> int
    decreases n,
{
    if n > 0 && t[n - 1].0 < key {
        slot(t, key, n - 1)
    } else {
        n
    }
}

/// The entries with the largest key first; entries with equal keys keep their order.
pub open spec fn sorted(s: Seq<(i32, (u8, u8))>) -> Seq<(i32, (u8, u8))>
    decreases s.len(),
{
    if s.len() == 0 {
        s
    } else {
        let t = sorted(s.drop_last());
        t.insert(slot(t, s.last().0, t.len() as int), s.last())
    }
}

/// The moves of keyed entries.
pub open spec fn unkeyed(s: Seq<(i32, (u8, u8))>) -> Seq<(u8, u8)> {
    s.map_values(|e: (i32, (u8, u8))| e.1)
}

pub fn sort_keyed(v: &Vec<(i32, (u8, u8))>) -> (r: Vec<(i32, (u8, u8))>)
    ensures
        r@ == sorted(v@),
{
    let mut out: Vec<(i32, (u8, u8))> = Vec::with_capacity(v.len());
    let mut i: usize = 0;
    while i < v.len()
        invariant
            i <= v@.len(),
            out@.len() == i,
            out@ == sorted(v@.take(i as int)),
        decreases v@.len() - i,
    {
        let x = v[i];
        let ghost t = out@;
        let mut pos: usize = out.len();
        while pos > 0 && out[pos - 1].0 < x.0
            invariant
                pos <= out@.len(),
                out@ == t,
                slot(t, x.0, pos as int) == slot(t, x.0, t.len() as int),
            decreases pos,
        {
            pos = pos - 1;
        }
        assert(v@.take(i + 1).drop_last() == v@.take(i as int));
        out.insert(pos, x);
        i = i + 1;
    }
    assert(v@.take(v@.len() as int) == v@);
    out
}

pub proof fn lemma_slot(t: Seq<(i32, (u8, u8))>, key: i32, n: int)
    requires
        0 <= n <= t.len(),
    ensures
        0 <= slot(t, key, n) <= n,
        forall|j: int| slot(t, key, n) <= j < n ==> (#[trigger] t[j]).0 < key,
        slot(t, key, n) > 0 ==> t[slot(t, key, n) - 1].0 >= key,
    decreases n,
{
    if n > 0 && t[n - 1].0 < key {
        lemma_slot(t, key, n - 1);
    }
}

/// Sorting puts the larger key first.
pub proof fn law_sorted_descends(s: Seq<(i32, (u8, u8))>, i: int, j: int)
    requires
        0 <= i <= j < sorted(s).len(),
    ensures
        sorted(s)[i].0 >= sorted(s)[j].0,
    decreases s.len(),
{
    if s.len() > 0 {
        let t = sorted(s.drop_last());
        let k = slot(t, s.last().0, t.len() as int);
        lemma_slot(t, s.last().0, t.len() as int);
        if i < k && k <= j {
            law_sorted_descends(s.drop_last(), i, k - 1);
            if j > k {
                law_sorted_descends(s.drop_last(), i, j - 1);
            }
        } else if i < k && j < k {
            law_sorted_descends(s.drop_last(), i, j);
        } else if i > k {
            law_sorted_descends(s.drop_last(), i - 1, j - 1);
        }
    }
}

/// Sorting keeps the entries.
pub proof fn law_sorted_keeps(s: Seq<(i32, (u8, u8))>)
    ensures
        sorted(s).to_multiset() == s.to_multiset(),
        sorted(s).len() == s.len(),
    decreases s.len(),
{
    broadcast use vstd::seq_lib::group_to_multiset_ensures;

    if s.len() > 0 {
        let t = sorted(s.drop_last());
        law_sorted_keeps(s.drop_last());
        lemma_slot(t, s.last().0, t.len() as int);
        assert(s == s.drop_last().push(s.last()));
    }
}

pub open spec fn has_key(key: i32) -> spec_fn((i32, (u8, u8))) -> bool {
    |e: (i32, (u8, u8))| e.0 == key
}

/// The entries with a given key.
pub open spec fn with_key(s: Seq<(i32, (u8, u8))>, key: i32) -> Seq<(i32, (u8, u8))> {
    s.filter(has_key(key))
}

/// Sorting keeps the order of entries with equal keys.
#[verifier::spinoff_prover]
#[verifier::rlimit(40)]
pub proof fn law_sorted_is_stable(s: Seq<(i32, (u8, u8))>, key: i32)
    ensures
        with_key(sorted(s), key) == with_key(s, key),
    decreases s.len(),
{
    if s.len() > 0 {
        let x = s.last();
        let t = sorted(s.drop_last());
        let k = slot(t, x.0, t.len() as int);
        law_sorted_is_stable(s.drop_last(), key);
        lemma_slot(t, x.0, t.len() as int);
        let pred = has_key(key);
        let head = t.take(k);
        let tail = t.skip(k);
        assert(t =~= head + tail);
        assert(t.insert(k, x) =~= head + seq![x] + tail);
        assert(s =~= s.drop_last() + seq![x]);
        lemma_filter_one(x, pred);
        Seq::filter_distributes_over_add(head, tail, pred);
        Seq::filter_distributes_over_add(head + seq![x], tail, pred);
        Seq::filter_distributes_over_add(head, seq![x], pred);
        Seq::filter_distributes_over_add(s.drop_last(), seq![x], pred);
        let h = head.filter(pred);
        let l = tail.filter(pred);
        if x.0 == key {
            assert forall|j: int| 0 <= j < tail.len() implies !pred(#[trigger] tail[j]) by {
                assert(tail[j] == t[k + j]);
            }
            lemma_filter_none(tail, pred);
            assert(h + seq![x] + l =~= h + l + seq![x]);
        } else {
            assert(h + seq![] + l =~= h + l);
            assert(h + l + seq![] =~= h + l);
        }
    }
}

proof fn lemma_filter_one<T>(x: T, pred: spec_fn(T) -> bool)
    ensures
        seq![x].filter(pred) == if pred(x) {
            seq![x]
        } else {
            seq![]
        },
{
    reveal(Seq::filter);
    assert(seq![x].drop_last() =~= Seq::<T>::empty());
    assert(seq![x].last() == x);
    assert(Seq::<T>::empty().filter(pred) =~= Seq::<T>::empty());
    assert(Seq::<T>::empty().push(x) =~= seq![x]);
}

proof fn lemma_filter_none<T>(s: Seq<T>, pred: spec_fn(T) -> bool)
    requires
        forall|j: int| 0 <= j < s.len() ==> !pred(#[trigger] s[j]),
    ensures
        s.filter(pred) == Seq::<T>::empty(),
    decreases s.len(),
{
    reveal(Seq::filter);
    if s.len() > 0 {
        lemma_filter_none(s.drop_last(), pred);
    }
}

// ---------------------------------------------------------------- plain order

/// Captures by the value of the victim, then quiet moves, flips last.
pub open spec fn order_key(p: Pos, m: (u8, u8)) -> int {
    let t = p.sq[m.1 as int] as int;
    if m.0 == m.1 {
        -1
    } else if t >= 0 {
        100 + base_value(role_of(t))
    } else {
        0
    }
}

pub open spec fn plain_entries(p: Pos, mv: Seq<(u8, u8)>) -> Seq<(i32, (u8, u8))> {
    mv.map_values(|m: (u8, u8)| (order_key(p, m) as i32, m))
}

/// Moves in plain order.
pub open spec fn plainly_ordered(p: Pos, mv: Seq<(u8, u8)>) -> Seq<(u8, u8)> {
    unkeyed(sorted(plain_entries(p, mv)))
}

/// Both squares of every move are on the board.
pub open spec fn moves_on_board(mv: Seq<(u8, u8)>) -> bool {
    forall|i: int| 0 <= i < mv.len() ==> (#[trigger] mv[i]).0 < 32 && mv[i].1 < 32
}

pub fn order_key_of(st: &State, m: (u8, u8)) -> (r: i32)
    requires
        m.1 < 32,
    ensures
        r == order_key(st@, m),
{
    if m.0 == m.1 {
        return -1;
    }
    let t = st.sq[m.1 as usize];
    if is_piece(t) {
        100 + base_value_of(code_role(t))
    } else {
        0
    }
}

fn take_moves(v: &Vec<(i32, (u8, u8))>) -> (r: Vec<(u8, u8)>)
    ensures
        r@ == unkeyed(v@),
{
    let mut out: Vec<(u8, u8)> = Vec::with_capacity(v.len());
    let mut i: usize = 0;
    while i < v.len()
        invariant
            i <= v@.len(),
            out@ == unkeyed(v@).take(i as int),
        decreases v@.len() - i,
    {
        out.push(v[i].1);
        assert(unkeyed(v@).take(i + 1) =~= unkeyed(v@).take(i as int).push(v@[i as int].1));
        i = i + 1;
    }
    assert(unkeyed(v@).take(v@.len() as int) =~= unkeyed(v@));
    out
}

/// Puts moves in plain order.
pub fn order(st: &State, mv: &Vec<(u8, u8)>) -> (r: Vec<(u8, u8)>)
    requires
        moves_on_board(mv@),
    ensures
        r@ == plainly_ordered(st@, mv@),
{
    let mut keyed: Vec<(i32, (u8, u8))> = Vec::with_capacity(mv.len());
    let mut i: usize = 0;
    while i < mv.len()
        invariant
            i <= mv@.len(),
            moves_on_board(mv@),
            keyed@ == plain_entries(st@, mv@).take(i as int),
        decreases mv@.len() - i,
    {
        let m = mv[i];
        keyed.push((order_key_of(st, m), m));
        assert(plain_entries(st@, mv@).take(i + 1) =~= plain_entries(st@, mv@).take(i as int).push(
            (order_key(st@, m) as i32, m),
        ));
        i = i + 1;
    }
    assert(plain_entries(st@, mv@).take(mv@.len() as int) =~= plain_entries(st@, mv@));
    take_moves(&sort_keyed(&keyed))
}

// ---------------------------------------------------------------- rich order

/// Captures by the value of the victim, among equal victims the cheaper attacker first; then the
/// killer moves of the depth, then quiet moves by history, flips last.
pub open spec fn rich_key(
    p: Pos,
    m: (u8, u8),
    depth: int,
    killers: Seq<((u8, u8), (u8, u8))>,
    history: Seq<i32>,
) -> int {
    let t = p.sq[m.1 as int] as int;
    if m.0 == m.1 {
        -1_000_000
    } else if t >= 0 {
        1_000_000 + base_value(role_of(t)) * 32 - base_value(role_of(p.sq[m.0 as int] as int))
    } else if 0 <= depth < killers.len() && killers[depth].0 == m {
        900_000
    } else if 0 <= depth < killers.len() && killers[depth].1 == m {
        800_000
    } else {
        history_part(history[m.0 as int * 32 + m.1 as int] as int)
    }
}

/// What a history score counts in the key of a quiet move: it stays below the killer moves and
/// above the flips.
pub open spec fn history_part(score: int) -> int {
    if score > 799_999 {
        799_999
    } else if score < 0 {
        0
    } else {
        score
    }
}

pub open spec fn rich_entries(
    p: Pos,
    mv: Seq<(u8, u8)>,
    depth: int,
    killers: Seq<((u8, u8), (u8, u8))>,
    history: Seq<i32>,
) -> Seq<(i32, (u8, u8))> {
    mv.map_values(|m: (u8, u8)| (rich_key(p, m, depth, killers, history) as i32, m))
}

/// Moves in rich order.
pub open spec fn richly_ordered(
    p: Pos,
    mv: Seq<(u8, u8)>,
    depth: int,
    killers: Seq<((u8, u8), (u8, u8))>,
    history: Seq<i32>,
) -> Seq<(u8, u8)> {
    unkeyed(sorted(rich_entries(p, mv, depth, killers, history)))
}

/// Every move other than a flip starts from a piece.
pub open spec fn moves_have_pieces(p: Pos, mv: Seq<(u8, u8)>) -> bool {
    forall|i: int|
        0 <= i < mv.len() ==> (#[trigger] mv[i]).0 == mv[i].1 || p.sq[mv[i].0 as int] >= 0
}

pub fn order_key_rich(
    st: &State,
    m: (u8, u8),
    depth: i32,
    killers: &Vec<((u8, u8), (u8, u8))>,
    history: &Vec<i32>,
) -> (r: i32)
    requires
        m.0 < 32,
        m.1 < 32,
        m.0 == m.1 || st.sq[m.0 as int] >= 0,
        history@.len() == 1024,
    ensures
        r == rich_key(st@, m, depth as int, killers@, history@),
{
    if m.0 == m.1 {
        return -1_000_000;
    }
    let t = st.sq[m.1 as usize];
    if is_piece(t) {
        let victim = base_value_of(code_role(t));
        let attacker = base_value_of(code_role(st.sq[m.0 as usize]));
        return 1_000_000 + victim * 32 - attacker;
    }
    if depth >= 0 && (depth as usize) < killers.len() {
        let d = depth as usize;
        let (first, second) = killers[d];
        if first.0 == m.0 && first.1 == m.1 {
            return 900_000;
        }
        if second.0 == m.0 && second.1 == m.1 {
            return 800_000;
        }
    }
    let score: i32 = history[m.0 as usize * 32 + m.1 as usize];
    if score > 799_999 {
        799_999
    } else if score < 0 {
        0
    } else {
        score
    }
}

/// Puts moves in rich order.
pub fn order_rich(
    st: &State,
    mv: &Vec<(u8, u8)>,
    depth: i32,
    killers: &Vec<((u8, u8), (u8, u8))>,
    history: &Vec<i32>,
) -> (r: Vec<(u8, u8)>)
    requires
        moves_on_board(mv@),
        moves_have_pieces(st@, mv@),
        history@.len() == 1024,
    ensures
        r@ == richly_ordered(st@, mv@, depth as int, killers@, history@),
{
    let mut keyed: Vec<(i32, (u8, u8))> = Vec::with_capacity(mv.len());
    let ghost want = rich_entries(st@, mv@, depth as int, killers@, history@);
    let mut i: usize = 0;
    while i < mv.len()
        invariant
            i <= mv@.len(),
            moves_on_board(mv@),
            moves_have_pieces(st@, mv@),
            history@.len() == 1024,
            want == rich_entries(st@, mv@, depth as int, killers@, history@),
            keyed@ == want.take(i as int),
        decreases mv@.len() - i,
    {
        let m = mv[i];
        let key = order_key_rich(st, m, depth, killers, history);
        keyed.push((key, m));
        assert(want.take(i + 1) =~= want.take(i as int).push((key, m)));
        i = i + 1;
    }
    assert(want.take(mv@.len() as int) =~= want);
    take_moves(&sort_keyed(&keyed))
}

/// In rich order a capture comes before a killer move, a killer move before another quiet move,
/// and a flip last, whatever the history.
pub proof fn law_rich_tiers(
    p: Pos,
    a: (u8, u8),
    b: (u8, u8),
    depth: int,
    killers: Seq<((u8, u8), (u8, u8))>,
    history: Seq<i32>,
)
    requires
        p.sq[b.0 as int] >= 0,
    ensures
        rich_tier(p, a, depth, killers) < rich_tier(p, b, depth, killers) ==> rich_key(
            p,
            a,
            depth,
            killers,
            history,
        ) < rich_key(p, b, depth, killers, history),
{
}

/// Among captures the dearer victim gives the higher key, and among equal victims the cheaper
/// attacker does.
pub proof fn law_rich_captures(
    p: Pos,
    a: (u8, u8),
    b: (u8, u8),
    depth: int,
    killers: Seq<((u8, u8), (u8, u8))>,
    history: Seq<i32>,
)
    requires
        a.0 != a.1,
        b.0 != b.1,
        p.sq[a.0 as int] >= 0,
        p.sq[a.1 as int] >= 0,
        p.sq[b.0 as int] >= 0,
        p.sq[b.1 as int] >= 0,
    ensures
        ({
            let victim_a = base_value(role_of(p.sq[a.1 as int] as int));
            let victim_b = base_value(role_of(p.sq[b.1 as int] as int));
            let attacker_a = base_value(role_of(p.sq[a.0 as int] as int));
            let attacker_b = base_value(role_of(p.sq[b.0 as int] as int));
            let key_a = rich_key(p, a, depth, killers, history);
            let key_b = rich_key(p, b, depth, killers, history);
            &&& victim_a < victim_b ==> key_a < key_b
            &&& victim_a == victim_b && attacker_a > attacker_b ==> key_a < key_b
        }),
{
}

/// The first killer move comes before the second, and quiet moves that are none by history.
pub proof fn law_rich_quiet_moves(
    p: Pos,
    a: (u8, u8),
    b: (u8, u8),
    depth: int,
    killers: Seq<((u8, u8), (u8, u8))>,
    history: Seq<i32>,
)
    requires
        a.0 != a.1,
        b.0 != b.1,
        p.sq[a.1 as int] < 0,
        p.sq[b.1 as int] < 0,
        0 <= depth < killers.len(),
    ensures
        a == killers[depth].1 && a != killers[depth].0 && b == killers[depth].0 ==> rich_key(
            p,
            a,
            depth,
            killers,
            history,
        ) < rich_key(p, b, depth, killers, history),
        rich_tier(p, a, depth, killers) == 1 && rich_tier(p, b, depth, killers) == 1 ==> {
            let score_a = history[a.0 as int * 32 + a.1 as int];
            let score_b = history[b.0 as int * 32 + b.1 as int];
            let key_a = rich_key(p, a, depth, killers, history);
            let key_b = rich_key(p, b, depth, killers, history);
            &&& score_a <= score_b ==> key_a <= key_b
            &&& 0 <= score_a < score_b < 800_000 ==> key_a < key_b
        },
{
}

/// 0 for a flip, 1 for a quiet move, 2 for a killer move, 3 for a capture.
pub open spec fn rich_tier(
    p: Pos,
    m: (u8, u8),
    depth: int,
    killers: Seq<((u8, u8), (u8, u8))>,
) -> int {
    if m.0 == m.1 {
        0
    } else if p.sq[m.1 as int] >= 0 {
        3
    } else if 0 <= depth < killers.len() && (killers[depth].0 == m || killers[depth].1 == m) {
        2
    } else {
        1
    }
}

// ---------------------------------------------------------------- a move to try first

/// The index of the first entry of `mv` from `i` on that is `x`, or the length.
pub open spec fn index_from(mv: Seq<(u8, u8)>, x: (u8, u8), i: int) -> int
    decreases mv.len() - i,
{
    if i >= mv.len() || mv[i] == x {
        i
    } else {
        index_from(mv, x, i + 1)
    }
}

/// `mv` with `x` moved to the front, if it is there.
pub open spec fn promoted(mv: Seq<(u8, u8)>, x: Option<(u8, u8)>) -> Seq<(u8, u8)> {
    match x {
        Some(x) => {
            let i = index_from(mv, x, 0);
            if i < mv.len() {
                mv.remove(i).insert(0, x)
            } else {
                mv
            }
        },
        None => mv,
    }
}

proof fn lemma_index_absent(mv: Seq<(u8, u8)>, x: (u8, u8), i: int)
    requires
        0 <= i <= mv.len(),
        !mv.contains(x),
    ensures
        index_from(mv, x, i) == mv.len(),
    decreases mv.len() - i,
{
    if i < mv.len() {
        assert(mv.contains(mv[i]));
        lemma_index_absent(mv, x, i + 1);
    }
}

/// A move that is not there is not moved to the front.
pub proof fn lemma_promote_absent(mv: Seq<(u8, u8)>, x: (u8, u8))
    requires
        !mv.contains(x),
    ensures
        promoted(mv, Some(x)) == mv,
{
    lemma_index_absent(mv, x, 0);
}

pub fn promote(mv: &mut Vec<(u8, u8)>, x: Option<(u8, u8)>)
    ensures
        final(mv)@ == promoted(old(mv)@, x),
{
    if let Some(x) = x {
        let mut i: usize = 0;
        while i < mv.len() && !(mv[i].0 == x.0 && mv[i].1 == x.1)
            invariant
                i <= mv@.len(),
                index_from(mv@, x, i as int) == index_from(mv@, x, 0),
            decreases mv@.len() - i,
        {
            i = i + 1;
        }
        if i < mv.len() {
            let m = mv.remove(i);
            mv.insert(0, m);
        }
    }
}

// ---------------------------------------------------------------- what ordering keeps

pub proof fn lemma_plain_order_keeps(p: Pos, mv: Seq<(u8, u8)>)
    ensures
        plainly_ordered(p, mv).to_multiset() == mv.to_multiset(),
        plainly_ordered(p, mv).len() == mv.len(),
{
    let e = plain_entries(p, mv);
    law_sorted_keeps(e);
    lemma_unkeyed_multiset(sorted(e), e);
    assert(unkeyed(e) =~= mv);
}

pub proof fn lemma_rich_order_keeps(
    p: Pos,
    mv: Seq<(u8, u8)>,
    depth: int,
    killers: Seq<((u8, u8), (u8, u8))>,
    history: Seq<i32>,
)
    ensures
        richly_ordered(p, mv, depth, killers, history).to_multiset() == mv.to_multiset(),
        richly_ordered(p, mv, depth, killers, history).len() == mv.len(),
{
    let e = rich_entries(p, mv, depth, killers, history);
    law_sorted_keeps(e);
    lemma_unkeyed_multiset(sorted(e), e);
    assert(unkeyed(e) =~= mv);
}

/// Equal entries up to their order have equal moves up to their order.
proof fn lemma_unkeyed_multiset(s: Seq<(i32, (u8, u8))>, t: Seq<(i32, (u8, u8))>)
    requires
        s.to_multiset() == t.to_multiset(),
    ensures
        unkeyed(s).to_multiset() == unkeyed(t).to_multiset(),
    decreases s.len(),
{
    broadcast use vstd::seq_lib::group_to_multiset_ensures;

    assert(s.len() == t.len()) by {
        assert(s.to_multiset().len() == s.len());
        assert(t.to_multiset().len() == t.len());
    }
    if s.len() == 0 {
        assert(unkeyed(s) =~= unkeyed(t));
    } else {
        let x = s.last();
        assert(s.contains(x)) by {
            assert(s[s.len() - 1] == x);
        }
        assert(t.to_multiset().count(x) > 0);
        assert(t.contains(x));
        let i = choose|i: int| 0 <= i < t.len() && t[i] == x;
        let s1 = s.drop_last();
        let t1 = t.remove(i);
        assert(s =~= s1.push(x));
        assert(t =~= t1.insert(i, x));
        assert(s1.to_multiset() =~= s.to_multiset().remove(x));
        assert(t1.to_multiset() =~= t.to_multiset().remove(x));
        lemma_unkeyed_multiset(s1, t1);
        assert(unkeyed(s) =~= unkeyed(s1).push(x.1));
        assert(unkeyed(t) =~= unkeyed(t1).insert(i, x.1));
    }
}

pub proof fn lemma_index_from(mv: Seq<(u8, u8)>, x: (u8, u8), i: int)
    requires
        0 <= i <= mv.len(),
    ensures
        i <= index_from(mv, x, i) <= mv.len(),
        index_from(mv, x, i) < mv.len() ==> mv[index_from(mv, x, i)] == x,
    decreases mv.len() - i,
{
    if i < mv.len() && mv[i] != x {
        lemma_index_from(mv, x, i + 1);
    }
}

pub proof fn lemma_promote_keeps(mv: Seq<(u8, u8)>, x: Option<(u8, u8)>)
    ensures
        promoted(mv, x).to_multiset() == mv.to_multiset(),
        promoted(mv, x).len() == mv.len(),
{
    broadcast use vstd::seq_lib::group_to_multiset_ensures;

    if let Some(x) = x {
        let i = index_from(mv, x, 0);
        lemma_index_from(mv, x, 0);
        if i < mv.len() {
            let rest = mv.remove(i);
            assert(mv =~= rest.insert(i, x));
            assert(mv.to_multiset() =~= rest.to_multiset().insert(x));
            assert(rest.insert(0, x).to_multiset() =~= rest.to_multiset().insert(x));
        }
    }
}

/// What holds of all moves holds of them in another order.
pub proof fn lemma_same_moves(a: Seq<(u8, u8)>, b: Seq<(u8, u8)>, m: (u8, u8))
    requires
        a.to_multiset() == b.to_multiset(),
    ensures
        a.contains(m) <==> b.contains(m),
{
    broadcast use vstd::seq_lib::group_to_multiset_ensures;

    assert(a.contains(m) <==> a.to_multiset().count(m) > 0);
    assert(b.contains(m) <==> b.to_multiset().count(m) > 0);
}

} // verus!
