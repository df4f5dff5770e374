//! The values of the best moves of a position, as JSON.
use vstd::prelude::*;

use crate::arith::{measured, whole, Arith, Score};
use crate::board::all_moves;
use crate::engine::{law_empty_window, Request};
use crate::eval::{whole_number, Feat};
use crate::fen::{reading, state_from_fen, Reading};
use crate::protocol::{
    default_values, shipped_request, shipped_values, start_of, FEATURES, MAX_DEPTH,
};
use crate::round_trip::law_readings_are_well_formed;
use crate::table::{law_table_descends, root_move_values, table_rows, tells};
use crate::text::{push_signed, push_text, signed_decimal};
use crate::uci::{move_text, move_to_uci};

verus! {

/// The search that an analysis makes: without a time limit, so that the nodes alone decide.
pub open spec fn analysis_request<A: Arith>(p: Reading, nodes: u64) -> Request<A> {
    Request {
        pos: start_of(p),
        node_budget: nodes,
        contempt: A::ratio_of(1, 10),
        quiesce: true,
        max_depth: MAX_DEPTH as int,
        w_mob: A::ratio_of(8, 10),
        w_king: whole(28),
        values: shipped_values(),
        time_ms: 0,
        feat: Feat::of_bits(FEATURES),
        rep_history: seq![],
    }
}

/// An analysis looks at a position with the same parameters as a search for a move does.
pub proof fn law_same_parameters<A: Arith>(p: Reading, nodes: u64)
    ensures
        analysis_request::<A>(p, nodes) == shipped_request::<A>(p, seq![], 0, nodes),
{
    law_empty_window(
        start_of(p),
        nodes,
        A::ratio_of(1, 10),
        true,
        MAX_DEPTH as int,
        A::ratio_of(8, 10),
        whole(28),
        shipped_values(),
        0,
        Feat::of_bits(FEATURES),
    );
}

/// The rows of an analysis, the best move first.
pub open spec fn analysis_rows<A: Arith>(q: Request<A>) -> Seq<(u8, u8, A, i32)> {
    if all_moves(q.pos).len() == 0 {
        seq![]
    } else {
        table_rows(q.tabled(q.max_depth))
    }
}

/// One row: the move, its value in thousandths for the player to move, and the depth.
pub open spec fn row_json<A: Arith>(row: (u8, u8, A, i32)) -> Seq<char> {
    "{\"uci\":\""@ + move_text((row.0, row.1)) + "\",\"cp\":"@ + signed_decimal(
        A::milli_of(row.2) as int,
    ) + ",\"depth\":"@ + signed_decimal(row.3 as int) + "}"@
}

/// The first `n` rows, separated by commas.
pub open spec fn rows_json<A: Arith>(rows: Seq<(u8, u8, A, i32)>, n: int) -> Seq<char>
    decreases n,
{
    if n <= 0 {
        seq![]
    } else if n == 1 {
        row_json(rows[0])
    } else {
        rows_json(rows, n - 1) + ","@ + row_json(rows[n - 1])
    }
}

/// How many of `len` rows are shown: as many as asked for, but at least one.
pub open spec fn shown(multipv: u32, len: nat) -> int {
    let want: nat = if multipv > 0 {
        multipv as nat
    } else {
        1
    };
    if want < len {
        want as int
    } else {
        len as int
    }
}

/// The answer to an analysis.
pub open spec fn analysis_json<A: Arith>(
    position: Option<Reading>,
    nodes: u64,
    multipv: u32,
) -> Seq<char> {
    match position {
        None => "{\"error\":\"bad_fen\"}"@,
        Some(p) => {
            let rows = analysis_rows(analysis_request::<A>(p, nodes));
            "{\"lines\":["@ + rows_json(rows, shown(multipv, rows.len())) + "]}"@
        },
    }
}

/// Down the list of an analysis the thousandths do not rise, and they stay between -1000 and 1000.
pub proof fn law_analysis_descends<A: Arith>(q: Request<A>, i: int, j: int, val: spec_fn(A) -> real)
    requires
        measured(val),
        0 <= i <= j < analysis_rows(q).len(),
    ensures
        -1000 <= A::milli_of(analysis_rows(q)[j].2) <= A::milli_of(analysis_rows(q)[i].2) <= 1000,
{
    let g = q.tabled(q.max_depth);
    law_table_descends(q, q.max_depth, val);
    assert(val(g.rows[j].1) <= val(g.rows[i].1));
}

fn push_row<S: Score>(out: &mut String, row: (u8, u8, S, i32))
    ensures
        final(out)@ == old(out)@ + row_json(row),
        -1000 <= S::milli_of(row.2) <= 1000,
{
    let ghost base = out@;
    let uci = move_to_uci((row.0, row.1));
    push_text(out, "{\"uci\":\"");
    push_text(out, uci.as_str());
    push_text(out, "\",\"cp\":");
    push_signed(out, row.2.milli());
    push_text(out, ",\"depth\":");
    push_signed(out, row.3 as i64);
    push_text(out, "}");
    assert(out@ =~= base + row_json(row));
}

/// The best moves of a position with their values, the best first; at most `multipv` of them.
/// A position without a move gives an empty list, a malformed text an error.
pub fn analyze<S: Score>(fen: &str, nodes: u32, multipv: u32) -> (r: String)
    requires
        reading(fen@) matches Some(p) ==> p.no_progress < u32::MAX,
    ensures
        r@ == analysis_json::<S>(reading(fen@), nodes as u64, multipv),
        reading(fen@) matches Some(p) ==> {
            let rows = analysis_rows(analysis_request::<S>(p, nodes as u64));
            forall|i: int|
                0 <= i < shown(multipv, rows.len()) ==> -1000 <= S::milli_of(
                    (#[trigger] rows[i]).2,
                ) <= 1000
        },
{
    proof {
        law_readings_are_well_formed(fen@);
    }
    let parsed = match state_from_fen(fen) {
        Some(p) => p,
        None => {
            let mut error = String::new();
            push_text(&mut error, "{\"error\":\"bad_fen\"}");
            assert(error@ =~= "{\"error\":\"bad_fen\"}"@);
            return error;
        },
    };
    let ghost q = analysis_request::<S>(parsed@, nodes as u64);
    let rows = root_move_values::<S>(
        parsed.squares,
        parsed.bag,
        parsed.first_color,
        0,
        parsed.no_progress,
        nodes as u64,
        S::ratio(1, 10),
        true,
        MAX_DEPTH,
        S::ratio(8, 10),
        whole_number(28),
        default_values(),
        0,
        FEATURES,
    );
    assert(tells(rows@, q));
    assert(rows@ =~= analysis_rows(q));
    let want: usize = if multipv > 0 {
        multipv as usize
    } else {
        1
    };
    let take: usize = if want < rows.len() {
        want
    } else {
        rows.len()
    };
    let mut out = String::new();
    push_text(&mut out, "{\"lines\":[");
    let ghost base = out@;
    let mut i: usize = 0;
    while i < take
        invariant
            i <= take <= rows@.len(),
            out@ == base + rows_json(rows@, i as int),
            forall|j: int| 0 <= j < i ==> -1000 <= S::milli_of((#[trigger] rows@[j]).2) <= 1000,
        decreases take - i,
    {
        if i > 0 {
            push_text(&mut out, ",");
        }
        push_row(&mut out, rows[i]);
        assert(out@ =~= base + rows_json(rows@, i + 1));
        i = i + 1;
    }
    push_text(&mut out, "]}");
    assert(out@ =~= analysis_json::<S>(Some(parsed@), nodes as u64, multipv));
    out
}

} // verus!
