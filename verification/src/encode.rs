//! Canonical textual encoding of the export document.
//!
//! The document is rendered in one fixed shape with no whitespace: metadata
//! first, then the state table in its stored order. Every byte of the output
//! is pinned by the document value, so equal documents encode to equal text.

use vstd::prelude::*;
use vstd::string::StringExecFns;

use crate::model::lemma_sorted_models_unique;
use crate::model::models_sorted;
use crate::model::state_model;
use crate::model::states_models;
use crate::model::states_sorted;
use crate::model::ExportMeta;
use crate::model::ExportModel;
use crate::model::StateEntry;
use crate::text::dec_rep;
use crate::text::push_dec_u64;

verus! {

/// The given pieces joined with commas.
pub open spec fn join_comma(items: Seq<Seq<char>>) -> Seq<char>
    decreases items.len(),
{
    if items.len() == 0 {
        Seq::<char>::empty()
    } else if items.len() == 1 {
        items[0]
    } else {
        join_comma(items.drop_last()) + ","@ + items.last()
    }
}

/// One row of quantized probabilities as a numeric array.
pub open spec fn json_row(r: Seq<u16>) -> Seq<char> {
    "["@ + join_comma(r.map_values(|x: u16| dec_rep(x as nat))) + "]"@
}

/// One decision matrix as an array of rows.
pub open spec fn json_matrix(m: Seq<Seq<u16>>) -> Seq<char> {
    "["@ + join_comma(m.map_values(|r: Seq<u16>| json_row(r))) + "]"@
}

/// One action tensor as an array of matrices.
pub open spec fn json_tensor(t: Seq<Seq<Seq<u16>>>) -> Seq<char> {
    "["@ + join_comma(t.map_values(|m: Seq<Seq<u16>>| json_matrix(m))) + "]"@
}

/// One state record as an object.
pub open spec fn json_entry(e: StateEntry) -> Seq<char> {
    "{\"num_actions\":"@ + dec_rep(e.num_actions as nat) + ",\"probs_bp\":"@ + json_tensor(
        e.probs_bp.deep_view(),
    ) + "}"@
}

/// One keyed state record as an object member.
pub open spec fn json_state(p: (String, StateEntry)) -> Seq<char> {
    "\""@ + p.0@ + "\":"@ + json_entry(p.1)
}

/// The state table as an object, members in stored order.
pub open spec fn json_states(s: Seq<(String, StateEntry)>) -> Seq<char> {
    "{"@ + join_comma(s.map_values(|p: (String, StateEntry)| json_state(p))) + "}"@
}

/// An optional piece of number text: the text itself, or `null`.
pub open spec fn json_opt_text(o: Option<String>) -> Seq<char> {
    match o {
        Option::None => "null"@,
        Option::Some(t) => t@,
    }
}

/// An optional count: its decimal rendering, or `null`.
pub open spec fn json_opt_count(o: Option<usize>) -> Seq<char> {
    match o {
        Option::None => "null"@,
        Option::Some(n) => dec_rep(n as nat),
    }
}

/// The metadata object, fields in fixed order.
pub open spec fn json_meta(m: ExportMeta) -> Seq<char> {
    "{\"source\":\""@ + m.source@ + "\",\"license\":\""@ + m.license@ + "\",\"stack_bb\":"@
        + json_opt_text(m.stack_bb) + ",\"iterations\":"@ + json_opt_count(m.iterations)
        + ",\"ev_sb_bb\":"@ + m.ev_sb_bb@ + ",\"exploitability_bb\":"@ + m.exploitability_bb@
        + ",\"scale\":\""@ + m.scale@ + "\"}"@
}

/// The whole document.
pub open spec fn json_model(m: ExportModel) -> Seq<char> {
    "{\"meta\":"@ + json_meta(m.meta) + ",\"states\":"@ + json_states(m.states@) + "}"@
}

/// A member's text depends only on the mathematical content of its record.
proof fn lemma_json_state_of_model(p1: (String, StateEntry), p2: (String, StateEntry))
    requires
        state_model(p1) == state_model(p2),
    ensures
        json_state(p1) == json_state(p2),
{
    assert(p1.0@ == p2.0@);
    assert(p1.1.num_actions == p2.1.num_actions);
    assert(p1.1.probs_bp.deep_view() == p2.1.probs_bp.deep_view());
}

/// Output is deterministic: two state tables in strictly ascending key order
/// that hold the same records — in whatever order those records were
/// inserted — encode to the very same text.
pub proof fn lemma_states_encoding_deterministic(
    s1: Seq<(String, StateEntry)>,
    s2: Seq<(String, StateEntry)>,
)
    requires
        states_sorted(s1),
        states_sorted(s2),
        states_models(s1).to_multiset() == states_models(s2).to_multiset(),
    ensures
        json_states(s1) == json_states(s2),
{
    let m1 = states_models(s1);
    let m2 = states_models(s2);
    assert(models_sorted(m1)) by {
        assert forall|i: int, j: int| 0 <= i < j < m1.len() implies crate::order::lex_lt(
            (#[trigger] m1[i]).0,
            (#[trigger] m1[j]).0,
        ) by {
            assert(m1[i] == state_model(s1[i]));
            assert(m1[j] == state_model(s1[j]));
        }
    }
    assert(models_sorted(m2)) by {
        assert forall|i: int, j: int| 0 <= i < j < m2.len() implies crate::order::lex_lt(
            (#[trigger] m2[i]).0,
            (#[trigger] m2[j]).0,
        ) by {
            assert(m2[i] == state_model(s2[i]));
            assert(m2[j] == state_model(s2[j]));
        }
    }
    lemma_sorted_models_unique(m1, m2);
    let items1 = s1.map_values(|p: (String, StateEntry)| json_state(p));
    let items2 = s2.map_values(|p: (String, StateEntry)| json_state(p));
    assert(items1 =~= items2) by {
        assert(m1.len() == s1.len());
        assert(m2.len() == s2.len());
        assert(m1 == m2);
        assert(s1.len() == s2.len());
        assert forall|i: int| 0 <= i < s1.len() implies items1[i] == items2[i] by {
            assert(m1[i] == state_model(s1[i]));
            assert(m2[i] == state_model(s2[i]));
            lemma_json_state_of_model(s1[i], s2[i]);
        }
    }
}

fn push_row(s: &mut String, row: &Vec<u16>)
    ensures
        final(s)@ == old(s)@ + json_row(row@),
{
    let ghost base = s@;
    let ghost items = row@.map_values(|x: u16| dec_rep(x as nat));
    s.append("[");
    let mut i: usize = 0;
    while i < row.len()
        invariant
            0 <= i <= row@.len(),
            items == row@.map_values(|x: u16| dec_rep(x as nat)),
            s@ == base + "["@ + join_comma(items.take(i as int)),
        decreases row@.len() - i,
    {
        if i > 0 {
            s.append(",");
        }
        push_dec_u64(s, row[i] as u64);
        proof {
            assert(items.take(i + 1).drop_last() =~= items.take(i as int));
            assert(items.take(i + 1).last() == dec_rep(row@[i as int] as nat));
            assert(s@ =~= base + "["@ + join_comma(items.take(i + 1)));
        }
        i = i + 1;
    }
    s.append("]");
    proof {
        assert(items.take(row@.len() as int) =~= items);
        assert(s@ =~= base + json_row(row@));
    }
}

fn push_matrix(s: &mut String, m: &Vec<Vec<u16>>)
    ensures
        final(s)@ == old(s)@ + json_matrix(m.deep_view()),
{
    let ghost base = s@;
    let ghost items = m.deep_view().map_values(|r: Seq<u16>| json_row(r));
    s.append("[");
    let mut i: usize = 0;
    while i < m.len()
        invariant
            0 <= i <= m@.len(),
            m.deep_view().len() == m@.len(),
            items == m.deep_view().map_values(|r: Seq<u16>| json_row(r)),
            s@ == base + "["@ + join_comma(items.take(i as int)),
        decreases m@.len() - i,
    {
        if i > 0 {
            s.append(",");
        }
        push_row(s, &m[i]);
        proof {
            assert(m.deep_view()[i as int] == m@[i as int]@);
            assert(items.take(i + 1).drop_last() =~= items.take(i as int));
            assert(items.take(i + 1).last() == json_row(m@[i as int]@));
            assert(s@ =~= base + "["@ + join_comma(items.take(i + 1)));
        }
        i = i + 1;
    }
    s.append("]");
    proof {
        assert(items.take(m@.len() as int) =~= items);
        assert(s@ =~= base + json_matrix(m.deep_view()));
    }
}

fn push_tensor(s: &mut String, t: &Vec<Vec<Vec<u16>>>)
    ensures
        final(s)@ == old(s)@ + json_tensor(t.deep_view()),
{
    let ghost base = s@;
    let ghost items = t.deep_view().map_values(|m: Seq<Seq<u16>>| json_matrix(m));
    s.append("[");
    let mut i: usize = 0;
    while i < t.len()
        invariant
            0 <= i <= t@.len(),
            t.deep_view().len() == t@.len(),
            items == t.deep_view().map_values(|m: Seq<Seq<u16>>| json_matrix(m)),
            s@ == base + "["@ + join_comma(items.take(i as int)),
        decreases t@.len() - i,
    {
        if i > 0 {
            s.append(",");
        }
        push_matrix(s, &t[i]);
        proof {
            assert(t.deep_view()[i as int] == t@[i as int].deep_view());
            assert(items.take(i + 1).drop_last() =~= items.take(i as int));
            assert(items.take(i + 1).last() == json_matrix(t@[i as int].deep_view()));
            assert(s@ =~= base + "["@ + join_comma(items.take(i + 1)));
        }
        i = i + 1;
    }
    s.append("]");
    proof {
        assert(items.take(t@.len() as int) =~= items);
        assert(s@ =~= base + json_tensor(t.deep_view()));
    }
}

fn push_entry(s: &mut String, e: &StateEntry)
    ensures
        final(s)@ == old(s)@ + json_entry(*e),
{
    let ghost base = s@;
    s.append("{\"num_actions\":");
    push_dec_u64(s, e.num_actions as u64);
    s.append(",\"probs_bp\":");
    push_tensor(s, &e.probs_bp);
    s.append("}");
    proof {
        assert(s@ =~= base + json_entry(*e));
    }
}

fn push_states(s: &mut String, states: &Vec<(String, StateEntry)>)
    ensures
        final(s)@ == old(s)@ + json_states(states@),
{
    let ghost base = s@;
    let ghost items = states@.map_values(|p: (String, StateEntry)| json_state(p));
    s.append("{");
    let mut i: usize = 0;
    while i < states.len()
        invariant
            0 <= i <= states@.len(),
            items == states@.map_values(|p: (String, StateEntry)| json_state(p)),
            s@ == base + "{"@ + join_comma(items.take(i as int)),
        decreases states@.len() - i,
    {
        if i > 0 {
            s.append(",");
        }
        let pair = &states[i];
        s.append("\"");
        s.append(pair.0.as_str());
        s.append("\":");
        push_entry(s, &pair.1);
        proof {
            assert(items.take(i + 1).drop_last() =~= items.take(i as int));
            assert(items.take(i + 1).last() == json_state(states@[i as int]));
            assert(s@ =~= base + "{"@ + join_comma(items.take(i + 1)));
        }
        i = i + 1;
    }
    s.append("}");
    proof {
        assert(items.take(states@.len() as int) =~= items);
        assert(s@ =~= base + json_states(states@));
    }
}

fn push_meta(s: &mut String, m: &ExportMeta)
    ensures
        final(s)@ == old(s)@ + json_meta(*m),
{
    let ghost base = s@;
    s.append("{\"source\":\"");
    s.append(m.source.as_str());
    s.append("\",\"license\":\"");
    s.append(m.license.as_str());
    s.append("\",\"stack_bb\":");
    match &m.stack_bb {
        Option::None => s.append("null"),
        Option::Some(t) => s.append(t.as_str()),
    }
    s.append(",\"iterations\":");
    match &m.iterations {
        Option::None => s.append("null"),
        Option::Some(n) => push_dec_u64(s, *n as u64),
    }
    s.append(",\"ev_sb_bb\":");
    s.append(m.ev_sb_bb.as_str());
    s.append(",\"exploitability_bb\":");
    s.append(m.exploitability_bb.as_str());
    s.append(",\"scale\":\"");
    s.append(m.scale.as_str());
    s.append("\"}");
    proof {
        assert(s@ =~= base + json_meta(*m));
    }
}

/// Encode the document: every byte of the result is a function of the
/// document value alone.
pub fn encode_model(m: &ExportModel) -> (r: String)
    ensures
        r@ == json_model(*m),
{
    let mut s = String::new();
    s.append("{\"meta\":");
    push_meta(&mut s, &m.meta);
    s.append(",\"states\":");
    push_states(&mut s, &m.states);
    s.append("}");
    proof {
        assert(s@ =~= json_model(*m));
    }
    s
}

} // verus!
