//! The export document model: run metadata plus the ordered state table.
//!
//! The assembler turns the decoded strategy table — key byte-sequences paired
//! with scaled probability tensors, in whatever order the decoder handed them
//! out — into a table of canonical string keys in strictly ascending
//! lexicographic order, each with its quantized tensor. Since the table is
//! strictly sorted and carries exactly the models of the inputs, its content
//! is pinned independently of the input order.

use vstd::prelude::*;

use crate::keys::lemma_state_key_injective;
use crate::keys::state_key_of;
use crate::keys::to_state_key;
use crate::order::lemma_lex_asym;
use crate::order::lemma_lex_connected;
use crate::order::lemma_lex_irrefl;
use crate::order::lemma_lex_trans;
use crate::order::lex_lt;
use crate::order::str_lex_lt;
use crate::quant::quant_tensor;
use crate::quant::quantize_tensor;

verus! {

/// One record of the state table: the number of betting-size branches and
/// the quantized probability tensor. `num_actions` always equals the outer
/// length of `probs_bp`.
pub struct StateEntry {
    pub num_actions: usize,
    pub probs_bp: Vec<Vec<Vec<u16>>>,
}

impl StateEntry {
    /// The cross-field invariant: the action count is the outer tensor
    /// length.
    pub open spec fn wf(self) -> bool {
        self.num_actions == self.probs_bp@.len()
    }

    /// Build a record from a quantized tensor, establishing the invariant.
    pub fn new(probs_bp: Vec<Vec<Vec<u16>>>) -> (r: StateEntry)
        ensures
            r.wf(),
            r.num_actions == probs_bp@.len(),
            r.probs_bp == probs_bp,
    {
        let num_actions = probs_bp.len();
        StateEntry { num_actions, probs_bp }
    }
}

/// Run-level metadata. The three number fields hold the decimal text of the
/// numbers they stand for, copied verbatim into the document; absent fields
/// are encoded as null.
pub struct ExportMeta {
    pub source: String,
    pub license: String,
    pub stack_bb: Option<String>,
    pub iterations: Option<usize>,
    pub ev_sb_bb: String,
    pub exploitability_bb: String,
    pub scale: String,
}

/// The root document: metadata plus the state table, kept in strictly
/// ascending lexicographic order of the canonical keys.
pub struct ExportModel {
    pub meta: ExportMeta,
    pub states: Vec<(String, StateEntry)>,
}

/// The mathematical content of one state record.
pub open spec fn entry_model(e: StateEntry) -> (int, Seq<Seq<Seq<u16>>>) {
    (e.num_actions as int, e.probs_bp.deep_view())
}

/// The mathematical content of one keyed state record.
pub open spec fn state_model(p: (String, StateEntry)) -> (Seq<char>, (int, Seq<Seq<Seq<u16>>>)) {
    (p.0@, entry_model(p.1))
}

/// The contents of a state table, as key/record models in table order.
pub open spec fn states_models(s: Seq<(String, StateEntry)>) -> Seq<
    (Seq<char>, (int, Seq<Seq<Seq<u16>>>)),
> {
    s.map_values(|p: (String, StateEntry)| state_model(p))
}

/// What one decoded table row must become: its canonical key, the outer
/// tensor length, and the quantized tensor.
pub open spec fn input_model(p: (Vec<u8>, Vec<Vec<Vec<i64>>>)) -> (Seq<
    char,
>, (int, Seq<Seq<Seq<u16>>>)) {
    (state_key_of(p.0@), (p.1@.len() as int, quant_tensor(p.1.deep_view())))
}

/// What a whole decoded table must become, row by row.
pub open spec fn inputs_models(t: Seq<(Vec<u8>, Vec<Vec<Vec<i64>>>)>) -> Seq<
    (Seq<char>, (int, Seq<Seq<Seq<u16>>>)),
> {
    t.map_values(|p: (Vec<u8>, Vec<Vec<Vec<i64>>>)| input_model(p))
}

/// The state table is in strictly ascending lexicographic key order.
pub open spec fn states_sorted(s: Seq<(String, StateEntry)>) -> bool {
    forall|i: int, j: int|
        #![trigger s[i], s[j]]
        0 <= i < j < s.len() ==> lex_lt(s[i].0@, s[j].0@)
}

/// A sequence of key/value models in strictly ascending key order.
pub open spec fn models_sorted<V>(s: Seq<(Seq<char>, V)>) -> bool {
    forall|i: int, j: int| #![trigger s[i], s[j]] 0 <= i < j < s.len() ==> lex_lt(s[i].0, s[j].0)
}

/// Inserting into a sequence inserts into its multiset of elements.
proof fn lemma_to_multiset_insert<A>(s: Seq<A>, idx: int, x: A)
    requires
        0 <= idx <= s.len(),
    ensures
        s.insert(idx, x).to_multiset() == s.to_multiset().insert(x),
    decreases s.len(),
{
    broadcast use vstd::seq_lib::group_to_multiset_ensures;

    let s2 = s.insert(idx, x);
    assert(s2.remove(idx) =~= s);
    assert(s2[idx] == x);
    assert(s.to_multiset() == s2.to_multiset().remove(x));
    assert(s2.contains(x));
    assert(s2.to_multiset().count(x) > 0);
    assert(s2.to_multiset() =~= s.to_multiset().insert(x));
}

/// Two tables of key/value models, each in strictly ascending key order,
/// that hold the same models hold them in the same order: the sorted table
/// of a given set of models is unique.
pub proof fn lemma_sorted_models_unique<V>(x: Seq<(Seq<char>, V)>, y: Seq<(Seq<char>, V)>)
    requires
        models_sorted(x),
        models_sorted(y),
        x.to_multiset() == y.to_multiset(),
    ensures
        x == y,
    decreases x.len(),
{
    broadcast use vstd::seq_lib::group_to_multiset_ensures;

    if x.len() == 0 {
        assert(x.to_multiset().len() == 0);
        assert(y.len() == y.to_multiset().len());
        assert(x =~= y);
    } else {
        assert(x.to_multiset().len() == x.len());
        assert(y.len() == y.to_multiset().len());
        assert(y.len() > 0);
        assert(x.to_multiset().contains(x[0]));
        assert(y.contains(x[0]));
        let j = choose|j: int| 0 <= j < y.len() && y[j] == x[0];
        assert(y.to_multiset().contains(y[0]));
        assert(x.contains(y[0]));
        let i = choose|i: int| 0 <= i < x.len() && x[i] == y[0];
        if j > 0 {
            assert(lex_lt(y[0].0, y[j].0));
            if i == 0 {
                lemma_lex_irrefl(y[0].0);
                assert(false);
            } else {
                assert(lex_lt(x[0].0, x[i].0));
                lemma_lex_asym(y[0].0, y[j].0);
                assert(false);
            }
        }
        assert(y[0] == x[0]);
        assert(x.remove(0) =~= x.drop_first());
        assert(y.remove(0) =~= y.drop_first());
        assert(x.drop_first().to_multiset() == x.to_multiset().remove(x[0]));
        assert(y.drop_first().to_multiset() == y.to_multiset().remove(y[0]));
        assert(models_sorted(x.drop_first())) by {
            assert forall|a: int, b: int|
                0 <= a < b < x.drop_first().len() implies lex_lt(
                #[trigger] x.drop_first()[a].0,
                #[trigger] x.drop_first()[b].0,
            ) by {
                assert(x.drop_first()[a] == x[a + 1]);
                assert(x.drop_first()[b] == x[b + 1]);
            }
        }
        assert(models_sorted(y.drop_first())) by {
            assert forall|a: int, b: int|
                0 <= a < b < y.drop_first().len() implies lex_lt(
                #[trigger] y.drop_first()[a].0,
                #[trigger] y.drop_first()[b].0,
            ) by {
                assert(y.drop_first()[a] == y[a + 1]);
                assert(y.drop_first()[b] == y[b + 1]);
            }
        }
        lemma_sorted_models_unique(x.drop_first(), y.drop_first());
        assert(x.len() == y.len());
        assert forall|k: int| 0 <= k < x.len() implies x[k] == y[k] by {
            if k > 0 {
                assert(x[k] == x.drop_first()[k - 1]);
                assert(y[k] == y.drop_first()[k - 1]);
            }
        }
        assert(x =~= y);
    }
}

/// Insert a new key and record into a table sorted strictly by key, keeping
/// it sorted. The key must not already be present.
fn insert_sorted(states: &mut Vec<(String, StateEntry)>, key: String, entry: StateEntry)
    requires
        states_sorted(old(states)@),
        forall|j: int| 0 <= j < old(states)@.len() ==> (#[trigger] old(states)@[j]).0@ != key@,
    ensures
        exists|idx: int|
            0 <= idx <= old(states)@.len() && final(states)@ == old(states)@.insert(
                idx,
                (key, entry),
            ),
        states_sorted(final(states)@),
{
    let ghost orig = states@;
    let mut idx: usize = 0;
    while idx < states.len() && str_lex_lt(states[idx].0.as_str(), key.as_str())
        invariant
            states@ == orig,
            0 <= idx <= states@.len(),
            forall|j: int| 0 <= j < idx ==> lex_lt((#[trigger] states@[j]).0@, key@),
            forall|j: int| 0 <= j < states@.len() ==> (#[trigger] states@[j]).0@ != key@,
        decreases states@.len() - idx,
    {
        idx = idx + 1;
    }
    proof {
        if idx < states@.len() {
            lemma_lex_connected(key@, states@[idx as int].0@);
            assert(lex_lt(key@, states@[idx as int].0@));
        }
    }
    states.insert(idx, (key, entry));
    proof {
        let s2 = states@;
        assert(s2 == orig.insert(idx as int, (key, entry)));
        assert(states_sorted(s2)) by {
            assert forall|a: int, b: int| 0 <= a < b < s2.len() implies lex_lt(
                (#[trigger] s2[a]).0@,
                (#[trigger] s2[b]).0@,
            ) by {
                if b < idx {
                    assert(s2[a] == orig[a]);
                    assert(s2[b] == orig[b]);
                } else if a > idx {
                    assert(s2[a] == orig[a - 1]);
                    assert(s2[b] == orig[b - 1]);
                } else if a < idx && b == idx {
                    assert(s2[a] == orig[a]);
                    assert(lex_lt(orig[a].0@, key@));
                } else if a == idx && b > idx {
                    assert(s2[b] == orig[b - 1]);
                    assert(lex_lt(key@, s2[b].0@)) by {
                        if b - 1 > idx {
                            assert(lex_lt(orig[idx as int].0@, orig[b - 1].0@));
                            lemma_lex_trans(key@, orig[idx as int].0@, orig[b - 1].0@);
                        }
                    }
                } else {
                    assert(a < idx && b > idx);
                    assert(s2[a] == orig[a]);
                    assert(s2[b] == orig[b - 1]);
                    assert(lex_lt(orig[a].0@, key@));
                    assert(lex_lt(key@, s2[b].0@)) by {
                        if b - 1 > idx {
                            assert(lex_lt(orig[idx as int].0@, orig[b - 1].0@));
                            lemma_lex_trans(key@, orig[idx as int].0@, orig[b - 1].0@);
                        }
                    }
                    lemma_lex_trans(orig[a].0@, key@, s2[b].0@);
                }
            }
        }
    }
}

/// Assemble the export document from the decoded table and the run-level
/// metadata.
///
/// The state table of the result is the input table, row by row: each key
/// canonicalized, each tensor quantized, the rows in strictly ascending
/// lexicographic order of the canonical keys — whatever order the rows came
/// in. The metadata carries the fixed provenance, license and scale strings
/// and the given per-run fields.
pub fn assemble_model(
    table: Vec<(Vec<u8>, Vec<Vec<Vec<i64>>>)>,
    stack_bb: Option<String>,
    iterations: Option<usize>,
    ev_sb_bb: String,
    exploitability_bb: String,
) -> (m: ExportModel)
    requires
        forall|i: int, j: int|
            #![trigger table@[i], table@[j]]
            0 <= i < j < table@.len() ==> table@[i].0@ != table@[j].0@,
    ensures
        m.meta.source@ == "https://github.com/b-inary/poker-cfr"@,
        m.meta.license@ == "BSD-2-Clause"@,
        m.meta.scale@ == "basis_points_0_to_10000"@,
        m.meta.stack_bb == stack_bb,
        m.meta.iterations == iterations,
        m.meta.ev_sb_bb == ev_sb_bb,
        m.meta.exploitability_bb == exploitability_bb,
        states_sorted(m.states@),
        forall|i: int| 0 <= i < m.states@.len() ==> (#[trigger] m.states@[i]).1.wf(),
        states_models(m.states@).to_multiset() == inputs_models(table@).to_multiset(),
        m.states@.len() == table@.len(),
{
    let ghost orig = table@;
    let mut table = table;
    let mut states: Vec<(String, StateEntry)> = Vec::new();
    proof {
        assert(table@ =~= orig.take(table@.len() as int));
        assert(orig.skip(orig.len() as int) =~= Seq::<(Vec<u8>, Vec<Vec<Vec<i64>>>)>::empty());
        assert(inputs_models(orig.skip(orig.len() as int)) =~= states_models(states@));
    }
    while table.len() > 0
        invariant
            table@ == orig.take(table@.len() as int),
            states@.len() + table@.len() == orig.len(),
            states_sorted(states@),
            forall|i: int| 0 <= i < states@.len() ==> (#[trigger] states@[i]).1.wf(),
            states_models(states@).to_multiset() == inputs_models(
                orig.skip(table@.len() as int),
            ).to_multiset(),
            forall|j: int|
                0 <= j < states@.len() ==> exists|n: int|
                    table@.len() <= n < orig.len() && (#[trigger] states@[j]).0@ == state_key_of(
                        orig[n].0@,
                    ),
            forall|i: int, j: int|
                #![trigger orig[i], orig[j]]
                0 <= i < j < orig.len() ==> orig[i].0@ != orig[j].0@,
        decreases table@.len(),
    {
        let ghost pre_table = table@;
        let ghost pos = pre_table.len() - 1;
        let p = table.pop().unwrap();
        proof {
            assert(p == orig[pos]);
            assert(table@ =~= orig.take(table@.len() as int));
        }
        let (k, t) = p;
        let quantized = quantize_tensor(&t);
        let entry = StateEntry::new(quantized);
        let key = to_state_key(&k);
        proof {
            assert(key@ == state_key_of(orig[pos].0@));
            assert forall|j: int| 0 <= j < states@.len() implies (#[trigger] states@[j]).0@
                != key@ by {
                let n = choose|n: int|
                    pos + 1 <= n < orig.len() && states@[j].0@ == state_key_of(orig[n].0@);
                lemma_state_key_injective(orig[n].0@, orig[pos].0@);
            }
        }
        let ghost pre_states = states@;
        insert_sorted(&mut states, key, entry);
        proof {
            let idx = choose|idx: int|
                0 <= idx <= pre_states.len() && states@ == pre_states.insert(idx, (key, entry));
            assert(states_models(states@) =~= states_models(pre_states).insert(
                idx,
                state_model((key, entry)),
            ));
            lemma_to_multiset_insert(states_models(pre_states), idx, state_model((key, entry)));
            assert(state_model((key, entry)) == input_model(orig[pos]));
            assert(inputs_models(orig.skip(pos)) =~= inputs_models(orig.skip(pos + 1)).insert(
                0,
                input_model(orig[pos]),
            ));
            lemma_to_multiset_insert(inputs_models(orig.skip(pos + 1)), 0, input_model(orig[pos]));
            assert(states_models(states@).to_multiset() == inputs_models(
                orig.skip(table@.len() as int),
            ).to_multiset());
            assert forall|j: int| 0 <= j < states@.len() implies exists|n: int|
                table@.len() <= n < orig.len() && (#[trigger] states@[j]).0@ == state_key_of(
                    orig[n].0@,
                ) by {
                if j < idx {
                    assert(states@[j] == pre_states[j]);
                    let n = choose|n: int|
                        pos + 1 <= n < orig.len() && pre_states[j].0@ == state_key_of(orig[n].0@);
                    assert(table@.len() <= n < orig.len() && states@[j].0@ == state_key_of(
                        orig[n].0@,
                    ));
                } else if j == idx {
                    assert(states@[j] == (key, entry));
                    assert(table@.len() <= pos < orig.len() && states@[j].0@ == state_key_of(
                        orig[pos].0@,
                    ));
                } else {
                    assert(states@[j] == pre_states[j - 1]);
                    let n = choose|n: int|
                        pos + 1 <= n < orig.len() && pre_states[j - 1].0@ == state_key_of(
                            orig[n].0@,
                        );
                    assert(table@.len() <= n < orig.len() && states@[j].0@ == state_key_of(
                        orig[n].0@,
                    ));
                }
            }
        }
    }
    proof {
        assert(orig.skip(0) =~= orig);
    }
    let meta = ExportMeta {
        source: "https://github.com/b-inary/poker-cfr".to_owned(),
        license: "BSD-2-Clause".to_owned(),
        stack_bb,
        iterations,
        ev_sb_bb,
        exploitability_bb,
        scale: "basis_points_0_to_10000".to_owned(),
    };
    ExportModel { meta, states }
}

} // verus!
