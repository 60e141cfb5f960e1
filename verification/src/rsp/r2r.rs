//! The relation-to-relation stage of stream processing over a triple store:
//! the triples of each window content are added to the store, the store is
//! materialized, and a query is evaluated on it; the answer then goes
//! through the relation-to-stream operator.
use vstd::prelude::*;
use crate::encoding::Encoder;
use crate::reasoner::{materializes, mat_result};
use crate::rsp::r2s::{Relation2StreamOperator, StreamOperator, advanced, prepared};
use crate::rsp::fresh_items;
use crate::rsp::s2r::{ContentGraph, WindowTriple};
use crate::sparql::{Binding, QueryForm, binding_rows_view, lemma_binding_rows_compare, lemma_binding_rows_deep, decoded_row, eval_plan, eval_query, evaluate_plan_and_debug,
    plan_view, query_ok, query_plan};
use crate::store::TripleStore;
use crate::triples::{Triple, triple_from_spec, convert_all_strings};
use crate::tripleindex::{TripleIndexView, EncodedBinding, add_spec};

verus! {

/// The index and dictionary after the window triples were read (see
/// `Triple::from`) and added, in order.
pub open spec fn add_window_triples(v: TripleIndexView, enc: Seq<Seq<char>>, ts: Seq<WindowTriple>) -> (TripleIndexView, Seq<Seq<char>>)
    decreases ts.len(),
{
    if ts.len() == 0 {
        (v, enc)
    } else {
        let (v1, e1) = add_window_triples(v, enc, ts.drop_last());
        let t = ts.last();
        (add_spec(v1, triple_from_spec(e1, t.s@, t.p@, t.o@)), convert_all_strings(e1, seq![t.s@, t.p@, t.o@]))
    }
}

/// The answer of a query on an index with a dictionary: the rows of its
/// plan, each binding written out (see `evaluate_plan_and_debug`).
pub open spec fn query_answer(v: TripleIndexView, enc: Seq<Seq<char>>, q: QueryForm) -> Seq<Seq<(Seq<char>, Seq<char>)>> {
    let (p, e1) = query_plan(q, enc);
    let (rows, e2) = eval_plan(v, e1, p).unwrap();
    rows.map_values(|r: Seq<EncodedBinding>| decoded_row(e2, r))
}

/// The query can be answered: a plan can be made of it, and the plan
/// evaluates on the index.
pub open spec fn answerable(v: TripleIndexView, enc: Seq<Seq<char>>, q: QueryForm) -> bool {
    query_ok(q) && eval_plan(v, query_plan(q, enc).1, query_plan(q, enc).0) is Some
}

/// A relation-to-relation stage over a triple store.
pub struct R2RStore {
    pub item: TripleStore,
}

impl R2RStore {
    /// A stage over an empty store.
    pub fn new() -> (res: R2RStore)
        ensures
            res.item.rules_index.wf(),
            res.item.triple_index@.counter == 0,
    {
        R2RStore { item: TripleStore::new() }
    }

    /// Reads a window triple (see `Triple::from`) and adds it to the store.
    pub fn add(&mut self, data: WindowTriple)
        requires
            old(self).item.triple_index@.counter < usize::MAX,
        ensures
            final(self).item.triple_index@ == add_spec(
                old(self).item.triple_index@,
                triple_from_spec(old(self).item.encoder@, data.s@, data.p@, data.o@),
            ),
            final(self).item.encoder@ == convert_all_strings(old(self).item.encoder@, seq![data.s@, data.p@, data.o@]),
            final(self).item.rules_index@ == old(self).item.rules_index@,
            final(self).item.rules_index.wf() == old(self).item.rules_index.wf(),
    {
        let encoded_triple = Triple::from(data.s, data.p, data.o, &mut self.item.encoder);
        self.item.add(encoded_triple);
    }

    /// Materializes the store (see `TripleStore::materialize`).
    pub fn materialize(&mut self)
        requires
            old(self).item.rules_index.wf(),
            materializes(old(self).item.triple_index@, old(self).item.rules_index@),
        ensures
            final(self).item.triple_index@ == mat_result(old(self).item.triple_index@, old(self).item.rules_index@).0,
            final(self).item.rules_index@ == old(self).item.rules_index@,
            final(self).item.rules_index.wf(),
            final(self).item.encoder@ == old(self).item.encoder@,
    {
        self.item.materialize();
    }

    /// Answers a query on the store (see `query_answer`), planning and
    /// evaluating it with a copy of the dictionary, which stays as it was.
    pub fn execute_query(&self, query: &QueryForm) -> (res: Vec<Vec<Binding>>)
        requires
            answerable(self.item.triple_index@, self.item.encoder@, *query),
        ensures
            binding_rows_view(res@) == query_answer(self.item.triple_index@, self.item.encoder@, *query),
    {
        let mut encoder = self.item.encoder.clone();
        let plan = eval_query(query, &self.item.triple_index, &mut encoder);
        evaluate_plan_and_debug(&plan, &self.item.triple_index, &mut encoder)
    }
}

/// A window content can be processed: its triples can be counted, the
/// store with them materializes, and the query is answerable on the
/// result.
pub open spec fn content_ok(store: TripleStore, query: QueryForm, content: Seq<WindowTriple>) -> bool {
    let (v1, e1) = add_window_triples(store.triple_index@, store.encoder@, content);
    &&& store.rules_index.wf()
    &&& store.triple_index@.counter + content.len() < usize::MAX
    &&& materializes(v1, store.rules_index@)
    &&& answerable(mat_result(v1, store.rules_index@).0, e1, query)
}

proof fn lemma_add_window_counter(v: TripleIndexView, enc: Seq<Seq<char>>, ts: Seq<WindowTriple>)
    requires
        v.counter + ts.len() < usize::MAX,
    ensures
        add_window_triples(v, enc, ts).0.counter == v.counter + ts.len(),
    decreases ts.len(),
{
    if ts.len() > 0 {
        lemma_add_window_counter(v, enc, ts.drop_last());
    }
}

/// Processes one window content: its triples are added to the store in
/// order, the store is materialized, the query is answered (see
/// `query_answer`), and the answer goes through the relation-to-stream
/// operator at the content's last change; what the operator streams is
/// returned: the whole answer (`RSTREAM`), its rows that were not in the
/// previous instant's answer (`ISTREAM`), or the rows of the previous
/// instant's answer that are not in the current one (`DSTREAM`).
pub fn process_content(
    r2r: &mut R2RStore,
    r2s_operator: &mut Relation2StreamOperator<Vec<Binding>>,
    query: &QueryForm,
    content: ContentGraph,
) -> (res: Vec<Vec<Binding>>)
    requires
        old(r2s_operator).wf(),
        content_ok(old(r2r).item, *query, content@.elements),
    ensures
        ({
            let (v1, e1) = add_window_triples(old(r2r).item.triple_index@, old(r2r).item.encoder@, content@.elements);
            let v2 = mat_result(v1, old(r2r).item.rules_index@).0;
            let answer = query_answer(v2, e1, *query);
            &&& final(r2r).item.triple_index@ == v2
            &&& final(r2r).item.encoder@ == e1
            &&& old(r2s_operator)@.stream_operator == StreamOperator::RSTREAM ==> binding_rows_view(res@) == answer
            &&& old(r2s_operator)@.stream_operator != StreamOperator::RSTREAM ==> final(r2s_operator)@ == prepared(
                old(r2s_operator)@,
                answer,
                content@.last_timestamp_changed,
            )
            &&& old(r2s_operator)@.stream_operator == StreamOperator::ISTREAM ==> binding_rows_view(res@) == fresh_items(
                answer,
                final(r2s_operator)@.old_result.to_set(),
            )
            &&& old(r2s_operator)@.stream_operator == StreamOperator::DSTREAM ==> binding_rows_view(res@) == fresh_items(
                final(r2s_operator)@.old_result,
                final(r2s_operator)@.new_result.to_set(),
            )
        }),
        final(r2r).item.rules_index@ == old(r2r).item.rules_index@,
        final(r2r).item.rules_index.wf(),
        final(r2s_operator).wf(),
        final(r2s_operator)@.stream_operator == old(r2s_operator)@.stream_operator,
        old(r2s_operator)@.stream_operator != StreamOperator::RSTREAM ==> final(r2s_operator)@.ts == advanced(
            old(r2s_operator)@,
            content@.last_timestamp_changed,
        ).ts,
{
    let ghost elems = content@.elements;
    let ghost v0 = r2r.item.triple_index@;
    let ghost e0 = r2r.item.encoder@;
    let time_stamp = content.get_last_timestamp_changed();
    let triples = content.into_elements();
    proof {
        lemma_add_window_counter(v0, e0, elems);
    }
    let mut i: usize = 0;
    assert(elems.take(0) =~= Seq::<WindowTriple>::empty());
    while i < triples.len()
        invariant
            i <= triples@.len(),
            triples@ == elems,
            v0.counter + elems.len() < usize::MAX,
            (r2r.item.triple_index@, r2r.item.encoder@) == add_window_triples(v0, e0, elems.take(i as int)),
            r2r.item.triple_index@.counter == v0.counter + i,
            r2r.item.rules_index@ == old(r2r).item.rules_index@,
            r2r.item.rules_index.wf(),
        decreases triples@.len() - i,
    {
        let t = &triples[i];
        r2r.add(WindowTriple { s: t.s.clone(), p: t.p.clone(), o: t.o.clone() });
        proof {
            assert(elems.take(i + 1).drop_last() =~= elems.take(i as int));
            assert(elems.take(i + 1).last() == triples@[i as int]);
        }
        i = i + 1;
    }
    assert(elems.take(elems.len() as int) =~= elems);
    r2r.materialize();
    let r2r_result = r2r.execute_query(query);
    proof {
        lemma_binding_rows_compare();
        lemma_binding_rows_deep(r2r_result@);
    }
    let res = r2s_operator.eval(r2r_result, time_stamp);
    proof {
        lemma_binding_rows_deep(res@);
    }
    res
}

} // verus!
