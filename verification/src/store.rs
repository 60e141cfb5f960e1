//! The triple store: a dictionary, the triples and the rules of a reasoning
//! session, with loading, materialization and printing.
use vstd::prelude::*;
use crate::encoding::Encoder;
use crate::triples::{Triple, Rule, RuleView};
use crate::tripleindex::{TripleIndex, TripleIndexView, add_spec, remove_spec, storable, empty_index, contains_spec,
    law_contains_after_add, lemma_contains_after_add_other, bucket_of, lemma_find_pos, Entry};
use crate::dred::same_codes;
use crate::triples::code_of;
use std::rc::Rc;
use crate::ruleindex::{RuleIndex, RuleIndexView, rule_add_spec, empty_rule_index};
use crate::reasoner::{Reasoner, materializes, mat_result};
use crate::parser::{Parser, Syntax, parse_ok, parse_lines_spec, lines_of, rule_views, rio_parse, encode_quads,
    encode_quads_strings, QuadText, parse_line_spec, encode_rules_spec};
use crate::n3_parser::n3_spec;
use crate::utils::{decodable, triple_string};
use crate::text::{chars_of, string_of, append_chars};

verus! {

/// The index after the triples `ts` were added in order.
pub open spec fn add_triples_spec(v: TripleIndexView, ts: Seq<Triple>) -> TripleIndexView
    decreases ts.len(),
{
    if ts.len() == 0 {
        v
    } else {
        add_spec(add_triples_spec(v, ts.drop_last()), ts.last())
    }
}

/// Whether `t` has the subject, predicate and object of a triple of `ts`.
pub open spec fn added_codes(ts: Seq<Triple>, t: Triple) -> bool {
    exists|i: int| 0 <= i < ts.len() && #[trigger] same_codes(ts[i], t)
}

/// An index filled by adding the triples `ts` to an empty one contains
/// exactly the triples with the subject, predicate and object of one of
/// them.
pub proof fn law_index_holds_what_was_added(ts: Seq<Triple>, t: Triple)
    ensures
        contains_spec(add_triples_spec(empty_index(), ts), t) <==> added_codes(ts, t),
    decreases ts.len(),
{
    if ts.len() > 0 {
        let d = ts.drop_last();
        let u = ts.last();
        let v = add_triples_spec(empty_index(), d);
        law_index_holds_what_was_added(d, t);
        if same_codes(u, t) {
            law_contains_after_add(v, u, u);
            assert(same_codes(ts[ts.len() - 1], t));
        } else {
            lemma_contains_after_add_other(v, u, t);
            if added_codes(ts, t) {
                let i = choose|i: int| 0 <= i < ts.len() && #[trigger] same_codes(ts[i], t);
                assert(i < d.len());
                assert(d[i] == ts[i]);
            }
            if added_codes(d, t) {
                let i = choose|i: int| 0 <= i < d.len() && #[trigger] same_codes(d[i], t);
                assert(ts[i] == d[i]);
            }
        }
    } else {
        assert(bucket_of(Seq::<(usize, Seq<(usize, Seq<Entry>)>)>::empty(), code_of(t.o), code_of(t.s)) is None) by {
            lemma_find_pos(Seq::<(usize, Seq<(usize, Seq<Entry>)>)>::empty(), code_of(t.o), 0);
        }
    }
}

/// The rule index after the rules `rs` were added in order.
pub open spec fn add_rules_spec(ri: RuleIndexView, rs: Seq<RuleView>) -> RuleIndexView
    decreases rs.len(),
{
    if rs.len() == 0 {
        ri
    } else {
        rule_add_spec(add_rules_spec(ri, rs.drop_last()), rs.last())
    }
}

/// The content of a store written out: each triple as its three strings
/// separated by spaces and followed by `.` and a line break.
pub open spec fn content_string(strings: Seq<Seq<char>>, ts: Seq<Triple>) -> Seq<char>
    decreases ts.len(),
{
    if ts.len() == 0 {
        seq![]
    } else {
        content_string(strings, ts.drop_last()) + triple_string(strings, ts.last()) + seq!['.', '\n']
    }
}

/// Every triple has no graph.
pub open spec fn no_graphs(ts: Seq<Triple>) -> bool {
    forall|i: int| 0 <= i < ts.len() ==> (#[trigger] ts[i]).g is None
}

/// Every triple can be stored.
pub open spec fn all_storable(ts: Seq<Triple>) -> bool {
    forall|i: int| 0 <= i < ts.len() ==> storable(#[trigger] ts[i])
}

proof fn lemma_parse_no_graphs(strings: Seq<Seq<char>>, lines: Seq<Seq<char>>)
    ensures
        no_graphs(parse_lines_spec(strings, lines).0),
    decreases lines.len(),
{
    if lines.len() > 0 {
        let first = parse_line_spec(strings, lines[0]);
        lemma_parse_no_graphs(first.2, lines.drop_first());
        let rest = parse_lines_spec(first.2, lines.drop_first());
        assert(no_graphs(first.0));
        assert forall|i: int| 0 <= i < (first.0 + rest.0).len() implies (#[trigger] (first.0 + rest.0)[i]).g is None by {
            if i >= first.0.len() {
                assert((first.0 + rest.0)[i] == rest.0[i - first.0.len()]);
            }
        }
    }
}

proof fn lemma_quads_storable(strings: Seq<Seq<char>>, qs: Seq<QuadText>)
    ensures
        all_storable(encode_quads(strings, qs)),
    decreases qs.len(),
{
    if qs.len() > 0 {
        lemma_quads_storable(crate::parser::quad_strings(strings, qs[0]), qs.drop_first());
        let e = encode_quads(strings, qs);
        let rest = encode_quads(crate::parser::quad_strings(strings, qs[0]), qs.drop_first());
        assert forall|i: int| 0 <= i < e.len() implies storable(#[trigger] e[i]) by {
            if i > 0 {
                assert(e[i] == rest[i - 1]);
            }
        }
    }
}

/// The triples, rules and dictionary of a reasoning session.
pub struct TripleStore {
    pub rules: Vec<Rule>,
    pub rules_index: RuleIndex,
    pub triple_index: TripleIndex,
    pub encoder: Encoder,
    pub reasoner: Reasoner,
}

impl TripleStore {
    /// An empty store.
    pub fn new() -> (res: TripleStore)
        ensures
            res.rules@ == Seq::<Rule>::empty(),
            res.rules_index.wf(),
            res.rules_index@ == empty_rule_index(),
            res.triple_index@ == empty_index(),
            res.encoder@ == Seq::<Seq<char>>::empty(),
    {
        TripleStore {
            rules: Vec::new(),
            rules_index: RuleIndex::new(),
            triple_index: TripleIndex::new(),
            encoder: Encoder::new(),
            reasoner: Reasoner,
        }
    }

    /// A store filled from text in the line format (see `Parser::parse`):
    /// its triples added in order, its rules filed in order.
    pub fn from(data: &str) -> (res: TripleStore)
        requires
            parse_ok(data@),
        ensures
            ({
                let r = parse_lines_spec(Seq::empty(), lines_of(data@));
                &&& res.triple_index@ == add_triples_spec(empty_index(), r.0)
                &&& rule_views(res.rules@) == r.1
                &&& res.rules_index.wf()
                &&& res.rules_index@ == add_rules_spec(empty_rule_index(), r.1)
                &&& res.encoder@ == r.2
            }),
    {
        let mut encoder = Encoder::new();
        let (content, rules) = Parser::parse(data.to_owned(), &mut encoder);
        proof {
            lemma_parse_no_graphs(Seq::empty(), lines_of(data@));
        }
        let mut triple_index = TripleIndex::new();
        let mut i: usize = 0;
        while i < content.len()
            invariant
                i <= content@.len(),
                no_graphs(content@),
                triple_index@.counter == i,
                triple_index@ == add_triples_spec(empty_index(), content@.take(i as int)),
            decreases content@.len() - i,
        {
            assert(content@[i as int].g is None);
            triple_index.add(content[i]);
            proof {
                assert(content@.take(i + 1).drop_last() =~= content@.take(i as int));
            }
            i = i + 1;
        }
        assert(content@.take(content@.len() as int) =~= content@);
        let mut rules_index = RuleIndex::new();
        let mut j: usize = 0;
        while j < rules.len()
            invariant
                j <= rules@.len(),
                rules_index.wf(),
                rules_index@ == add_rules_spec(empty_rule_index(), rule_views(rules@).take(j as int)),
            decreases rules@.len() - j,
        {
            rules_index.add(&rules[j]);
            proof {
                assert(rule_views(rules@).take(j + 1).drop_last() =~= rule_views(rules@).take(j as int));
            }
            j = j + 1;
        }
        assert(rule_views(rules@).take(rules@.len() as int) =~= rule_views(rules@));
        TripleStore { rules, rules_index, triple_index, encoder, reasoner: Reasoner }
    }

    /// A store filled from text in the line format (see `from`), or `None`
    /// when a line of it cannot be read (see `parse_ok`).
    pub fn try_from(data: &str) -> (res: Option<TripleStore>)
        ensures
            res is None <==> !parse_ok(data@),
            res matches Some(st) ==> ({
                let r = parse_lines_spec(Seq::empty(), lines_of(data@));
                &&& st.triple_index@ == add_triples_spec(empty_index(), r.0)
                &&& rule_views(st.rules@) == r.1
                &&& st.rules_index.wf()
                &&& st.rules_index@ == add_rules_spec(empty_rule_index(), r.1)
                &&& st.encoder@ == r.2
            }),
    {
        if Parser::parse_ok_exec(data) {
            Some(TripleStore::from(data))
        } else {
            None
        }
    }

    /// Adds a triple (see `TripleIndex::add`).
    pub fn add(&mut self, triple: Triple)
        requires
            storable(triple),
            old(self).triple_index@.counter < usize::MAX,
        ensures
            final(self).triple_index@ == add_spec(old(self).triple_index@, triple),
            final(self).rules@ == old(self).rules@,
            final(self).rules_index@ == old(self).rules_index@,
            final(self).rules_index.wf() == old(self).rules_index.wf(),
            final(self).encoder@ == old(self).encoder@,
    {
        self.triple_index.add(triple);
    }

    /// Adds a shared triple (see `TripleIndex::add`).
    pub fn add_ref(&mut self, triple: Rc<Triple>)
        requires
            storable(*triple),
            old(self).triple_index@.counter < usize::MAX,
        ensures
            final(self).triple_index@ == add_spec(old(self).triple_index@, *triple),
            final(self).rules@ == old(self).rules@,
            final(self).rules_index@ == old(self).rules_index@,
            final(self).rules_index.wf() == old(self).rules_index.wf(),
            final(self).encoder@ == old(self).encoder@,
    {
        self.triple_index.add_ref(triple);
    }

    /// Removes a shared triple (see `TripleIndex::remove_ref`).
    pub fn remove_ref(&mut self, triple: Rc<Triple>)
        requires
            old(self).triple_index@.counter > 0,
        ensures
            final(self).triple_index@ == remove_spec(old(self).triple_index@, *triple),
            final(self).rules@ == old(self).rules@,
            final(self).rules_index@ == old(self).rules_index@,
            final(self).rules_index.wf() == old(self).rules_index.wf(),
            final(self).encoder@ == old(self).encoder@,
    {
        self.triple_index.remove_ref(&*triple);
    }

    /// Files the rules in the rule index, in order.
    pub fn add_rules(&mut self, rules: Vec<Rule>)
        requires
            old(self).rules_index.wf(),
        ensures
            final(self).rules_index.wf(),
            final(self).rules_index@ == add_rules_spec(old(self).rules_index@, rule_views(rules@)),
            final(self).triple_index@ == old(self).triple_index@,
            final(self).rules@ == old(self).rules@,
            final(self).encoder@ == old(self).encoder@,
    {
        let ghost r0 = self.rules_index@;
        let mut j: usize = 0;
        while j < rules.len()
            invariant
                j <= rules@.len(),
                self.rules_index.wf(),
                self.triple_index@ == old(self).triple_index@,
                self.rules@ == old(self).rules@,
                self.encoder@ == old(self).encoder@,
                self.rules_index@ == add_rules_spec(r0, rule_views(rules@).take(j as int)),
            decreases rules@.len() - j,
        {
            self.rules_index.add(&rules[j]);
            proof {
                assert(rule_views(rules@).take(j + 1).drop_last() =~= rule_views(rules@).take(j as int));
            }
            j = j + 1;
        }
        assert(rule_views(rules@).take(rules@.len() as int) =~= rule_views(rules@));
    }

    /// The number of triples.
    pub fn len(&self) -> (res: usize)
        ensures
            res == self.triple_index@.triples.len(),
    {
        self.triple_index.len()
    }

    /// Materializes the store's triples with its rules (see
    /// `Reasoner::materialize`) and returns the triples added.
    pub fn materialize(&mut self) -> (res: Vec<Triple>)
        requires
            old(self).rules_index.wf(),
            materializes(old(self).triple_index@, old(self).rules_index@),
        ensures
            (final(self).triple_index@, res@) == mat_result(old(self).triple_index@, old(self).rules_index@),
            final(self).rules_index@ == old(self).rules_index@,
            final(self).rules_index.wf(),
            final(self).rules@ == old(self).rules@,
            final(self).encoder@ == old(self).encoder@,
    {
        self.reasoner.materialize(&mut self.triple_index, &self.rules_index)
    }

    /// Reads triples in one of the serialisations (see
    /// `Parser::parse_triples`) and adds them in order; on a parse error
    /// nothing is added and the error is returned.
    pub fn load_triples(&mut self, data: &str, syntax: Syntax) -> (res: Result<(), String>)
        requires
            old(self).triple_index@.counter + encode_quads(old(self).encoder@, rio_parse(data@, syntax).0).len() < usize::MAX,
        ensures
            ({
                let parsed = rio_parse(data@, syntax);
                let ts = encode_quads(old(self).encoder@, parsed.0);
                &&& final(self).encoder@ == encode_quads_strings(old(self).encoder@, parsed.0)
                &&& match res {
                    Ok(_) => parsed.1 is None && final(self).triple_index@ == add_triples_spec(old(self).triple_index@, ts),
                    Err(e) => parsed.1 is Some && e@ == "Parsing error! "@ + parsed.1.unwrap()
                        && final(self).triple_index@ == old(self).triple_index@,
                }
            }),
            final(self).rules@ == old(self).rules@,
            final(self).rules_index@ == old(self).rules_index@,
            final(self).rules_index.wf() == old(self).rules_index.wf(),
    {
        let ghost st0 = self.encoder@;
        match Parser::parse_triples(data, syntax, &mut self.encoder) {
            Err(e) => Err(e),
            Ok(triples) => {
                proof {
                    lemma_quads_storable(st0, rio_parse(data@, syntax).0);
                }
                self.add_triples(&triples);
                Ok(())
            },
        }
    }

    /// As `load_triples`, testing first that the counter stays below its
    /// largest value: `None` when the triples read would take it there; then
    /// no triple is added (the dictionary holds their codes all the same).
    pub fn load_triples_checked(&mut self, data: &str, syntax: Syntax) -> (res: Option<Result<(), String>>)
        ensures
            ({
                let parsed = rio_parse(data@, syntax);
                let ts = encode_quads(old(self).encoder@, parsed.0);
                &&& final(self).encoder@ == encode_quads_strings(old(self).encoder@, parsed.0)
                &&& match res {
                    Some(Ok(_)) => parsed.1 is None && old(self).triple_index@.counter + ts.len() < usize::MAX
                        && final(self).triple_index@ == add_triples_spec(old(self).triple_index@, ts),
                    Some(Err(e)) => parsed.1 is Some && e@ == "Parsing error! "@ + parsed.1.unwrap()
                        && final(self).triple_index@ == old(self).triple_index@,
                    None => parsed.1 is None && old(self).triple_index@.counter + ts.len() >= usize::MAX
                        && final(self).triple_index@ == old(self).triple_index@,
                }
            }),
            final(self).rules@ == old(self).rules@,
            final(self).rules_index@ == old(self).rules_index@,
            final(self).rules_index.wf() == old(self).rules_index.wf(),
    {
        let ghost st0 = self.encoder@;
        match Parser::parse_triples(data, syntax, &mut self.encoder) {
            Err(e) => Some(Err(e)),
            Ok(triples) => {
                if self.triple_index.counter() < usize::MAX - triples.len() {
                    proof {
                        lemma_quads_storable(st0, rio_parse(data@, syntax).0);
                    }
                    self.add_triples(&triples);
                    Some(Ok(()))
                } else {
                    None
                }
            },
        }
    }

    /// Adds the triples in order.
    fn add_triples(&mut self, triples: &Vec<Triple>)
        requires
            all_storable(triples@),
            old(self).triple_index@.counter + triples@.len() < usize::MAX,
        ensures
            final(self).triple_index@ == add_triples_spec(old(self).triple_index@, triples@),
            final(self).rules@ == old(self).rules@,
            final(self).rules_index@ == old(self).rules_index@,
            final(self).rules_index.wf() == old(self).rules_index.wf(),
            final(self).encoder@ == old(self).encoder@,
    {
        let ghost v0 = self.triple_index@;
        let mut i: usize = 0;
        while i < triples.len()
            invariant
                i <= triples@.len(),
                all_storable(triples@),
                v0.counter + triples@.len() < usize::MAX,
                self.triple_index@.counter == v0.counter + i,
                self.triple_index@ == add_triples_spec(v0, triples@.take(i as int)),
                self.rules@ == old(self).rules@,
                self.rules_index@ == old(self).rules_index@,
                self.rules_index.wf() == old(self).rules_index.wf(),
                self.encoder@ == old(self).encoder@,
            decreases triples@.len() - i,
        {
            assert(storable(triples@[i as int]));
            self.triple_index.add(triples[i]);
            proof {
                assert(triples@.take(i + 1).drop_last() =~= triples@.take(i as int));
            }
            i = i + 1;
        }
        assert(triples@.take(triples@.len() as int) =~= triples@);
    }

    /// Reads rules in N3 (see `Parser::parse_rules`), keeps them and files
    /// them in order; on a parse error nothing changes and the error is
    /// returned.
    pub fn load_rules(&mut self, data: &str) -> (res: Result<(), &'static str>)
        requires
            old(self).rules_index.wf(),
        ensures
            final(self).rules_index.wf(),
            final(self).triple_index@ == old(self).triple_index@,
            match n3_spec(data@) {
                Some(rs) => {
                    let enc = encode_rules_spec(old(self).encoder@, rs);
                    &&& res is Ok
                    &&& final(self).encoder@ == enc.1
                    &&& rule_views(final(self).rules@) == rule_views(old(self).rules@) + enc.0
                    &&& final(self).rules_index@ == add_rules_spec(old(self).rules_index@, enc.0)
                },
                None => {
                    &&& res is Err
                    &&& final(self).encoder@ == old(self).encoder@
                    &&& final(self).rules@ == old(self).rules@
                    &&& final(self).rules_index@ == old(self).rules_index@
                },
            },
    {
        match Parser::parse_rules(data, &mut self.encoder) {
            Err(e) => Err(e),
            Ok(rules) => {
                let ghost before = rule_views(self.rules@);
                let ghost added = rule_views(rules@);
                let ghost enc = self.encoder@;
                let mut i: usize = 0;
                assert(before + added.take(0) =~= before);
                while i < rules.len()
                    invariant
                        i <= rules@.len(),
                        added == rule_views(rules@),
                        rule_views(self.rules@) == before + added.take(i as int),
                        self.rules_index.wf() == old(self).rules_index.wf(),
                        self.rules_index@ == old(self).rules_index@,
                        self.triple_index@ == old(self).triple_index@,
                        self.encoder@ == enc,
                    decreases rules@.len() - i,
                {
                    let ghost prev = self.rules@;
                    self.rules.push(rules[i].clone());
                    assert(rule_views(self.rules@) =~= rule_views(prev).push(added[i as int]));
                    assert(added.take(i + 1) =~= added.take(i as int).push(added[i as int]));
                    assert(rule_views(self.rules@) =~= before + added.take(i + 1));
                    i = i + 1;
                }
                assert(added.take(added.len() as int) =~= added);
                self.add_rules(rules);
                Ok(())
            },
        }
    }

    /// The store's triples written out (see `content_string`); every code of
    /// their subjects, predicates and objects must have a string.
    pub fn content_to_string(&self) -> (res: String)
        requires
            forall|i: int| 0 <= i < self.triple_index@.triples.len() ==> decodable(self.encoder@, #[trigger] self.triple_index@.triples[i]),
        ensures
            res@ == content_string(self.encoder@, self.triple_index@.triples),
    {
        let ghost ts = self.triple_index@.triples;
        let n = self.triple_index.len();
        let mut out: Vec<char> = Vec::new();
        let mut i: usize = 0;
        while i < n
            invariant
                n == ts.len(),
                i <= ts.len(),
                ts == self.triple_index@.triples,
                forall|k: int| 0 <= k < ts.len() ==> decodable(self.encoder@, #[trigger] ts[k]),
                out@ == content_string(self.encoder@, ts.take(i as int)),
            decreases ts.len() - i,
        {
            let t = self.triple_index.get(i).unwrap();
            let line = crate::utils::Utils::decode_triple(&self.encoder, t);
            append_chars(&mut out, &chars_of(line.as_str()));
            out.push('.');
            out.push('\n');
            proof {
                assert(ts.take(i + 1).drop_last() =~= ts.take(i as int));
                assert(out@ =~= content_string(self.encoder@, ts.take(i + 1)));
            }
            i = i + 1;
        }
        assert(ts.take(ts.len() as int) =~= ts);
        string_of(&out)
    }
}

} // verus!
