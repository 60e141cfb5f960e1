//! Reading triples and rules from text.
use vstd::prelude::*;
use rio_api::parser::{QuadsParser, TriplesParser};
use rio_turtle::{NQuadsParser, NTriplesParser, TriGParser, TurtleError, TurtleParser};
use crate::encoding::{Encoder, add_spec};
use crate::text::{chars_of, split_pat, contains_pat, trim, strip_ends, views, split, slice, string_of,
    ends_with_char, starts_with_char, strip_ends_exec};
use crate::triples::{Triple, Rule, RuleView, VarOrTerm, encode_spec};
use crate::reasoningstore::triple::{NamedOrBlankNode, NodeView, ReasonerTriple, ReasonerTripleView};
use crate::reasoningstore::rule::{Rule as ReasonerRule, RuleView as ReasonerRuleView};
use crate::n3_parser::{n3_spec, rule_views as n3_rule_views};

verus! {

/// The serialisations that `Parser::parse_triples` reads.
#[derive(Debug, Clone, Copy, PartialEq, Eq, Structural)]
pub enum Syntax {
    NTriples,
    Turtle,
    TriG,
    NQuads,
}

impl Default for Syntax {
    fn default() -> (res: Self)
        ensures
            res == Syntax::NTriples,
    {
        Syntax::NTriples
    }
}

/// Reads triples and rules.
pub struct Parser;

/// An item of the line format is a variable when it starts with `?`.
pub open spec fn item_is_var(t: Seq<char>) -> bool {
    t.len() > 0 && t[0] == '?'
}

/// `t` without a final `.`.
pub open spec fn strip_dot(t: Seq<char>) -> Seq<char> {
    if t.len() > 0 && t.last() == '.' {
        t.drop_last()
    } else {
        t
    }
}

/// A line of the line format holds a triple when it has at least three
/// space-separated items.
pub open spec fn triple_ok(data: Seq<char>) -> bool {
    split_pat(data, seq![' ']).len() >= 3
}

/// The three items of a triple line: the first three space-separated items,
/// the last without a final `.`.
pub open spec fn triple_items(data: Seq<char>) -> Seq<Seq<char>> {
    let items = split_pat(data, seq![' ']);
    seq![items[0], items[1], strip_dot(items[2])]
}

/// The elements that encoding the items `ts` in order gives.
pub open spec fn encode_items(strings: Seq<Seq<char>>, ts: Seq<Seq<char>>) -> Seq<VarOrTerm>
    decreases ts.len(),
{
    if ts.len() == 0 {
        seq![]
    } else {
        seq![encode_spec(strings, item_is_var(ts[0]), ts[0])] + encode_items(
            add_spec(strings, ts[0]),
            ts.drop_first(),
        )
    }
}

/// The dictionary after the items `ts` have been encoded in order.
pub open spec fn add_all(strings: Seq<Seq<char>>, ts: Seq<Seq<char>>) -> Seq<Seq<char>>
    decreases ts.len(),
{
    if ts.len() == 0 {
        strings
    } else {
        add_all(add_spec(strings, ts[0]), ts.drop_first())
    }
}

/// The triple that a line of the line format holds.
pub open spec fn parse_triple_spec(strings: Seq<Seq<char>>, data: Seq<char>) -> Triple {
    let vs = encode_items(strings, triple_items(data));
    Triple { s: vs[0], p: vs[1], o: vs[2], g: None }
}

/// The dictionary after a triple line has been read.
pub open spec fn parse_triple_strings(strings: Seq<Seq<char>>, data: Seq<char>) -> Seq<Seq<char>> {
    add_all(strings, triple_items(data))
}

/// The triples that the lines `datas` hold, read in order, with the dictionary
/// after them.
pub open spec fn parse_triples_spec(strings: Seq<Seq<char>>, datas: Seq<Seq<char>>) -> (Seq<Triple>, Seq<Seq<char>>)
    decreases datas.len(),
{
    if datas.len() == 0 {
        (seq![], strings)
    } else {
        let t = parse_triple_spec(strings, datas[0]);
        let rest = parse_triples_spec(parse_triple_strings(strings, datas[0]), datas.drop_first());
        (seq![t] + rest.0, rest.1)
    }
}

/// The triple patterns of a rule body: its `.`-separated pieces, trimmed, the
/// empty ones left out.
pub open spec fn body_items(body: Seq<char>) -> Seq<Seq<char>> {
    non_empty_trimmed(split_pat(body, seq!['.']))
}

/// The pieces `ps`, trimmed, without the empty ones.
pub open spec fn non_empty_trimmed(ps: Seq<Seq<char>>) -> Seq<Seq<char>>
    decreases ps.len(),
{
    if ps.len() == 0 {
        seq![]
    } else {
        let t = trim(ps[0]);
        (if t.len() > 0 {
            seq![t]
        } else {
            seq![]
        }) + non_empty_trimmed(ps.drop_first())
    }
}

/// The body and head of a rule line `{body}=>{head}`: the pieces around the
/// first `=>`, each without its first and last character.
pub open spec fn rule_parts(line: Seq<char>) -> (Seq<char>, Seq<char>) {
    let parts = split_pat(line, seq!['=', '>']);
    (strip_ends(parts[0]), strip_ends(parts[1]))
}

/// A line of the line format can be read: a rule line's head and body
/// patterns, and any other non-empty line, hold a triple.
pub open spec fn line_ok(line: Seq<char>) -> bool {
    if contains_pat(line, seq!['=', '>']) {
        &&& triple_ok(rule_parts(line).1)
        &&& forall|i: int| 0 <= i < body_items(rule_parts(line).0).len() ==> triple_ok(
            #[trigger] body_items(rule_parts(line).0)[i],
        )
    } else {
        line.len() > 0 ==> triple_ok(line)
    }
}

/// What one line adds to the triples and rules read so far, with the
/// dictionary after it.
pub open spec fn parse_line_spec(strings: Seq<Seq<char>>, line: Seq<char>) -> (Seq<Triple>, Seq<RuleView>, Seq<Seq<char>>) {
    if contains_pat(line, seq!['=', '>']) {
        let (body, head) = rule_parts(line);
        let h = parse_triple_spec(strings, head);
        let st1 = parse_triple_strings(strings, head);
        let bs = parse_triples_spec(st1, body_items(body));
        (seq![], seq![RuleView { body: bs.0, head: h }], bs.1)
    } else if line.len() > 0 {
        (seq![parse_triple_spec(strings, line)], seq![], parse_triple_strings(strings, line))
    } else {
        (seq![], seq![], strings)
    }
}

/// The triples and rules that the lines `lines` hold, read in order, with the
/// dictionary after them.
pub open spec fn parse_lines_spec(strings: Seq<Seq<char>>, lines: Seq<Seq<char>>) -> (Seq<Triple>, Seq<RuleView>, Seq<Seq<char>>)
    decreases lines.len(),
{
    if lines.len() == 0 {
        (seq![], seq![], strings)
    } else {
        let first = parse_line_spec(strings, lines[0]);
        let rest = parse_lines_spec(first.2, lines.drop_first());
        (first.0 + rest.0, first.1 + rest.1, rest.2)
    }
}

/// The lines of a text (`str::split` on `\n`).
pub open spec fn lines_of(data: Seq<char>) -> Seq<Seq<char>> {
    split_pat(data, seq!['\n'])
}

/// Every line of `data` can be read.
pub open spec fn parse_ok(data: Seq<char>) -> bool {
    forall|i: int| 0 <= i < lines_of(data).len() ==> line_ok(#[trigger] lines_of(data)[i])
}

pub open spec fn rule_views(rules: Seq<Rule>) -> Seq<RuleView> {
    rules.map_values(|r: Rule| r@)
}

/// A quad as plain text: subject, predicate, object and graph name.
pub type QuadText = (Seq<char>, Seq<char>, Seq<char>, Option<Seq<char>>);

/// What a parse of a serialisation gives: the quads read before the parse
/// stopped, and the error message if it stopped on an error.
pub type ParsedText = (Seq<QuadText>, Option<Seq<char>>);

/// The plain text of the quads that a rio wrapper hands back.
pub open spec fn quads_view(r: &(Vec<(String, String, String, Option<String>)>, Option<String>)) -> ParsedText {
    (
        r.0@.map_values(
            |q: (String, String, String, Option<String>)|
                (q.0@, q.1@, q.2@, match q.3 {
                    Some(g) => Some(g@),
                    None => None,
                }),
        ),
        match r.1 {
            Some(e) => Some(e@),
            None => None,
        },
    )
}

/// What rio's N-Triples parser reads from `data`.
pub uninterp spec fn rio_ntriples(data: Seq<char>) -> ParsedText;

/// What rio's Turtle parser reads from `data` (no base IRI).
pub uninterp spec fn rio_turtle(data: Seq<char>) -> ParsedText;

/// What rio's TriG parser reads from `data` (no base IRI).
pub uninterp spec fn rio_trig(data: Seq<char>) -> ParsedText;

/// What rio's N-Quads parser reads from `data`.
pub uninterp spec fn rio_nquads(data: Seq<char>) -> ParsedText;

/// Runs `rio_turtle::NTriplesParser` over `data` and hands back, as text
/// (rio's `Display` of each term), the triples that it read before it stopped,
/// and the `Debug` text of the error message if it stopped on an error. The
/// contract names that outcome; it says nothing more of it.
#[verifier::external_body]
fn parse_ntriples_text(data: &str) -> (res: (Vec<(String, String, String, Option<String>)>, Option<String>))
    ensures
        quads_view(&res) == rio_ntriples(data@),
{
    let mut out = Vec::new();
    let r = NTriplesParser::new(data.as_bytes()).parse_all(&mut |t: rio_api::model::Triple| {
        out.push((t.subject.to_string(), t.predicate.to_string(), t.object.to_string(), None));
        Ok(()) as Result<(), TurtleError>
    });
    match r {
        Ok(_) => (out, None),
        Err(e) => (out, Some(format!("{:?}", e.to_string()))),
    }
}

/// As `parse_ntriples_text`, with `rio_turtle::TurtleParser` (no base IRI).
#[verifier::external_body]
fn parse_turtle_text(data: &str) -> (res: (Vec<(String, String, String, Option<String>)>, Option<String>))
    ensures
        quads_view(&res) == rio_turtle(data@),
{
    let mut out = Vec::new();
    let r = TurtleParser::new(data.as_bytes(), None).parse_all(&mut |t: rio_api::model::Triple| {
        out.push((t.subject.to_string(), t.predicate.to_string(), t.object.to_string(), None));
        Ok(()) as Result<(), TurtleError>
    });
    match r {
        Ok(_) => (out, None),
        Err(e) => (out, Some(format!("{:?}", e.to_string()))),
    }
}

/// As `parse_ntriples_text`, with `rio_turtle::TriGParser` (no base IRI);
/// the graph name is rio's `Display` of it, when the quad has one.
#[verifier::external_body]
fn parse_trig_text(data: &str) -> (res: (Vec<(String, String, String, Option<String>)>, Option<String>))
    ensures
        quads_view(&res) == rio_trig(data@),
{
    let mut out = Vec::new();
    let r = TriGParser::new(data.as_bytes(), None).parse_all(&mut |q: rio_api::model::Quad| {
        out.push((q.subject.to_string(), q.predicate.to_string(), q.object.to_string(), q.graph_name.map(|g| g.to_string())));
        Ok(()) as Result<(), TurtleError>
    });
    match r {
        Ok(_) => (out, None),
        Err(e) => (out, Some(format!("{:?}", e.to_string()))),
    }
}

/// As `parse_trig_text`, with `rio_turtle::NQuadsParser`.
#[verifier::external_body]
fn parse_nquads_text(data: &str) -> (res: (Vec<(String, String, String, Option<String>)>, Option<String>))
    ensures
        quads_view(&res) == rio_nquads(data@),
{
    let mut out = Vec::new();
    let r = NQuadsParser::new(data.as_bytes()).parse_all(&mut |q: rio_api::model::Quad| {
        out.push((q.subject.to_string(), q.predicate.to_string(), q.object.to_string(), q.graph_name.map(|g| g.to_string())));
        Ok(()) as Result<(), TurtleError>
    });
    match r {
        Ok(_) => (out, None),
        Err(e) => (out, Some(format!("{:?}", e.to_string()))),
    }
}

/// The parse that `Parser::parse_triples` runs for a syntax: the triple
/// parsers for N-Triples and Turtle, the quad parsers for TriG and N-Quads.
pub open spec fn rio_parse(data: Seq<char>, syntax: Syntax) -> ParsedText {
    match syntax {
        Syntax::NTriples => rio_ntriples(data),
        Syntax::Turtle => rio_turtle(data),
        Syntax::TriG => rio_trig(data),
        Syntax::NQuads => rio_nquads(data),
    }
}

/// The triples that encoding the quads `qs` in order gives, every element a
/// term.
pub open spec fn encode_quads(strings: Seq<Seq<char>>, qs: Seq<QuadText>) -> Seq<Triple>
    decreases qs.len(),
{
    if qs.len() == 0 {
        seq![]
    } else {
        let q = qs[0];
        let st1 = add_spec(strings, q.0);
        let st2 = add_spec(st1, q.1);
        let st3 = add_spec(st2, q.2);
        let t = Triple {
            s: encode_spec(strings, false, q.0),
            p: encode_spec(st1, false, q.1),
            o: encode_spec(st2, false, q.2),
            g: match q.3 {
                Some(g) => Some(encode_spec(st3, false, g)),
                None => None,
            },
        };
        seq![t] + encode_quads(quad_strings(strings, q), qs.drop_first())
    }
}

/// The dictionary after one quad has been encoded.
pub open spec fn quad_strings(strings: Seq<Seq<char>>, q: QuadText) -> Seq<Seq<char>> {
    let st3 = add_spec(add_spec(add_spec(strings, q.0), q.1), q.2);
    match q.3 {
        Some(g) => add_spec(st3, g),
        None => st3,
    }
}

/// The dictionary after the quads `qs` have been encoded in order.
pub open spec fn encode_quads_strings(strings: Seq<Seq<char>>, qs: Seq<QuadText>) -> Seq<Seq<char>>
    decreases qs.len(),
{
    if qs.len() == 0 {
        strings
    } else {
        encode_quads_strings(quad_strings(strings, qs[0]), qs.drop_first())
    }
}

/// The element that one item of the line format stands for.
fn convert_item(item: &Vec<char>, encoder: &mut Encoder) -> (res: VarOrTerm)
    ensures
        res == encode_spec(old(encoder)@, item_is_var(item@), item@),
        final(encoder)@ == add_spec(old(encoder)@, item@),
{
    let s = string_of(item);
    if starts_with_char(item, '?') {
        VarOrTerm::new_var(s, encoder)
    } else {
        VarOrTerm::new_term(s, encoder)
    }
}

impl Parser {
    /// Reads one triple line: `s p o` or `s p o.`.
    fn parse_triple(data: &Vec<char>, encoder: &mut Encoder) -> (res: Triple)
        requires
            triple_ok(data@),
        ensures
            res == parse_triple_spec(old(encoder)@, data@),
            final(encoder)@ == parse_triple_strings(old(encoder)@, data@),
    {
        let mut space: Vec<char> = Vec::new();
        space.push(' ');
        let items = split(data, &space);
        assert(space@ =~= seq![' ']);
        let ghost texts = triple_items(data@);
        let o = if ends_with_char(&items[2], '.') {
            slice(&items[2], 0, items[2].len() - 1)
        } else {
            slice(&items[2], 0, items[2].len())
        };
        assert(items@[0]@ == texts[0]);
        assert(items@[1]@ == texts[1]);
        assert(o@ =~= texts[2]);
        let ghost st0 = encoder@;
        let s = convert_item(&items[0], encoder);
        let ghost st1 = encoder@;
        let p = convert_item(&items[1], encoder);
        let ghost st2 = encoder@;
        let o = convert_item(&o, encoder);
        proof {
            reveal_with_fuel(encode_items, 4);
            reveal_with_fuel(add_all, 4);
            assert(texts.drop_first() =~= seq![texts[1], texts[2]]);
            assert(texts.drop_first().drop_first() =~= seq![texts[2]]);
            assert(texts.drop_first().drop_first().drop_first() =~= Seq::<Seq<char>>::empty());
        }
        Triple { s, p, o, g: None }
    }

    /// Reads the triple patterns `datas` in order.
    fn parse_triple_list(datas: &Vec<Vec<char>>, encoder: &mut Encoder) -> (res: Vec<Triple>)
        requires
            forall|i: int| 0 <= i < datas@.len() ==> triple_ok(#[trigger] datas@[i]@),
        ensures
            res@ == parse_triples_spec(old(encoder)@, views(datas@)).0,
            final(encoder)@ == parse_triples_spec(old(encoder)@, views(datas@)).1,
    {
        let mut res: Vec<Triple> = Vec::new();
        let mut i: usize = 0;
        let ghost st0 = encoder@;
        proof {
            assert(views(datas@).subrange(0, datas@.len() as int) =~= views(datas@));
            assert(res@ + parse_triples_spec(st0, views(datas@)).0 =~= parse_triples_spec(st0, views(datas@)).0);
        }
        while i < datas.len()
            invariant
                i <= datas@.len(),
                forall|k: int| 0 <= k < datas@.len() ==> triple_ok(#[trigger] datas@[k]@),
                parse_triples_spec(st0, views(datas@)).0 == res@ + parse_triples_spec(
                    encoder@,
                    views(datas@).subrange(i as int, datas@.len() as int),
                ).0,
                parse_triples_spec(st0, views(datas@)).1 == parse_triples_spec(
                    encoder@,
                    views(datas@).subrange(i as int, datas@.len() as int),
                ).1,
            decreases datas@.len() - i,
        {
            let ghost rest = views(datas@).subrange(i as int, datas@.len() as int);
            let ghost st = encoder@;
            let t = Self::parse_triple(&datas[i], encoder);
            proof {
                assert(rest[0] == datas@[i as int]@);
                assert(rest.drop_first() =~= views(datas@).subrange(i + 1, datas@.len() as int));
            }
            res.push(t);
            proof {
                assert(parse_triples_spec(st, rest).0 == seq![t] + parse_triples_spec(encoder@, rest.drop_first()).0);
                assert(res@ + parse_triples_spec(encoder@, rest.drop_first()).0 =~= res@.drop_last() + parse_triples_spec(st, rest).0);
            }
            i = i + 1;
        }
        proof {
            assert(views(datas@).subrange(datas@.len() as int, datas@.len() as int) =~= Seq::<Seq<char>>::empty());
            assert(res@ + Seq::<Triple>::empty() =~= res@);
        }
        res
    }

    /// The trimmed, non-empty `.`-separated pieces of a rule body.
    fn body_patterns(body: &Vec<char>) -> (res: Vec<Vec<char>>)
        ensures
            views(res@) == body_items(body@),
    {
        let mut dot: Vec<char> = Vec::new();
        dot.push('.');
        assert(dot@ =~= seq!['.']);
        let pieces = split(body, &dot);
        let ghost ps = views(pieces@);
        let mut res: Vec<Vec<char>> = Vec::new();
        let mut i: usize = 0;
        proof {
            assert(ps.subrange(0, ps.len() as int) =~= ps);
            assert(views(res@) + non_empty_trimmed(ps) =~= non_empty_trimmed(ps));
        }
        while i < pieces.len()
            invariant
                i <= pieces@.len(),
                ps == views(pieces@),
                ps == split_pat(body@, seq!['.']),
                non_empty_trimmed(ps) == views(res@) + non_empty_trimmed(
                    ps.subrange(i as int, ps.len() as int),
                ),
            decreases pieces@.len() - i,
        {
            let ghost rest = ps.subrange(i as int, ps.len() as int);
            let ghost old_res = views(res@);
            let t = crate::text::trim_exec(&pieces[i]);
            proof {
                assert(rest[0] == pieces@[i as int]@);
                assert(rest.drop_first() =~= ps.subrange(i + 1, ps.len() as int));
            }
            if t.len() > 0 {
                res.push(t);
                proof {
                    assert(views(res@) =~= old_res.push(t@));
                    assert(views(res@) + non_empty_trimmed(rest.drop_first()) =~= old_res
                        + non_empty_trimmed(rest));
                }
            } else {
                proof {
                    assert(non_empty_trimmed(rest) =~= non_empty_trimmed(rest.drop_first()));
                }
            }
            i = i + 1;
        }
        proof {
            assert(ps.subrange(ps.len() as int, ps.len() as int) =~= Seq::<Seq<char>>::empty());
            assert(views(res@) + Seq::<Seq<char>>::empty() =~= views(res@));
        }
        res
    }

    /// Reads one line into `content` (a triple line) or `rules` (a rule line).
    fn parse_line(line: &Vec<char>, encoder: &mut Encoder, content: &mut Vec<Triple>, rules: &mut Vec<Rule>)
        requires
            line_ok(line@),
        ensures
            ({
                let r = parse_line_spec(old(encoder)@, line@);
                &&& final(content)@ == old(content)@ + r.0
                &&& rule_views(final(rules)@) == rule_views(old(rules)@) + r.1
                &&& final(encoder)@ == r.2
            }),
    {
        let mut arrow: Vec<char> = Vec::new();
        arrow.push('=');
        arrow.push('>');
        assert(arrow@ =~= seq!['=', '>']);
        if crate::text::contains(line, &arrow) {
            let parts = split(line, &arrow);
            proof {
                crate::text::lemma_split_from_len(line@, arrow@, 0);
            }
            let body = Self::rem_first_and_last(&parts[0]);
            let head = Self::rem_first_and_last(&parts[1]);
            let head_triple = Self::parse_triple(&head, encoder);
            let pieces = Self::body_patterns(&body);
            proof {
                assert(body@ == rule_parts(line@).0);
                assert forall|k: int| 0 <= k < pieces@.len() implies triple_ok(#[trigger] pieces@[k]@) by {
                    assert(pieces@[k]@ == views(pieces@)[k]);
                    assert(triple_ok(body_items(rule_parts(line@).0)[k]));
                }
            }
            let body_triples = Self::parse_triple_list(&pieces, encoder);
            let ghost old_rules = rule_views(rules@);
            rules.push(Rule { head: head_triple, body: body_triples });
            proof {
                assert(rule_views(rules@) =~= old_rules.push(rules@.last()@));
                assert(content@ + Seq::<Triple>::empty() =~= content@);
            }
        } else if line.len() > 0 {
            let triple = Self::parse_triple(line, encoder);
            content.push(triple);
            proof {
                assert(rule_views(rules@) + Seq::<RuleView>::empty() =~= rule_views(rules@));
            }
        } else {
            proof {
                assert(rule_views(rules@) + Seq::<RuleView>::empty() =~= rule_views(rules@));
                assert(content@ + Seq::<Triple>::empty() =~= content@);
            }
        }
    }

    /// Reads text in the line format: each line is a triple `s p o.` or a rule
    /// `{s p o. s p o}=>{s p o}`; an item is a variable when it starts with
    /// `?`. Returns the triples and the rules in the order of their lines.
    pub fn parse(data: String, encoder: &mut Encoder) -> (res: (Vec<Triple>, Vec<Rule>))
        requires
            parse_ok(data@),
        ensures
            ({
                let r = parse_lines_spec(old(encoder)@, lines_of(data@));
                &&& res.0@ == r.0
                &&& rule_views(res.1@) == r.1
                &&& final(encoder)@ == r.2
            }),
    {
        let chars = chars_of(data.as_str());
        let mut nl: Vec<char> = Vec::new();
        nl.push('\n');
        assert(nl@ =~= seq!['\n']);
        let lines = split(&chars, &nl);
        let ghost ls = views(lines@);
        let ghost st0 = encoder@;
        let mut rules: Vec<Rule> = Vec::new();
        let mut content: Vec<Triple> = Vec::new();
        let mut i: usize = 0;
        proof {
            assert(ls.subrange(0, ls.len() as int) =~= ls);
            let r = parse_lines_spec(st0, ls);
            assert(content@ + r.0 =~= r.0);
            assert(rule_views(rules@) + r.1 =~= r.1);
        }
        while i < lines.len()
            invariant
                i <= lines@.len(),
                ls == views(lines@),
                ls == lines_of(data@),
                parse_ok(data@),
                ({
                    let all = parse_lines_spec(st0, ls);
                    let rest = parse_lines_spec(encoder@, ls.subrange(i as int, ls.len() as int));
                    &&& all.0 == content@ + rest.0
                    &&& all.1 == rule_views(rules@) + rest.1
                    &&& all.2 == rest.2
                }),
            decreases lines@.len() - i,
        {
            let ghost rest = ls.subrange(i as int, ls.len() as int);
            let ghost st = encoder@;
            let ghost c0 = content@;
            let ghost r0 = rule_views(rules@);
            proof {
                assert(line_ok(ls[i as int]));
                assert(rest[0] == lines@[i as int]@);
                assert(rest.drop_first() =~= ls.subrange(i + 1, ls.len() as int));
            }
            Self::parse_line(&lines[i], encoder, &mut content, &mut rules);
            proof {
                let first = parse_line_spec(st, rest[0]);
                let tail = parse_lines_spec(encoder@, rest.drop_first());
                assert(content@ + tail.0 =~= c0 + (first.0 + tail.0));
                assert(rule_views(rules@) + tail.1 =~= r0 + (first.1 + tail.1));
            }
            i = i + 1;
        }
        proof {
            assert(ls.subrange(ls.len() as int, ls.len() as int) =~= Seq::<Seq<char>>::empty());
            assert(content@ + Seq::<Triple>::empty() =~= content@);
            assert(rule_views(rules@) + Seq::<RuleView>::empty() =~= rule_views(rules@));
        }
        (content, rules)
    }

    /// Reads triples in one of the serialisations of `Syntax` with rio. Every
    /// triple read is encoded, also when the parse then stops on an error;
    /// the result is the triples, or the error message after
    /// `Parsing error! `.
    pub fn parse_triples(data: &str, syntax: Syntax, encoder: &mut Encoder) -> (res: Result<Vec<Triple>, String>)
        ensures
            ({
                let parsed = rio_parse(data@, syntax);
                &&& final(encoder)@ == encode_quads_strings(old(encoder)@, parsed.0)
                &&& match res {
                    Ok(ts) => parsed.1 is None && ts@ == encode_quads(old(encoder)@, parsed.0),
                    Err(e) => parsed.1 is Some && e@ == "Parsing error! "@ + parsed.1.unwrap(),
                }
            }),
    {
        let parsed = if syntax == Syntax::Turtle || syntax == Syntax::NTriples {
            match syntax {
                Syntax::Turtle => parse_turtle_text(data),
                _ => parse_ntriples_text(data),
            }
        } else {
            match syntax {
                Syntax::TriG => parse_trig_text(data),
                _ => parse_nquads_text(data),
            }
        };
        Self::encode_parsed(parsed, encoder)
    }

    /// Encodes what a rio parse gave: each quad read, in order, as a triple
    /// of terms (with its graph name), also when the parse then stopped on an
    /// error; the result is the triples, or the error message after
    /// `Parsing error! `.
    pub fn encode_parsed(
        parsed: (Vec<(String, String, String, Option<String>)>, Option<String>),
        encoder: &mut Encoder,
    ) -> (res: Result<Vec<Triple>, String>)
        ensures
            ({
                let pv = quads_view(&parsed);
                &&& final(encoder)@ == encode_quads_strings(old(encoder)@, pv.0)
                &&& match res {
                    Ok(ts) => pv.1 is None && ts@ == encode_quads(old(encoder)@, pv.0),
                    Err(e) => pv.1 is Some && e@ == "Parsing error! "@ + pv.1.unwrap(),
                }
            }),
    {
        let ghost qs = quads_view(&parsed).0;
        let ghost st0 = encoder@;
        let mut triples: Vec<Triple> = Vec::new();
        let mut i: usize = 0;
        proof {
            assert(qs.subrange(0, qs.len() as int) =~= qs);
            assert(triples@ + encode_quads(st0, qs) =~= encode_quads(st0, qs));
        }
        while i < parsed.0.len()
            invariant
                i <= parsed.0@.len(),
                qs == quads_view(&parsed).0,
                qs.len() == parsed.0@.len(),
                encode_quads(st0, qs) == triples@ + encode_quads(
                    encoder@,
                    qs.subrange(i as int, qs.len() as int),
                ),
                encode_quads_strings(st0, qs) == encode_quads_strings(
                    encoder@,
                    qs.subrange(i as int, qs.len() as int),
                ),
            decreases parsed.0@.len() - i,
        {
            let ghost rest = qs.subrange(i as int, qs.len() as int);
            let ghost old_triples = triples@;
            let ghost st = encoder@;
            let q = &parsed.0[i];
            proof {
                assert(rest[0] == qs[i as int]);
                assert(rest.drop_first() =~= qs.subrange(i + 1, qs.len() as int));
            }
            let s = VarOrTerm::new_term(q.0.clone(), encoder);
            let p = VarOrTerm::new_term(q.1.clone(), encoder);
            let o = VarOrTerm::new_term(q.2.clone(), encoder);
            let g = match &q.3 {
                Some(name) => Some(VarOrTerm::new_term(name.clone(), encoder)),
                None => None,
            };
            triples.push(Triple { s, p, o, g });
            proof {
                assert(rest[0] == (q.0@, q.1@, q.2@, match q.3 {
                    Some(gn) => Some(gn@),
                    None => None,
                }));
                assert(encoder@ == quad_strings(st, rest[0]));
                assert(encode_quads(st, rest) == seq![triples@.last()] + encode_quads(encoder@, rest.drop_first()));
                assert(triples@ + encode_quads(encoder@, rest.drop_first()) =~= old_triples + encode_quads(
                    st,
                    rest,
                ));
            }
            i = i + 1;
        }
        proof {
            assert(qs.subrange(qs.len() as int, qs.len() as int) =~= Seq::<QuadText>::empty());
            assert(triples@ + Seq::<Triple>::empty() =~= triples@);
        }
        match parsed.1 {
            None => Ok(triples),
            Some(message) => {
                let mut msg = chars_of("Parsing error! ");
                let m = chars_of(message.as_str());
                crate::text::append_chars(&mut msg, &m);
                Err(string_of(&msg))
            },
        }
    }

    /// Drops the first and last character.
    /// Whether a piece holds a triple (see `triple_ok`).
    fn triple_ok_exec(data: &Vec<char>) -> (res: bool)
        ensures
            res == triple_ok(data@),
    {
        let mut space: Vec<char> = Vec::new();
        space.push(' ');
        assert(space@ =~= seq![' ']);
        split(data, &space).len() >= 3
    }

    /// Whether a line can be read (see `line_ok`).
    fn line_ok_exec(line: &Vec<char>) -> (res: bool)
        ensures
            res == line_ok(line@),
    {
        let mut arrow: Vec<char> = Vec::new();
        arrow.push('=');
        arrow.push('>');
        assert(arrow@ =~= seq!['=', '>']);
        if crate::text::contains(line, &arrow) {
            let parts = split(line, &arrow);
            proof {
                crate::text::lemma_split_from_len(line@, arrow@, 0);
            }
            let body = Self::rem_first_and_last(&parts[0]);
            let head = Self::rem_first_and_last(&parts[1]);
            assert(body@ == rule_parts(line@).0);
            assert(head@ == rule_parts(line@).1);
            if !Self::triple_ok_exec(&head) {
                return false;
            }
            let pieces = Self::body_patterns(&body);
            let ghost items = body_items(rule_parts(line@).0);
            assert(views(pieces@) == items);
            let mut k: usize = 0;
            while k < pieces.len()
                invariant
                    k <= pieces@.len(),
                    views(pieces@) == items,
                    items == body_items(rule_parts(line@).0),
                    contains_pat(line@, seq!['=', '>']),
                    triple_ok(rule_parts(line@).1),
                    forall|j: int| 0 <= j < k ==> triple_ok(#[trigger] items[j]),
                decreases pieces@.len() - k,
            {
                assert(pieces@[k as int]@ == items[k as int]);
                if !Self::triple_ok_exec(&pieces[k]) {
                    assert(!triple_ok(body_items(rule_parts(line@).0)[k as int]));
                    return false;
                }
                k = k + 1;
            }
            true
        } else {
            line.len() == 0 || Self::triple_ok_exec(line)
        }
    }

    /// Whether every line of `data` can be read (see `parse_ok`).
    pub fn parse_ok_exec(data: &str) -> (res: bool)
        ensures
            res == parse_ok(data@),
    {
        let chars = chars_of(data);
        let mut nl: Vec<char> = Vec::new();
        nl.push('\n');
        assert(nl@ =~= seq!['\n']);
        let lines = split(&chars, &nl);
        let ghost ls = views(lines@);
        assert(ls == lines_of(data@));
        let mut i: usize = 0;
        while i < lines.len()
            invariant
                i <= lines@.len(),
                ls == views(lines@),
                ls == lines_of(data@),
                forall|j: int| 0 <= j < i ==> line_ok(#[trigger] ls[j]),
            decreases lines@.len() - i,
        {
            assert(lines@[i as int]@ == ls[i as int]);
            if !Self::line_ok_exec(&lines[i]) {
                return false;
            }
            i = i + 1;
        }
        true
    }

    fn rem_first_and_last(value: &Vec<char>) -> (res: Vec<char>)
        ensures
            res@ == strip_ends(value@),
    {
        strip_ends_exec(value)
    }
}


/// How a node of an N3 rule is encoded: a named node as the term `<iri>`, a
/// blank node as the variable of its name.
pub open spec fn node_encoding(n: NodeView) -> (bool, Seq<char>) {
    match n {
        NodeView::NamedNode(iri) => (false, seq!['<'] + iri + seq!['>']),
        NodeView::BlankNode(name) => (true, name),
    }
}

/// The encoded pattern of an N3 pattern, and the dictionary after it (its
/// subject, predicate and object are encoded in that order).
pub open spec fn encode_pattern_spec(strings: Seq<Seq<char>>, t: ReasonerTripleView) -> (Triple, Seq<Seq<char>>) {
    let (vs, ts) = node_encoding(t.s);
    let (vp, tp) = node_encoding(t.p);
    let (vo, to) = node_encoding(t.o);
    let st1 = add_spec(strings, ts);
    let st2 = add_spec(st1, tp);
    let st3 = add_spec(st2, to);
    (Triple { s: encode_spec(strings, vs, ts), p: encode_spec(st1, vp, tp), o: encode_spec(st2, vo, to), g: None }, st3)
}

/// The encoded patterns of N3 patterns, encoded in order, and the dictionary
/// after them.
pub open spec fn encode_patterns_spec(strings: Seq<Seq<char>>, ts: Seq<ReasonerTripleView>) -> (Seq<Triple>, Seq<Seq<char>>)
    decreases ts.len(),
{
    if ts.len() == 0 {
        (seq![], strings)
    } else {
        let first = encode_pattern_spec(strings, ts[0]);
        let rest = encode_patterns_spec(first.1, ts.drop_first());
        (seq![first.0] + rest.0, rest.1)
    }
}

/// The encoded rule of an N3 rule (head first, then the body), and the
/// dictionary after it.
pub open spec fn encode_rule_spec(strings: Seq<Seq<char>>, r: ReasonerRuleView) -> (RuleView, Seq<Seq<char>>) {
    let head = encode_pattern_spec(strings, r.head);
    let body = encode_patterns_spec(head.1, r.body);
    (RuleView { body: body.0, head: head.0 }, body.1)
}

/// The encoded rules of N3 rules, encoded in order, and the dictionary after
/// them.
pub open spec fn encode_rules_spec(strings: Seq<Seq<char>>, rs: Seq<ReasonerRuleView>) -> (Seq<RuleView>, Seq<Seq<char>>)
    decreases rs.len(),
{
    if rs.len() == 0 {
        (seq![], strings)
    } else {
        let first = encode_rule_spec(strings, rs[0]);
        let rest = encode_rules_spec(first.1, rs.drop_first());
        (seq![first.0] + rest.0, rest.1)
    }
}

/// Encodes a node of an N3 rule (see `node_encoding`).
fn encode_node(n: &NamedOrBlankNode, encoder: &mut Encoder) -> (res: VarOrTerm)
    ensures
        res == encode_spec(old(encoder)@, node_encoding(n@).0, node_encoding(n@).1),
        final(encoder)@ == add_spec(old(encoder)@, node_encoding(n@).1),
{
    match n {
        NamedOrBlankNode::NamedNode(iri) => {
            let mut out: Vec<char> = Vec::new();
            out.push('<');
            crate::text::append_chars(&mut out, &chars_of(iri.as_str()));
            out.push('>');
            assert(out@ =~= seq!['<'] + iri@ + seq!['>']);
            VarOrTerm::new_term(string_of(&out), encoder)
        },
        NamedOrBlankNode::BlankNode(name) => VarOrTerm::new_var(name.clone(), encoder),
    }
}

/// Encodes an N3 pattern (see `encode_pattern_spec`).
fn encode_pattern(t: &ReasonerTriple, encoder: &mut Encoder) -> (res: Triple)
    ensures
        res == encode_pattern_spec(old(encoder)@, t@).0,
        final(encoder)@ == encode_pattern_spec(old(encoder)@, t@).1,
{
    let s = encode_node(&t.s, encoder);
    let p = encode_node(&t.p, encoder);
    let o = encode_node(&t.o, encoder);
    Triple { s, p, o, g: None }
}

/// Encodes an N3 rule (see `encode_rule_spec`).
fn encode_rule(r: &ReasonerRule, encoder: &mut Encoder) -> (res: Rule)
    ensures
        res@ == encode_rule_spec(old(encoder)@, r@).0,
        final(encoder)@ == encode_rule_spec(old(encoder)@, r@).1,
{
    let head = encode_pattern(&r.head, encoder);
    let ghost st = encoder@;
    let ghost bv = r@.body;
    let mut body: Vec<Triple> = Vec::new();
    let mut i: usize = 0;
    proof {
        assert(bv.subrange(0, bv.len() as int) =~= bv);
        assert(body@ + encode_patterns_spec(st, bv).0 =~= encode_patterns_spec(st, bv).0);
    }
    while i < r.body.len()
        invariant
            i <= r.body@.len(),
            bv == r@.body,
            bv.len() == r.body@.len(),
            encode_patterns_spec(st, bv).0 == body@ + encode_patterns_spec(encoder@, bv.subrange(i as int, bv.len() as int)).0,
            encode_patterns_spec(st, bv).1 == encode_patterns_spec(encoder@, bv.subrange(i as int, bv.len() as int)).1,
        decreases r.body@.len() - i,
    {
        let ghost rest = bv.subrange(i as int, bv.len() as int);
        let ghost old_body = body@;
        proof {
            assert(rest[0] == r.body@[i as int]@);
            assert(rest.drop_first() =~= bv.subrange(i + 1, bv.len() as int));
        }
        let t = encode_pattern(&r.body[i], encoder);
        body.push(t);
        proof {
            assert(body@ + encode_patterns_spec(encoder@, rest.drop_first()).0 =~= old_body + encode_patterns_spec(
                encoder@,
                rest.drop_first(),
            ).0.insert(0, t));
        }
        i = i + 1;
    }
    proof {
        assert(bv.subrange(bv.len() as int, bv.len() as int) =~= Seq::<ReasonerTripleView>::empty());
        assert(body@ + Seq::<Triple>::empty() =~= body@);
    }
    Rule { body, head }
}

impl Parser {
    /// Reads the rules of an N3 text (see `crate::n3_parser`) and encodes
    /// them: a named node is the term `<iri>`, a blank node the variable of
    /// its name; each rule's head is encoded before its body. Fails with
    /// `Parsing failed`, leaving the dictionary as it was, when the text is
    /// malformed.
    pub fn parse_rules(parse_string: &str, encoder: &mut Encoder) -> (res: Result<Vec<Rule>, &'static str>)
        ensures
            match n3_spec(parse_string@) {
                Some(rs) => {
                    &&& res is Ok
                    &&& rule_views(res->Ok_0@) == encode_rules_spec(old(encoder)@, rs).0
                    &&& final(encoder)@ == encode_rules_spec(old(encoder)@, rs).1
                },
                None => {
                    &&& res is Err
                    &&& res->Err_0@ == "Parsing failed"@
                    &&& final(encoder)@ == old(encoder)@
                },
            },
    {
        let parsed = crate::n3_parser::parse(parse_string);
        match parsed {
            Err(e) => Err(e),
            Ok(n3_rules) => {
                let ghost rs = n3_rule_views(n3_rules@);
                let ghost st0 = encoder@;
                let mut rules: Vec<Rule> = Vec::new();
                let mut i: usize = 0;
                proof {
                    assert(rs.subrange(0, rs.len() as int) =~= rs);
                    assert(rule_views(rules@) + encode_rules_spec(st0, rs).0 =~= encode_rules_spec(st0, rs).0);
                }
                while i < n3_rules.len()
                    invariant
                        i <= n3_rules@.len(),
                        rs == n3_rule_views(n3_rules@),
                        rs.len() == n3_rules@.len(),
                        encode_rules_spec(st0, rs).0 == rule_views(rules@) + encode_rules_spec(
                            encoder@,
                            rs.subrange(i as int, rs.len() as int),
                        ).0,
                        encode_rules_spec(st0, rs).1 == encode_rules_spec(
                            encoder@,
                            rs.subrange(i as int, rs.len() as int),
                        ).1,
                    decreases n3_rules@.len() - i,
                {
                    let ghost rest = rs.subrange(i as int, rs.len() as int);
                    let ghost old_rules = rule_views(rules@);
                    proof {
                        assert(rest[0] == n3_rules@[i as int]@);
                        assert(rest.drop_first() =~= rs.subrange(i + 1, rs.len() as int));
                    }
                    let r = encode_rule(&n3_rules[i], encoder);
                    rules.push(r);
                    proof {
                        assert(rule_views(rules@) =~= old_rules.push(r@));
                        assert(rule_views(rules@) + encode_rules_spec(encoder@, rest.drop_first()).0 =~= old_rules
                            + encode_rules_spec(encoder@, rest.drop_first()).0.insert(0, r@));
                    }
                    i = i + 1;
                }
                proof {
                    assert(rs.subrange(rs.len() as int, rs.len() as int) =~= Seq::<ReasonerRuleView>::empty());
                    assert(rule_views(rules@) + Seq::<RuleView>::empty() =~= rule_views(rules@));
                }
                Ok(rules)
            },
        }
    }
}

} // verus!
