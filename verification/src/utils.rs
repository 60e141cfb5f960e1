//! Writing encoded triples and rules back as text, and reading literal values.
use vstd::prelude::*;
use crate::encoding::{Encoder, decode_spec};
use crate::text::{chars_of, string_of, find_from, strip_ends, append_chars, find, slice};
use crate::triples::{Triple, Rule, RuleView, code_of};

verus! {

/// Text helpers over encoded triples and rules.
pub struct Utils;

/// Every code of the pattern's subject, predicate and object has a string in
/// the dictionary.
pub open spec fn decodable(strings: Seq<Seq<char>>, t: Triple) -> bool {
    &&& decode_spec(strings, code_of(t.s) as int) is Some
    &&& decode_spec(strings, code_of(t.p) as int) is Some
    &&& decode_spec(strings, code_of(t.o) as int) is Some
}

/// A triple written as its three strings separated by spaces.
pub open spec fn triple_string(strings: Seq<Seq<char>>, t: Triple) -> Seq<char> {
    strings[code_of(t.s) as int] + seq![' '] + strings[code_of(t.p) as int] + seq![' ']
        + strings[code_of(t.o) as int]
}

/// The body of a rule written as its triples, each followed by `,`.
pub open spec fn body_string(strings: Seq<Seq<char>>, body: Seq<Triple>) -> Seq<char>
    decreases body.len(),
{
    if body.len() == 0 {
        seq![]
    } else {
        body_string(strings, body.drop_last()) + triple_string(strings, body.last()) + seq![',']
    }
}

/// A rule written as `{body}=>{head}`.
pub open spec fn rule_string(strings: Seq<Seq<char>>, r: RuleView) -> Seq<char> {
    seq!['{'] + body_string(strings, r.body) + seq!['}', '=', '>', '{'] + triple_string(strings, r.head)
        + seq!['}']
}

/// The value of a typed literal: when `^^` occurs, the text before its first
/// occurrence without its first and last character (the quotes); else the
/// text itself.
pub open spec fn literal_value(s: Seq<char>) -> Seq<char> {
    match find_from(s, seq!['^', '^'], 0) {
        Some(i) => strip_ends(s.subrange(0, i)),
        None => s,
    }
}

/// A character that UTF-8 writes in one byte.
pub open spec fn is_ascii(c: char) -> bool {
    (c as u32) < 128
}

/// Appends the string with code `c`.
fn push_decoded(out: &mut Vec<char>, encoder: &Encoder, c: usize)
    requires
        decode_spec(encoder@, c as int) is Some,
    ensures
        final(out)@ == old(out)@ + encoder@[c as int],
{
    match encoder.decode(&c) {
        Some(s) => append_chars(out, &chars_of(s.as_str())),
        None => {},
    }
}

/// Appends a triple written as in `triple_string`.
pub(crate) fn push_triple(out: &mut Vec<char>, encoder: &Encoder, triple: &Triple)
    requires
        decodable(encoder@, *triple),
    ensures
        final(out)@ == old(out)@ + triple_string(encoder@, *triple),
{
    push_decoded(out, encoder, triple.s.to_encoded());
    out.push(' ');
    push_decoded(out, encoder, triple.p.to_encoded());
    out.push(' ');
    push_decoded(out, encoder, triple.o.to_encoded());
    assert(out@ =~= old(out)@ + triple_string(encoder@, *triple));
}

impl Utils {
    /// The triple written as its three strings separated by spaces.
    pub fn decode_triple(encoder: &Encoder, triple: &Triple) -> (res: String)
        requires
            decodable(encoder@, *triple),
        ensures
            res@ == triple_string(encoder@, *triple),
    {
        let mut out: Vec<char> = Vec::new();
        push_triple(&mut out, encoder, triple);
        assert(out@ =~= triple_string(encoder@, *triple));
        string_of(&out)
    }

    /// The rule written as `{t1,t2,...,}=>{head}`, each triple as in
    /// `decode_triple`.
    pub fn decode_rule(encoder: &Encoder, rule: &Rule) -> (res: String)
        requires
            decodable(encoder@, rule.head),
            forall|i: int| 0 <= i < rule.body@.len() ==> decodable(encoder@, #[trigger] rule.body@[i]),
        ensures
            res@ == rule_string(encoder@, rule@),
    {
        let mut out: Vec<char> = Vec::new();
        out.push('{');
        let mut i: usize = 0;
        while i < rule.body.len()
            invariant
                i <= rule.body@.len(),
                forall|k: int| 0 <= k < rule.body@.len() ==> decodable(encoder@, #[trigger] rule.body@[k]),
                out@ == seq!['{'] + body_string(encoder@, rule.body@.subrange(0, i as int)),
            decreases rule.body@.len() - i,
        {
            push_triple(&mut out, encoder, &rule.body[i]);
            out.push(',');
            proof {
                let b = rule.body@.subrange(0, i + 1);
                assert(b.drop_last() =~= rule.body@.subrange(0, i as int));
                assert(b.last() == rule.body@[i as int]);
            }
            assert(out@ =~= seq!['{'] + body_string(encoder@, rule.body@.subrange(0, i + 1)));
            i = i + 1;
        }
        assert(rule.body@.subrange(0, rule.body@.len() as int) =~= rule.body@);
        out.push('}');
        out.push('=');
        out.push('>');
        out.push('{');
        push_triple(&mut out, encoder, &rule.head);
        out.push('}');
        assert(out@ =~= rule_string(encoder@, rule@));
        string_of(&out)
    }

    /// The value of a typed literal such as `"10"^^<...#integer>` (see
    /// `literal_value`). The text before the first `^^` must hold at least
    /// two characters, the first and the last of them one-byte characters.
    pub fn remove_literal_tags(literal: &str) -> (res: String)
        requires
            match find_from(literal@, seq!['^', '^'], 0) {
                Some(i) => i >= 2 && is_ascii(literal@[0]) && is_ascii(literal@[i - 1]),
                None => true,
            },
        ensures
            res@ == literal_value(literal@),
    {
        let chars = chars_of(literal);
        let mut tag: Vec<char> = Vec::new();
        tag.push('^');
        tag.push('^');
        assert(tag@ =~= seq!['^', '^']);
        match find(&chars, &tag, 0) {
            Some(i) => {
                proof {
                    crate::text::lemma_find_from(chars@, tag@, 0);
                }
                let value = slice(&chars, 1, i - 1);
                assert(value@ =~= strip_ends(chars@.subrange(0, i as int)));
                string_of(&value)
            },
            None => string_of(&chars),
        }
    }
}

} // verus!
