//! Rules over named nodes and variables.
use vstd::prelude::*;
use crate::reasoningstore::triple::{ReasonerTriple, ReasonerTripleView, triple_text};
use crate::text::{chars_of, string_of, append_chars};

verus! {

/// A rule: when every pattern of `body` matches, `head` holds.
#[derive(Debug, Clone)]
pub struct Rule {
    pub body: Vec<ReasonerTriple>,
    pub head: ReasonerTriple,
}

/// A rule seen as text.
pub struct RuleView {
    pub body: Seq<ReasonerTripleView>,
    pub head: ReasonerTripleView,
}

impl View for Rule {
    type V = RuleView;

    open spec fn view(&self) -> RuleView {
        RuleView { body: self.body@.map_values(|t: ReasonerTriple| t@), head: self.head@ }
    }
}

/// The written patterns of `body`, one after the other.
pub open spec fn body_text(body: Seq<ReasonerTripleView>) -> Seq<char>
    decreases body.len(),
{
    if body.len() == 0 {
        seq![]
    } else {
        body_text(body.drop_last()) + triple_text(body.last())
    }
}

/// The text of a written rule.
pub open spec fn rule_text(r: RuleView) -> Seq<char> {
    seq!['{'] + body_text(r.body) + seq!['}', '=', '>', '{'] + triple_text(r.head) + seq!['}', '.']
}

/// The text of the SPARQL query that a rule stands for:
/// `CONSTRUCT { head } WHERE { body }`.
pub open spec fn construct_text(r: RuleView) -> Seq<char> {
    "CONSTRUCT { "@ + triple_text(r.head) + " } WHERE { "@ + body_text(r.body) + " }"@
}

impl Rule {
    /// The SPARQL query text of the rule (see `construct_text`): its head
    /// as the template, its body as the pattern.
    pub fn construct_query_text(&self) -> (res: String)
        ensures
            res@ == construct_text(self@),
    {
        let mut body: Vec<char> = Vec::new();
        let mut i: usize = 0;
        while i < self.body.len()
            invariant
                i <= self.body@.len(),
                body@ == body_text(self@.body.subrange(0, i as int)),
            decreases self.body@.len() - i,
        {
            let t = chars_of(self.body[i].to_string().as_str());
            append_chars(&mut body, &t);
            proof {
                let b = self@.body;
                assert(b.subrange(0, i + 1).drop_last() =~= b.subrange(0, i as int));
                assert(b.subrange(0, i + 1).last() == self.body@[i as int]@);
            }
            i = i + 1;
        }
        assert(self@.body.subrange(0, self.body@.len() as int) =~= self@.body);
        let mut out = chars_of("CONSTRUCT { ");
        append_chars(&mut out, &chars_of(self.head.to_string().as_str()));
        append_chars(&mut out, &chars_of(" } WHERE { "));
        append_chars(&mut out, &body);
        append_chars(&mut out, &chars_of(" }"));
        assert(out@ =~= construct_text(self@));
        string_of(&out)
    }

    /// The rule written out: `{body}=>{head}.`.
    pub fn to_string(&self) -> (res: String)
        ensures
            res@ == rule_text(self@),
    {
        let mut out: Vec<char> = Vec::new();
        out.push('{');
        let mut i: usize = 0;
        while i < self.body.len()
            invariant
                i <= self.body@.len(),
                out@ == seq!['{'] + body_text(self@.body.subrange(0, i as int)),
            decreases self.body@.len() - i,
        {
            let t = chars_of(self.body[i].to_string().as_str());
            append_chars(&mut out, &t);
            proof {
                let b = self@.body;
                assert(b.subrange(0, i + 1).drop_last() =~= b.subrange(0, i as int));
                assert(b.subrange(0, i + 1).last() == self.body@[i as int]@);
            }
            i = i + 1;
        }
        assert(self@.body.subrange(0, self.body@.len() as int) =~= self@.body);
        out.push('}');
        out.push('=');
        out.push('>');
        out.push('{');
        let h = chars_of(self.head.to_string().as_str());
        append_chars(&mut out, &h);
        out.push('}');
        out.push('.');
        assert(out@ =~= rule_text(self@));
        string_of(&out)
    }
}

} // verus!
