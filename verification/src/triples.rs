//! Encoded RDF terms, triple patterns and rules.
use vstd::prelude::*;
use crate::encoding::{Encoder, add_spec, code_spec};
use crate::text::{chars_of, string_of};

verus! {

/// A variable of a triple pattern, by the code of its name.
#[derive(Debug, Clone, Copy, PartialEq, Eq, Hash, Structural)]
pub struct Variable {
    pub name: usize,
}

/// A term (IRI or literal) of a triple, by its code.
#[derive(Debug, Clone, Copy, PartialEq, Eq, Hash, Structural)]
pub struct TermImpl {
    pub iri: usize,
}

/// An element of a triple pattern: a variable or a term.
#[derive(Debug, Clone, Copy, PartialEq, Eq, Hash, Structural)]
pub enum VarOrTerm {
    Var(Variable),
    Term(TermImpl),
}

/// A triple (or triple pattern) with an optional graph name.
#[derive(Debug, Clone, Copy, Eq, Hash)]
pub struct Triple {
    pub s: VarOrTerm,
    pub p: VarOrTerm,
    pub o: VarOrTerm,
    pub g: Option<VarOrTerm>,
}

/// Two triples are equal when their elements and graph names are.
impl PartialEq for Triple {
    fn eq(&self, other: &Self) -> (res: bool) {
        let same_graph = match (&self.g, &other.g) {
            (Some(a), Some(b)) => *a == *b,
            (None, None) => true,
            _ => false,
        };
        self.s == other.s && self.p == other.p && self.o == other.o && same_graph
    }
}

impl vstd::std_specs::cmp::PartialEqSpecImpl for Triple {
    open spec fn obeys_eq_spec() -> bool {
        true
    }

    open spec fn eq_spec(&self, other: &Self) -> bool {
        self.s == other.s && self.p == other.p && self.o == other.o && self.g == other.g
    }
}

/// A rule: when every triple pattern of `body` matches, `head` holds.
#[derive(Debug)]
pub struct Rule {
    pub body: Vec<Triple>,
    pub head: Triple,
}

/// A rule seen as the sequence of its body patterns and its head.
pub struct RuleView {
    pub body: Seq<Triple>,
    pub head: Triple,
}

impl View for Rule {
    type V = RuleView;

    open spec fn view(&self) -> RuleView {
        RuleView { body: self.body@, head: self.head }
    }
}

impl Clone for Rule {
    fn clone(&self) -> (res: Self)
        ensures
            res@ == self@,
    {
        let mut body: Vec<Triple> = Vec::new();
        let mut i: usize = 0;
        while i < self.body.len()
            invariant
                i <= self.body@.len(),
                body@ == self.body@.subrange(0, i as int),
            decreases self.body@.len() - i,
        {
            body.push(self.body[i]);
            assert(self.body@.subrange(0, i + 1) == self.body@.subrange(0, i as int).push(self.body@[i as int]));
            i = i + 1;
        }
        assert(self.body@.subrange(0, self.body@.len() as int) == self.body@);
        Rule { body, head: self.head }
    }
}

/// The code that a variable or term stands for.
pub open spec fn code_of(v: VarOrTerm) -> usize {
    match v {
        VarOrTerm::Var(var) => var.name,
        VarOrTerm::Term(t) => t.iri,
    }
}

/// The element that encoding `text` as a variable (`is_var`) or as a term
/// against the dictionary `strings` gives.
pub open spec fn encode_spec(strings: Seq<Seq<char>>, is_var: bool, text: Seq<char>) -> VarOrTerm {
    let c = code_spec(strings, text) as usize;
    if is_var {
        VarOrTerm::Var(Variable { name: c })
    } else {
        VarOrTerm::Term(TermImpl { iri: c })
    }
}

/// How the text of a pattern element is read: `?name` is the variable
/// `name`; anything else is a term, wrapped in `<` and `>` unless it starts
/// with `<`.
pub open spec fn convert_text(s: Seq<char>) -> (bool, Seq<char>) {
    if s.len() > 0 && s[0] == '?' {
        (true, s.drop_first())
    } else if s.len() > 0 && s[0] == '<' {
        (false, s)
    } else {
        (false, seq!['<'] + s + seq!['>'])
    }
}

/// The element that `VarOrTerm::convert` makes of `s`.
pub open spec fn convert_spec(strings: Seq<Seq<char>>, s: Seq<char>) -> VarOrTerm {
    encode_spec(strings, convert_text(s).0, convert_text(s).1)
}

/// The dictionary after `VarOrTerm::convert` has read `s`.
pub open spec fn convert_strings(strings: Seq<Seq<char>>, s: Seq<char>) -> Seq<Seq<char>> {
    add_spec(strings, convert_text(s).1)
}

/// The dictionary after the elements `texts` have been converted in order.
pub open spec fn convert_all_strings(strings: Seq<Seq<char>>, texts: Seq<Seq<char>>) -> Seq<Seq<char>>
    decreases texts.len(),
{
    if texts.len() == 0 {
        strings
    } else {
        convert_all_strings(convert_strings(strings, texts[0]), texts.drop_first())
    }
}

/// The triple that `Triple::from(s, p, o)` makes.
pub open spec fn triple_from_spec(
    strings: Seq<Seq<char>>,
    s: Seq<char>,
    p: Seq<char>,
    o: Seq<char>,
) -> Triple {
    let st1 = convert_strings(strings, s);
    let st2 = convert_strings(st1, p);
    Triple {
        s: convert_spec(strings, s),
        p: convert_spec(st1, p),
        o: convert_spec(st2, o),
        g: None,
    }
}

/// Every code that `t` holds is below `n`.
pub open spec fn triple_codes_below(t: Triple, n: int) -> bool {
    &&& code_of(t.s) < n
    &&& code_of(t.p) < n
    &&& code_of(t.o) < n
    &&& match t.g {
        Some(g) => code_of(g) < n,
        None => true,
    }
}

impl VarOrTerm {
    /// The term with the code of `iri`.
    pub fn new_term(iri: String, encoder: &mut Encoder) -> (res: VarOrTerm)
        ensures
            res == encode_spec(old(encoder)@, false, iri@),
            final(encoder)@ == add_spec(old(encoder)@, iri@),
            final(encoder)@.no_duplicates(),
            code_of(res) < final(encoder)@.len(),
            final(encoder)@[code_of(res) as int] == iri@,
    {
        let encoded = encoder.add(iri);

        VarOrTerm::Term(TermImpl { iri: encoded })
    }

    /// The variable with the code of `name`.
    pub fn new_var(name: String, encoder: &mut Encoder) -> (res: VarOrTerm)
        ensures
            res == encode_spec(old(encoder)@, true, name@),
            final(encoder)@ == add_spec(old(encoder)@, name@),
            final(encoder)@.no_duplicates(),
            code_of(res) < final(encoder)@.len(),
            final(encoder)@[code_of(res) as int] == name@,
    {
        let encoded = encoder.add(name);

        VarOrTerm::Var(Variable { name: encoded })
    }

    /// The term with the code of `iri` (the name the minimal engine uses).
    #[allow(non_snake_case)]
    pub fn newTerm(iri: String, encoder: &mut Encoder) -> (res: VarOrTerm)
        ensures
            res == encode_spec(old(encoder)@, false, iri@),
            final(encoder)@ == add_spec(old(encoder)@, iri@),
    {
        VarOrTerm::new_term(iri, encoder)
    }

    /// The variable with the code of `name` (the name the minimal engine uses).
    #[allow(non_snake_case)]
    pub fn newVar(name: String, encoder: &mut Encoder) -> (res: VarOrTerm)
        ensures
            res == encode_spec(old(encoder)@, true, name@),
            final(encoder)@ == add_spec(old(encoder)@, name@),
    {
        VarOrTerm::new_var(name, encoder)
    }

    /// The term with the code `iri`.
    pub fn new_encoded_term(iri: usize) -> (res: VarOrTerm)
        ensures
            res == VarOrTerm::Term(TermImpl { iri }),
    {
        VarOrTerm::Term(TermImpl { iri })
    }

    /// The variable with the code `name`.
    pub fn new_encoded_var(name: usize) -> (res: VarOrTerm)
        ensures
            res == VarOrTerm::Var(Variable { name }),
    {
        VarOrTerm::Var(Variable { name })
    }

    /// The term that this element is.
    pub fn as_term(&self) -> (res: &TermImpl)
        requires
            self is Term,
        ensures
            *self == VarOrTerm::Term(*res),
    {
        match self {
            VarOrTerm::Term(t) => t,
            VarOrTerm::Var(_) => {
                vstd::pervasive::unreached()
            },
        }
    }

    /// The variable that this element is.
    pub fn as_var(&self) -> (res: &Variable)
        requires
            self is Var,
        ensures
            *self == VarOrTerm::Var(*res),
    {
        match self {
            VarOrTerm::Var(v) => v,
            VarOrTerm::Term(_) => {
                vstd::pervasive::unreached()
            },
        }
    }

    pub fn is_var(&self) -> (res: bool)
        ensures
            res == (*self is Var),
    {
        match self {
            VarOrTerm::Var(_) => true,
            VarOrTerm::Term(_) => false,
        }
    }

    pub fn is_term(&self) -> (res: bool)
        ensures
            res == (*self is Term),
    {
        !self.is_var()
    }

    /// The code that this element stands for.
    pub fn to_encoded(&self) -> (res: usize)
        ensures
            res == code_of(*self),
    {
        match self {
            VarOrTerm::Var(var) => var.name,
            VarOrTerm::Term(term) => term.iri,
        }
    }

    /// Reads the text of a pattern element: `?name` is the variable `name`,
    /// anything else a term, wrapped in `<` and `>` unless it starts with `<`.
    pub fn convert(var_or_term: String, encoder: &mut Encoder) -> (res: VarOrTerm)
        ensures
            res == convert_spec(old(encoder)@, var_or_term@),
            final(encoder)@ == convert_strings(old(encoder)@, var_or_term@),
    {
        let chars = chars_of(var_or_term.as_str());
        if chars.len() > 0 && chars[0] == '?' {
            let name = crate::text::string_of_range(&chars, 1, chars.len());
            assert(chars@.subrange(1, chars@.len() as int) =~= var_or_term@.drop_first());
            VarOrTerm::new_var(name, encoder)
        } else if chars.len() > 0 && chars[0] == '<' {
            VarOrTerm::new_term(var_or_term, encoder)
        } else {
            let mut wrapped: Vec<char> = Vec::new();
            wrapped.push('<');
            let mut i: usize = 0;
            while i < chars.len()
                invariant
                    i <= chars@.len(),
                    wrapped@ == seq!['<'] + chars@.subrange(0, i as int),
                decreases chars@.len() - i,
            {
                wrapped.push(chars[i]);
                assert(chars@.subrange(0, i + 1) == chars@.subrange(0, i as int).push(chars@[i as int]));
                i = i + 1;
            }
            wrapped.push('>');
            assert(chars@.subrange(0, chars@.len() as int) == chars@);
            assert(wrapped@ =~= seq!['<'] + var_or_term@ + seq!['>']);
            let iri = string_of(&wrapped);
            VarOrTerm::new_term(iri, encoder)
        }
    }
}

impl Triple {
    /// The triple pattern read from the texts of its three elements (see
    /// `VarOrTerm::convert`), without a graph name.
    pub fn from(subject: String, property: String, object: String, encoder: &mut Encoder) -> (res: Triple)
        ensures
            res == triple_from_spec(old(encoder)@, subject@, property@, object@),
            final(encoder)@ == convert_all_strings(old(encoder)@, seq![subject@, property@, object@]),
    {
        let ghost st0 = encoder@;
        let s = VarOrTerm::convert(subject, encoder);
        let p = VarOrTerm::convert(property, encoder);
        let o = VarOrTerm::convert(object, encoder);
        proof {
            reveal_with_fuel(convert_all_strings, 4);
            assert(seq![subject@, property@, object@].drop_first() =~= seq![property@, object@]);
            assert(seq![property@, object@].drop_first() =~= seq![object@]);
            assert(seq![object@].drop_first() =~= Seq::<Seq<char>>::empty());
        }
        Triple { s, p, o, g: None }
    }

    /// Like `from`, with the graph name read from `graph_name` after the
    /// three elements.
    pub fn from_with_graph_name(
        subject: String,
        property: String,
        object: String,
        graph_name: String,
        encoder: &mut Encoder,
    ) -> (res: Triple)
        ensures
            ({
                let t = triple_from_spec(old(encoder)@, subject@, property@, object@);
                let st = convert_all_strings(old(encoder)@, seq![subject@, property@, object@]);
                res == Triple { g: Some(convert_spec(st, graph_name@)), ..t }
            }),
            final(encoder)@ == convert_all_strings(
                old(encoder)@,
                seq![subject@, property@, object@, graph_name@],
            ),
    {
        let ghost st0 = encoder@;
        let mut triple = Self::from(subject, property, object, encoder);
        let ghost st3 = encoder@;
        triple.g = Some(VarOrTerm::convert(graph_name, encoder));
        proof {
            reveal_with_fuel(convert_all_strings, 5);
            let s4 = seq![subject@, property@, object@, graph_name@];
            assert(s4.drop_first() =~= seq![property@, object@, graph_name@]);
            assert(s4.drop_first().drop_first() =~= seq![object@, graph_name@]);
            assert(s4.drop_first().drop_first().drop_first() =~= seq![graph_name@]);
            assert(seq![graph_name@].drop_first() =~= Seq::<Seq<char>>::empty());
            assert(seq![subject@, property@, object@].drop_first() =~= seq![property@, object@]);
            assert(seq![property@, object@].drop_first() =~= seq![object@]);
            assert(seq![object@].drop_first() =~= Seq::<Seq<char>>::empty());
        }
        triple
    }
}

} // verus!
