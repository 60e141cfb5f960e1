//! Triple patterns over named nodes and variables, and the prefix table that
//! expands prefixed names.
use vstd::prelude::*;
use vstd::hash_map::StringHashMap;
use crate::text::{chars_of, string_of, split, split_pat, split_from, find_from, matches_at, slice, append_chars,
    strip_ends, strip_ends_exec, starts_with_char};

verus! {

/// A node of a rule pattern: a named node (an IRI, without angle brackets) or
/// a blank node, which stands for a variable (its name without `?`).
#[derive(Debug, Clone, PartialEq, Eq)]
pub enum NamedOrBlankNode {
    NamedNode(String),
    BlankNode(String),
}

/// A node seen as text.
pub enum NodeView {
    NamedNode(Seq<char>),
    BlankNode(Seq<char>),
}

impl View for NamedOrBlankNode {
    type V = NodeView;

    open spec fn view(&self) -> NodeView {
        match self {
            NamedOrBlankNode::NamedNode(s) => NodeView::NamedNode(s@),
            NamedOrBlankNode::BlankNode(s) => NodeView::BlankNode(s@),
        }
    }
}

/// The prefix table of an N3 document: prefix name to IRI.
pub struct PrefixMapper {
    prefixes: StringHashMap<String>,
}

/// The prefixed name `s` expanded with the table `m`: when `s` has a `:`
/// and the text before the first `:` is a known prefix, that prefix's IRI
/// followed by the text between the first and the second `:`; else `s`.
pub open spec fn expand_spec(m: Map<Seq<char>, Seq<char>>, s: Seq<char>) -> Seq<char> {
    let v = split_pat(s, seq![':']);
    if v.len() >= 2 && m.contains_key(v[0]) {
        m[v[0]] + v[1]
    } else {
        s
    }
}

impl View for PrefixMapper {
    type V = Map<Seq<char>, Seq<char>>;

    /// The table, prefix name to IRI.
    closed spec fn view(&self) -> Map<Seq<char>, Seq<char>> {
        Map::new(
            |k: Seq<char>| self.prefixes@.contains_key(k),
            |k: Seq<char>| self.prefixes@[k]@,
        )
    }
}

impl PrefixMapper {
    pub fn new() -> (res: PrefixMapper)
        ensures
            res@ == Map::<Seq<char>, Seq<char>>::empty(),
    {
        let res = PrefixMapper { prefixes: StringHashMap::new() };
        assert(res@ =~= Map::<Seq<char>, Seq<char>>::empty());
        res
    }

    /// Declares (or redeclares) the prefix `prefix` for `full_name`.
    pub fn add(&mut self, prefix: String, full_name: String)
        ensures
            final(self)@ == old(self)@.insert(prefix@, full_name@),
    {
        let ghost k = prefix@;
        let ghost v = full_name@;
        self.prefixes.insert(prefix, full_name);
        assert(self@ =~= old(self)@.insert(k, v));
    }

    /// Expands a prefixed name (see `expand_spec`).
    pub fn expand(&self, prefixed: String) -> (res: String)
        ensures
            res@ == expand_spec(self@, prefixed@),
    {
        let chars = chars_of(prefixed.as_str());
        let mut colon: Vec<char> = Vec::new();
        colon.push(':');
        assert(colon@ =~= seq![':']);
        let parts = split(&chars, &colon);
        if parts.len() >= 2 {
            let name = string_of(&parts[0]);
            match self.prefixes.get(name.as_str()) {
                Some(iri) => {
                    let mut out = chars_of(iri.as_str());
                    append_chars(&mut out, &parts[1]);
                    string_of(&out)
                },
                None => prefixed,
            }
        } else {
            prefixed
        }
    }
}

/// A triple pattern of a rule.
#[derive(Debug, Clone, PartialEq, Eq)]
pub struct ReasonerTriple {
    pub s: NamedOrBlankNode,
    pub p: NamedOrBlankNode,
    pub o: NamedOrBlankNode,
}

/// A triple pattern seen as text.
pub struct ReasonerTripleView {
    pub s: NodeView,
    pub p: NodeView,
    pub o: NodeView,
}

impl View for ReasonerTriple {
    type V = ReasonerTripleView;

    open spec fn view(&self) -> ReasonerTripleView {
        ReasonerTripleView { s: self.s@, p: self.p@, o: self.o@ }
    }
}

/// The node that the text `iri` stands for: `?name` is the blank node
/// `name`; anything else a named node, without its first and last character
/// when it starts with `<`.
pub open spec fn node_spec(iri: Seq<char>) -> NodeView {
    if iri.len() > 0 && iri[0] == '?' {
        NodeView::BlankNode(iri.drop_first())
    } else if iri.len() > 0 && iri[0] == '<' {
        NodeView::NamedNode(strip_ends(iri))
    } else {
        NodeView::NamedNode(iri)
    }
}

/// The text of a node in a written pattern: ` <iri> ` or ` ?name `, with ` .`
/// in place of the last space for the object.
pub open spec fn node_text(n: NodeView, last: bool) -> Seq<char> {
    let end: Seq<char> = if last { seq![' ', '.'] } else { seq![' '] };
    match n {
        NodeView::NamedNode(iri) => seq![' ', '<'] + iri + seq!['>'] + end,
        NodeView::BlankNode(name) => seq![' ', '?'] + name + end,
    }
}

/// The text of a written pattern.
pub open spec fn triple_text(t: ReasonerTripleView) -> Seq<char> {
    node_text(t.s, false) + node_text(t.p, false) + node_text(t.o, true)
}

impl ReasonerTriple {
    /// The pattern read from the texts of its three nodes (see `node_spec`).
    pub fn new(s: String, p: String, o: String) -> (res: ReasonerTriple)
        ensures
            res@ == (ReasonerTripleView { s: node_spec(s@), p: node_spec(p@), o: node_spec(o@) }),
    {
        ReasonerTriple { s: ReasonerTriple::convert(s), p: ReasonerTriple::convert(p), o: ReasonerTriple::convert(o) }
    }

    /// The pattern read from prefixed texts: each is expanded with `prefixes`
    /// and then read as in `new`.
    pub fn new_from_prefixes(s: String, p: String, o: String, prefixes: &PrefixMapper) -> (res: ReasonerTriple)
        ensures
            res@ == (ReasonerTripleView {
                s: node_spec(expand_spec(prefixes@, s@)),
                p: node_spec(expand_spec(prefixes@, p@)),
                o: node_spec(expand_spec(prefixes@, o@)),
            }),
    {
        let expand_s = prefixes.expand(s);
        let expand_p = prefixes.expand(p);
        let expand_o = prefixes.expand(o);
        ReasonerTriple {
            s: ReasonerTriple::convert(expand_s),
            p: ReasonerTriple::convert(expand_p),
            o: ReasonerTriple::convert(expand_o),
        }
    }

    fn convert(iri: String) -> (res: NamedOrBlankNode)
        ensures
            res@ == node_spec(iri@),
    {
        let chars = chars_of(iri.as_str());
        if starts_with_char(&chars, '?') {
            let name = slice(&chars, 1, chars.len());
            assert(name@ =~= iri@.drop_first());
            NamedOrBlankNode::BlankNode(string_of(&name))
        } else if starts_with_char(&chars, '<') {
            NamedOrBlankNode::NamedNode(string_of(&strip_ends_exec(&chars)))
        } else {
            NamedOrBlankNode::NamedNode(iri)
        }
    }

    /// The pattern written out: ` <s> <p> <o> .`, a variable as `?name`.
    pub fn to_string(&self) -> (res: String)
        ensures
            res@ == triple_text(self@),
    {
        let mut out: Vec<char> = Vec::new();
        write_node(&mut out, &self.s, false);
        write_node(&mut out, &self.p, false);
        write_node(&mut out, &self.o, true);
        assert(out@ =~= triple_text(self@));
        string_of(&out)
    }
}

/// Appends the text of a node (see `node_text`).
fn write_node(out: &mut Vec<char>, n: &NamedOrBlankNode, last: bool)
    ensures
        final(out)@ == old(out)@ + node_text(n@, last),
{
    out.push(' ');
    match n {
        NamedOrBlankNode::NamedNode(iri) => {
            out.push('<');
            append_chars(out, &chars_of(iri.as_str()));
            out.push('>');
        },
        NamedOrBlankNode::BlankNode(name) => {
            out.push('?');
            append_chars(out, &chars_of(name.as_str()));
        },
    }
    out.push(' ');
    if last {
        out.push('.');
    }
    assert(out@ =~= old(out)@ + node_text(n@, last));
}

/// The first `:` of `s` at or after `i` is at `j`, when none lies in
/// between.
proof fn lemma_find_colon(s: Seq<char>, i: int, j: int)
    requires
        0 <= i <= j < s.len(),
        s[j] == ':',
        forall|k: int| i <= k < j ==> s[k] != ':',
    ensures
        find_from(s, seq![':'], i) == Some(j),
    decreases j - i,
{
    if i < j {
        assert(!matches_at(s, seq![':'], i)) by {
            if matches_at(s, seq![':'], i) {
                assert(s.subrange(i, i + 1)[0] == s[i]);
            }
        }
        lemma_find_colon(s, i + 1, j);
    } else {
        assert(s.subrange(i, i + 1) =~= seq![':']);
    }
}

/// No `:` of `s` lies at or after `i`.
proof fn lemma_no_colon(s: Seq<char>, i: int)
    requires
        0 <= i,
        forall|k: int| i <= k < s.len() ==> s[k] != ':',
    ensures
        find_from(s, seq![':'], i) is None,
    decreases s.len() + 1 - i,
{
    if i + 1 <= s.len() {
        assert(!matches_at(s, seq![':'], i)) by {
            if matches_at(s, seq![':'], i) {
                assert(s.subrange(i, i + 1)[0] == s[i]);
            }
        }
        lemma_no_colon(s, i + 1);
    }
}

/// After the prefix `prefix` is declared for `iri`, the name `prefix:local`
/// (neither part holding a `:`) expands to `iri` followed by `local`.
pub proof fn law_expand_after_add(m: Map<Seq<char>, Seq<char>>, prefix: Seq<char>, iri: Seq<char>, local: Seq<char>)
    requires
        !prefix.contains(':'),
        !local.contains(':'),
    ensures
        expand_spec(m.insert(prefix, iri), prefix + seq![':'] + local) == iri + local,
{
    let s = prefix + seq![':'] + local;
    let n = prefix.len() as int;
    assert(s[n] == ':');
    assert forall|k: int| 0 <= k < n implies s[k] != ':' by {
        assert(s[k] == prefix[k]);
    }
    lemma_find_colon(s, 0, n);
    assert forall|k: int| n + 1 <= k < s.len() implies s[k] != ':' by {
        assert(s[k] == local[k - n - 1]);
    }
    lemma_no_colon(s, n + 1);
    assert(s.subrange(0, n) =~= prefix);
    assert(s.subrange(n + 1, s.len() as int) =~= local);
    let pat = seq![':'];
    assert(split_from(s, pat, n + 1) == seq![local]);
    assert(split_pat(s, pat) =~= seq![prefix, local]);
}

} // verus!
