//! A reader for rules written in N3: `@prefix` declarations and rules
//! `{ body patterns } => { head pattern }`.
//!
//! The text is first cut into tokens: `{`, `}`, `=>`, `.`, IRIs `<...>`, and
//! words (any other run of characters up to white space or one of
//! `{ } . < =`). A pattern is three terms (IRIs or words), optionally followed
//! by `.`. A word `a` in predicate position stands for `rdf:type`. Prefixed
//! names are expanded with the prefixes declared before the rule.
use vstd::prelude::*;
use crate::reasoningstore::rule::{Rule as ReasonerRule, RuleView as ReasonerRuleView};
use crate::reasoningstore::triple::{
    PrefixMapper, ReasonerTriple, ReasonerTripleView, expand_spec, node_spec,
};
use crate::text::{
    chars_of, string_of, slice, find, eq_chars, find_from, lemma_find_from, is_white, is_white_exec,
    strip_ends, strip_ends_exec,
};

verus! {

/// A token of the N3 text.
#[derive(Debug, Clone)]
pub enum Token {
    Open,
    Close,
    Arrow,
    Dot,
    Iri(Vec<char>),
    Word(Vec<char>),
}

/// A token seen as text.
pub enum TokenView {
    Open,
    Close,
    Arrow,
    Dot,
    Iri(Seq<char>),
    Word(Seq<char>),
}

impl View for Token {
    type V = TokenView;

    open spec fn view(&self) -> TokenView {
        match self {
            Token::Open => TokenView::Open,
            Token::Close => TokenView::Close,
            Token::Arrow => TokenView::Arrow,
            Token::Dot => TokenView::Dot,
            Token::Iri(v) => TokenView::Iri(v@),
            Token::Word(v) => TokenView::Word(v@),
        }
    }
}

pub open spec fn token_views(ts: Seq<Token>) -> Seq<TokenView> {
    ts.map_values(|t: Token| t@)
}

/// A character that ends a word.
pub open spec fn is_stop(c: char) -> bool {
    is_white(c) || c == '{' || c == '}' || c == '.' || c == '<' || c == '='
}

/// The end of the word that starts at `i`.
pub open spec fn word_end(s: Seq<char>, i: int) -> int
    decreases s.len() - i,
{
    if 0 <= i < s.len() && !is_stop(s[i]) {
        word_end(s, i + 1)
    } else {
        i
    }
}

/// `t` in front of the tokens `rest`, if there are any.
pub open spec fn cons_tok(t: TokenView, rest: Option<Seq<TokenView>>) -> Option<Seq<TokenView>> {
    match rest {
        Some(r) => Some(seq![t] + r),
        None => None,
    }
}

/// The tokens of `s[i..]`; `None` when a `<` is never closed or a `=` is not
/// followed by `>`.
pub open spec fn tokens_from(s: Seq<char>, i: int) -> Option<Seq<TokenView>>
    decreases s.len() - i,
{
    if i < 0 || i >= s.len() {
        Some(seq![])
    } else {
        let c = s[i];
        if is_white(c) {
            tokens_from(s, i + 1)
        } else if c == '{' {
            cons_tok(TokenView::Open, tokens_from(s, i + 1))
        } else if c == '}' {
            cons_tok(TokenView::Close, tokens_from(s, i + 1))
        } else if c == '.' {
            cons_tok(TokenView::Dot, tokens_from(s, i + 1))
        } else if c == '=' {
            if i + 1 < s.len() && s[i + 1] == '>' {
                cons_tok(TokenView::Arrow, tokens_from(s, i + 2))
            } else {
                None
            }
        } else if c == '<' {
            match find_from(s, seq!['>'], i + 1) {
                Some(j) => if i < j < s.len() {
                    cons_tok(TokenView::Iri(s.subrange(i, j + 1)), tokens_from(s, j + 1))
                } else {
                    None
                },
                None => None,
            }
        } else {
            let j = word_end(s, i);
            if i < j <= s.len() {
                cons_tok(TokenView::Word(s.subrange(i, j)), tokens_from(s, j))
            } else {
                None
            }
        }
    }
}

/// A token that can be a term of a pattern.
pub open spec fn is_term(t: TokenView) -> bool {
    t is Iri || t is Word
}

/// The text of a term token.
pub open spec fn term_text(t: TokenView) -> Seq<char> {
    match t {
        TokenView::Iri(s) => s,
        TokenView::Word(s) => s,
        _ => seq![],
    }
}

/// The text of a term token in predicate position: the word `a` is
/// `rdf:type`.
pub open spec fn predicate_text(t: TokenView) -> Seq<char> {
    if t == TokenView::Word(seq!['a']) {
        "<http://www.w3.org/1999/02/22-rdf-syntax-ns#type>"@
    } else {
        term_text(t)
    }
}

/// The patterns (subject, predicate, object text) that start at token `k`,
/// and the position of the first token after them.
pub open spec fn patterns_from(ts: Seq<TokenView>, k: int) -> (Seq<(Seq<char>, Seq<char>, Seq<char>)>, int)
    decreases ts.len() - k,
{
    if 0 <= k && k + 2 < ts.len() && is_term(ts[k]) && is_term(ts[k + 1]) && is_term(ts[k + 2]) {
        let next = if k + 3 < ts.len() && ts[k + 3] is Dot {
            k + 4
        } else {
            k + 3
        };
        let rest = patterns_from(ts, next);
        (seq![(term_text(ts[k]), predicate_text(ts[k + 1]), term_text(ts[k + 2]))] + rest.0, rest.1)
    } else {
        (seq![], k)
    }
}

/// The pattern that a text triple stands for under the prefixes `pm`.
pub open spec fn pattern_spec(pm: Map<Seq<char>, Seq<char>>, t: (Seq<char>, Seq<char>, Seq<char>)) -> ReasonerTripleView {
    ReasonerTripleView {
        s: node_spec(expand_spec(pm, t.0)),
        p: node_spec(expand_spec(pm, t.1)),
        o: node_spec(expand_spec(pm, t.2)),
    }
}

/// The patterns that text triples stand for under the prefixes `pm`.
pub open spec fn patterns_spec(pm: Map<Seq<char>, Seq<char>>, ts: Seq<(Seq<char>, Seq<char>, Seq<char>)>) -> Seq<ReasonerTripleView> {
    ts.map_values(|t: (Seq<char>, Seq<char>, Seq<char>)| pattern_spec(pm, t))
}

pub open spec fn triple_views(ts: Seq<ReasonerTriple>) -> Seq<ReasonerTripleView> {
    ts.map_values(|t: ReasonerTriple| t@)
}

/// The position after an optional `.` at `k`.
pub open spec fn skip_dot(ts: Seq<TokenView>, k: int) -> int {
    if 0 <= k < ts.len() && ts[k] is Dot {
        k + 1
    } else {
        k
    }
}

/// The rules of the statements that start at token `k`, under the prefixes
/// `pm` declared before; `None` when a statement is malformed.
pub open spec fn doc_from(ts: Seq<TokenView>, k: int, pm: Map<Seq<char>, Seq<char>>) -> Option<Seq<ReasonerRuleView>>
    decreases ts.len() - k,
{
    if k < 0 || k >= ts.len() {
        Some(seq![])
    } else {
        match ts[k] {
            TokenView::Word(w) => {
                if w == "@prefix"@ && k + 2 < ts.len() && ts[k + 1] is Word && ts[k + 2] is Iri {
                    let n = term_text(ts[k + 1]);
                    if n.len() > 0 && n.last() == ':' {
                        doc_from(
                            ts,
                            skip_dot(ts, k + 3),
                            pm.insert(n.drop_last(), strip_ends(term_text(ts[k + 2]))),
                        )
                    } else {
                        None
                    }
                } else {
                    None
                }
            },
            TokenView::Open => {
                let body = patterns_from(ts, k + 1);
                let kb = body.1;
                if k < kb && kb + 2 < ts.len() && ts[kb] is Close && ts[kb + 1] is Arrow
                    && ts[kb + 2] is Open {
                    let head = patterns_from(ts, kb + 3);
                    let kh = head.1;
                    if head.0.len() >= 1 && kb < kh < ts.len() && ts[kh] is Close {
                        let rule = ReasonerRuleView {
                            body: patterns_spec(pm, body.0),
                            head: pattern_spec(pm, head.0[0]),
                        };
                        match doc_from(ts, skip_dot(ts, kh + 1), pm) {
                            Some(rest) => Some(seq![rule] + rest),
                            None => None,
                        }
                    } else {
                        None
                    }
                } else {
                    None
                }
            },
            _ => None,
        }
    }
}

/// The rules that an N3 text holds, or `None` when it is malformed.
pub open spec fn n3_spec(s: Seq<char>) -> Option<Seq<ReasonerRuleView>> {
    match tokens_from(s, 0) {
        Some(ts) => doc_from(ts, 0, Map::empty()),
        None => None,
    }
}

/// `t` in front of `rest`, when `rest` is there.
pub open spec fn prepend_opt(acc: Seq<TokenView>, rest: Option<Seq<TokenView>>) -> Option<Seq<TokenView>> {
    match rest {
        Some(r) => Some(acc + r),
        None => None,
    }
}

/// The N3 rule reader.
pub struct CSVParser;

impl CSVParser {
    fn is_stop_exec(c: char) -> (res: bool)
        ensures
            res == is_stop(c),
    {
        is_white_exec(c) || c == '{' || c == '}' || c == '.' || c == '<' || c == '='
    }

    /// The tokens of `s` (see `tokens_from`).
    pub fn tokenize(s: &Vec<char>) -> (res: Option<Vec<Token>>)
        ensures
            match res {
                Some(ts) => tokens_from(s@, 0) == Some(token_views(ts@)),
                None => tokens_from(s@, 0) is None,
            },
    {
        let mut acc: Vec<Token> = Vec::new();
        let mut i: usize = 0;
        let slen = s.len();
        let mut gt: Vec<char> = Vec::new();
        gt.push('>');
        assert(gt@ =~= seq!['>']);
        assert(token_views(acc@) =~= Seq::<TokenView>::empty());
        assert(prepend_opt(token_views(acc@), tokens_from(s@, 0)) =~= tokens_from(s@, 0));
        while i < slen
            invariant
                slen == s@.len(),
                i <= slen,
                gt@ == seq!['>'],
                tokens_from(s@, 0) == prepend_opt(token_views(acc@), tokens_from(s@, i as int)),
            decreases slen - i,
        {
            let ghost old_acc = token_views(acc@);
            let c = s[i];
            if is_white_exec(c) {
                i = i + 1;
            } else if c == '{' || c == '}' || c == '.' {
                let t = if c == '{' {
                    Token::Open
                } else if c == '}' {
                    Token::Close
                } else {
                    Token::Dot
                };
                acc.push(t);
                proof {
                    assert(token_views(acc@) =~= old_acc.push(t@));
                    assert(old_acc + (seq![t@] + tokens_from(s@, i + 1).unwrap()) =~= token_views(acc@)
                        + tokens_from(s@, i + 1).unwrap());
                }
                i = i + 1;
            } else if c == '=' {
                if i + 1 < slen && s[i + 1] == '>' {
                    acc.push(Token::Arrow);
                    proof {
                        assert(token_views(acc@) =~= old_acc.push(TokenView::Arrow));
                        if tokens_from(s@, i + 2) is Some {
                            assert(old_acc + (seq![TokenView::Arrow] + tokens_from(s@, i + 2).unwrap()) =~= token_views(acc@)
                                + tokens_from(s@, i + 2).unwrap());
                        }
                    }
                    i = i + 2;
                } else {
                    return None;
                }
            } else if c == '<' {
                proof {
                    lemma_find_from(s@, seq!['>'], i + 1);
                }
                match find(s, &gt, i + 1) {
                    Some(j) => {
                        let iri = slice(s, i, j + 1);
                        let ghost t = TokenView::Iri(iri@);
                        acc.push(Token::Iri(iri));
                        proof {
                            assert(token_views(acc@) =~= old_acc.push(t));
                            if tokens_from(s@, j + 1) is Some {
                                assert(old_acc + (seq![t] + tokens_from(s@, j + 1).unwrap()) =~= token_views(acc@)
                                    + tokens_from(s@, j + 1).unwrap());
                            }
                        }
                        i = j + 1;
                    },
                    None => {
                        return None;
                    },
                }
            } else {
                let mut j = i;
                while j < slen && !Self::is_stop_exec(s[j])
                    invariant
                        slen == s@.len(),
                        i <= j <= slen,
                        word_end(s@, i as int) == word_end(s@, j as int),
                    decreases slen - j,
                {
                    j = j + 1;
                }
                proof {
                    assert(word_end(s@, i as int) == word_end(s@, (i + 1) as int));
                }
                let w = slice(s, i, j);
                let ghost t = TokenView::Word(w@);
                acc.push(Token::Word(w));
                proof {
                    assert(j > i);
                    assert(token_views(acc@) =~= old_acc.push(t));
                    if tokens_from(s@, j as int) is Some {
                        assert(old_acc + (seq![t] + tokens_from(s@, j as int).unwrap()) =~= token_views(acc@)
                            + tokens_from(s@, j as int).unwrap());
                    }
                }
                i = j;
            }
        }
        assert(token_views(acc@) + Seq::<TokenView>::empty() =~= token_views(acc@));
        Some(acc)
    }

    fn term_text_exec(t: &Token) -> (res: Vec<char>)
        requires
            is_term(t@),
        ensures
            res@ == term_text(t@),
    {
        match t {
            Token::Iri(v) => slice(v, 0, v.len()),
            Token::Word(v) => slice(v, 0, v.len()),
            _ => Vec::new(),
        }
    }

    fn predicate_text_exec(t: &Token) -> (res: Vec<char>)
        requires
            is_term(t@),
        ensures
            res@ == predicate_text(t@),
    {
        match t {
            Token::Word(v) => {
                if v.len() == 1 && v[0] == 'a' {
                    assert(v@ =~= seq!['a']);
                    return chars_of("<http://www.w3.org/1999/02/22-rdf-syntax-ns#type>");
                }
                proof {
                    if t@ == TokenView::Word(seq!['a']) {
                        assert(v@.len() == 1 && v@[0] == 'a');
                    }
                }
                slice(v, 0, v.len())
            },
            _ => Self::term_text_exec(t),
        }
    }

    /// The patterns that start at token `k` (see `patterns_from`).
    fn patterns(ts: &Vec<Token>, k: usize) -> (res: (Vec<(Vec<char>, Vec<char>, Vec<char>)>, usize))
        ensures
            ({
                let p = patterns_from(token_views(ts@), k as int);
                &&& res.0@.map_values(|t: (Vec<char>, Vec<char>, Vec<char>)| (t.0@, t.1@, t.2@)) == p.0
                &&& res.1 == p.1
            }),
    {
        let ghost tv = token_views(ts@);
        let mut acc: Vec<(Vec<char>, Vec<char>, Vec<char>)> = Vec::new();
        let mut j = k;
        let tlen = ts.len();
        proof {
            assert(acc@.map_values(|t: (Vec<char>, Vec<char>, Vec<char>)| (t.0@, t.1@, t.2@)) + patterns_from(tv, k as int).0
                =~= patterns_from(tv, k as int).0);
        }
        loop
            invariant
                tlen == ts@.len(),
                tv == token_views(ts@),
                k <= j,
                patterns_from(tv, k as int).0 == acc@.map_values(
                    |t: (Vec<char>, Vec<char>, Vec<char>)| (t.0@, t.1@, t.2@),
                ) + patterns_from(tv, j as int).0,
                patterns_from(tv, k as int).1 == patterns_from(tv, j as int).1,
            decreases tlen - j,
        {
            if j < tlen && tlen - j > 2 && Self::is_term_exec(&ts[j]) && Self::is_term_exec(&ts[j + 1])
                && Self::is_term_exec(&ts[j + 2]) {
                let ghost old_acc = acc@.map_values(|t: (Vec<char>, Vec<char>, Vec<char>)| (t.0@, t.1@, t.2@));
                assert(tv[j as int] == ts@[j as int]@);
                assert(tv[j + 1] == ts@[j + 1]@);
                assert(tv[j + 2] == ts@[j + 2]@);
                let a = Self::term_text_exec(&ts[j]);
                let b = Self::predicate_text_exec(&ts[j + 1]);
                let c = Self::term_text_exec(&ts[j + 2]);
                acc.push((a, b, c));
                let next = if j + 3 < tlen && Self::is_dot_exec(&ts[j + 3]) {
                    j + 4
                } else {
                    j + 3
                };
                proof {
                    if j + 3 < tlen {
                        assert(tv[j + 3] == ts@[j + 3]@);
                    }
                    let nacc = acc@.map_values(|t: (Vec<char>, Vec<char>, Vec<char>)| (t.0@, t.1@, t.2@));
                    assert(nacc =~= old_acc.push((term_text(tv[j as int]), predicate_text(tv[j + 1]), term_text(tv[j + 2]))));
                    assert(nacc + patterns_from(tv, next as int).0 =~= old_acc + patterns_from(tv, j as int).0);
                }
                j = next;
            } else {
                proof {
                    if j + 2 < tlen {
                        assert(tv[j as int] == ts@[j as int]@);
                        assert(tv[j + 1] == ts@[j + 1]@);
                        assert(tv[j + 2] == ts@[j + 2]@);
                    }
                    assert(patterns_from(tv, j as int).0 =~= Seq::<(Seq<char>, Seq<char>, Seq<char>)>::empty());
                    let nacc = acc@.map_values(|t: (Vec<char>, Vec<char>, Vec<char>)| (t.0@, t.1@, t.2@));
                    assert(nacc + Seq::<(Seq<char>, Seq<char>, Seq<char>)>::empty() =~= nacc);
                }
                return (acc, j);
            }
        }
    }

    fn is_term_exec(t: &Token) -> (res: bool)
        ensures
            res == is_term(t@),
    {
        match t {
            Token::Iri(_) => true,
            Token::Word(_) => true,
            _ => false,
        }
    }

    fn is_dot_exec(t: &Token) -> (res: bool)
        ensures
            res == (t@ is Dot),
    {
        match t {
            Token::Dot => true,
            _ => false,
        }
    }
}

/// `acc` in front of `rest`, when `rest` is there.
pub open spec fn prepend_rules(acc: Seq<ReasonerRuleView>, rest: Option<Seq<ReasonerRuleView>>) -> Option<Seq<ReasonerRuleView>> {
    match rest {
        Some(r) => Some(acc + r),
        None => None,
    }
}

pub open spec fn rule_views(rs: Seq<ReasonerRule>) -> Seq<ReasonerRuleView> {
    rs.map_values(|r: ReasonerRule| r@)
}

pub open spec fn texts_view(v: Seq<(Vec<char>, Vec<char>, Vec<char>)>) -> Seq<(Seq<char>, Seq<char>, Seq<char>)> {
    v.map_values(|t: (Vec<char>, Vec<char>, Vec<char>)| (t.0@, t.1@, t.2@))
}

/// The pattern of a text triple under the prefixes of `pm`.
fn make_pattern(t: &(Vec<char>, Vec<char>, Vec<char>), pm: &PrefixMapper) -> (res: ReasonerTriple)
    ensures
        res@ == pattern_spec(pm@, (t.0@, t.1@, t.2@)),
{
    ReasonerTriple::new_from_prefixes(string_of(&t.0), string_of(&t.1), string_of(&t.2), pm)
}

/// Reads the rules of an N3 text (see the module documentation). Fails with
/// `Parsing failed` when the text is malformed.
pub fn parse(parse_string: &str) -> (res: Result<Vec<ReasonerRule>, &'static str>)
    ensures
        match res {
            Ok(rs) => n3_spec(parse_string@) == Some(rule_views(rs@)),
            Err(e) => n3_spec(parse_string@) is None && e@ == "Parsing failed"@,
        },
{
    let chars = chars_of(parse_string);
    let ts = match CSVParser::tokenize(&chars) {
        Some(ts) => ts,
        None => {
            return Err("Parsing failed");
        },
    };
    let ghost tv = token_views(ts@);
    let prefix_word = chars_of("@prefix");
    let mut pm = PrefixMapper::new();
    let mut rules: Vec<ReasonerRule> = Vec::new();
    let mut k: usize = 0;
    let tlen = ts.len();
    proof {
        assert(pm@ =~= Map::<Seq<char>, Seq<char>>::empty());
        assert(prepend_rules(rule_views(rules@), doc_from(tv, 0, pm@)) =~= doc_from(tv, 0, pm@));
    }
    while k < tlen
        invariant
            tlen == ts@.len(),
            tv == token_views(ts@),
            prefix_word@ == "@prefix"@,
            n3_spec(parse_string@) == prepend_rules(rule_views(rules@), doc_from(tv, k as int, pm@)),
        decreases tlen - k,
    {
        let ghost old_rules = rule_views(rules@);
        assert(tv[k as int] == ts@[k as int]@);
        match &ts[k] {
            Token::Word(w) => {
                if eq_chars(w, &prefix_word) && tlen - k > 2 {
                    assert(tv[k + 1] == ts@[k + 1]@);
                    assert(tv[k + 2] == ts@[k + 2]@);
                    match (&ts[k + 1], &ts[k + 2]) {
                        (Token::Word(n), Token::Iri(iri)) => {
                            if n.len() > 0 && n[n.len() - 1] == ':' {
                                let name = slice(n, 0, n.len() - 1);
                                assert(name@ =~= n@.drop_last());
                                let full = strip_ends_exec(iri);
                                pm.add(string_of(&name), string_of(&full));
                                k = if k + 3 < tlen && CSVParser::is_dot_exec(&ts[k + 3]) {
                                    k + 4
                                } else {
                                    k + 3
                                };
                                proof {
                                    if k + 3 < tlen {
                                        assert(tv[k + 3] == ts@[k + 3]@);
                                    }
                                }
                            } else {
                                return Err("Parsing failed");
                            }
                        },
                        _ => {
                            return Err("Parsing failed");
                        },
                    }
                } else {
                    return Err("Parsing failed");
                }
            },
            Token::Open => {
                let (body, kb) = CSVParser::patterns(&ts, k + 1);
                if !(k < kb && kb < tlen && tlen - kb > 2) {
                    return Err("Parsing failed");
                }
                assert(tv[kb as int] == ts@[kb as int]@);
                assert(tv[kb + 1] == ts@[kb + 1]@);
                assert(tv[kb + 2] == ts@[kb + 2]@);
                if !(CSVParser::is_close_exec(&ts[kb]) && CSVParser::is_arrow_exec(&ts[kb + 1])
                    && CSVParser::is_open_exec(&ts[kb + 2])) {
                    return Err("Parsing failed");
                }
                let (head, kh) = CSVParser::patterns(&ts, kb + 3);
                if !(head.len() >= 1 && kb < kh && kh < tlen) {
                    return Err("Parsing failed");
                }
                assert(tv[kh as int] == ts@[kh as int]@);
                if !CSVParser::is_close_exec(&ts[kh]) {
                    return Err("Parsing failed");
                }
                let mut body_triples: Vec<ReasonerTriple> = Vec::new();
                let mut i: usize = 0;
                while i < body.len()
                    invariant
                        i <= body@.len(),
                        triple_views(body_triples@) == patterns_spec(pm@, texts_view(body@).subrange(0, i as int)),
                    decreases body@.len() - i,
                {
                    let ghost prev = triple_views(body_triples@);
                    let t = make_pattern(&body[i], &pm);
                    body_triples.push(t);
                    proof {
                        let tv2 = texts_view(body@);
                        assert(tv2[i as int] == (body@[i as int].0@, body@[i as int].1@, body@[i as int].2@));
                        assert(tv2.subrange(0, i + 1) =~= tv2.subrange(0, i as int).push(tv2[i as int]));
                        assert(patterns_spec(pm@, tv2.subrange(0, i + 1)) =~= patterns_spec(pm@, tv2.subrange(0, i as int)).push(pattern_spec(pm@, tv2[i as int])));
                        assert(triple_views(body_triples@) =~= prev.push(t@));
                    }
                    i = i + 1;
                }
                assert(texts_view(body@).subrange(0, body@.len() as int) =~= texts_view(body@));
                let head_triple = make_pattern(&head[0], &pm);
                assert(texts_view(head@)[0] == (head@[0].0@, head@[0].1@, head@[0].2@));
                let rule = ReasonerRule { body: body_triples, head: head_triple };
                rules.push(rule);
                k = if kh + 1 < tlen && CSVParser::is_dot_exec(&ts[kh + 1]) {
                    kh + 2
                } else {
                    kh + 1
                };
                proof {
                    if kh + 1 < tlen {
                        assert(tv[kh + 1] == ts@[kh + 1]@);
                    }
                    let rv = rules@.last()@;
                    assert(rule_views(rules@) =~= old_rules.push(rv));
                    match doc_from(tv, k as int, pm@) {
                        Some(rest) => {
                            assert(rule_views(rules@) + rest =~= old_rules + (seq![rv] + rest));
                        },
                        None => {},
                    }
                }
            },
            _ => {
                return Err("Parsing failed");
            },
        }
    }
    assert(rule_views(rules@) + Seq::<ReasonerRuleView>::empty() =~= rule_views(rules@));
    Ok(rules)
}

impl CSVParser {
    fn is_close_exec(t: &Token) -> (res: bool)
        ensures
            res == (t@ is Close),
    {
        match t {
            Token::Close => true,
            _ => false,
        }
    }

    fn is_open_exec(t: &Token) -> (res: bool)
        ensures
            res == (t@ is Open),
    {
        match t {
            Token::Open => true,
            _ => false,
        }
    }

    fn is_arrow_exec(t: &Token) -> (res: bool)
        ensures
            res == (t@ is Arrow),
    {
        match t {
            Token::Arrow => true,
            _ => false,
        }
    }
}

} // verus!
