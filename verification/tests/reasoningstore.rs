use roxi::reasoningstore::rule::Rule;
use roxi::reasoningstore::triple::{PrefixMapper, ReasonerTriple};

#[test]
fn prefix_mapper_test() {
    let mut mapper = PrefixMapper::new();
    mapper.add("test".to_string(), "http://test.org/test/".to_string());
    assert_eq!(mapper.expand("test:testing".to_string()), "http://test.org/test/testing");
}

#[test]
fn prefix_mapper_default_test() {
    let mut mapper = PrefixMapper::new();
    mapper.add("".to_string(), "http://test.org/test/".to_string());
    assert_eq!(mapper.expand(":testing".to_string()), "http://test.org/test/testing");
}

#[test]
fn no_prefix_test() {
    let mut mapper = PrefixMapper::new();
    mapper.add("".to_string(), "http://test.org/test/".to_string());
    assert_eq!(mapper.expand("http://test.org/test/".to_string()), "http://test.org/test/");
    assert_eq!(mapper.expand("?test".to_string()), "?test");
}

#[test]
fn reasoner_triple_written_out() {
    let t = ReasonerTriple::new("?s".to_string(), "<http://p>".to_string(), "http://o".to_string());
    assert_eq!(" ?s  <http://p>  <http://o> .", t.to_string());
    let rule = Rule { body: vec![t.clone()], head: t };
    assert_eq!("{ ?s  <http://p>  <http://o> .}=>{ ?s  <http://p>  <http://o> .}.", rule.to_string());
}

#[test]
fn reasoner_triple_from_prefixes() {
    let mut mapper = PrefixMapper::new();
    mapper.add("ex".to_string(), "http://ex.org/".to_string());
    let t = ReasonerTriple::new_from_prefixes("?s".to_string(), "ex:p".to_string(), "ex:o".to_string(), &mapper);
    assert_eq!(" ?s  <http://ex.org/p>  <http://ex.org/o> .", t.to_string());
}

#[test]
fn rule_as_construct_query() {
    let body = ReasonerTriple::new("?s".to_string(), "http://p".to_string(), "http://A".to_string());
    let head = ReasonerTriple::new("?s".to_string(), "http://p".to_string(), "http://B".to_string());
    let rule = Rule { body: vec![body], head };
    assert_eq!(
        "CONSTRUCT {  ?s  <http://p>  <http://B> . } WHERE {  ?s  <http://p>  <http://A> . }",
        rule.construct_query_text()
    );
}
