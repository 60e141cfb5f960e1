use std::collections::HashMap;

use roxi::backwardchaining::BackwardChainer;
use roxi::encoding::Encoder;
use roxi::parser::Syntax;
use roxi::reasoner::{QueryEngine, Reasoner, SimpleQueryEngine};
use roxi::ruleindex::RuleIndex;
use roxi::store::TripleStore;
use roxi::triples::{Rule, Triple, VarOrTerm};
use roxi::tripleindex::TripleIndex;

#[test]
fn test_parse() {
    let data = ":a a :C0.\n\
            {?a a :C0}=>{?a a :C1}\n\
            {?a a :C1}=>{?a a :C2}\n\
            {?a a :C2}=>{?a a :C3}";
    let mut store = TripleStore::from(data);
    let mat = store.materialize();
    println!("Length: {:?}", store.len());
    println!("Length Mat: {:?}", mat.len());
}

#[test]
fn test_store() {
    let mut rules = Vec::new();
    let mut encoder = Encoder::new();
    let max_depth = 5;
    for i in 0..max_depth {
        let rule = Rule {
            head: Triple {
                s: VarOrTerm::new_var("s".to_string(), &mut encoder),
                p: VarOrTerm::new_term("http://test".to_string(), &mut encoder),
                o: VarOrTerm::new_term(format!("U{}", i + 1), &mut encoder),
                g: None,
            },
            body: Vec::from([Triple {
                s: VarOrTerm::new_var("s".to_string(), &mut encoder),
                p: VarOrTerm::new_term("http://test".to_string(), &mut encoder),
                o: VarOrTerm::new_term(format!("U{}", i), &mut encoder),
                g: None,
            }]),
        };
        rules.push(rule);
    }
    let content = Vec::from([Triple {
        s: VarOrTerm::new_term("sTerm".to_string(), &mut encoder),
        p: VarOrTerm::new_term("http://test".to_string(), &mut encoder),
        o: VarOrTerm::new_term("U0".to_string(), &mut encoder),
        g: None,
    }]);
    let mut rules_index = RuleIndex::new();
    for rule in rules.iter() {
        rules_index.add(rule);
    }
    let mut triple_index = TripleIndex::new();
    content.into_iter().for_each(|t| triple_index.add(t));
    let query = Triple {
        s: VarOrTerm::new_var("s".to_string(), &mut encoder),
        p: VarOrTerm::new_term("http://test".to_string(), &mut encoder),
        o: VarOrTerm::new_term(format!("U{}", max_depth), &mut encoder),
        g: None,
    };
    let mut store = TripleStore { rules: Vec::new(), rules_index, triple_index, encoder, reasoner: Reasoner };
    store.materialize();
    let result = SimpleQueryEngine::query(&store.triple_index, &Vec::from([query]), None);
    println!("Result: {:?}", result);
    assert_eq!(6, store.len());
    assert_eq!(1, result.unwrap().len());
}

#[test]
fn lib_test_eval_backward_rule() {
    let data = "<http://example2.com/a> a test:SubClass.\n\
                <http://example2.com/a> test:hasRef <http://example2.com/b>.\n\
                <http://example2.com/b> test:hasRef <http://example2.com/c>.\n\
                <http://example2.com/c> a test:SubClass.\n\
            {?s a test:SubClass.}=>{?s a test:SubClass2.}\n
            {?s a test:SubClass2.?s test:hasRef ?b.?b test:hasRef ?c.?c a test:SubClass2.}=>{?s a test:SuperType.}";
    let mut store = TripleStore::from(data);
    let encoder = &mut store.encoder;
    let backward_head = Triple {
        s: VarOrTerm::new_var("?newVar".to_string(), encoder),
        p: VarOrTerm::new_term("a".to_string(), encoder),
        o: VarOrTerm::new_term("test:SuperType".to_string(), encoder),
        g: None,
    };
    let var_encoded = encoder.add("?newVar".to_string());
    let result_encoded = encoder.add("<http://example2.com/a>".to_string());

    let bindings = BackwardChainer::eval_backward(&store.triple_index, &store.rules_index, &backward_head);
    let result_bindings = HashMap::from([(var_encoded, Vec::from([result_encoded]))]);
    assert_eq!(result_bindings.get(&12), bindings.get(&12));
}

#[test]
fn test_incomplete_rule_match() {
    let data = ":a in :b.\n\
            {?a in ?b. ?b in ?c}=>{?a in ?c.}";
    let mut store = TripleStore::from(data);
    assert_eq!(1, store.len());
    store.materialize();
    assert_eq!(1, store.len());
}

#[test]
fn test_no_var_query() {
    let data = ":a in :b.\n\
            {:a in :b}=>{:a in :c}";
    let mut store = TripleStore::from(data);
    assert_eq!(1, store.len());
    store.materialize();
    assert_eq!(2, store.len());
}

#[test]
fn test_single_rule() {
    let data = ":a a :A.\n\
            {?a a :A}=>{?a a :B}";
    let mut store = TripleStore::from(data);
    assert_eq!(1, store.len());
    store.materialize();
    assert_eq!(2, store.len());
}

#[test]
fn test_multiple_rule() {
    let data = ":a a :A.\n\
            {?a a :A}=>{?a a :B}\n\
            {?a a :B}=>{?a a :C}";
    let mut store = TripleStore::from(data);
    assert_eq!(1, store.len());
    store.materialize();
    assert_eq!(3, store.len());
}

#[test]
fn test_join_rule() {
    let data = ":a a :A.\n\
            :a in :b.\n\
            {?a a :A.?a in ?o}=>{?a a :B}";
    let mut store = TripleStore::from(data);
    assert_eq!(2, store.len());
    store.materialize();
    assert_eq!(3, store.len());
}

#[test]
fn test_long_join_rule() {
    let data = ":a a :A.\n\
            :a in :b.\n\
            :b in :c.\n\
            :c a :A.\n\
            {?a a :A.?a in ?o.?o in ?o2.?o2 a :A}=>{?a a :B}";
    let mut store = TripleStore::from(data);
    assert_eq!(4, store.len());
    store.materialize();
    assert_eq!(5, store.len());
}

#[test]
fn test_transitive_rule() {
    let mut data = "{?a in ?b.?b in ?c}=>{?a in ?c}\n".to_owned();
    for i in 0..10 {
        data += format!(":{} in :{}.\n", i + 1, i).as_str();
    }
    let mut store = TripleStore::from(data.as_str());
    assert_eq!(10, store.len());
    store.materialize();
    assert_eq!(55, store.len());
}

#[test]
fn materialize_returns_the_inferred_triples() {
    let mut store = TripleStore::from(":a a :A.\n{?a a :A}=>{?a a :B}");
    let inferred = store.materialize();
    assert_eq!(1, inferred.len());
    assert!(store.triple_index.contains(&inferred[0]));
    let again = store.materialize();
    assert_eq!(0, again.len());
}

#[test]
fn content_to_string_writes_lines() {
    let mut store = TripleStore::from(":a a :A.\n{?a a :A}=>{?a a :B}");
    store.materialize();
    assert_eq!(":a a :A.\n:a a :B.\n", store.content_to_string());
}

#[test]
fn load_triples_and_rules() {
    let mut store = TripleStore::new();
    assert!(store.load_triples("<http://a> <http://p> <http://b> .", Syntax::NTriples).is_ok());
    assert_eq!(1, store.len());
    assert!(store.load_triples("not a triple", Syntax::NTriples).is_err());
    assert_eq!(1, store.len());
    assert!(store.load_rules("{?x <http://p> ?y.}=>{?y <http://q> ?x.}").is_ok());
    assert_eq!(Err("Parsing failed"), store.load_rules("{?x <http://p>"));
    store.materialize();
    assert_eq!(2, store.len());
}

#[test]
fn backwardchaining_test() {
    let triples = "@prefix rdf: <http://www.w3.org/1999/02/22-rdf-syntax-ns#> .
@prefix rdfs: <http://www.w3.org/2000/01/rdf-schema#> .
@prefix : <http://www.some.com/>.
:sensor1 rdf:type :Sensor.
:sensor1 :observes :temp.
:temp rdf:type :Temp.
:obs rdf:type :Observation.
:obs :madeBySensor :sensor1.
:obs :observedProperty :temp.
";
    let rules = "@prefix : <http://www.some.com/>.
@prefix rdf: <http://www.w3.org/1999/02/22-rdf-syntax-ns#> .
{?x rdf:type :Observation. ?x :madeBySensor ?y. ?y rdf:type :TempSensor}=>{?x rdf:type :TempObservation.}
{?x rdf:type :Sensor. ?x :observes ?y. ?y rdf:type :Temp}=>{?x rdf:type :TempSensor.}.
{?x rdf:type :TempObservation} => {?x rdf:type :EnvironmentObservation.}.
";
    let mut store = TripleStore::new();
    store.load_triples(triples, Syntax::Turtle).unwrap();
    store.load_rules(rules).unwrap();

    let backward_head = Triple::from(
        "?x".to_string(),
        "<http://www.w3.org/1999/02/22-rdf-syntax-ns#type>".to_string(),
        "<http://www.some.com/EnvironmentObservation>".to_string(),
        &mut store.encoder,
    );
    let var_encoded = store.encoder.add("x".to_string());
    let result_encoded = store.encoder.add("<http://www.some.com/obs>".to_string());

    let bindings = BackwardChainer::eval_backward(&store.triple_index, &store.rules_index, &backward_head);
    let result_bindings = HashMap::from([(var_encoded, Vec::from([result_encoded]))]);

    assert_eq!(1, bindings.len());
    assert_eq!(result_bindings.get(&var_encoded), bindings.get(&var_encoded));
}

#[test]
fn backwardchaining_test_eval_backward_rule() {
    let data = "<http://example2.com/a> a test:SubClass.\n\
                <http://example2.com/a> test:hasRef <http://example2.com/b>.\n\
                <http://example2.com/b> test:hasRef <http://example2.com/c>.\n\
                <http://example2.com/c> a test:SubClass.\n\
            {?s a test:SubClass.}=>{?s a test:SubClass2.}\n
            {?s a test:SubClass2.?s test:hasRef ?b.?b test:hasRef ?c.?c a test:SubClass2.}=>{?s a test:SuperType.}";
    let mut store = TripleStore::from(data);
    let backward_head = Triple {
        s: VarOrTerm::new_var("?newVar".to_string(), &mut store.encoder),
        p: VarOrTerm::new_term("a".to_string(), &mut store.encoder),
        o: VarOrTerm::new_term("test:SuperType".to_string(), &mut store.encoder),
        g: None,
    };
    let var_encoded = store.encoder.add("?newVar".to_string());
    let result_encoded = store.encoder.add("<http://example2.com/a>".to_string());

    let bindings = BackwardChainer::eval_backward(&store.triple_index, &store.rules_index, &backward_head);
    let result_bindings = HashMap::from([(var_encoded, Vec::from([result_encoded]))]);
    assert_eq!(result_bindings.get(&12), bindings.get(&12));
}

#[test]
fn checked_load_adds_or_reports() {
    let mut store = TripleStore::new();
    assert_eq!(Some(Ok(())), store.load_triples_checked("<http://a> <http://p> <http://b> .", Syntax::NTriples));
    assert_eq!(1, store.len());
    assert!(matches!(store.load_triples_checked("not a triple", Syntax::NTriples), Some(Err(_))));
    assert_eq!(1, store.len());
}

#[test]
fn try_from_reads_or_refuses() {
    assert!(roxi::parser::Parser::parse_ok_exec(":a :p :b.\n{?x :p ?y}=>{?x :q ?y}"));
    let store = TripleStore::try_from(":a :p :b.\n{?x :p ?y}=>{?x :q ?y}").unwrap();
    assert_eq!(1, store.len());
    assert!(!roxi::parser::Parser::parse_ok_exec(":a :p"));
    assert!(TripleStore::try_from(":a :p").is_none());
    assert!(TripleStore::try_from("{?x :p}=>{?x :q ?y}").is_none());
}

#[test]
fn three_pattern_rule_is_closed() {
    let data = ":a :p :b.\n:b :p :c.\n:c :p :d.\n:d :p :e.\n{?x :p ?y.?y :p ?z.?z :p ?w}=>{?x :q ?w}";
    let mut store = TripleStore::from(data);
    store.materialize();
    let mut term = |name: &str| VarOrTerm::new_term(name.to_string(), &mut store.encoder);
    let (a, b, d, e, q) = (term(":a"), term(":b"), term(":d"), term(":e"), term(":q"));
    assert!(store.triple_index.contains(&Triple { s: a, p: q, o: d, g: None }));
    assert!(store.triple_index.contains(&Triple { s: b, p: q, o: e, g: None }));
}

#[test]
fn rule_instances_found_late_are_closed() {
    // the body instance of the second rule appears only after the first rule fired
    let data = ":a p :b.\n:c r :a.\n{?x p ?y}=>{?y s ?x}\n{?u r ?v.?w s ?v}=>{?u t ?w}";
    let mut store = TripleStore::from(data);
    store.materialize();
    // b s a, then c t b
    assert_eq!(4, store.len());
}
