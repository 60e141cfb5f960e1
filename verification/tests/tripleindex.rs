use std::rc::Rc;

use roxi::encoding::Encoder;
use roxi::parser::{Parser, Syntax};
use roxi::triples::{Triple, VarOrTerm};
use roxi::tripleindex::TripleIndex;

#[test]
fn test_remove() {
    let mut encoder = Encoder::new();
    let mut index = TripleIndex::new();
    let data = "<http://example2.com/a> a test:SubClass.\n\
                <http://example2.com/a> test:hasRef <http://example2.com/b>.\n\
                <http://example2.com/b> test:hasRef <http://example2.com/c>.\n\
                <http://example2.com/c> a test:SubClass.";
    let (content, _rules) = Parser::parse(data.to_string(), &mut encoder);
    let rc_triples: Vec<Rc<Triple>> = content.into_iter().map(|t| Rc::new(t)).collect();
    rc_triples.iter().for_each(|t| index.add_ref(t.clone()));
    assert_eq!(4, index.len());
    index.remove_ref(&rc_triples.get(0).unwrap().clone());
    assert_eq!(3, index.len());
}

#[test]
fn test_query_fact() {
    let mut encoder = Encoder::new();
    let mut index = TripleIndex::new();
    let data = ":a a :C.\n\
                :b a :D.\n\
                {:a a :C}=>{:a a :D}";
    let (content, rules) = Parser::parse(data.to_string(), &mut encoder);
    content.into_iter().for_each(|t| index.add(t));
    let query = rules.get(0).unwrap().body.get(0).unwrap();
    let result = index.query(query, None);
    assert_eq!(true, result.is_some());
}

#[test]
fn test_quad_filter() {
    let mut encoder = Encoder::new();
    let nquads = "<http://example.com/foo> <http://www.w3.org/1999/02/22-rdf-syntax-ns#type> <http://schema.org/Person> <http://example.com/> .
<http://example.com/foo> <http://schema.org/name> \"Foo\" <http://example.com/> .
<http://example.com/bar> <http://www.w3.org/1999/02/22-rdf-syntax-ns#type> <http://schema.org/Person> .
<http://example.com/bar> <http://schema.org/name> \"Bar\" .";
    let triples = Parser::parse_triples(nquads, Syntax::NQuads, &mut encoder).unwrap();
    let mut index = TripleIndex::new();
    triples.into_iter().for_each(|t| index.add(t));
    let query_triple = Triple::from_with_graph_name("?s".to_string(), "?p".to_string(), "?o".to_string(), "http://example.com/".to_string(), &mut encoder);
    let bindings = index.query(&query_triple, None);
    assert_eq!(2, bindings.unwrap().len());
}

#[test]
fn test_quad_query() {
    let mut encoder = Encoder::new();
    let nquads = "<http://example.com/foo> <http://www.w3.org/1999/02/22-rdf-syntax-ns#type> <http://schema.org/Person> <http://example.com/> .
<http://example.com/bar> <http://www.w3.org/1999/02/22-rdf-syntax-ns#type> <http://schema.org/Person> <http://example.com/somethingelse> .";
    let triples = Parser::parse_triples(nquads, Syntax::NQuads, &mut encoder).unwrap();
    let mut index = TripleIndex::new();
    triples.into_iter().for_each(|t| index.add(t));
    let query_triple = Triple::from_with_graph_name("http://example.com/foo".to_string(), "http://www.w3.org/1999/02/22-rdf-syntax-ns#type".to_string(), "http://schema.org/Person".to_string(), "?g".to_string(), &mut encoder);
    let bindings = index.query(&query_triple, None).unwrap();
    assert_eq!(1, bindings.len());
    assert_eq!(&encoder.add("<http://example.com/>".to_string()), bindings.get(&encoder.add("g".to_string())).unwrap().get(0).unwrap());
}

#[test]
fn test_iterator() {
    let mut encoder = Encoder::new();
    let nquads = "<http://example.com/foo> <http://www.w3.org/1999/02/22-rdf-syntax-ns#type> <http://schema.org/Person> <http://example.com/> .
<http://example.com/foo> <http://www.w3.org/1999/02/22-rdf-syntax-ns#type> <http://schema.org/Student> <http://example.com/somethingelse> .";
    let triples = Parser::parse_triples(nquads, Syntax::NQuads, &mut encoder).unwrap();
    let mut index = TripleIndex::new();
    triples.into_iter().for_each(|t| index.add(t));
    let query_triple = Triple::from("?s".to_string(), "http://www.w3.org/1999/02/22-rdf-syntax-ns#type".to_string(), "?o".to_string(), &mut encoder);
    let it = index.query_help(&query_triple, None);
    for item in it {
        println!("item {:?}", item);
    }
}

#[test]
fn contains_after_add_and_not_after_remove() {
    let t = Triple { s: VarOrTerm::new_encoded_term(1), p: VarOrTerm::new_encoded_term(2), o: VarOrTerm::new_encoded_term(3), g: None };
    let mut index = TripleIndex::new();
    assert!(!index.contains(&t));
    index.add(t);
    assert!(index.contains(&t));
    assert_eq!(Some(&t), index.get(0));
    index.remove_ref(&t);
    assert!(!index.contains(&t));
    assert_eq!(0, index.len());
}

#[test]
fn query_single_variable_patterns() {
    let mut index = TripleIndex::new();
    for (s, o) in [(1usize, 3usize), (4, 3), (1, 5)] {
        index.add(Triple { s: VarOrTerm::new_encoded_term(s), p: VarOrTerm::new_encoded_term(2), o: VarOrTerm::new_encoded_term(o), g: None });
    }
    // ?x 2 3
    let q = Triple { s: VarOrTerm::new_encoded_var(9), p: VarOrTerm::new_encoded_term(2), o: VarOrTerm::new_encoded_term(3), g: None };
    let b = index.query(&q, None).unwrap();
    assert_eq!(Some(&vec![1, 4]), b.get(&9));
    // the first entry only
    let b0 = index.query(&q, Some(0)).unwrap();
    assert_eq!(Some(&vec![1]), b0.get(&9));
    // 1 2 ?y
    let q2 = Triple { s: VarOrTerm::new_encoded_term(1), p: VarOrTerm::new_encoded_term(2), o: VarOrTerm::new_encoded_var(8), g: None };
    assert_eq!(Some(&vec![3, 5]), index.query(&q2, None).unwrap().get(&8));
    // no answer
    let q3 = Triple { s: VarOrTerm::new_encoded_term(7), p: VarOrTerm::new_encoded_term(2), o: VarOrTerm::new_encoded_var(8), g: None };
    assert!(index.query(&q3, None).is_none());
    index.clear();
    assert_eq!(0, index.len());
}
