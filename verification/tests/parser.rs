use roxi::encoding::Encoder;
use roxi::n3_parser::parse;
use roxi::parser::{Parser, Syntax};

#[test]
fn parse_tp() {
    let rules = parse("@prefix log: <http://www.w3.org/2000/10/swap/log#>.\n{?VaRr0 <http://test.be/pieter> ?lastVar. ?VaRr0 log:type ?lastVar.}=>{?VaRr0 ssn:HasValue ?lastVar.}").unwrap();
    println!("{:?}", rules);
    assert_eq!(rules.get(0).unwrap().body.len(), 2);
}

#[test]
fn parse_multiple_prefixes() {
    let rules = parse("@prefix log: <http://www.w3.org/2000/10/swap/log#>.\n @prefix log2: <http://www.w3.org/2000/10/swap/log2#>.\n {?VaRr0 <http://test.be/pieter> ?lastVar. ?VaRr0 log:type ?lastVar.}=>{?VaRr0 ssn:HasValue ?lastVar.}").unwrap();
    println!("{:?}", rules);
    assert_eq!(rules.get(0).unwrap().body.len(), 2);
}

#[test]
fn parse_multiple_rules() {
    let rules = parse("@prefix log: <http://www.w3.org/2000/10/swap/log#>.\n @prefix log2: <http://www.w3.org/2000/10/swap/log2#>.\n {?VaRr0 <http://test.be/pieter> ?lastVar. ?VaRr0 log:type ?lastVar.}=>{?VaRr0 ssn:HasValue ?lastVar.}\n{?s <http://test.be/pieter> ?o.}=>{?s ssn:HasValue ?o.}").unwrap();
    println!("{:?}", rules);
    assert_eq!(rules.len(), 2);
}

#[test]
fn n3_parse_error_message() {
    match parse("{?s <http://p> ?o.}=>") {
        Ok(_) => assert_eq!(0, 1),
        Err(e) => assert_eq!("Parsing failed", e),
    }
}

#[test]
fn test_parsing() {
    let mut encoder = Encoder::new();
    let ntriples_file = "<http://example.com/foo> <http://www.w3.org/1999/02/22-rdf-syntax-ns#type> <http://schema.org/Person> .
<http://example.com/foo> <http://schema.org/name> \"Foo\" .
<http://example.com/bar> <http://www.w3.org/1999/02/22-rdf-syntax-ns#type> <http://schema.org/Person> .
<http://example.com/bar> <http://schema.org/name> \"Bar\" .";
    let triples = Parser::parse_triples(ntriples_file, Syntax::NTriples, &mut encoder).unwrap();
    assert_eq!(4, triples.len());

    let trig_file = "<http://example.com/foo> <http://www.w3.org/1999/02/22-rdf-syntax-ns#type> <http://schema.org/Person>, <http://schema.org/Student> .
<http://example.com/foo> <http://schema.org/name> \"Foo\" .
<http://example.com/bar> <http://www.w3.org/1999/02/22-rdf-syntax-ns#type> <http://schema.org/Person>; <http://schema.org/name> \"Bar\" .";
    let triples = Parser::parse_triples(trig_file, Syntax::TriG, &mut encoder).unwrap();
    assert_eq!(5, triples.len());

    let turtle = "@prefix schema: <http://schema.org/> .
<http://example.com/foo> a schema:Person ;
    schema:name  \"Foo\" .
<http://example.com/bar> a schema:Person ;
    schema:name  \"Bar\" .";
    let triples = Parser::parse_triples(turtle, Syntax::Turtle, &mut encoder).unwrap();
    assert_eq!(4, triples.len());

    let nquads = "<http://example.com/foo> <http://www.w3.org/1999/02/22-rdf-syntax-ns#type> <http://schema.org/Person> <http://example.com/> .
<http://example.com/foo> <http://schema.org/name> \"Foo\" <http://example.com/> .
<http://example.com/bar> <http://www.w3.org/1999/02/22-rdf-syntax-ns#type> <http://schema.org/Person> .
<http://example.com/bar> <http://schema.org/name> \"Bar\" .";
    let triples = Parser::parse_triples(nquads, Syntax::NQuads, &mut encoder).unwrap();
    assert_eq!(4, triples.len());

    let parsing_error = "<http://example.com/foo> http://www.w3.org/1999/02/22-rdf-syntax-ns#typehema.org/Person";
    let triples = Parser::parse_triples(parsing_error, Syntax::NQuads, &mut encoder);
    assert_eq!(true, triples.is_err());
}

#[test]
fn test_empty_abox_parsing() {
    let mut encoder = Encoder::new();
    let ntriples_file = "";
    let triples = Parser::parse_triples(ntriples_file, Syntax::NTriples, &mut encoder).unwrap();
    assert_eq!(0, triples.len());
}

#[test]
fn test_error_abox_parsing() {
    let mut encoder = Encoder::new();
    let ntriples_file = "asdfadsf";
    match Parser::parse_triples(ntriples_file, Syntax::NTriples, &mut encoder) {
        Ok(_result) => assert_eq!(0, 1),
        Err(_err) => assert_eq!(0, 0),
    }
}

#[test]
fn parser_test_syntactic_sugar_rdf_type() {
    let mut encoder = Encoder::new();
    let ntriples_file = "<http://example2.com/a> a <http://www.test.be/test#SubClass> .";
    match Parser::parse_triples(ntriples_file, Syntax::Turtle, &mut encoder) {
        Ok(result) => assert_eq!(1, result.len()),
        Err(_err) => assert_eq!(0, 1),
    }
}

#[test]
fn test_white_space_in_rules() {
    let mut encoder = Encoder::new();
    let rules = "{?source a test:Source. }=>{?source a test:NeededInput.}";
    match Parser::parse_rules(rules, &mut encoder) {
        Ok(result) => assert_eq!(1, result.len()),
        Err(_err) => assert_eq!(0, 1),
    }
}

#[test]
fn parse_triples_encodes_terms_in_order() {
    let mut encoder = Encoder::new();
    let data = "<http://a> <http://p> <http://b> .";
    let triples = Parser::parse_triples(data, Syntax::NTriples, &mut encoder).unwrap();
    assert_eq!(1, triples.len());
    assert_eq!(0, triples[0].s.to_encoded());
    assert_eq!(1, triples[0].p.to_encoded());
    assert_eq!(2, triples[0].o.to_encoded());
    assert_eq!("<http://a>", encoder.decode(&0).unwrap());
}

#[test]
fn parse_lines_format() {
    let mut encoder = Encoder::new();
    let (content, rules) = Parser::parse(":a a :A.\n{?x a :A}=>{?x a :B}".to_string(), &mut encoder);
    assert_eq!(1, content.len());
    assert_eq!(1, rules.len());
    assert_eq!(1, rules[0].body.len());
    assert!(rules[0].head.s.is_var());
    assert!(content[0].s.is_term());
}

#[test]
fn encode_parsed_encodes_in_order_and_keeps_the_message() {
    let mut encoder = Encoder::new();
    let parsed = (
        vec![("<http://s>".to_string(), "<http://p>".to_string(), "<http://o>".to_string(), Some("<http://g>".to_string()))],
        None,
    );
    let triples = Parser::encode_parsed(parsed, &mut encoder).unwrap();
    assert_eq!(1, triples.len());
    assert_eq!(Some(0), encoder.get("<http://s>"));
    assert_eq!(Some(3), encoder.get("<http://g>"));
    assert_eq!(triples[0].o.to_encoded(), 2);
    let failed = (
        vec![("<http://x>".to_string(), "<http://p>".to_string(), "<http://o>".to_string(), None)],
        Some("bad".to_string()),
    );
    assert_eq!(Err("Parsing error! bad".to_string()), Parser::encode_parsed(failed, &mut encoder));
    assert_eq!(Some(4), encoder.get("<http://x>"));
}
