use roxi::encoding::Encoder;
use roxi::parser::{Parser, Syntax};
use roxi::sparql::{
    evaluate_plan, evaluate_plan_and_debug, eval_query, extract_triples, to_bool, Binding, CountAccumulator, EncodedTerm,
    PlanExpression, PlanNode, QueryAggregate, QueryExpression, QueryForm, QueryPattern,
};
use roxi::sparql_syntax::{check_query, plan_parsed, plan_query, QueryError};
use roxi::triples::{TermImpl, Triple};
use roxi::tripleindex::{EncodedBinding, TripleIndex};

fn prepare_test(encoder: &mut Encoder) -> TripleIndex {
    let nquads = "<http://example.com/foo> <http://www.w3.org/1999/02/22-rdf-syntax-ns#type> <http://schema.org/Person> <http://example.com/> .
    <http://example.com/foo> <http://www.w3.org/1999/02/22-rdf-syntax-ns#type> <http://schema.org/Student> <http://example.com/somethingelse> .
    <http://example.com/foo> <http://test/hasVal> \"1\"^^<http://www.w3.org/2001/XMLSchema#integer> <http://example.com/somethingelse> .
    <http://example.com/foo2> <http://test/hasVal> \"10\"^^<http://www.w3.org/2001/XMLSchema#integer> <http://example.com/somethingelse> .";
    let triples = Parser::parse_triples(nquads, Syntax::NQuads, encoder).unwrap();
    let mut index = TripleIndex::new();
    triples.into_iter().for_each(|t| index.add(t));
    index
}

fn run(query_str: &str) -> Vec<Vec<EncodedBinding>> {
    let mut encoder = Encoder::new();
    let index = prepare_test(&mut encoder);
    let plan = plan_query(query_str, &index, &mut encoder).unwrap();
    evaluate_plan(&plan, &index, &mut encoder)
}

#[test]
fn test_filter_greater_than() {
    let results = run("Select * WHERE {  ?s <http://test/hasVal> ?o2  . Filter(?o2 > 1). }");
    assert_eq!(1, results.len());
}

#[test]
fn test_filter_greater_than_or_equal() {
    let results = run("Select * WHERE {  ?s <http://test/hasVal> ?o2  . Filter(?o2 >= 1). }");
    assert_eq!(2, results.len());
}

#[test]
fn test_filter_less_than() {
    let results = run("Select * WHERE {  ?s <http://test/hasVal> ?o2  . Filter(?o2 <= 1). }");
    assert_eq!(1, results.len());
}

#[test]
fn test_group_by_count_aggregation() {
    let mut encoder = Encoder::new();
    let index = prepare_test(&mut encoder);
    let query_str = "Select (COUNT(?s) AS ?count) WHERE {  ?s <http://www.w3.org/1999/02/22-rdf-syntax-ns#type> ?o  .  } GroupBy ?s ";
    let plan = plan_query(query_str, &index, &mut encoder).unwrap();
    let results = vec![vec![Binding { var: "count".to_string(), val: "2".to_string() }]];
    assert_eq!(results, evaluate_plan_and_debug(&plan, &index, &mut encoder));
}

#[test]
fn sparql_test_syntactic_sugar_rdf_type() {
    let mut encoder = Encoder::new();
    let index = prepare_test(&mut encoder);
    let plan = plan_query("Select * WHERE {  ?s a ?val.  }", &index, &mut encoder).unwrap();
    assert_eq!(2, evaluate_plan_and_debug(&plan, &index, &mut encoder).len());
}

#[test]
fn filter_less_than_keeps_the_smaller_value() {
    let mut encoder = Encoder::new();
    let index = prepare_test(&mut encoder);
    let plan = plan_query("Select ?s WHERE { ?s <http://test/hasVal> ?o2 . Filter(?o2 < 10). }", &index, &mut encoder).unwrap();
    let rows = evaluate_plan_and_debug(&plan, &index, &mut encoder);
    assert_eq!(vec![vec![Binding { var: "s".to_string(), val: "<http://example.com/foo>".to_string() }]], rows);
}

#[test]
fn join_on_shared_variable() {
    let mut encoder = Encoder::new();
    let index = prepare_test(&mut encoder);
    let plan = plan_query(
        "Select ?s ?t ?v WHERE { ?s a ?t . ?s <http://test/hasVal> ?v . }",
        &index,
        &mut encoder,
    )
    .unwrap();
    let rows = evaluate_plan_and_debug(&plan, &index, &mut encoder);
    // foo has two types and one value: two joined rows
    assert_eq!(2, rows.len());
    for row in rows.iter() {
        assert!(row.contains(&Binding { var: "v".to_string(), val: "\"1\"^^<http://www.w3.org/2001/XMLSchema#integer>".to_string() }));
    }
}

#[test]
fn group_count_per_subject() {
    let mut encoder = Encoder::new();
    let index = prepare_test(&mut encoder);
    let plan = plan_query(
        "Select ?s (COUNT(?v) AS ?n) WHERE { ?s <http://test/hasVal> ?v . } GroupBy ?s",
        &index,
        &mut encoder,
    )
    .unwrap();
    let rows = evaluate_plan_and_debug(&plan, &index, &mut encoder);
    assert_eq!(2, rows.len());
    // groups come in the order in which they first appear
    assert!(rows[0].contains(&Binding { var: "n".to_string(), val: "1".to_string() }));
    assert!(rows[1].contains(&Binding { var: "n".to_string(), val: "1".to_string() }));
}

#[test]
fn unparsable_query_is_an_error() {
    let mut encoder = Encoder::new();
    let index = prepare_test(&mut encoder);
    let before = encoder.get("s");
    match plan_query("Select WHERE {", &index, &mut encoder) {
        Err(QueryError::Parse(message)) => assert!(!message.is_empty()),
        _ => panic!("expected a parse error"),
    }
    assert_eq!(before, encoder.get("s"));
}

#[test]
fn unsupported_aggregate_is_refused() {
    let mut encoder = Encoder::new();
    let index = prepare_test(&mut encoder);
    match plan_query("Select (MAX(?v) AS ?m) WHERE { ?s <http://test/hasVal> ?v . } GroupBy ?s", &index, &mut encoder) {
        Err(QueryError::Unsupported) => {}
        _ => panic!("expected an unsupported query"),
    }
}

#[test]
fn non_select_query_gives_empty_plan() {
    let mut encoder = Encoder::new();
    let index = prepare_test(&mut encoder);
    let plan = plan_query("ASK { ?s ?p ?o }", &index, &mut encoder).unwrap();
    assert!(matches!(plan, PlanNode::Done));
    assert_eq!(0, evaluate_plan(&plan, &index, &mut encoder).len());
}

#[test]
fn eval_query_on_hand_built_form() {
    let mut encoder = Encoder::new();
    let index = prepare_test(&mut encoder);
    let form = QueryForm::Select {
        pattern: QueryPattern::Filter {
            expr: QueryExpression::Greater(
                Box::new(QueryExpression::Variable("o".to_string())),
                Box::new(QueryExpression::Literal("5".to_string())),
            ),
            inner: Box::new(QueryPattern::Bgp {
                patterns: vec![("?s".to_string(), "<http://test/hasVal>".to_string(), "?o".to_string())],
            }),
        },
    };
    let plan = eval_query(&form, &index, &mut encoder);
    let rows = evaluate_plan_and_debug(&plan, &index, &mut encoder);
    assert_eq!(1, rows.len());
    assert!(rows[0].contains(&Binding { var: "s".to_string(), val: "<http://example.com/foo2>".to_string() }));
}

#[test]
fn extend_of_non_variable_is_empty_plan() {
    let mut encoder = Encoder::new();
    let index = prepare_test(&mut encoder);
    let form = QueryForm::Select {
        pattern: QueryPattern::Extend {
            inner: Box::new(QueryPattern::Other),
            variable: "x".to_string(),
            expression: QueryExpression::Other,
        },
    };
    let plan = eval_query(&form, &index, &mut encoder);
    assert!(matches!(plan, PlanNode::Done));
    assert_eq!(None, encoder.get("x"));
}

#[test]
fn constant_filter_compares_codes() {
    let mut encoder = Encoder::new();
    let index = prepare_test(&mut encoder);
    let s = encoder.add("s".to_string());
    let plan = PlanNode::Filter {
        child: Box::new(PlanNode::QuadPattern {
            pattern: Triple::from("?s".to_string(), "<http://test/hasVal>".to_string(), "?o".to_string(), &mut encoder),
        }),
        expression: Box::new(PlanExpression::Less(
            Box::new(PlanExpression::Constant(TermImpl { iri: 3 })),
            Box::new(PlanExpression::Constant(TermImpl { iri: 4 })),
        )),
    };
    let rows = evaluate_plan(&plan, &index, &mut encoder);
    assert_eq!(2, rows.len());
    assert!(rows.iter().all(|r| r.iter().any(|b| b.var == s)));
}

#[test]
fn count_accumulator_encodes_its_count() {
    let mut encoder = Encoder::new();
    let mut acc = CountAccumulator::default();
    acc.add(0);
    acc.add(0);
    acc.add(0);
    let code = acc.get(&mut encoder);
    assert_eq!(Some("3".to_string()), encoder.decode(&code));
    let mut big = CountAccumulator::default();
    for _ in 0..12 {
        big.add(7);
    }
    let code = big.get(&mut encoder);
    assert_eq!(Some("12".to_string()), encoder.decode(&code));
}

#[test]
fn truth_values_of_terms() {
    assert_eq!(Some(true), to_bool(&EncodedTerm::BooleanLiteral(true)));
    assert_eq!(Some(false), to_bool(&EncodedTerm::IntegerLiteral(0)));
    assert_eq!(Some(true), to_bool(&EncodedTerm::IntegerLiteral(7)));
    assert_eq!(Some(false), to_bool(&EncodedTerm::StringLiteral(String::new())));
    assert_eq!(Some(true), to_bool(&EncodedTerm::StringLiteral("a".to_string())));
    assert_eq!(None, to_bool(&EncodedTerm::NamedNode { iri_id: 1 }));
    let _ = QueryAggregate::Count { distinct: false };
}

#[test]
fn extract_triples_reads_patterns_in_order() {
    let mut encoder = Encoder::new();
    let patterns = vec![
        ("?s".to_string(), "<http://p>".to_string(), "<http://o>".to_string()),
        ("<http://o>".to_string(), "<http://p>".to_string(), "?s".to_string()),
    ];
    let triples = extract_triples(&patterns, &mut encoder);
    assert_eq!(2, triples.len());
    let s = encoder.get("s").unwrap();
    let p = encoder.get("<http://p>").unwrap();
    let o = encoder.get("<http://o>").unwrap();
    assert_eq!(triples[0].s.to_encoded(), s);
    assert!(triples[0].s.is_var());
    assert_eq!(triples[0].p.to_encoded(), p);
    assert_eq!(triples[1].s.to_encoded(), o);
    assert!(triples[1].o.is_var());
    assert_eq!((s, p, o), (0, 1, 2));
}

#[test]
fn check_query_passes_parser_message_on() {
    match check_query(Err("bad text".to_string())) {
        Err(QueryError::Parse(m)) => assert_eq!("bad text", m),
        _ => panic!("expected a parse error"),
    }
}

#[test]
fn check_query_refuses_empty_pattern() {
    let form = QueryForm::Select { pattern: QueryPattern::Bgp { patterns: vec![] } };
    assert!(matches!(check_query(Ok(form)), Err(QueryError::Unsupported)));
    assert!(matches!(check_query(Ok(QueryForm::Ask)), Ok(QueryForm::Ask)));
}

#[test]
fn plan_parsed_leaves_dictionary_on_error() {
    let mut encoder = Encoder::new();
    let index = prepare_test(&mut encoder);
    let before = encoder.get("zz");
    let form = QueryForm::Select {
        pattern: QueryPattern::Filter {
            expr: QueryExpression::Literal("notanumber".to_string()),
            inner: Box::new(QueryPattern::Bgp {
                patterns: vec![("?zz".to_string(), "<http://test/hasVal>".to_string(), "?o".to_string())],
            }),
        },
    };
    assert!(matches!(plan_parsed(Ok(form), &index, &mut encoder), Err(QueryError::Unsupported)));
    assert_eq!(before, encoder.get("zz"));
    let form = QueryForm::Select {
        pattern: QueryPattern::Bgp {
            patterns: vec![("?s".to_string(), "<http://test/hasVal>".to_string(), "?o".to_string())],
        },
    };
    let plan = plan_parsed(Ok(form), &index, &mut encoder).unwrap();
    assert!(matches!(plan, PlanNode::QuadPattern { .. }));
}
