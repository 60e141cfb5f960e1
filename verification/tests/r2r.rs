use std::collections::HashSet;

use roxi::parser::Syntax;
use roxi::rsp::r2r::{process_content, R2RStore};
use roxi::rsp::r2s::{Relation2StreamOperator, StreamOperator};
use roxi::rsp::s2r::{CSPARQLWindow, Report, ReportStrategy, Tick, WindowTriple};
use roxi::sparql::{Binding, QueryForm};
use roxi::sparql_syntax::{read_query, QueryError};

fn prepared_store() -> R2RStore {
    let ntriples_file = "<http://example.com/foo> <http://www.w3.org/1999/02/22-rdf-syntax-ns#type> <http://schema.org/Person> .
<http://example.com/foo> <http://schema.org/name> \"Foo\" .
<http://example.com/bar> <http://www.w3.org/1999/02/22-rdf-syntax-ns#type> <http://schema.org/Person> .
<http://example.com/bar> <http://schema.org/name> \"Bar\" .";
    let rules = "@prefix test: <http://www.w3.org/test/>.\n{?x <http://test.be/hasVal> ?y. ?y <http://www.w3.org/1999/02/22-rdf-syntax-ns#type> <http://schema.org/Person>.}=>{?x <http://www.w3.org/1999/02/22-rdf-syntax-ns#type> test:SuperType.}";
    let mut store = R2RStore::new();
    store.item.load_triples(ntriples_file, Syntax::NTriples).unwrap();
    store.item.load_rules(rules).unwrap();
    store
}

fn query() -> QueryForm {
    read_query("Select * WHERE{ ?s a <http://www.w3.org/test/SuperType>}").unwrap()
}

#[test]
fn window_contents_are_reasoned_over_and_queried() {
    let mut store = prepared_store();
    let query = query();
    let mut operator: Relation2StreamOperator<Vec<Binding>> = Relation2StreamOperator::new(StreamOperator::RSTREAM, 0);
    let mut report = Report::new();
    report.add(ReportStrategy::OnWindowClose);
    let mut window = CSPARQLWindow::new(10, 2, report, Tick::TimeDriven);
    let mut reports = 0;
    for i in 0..10 {
        let triple = WindowTriple {
            s: format!("<http://example.com/s{}>", i),
            p: "<http://test.be/hasVal>".to_string(),
            o: "<http://example.com/foo>".to_string(),
        };
        if let Some(content) = window.process(triple, i) {
            reports += 1;
            let subjects: HashSet<String> = content.iter().map(|t| t.s.clone()).collect();
            let results = process_content(&mut store, &mut operator, &query, content);
            // every subject seen so far is now a super type; the answer names them all
            let answered: HashSet<String> = results.iter().flat_map(|row| row.iter().map(|b| b.val.clone())).collect();
            assert!(subjects.is_subset(&answered));
            for row in results.iter() {
                assert!(row.iter().all(|b| b.var == "s"));
            }
        }
    }
    assert_eq!(5, reports);
}

#[test]
fn r2r_store_adds_and_answers() {
    let mut store = prepared_store();
    store.add(WindowTriple {
        s: "<http://example.com/x>".to_string(),
        p: "<http://test.be/hasVal>".to_string(),
        o: "<http://example.com/bar>".to_string(),
    });
    store.materialize();
    let answer = store.execute_query(&query());
    assert_eq!(
        vec![vec![Binding { var: "s".to_string(), val: "<http://example.com/x>".to_string() }]],
        answer
    );
}

#[test]
fn unreadable_query_is_refused() {
    assert!(matches!(read_query("Select WHERE"), Err(QueryError::Parse(_))));
}
