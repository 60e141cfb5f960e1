use std::cell::RefCell;
use std::rc::Rc;

use roxi::rsp::r2s::{Relation2StreamOperator, StreamOperator};
use roxi::rsp::s2r::{CSPARQLWindow, ContentContainer, ContentGraph, Report, ReportStrategy, Tick, Window, WindowTriple};
use roxi::sparql::Binding;


fn b(var: &str, val: &str) -> Binding {
    Binding { var: var.to_string(), val: val.to_string() }
}

#[test]
fn test_window_with_call_back() {
    let mut report = Report::new();
    report.add(ReportStrategy::OnWindowClose);
    let mut window = CSPARQLWindow::new(10, 2, report, Tick::TimeDriven);
    let recieved_data = Rc::new(RefCell::new(Vec::new()));
    let data_clone = recieved_data.clone();
    let call_back = move |content: ContentGraph| {
        println!("Content: {:?}", content);
        recieved_data.borrow_mut().push(content);
    };
    window.register_callback(Box::new(call_back));

    for i in 0..10 {
        let triple = WindowTriple { s: format!("s{}", i), p: "p".to_string(), o: "o".to_string() };
        window.add_to_window(triple, i);
    }

    window.stop();
    assert_eq!(5, (*data_clone.borrow_mut()).len());
}

#[test]
fn window_reports_through_channel() {
    let mut report = Report::new();
    report.add(ReportStrategy::OnWindowClose);
    let mut window: CSPARQLWindow<usize> = CSPARQLWindow::new(10, 2, report, Tick::TimeDriven);
    let receiver = window.register();
    for i in 0..10 {
        window.add_to_window(i, i);
    }
    window.stop();
    let received: Vec<ContentContainer<usize>> = receiver.try_iter().collect();
    assert_eq!(5, received.len());
}

#[test]
fn process_reports_the_latest_closing_window() {
    let mut report = Report::new();
    report.add(ReportStrategy::NonEmptyContent);
    let mut window: CSPARQLWindow<usize> = CSPARQLWindow::new(4, 2, report, Tick::TimeDriven);
    // nothing is reported at the application's starting time
    assert!(window.process(7, 0).is_none());
    // at time 1 the windows as they were before the item: [0,4] holds 7
    let r1 = window.process(8, 1);
    assert!(r1.is_some());
    let content = r1.unwrap();
    assert_eq!(0, content.get_last_timestamp_changed());
    let items: Vec<usize> = content.into_iter().collect();
    assert_eq!(vec![7], items);
    // time does not move back: a second item at time 1 reports nothing
    assert!(window.process(9, 1).is_none());
}

#[test]
fn report_periodic_and_nonempty() {
    let mut report: Report<usize> = Report::new();
    report.add(ReportStrategy::Periodic(5));
    let mut report_empty: Report<usize> = Report::new();
    report_empty.add(ReportStrategy::NonEmptyContent);
    let w = Window { open: 0, close: 10 };
    let mut window: CSPARQLWindow<usize> = CSPARQLWindow::new(10, 5, Report::new(), Tick::TimeDriven);
    assert!(window.process(3, 0).is_none());
    let content = window.process(4, 1).unwrap();
    assert!(report.report(&w, &content, 10));
    assert!(!report.report(&w, &content, 11));
    assert!(report_empty.report(&w, &content, 1));
    let items: Vec<&usize> = content.iter().collect();
    assert_eq!(vec![&3], items);
}

#[test]
fn test_rstream() {
    let new_result = vec![vec![b("?1", "1"), b("?2", "2")], vec![b("?1", "1.2"), b("?2", "2.2")]];
    let mut s2r: Relation2StreamOperator<Vec<Binding>> = Relation2StreamOperator::new(StreamOperator::RSTREAM, 0);
    let expected_result = new_result.clone();
    assert_eq!(expected_result, s2r.eval(new_result, 1));
}

#[test]
fn test_dstream() {
    let old_result = vec![vec![b("?1", "1"), b("?2", "2")], vec![b("?1", "1.2"), b("?2", "2.2")]];
    let new_result = vec![vec![b("?1", "1"), b("?2", "2")], vec![b("?1", "1.3"), b("?2", "2.3")]];
    let expected_deletion = vec![vec![b("?1", "1.2"), b("?2", "2.2")]];
    let mut s2r: Relation2StreamOperator<Vec<Binding>> = Relation2StreamOperator::new(StreamOperator::DSTREAM, 0);
    s2r.eval(old_result, 1);
    assert_eq!(expected_deletion, s2r.eval(new_result, 2));
}

#[test]
fn test_istream() {
    let old_result = vec![vec![b("?1", "1"), b("?2", "2")], vec![b("?1", "1.2"), b("?2", "2.2")]];
    let new_result = vec![vec![b("?1", "1"), b("?2", "2")], vec![b("?1", "1.3"), b("?2", "2.3")]];
    let expected_deletion = vec![vec![b("?1", "1.3"), b("?2", "2.3")]];
    let mut s2r: Relation2StreamOperator<Vec<Binding>> = Relation2StreamOperator::new(StreamOperator::ISTREAM, 0);
    s2r.eval(old_result, 1);
    assert_eq!(expected_deletion, s2r.eval(new_result, 2));
}

#[test]
fn istream_same_instant_accumulates() {
    let mut op: Relation2StreamOperator<u32> = Relation2StreamOperator::new(StreamOperator::ISTREAM, 0);
    assert_eq!(vec![1, 2], op.eval(vec![1, 2], 1));
    // same instant: the answers accumulate and nothing was there before
    assert_eq!(vec![3], op.eval(vec![3], 1));
    // next instant: 1 and 2 and 3 were in the previous answer
    assert_eq!(vec![4], op.eval(vec![1, 4], 2));
}

#[test]
fn first_eval_of_each_operator() {
    let answer = vec![vec![b("?1", "1")], vec![b("?1", "2")]];
    let mut rstream: Relation2StreamOperator<Vec<Binding>> = Relation2StreamOperator::new(StreamOperator::RSTREAM, 0);
    let mut istream: Relation2StreamOperator<Vec<Binding>> = Relation2StreamOperator::new(StreamOperator::ISTREAM, 0);
    let mut dstream: Relation2StreamOperator<Vec<Binding>> = Relation2StreamOperator::new(StreamOperator::DSTREAM, 0);
    assert_eq!(answer.clone(), rstream.eval(answer.clone(), 3));
    assert_eq!(answer.clone(), istream.eval(answer.clone(), 3));
    assert_eq!(Vec::<Vec<Binding>>::new(), dstream.eval(answer, 3));
}

#[test]
fn istream_drops_repeated_rows() {
    let mut istream: Relation2StreamOperator<Vec<Binding>> = Relation2StreamOperator::new(StreamOperator::ISTREAM, 0);
    let row = vec![b("?x", "a")];
    assert_eq!(vec![row.clone(), row.clone()], istream.eval(vec![row.clone(), row.clone()], 1));
    assert_eq!(Vec::<Vec<Binding>>::new(), istream.eval(vec![row.clone()], 2));
}

#[test]
fn bindings_compare_by_text() {
    let x = b("?v", "1");
    assert_eq!(x.clone(), x);
    assert!(b("?v", "1") != b("?v", "2"));
    assert!(b("?v", "1") != b("?w", "1"));
}

#[test]
fn window_triples_compare_by_text() {
    let t = WindowTriple { s: "a".to_string(), p: "b".to_string(), o: "c".to_string() };
    assert_eq!(t.clone(), t);
    let u = WindowTriple { s: "a".to_string(), p: "b".to_string(), o: "d".to_string() };
    assert!(t != u);
}
