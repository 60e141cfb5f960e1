use std::cell::RefCell;
use std::rc::Rc;

use roxi::parser::Parser;
use roxi::pipeline::WindowReasoner;
use roxi::time_window::{TimeWindow, TimeWindowConsumer};
use roxi::triples::Triple;

/// Hands a window's content to a shared reasoner.
struct Driver(Rc<RefCell<WindowReasoner>>);

impl TimeWindowConsumer<Triple> for Driver {
    fn update(&mut self, data: Vec<(i32, Rc<Triple>)>, ts: &i32) {
        self.0.borrow_mut().update(data, ts);
    }
}

#[test]
fn pipeline_test_transitive() {
    let mut window = TimeWindow::new(4, 2);

    let data = "{?a in ?b.?b in ?c}=>{?a in ?c}\n\
        :1 in :0.\n\
        :2 in :1.\n\
        :3 in :2.\n\
        :4 in :3.\n\
        :5 in :4.\n\
        :6 in :5";

    let mut reasoner = WindowReasoner::new();

    let (content, rules) = Parser::parse(data.to_string(), &mut reasoner.store.encoder);
    reasoner.store.add_rules(rules);
    let consumer = Rc::new(RefCell::new(reasoner));
    window.register_consumer(Box::new(Driver(consumer.clone())));

    content.into_iter().enumerate().for_each(|(i, t)| window.add(t, i as i32));

    assert_eq!(10, consumer.borrow_mut().store.len());
}

#[test]
fn test_compute_diff() {
    let mut window = TimeWindow::new(4, 2);

    let data = "{?a in ?b.?b in ?c}=>{?a in ?c}\n\
        :1 in :0.\n\
        :2 in :1.\n\
        :3 in :2.\n\
        :4 in :3.\n\
        :5 in :4.\n\
        :6 in :5.\n\
        :7 in :6.\n\
        :8 in :7.\n\
        :9 in :8";

    let mut reasoner = WindowReasoner::new();

    let (content, rules) = Parser::parse(data.to_string(), &mut reasoner.store.encoder);
    reasoner.store.add_rules(rules);
    let consumer = Rc::new(RefCell::new(reasoner));
    window.register_consumer(Box::new(Driver(consumer.clone())));

    content.into_iter().enumerate().for_each(|(i, t)| window.add(t, i as i32));

    assert_eq!(10, consumer.borrow_mut().store.len());
}

#[test]
fn diff_of_overlapping_contents() {
    let mut reasoner = WindowReasoner::new();
    let (content, _rules) = Parser::parse(":1 in :0.\n:2 in :1.\n:3 in :2.\n:4 in :3".to_string(), &mut reasoner.store.encoder);
    let t: Vec<Rc<Triple>> = content.into_iter().map(Rc::new).collect();
    let old = vec![(0, t[0].clone()), (1, t[1].clone()), (2, t[2].clone())];
    let new = vec![(1, t[1].clone()), (2, t[2].clone()), (3, t[3].clone())];
    let (additions, removals) = WindowReasoner::compute_diff(&new, &old);
    assert_eq!(vec![(3, t[3].clone())], additions);
    assert_eq!(vec![(0, t[0].clone())], removals);
    let (additions, removals) = WindowReasoner::compute_diff(&new, &Vec::new());
    assert_eq!(new, additions);
    assert!(removals.is_empty());
    let (additions, removals) = WindowReasoner::compute_diff(&Vec::new(), &old);
    assert!(additions.is_empty());
    assert_eq!(old, removals);
}
