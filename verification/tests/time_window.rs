use std::cell::RefCell;
use std::rc::Rc;

use roxi::time_window::{SimpleWindowConsumer, TimeWindow, TimeWindowConsumer};

/// Shares a simple consumer with the test, so that what it received can be
/// looked at.
struct Shared(Rc<RefCell<SimpleWindowConsumer<i32>>>);

impl TimeWindowConsumer<i32> for Shared {
    fn update(&mut self, data: Vec<(i32, Rc<i32>)>, ts: &i32) {
        self.0.borrow_mut().update(data, ts);
    }
}

fn shared_consumer(window: &mut TimeWindow<i32>) -> Rc<RefCell<SimpleWindowConsumer<i32>>> {
    let consumer = Rc::new(RefCell::new(SimpleWindowConsumer::new()));
    window.register_consumer(Box::new(Shared(consumer.clone())));
    consumer
}

#[test]
fn time_window_test_new_window() {
    let window: TimeWindow<i32> = TimeWindow::new(5, 2);
    assert_eq!(window.len(), 0);
}

#[test]
fn time_window_test_add_to_window() {
    let mut window: TimeWindow<i32> = TimeWindow::new(5, 2);
    window.add(100, 0);
    assert_eq!(window.front(), Some(&(0, Rc::from(100))));
}

#[test]
fn time_window_test_window_shift() {
    let mut window: TimeWindow<i32> = TimeWindow::new(2, 2);
    window.add(100, 0);
    window.add(101, 1);
    window.add(102, 2);
    window.add(103, 3);
    window.progress_time_and_extract_content(&3);
    assert_eq!(window.front(), Some(&(2, Rc::from(102))));
}

#[test]
fn time_window_test_window_bound_calculation() {
    let mut window: TimeWindow<i32> = TimeWindow::new(3, 2);
    assert_eq!(false, window.does_window_trigger(2));
    assert_eq!(false, window.does_window_trigger(3));
    assert_eq!(true, window.does_window_trigger(4));
    assert_eq!(true, window.does_window_trigger(5));
    window.update_window_open_time(5);
    assert_eq!(false, window.does_window_trigger(5));
    assert_eq!(true, window.does_window_trigger(6));
    assert_eq!(true, window.does_window_trigger(7));
    window.update_window_open_time(8);
    assert_eq!(false, window.does_window_trigger(9));
    assert_eq!(true, window.does_window_trigger(10));

    let mut window: TimeWindow<i32> = TimeWindow::new(5, 3);
    assert_eq!(false, window.does_window_trigger(2));
    assert_eq!(true, window.does_window_trigger(6));
    window.update_window_open_time(6);
    assert_eq!(false, window.does_window_trigger(7));
    assert_eq!(true, window.does_window_trigger(9));
    window.update_window_open_time(10);
    assert_eq!(false, window.does_window_trigger(11));
    assert_eq!(true, window.does_window_trigger(12));
}

#[test]
fn time_window_test_consumer() {
    let mut window: TimeWindow<i32> = TimeWindow::new(2, 2);
    let consumer = shared_consumer(&mut window);
    assert_eq!(0, consumer.borrow_mut().data.len());
    window.add(100, 0);
    window.add(101, 1);
    window.add(102, 2);
    window.add(103, 3);

    assert_eq!(2, consumer.borrow_mut().data.len());
}

#[test]
fn time_window_test_delete() {
    let mut window: TimeWindow<i32> = TimeWindow::new(2, 2);
    let consumer = shared_consumer(&mut window);
    assert_eq!(0, consumer.borrow_mut().data.len());
    window.add(100, 0);
    window.add(101, 1);
    window.add(102, 2);
    window.add(103, 3);
    assert_eq!(2, window.len());

    assert_eq!(2, consumer.borrow_mut().data.len());
}

#[test]
fn time_window_test_update() {
    let mut window: TimeWindow<i32> = TimeWindow::new(4, 2);
    let consumer = shared_consumer(&mut window);
    assert_eq!(0, consumer.borrow_mut().data.len());
    window.add(100, 0);
    window.add(101, 1);
    window.add(102, 2);
    window.add(103, 3);
    assert_eq!(4, window.len());
    window.add(100, 4);
    window.add(100, 5);

    assert_eq!(4, window.len());
}

#[test]
fn time_window_last_valid_time() {
    let window: TimeWindow<i32> = TimeWindow::new(4, 2);
    assert_eq!(0, window.get_last_valid_time_for(&3));
    assert_eq!(6, window.get_last_valid_time_for(&10));
}

#[test]
fn time_window_consumer_sees_content_after_slide() {
    let mut window: TimeWindow<i32> = TimeWindow::new(3, 1);
    let consumer = shared_consumer(&mut window);
    window.add(1, 1);
    window.add(2, 2);
    window.add(3, 3);
    assert_eq!(0, consumer.borrow_mut().data.len());
    window.add(5, 5);
    // time reaches 5: items stamped at or before 2 fall out
    let data: Vec<(i32, i32)> = consumer.borrow_mut().data.iter().map(|(t, v)| (*t, **v)).collect();
    assert_eq!(vec![(3, 3), (5, 5)], data);
    assert_eq!(2, window.len());
    assert_eq!(window.front(), Some(&(3, Rc::from(3))));
}

#[test]
fn time_window_keeps_duplicates() {
    let mut window: TimeWindow<i32> = TimeWindow::new(10, 1);
    window.add(7, 1);
    window.add(7, 2);
    assert_eq!(2, window.len());
}
