use std::cell::RefCell;
use std::rc::Rc;

use roxi::imars_window::{ImarsWindow, SimpleWindowConsumer, WindowConsumer};

/// Shares a simple consumer with the test, so that what it received can be
/// read after the window handed it over.
struct Shared(Rc<RefCell<SimpleWindowConsumer<i32>>>);

impl WindowConsumer<i32> for Shared {
    fn update(&mut self, new: Vec<(i32, Rc<i32>)>, old: Vec<(i32, Rc<i32>)>, ts: i32) -> Vec<(i32, i32)> {
        self.0.borrow_mut().update(new, old, ts)
    }
}

/// Answers, for every item that fell out, the item plus 1000 stamped at the
/// time of the slide.
struct Echo;

impl WindowConsumer<i32> for Echo {
    fn update(&mut self, _new: Vec<(i32, Rc<i32>)>, old: Vec<(i32, Rc<i32>)>, ts: i32) -> Vec<(i32, i32)> {
        old.iter().map(|(_t, x)| (ts, **x + 1000)).collect()
    }
}

fn shared_consumer(window: &mut ImarsWindow<i32>) -> Rc<RefCell<SimpleWindowConsumer<i32>>> {
    let consumer = Rc::new(RefCell::new(SimpleWindowConsumer::new()));
    window.register_consumer(Box::new(Shared(consumer.clone())));
    consumer
}

#[test]
fn imars_window_doc_examples() {
    let mut window: ImarsWindow<i32> = ImarsWindow::new(2, 2);
    window.add(100, 0);
    window.add(101, 1);
    window.add(102, 2);
    window.add(103, 3);
    assert_eq!(2, window.len());

    let mut window: ImarsWindow<i32> = ImarsWindow::new(4, 2);
    window.add(100, 0);
    window.add(101, 1);
    window.add(102, 2);
    window.add(103, 3);
    assert_eq!(4, window.len());
    window.add(100, 4);
    assert_eq!(4, window.len());
}

#[test]
fn imars_window_test_new_window() {
    let window: ImarsWindow<i32> = ImarsWindow::new(5, 2);
    assert_eq!(window.len(), 0);
}

#[test]
fn imars_window_test_add_to_window() {
    let mut window: ImarsWindow<i32> = ImarsWindow::new(5, 2);
    window.add(100, 0);
    assert_eq!(window.front(), Some(&(0, Rc::from(100))));
}

#[test]
fn imars_window_test_window_shift() {
    let mut window: ImarsWindow<i32> = ImarsWindow::new(2, 2);
    window.add_to_list_and_index(Rc::from(100), 0);
    window.add_to_list_and_index(Rc::from(101), 1);
    window.add_to_list_and_index(Rc::from(102), 2);
    window.add_to_list_and_index(Rc::from(103), 3);
    window.progress_time_and_delete_old(&3);
    assert_eq!(window.front(), Some(&(2, Rc::from(102))));
}

fn bound_calculation(mut window: ImarsWindow<i32>, mut window2: ImarsWindow<i32>) {
    assert_eq!(false, window.does_window_trigger(2));
    assert_eq!(false, window.does_window_trigger(3));
    assert_eq!(true, window.does_window_trigger(4));
    assert_eq!(true, window.does_window_trigger(5));
    window.update_window_open_time(5);
    assert_eq!(false, window.does_window_trigger(5));
    assert_eq!(true, window.does_window_trigger(6));
    assert_eq!(true, window.does_window_trigger(7));
    window.update_window_open_time(8);
    assert_eq!(false, window.does_window_trigger(9));
    assert_eq!(true, window.does_window_trigger(10));

    assert_eq!(false, window2.does_window_trigger(2));
    assert_eq!(true, window2.does_window_trigger(6));
    window2.update_window_open_time(6);
    assert_eq!(false, window2.does_window_trigger(7));
    assert_eq!(true, window2.does_window_trigger(9));
    window2.update_window_open_time(10);
    assert_eq!(false, window2.does_window_trigger(11));
    assert_eq!(true, window2.does_window_trigger(12));
}

#[test]
fn imars_window_test_window_bound_calculation() {
    bound_calculation(ImarsWindow::new(3, 2), ImarsWindow::new(5, 3));
}

#[test]
fn imars_window_test_consumer() {
    let mut window: ImarsWindow<i32> = ImarsWindow::new(2, 2);
    let consumer = shared_consumer(&mut window);
    assert_eq!(0, consumer.borrow_mut().new.len());
    window.add(100, 0);
    window.add(101, 1);
    window.add(102, 2);
    window.add(103, 3);
    assert_eq!(4, consumer.borrow_mut().new.len());
    assert_eq!(2, consumer.borrow_mut().old.len());
}

#[test]
fn imars_window_test_delete() {
    let mut window: ImarsWindow<i32> = ImarsWindow::new(2, 2);
    let consumer = shared_consumer(&mut window);
    assert_eq!(0, consumer.borrow_mut().new.len());
    window.add(100, 0);
    window.add(101, 1);
    window.add(102, 2);
    window.add(103, 3);
    assert_eq!(2, window.len());
    assert_eq!(4, consumer.borrow_mut().new.len());
    assert_eq!(2, consumer.borrow_mut().old.len());
}

#[test]
fn imars_window_test_update() {
    let mut window: ImarsWindow<i32> = ImarsWindow::new(4, 2);
    let consumer = shared_consumer(&mut window);
    assert_eq!(0, consumer.borrow_mut().new.len());
    window.add(100, 0);
    window.add(101, 1);
    window.add(102, 2);
    window.add(103, 3);
    assert_eq!(4, window.len());
    window.add(100, 4);
    assert_eq!(4, window.len());
}

#[test]
fn test_get_timestamp() {
    let mut window: ImarsWindow<i32> = ImarsWindow::new(4, 2);
    let consumer = shared_consumer(&mut window);
    assert_eq!(0, consumer.borrow_mut().new.len());
    window.add(100, 0);
    window.add(101, 1);
    window.add(102, 2);
    window.add(103, 3);
    assert_eq!(4, window.len());
    window.add(100, 4);
    let item = Rc::new(100);
    assert_eq!(4, window.get_time_stamp(item).unwrap());
}

#[test]
fn imars_test_new_window() {
    let window: ImarsWindow<i32> = ImarsWindow::new(5, 2);
    assert_eq!(window.len(), 0);
}

#[test]
fn imars_test_add_to_window() {
    let mut window: ImarsWindow<i32> = ImarsWindow::new(5, 2);
    window.add(100, 0);
    assert_eq!(window.front(), Some(&(0, Rc::from(100))));
}

#[test]
fn imars_test_window_shift() {
    let mut window: ImarsWindow<i32> = ImarsWindow::new(2, 2);
    window.add_to_list_and_index(Rc::from(100), 0);
    window.add_to_list_and_index(Rc::from(101), 1);
    window.add_to_list_and_index(Rc::from(102), 2);
    window.add_to_list_and_index(Rc::from(103), 3);
    window.progress_time_and_delete_old(&3);
    assert_eq!(window.front(), Some(&(2, Rc::from(102))));
}

#[test]
fn imars_test_window_bound_calculation() {
    bound_calculation(ImarsWindow::new(3, 2), ImarsWindow::new(5, 3));
}

#[test]
fn imars_test_consumer() {
    let mut window: ImarsWindow<i32> = ImarsWindow::new(2, 2);
    let consumer = shared_consumer(&mut window);
    assert_eq!(0, consumer.borrow_mut().new.len());
    window.add(100, 0);
    window.add(101, 1);
    window.add(102, 2);
    window.add(103, 3);
    assert_eq!(4, consumer.borrow_mut().new.len());
    assert_eq!(2, consumer.borrow_mut().old.len());
}

#[test]
fn imars_test_delete() {
    let mut window: ImarsWindow<i32> = ImarsWindow::new(2, 2);
    let consumer = shared_consumer(&mut window);
    assert_eq!(0, consumer.borrow_mut().new.len());
    window.add(100, 0);
    window.add(101, 1);
    window.add(102, 2);
    window.add(103, 3);
    assert_eq!(2, window.len());
    assert_eq!(4, consumer.borrow_mut().new.len());
    assert_eq!(2, consumer.borrow_mut().old.len());
}

#[test]
fn imars_test_update() {
    let mut window: ImarsWindow<i32> = ImarsWindow::new(4, 2);
    let consumer = shared_consumer(&mut window);
    assert_eq!(0, consumer.borrow_mut().new.len());
    window.add(100, 0);
    window.add(101, 1);
    window.add(102, 2);
    window.add(103, 3);
    assert_eq!(4, window.len());
    window.add(100, 4);
    assert_eq!(4, window.len());
}

#[test]
fn test_throughput() {
    let mut window: ImarsWindow<i32> = ImarsWindow::new(1000, 10);
    let consumer = shared_consumer(&mut window);
    assert_eq!(0, consumer.borrow_mut().new.len());
    for i in 1..1000 {
        window.add(i, i);
    }
    assert_eq!(999, window.len());
}

#[test]
fn consumer_answers_are_added_back() {
    let mut window: ImarsWindow<i32> = ImarsWindow::new(2, 2);
    window.register_consumer(Box::new(Echo));
    window.add(1, 0);
    window.add(2, 1);
    window.add(3, 3);
    // 1 and 2 fell out (stamped at or before 3 - 2); 1001 and 1002 came
    // back stamped 3
    assert_eq!(Some(3), window.get_time_stamp(Rc::new(1001)));
    assert_eq!(Some(3), window.get_time_stamp(Rc::new(1002)));
    assert_eq!(None, window.get_time_stamp(Rc::new(1)));
    assert_eq!(None, window.get_time_stamp(Rc::new(2)));
    assert_eq!(3, window.len());
}

#[test]
fn add_after_and_remove_old() {
    let mut window: ImarsWindow<i32> = ImarsWindow::new_no_window();
    window.add_without_update(Rc::new(1), 1);
    window.add_without_update(Rc::new(3), 3);
    window.add_after(Rc::new(2), Rc::new(1), 2);
    window.add_after(Rc::new(9), Rc::new(7), 9);
    assert_eq!(3, window.len());
    let old = window.remove_old_elements(&2);
    assert_eq!(vec![(1, Rc::new(1)), (2, Rc::new(2))], old);
    assert_eq!(Some(&(3, Rc::new(3))), window.front());
    window.add_in_between(Rc::new(3), 5);
    assert_eq!(Some(5), window.get_time_stamp(Rc::new(3)));
}
