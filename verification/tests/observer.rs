use roxi::observer::{ConcreteObserver, IObserver, ISubject, Subject};

#[test]
fn test_observer() {
    let mut subject = Subject::new();
    let observer_a = ConcreteObserver { id: 1, data: 0 };
    let observer_b = ConcreteObserver { id: 2, data: 0 };

    subject.attach(&observer_a);
    subject.attach(&observer_b);
    subject.add_data(1337);
    subject.notify_observers();
    subject.add_data(1339);
    subject.detach(&observer_b);
    subject.notify_observers();
}

#[test]
fn observer_answers_its_value() {
    let mut observer = ConcreteObserver { id: 1, data: 0 };
    observer.update_data(5);
    assert_eq!(vec![5], observer.update(vec![1, 2]));
    assert_eq!(1, observer.id);
}
