use rudoku::rudoku::{
    Graph, Observed, Observer, Observers, Request, StateValue, StateValueValue, Value,
};
use std::cell::RefCell;
use std::rc::Rc;

struct Recorder {
    name: usize,
    log: Rc<RefCell<Vec<usize>>>,
    handle: RefCell<Option<StateValueValue<i32>>>,
    seen: RefCell<Vec<i32>>,
    wishes: RefCell<Vec<Request<i32>>>,
}

impl Recorder {
    fn new(name: usize, log: &Rc<RefCell<Vec<usize>>>) -> Recorder {
        Recorder {
            name,
            log: Rc::clone(log),
            handle: RefCell::new(None),
            seen: RefCell::new(Vec::new()),
            wishes: RefCell::new(Vec::new()),
        }
    }
}

impl Observer<i32> for Recorder {
    fn update(&self, graph: &Graph<i32>) -> Vec<Request<i32>> {
        self.log.borrow_mut().push(self.name);
        if let Some(handle) = self.handle.borrow().as_ref() {
            self.seen.borrow_mut().push(handle.get(graph));
        }
        self.wishes.borrow_mut().drain(..).collect()
    }
}

fn calls_of(log: &Rc<RefCell<Vec<usize>>>, name: usize) -> usize {
    log.borrow().iter().filter(|n| **n == name).count()
}

#[test]
fn two_observers_are_notified_once_and_read_the_new_value() {
    let log = Rc::new(RefCell::new(Vec::new()));
    let mut graph: Graph<i32> = Graph::new();
    let mut observers: Observers<Recorder> = Observers::new();
    let mut cell = StateValue::new(&mut graph, 0);
    let o1 = observers.add(Recorder::new(1, &log));
    let o2 = observers.add(Recorder::new(2, &log));
    let before1 = cell.value(&mut graph, o1);
    let before2 = cell.value(&mut graph, o2);
    assert_eq!(before1.get(&graph), 0);
    assert_eq!(before2.get(&graph), 0);

    let notified = cell.set(&mut graph, 1, &observers);

    assert_eq!(notified, 2);
    assert_eq!(calls_of(&log, 1), 1);
    assert_eq!(calls_of(&log, 2), 1);
    assert_eq!(before1.get(&graph), 1);
    assert_eq!(before2.get(&graph), 1);
    let after = cell.value(&mut graph, o1);
    assert_eq!(after.get(&graph), 1);
}

#[test]
fn every_live_observer_is_notified_exactly_once() {
    for n in 0..6usize {
        let log = Rc::new(RefCell::new(Vec::new()));
        let mut graph: Graph<i32> = Graph::new();
        let mut observers: Observers<Recorder> = Observers::new();
        let mut cell = StateValue::new(&mut graph, 0);
        for name in 0..n {
            let id = observers.add(Recorder::new(name, &log));
            cell.value(&mut graph, id);
        }
        assert_eq!(cell.set(&mut graph, 9, &observers), n);
        assert_eq!(log.borrow().len(), n);
        for name in 0..n {
            assert_eq!(calls_of(&log, name), 1);
        }
    }
}

#[test]
fn observers_are_notified_in_the_order_of_subscription() {
    let log = Rc::new(RefCell::new(Vec::new()));
    let mut graph: Graph<i32> = Graph::new();
    let mut observers: Observers<Recorder> = Observers::new();
    let mut cell = StateValue::new(&mut graph, 0);
    let a = observers.add(Recorder::new(10, &log));
    let b = observers.add(Recorder::new(20, &log));
    let c = observers.add(Recorder::new(30, &log));
    cell.value(&mut graph, c);
    cell.value(&mut graph, a);
    cell.value(&mut graph, b);
    assert_eq!(cell.set(&mut graph, 1, &observers), 3);
    assert_eq!(*log.borrow(), vec![30, 10, 20]);
}

#[test]
fn a_released_observer_is_neither_notified_nor_kept() {
    let log = Rc::new(RefCell::new(Vec::new()));
    let mut graph: Graph<i32> = Graph::new();
    let mut observers: Observers<Recorder> = Observers::new();
    let mut cell = StateValue::new(&mut graph, 0);
    let o1 = observers.add(Recorder::new(1, &log));
    let o2 = observers.add(Recorder::new(2, &log));
    let o3 = observers.add(Recorder::new(3, &log));
    cell.value(&mut graph, o1);
    cell.value(&mut graph, o2);
    cell.value(&mut graph, o3);
    assert_eq!(cell.set(&mut graph, 1, &observers), 3);
    assert_eq!(cell.subscriptions(&graph), 3);

    let gone = observers.release(o2);
    assert!(gone.is_some());
    assert_eq!(gone.unwrap().name, 2);
    assert!(!observers.is_alive(o2));
    // pruning is lazy: the entry stays until the next notify pass
    assert_eq!(cell.subscriptions(&graph), 3);

    log.borrow_mut().clear();
    assert_eq!(cell.set(&mut graph, 2, &observers), 2);
    assert_eq!(*log.borrow(), vec![1, 3]);
    assert_eq!(cell.subscriptions(&graph), 2);

    log.borrow_mut().clear();
    assert_eq!(cell.set(&mut graph, 3, &observers), 2);
    assert_eq!(*log.borrow(), vec![1, 3]);
}

#[test]
fn a_source_without_subscribers_notifies_nobody() {
    let mut graph: Graph<i32> = Graph::new();
    let observers: Observers<Recorder> = Observers::new();
    let mut cell = StateValue::new(&mut graph, 4);
    assert_eq!(cell.set(&mut graph, 5, &observers), 0);
    assert_eq!(cell.subscriptions(&graph), 0);
}

#[test]
fn an_observer_that_subscribed_twice_is_notified_twice() {
    let log = Rc::new(RefCell::new(Vec::new()));
    let mut graph: Graph<i32> = Graph::new();
    let mut observers: Observers<Recorder> = Observers::new();
    let mut cell = StateValue::new(&mut graph, 0);
    let o = observers.add(Recorder::new(7, &log));
    cell.value(&mut graph, o);
    cell.value(&mut graph, o);
    assert_eq!(cell.set(&mut graph, 1, &observers), 2);
    assert_eq!(*log.borrow(), vec![7, 7]);
}

#[test]
fn an_observer_pulls_the_new_value_during_the_notify_pass() {
    let log = Rc::new(RefCell::new(Vec::new()));
    let mut graph: Graph<i32> = Graph::new();
    let mut observers: Observers<Recorder> = Observers::new();
    let mut cell = StateValue::new(&mut graph, 0);
    let o = observers.add(Recorder::new(1, &log));
    let handle = cell.value(&mut graph, o);
    *observers.get(o).unwrap().handle.borrow_mut() = Some(handle);
    cell.set(&mut graph, 11, &observers);
    cell.set(&mut graph, 12, &observers);
    assert_eq!(*observers.get(o).unwrap().seen.borrow(), vec![11, 12]);
}

#[test]
fn sources_of_one_graph_are_independent() {
    let log = Rc::new(RefCell::new(Vec::new()));
    let mut graph: Graph<i32> = Graph::new();
    let mut observers: Observers<Recorder> = Observers::new();
    let mut first = StateValue::new(&mut graph, 1);
    let mut second = StateValue::new(&mut graph, 2);
    assert_eq!(graph.len(), 2);
    let o1 = observers.add(Recorder::new(1, &log));
    let o2 = observers.add(Recorder::new(2, &log));
    let h1 = first.value(&mut graph, o1);
    let h2 = second.value(&mut graph, o2);
    assert_eq!(first.set(&mut graph, 10, &observers), 1);
    assert_eq!(*log.borrow(), vec![1]);
    assert_eq!(h1.get(&graph), 10);
    assert_eq!(h2.get(&graph), 2);
    assert_eq!(second.set(&mut graph, 20, &observers), 1);
    assert_eq!(*log.borrow(), vec![1, 2]);
    assert_eq!(h2.get(&graph), 20);
}

#[test]
fn a_copy_of_a_source_names_the_same_source() {
    let log = Rc::new(RefCell::new(Vec::new()));
    let mut graph: Graph<i32> = Graph::new();
    let mut observers: Observers<Recorder> = Observers::new();
    let reader = StateValue::new(&mut graph, 0);
    let mut writer = reader.clone();
    let o = observers.add(Recorder::new(1, &log));
    let handle = reader.value(&mut graph, o);
    assert_eq!(writer.set(&mut graph, 3, &observers), 1);
    assert_eq!(handle.get(&graph), 3);
}

#[test]
fn the_arena_hands_out_each_identity_once() {
    let log = Rc::new(RefCell::new(Vec::new()));
    let mut observers: Observers<Recorder> = Observers::new();
    assert!(!observers.is_alive(0));
    assert!(observers.get(0).is_none());
    let a = observers.add(Recorder::new(1, &log));
    let b = observers.add(Recorder::new(2, &log));
    assert_eq!((a, b), (0, 1));
    assert!(observers.is_alive(a) && observers.is_alive(b));
    assert_eq!(observers.get(b).unwrap().name, 2);
    assert!(observers.release(a).is_some());
    assert!(observers.release(a).is_none());
    assert!(observers.release(5).is_none());
    let c = observers.add(Recorder::new(3, &log));
    assert_eq!(c, 2);
    assert!(!observers.is_alive(a));
    assert!(observers.get(a).is_none());
    assert!(observers.is_alive(c));
}

#[test]
fn an_observer_never_sees_the_old_value() {
    let log = Rc::new(RefCell::new(Vec::new()));
    let mut graph: Graph<i32> = Graph::new();
    let mut observers: Observers<Recorder> = Observers::new();
    let mut cell = StateValue::new(&mut graph, 0);
    let o = observers.add(Recorder::new(1, &log));
    let handle = cell.value(&mut graph, o);
    *observers.get(o).unwrap().handle.borrow_mut() = Some(handle);
    assert!(observers.get(o).unwrap().seen.borrow().is_empty());
    assert_eq!(cell.set(&mut graph, 5, &observers), 1);
    assert_eq!(*observers.get(o).unwrap().seen.borrow(), vec![5]);
}

#[test]
fn a_subscription_asked_for_during_a_pass_is_made_when_the_pass_is_over() {
    let log = Rc::new(RefCell::new(Vec::new()));
    let mut graph: Graph<i32> = Graph::new();
    let mut observers: Observers<Recorder> = Observers::new();
    let mut cell = StateValue::new(&mut graph, 0);
    let first = observers.add(Recorder::new(1, &log));
    let second = observers.add(Recorder::new(2, &log));
    let late = observers.add(Recorder::new(3, &log));
    cell.value(&mut graph, first);
    cell.value(&mut graph, second);
    observers
        .get(first)
        .unwrap()
        .wishes
        .borrow_mut()
        .push(Request::Subscribe { cell: cell.index(), observer: late });

    // the pass reaches those who had subscribed before it, each once
    assert_eq!(cell.set(&mut graph, 1, &observers), 2);
    assert_eq!(*log.borrow(), vec![1, 2]);
    // and the new entry is there when `set` returns
    assert_eq!(cell.subscriptions(&graph), 3);

    log.borrow_mut().clear();
    assert_eq!(cell.set(&mut graph, 2, &observers), 3);
    assert_eq!(*log.borrow(), vec![1, 2, 3]);
}

#[test]
fn a_set_asked_for_during_a_pass_waits_in_the_queue() {
    let log = Rc::new(RefCell::new(Vec::new()));
    let mut graph: Graph<i32> = Graph::new();
    let mut observers: Observers<Recorder> = Observers::new();
    let mut cell = StateValue::new(&mut graph, 0);
    let other = StateValue::new(&mut graph, 100);
    let watcher = observers.add(Recorder::new(1, &log));
    let dependent = observers.add(Recorder::new(2, &log));
    cell.value(&mut graph, watcher);
    let reading = other.value(&mut graph, dependent);
    observers
        .get(watcher)
        .unwrap()
        .wishes
        .borrow_mut()
        .push(Request::Assign { cell: other.index(), value: 101 });

    assert!(graph.next_set().is_none());
    assert_eq!(cell.set(&mut graph, 1, &observers), 1);
    assert_eq!(*log.borrow(), vec![1]);
    // nothing was set behind the back of the pass
    assert_eq!(reading.get(&graph), 100);

    let mut done = 0;
    while let Some((mut source, value)) = graph.next_set() {
        assert!(source.index() < graph.len());
        assert_eq!(source.set(&mut graph, value, &observers), 1);
        done += 1;
    }
    assert_eq!(done, 1);
    assert_eq!(reading.get(&graph), 101);
    assert_eq!(*log.borrow(), vec![1, 2]);
    assert!(graph.next_set().is_none());
}

#[test]
fn requests_are_served_in_their_order() {
    let mut graph: Graph<i32> = Graph::new();
    let a = StateValue::new(&mut graph, 0);
    let b = StateValue::new(&mut graph, 0);
    graph.serve(&vec![
        Request::Assign { cell: b.index(), value: 7 },
        Request::Subscribe { cell: a.index(), observer: 4 },
        Request::Subscribe { cell: 9, observer: 4 },
        Request::Assign { cell: a.index(), value: 8 },
        Request::Subscribe { cell: a.index(), observer: 5 },
    ]);
    assert_eq!(a.subscriptions(&graph), 2);
    assert_eq!(b.subscriptions(&graph), 0);
    let (first, value) = graph.next_set().unwrap();
    assert_eq!((first.index(), value), (b.index(), 7));
    let (second, value) = graph.next_set().unwrap();
    assert_eq!((second.index(), value), (a.index(), 8));
    assert!(graph.next_set().is_none());
}
