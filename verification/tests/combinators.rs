use rudoku::rudoku::{
    fixed, pull, FixedValue, Graph, Observed, ObservedExt, Observer, ObserverId, Observers,
    Request, StateValue, StateValueValue, Value, ValueExt, ValueMap,
};
use std::cell::Cell;
use std::rc::Rc;

struct Tally {
    calls: Cell<usize>,
}

impl Tally {
    fn new() -> Tally {
        Tally { calls: Cell::new(0) }
    }
}

impl Observer<i32> for Tally {
    fn update(&self, _graph: &Graph<i32>) -> Vec<Request<i32>> {
        self.calls.set(self.calls.get() + 1);
        Vec::new()
    }
}

/// A source over one cell that counts how often it is asked for a value.
struct Counted {
    cell: StateValue<i32>,
    evaluations: Rc<Cell<usize>>,
}

impl Observed<i32> for Counted {
    type T = i32;
    type V = StateValueValue<i32>;

    fn value(&self, graph: &mut Graph<i32>, observer: ObserverId) -> StateValueValue<i32> {
        self.evaluations.set(self.evaluations.get() + 1);
        self.cell.value(graph, observer)
    }
}

/// A source that labels its handles "A", "B", ... in the order in which
/// they are asked for; a handle reads its label, followed by the value of
/// the cell once that is no longer zero.
struct Lettered {
    cell: StateValue<i32>,
    next: Rc<Cell<u8>>,
}

fn labelled(letter: char, n: i32) -> String {
    if n == 0 {
        letter.to_string()
    } else {
        format!("{}{}", letter, n)
    }
}

impl Observed<i32> for Lettered {
    type T = String;
    type V = ValueMap<StateValueValue<i32>, Box<dyn Fn(i32) -> String>>;

    fn value(&self, graph: &mut Graph<i32>, observer: ObserverId) -> Self::V {
        let letter = (b'A' + self.next.get()) as char;
        self.next.set(self.next.get() + 1);
        let render: Box<dyn Fn(i32) -> String> = Box::new(move |n| labelled(letter, n));
        self.cell.value(graph, observer).map(render)
    }
}

#[test]
fn a_fixed_source_reads_its_constant_and_subscribes_nowhere() {
    let mut graph: Graph<i32> = Graph::new();
    let cell = StateValue::new(&mut graph, 0);
    let handle = fixed(5u8).value(&mut graph, 0);
    assert_eq!(handle.get(&graph), 5);
    assert_eq!(handle.get(&graph), 5);
    assert_eq!(cell.subscriptions(&graph), 0);
    let copy: FixedValue<u8> = handle;
    assert_eq!(Value::<i32>::get(&copy, &graph), 5);
}

#[test]
fn reading_twice_without_a_set_gives_the_same() {
    let mut graph: Graph<i32> = Graph::new();
    let observers: Observers<Tally> = Observers::new();
    let mut cell = StateValue::new(&mut graph, 3);
    let other = StateValue::new(&mut graph, 4);
    let plain = cell.value(&mut graph, 0);
    let derived = cell.map(|n| n * n).join(other).value(&mut graph, 0);
    assert_eq!(plain.get(&graph), plain.get(&graph));
    assert_eq!(derived.get(&graph), derived.get(&graph));
    assert_eq!(derived.get(&graph), (9, 4));
    cell.set(&mut graph, 5, &observers);
    assert_eq!(derived.get(&graph), derived.get(&graph));
    assert_eq!(derived.get(&graph), (25, 4));
}

#[test]
fn a_mapped_handle_reads_the_function_of_what_is_underneath() {
    let mut graph: Graph<i32> = Graph::new();
    let observers: Observers<Tally> = Observers::new();
    let mut cell = StateValue::new(&mut graph, 0);
    let f = |n: i32| 3 * n + 1;
    let underneath = cell.value(&mut graph, 0);
    let by_handle = cell.value(&mut graph, 0).map(f);
    let by_source = cell.map(f).value(&mut graph, 0);
    for v in [0, 1, -7, 1000] {
        cell.set(&mut graph, v, &observers);
        assert_eq!(by_handle.get(&graph), f(underneath.get(&graph)));
        assert_eq!(by_source.get(&graph), f(underneath.get(&graph)));
        assert_eq!(by_source.get(&graph), 3 * v + 1);
    }
}

#[test]
fn a_mapped_source_applies_its_function_on_every_read() {
    let mut graph: Graph<i32> = Graph::new();
    let cell = StateValue::new(&mut graph, 2);
    let applied = Rc::new(Cell::new(0usize));
    let counter = Rc::clone(&applied);
    let handle = cell
        .map(move |n: i32| {
            counter.set(counter.get() + 1);
            n + 1
        })
        .value(&mut graph, 0);
    assert_eq!(applied.get(), 0);
    assert_eq!(handle.get(&graph), 3);
    assert_eq!(handle.get(&graph), 3);
    assert_eq!(applied.get(), 2);
}

#[test]
fn mapping_subscribes_where_the_mapped_source_does() {
    let mut graph: Graph<i32> = Graph::new();
    let mut observers: Observers<Tally> = Observers::new();
    let mut cell = StateValue::new(&mut graph, 2);
    let o = observers.add(Tally::new());
    let _handle = cell.map(|n: i32| n + 1).map(|n: i32| n * 2).value(&mut graph, o);
    assert_eq!(cell.subscriptions(&graph), 1);
    assert_eq!(cell.set(&mut graph, 1, &observers), 1);
    assert_eq!(observers.get(o).unwrap().calls.get(), 1);
}

#[test]
fn a_joined_handle_reads_both_sides() {
    let mut graph: Graph<i32> = Graph::new();
    let observers: Observers<Tally> = Observers::new();
    let mut a = StateValue::new(&mut graph, 1);
    let mut b = StateValue::new(&mut graph, 2);
    let left = a.value(&mut graph, 0);
    let right = b.value(&mut graph, 0);
    let joined = a.join(b).value(&mut graph, 0);
    let paired = a.value(&mut graph, 0).join(b.value(&mut graph, 0));
    assert_eq!(joined.get(&graph), (1, 2));
    a.set(&mut graph, 10, &observers);
    assert_eq!(joined.get(&graph), (left.get(&graph), right.get(&graph)));
    assert_eq!(joined.get(&graph), (10, 2));
    b.set(&mut graph, 20, &observers);
    assert_eq!(joined.get(&graph), (left.get(&graph), right.get(&graph)));
    assert_eq!(paired.get(&graph), (10, 20));
}

#[test]
fn joining_subscribes_the_same_observer_to_both_sides() {
    let mut graph: Graph<i32> = Graph::new();
    let mut observers: Observers<Tally> = Observers::new();
    let mut a = StateValue::new(&mut graph, 1);
    let mut b = StateValue::new(&mut graph, 2);
    let o = observers.add(Tally::new());
    let _joined = a.join(b).value(&mut graph, o);
    assert_eq!(a.subscriptions(&graph), 1);
    assert_eq!(b.subscriptions(&graph), 1);
    assert_eq!(a.set(&mut graph, 5, &observers), 1);
    assert_eq!(observers.get(o).unwrap().calls.get(), 1);
    assert_eq!(b.set(&mut graph, 6, &observers), 1);
    assert_eq!(observers.get(o).unwrap().calls.get(), 2);
}

#[test]
fn joining_a_source_with_itself_subscribes_twice() {
    let mut graph: Graph<i32> = Graph::new();
    let mut observers: Observers<Tally> = Observers::new();
    let mut a = StateValue::new(&mut graph, 1);
    let o = observers.add(Tally::new());
    let both = a.join(a).value(&mut graph, o);
    assert_eq!(a.subscriptions(&graph), 2);
    assert_eq!(a.set(&mut graph, 5, &observers), 2);
    assert_eq!(observers.get(o).unwrap().calls.get(), 2);
    assert_eq!(both.get(&graph), (5, 5));
}

#[test]
fn a_split_source_is_evaluated_once_for_four_branches() {
    let mut graph: Graph<i32> = Graph::new();
    let mut observers: Observers<Tally> = Observers::new();
    let mut cell = StateValue::new(&mut graph, 1);
    let evaluations = Rc::new(Cell::new(0usize));
    let source = Counted { cell, evaluations: Rc::clone(&evaluations) };
    let o = observers.add(Tally::new());

    let split = source.split(&mut graph, o);
    let branches = [split.take(), split.take(), split.take(), split.take()];
    assert_eq!(cell.set(&mut graph, 8, &observers), 1);
    for branch in branches.iter() {
        assert_eq!(branch.get(&graph), 8);
    }
    assert_eq!(evaluations.get(), 1);
    assert_eq!(cell.subscriptions(&graph), 1);
    assert_eq!(observers.get(o).unwrap().calls.get(), 1);
}

#[test]
fn without_a_split_every_branch_evaluates_the_source() {
    let mut graph: Graph<i32> = Graph::new();
    let mut observers: Observers<Tally> = Observers::new();
    let mut cell = StateValue::new(&mut graph, 1);
    let evaluations = Rc::new(Cell::new(0usize));
    let source = Counted { cell, evaluations: Rc::clone(&evaluations) };
    let o = observers.add(Tally::new());
    for _ in 0..4 {
        source.value(&mut graph, o);
    }
    assert_eq!(evaluations.get(), 4);
    assert_eq!(cell.set(&mut graph, 8, &observers), 4);
}

#[test]
fn branches_of_a_split_read_the_same_before_and_after_a_set() {
    let mut graph: Graph<i32> = Graph::new();
    let mut observers: Observers<Tally> = Observers::new();
    let mut cell = StateValue::new(&mut graph, 0);
    let o = observers.add(Tally::new());
    let next = Rc::new(Cell::new(0u8));
    let source = Lettered { cell, next: Rc::clone(&next) };

    let split = source.split(&mut graph, o);
    let first = split.take();
    let second = split.value(&mut graph, o);
    assert_eq!(first.get(&graph), "A");
    assert_eq!(second.get(&graph), "A");

    assert_eq!(cell.set(&mut graph, 1, &observers), 1);
    assert_eq!(first.get(&graph), "A1");
    assert_eq!(second.get(&graph), "A1");
    assert!(Rc::ptr_eq(&first, &second));

    // asked directly, the source goes on to its next label
    let direct = Lettered { cell, next }.value(&mut graph, o);
    assert_eq!(direct.get(&graph), "B1");
}

#[test]
fn a_split_source_feeds_combinators_without_subscribing_again() {
    let mut graph: Graph<i32> = Graph::new();
    let mut observers: Observers<Tally> = Observers::new();
    let mut cell = StateValue::new(&mut graph, 2);
    let o = observers.add(Tally::new());
    let split = cell.split(&mut graph, o);
    let sum = split
        .clone()
        .join(split.clone())
        .map(|pair: (i32, i32)| pair.0 + pair.1)
        .value(&mut graph, o);
    let square = split.map(|n: i32| n * n).value(&mut graph, o);
    assert_eq!(cell.subscriptions(&graph), 1);
    assert_eq!((sum.get(&graph), square.get(&graph)), (4, 4));
    assert_eq!(cell.set(&mut graph, 3, &observers), 1);
    assert_eq!((sum.get(&graph), square.get(&graph)), (6, 9));
}

#[test]
fn a_fused_source_tells_its_function_the_observer() {
    let mut graph: Graph<i32> = Graph::new();
    let mut observers: Observers<Tally> = Observers::new();
    let mut cell = StateValue::new(&mut graph, 5);
    let o0 = observers.add(Tally::new());
    let o1 = observers.add(Tally::new());
    let fused = cell.fuse(|observer: ObserverId, n: i32| (observer, n + 1));
    let for0 = fused.value(&mut graph, o0);
    let for1 = fused.value(&mut graph, o1);
    assert_eq!(for0.get(&graph), (0, 6));
    assert_eq!(for1.get(&graph), (1, 6));
    assert_eq!(pull(&for1, &graph), for1.get(&graph));
    assert_eq!(cell.subscriptions(&graph), 2);
    assert_eq!(cell.set(&mut graph, 7, &observers), 2);
    assert_eq!(for0.get(&graph), (0, 8));
    assert_eq!(for1.get(&graph), (1, 8));
}

#[test]
fn clones_of_combinators_behave_like_their_source() {
    let mut graph: Graph<i32> = Graph::new();
    let mut observers: Observers<Tally> = Observers::new();
    let mut cell = StateValue::new(&mut graph, 5);
    let o = observers.add(Tally::new());
    let mapped = cell.map(|n: i32| n - 1);
    let again = mapped.clone();
    let fused = cell.fuse(|_: ObserverId, n: i32| n + 1);
    let fused_again = fused.clone();
    let a = mapped.value(&mut graph, o);
    let b = again.value(&mut graph, o);
    let c = fused.value(&mut graph, o);
    let d = fused_again.value(&mut graph, o);
    assert_eq!(cell.set(&mut graph, 10, &observers), 4);
    assert_eq!((a.get(&graph), b.get(&graph)), (9, 9));
    assert_eq!((c.get(&graph), d.get(&graph)), (11, 11));
}
