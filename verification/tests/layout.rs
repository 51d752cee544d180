use rudoku::rudoku::{
    fixed, Graph, Observed, ObservedExt, Observer, Observers, Request, StateValue, Value,
};
use rudoku::text;
use rudoku::text::{
    blank, border, clear, decorated, horizontal_line, position, positioned_text, vertical_line,
};
use std::cell::Cell;

struct Tally {
    calls: Cell<usize>,
}

impl Observer<(i32, i32)> for Tally {
    fn update(&self, _graph: &Graph<(i32, i32)>) -> Vec<Request<(i32, i32)>> {
        self.calls.set(self.calls.get() + 1);
        Vec::new()
    }
}

fn read<S: Observed<i32, T = String>>(source: S) -> String {
    let mut graph: Graph<i32> = Graph::new();
    source.value(&mut graph, 0).get(&graph)
}

fn lines(text: &[&str]) -> Vec<String> {
    text.iter().map(|line| line.to_string()).collect()
}

#[test]
fn a_position_is_an_escape_sequence_of_row_and_column() {
    assert_eq!(position(1, 1), "\x1b[1;1H");
    assert_eq!(position(12, 345), "\x1b[12;345H");
    assert_eq!(position(0, 10), "\x1b[0;10H");
    assert_eq!(position(-3, 100), "\x1b[-3;100H");
    assert_eq!(position(i32::MIN, i32::MAX), "\x1b[-2147483648;2147483647H");
    for (row, column) in [(7, 9), (-1, 0), (1000, -1000), (99, 101)] {
        assert_eq!(position(row, column), format!("\x1b[{};{}H", row, column));
    }
}

#[test]
fn lines_and_blanks_have_the_length_asked_for() {
    assert_eq!(text::line(0), "");
    assert_eq!(text::line(1), "=");
    assert_eq!(text::line(5), "=====");
    assert_eq!(blank(0), "");
    assert_eq!(blank(3), "   ");
}

#[test]
fn a_positioned_text_follows_its_position() {
    let mut graph: Graph<i32> = Graph::new();
    let observers: Observers<TallyOfInts> = Observers::new();
    let mut cell = StateValue::new(&mut graph, 1);
    let text = cell.map(|n: i32| format!("n={}", n));
    let handle = positioned_text(fixed((2, 5)), text).value(&mut graph, 0);
    assert_eq!(handle.get(&graph), "\x1b[2;5Hn=1");
    cell.set(&mut graph, 42, &observers);
    assert_eq!(handle.get(&graph), "\x1b[2;5Hn=42");
}

struct TallyOfInts {
    calls: Cell<usize>,
}

impl Observer<i32> for TallyOfInts {
    fn update(&self, _graph: &Graph<i32>) -> Vec<Request<i32>> {
        self.calls.set(self.calls.get() + 1);
        Vec::new()
    }
}

#[test]
fn a_horizontal_line_is_a_positioned_rule() {
    assert_eq!(read(horizontal_line(fixed((1, 1)), fixed(4))), "\x1b[1;1H====");
    assert_eq!(read(horizontal_line(fixed((3, 2)), fixed(0))), "\x1b[3;2H");
}

#[test]
fn a_vertical_line_has_one_bar_in_each_row() {
    assert_eq!(
        read(vertical_line(fixed((2, 3)), fixed(3))),
        "\x1b[2;3H|\x1b[3;3H|\x1b[4;3H|"
    );
    assert_eq!(read(vertical_line(fixed((2, 3)), fixed(1))), "\x1b[2;3H|");
    assert_eq!(read(vertical_line(fixed((2, 3)), fixed(0))), "");
    assert_eq!(read(vertical_line(fixed((2, 3)), fixed(-4))), "");
    assert_eq!(
        read(vertical_line(fixed((i32::MAX - 1, 1)), fixed(2))),
        "\x1b[2147483646;1H|\x1b[2147483647;1H|"
    );
}

#[test]
fn clearing_writes_spaces_into_every_row() {
    assert_eq!(read(clear(fixed((1, 1)), fixed((2, 2)))), "\x1b[1;1H  \x1b[2;1H  ");
    assert_eq!(
        read(clear(fixed((5, 7)), fixed((3, 1)))),
        "\x1b[5;7H   "
    );
    assert_eq!(read(clear(fixed((5, 7)), fixed((0, 2)))), "\x1b[5;7H\x1b[6;7H");
    assert_eq!(read(clear(fixed((5, 7)), fixed((3, 0)))), "");
    assert_eq!(read(clear(fixed((5, 7)), fixed((-3, 0)))), "");
}

#[test]
fn a_border_has_two_rules_and_two_columns_of_bars() {
    let expected = concat_all(&[
        "\x1b[1;1H====",
        "\x1b[3;1H====",
        "\x1b[1;1H|\x1b[2;1H|\x1b[3;1H|",
        "\x1b[1;4H|\x1b[2;4H|\x1b[3;4H|",
    ]);
    assert_eq!(read(border(fixed((1, 1)), fixed((4, 3)))), expected);

    let shifted = concat_all(&[
        "\x1b[10;20H==",
        "\x1b[10;20H==",
        "\x1b[10;20H|",
        "\x1b[10;21H|",
    ]);
    assert_eq!(read(border(fixed((10, 20)), fixed((2, 1)))), shifted);
}

fn concat_all(parts: &[&str]) -> String {
    let mut all = String::new();
    for part in parts {
        all.push_str(part);
    }
    all
}

#[test]
fn a_border_follows_its_dimensions_and_subscribes_for_every_use() {
    let mut graph: Graph<(i32, i32)> = Graph::new();
    let mut observers: Observers<Tally> = Observers::new();
    let mut dim = StateValue::new(&mut graph, (4, 3));
    let o = observers.add(Tally { calls: Cell::new(0) });
    let handle = border(fixed((1, 1)), dim).value(&mut graph, o);
    assert_eq!(dim.subscriptions(&graph), 6);
    assert_eq!(
        handle.get(&graph),
        concat_all(&[
            "\x1b[1;1H====",
            "\x1b[3;1H====",
            "\x1b[1;1H|\x1b[2;1H|\x1b[3;1H|",
            "\x1b[1;4H|\x1b[2;4H|\x1b[3;4H|",
        ])
    );
    assert_eq!(dim.set(&mut graph, (1, 2), &observers), 6);
    assert_eq!(observers.get(o).unwrap().calls.get(), 6);
    assert_eq!(
        handle.get(&graph),
        concat_all(&["\x1b[1;1H=", "\x1b[2;1H=", "\x1b[1;1H|\x1b[2;1H|", "\x1b[1;1H|\x1b[2;1H|"])
    );
}

#[test]
fn a_decorated_text_is_cleared_framed_and_written() {
    let mut graph: Graph<i32> = Graph::new();
    let cell = StateValue::new(&mut graph, 0);
    let text = cell.map(|_: i32| lines(&["ab", "c"]));
    let handle = decorated(fixed((1, 1)), text).value(&mut graph, 0);
    let expected = concat_all(&[
        // cleared: six rows of six spaces
        "\x1b[1;1H      \x1b[2;1H      \x1b[3;1H      ",
        "\x1b[4;1H      \x1b[5;1H      \x1b[6;1H      ",
        // framed
        "\x1b[1;1H======",
        "\x1b[6;1H======",
        "\x1b[1;1H|\x1b[2;1H|\x1b[3;1H|\x1b[4;1H|\x1b[5;1H|\x1b[6;1H|",
        "\x1b[1;6H|\x1b[2;6H|\x1b[3;6H|\x1b[4;6H|\x1b[5;6H|\x1b[6;6H|",
        // written
        "\x1b[3;3Hab\x1b[4;3Hc",
    ]);
    assert_eq!(handle.get(&graph), expected);
    // clearing, the border and the lines subscribe 2 + 6 + 1 times
    assert_eq!(cell.subscriptions(&graph), 8);
}

#[test]
fn a_decorated_text_is_as_wide_as_its_longest_line_in_bytes() {
    let mut graph: Graph<i32> = Graph::new();
    let observers: Observers<TallyOfInts> = Observers::new();
    let mut cell = StateValue::new(&mut graph, 0);
    let text = cell.map(|n: i32| if n == 0 { lines(&["é"]) } else { lines(&["abc"]) });
    let handle = decorated(fixed((2, 3)), text).value(&mut graph, 0);
    // one line of two bytes: six wide, five high
    let two_bytes = concat_all(&[
        "\x1b[2;3H      \x1b[3;3H      \x1b[4;3H      \x1b[5;3H      \x1b[6;3H      ",
        "\x1b[2;3H======",
        "\x1b[6;3H======",
        "\x1b[2;3H|\x1b[3;3H|\x1b[4;3H|\x1b[5;3H|\x1b[6;3H|",
        "\x1b[2;8H|\x1b[3;8H|\x1b[4;8H|\x1b[5;8H|\x1b[6;8H|",
        "\x1b[4;5Hé",
    ]);
    assert_eq!(handle.get(&graph), two_bytes);
    cell.set(&mut graph, 1, &observers);
    let three_bytes = concat_all(&[
        "\x1b[2;3H       \x1b[3;3H       \x1b[4;3H       \x1b[5;3H       \x1b[6;3H       ",
        "\x1b[2;3H=======",
        "\x1b[6;3H=======",
        "\x1b[2;3H|\x1b[3;3H|\x1b[4;3H|\x1b[5;3H|\x1b[6;3H|",
        "\x1b[2;9H|\x1b[3;9H|\x1b[4;9H|\x1b[5;9H|\x1b[6;9H|",
        "\x1b[4;5Habc",
    ]);
    assert_eq!(handle.get(&graph), three_bytes);
}
