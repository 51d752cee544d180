use crate::rudoku::{
    clones_alike, lemma_map_clones_alike, lemma_map_steady, steady, Observed, ObservedExt,
    ObservedMap,
};
use vstd::prelude::*;
use vstd::utf8::encode_utf8;

verus! {

/// `String::push` appends one character to the string.
pub assume_specification[ String::push ](s: &mut String, c: char)
    ensures
        final(s)@ == old(s)@.push(c),
;

/// `String::push_str` appends the characters of `other` to the string.
pub assume_specification[ String::push_str ](s: &mut String, other: &str)
    ensures
        final(s)@ == old(s)@ + other@,
;

/// The character that stands for the digit `d`.
pub open spec fn digit(d: nat) -> char
    recommends
        d < 10,
{
    if d == 0 {
        '0'
    } else if d == 1 {
        '1'
    } else if d == 2 {
        '2'
    } else if d == 3 {
        '3'
    } else if d == 4 {
        '4'
    } else if d == 5 {
        '5'
    } else if d == 6 {
        '6'
    } else if d == 7 {
        '7'
    } else if d == 8 {
        '8'
    } else {
        '9'
    }
}

/// The decimal digits of `n`, most significant first, without leading zeros.
pub open spec fn digits(n: nat) -> Seq<char>
    decreases n,
{
    if n < 10 {
        seq![digit(n)]
    } else {
        digits(n / 10).push(digit(n % 10))
    }
}

/// `n` in decimal, with a minus sign in front if it is negative.
pub open spec fn decimal(n: int) -> Seq<char> {
    if n < 0 {
        seq!['-'] + digits((-n) as nat)
    } else {
        digits(n as nat)
    }
}

/// The escape sequence that moves the cursor to `row` and `column`.
pub open spec fn position_seq(row: int, column: int) -> Seq<char> {
    seq!['\x1b', '['] + decimal(row) + seq![';'] + decimal(column) + seq!['H']
}

/// `length` times the character `c`.
pub open spec fn repeated(c: char, length: int) -> Seq<char> {
    Seq::new(length as nat, |i: int| c)
}

/// `cell` written once in each of `height` rows, from `row` downwards, each
/// time at `column`.
pub open spec fn column_seq(row: int, column: int, height: int, cell: Seq<char>) -> Seq<char>
    decreases height,
{
    if height <= 0 {
        Seq::empty()
    } else {
        column_seq(row, column, height - 1, cell) + position_seq(row + height - 1, column) + cell
    }
}

fn digit_char(d: u32) -> (c: char)
    requires
        d < 10,
    ensures
        c == digit(d as nat),
{
    if d == 0 {
        '0'
    } else if d == 1 {
        '1'
    } else if d == 2 {
        '2'
    } else if d == 3 {
        '3'
    } else if d == 4 {
        '4'
    } else if d == 5 {
        '5'
    } else if d == 6 {
        '6'
    } else if d == 7 {
        '7'
    } else if d == 8 {
        '8'
    } else {
        '9'
    }
}

fn push_digits(s: &mut String, n: u32)
    ensures
        final(s)@ == old(s)@ + digits(n as nat),
    decreases n,
{
    if n >= 10 {
        push_digits(s, n / 10);
    }
    s.push(digit_char(n % 10));
    assert(s@ =~= old(s)@ + digits(n as nat));
}

fn push_decimal(s: &mut String, n: i32)
    ensures
        final(s)@ == old(s)@ + decimal(n as int),
{
    if n < 0 {
        s.push('-');
        let magnitude: u32 = (-(n as i64)) as u32;
        push_digits(s, magnitude);
        assert(s@ =~= old(s)@ + decimal(n as int));
    } else {
        push_digits(s, n as u32);
    }
}

fn push_position(s: &mut String, row: i32, column: i32)
    ensures
        final(s)@ == old(s)@ + position_seq(row as int, column as int),
{
    s.push('\x1b');
    s.push('[');
    push_decimal(s, row);
    s.push(';');
    push_decimal(s, column);
    s.push('H');
    assert(s@ =~= old(s)@ + position_seq(row as int, column as int));
}

fn push_repeated(s: &mut String, c: char, length: i32)
    requires
        0 <= length,
    ensures
        final(s)@ == old(s)@ + repeated(c, length as int),
{
    let mut i: i32 = 0;
    while i < length
        invariant
            0 <= i <= length,
            s@ == old(s)@ + repeated(c, i as int),
        decreases length - i,
    {
        s.push(c);
        i += 1;
        assert(s@ =~= old(s)@ + repeated(c, i as int));
    }
    assert(old(s)@ + repeated(c, 0) =~= old(s)@) by {
        assert(repeated(c, 0) =~= Seq::<char>::empty());
    }
}

/// The escape sequence that moves the cursor to `row` and `column`.
pub fn position(row: i32, column: i32) -> (r: String)
    ensures
        r@ == position_seq(row as int, column as int),
{
    let mut r = String::new();
    push_position(&mut r, row, column);
    assert(r@ =~= position_seq(row as int, column as int));
    r
}

/// A horizontal rule of `length` characters.
pub fn line(length: i32) -> (r: String)
    requires
        0 <= length,
    ensures
        r@ == repeated('=', length as int),
{
    let mut r = String::new();
    push_repeated(&mut r, '=', length);
    assert(r@ =~= repeated('=', length as int));
    r
}

/// `length` spaces.
pub fn blank(length: i32) -> (r: String)
    requires
        0 <= length,
    ensures
        r@ == repeated(' ', length as int),
{
    let mut r = String::new();
    push_repeated(&mut r, ' ', length);
    assert(r@ =~= repeated(' ', length as int));
    r
}

/// A text with the escape sequence in front that moves the cursor to where
/// the text belongs.
pub open spec fn positioned_seq(pos: (i32, i32), text: Seq<char>) -> Seq<char> {
    position_seq(pos.0 as int, pos.1 as int) + text
}

/// A source of texts, each written at the position that `pos` gives at the
/// time.
pub fn positioned_text<P, A: Observed<P, T = (i32, i32)>, B: Observed<P, T = String>>(
    pos: A,
    text: B,
) -> (r: impl Observed<P, T = String>)
    ensures
        r.sources() == pos.sources() + text.sources(),
        forall|values: Seq<P>|
            pos.usable(values) && text.usable(values) ==> #[trigger] r.usable(values),
        forall|values: Seq<P>, s: String| #[trigger]
            r.yields(values, s) ==> exists|p: (i32, i32), t: String|
                #![trigger pos.yields(values, p), text.yields(values, t)]
                pos.yields(values, p) && text.yields(values, t) && s@ == positioned_seq(p, t@),
{
    let render = |input: ((i32, i32), String)| -> (s: String)
        ensures
            s@ == positioned_seq(input.0, input.1@),
        {
            let mut s = String::new();
            push_position(&mut s, input.0.0, input.0.1);
            s.push_str(input.1.as_str());
            assert(s@ =~= positioned_seq(input.0, input.1@));
            s
        };
    let joined = pos.join(text);
    let r = joined.map(render);
    proof {
        assert forall|values: Seq<P>, s: String| #[trigger] r.yields(values, s) implies exists|
            p: (i32, i32),
            t: String,
        |
            #![trigger pos.yields(values, p), text.yields(values, t)]
            pos.yields(values, p) && text.yields(values, t) && s@ == positioned_seq(p, t@) by {
            let u = choose|u: ((i32, i32), String)| #[trigger]
                joined.yields(values, u) && call_ensures(render, (u,), s);
            assert(pos.yields(values, u.0) && text.yields(values, u.1));
        }
    }
    r
}

/// A source of horizontal rules, each as wide as `width` says and written at
/// the position that `pos` gives.
pub fn horizontal_line<P, A: Observed<P, T = (i32, i32)>, B: Observed<P, T = i32>>(
    pos: A,
    width: B,
) -> (r: impl Observed<P, T = String>)
    ensures
        r.sources() == pos.sources() + width.sources(),
        forall|values: Seq<P>|
            pos.usable(values) && width.usable(values) && (forall|w: i32| #[trigger]
                width.yields(values, w) ==> 0 <= w) ==> #[trigger] r.usable(values),
        forall|values: Seq<P>, s: String| #[trigger]
            r.yields(values, s) ==> exists|p: (i32, i32), w: i32|
                #![trigger pos.yields(values, p), width.yields(values, w)]
                pos.yields(values, p) && width.yields(values, w) && s@ == positioned_seq(
                    p,
                    repeated('=', w as int),
                ),
{
    let rule = |w: i32| -> (s: String)
        requires
            0 <= w,
        ensures
            s@ == repeated('=', w as int),
        { line(w) };
    let rules = width.map(rule);
    let r = positioned_text(pos, rules);
    proof {
        assert forall|values: Seq<P>, s: String| #[trigger] r.yields(values, s) implies exists|
            p: (i32, i32),
            w: i32,
        |
            #![trigger pos.yields(values, p), width.yields(values, w)]
            pos.yields(values, p) && width.yields(values, w) && s@ == positioned_seq(
                p,
                repeated('=', w as int),
            ) by {
            let (p, t) = choose|p: (i32, i32), t: String|
                #![trigger pos.yields(values, p), rules.yields(values, t)]
                pos.yields(values, p) && rules.yields(values, t) && s@ == positioned_seq(p, t@);
            let w = choose|w: i32| #[trigger]
                width.yields(values, w) && call_ensures(rule, (w,), t);
            assert(pos.yields(values, p) && width.yields(values, w));
        }
    }
    r
}

/// Whether the rows from `row` down to the last of `height` rows can be
/// numbered.
pub open spec fn rows_fit(row: int, height: int) -> bool {
    height > 0 ==> row + height - 1 <= i32::MAX
}

/// `cell` written once in each of `height` rows, from `row` downwards, each
/// time at `column`.
fn stacked(row: i32, column: i32, height: i32, cell: &str) -> (r: String)
    requires
        rows_fit(row as int, height as int),
    ensures
        r@ == column_seq(row as int, column as int, height as int, cell@),
{
    let mut r = String::new();
    let mut i: i32 = 0;
    while i < height
        invariant
            0 <= i,
            height > 0 ==> i <= height,
            height <= 0 ==> i == 0,
            rows_fit(row as int, height as int),
            r@ == column_seq(row as int, column as int, i as int, cell@),
        decreases height - i,
    {
        push_position(&mut r, row + i, column);
        r.push_str(cell);
        i += 1;
    }
    r
}

/// A source of vertical rules, each as high as `height` says and starting at
/// the position that `pos` gives.
pub fn vertical_line<P, A: Observed<P, T = (i32, i32)>, B: Observed<P, T = i32>>(
    pos: A,
    height: B,
) -> (r: impl Observed<P, T = String>)
    ensures
        r.sources() == pos.sources() + height.sources(),
        forall|values: Seq<P>|
            pos.usable(values) && height.usable(values) && (forall|p: (i32, i32), h: i32|
                #![trigger pos.yields(values, p), height.yields(values, h)]
                pos.yields(values, p) && height.yields(values, h) ==> rows_fit(
                    p.0 as int,
                    h as int,
                )) ==> #[trigger] r.usable(values),
        forall|values: Seq<P>, s: String| #[trigger]
            r.yields(values, s) ==> exists|p: (i32, i32), h: i32|
                #![trigger pos.yields(values, p), height.yields(values, h)]
                pos.yields(values, p) && height.yields(values, h) && s@ == column_seq(
                    p.0 as int,
                    p.1 as int,
                    h as int,
                    seq!['|'],
                ),
{
    let render = |input: ((i32, i32), i32)| -> (s: String)
        requires
            rows_fit(input.0.0 as int, input.1 as int),
        ensures
            s@ == column_seq(input.0.0 as int, input.0.1 as int, input.1 as int, seq!['|']),
        {
            proof {
                reveal_strlit("|");
                assert("|"@ =~= seq!['|']);
            }
            stacked(input.0.0, input.0.1, input.1, "|")
        };
    let joined = pos.join(height);
    let r = joined.map(render);
    proof {
        assert forall|values: Seq<P>|
            pos.usable(values) && height.usable(values) && (forall|p: (i32, i32), h: i32|
                #![trigger pos.yields(values, p), height.yields(values, h)]
                pos.yields(values, p) && height.yields(values, h) ==> rows_fit(
                    p.0 as int,
                    h as int,
                )) implies #[trigger] r.usable(values) by {
            assert forall|u: ((i32, i32), i32)| #[trigger]
                joined.yields(values, u) implies call_requires(render, (u,)) by {
                assert(pos.yields(values, u.0) && height.yields(values, u.1));
            }
        }
        assert forall|values: Seq<P>, s: String| #[trigger] r.yields(values, s) implies exists|
            p: (i32, i32),
            h: i32,
        |
            #![trigger pos.yields(values, p), height.yields(values, h)]
            pos.yields(values, p) && height.yields(values, h) && s@ == column_seq(
                p.0 as int,
                p.1 as int,
                h as int,
                seq!['|'],
            ) by {
            let u = choose|u: ((i32, i32), i32)| #[trigger]
                joined.yields(values, u) && call_ensures(render, (u,), s);
            assert(pos.yields(values, u.0) && height.yields(values, u.1));
        }
    }
    r
}

/// Whether a block of the dimensions `dim`, width first, can be cleared from
/// `pos` downwards.
pub open spec fn clear_fits(pos: (i32, i32), dim: (i32, i32)) -> bool {
    dim.1 > 0 ==> 0 <= dim.0 && rows_fit(pos.0 as int, dim.1 as int)
}

/// What clears a block of the dimensions `dim`, width first, whose upper
/// left corner is `pos`: a run of spaces in each of its rows.
pub open spec fn clear_seq(pos: (i32, i32), dim: (i32, i32)) -> Seq<char> {
    column_seq(pos.0 as int, pos.1 as int, dim.1 as int, repeated(' ', dim.0 as int))
}

/// A source of texts, each of which clears the block that `pos` and `dim`
/// describe at the time.
pub fn clear<P, A: Observed<P, T = (i32, i32)>, B: Observed<P, T = (i32, i32)>>(
    pos: A,
    dim: B,
) -> (r: impl Observed<P, T = String>)
    ensures
        r.sources() == pos.sources() + dim.sources(),
        forall|values: Seq<P>|
            pos.usable(values) && dim.usable(values) && (forall|p: (i32, i32), d: (i32, i32)|
                #![trigger pos.yields(values, p), dim.yields(values, d)]
                pos.yields(values, p) && dim.yields(values, d) ==> clear_fits(p, d))
                ==> #[trigger] r.usable(values),
        forall|values: Seq<P>, s: String| #[trigger]
            r.yields(values, s) ==> exists|p: (i32, i32), d: (i32, i32)|
                #![trigger pos.yields(values, p), dim.yields(values, d)]
                pos.yields(values, p) && dim.yields(values, d) && s@ == clear_seq(p, d),
{
    let render = |input: ((i32, i32), (i32, i32))| -> (s: String)
        requires
            clear_fits(input.0, input.1),
        ensures
            s@ == clear_seq(input.0, input.1),
        {
            if input.1.1 > 0 {
                let spaces = blank(input.1.0);
                stacked(input.0.0, input.0.1, input.1.1, spaces.as_str())
            } else {
                String::new()
            }
        };
    let joined = pos.join(dim);
    let r = joined.map(render);
    proof {
        assert forall|values: Seq<P>|
            pos.usable(values) && dim.usable(values) && (forall|p: (i32, i32), d: (i32, i32)|
                #![trigger pos.yields(values, p), dim.yields(values, d)]
                pos.yields(values, p) && dim.yields(values, d) ==> clear_fits(p, d))
                implies #[trigger] r.usable(values) by {
            assert forall|u: ((i32, i32), (i32, i32))| #[trigger]
                joined.yields(values, u) implies call_requires(render, (u,)) by {
                assert(pos.yields(values, u.0) && dim.yields(values, u.1));
            }
        }
        assert forall|values: Seq<P>, s: String| #[trigger] r.yields(values, s) implies exists|
            p: (i32, i32),
            d: (i32, i32),
        |
            #![trigger pos.yields(values, p), dim.yields(values, d)]
            pos.yields(values, p) && dim.yields(values, d) && s@ == clear_seq(p, d) by {
            let u = choose|u: ((i32, i32), (i32, i32))| #[trigger]
                joined.yields(values, u) && call_ensures(render, (u,), s);
            assert(pos.yields(values, u.0) && dim.yields(values, u.1));
        }
    }
    r
}

/// A source of texts, each a text of `first` followed by one of `second`.
fn appended<P, A: Observed<P, T = String>, B: Observed<P, T = String>>(first: A, second: B) -> (r:
    impl Observed<P, T = String>)
    ensures
        r.sources() == first.sources() + second.sources(),
        forall|values: Seq<P>|
            first.usable(values) && second.usable(values) ==> #[trigger] r.usable(values),
        forall|values: Seq<P>, s: String| #[trigger]
            r.yields(values, s) ==> exists|a: String, b: String|
                #![trigger first.yields(values, a), second.yields(values, b)]
                first.yields(values, a) && second.yields(values, b) && s@ == a@ + b@,
{
    let glue = |input: (String, String)| -> (s: String)
        ensures
            s@ == input.0@ + input.1@,
        {
            let mut s = String::new();
            s.push_str(input.0.as_str());
            s.push_str(input.1.as_str());
            assert(s@ =~= input.0@ + input.1@);
            s
        };
    let joined = first.join(second);
    let r = joined.map(glue);
    proof {
        assert forall|values: Seq<P>, s: String| #[trigger] r.yields(values, s) implies exists|
            a: String,
            b: String,
        |
            #![trigger first.yields(values, a), second.yields(values, b)]
            first.yields(values, a) && second.yields(values, b) && s@ == a@ + b@ by {
            let u = choose|u: (String, String)| #[trigger]
                joined.yields(values, u) && call_ensures(glue, (u,), s);
            assert(first.yields(values, u.0) && second.yields(values, u.1));
        }
    }
    r
}

/// A source of the widths of the dimensions that `dim` gives.
fn widths<P, B: Observed<P, T = (i32, i32)>>(dim: B) -> (r: impl Observed<P, T = i32>)
    ensures
        r.sources() == dim.sources(),
        forall|values: Seq<P>| dim.usable(values) ==> #[trigger] r.usable(values),
        forall|values: Seq<P>, w: i32| #[trigger]
            r.yields(values, w) ==> exists|d: (i32, i32)| #[trigger]
                dim.yields(values, d) && w == d.0,
{
    let width = |d: (i32, i32)| -> (w: i32)
        ensures
            w == d.0,
        { d.0 };
    let r = dim.map(width);
    proof {
        assert forall|values: Seq<P>, w: i32| #[trigger] r.yields(values, w) implies exists|
            d: (i32, i32),
        | #[trigger] dim.yields(values, d) && w == d.0 by {
            let d = choose|d: (i32, i32)| #[trigger]
                dim.yields(values, d) && call_ensures(width, (d,), w);
            assert(dim.yields(values, d) && w == d.0);
        }
    }
    r
}

/// A source of the heights of the dimensions that `dim` gives.
fn heights<P, B: Observed<P, T = (i32, i32)>>(dim: B) -> (r: impl Observed<P, T = i32>)
    ensures
        r.sources() == dim.sources(),
        forall|values: Seq<P>| dim.usable(values) ==> #[trigger] r.usable(values),
        forall|values: Seq<P>, h: i32| #[trigger]
            r.yields(values, h) ==> exists|d: (i32, i32)| #[trigger]
                dim.yields(values, d) && h == d.1,
{
    let height = |d: (i32, i32)| -> (h: i32)
        ensures
            h == d.1,
        { d.1 };
    let r = dim.map(height);
    proof {
        assert forall|values: Seq<P>, h: i32| #[trigger] r.yields(values, h) implies exists|
            d: (i32, i32),
        | #[trigger] dim.yields(values, d) && h == d.1 by {
            let d = choose|d: (i32, i32)| #[trigger]
                dim.yields(values, d) && call_ensures(height, (d,), h);
            assert(dim.yields(values, d) && h == d.1);
        }
    }
    r
}

/// Whether the last of `extent` rows or columns that start at `start` can
/// be numbered.
pub open spec fn last_fits(start: int, extent: int) -> bool {
    i32::MIN <= start + extent - 1 <= i32::MAX
}

/// The last of `extent` rows or columns that start at `start`.
fn last_of(start: i32, extent: i32) -> (r: i32)
    requires
        last_fits(start as int, extent as int),
    ensures
        r == start + extent - 1,
{
    let wide: i64 = start as i64 + extent as i64 - 1;
    wide as i32
}

/// A source of the positions of the lower left corners of the blocks that
/// `pos` and `dim` describe.
fn lower_left<P, A: Observed<P, T = (i32, i32)>, B: Observed<P, T = (i32, i32)>>(
    pos: A,
    dim: B,
) -> (r: impl Observed<P, T = (i32, i32)>)
    ensures
        r.sources() == pos.sources() + dim.sources(),
        forall|values: Seq<P>|
            pos.usable(values) && dim.usable(values) && (forall|p: (i32, i32), d: (i32, i32)|
                #![trigger pos.yields(values, p), dim.yields(values, d)]
                pos.yields(values, p) && dim.yields(values, d) ==> last_fits(
                    p.0 as int,
                    d.1 as int,
                )) ==> #[trigger] r.usable(values),
        forall|values: Seq<P>, q: (i32, i32)| #[trigger]
            r.yields(values, q) ==> exists|p: (i32, i32), d: (i32, i32)|
                #![trigger pos.yields(values, p), dim.yields(values, d)]
                pos.yields(values, p) && dim.yields(values, d) && q.0 == p.0 + d.1 - 1 && q.1
                    == p.1,
{
    let corner = |input: ((i32, i32), (i32, i32))| -> (q: (i32, i32))
        requires
            last_fits(input.0.0 as int, input.1.1 as int),
        ensures
            q.0 == input.0.0 + input.1.1 - 1,
            q.1 == input.0.1,
        { (last_of(input.0.0, input.1.1), input.0.1) };
    let joined = pos.join(dim);
    let r = joined.map(corner);
    proof {
        assert forall|values: Seq<P>|
            pos.usable(values) && dim.usable(values) && (forall|p: (i32, i32), d: (i32, i32)|
                #![trigger pos.yields(values, p), dim.yields(values, d)]
                pos.yields(values, p) && dim.yields(values, d) ==> last_fits(
                    p.0 as int,
                    d.1 as int,
                )) implies #[trigger] r.usable(values) by {
            assert forall|u: ((i32, i32), (i32, i32))| #[trigger]
                joined.yields(values, u) implies call_requires(corner, (u,)) by {
                assert(pos.yields(values, u.0) && dim.yields(values, u.1));
            }
        }
        assert forall|values: Seq<P>, q: (i32, i32)| #[trigger] r.yields(values, q) implies exists|
            p: (i32, i32),
            d: (i32, i32),
        |
            #![trigger pos.yields(values, p), dim.yields(values, d)]
            pos.yields(values, p) && dim.yields(values, d) && q.0 == p.0 + d.1 - 1 && q.1
                == p.1 by {
            let u = choose|u: ((i32, i32), (i32, i32))| #[trigger]
                joined.yields(values, u) && call_ensures(corner, (u,), q);
            assert(pos.yields(values, u.0) && dim.yields(values, u.1));
        }
    }
    r
}

/// A source of the positions of the upper right corners of the blocks that
/// `pos` and `dim` describe.
fn upper_right<P, A: Observed<P, T = (i32, i32)>, B: Observed<P, T = (i32, i32)>>(
    pos: A,
    dim: B,
) -> (r: impl Observed<P, T = (i32, i32)>)
    ensures
        r.sources() == pos.sources() + dim.sources(),
        forall|values: Seq<P>|
            pos.usable(values) && dim.usable(values) && (forall|p: (i32, i32), d: (i32, i32)|
                #![trigger pos.yields(values, p), dim.yields(values, d)]
                pos.yields(values, p) && dim.yields(values, d) ==> last_fits(
                    p.1 as int,
                    d.0 as int,
                )) ==> #[trigger] r.usable(values),
        forall|values: Seq<P>, q: (i32, i32)| #[trigger]
            r.yields(values, q) ==> exists|p: (i32, i32), d: (i32, i32)|
                #![trigger pos.yields(values, p), dim.yields(values, d)]
                pos.yields(values, p) && dim.yields(values, d) && q.0 == p.0 && q.1 == p.1 + d.0
                    - 1,
{
    let corner = |input: ((i32, i32), (i32, i32))| -> (q: (i32, i32))
        requires
            last_fits(input.0.1 as int, input.1.0 as int),
        ensures
            q.0 == input.0.0,
            q.1 == input.0.1 + input.1.0 - 1,
        { (input.0.0, last_of(input.0.1, input.1.0)) };
    let joined = pos.join(dim);
    let r = joined.map(corner);
    proof {
        assert forall|values: Seq<P>|
            pos.usable(values) && dim.usable(values) && (forall|p: (i32, i32), d: (i32, i32)|
                #![trigger pos.yields(values, p), dim.yields(values, d)]
                pos.yields(values, p) && dim.yields(values, d) ==> last_fits(
                    p.1 as int,
                    d.0 as int,
                )) implies #[trigger] r.usable(values) by {
            assert forall|u: ((i32, i32), (i32, i32))| #[trigger]
                joined.yields(values, u) implies call_requires(corner, (u,)) by {
                assert(pos.yields(values, u.0) && dim.yields(values, u.1));
            }
        }
        assert forall|values: Seq<P>, q: (i32, i32)| #[trigger] r.yields(values, q) implies exists|
            p: (i32, i32),
            d: (i32, i32),
        |
            #![trigger pos.yields(values, p), dim.yields(values, d)]
            pos.yields(values, p) && dim.yields(values, d) && q.0 == p.0 && q.1 == p.1 + d.0
                - 1 by {
            let u = choose|u: ((i32, i32), (i32, i32))| #[trigger]
                joined.yields(values, u) && call_ensures(corner, (u,), q);
            assert(pos.yields(values, u.0) && dim.yields(values, u.1));
        }
    }
    r
}

/// Whether the corners of a block of the dimensions `dim`, width first,
/// whose upper left corner is `pos`, can be numbered.
pub open spec fn border_fits(pos: (i32, i32), dim: (i32, i32)) -> bool {
    last_fits(pos.0 as int, dim.1 as int) && last_fits(pos.1 as int, dim.0 as int)
}

/// The border of a block of the dimensions `dim`, width first, whose upper
/// left corner is `pos`: the upper rule, the lower rule, the left rule and
/// the right rule.
pub open spec fn border_seq(pos: (i32, i32), dim: (i32, i32)) -> Seq<char> {
    positioned_seq(pos, repeated('=', dim.0 as int)) + (position_seq(
        pos.0 + dim.1 - 1,
        pos.1 as int,
    ) + repeated('=', dim.0 as int)) + column_seq(
        pos.0 as int,
        pos.1 as int,
        dim.1 as int,
        seq!['|'],
    ) + column_seq(pos.0 as int, pos.1 + dim.0 - 1, dim.1 as int, seq!['|'])
}

/// Where a border subscribes its observer, given where the position and the
/// dimensions subscribe it: once for each use that the four rules make of
/// the two.
pub open spec fn border_sources(pos: Seq<usize>, dim: Seq<usize>) -> Seq<usize> {
    (pos + dim) + ((pos + dim) + dim) + (pos + dim) + ((pos + dim) + dim)
}

/// A source of borders, each around the block that `pos` and `dim` describe
/// at the time.
pub fn border<
    P,
    A: Observed<P, T = (i32, i32)> + Clone,
    B: Observed<P, T = (i32, i32)> + Clone,
>(pos: A, dim: B) -> (r: impl Observed<P, T = String>)
    requires
        clones_alike(pos),
        clones_alike(dim),
    ensures
        r.sources() == border_sources(pos.sources(), dim.sources()),
        forall|values: Seq<P>|
            pos.usable(values) && dim.usable(values) && (forall|d: (i32, i32)| #[trigger]
                dim.yields(values, d) ==> 0 <= d.0) && (forall|p: (i32, i32), d: (i32, i32)|
                #![trigger pos.yields(values, p), dim.yields(values, d)]
                pos.yields(values, p) && dim.yields(values, d) ==> border_fits(p, d))
                ==> #[trigger] r.usable(values),
        forall|values: Seq<P>, s: String| #[trigger]
            r.yields(values, s) && steady(pos, values) && steady(dim, values) ==> exists|
                p: (i32, i32),
                d: (i32, i32),
            |
                #![trigger pos.yields(values, p), dim.yields(values, d)]
                pos.yields(values, p) && dim.yields(values, d) && s@ == border_seq(p, d),
{
    let pos_top = pos.clone();
    let pos_bottom = pos.clone();
    let pos_left = pos.clone();
    let dim_top = dim.clone();
    let dim_bottom = dim.clone();
    let dim_bottom_width = dim.clone();
    let dim_left = dim.clone();
    let dim_right = dim.clone();
    proof {
        assert(cloned(pos, pos_top) && cloned(pos, pos_bottom) && cloned(pos, pos_left));
        assert(cloned(dim, dim_top) && cloned(dim, dim_bottom) && cloned(dim, dim_bottom_width));
        assert(cloned(dim, dim_left) && cloned(dim, dim_right));
    }
    let top_widths = widths(dim_top);
    let top = horizontal_line(pos_top, top_widths);
    let bottom_corner = lower_left(pos_bottom, dim_bottom);
    let bottom_widths = widths(dim_bottom_width);
    let bottom = horizontal_line(bottom_corner, bottom_widths);
    let rules = appended(top, bottom);
    let left_heights = heights(dim_left);
    let left = vertical_line(pos_left, left_heights);
    let three = appended(rules, left);
    let right_corner = upper_right(pos, dim_right);
    let right_heights = heights(dim);
    let right = vertical_line(right_corner, right_heights);
    let r = appended(three, right);
    proof {
        assert(r.sources() =~= border_sources(pos.sources(), dim.sources()));
        assert forall|values: Seq<P>|
            pos.usable(values) && dim.usable(values) && (forall|d: (i32, i32)| #[trigger]
                dim.yields(values, d) ==> 0 <= d.0) && (forall|p: (i32, i32), d: (i32, i32)|
                #![trigger pos.yields(values, p), dim.yields(values, d)]
                pos.yields(values, p) && dim.yields(values, d) ==> border_fits(
                    p,
                    d,
                )) implies #[trigger] r.usable(values) by {
            assert forall|w: i32| #[trigger] top_widths.yields(values, w) implies 0 <= w by {
                let d = choose|d: (i32, i32)| #[trigger] dim.yields(values, d) && w == d.0;
                assert(dim.yields(values, d));
            }
            assert(top.usable(values));
            assert(bottom_corner.usable(values));
            assert forall|w: i32| #[trigger] bottom_widths.yields(values, w) implies 0 <= w by {
                let d = choose|d: (i32, i32)| #[trigger] dim.yields(values, d) && w == d.0;
                assert(dim.yields(values, d));
            }
            assert(bottom.usable(values));
            assert(rules.usable(values));
            assert forall|p: (i32, i32), h: i32|
                #![trigger pos.yields(values, p), left_heights.yields(values, h)]
                pos.yields(values, p) && left_heights.yields(values, h) implies rows_fit(
                p.0 as int,
                h as int,
            ) by {
                let d = choose|d: (i32, i32)| #[trigger] dim.yields(values, d) && h == d.1;
                assert(pos.yields(values, p) && dim.yields(values, d));
                assert(border_fits(p, d));
            }
            assert(left.usable(values));
            assert(three.usable(values));
            assert(right_corner.usable(values));
            assert forall|q: (i32, i32), h: i32|
                #![trigger right_corner.yields(values, q), right_heights.yields(values, h)]
                right_corner.yields(values, q) && right_heights.yields(values, h) implies rows_fit(
                q.0 as int,
                h as int,
            ) by {
                let d = choose|d: (i32, i32)| #[trigger] dim.yields(values, d) && h == d.1;
                let (p, e) = choose|p: (i32, i32), e: (i32, i32)|
                    #![trigger pos.yields(values, p), dim.yields(values, e)]
                    pos.yields(values, p) && dim.yields(values, e) && q.0 == p.0 && q.1 == p.1
                        + e.0 - 1;
                assert(pos.yields(values, p) && dim.yields(values, d));
                assert(border_fits(p, d));
            }
            assert(right.usable(values));
        }
        assert forall|values: Seq<P>, s: String| #[trigger]
            r.yields(values, s) && steady(pos, values) && steady(dim, values) implies exists|
            p: (i32, i32),
            d: (i32, i32),
        |
            #![trigger pos.yields(values, p), dim.yields(values, d)]
            pos.yields(values, p) && dim.yields(values, d) && s@ == border_seq(p, d) by {
            let (s_three, s_right) = choose|a: String, b: String|
                #![trigger three.yields(values, a), right.yields(values, b)]
                three.yields(values, a) && right.yields(values, b) && s@ == a@ + b@;
            let (s_rules, s_left) = choose|a: String, b: String|
                #![trigger rules.yields(values, a), left.yields(values, b)]
                rules.yields(values, a) && left.yields(values, b) && s_three@ == a@ + b@;
            let (s_top, s_bottom) = choose|a: String, b: String|
                #![trigger top.yields(values, a), bottom.yields(values, b)]
                top.yields(values, a) && bottom.yields(values, b) && s_rules@ == a@ + b@;
            // the upper rule
            let (p_top, w_top) = choose|p: (i32, i32), w: i32|
                #![trigger pos.yields(values, p), top_widths.yields(values, w)]
                pos.yields(values, p) && top_widths.yields(values, w) && s_top@ == positioned_seq(
                    p,
                    repeated('=', w as int),
                );
            let d_top = choose|d: (i32, i32)| #[trigger] dim.yields(values, d) && w_top == d.0;
            // the lower rule
            let (q_bottom, w_bottom) = choose|q: (i32, i32), w: i32|
                #![trigger bottom_corner.yields(values, q), bottom_widths.yields(values, w)]
                bottom_corner.yields(values, q) && bottom_widths.yields(values, w) && s_bottom@
                    == positioned_seq(q, repeated('=', w as int));
            let (p_bottom, d_bottom) = choose|p: (i32, i32), d: (i32, i32)|
                #![trigger pos.yields(values, p), dim.yields(values, d)]
                pos.yields(values, p) && dim.yields(values, d) && q_bottom.0 == p.0 + d.1 - 1 && q_bottom.1
                    == p.1;
            let d_bottom_width = choose|d: (i32, i32)| #[trigger] dim.yields(values, d) && w_bottom == d.0;
            // the left rule
            let (p_left, h_left) = choose|p: (i32, i32), h: i32|
                #![trigger pos.yields(values, p), left_heights.yields(values, h)]
                pos.yields(values, p) && left_heights.yields(values, h) && s_left@ == column_seq(
                    p.0 as int,
                    p.1 as int,
                    h as int,
                    seq!['|'],
                );
            let d_left = choose|d: (i32, i32)| #[trigger] dim.yields(values, d) && h_left == d.1;
            // the right rule
            let (q_right, h_right) = choose|q: (i32, i32), h: i32|
                #![trigger right_corner.yields(values, q), right_heights.yields(values, h)]
                right_corner.yields(values, q) && right_heights.yields(values, h) && s_right@
                    == column_seq(q.0 as int, q.1 as int, h as int, seq!['|']);
            let (p_right, d_right) = choose|p: (i32, i32), d: (i32, i32)|
                #![trigger pos.yields(values, p), dim.yields(values, d)]
                pos.yields(values, p) && dim.yields(values, d) && q_right.0 == p.0 && q_right.1 == p.1
                    + d.0 - 1;
            let d_right_height = choose|d: (i32, i32)| #[trigger] dim.yields(values, d) && h_right == d.1;
            assert(pos.yields(values, p_top) && pos.yields(values, p_bottom));
            assert(pos.yields(values, p_top) && pos.yields(values, p_left));
            assert(pos.yields(values, p_top) && pos.yields(values, p_right));
            assert(dim.yields(values, d_top) && dim.yields(values, d_bottom));
            assert(dim.yields(values, d_top) && dim.yields(values, d_bottom_width));
            assert(dim.yields(values, d_top) && dim.yields(values, d_left));
            assert(dim.yields(values, d_top) && dim.yields(values, d_right));
            assert(dim.yields(values, d_top) && dim.yields(values, d_right_height));
            assert(p_bottom == p_top && p_left == p_top && p_right == p_top);
            assert(d_bottom == d_top && d_bottom_width == d_top && d_left == d_top && d_right == d_top && d_right_height == d_top);
            assert(s@ =~= border_seq(p_top, d_top));
        }
    }
    r
}

/// The number of bytes that `text` takes.
pub open spec fn byte_len(text: Seq<char>) -> nat {
    encode_utf8(text).len()
}

/// The characters of each of `lines`.
pub open spec fn contents(lines: Seq<String>) -> Seq<Seq<char>> {
    Seq::new(lines.len(), |i: int| lines[i]@)
}

/// Whether `first` and `second` are as many lines and hold, line by line,
/// the same characters.
pub open spec fn same_lines(first: Seq<String>, second: Seq<String>) -> bool {
    &&& first.len() == second.len()
    &&& forall|i: int| 0 <= i < first.len() ==> #[trigger] first[i]@ == second[i]@
}

/// Lines that hold the same characters have the same contents.
pub proof fn lemma_same_lines(first: Seq<String>, second: Seq<String>)
    ensures
        same_lines(first, second) == (contents(first) == contents(second)),
{
    if same_lines(first, second) {
        assert(contents(first) =~= contents(second));
    }
    if contents(first) == contents(second) {
        assert(contents(first).len() == contents(second).len());
        assert forall|i: int| 0 <= i < first.len() implies #[trigger] first[i]@
            == second[i]@ by {
            assert(contents(first)[i] == contents(second)[i]);
        }
    }
}

/// Whether the texts that `text` gives when the sources hold `values` all
/// hold the same characters, line by line.
pub open spec fn steady_lines<P, S: Observed<P, T = Vec<String>>>(text: S, values: Seq<P>) -> bool {
    forall|a: Vec<String>, b: Vec<String>|
        #![trigger text.yields(values, a), text.yields(values, b)]
        text.yields(values, a) && text.yields(values, b) ==> same_lines(a@, b@)
}

/// A mapped source gives the same characters, line by line, where its
/// function gives them for all that the source underneath yields.
pub proof fn lemma_map_steady_lines<P, S: Observed<P>, F: Fn(S::T) -> Vec<String>>(
    mapped: ObservedMap<S, F>,
    values: Seq<P>,
)
    requires
        forall|a: S::T, b: S::T, x: Vec<String>, y: Vec<String>|
            #![trigger call_ensures(mapped.adapter(), (a,), x), call_ensures(mapped.adapter(), (b,), y)]
            mapped.underlying().yields(values, a) && mapped.underlying().yields(values, b)
                && call_ensures(mapped.adapter(), (a,), x) && call_ensures(
                mapped.adapter(),
                (b,),
                y,
            ) ==> same_lines(x@, y@),
    ensures
        steady_lines(mapped, values),
{
    assert forall|x: Vec<String>, y: Vec<String>|
        #![trigger mapped.yields(values, x), mapped.yields(values, y)]
        mapped.yields(values, x) && mapped.yields(values, y) implies same_lines(x@, y@) by {
        let a = choose|u: S::T| #[trigger]
            mapped.underlying().yields(values, u) && call_ensures(mapped.adapter(), (u,), x);
        let b = choose|u: S::T| #[trigger]
            mapped.underlying().yields(values, u) && call_ensures(mapped.adapter(), (u,), y);
        assert(call_ensures(mapped.adapter(), (a,), x) && call_ensures(
            mapped.adapter(),
            (b,),
            y,
        ));
    }
}

/// The greatest number of bytes that one of `lines` takes.
pub open spec fn widest(lines: Seq<Seq<char>>) -> nat
    decreases lines.len(),
{
    if lines.len() == 0 {
        0
    } else {
        let before = widest(lines.drop_last());
        let here = byte_len(lines.last());
        if here > before {
            here
        } else {
            before
        }
    }
}

/// Whether there is a line, and the block that holds `lines` with its
/// decoration has dimensions that can be numbered.
pub open spec fn text_fits(lines: Seq<Seq<char>>) -> bool {
    0 < lines.len() && lines.len() + 4 <= i32::MAX && widest(lines) + 4 <= i32::MAX
}

/// The dimensions, width first, of the block that holds `lines` with its
/// decoration: on each side one place for the border and one left empty.
pub open spec fn dim_of(lines: Seq<Seq<char>>) -> (i32, i32) {
    ((widest(lines) + 4) as i32, (lines.len() + 4) as i32)
}

/// `lines` written one below the other, the first at `row`, each from
/// `column` on.
pub open spec fn written_seq(row: int, column: int, lines: Seq<Seq<char>>) -> Seq<char>
    decreases lines.len(),
{
    if lines.len() == 0 {
        Seq::empty()
    } else {
        written_seq(row, column, lines.drop_last()) + position_seq(
            row + lines.len() - 1,
            column,
        ) + lines.last()
    }
}

/// The dimensions, width first, of the block that holds `lines` with its
/// decoration.
fn dimensions(lines: &Vec<String>) -> (r: (i32, i32))
    requires
        text_fits(contents(lines@)),
    ensures
        r == dim_of(contents(lines@)),
{
    let ghost all = contents(lines@);
    let mut most: usize = 0;
    let mut i: usize = 0;
    while i < lines.len()
        invariant
            i <= lines.len(),
            all == contents(lines@),
            most == widest(all.take(i as int)),
            widest(all) + 4 <= i32::MAX,
        decreases lines.len() - i,
    {
        proof {
            assert(all.take(i + 1).drop_last() =~= all.take(i as int));
            assert(all.take(i + 1).last() == lines@[i as int]@);
            lemma_widest_grows(all, i + 1);
        }
        let here = lines[i].as_str().len();
        if here > most {
            most = here;
        }
        i += 1;
    }
    proof {
        assert(all.take(i as int) =~= all);
    }
    ((most + 4) as i32, (lines.len() + 4) as i32)
}

/// The widest of the first lines is no wider than the widest of all.
proof fn lemma_widest_grows(lines: Seq<Seq<char>>, n: int)
    requires
        0 <= n <= lines.len(),
    ensures
        widest(lines.take(n)) <= widest(lines),
    decreases lines.len(),
{
    if n == lines.len() {
        assert(lines.take(n) =~= lines);
    } else {
        lemma_widest_grows(lines.drop_last(), n);
        assert(lines.drop_last().take(n) =~= lines.take(n));
    }
}

/// `lines` written one below the other, the first at `row`, each from
/// `column` on.
fn written(row: i32, column: i32, lines: &Vec<String>) -> (r: String)
    requires
        lines@.len() <= i32::MAX,
        lines@.len() > 0 ==> row + lines@.len() - 1 <= i32::MAX,
    ensures
        r@ == written_seq(row as int, column as int, contents(lines@)),
{
    let ghost all = contents(lines@);
    let mut r = String::new();
    let mut i: usize = 0;
    while i < lines.len()
        invariant
            i <= lines.len(),
            all == contents(lines@),
            lines@.len() <= i32::MAX,
            lines@.len() > 0 ==> row + lines@.len() - 1 <= i32::MAX,
            r@ == written_seq(row as int, column as int, all.take(i as int)),
        decreases lines.len() - i,
    {
        proof {
            assert(all.take(i + 1).drop_last() =~= all.take(i as int));
            assert(all.take(i + 1).last() == lines@[i as int]@);
        }
        let down: i64 = row as i64 + i as i64;
        push_position(&mut r, down as i32, column);
        r.push_str(lines[i].as_str());
        i += 1;
    }
    proof {
        assert(all.take(i as int) =~= all);
    }
    r
}

/// Whether `lines` can be written with their decoration into a block whose
/// upper left corner is `pos`.
pub open spec fn decorated_fits(pos: (i32, i32), lines: Seq<Seq<char>>) -> bool {
    text_fits(lines) && border_fits(pos, dim_of(lines))
}

/// `lines` with their decoration, in a block whose upper left corner is
/// `pos`: what clears the block, its border, and the lines, the first of
/// them two rows below and two columns right of `pos`.
pub open spec fn decorated_seq(pos: (i32, i32), lines: Seq<Seq<char>>) -> Seq<char> {
    clear_seq(pos, dim_of(lines)) + border_seq(pos, dim_of(lines)) + written_seq(
        pos.0 + 2,
        pos.1 + 2,
        lines,
    )
}

/// Where a decorated text subscribes its observer, given where the position
/// and the text subscribe it: for clearing, for the border and for the
/// lines.
pub open spec fn decorated_sources(pos: Seq<usize>, text: Seq<usize>) -> Seq<usize> {
    (pos + text) + border_sources(pos, text) + (pos + text)
}

/// A source of decorated texts: the lines that `text` gives at the time, in
/// a cleared block with a border, whose upper left corner is what `pos`
/// gives.
pub fn decorated<
    P,
    A: Observed<P, T = (i32, i32)> + Clone,
    B: Observed<P, T = Vec<String>> + Clone,
>(pos: A, text: B) -> (r: impl Observed<P, T = String>)
    requires
        clones_alike(pos),
        clones_alike(text),
    ensures
        r.sources() == decorated_sources(pos.sources(), text.sources()),
        forall|values: Seq<P>|
            pos.usable(values) && text.usable(values) && (forall|t: Vec<String>| #[trigger]
                text.yields(values, t) ==> text_fits(contents(t@))) && (forall|
                p: (i32, i32),
                t: Vec<String>,
            |
                #![trigger pos.yields(values, p), text.yields(values, t)]
                pos.yields(values, p) && text.yields(values, t) ==> border_fits(
                    p,
                    dim_of(contents(t@)),
                )) ==> #[trigger] r.usable(values),
        forall|values: Seq<P>, s: String| #[trigger]
            r.yields(values, s) && steady(pos, values) && steady_lines(text, values) ==> exists|
                p: (i32, i32),
                t: Vec<String>,
            |
                #![trigger pos.yields(values, p), text.yields(values, t)]
                pos.yields(values, p) && text.yields(values, t) && s@ == decorated_seq(
                    p,
                    contents(t@),
                ),
{
    let measure = |lines: Vec<String>| -> (d: (i32, i32))
        requires
            text_fits(contents(lines@)),
        ensures
            d == dim_of(contents(lines@)),
        { dimensions(&lines) };
    let rows = |input: ((i32, i32), Vec<String>)| -> (s: String)
        requires
            decorated_fits(input.0, contents(input.1@)),
        ensures
            s@ == written_seq(input.0.0 + 2, input.0.1 + 2, contents(input.1@)),
        { written(input.0.0 + 2, input.0.1 + 2, &input.1) };
    let text_measured = text.clone();
    proof {
        assert(cloned(text, text_measured));
    }
    let dim = text_measured.map(measure);
    proof {
        lemma_map_clones_alike(dim);
    }
    let dim_cleared = dim.clone();
    let pos_cleared = pos.clone();
    let pos_framed = pos.clone();
    proof {
        assert(cloned(dim, dim_cleared));
        assert(cloned(pos, pos_cleared) && cloned(pos, pos_framed));
    }
    let cleared = clear(pos_cleared, dim_cleared);
    let framed = border(pos_framed, dim);
    let block = appended(cleared, framed);
    let placed = pos.join(text);
    let lines = placed.map(rows);
    let r = appended(block, lines);
    proof {
        assert(r.sources() =~= decorated_sources(pos.sources(), text.sources()));
        assert forall|values: Seq<P>|
            pos.usable(values) && text.usable(values) && (forall|t: Vec<String>| #[trigger]
                text.yields(values, t) ==> text_fits(contents(t@))) && (forall|
                p: (i32, i32),
                t: Vec<String>,
            |
                #![trigger pos.yields(values, p), text.yields(values, t)]
                pos.yields(values, p) && text.yields(values, t) ==> border_fits(
                    p,
                    dim_of(contents(t@)),
                )) implies #[trigger] r.usable(values) by {
            assert forall|t: Vec<String>| #[trigger]
                text.yields(values, t) implies call_requires(measure, (t,)) by {}
            assert(dim.usable(values));
            assert forall|p: (i32, i32), d: (i32, i32)|
                #![trigger pos.yields(values, p), dim.yields(values, d)]
                pos.yields(values, p) && dim.yields(values, d) implies clear_fits(p, d)
                && border_fits(p, d) && 0 <= d.0 by {
                let t = choose|t: Vec<String>| #[trigger]
                    text.yields(values, t) && call_ensures(measure, (t,), d);
                assert(pos.yields(values, p) && text.yields(values, t));
                assert(border_fits(p, dim_of(contents(t@))));
            }
            assert forall|d: (i32, i32)| #[trigger] dim.yields(values, d) implies 0 <= d.0 by {
                let t = choose|t: Vec<String>| #[trigger]
                    text.yields(values, t) && call_ensures(measure, (t,), d);
                assert(text_fits(contents(t@)));
            }
            assert(cleared.usable(values));
            assert(framed.usable(values));
            assert(block.usable(values));
            assert forall|u: ((i32, i32), Vec<String>)| #[trigger]
                placed.yields(values, u) implies call_requires(rows, (u,)) by {
                assert(pos.yields(values, u.0) && text.yields(values, u.1));
            }
            assert(lines.usable(values));
        }
        assert forall|values: Seq<P>, s: String| #[trigger]
            r.yields(values, s) && steady(pos, values) && steady_lines(
                text,
                values,
            ) implies exists|p: (i32, i32), t: Vec<String>|
            #![trigger pos.yields(values, p), text.yields(values, t)]
            pos.yields(values, p) && text.yields(values, t) && s@ == decorated_seq(
                p,
                contents(t@),
            ) by {
            assert(steady(dim, values)) by {
                assert forall|a: Vec<String>, b: Vec<String>, x: (i32, i32), y: (i32, i32)|
                    #![trigger call_ensures(measure, (a,), x), call_ensures(measure, (b,), y)]
                    text.yields(values, a) && text.yields(values, b) && call_ensures(
                        measure,
                        (a,),
                        x,
                    ) && call_ensures(measure, (b,), y) implies x == y by {
                    lemma_same_lines(a@, b@);
                }
                lemma_map_steady(dim, values);
            }
            let (s_block, s_lines) = choose|a: String, b: String|
                #![trigger block.yields(values, a), lines.yields(values, b)]
                block.yields(values, a) && lines.yields(values, b) && s@ == a@ + b@;
            let (s_cleared, s_framed) = choose|a: String, b: String|
                #![trigger cleared.yields(values, a), framed.yields(values, b)]
                cleared.yields(values, a) && framed.yields(values, b) && s_block@ == a@ + b@;
            let (p_cleared, d_cleared) = choose|p: (i32, i32), d: (i32, i32)|
                #![trigger pos.yields(values, p), dim.yields(values, d)]
                pos.yields(values, p) && dim.yields(values, d) && s_cleared@ == clear_seq(p, d);
            let t_measured = choose|t: Vec<String>| #[trigger]
                text.yields(values, t) && call_ensures(measure, (t,), d_cleared);
            let (p_framed, d_framed) = choose|p: (i32, i32), d: (i32, i32)|
                #![trigger pos.yields(values, p), dim.yields(values, d)]
                pos.yields(values, p) && dim.yields(values, d) && s_framed@ == border_seq(p, d);
            let u = choose|u: ((i32, i32), Vec<String>)| #[trigger]
                placed.yields(values, u) && call_ensures(rows, (u,), s_lines);
            assert(pos.yields(values, p_cleared) && pos.yields(values, p_framed));
            assert(pos.yields(values, p_cleared) && pos.yields(values, u.0));
            assert(dim.yields(values, d_cleared) && dim.yields(values, d_framed));
            assert(text.yields(values, t_measured) && text.yields(values, u.1));
            lemma_same_lines(t_measured@, u.1@);
            let t_framed = choose|t: Vec<String>| #[trigger]
                text.yields(values, t) && call_ensures(measure, (t,), d_framed);
            assert(text.yields(values, t_measured) && text.yields(values, t_framed));
            lemma_same_lines(t_measured@, t_framed@);
            assert(s@ =~= decorated_seq(p_cleared, contents(t_measured@)));
        }
    }
    r
}

} // verus!
