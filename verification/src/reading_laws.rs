//! What a reader makes of path data, told from the text alone: what each letter does
//! with the numbers behind it, and what number a decimal is.
use vstd::arithmetic::power::*;
use vstd::prelude::*;

use crate::number;
use crate::path;
use crate::reading;
use crate::reading::{Algebra, Parser};
use crate::replay;
use crate::replay::{Reader, Step, Stroke};
use crate::rounding;
use crate::scalar;
use crate::scalar::Value;

verus! {

/// A reader of decimals adds and mirrors whole numbers of parts; one of binary64
/// numbers adds and mirrors as binary64 does.
pub proof fn law_readers_reckon(p: nat, parse: Parser, a: int, b: int)
    ensures
        (reading::in_decimals(p).add)(a, b) == a + b,
        (reading::in_decimals(p).mirror)(a, b) == 2 * a - b,
        (reading::in_binary(parse).add)(Value::Finite(a), Value::Finite(b)) == scalar::rounded(
            a + b,
        ),
        scalar::rounded(2 * a) matches Value::Finite(c) ==> (reading::in_binary(parse).mirror)(
            Value::Finite(a),
            Value::Finite(b),
        ) == scalar::rounded(c - b),
{
    assert(a - (-b) == a + b);
    assert(a * 2 == 2 * a);
}

/// Digits are read from left to right, each ten times as much as the next.
pub proof fn law_digits_are_decimal(digits: Seq<char>, d: nat)
    requires
        d < 10,
    ensures
        reading::digits_value(seq![]) == 0,
        reading::digits_value(digits.push((48 + d) as char)) == 10 * reading::digits_value(digits)
            + d,
{
    assert(digits.push((48 + d) as char).drop_last() =~= digits);
}

/// A reader of `p` decimals takes a sign or none, digits, and where there are any a
/// dot and up to `p` more digits, for the number that they are, in parts of `10^p`.
pub proof fn law_decimals_read(
    negative: bool,
    left: Seq<char>,
    right: Seq<char>,
    p: nat,
    rest: Seq<char>,
)
    requires
        forall|i: int| 0 <= i < left.len() ==> '0' <= #[trigger] left[i] <= '9',
        forall|i: int| 0 <= i < right.len() ==> '0' <= #[trigger] right[i] <= '9',
        0 < left.len() + right.len(),
        right.len() <= p,
        rest.len() > 0 ==> rest[0] != '.' && !('0' <= rest[0] <= '9'),
    ensures
        ({
            let text = (if negative {
                seq!['-']
            } else {
                seq![]
            }) + left + (if right.len() > 0 {
                seq!['.'] + right
            } else {
                seq![]
            });
            let parts = reading::digits_value(left) * pow(10, p) + reading::digits_value(right)
                * pow(10, (p - right.len()) as nat);
            reading::next_number(reading::in_decimals(p), text + rest) == Some(
                (if negative {
                    -parts
                } else {
                    parts
                }, rest),
            )
        }),
{
    law_power_of_ten_is_a_power(p);
    law_power_of_ten_is_a_power((p - right.len()) as nat);
    assert(number::all_digits(left));
    assert(number::all_digits(right));
    assert(reading::ends_number(rest));
    reading::lemma_form_reads(negative, left, right, p);
}

/// Powers of ten.
pub proof fn law_power_of_ten_is_a_power(p: nat)
    ensures
        rounding::power_of_ten(p) == pow(10, p),
    decreases p,
{
    reveal(pow);
    if p > 0 {
        law_power_of_ten_is_a_power((p - 1) as nat);
    }
}

/// A text is read as a number where it starts like one and, wherever a number can end
/// behind it, is taken for this number and no more.
pub proof fn law_reading_takes_the_whole_text<N>(g: Algebra<N>, t: Seq<char>, n: N, rest: Seq<char>)
    requires
        reading::reads_as(g, t, n),
        rest.len() > 0 ==> rest[0] != '.' && !('0' <= rest[0] <= '9'),
    ensures
        (g.read)(t + rest) == Some((n, rest)),
{
    assert(reading::ends_number(rest));
    assert(reading::next_number(g, t + rest) == Some((n, rest)));
}

/// A letter with its list before `rest`.
proof fn lemma_letter<N>(
    g: Algebra<N>,
    letter: char,
    nums: Seq<Seq<char>>,
    ns: Seq<N>,
    rest: Seq<char>,
)
    requires
        reading::all_read_as(g, nums, ns),
        reading::ends_number(rest),
    ensures
        ({
            let s = seq![letter] + path::joined(nums) + rest;
            &&& s.len() > 0
            &&& s[0] == letter
            &&& reading::read_numbers(g, s.skip(1), ns.len(), true) == Some((ns, rest))
        }),
{
    let s = seq![letter] + path::joined(nums) + rest;
    assert(s.skip(1) =~= path::joined(nums) + rest);
    reading::law_list_reads_back(g, nums, ns, rest);
}

/// `M` and two numbers move to the point that they are, and `m` to the one that they
/// lead to from where the reader stands; a subpath starts there. `L` and `l` draw a
/// line in the same way.
pub proof fn law_moves_and_lines_read<N>(
    g: Algebra<N>,
    nums: Seq<Seq<char>>,
    ns: Seq<N>,
    at: Reader<N>,
    rest: Seq<char>,
)
    requires
        ns.len() == 2,
        reading::all_read_as(g, nums, ns),
        rest.len() > 0 ==> rest[0] != '.' && !('0' <= rest[0] <= '9'),
    ensures
        ({
            let (x, y) = (ns[0], ns[1]);
            let (rx, ry) = ((g.add)(at.x, ns[0]), (g.add)(at.y, ns[1]));
            let list_of = |letter: char| seq![letter] + path::joined(nums) + rest;
            &&& replay::read_command(g, list_of('M'), at) == Some(
                Step {
                    stroke: Stroke::MoveTo(x, y),
                    next: Reader { x, y, start_x: x, start_y: y, control: None },
                    rest,
                },
            )
            &&& replay::read_command(g, list_of('m'), at) == Some(
                Step {
                    stroke: Stroke::MoveTo(rx, ry),
                    next: Reader { x: rx, y: ry, start_x: rx, start_y: ry, control: None },
                    rest,
                },
            )
            &&& replay::read_command(g, list_of('L'), at) == Some(
                Step {
                    stroke: Stroke::LineTo(x, y),
                    next: Reader {
                        x,
                        y,
                        start_x: at.start_x,
                        start_y: at.start_y,
                        control: None,
                    },
                    rest,
                },
            )
            &&& replay::read_command(g, list_of('l'), at) == Some(
                Step {
                    stroke: Stroke::LineTo(rx, ry),
                    next: Reader {
                        x: rx,
                        y: ry,
                        start_x: at.start_x,
                        start_y: at.start_y,
                        control: None,
                    },
                    rest,
                },
            )
        }),
{
    assert(reading::ends_number(rest));
    lemma_letter(g, 'M', nums, ns, rest);
    lemma_letter(g, 'm', nums, ns, rest);
    lemma_letter(g, 'L', nums, ns, rest);
    lemma_letter(g, 'l', nums, ns, rest);
}

/// `H` and a number draw a line to this x, and `h` to the one that it leads to; `V`
/// and `v` do so with y. The other coordinate stays.
pub proof fn law_level_and_upright_lines_read<N>(
    g: Algebra<N>,
    nums: Seq<Seq<char>>,
    ns: Seq<N>,
    at: Reader<N>,
    rest: Seq<char>,
)
    requires
        ns.len() == 1,
        reading::all_read_as(g, nums, ns),
        rest.len() > 0 ==> rest[0] != '.' && !('0' <= rest[0] <= '9'),
    ensures
        ({
            let n = ns[0];
            let (rx, ry) = ((g.add)(at.x, n), (g.add)(at.y, n));
            let list_of = |letter: char| seq![letter] + path::joined(nums) + rest;
            let line = |x: N, y: N|
                Some(
                    Step {
                        stroke: Stroke::LineTo(x, y),
                        next: Reader {
                            x,
                            y,
                            start_x: at.start_x,
                            start_y: at.start_y,
                            control: None,
                        },
                        rest,
                    },
                );
            &&& replay::read_command(g, list_of('H'), at) == line(n, at.y)
            &&& replay::read_command(g, list_of('h'), at) == line(rx, at.y)
            &&& replay::read_command(g, list_of('V'), at) == line(at.x, n)
            &&& replay::read_command(g, list_of('v'), at) == line(at.x, ry)
        }),
{
    assert(reading::ends_number(rest));
    lemma_letter(g, 'H', nums, ns, rest);
    lemma_letter(g, 'h', nums, ns, rest);
    lemma_letter(g, 'V', nums, ns, rest);
    lemma_letter(g, 'v', nums, ns, rest);
}

/// `C` and six numbers draw a cubic with the two control points and the end that they
/// are, and `c` with those that they lead to from where the reader stands.
pub proof fn law_cubics_read<N>(
    g: Algebra<N>,
    nums: Seq<Seq<char>>,
    ns: Seq<N>,
    at: Reader<N>,
    rest: Seq<char>,
)
    requires
        ns.len() == 6,
        reading::all_read_as(g, nums, ns),
        rest.len() > 0 ==> rest[0] != '.' && !('0' <= rest[0] <= '9'),
    ensures
        ({
            let list_of = |letter: char| seq![letter] + path::joined(nums) + rest;
            let cubic = |x1: N, y1: N, x2: N, y2: N, x: N, y: N|
                Some(
                    Step {
                        stroke: Stroke::CubicTo(x1, y1, x2, y2, x, y),
                        next: Reader {
                            x,
                            y,
                            start_x: at.start_x,
                            start_y: at.start_y,
                            control: Some((x2, y2)),
                        },
                        rest,
                    },
                );
            &&& replay::read_command(g, list_of('C'), at) == cubic(
                ns[0],
                ns[1],
                ns[2],
                ns[3],
                ns[4],
                ns[5],
            )
            &&& replay::read_command(g, list_of('c'), at) == cubic(
                (g.add)(at.x, ns[0]),
                (g.add)(at.y, ns[1]),
                (g.add)(at.x, ns[2]),
                (g.add)(at.y, ns[3]),
                (g.add)(at.x, ns[4]),
                (g.add)(at.y, ns[5]),
            )
        }),
{
    assert(reading::ends_number(rest));
    lemma_letter(g, 'C', nums, ns, rest);
    lemma_letter(g, 'c', nums, ns, rest);
}

/// `S` and four numbers draw a cubic with the second control point and the end that
/// they are, and `s` with those that they lead to. The first control point is the
/// mirror image of the last control point of the cubic before, and where there is
/// none, where the reader stands.
pub proof fn law_smooth_cubics_read<N>(
    g: Algebra<N>,
    nums: Seq<Seq<char>>,
    ns: Seq<N>,
    at: Reader<N>,
    rest: Seq<char>,
)
    requires
        ns.len() == 4,
        reading::all_read_as(g, nums, ns),
        rest.len() > 0 ==> rest[0] != '.' && !('0' <= rest[0] <= '9'),
    ensures
        ({
            let list_of = |letter: char| seq![letter] + path::joined(nums) + rest;
            let x1 = match at.control {
                Some(c) => (g.mirror)(at.x, c.0),
                None => at.x,
            };
            let y1 = match at.control {
                Some(c) => (g.mirror)(at.y, c.1),
                None => at.y,
            };
            let cubic = |x2: N, y2: N, x: N, y: N|
                Some(
                    Step {
                        stroke: Stroke::CubicTo(x1, y1, x2, y2, x, y),
                        next: Reader {
                            x,
                            y,
                            start_x: at.start_x,
                            start_y: at.start_y,
                            control: Some((x2, y2)),
                        },
                        rest,
                    },
                );
            &&& replay::read_command(g, list_of('S'), at) == cubic(ns[0], ns[1], ns[2], ns[3])
            &&& replay::read_command(g, list_of('s'), at) == cubic(
                (g.add)(at.x, ns[0]),
                (g.add)(at.y, ns[1]),
                (g.add)(at.x, ns[2]),
                (g.add)(at.y, ns[3]),
            )
        }),
{
    assert(reading::ends_number(rest));
    lemma_letter(g, 'S', nums, ns, rest);
    lemma_letter(g, 's', nums, ns, rest);
}

/// `Z` closes the subpath and goes back to where it started.
pub proof fn law_closes_read<N>(g: Algebra<N>, at: Reader<N>, rest: Seq<char>)
    ensures
        replay::read_command(g, seq!['Z'] + rest, at) == Some(
            (Step {
                stroke: Stroke::Close,
                next: Reader {
                    x: at.start_x,
                    y: at.start_y,
                    start_x: at.start_x,
                    start_y: at.start_y,
                    control: None,
                },
                rest,
            }),
        ),
{
    assert((seq!['Z'] + rest).skip(1) =~= rest);
}

/// Path data is read command by command, from the origin on, to its end.
pub proof fn law_path_data_is_read_to_its_end<N>(
    g: Algebra<N>,
    zero: N,
    s: Seq<char>,
    at: Reader<N>,
)
    ensures
        replay::origin(zero) == (Reader {
            x: zero,
            y: zero,
            start_x: zero,
            start_y: zero,
            control: None,
        }),
        replay::read_path(g, seq![], at) == Some(Seq::<Stroke<N>>::empty()),
        s.len() > 0 && replay::read_command(g, s, at) is None ==> replay::read_path(g, s, at) is None,
        s.len() > 0 && replay::read_command(g, s, at) is Some ==> {
            let step = replay::read_command(g, s, at)->0;
            step.rest.len() < s.len() ==> replay::read_path(g, s, at) == match replay::read_path(
                g,
                step.rest,
                step.next,
            ) {
                Some(strokes) => Some(seq![step.stroke] + strokes),
                None => None,
            }
        },
{
}

/// What a list of commands draws is, command by command, a stroke of the same kind
/// with the same points.
pub proof fn law_strokes_are_the_commands<N>(
    cmds: Seq<crate::ir::PathCmd>,
    u: spec_fn(Value) -> N,
)
    ensures
        replay::strokes(cmds, u).len() == cmds.len(),
        forall|i: int|
            #![trigger replay::strokes(cmds, u)[i]]
            0 <= i < cmds.len() ==> replay::strokes(cmds, u)[i] == match cmds[i] {
                crate::ir::PathCmd::MoveTo(q) => Stroke::MoveTo(u(q.x.value()), u(q.y.value())),
                crate::ir::PathCmd::LineTo(q) => Stroke::LineTo(u(q.x.value()), u(q.y.value())),
                crate::ir::PathCmd::CubicTo(a, b, e) => Stroke::CubicTo(
                    u(a.x.value()),
                    u(a.y.value()),
                    u(b.x.value()),
                    u(b.y.value()),
                    u(e.x.value()),
                    u(e.y.value()),
                ),
                crate::ir::PathCmd::Close => Stroke::Close,
            },
{
}

/// A parser gives back what a float formatter writes where it takes decimals of the
/// same number for the same, `0` for zero, and what the formatter writes of a binary64
/// number for that number.
pub proof fn law_parsers_that_give_back(parse: Parser, text: number::Formatted)
    requires
        parse(seq!['0']) == Value::Finite(0),
        forall|s: Seq<char>, t: Seq<char>, n: int, p: nat|
            #[trigger] reading::reads_as(reading::in_decimals(p), s, n)
                && #[trigger] reading::reads_as(reading::in_decimals(p), t, n) ==> parse(s)
                == parse(t),
        forall|x: Value|
            x is Finite && scalar::rounded(x->0) == x && x != Value::Finite(0) ==> (#[trigger] text(
                x,
                None,
            ) matches Some(raw) ==> parse(raw) == x),
    ensures
        reading::gives_back(parse, text),
{
}

/// The decimals behind the first dot.
proof fn lemma_decimals_behind(raw: Seq<char>, i: int)
    requires
        0 <= i < raw.len(),
        raw[i] == '.',
        forall|j: int| 0 <= j < i ==> raw[j] != '.',
    ensures
        reading::decimals(raw) == raw.len() - 1 - i,
    decreases raw.len(),
{
    if i > 0 {
        assert(raw[0] != '.');
        let t = raw.skip(1);
        assert forall|j: int| 0 <= j < i - 1 implies t[j] != '.' by {
            assert(t[j] == raw[j + 1]);
        }
        lemma_decimals_behind(t, i - 1);
    }
}

/// What has to hold of all coordinates has to hold of those of each command, and
/// nothing else; and a finite number that is written as a whole number of parts, or
/// with no more decimals than the precision, fits.
pub proof fn law_premises_are_of_the_coordinates(
    cmds: Seq<crate::ir::PathCmd>,
    ok: spec_fn(Value) -> bool,
    x: Value,
    p: u32,
    text: number::Formatted,
)
    ensures
        replay::holds_of_all(cmds, ok) <==> forall|i: int|
            0 <= i < cmds.len() ==> match #[trigger] cmds[i] {
                crate::ir::PathCmd::MoveTo(q) => ok(q.x.value()) && ok(q.y.value()),
                crate::ir::PathCmd::LineTo(q) => ok(q.x.value()) && ok(q.y.value()),
                crate::ir::PathCmd::CubicTo(a, b, e) => {
                    &&& ok(a.x.value()) && ok(a.y.value())
                    &&& ok(b.x.value()) && ok(b.y.value())
                    &&& ok(e.x.value()) && ok(e.y.value())
                },
                crate::ir::PathCmd::Close => true,
            },
        number::scaled(x, Some(p)) is Some ==> replay::fitting(p, text)(x),
        x is Finite && text(x, Some(p)) is None ==> replay::fitting(p, text)(x),
        x is Finite && (text(x, Some(p)) matches Some(raw) ==> exists|i: int|
            0 <= i && raw.len() - 1 - p <= i < raw.len() && #[trigger] raw[i] == '.' && (forall|j: int|
                0 <= j < i ==> raw[j] != '.')) ==> replay::fitting(p, text)(x),
{
    if replay::holds_of_all(cmds, ok) {
        assert forall|i: int| 0 <= i < cmds.len() implies match #[trigger] cmds[i] {
            crate::ir::PathCmd::MoveTo(q) => ok(q.x.value()) && ok(q.y.value()),
            crate::ir::PathCmd::LineTo(q) => ok(q.x.value()) && ok(q.y.value()),
            crate::ir::PathCmd::CubicTo(a, b, e) => {
                &&& ok(a.x.value()) && ok(a.y.value())
                &&& ok(b.x.value()) && ok(b.y.value())
                &&& ok(e.x.value()) && ok(e.y.value())
            },
            crate::ir::PathCmd::Close => true,
        } by {
            assert(replay::holds_of(cmds[i], ok));
        }
    }
    if let Some(raw) = text(x, Some(p)) {
        if exists|i: int|
            0 <= i && raw.len() - 1 - p <= i < raw.len() && #[trigger] raw[i] == '.' && (forall|j: int|
                0 <= j < i ==> raw[j] != '.') {
            let i = choose|i: int|
                0 <= i && raw.len() - 1 - p <= i < raw.len() && #[trigger] raw[i] == '.' && (forall|j: int|
                    0 <= j < i ==> raw[j] != '.');
            lemma_decimals_behind(raw, i);
        }
    }
}

} // verus!
