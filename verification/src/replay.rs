//! How a reader understands path data, and that it finds there what was written.
use vstd::prelude::*;

use crate::grid;
use crate::ir;
use crate::ir::{PathCmd, Point};
use crate::laws;
use crate::number;
use crate::path;
use crate::path::{Coordinate, Pen};
use crate::reading;
use crate::reading::{Algebra, Parser};
use crate::scalar;
use crate::scalar::Value;
use crate::svg;
use crate::svg::SvgWriter;

verus! {

/// A command as it is understood, in absolute coordinates.
pub enum Stroke<N> {
    MoveTo(N, N),
    LineTo(N, N),
    CubicTo(N, N, N, N, N, N),
    Close,
}

/// Where a reader stands.
pub struct Reader<N> {
    pub x: N,
    pub y: N,
    /// The start of the subpath.
    pub start_x: N,
    pub start_y: N,
    /// The second control point, where the last command was a cubic.
    pub control: Option<(N, N)>,
}

/// Before the first command.
pub open spec fn origin<N>(zero: N) -> Reader<N> {
    Reader { x: zero, y: zero, start_x: zero, start_y: zero, control: None }
}

/// Whether a command with this letter counts from where the reader stands.
pub open spec fn is_small(letter: char) -> bool {
    letter == 'm' || letter == 'l' || letter == 'h' || letter == 'v' || letter == 'c' || letter
        == 's'
}

/// What `n` comes to, counted from `base` or not.
pub open spec fn placed<N>(g: Algebra<N>, small: bool, base: N, n: N) -> N {
    if small {
        (g.add)(base, n)
    } else {
        n
    }
}

/// The point `i` of the numbers `ns`, counted from where the reader stands or not.
pub open spec fn point<N>(g: Algebra<N>, small: bool, at: Reader<N>, ns: Seq<N>, i: int) -> (
    N,
    N,
) {
    (placed(g, small, at.x, ns[2 * i]), placed(g, small, at.y, ns[2 * i + 1]))
}

/// What a reader makes of a command, where it stands then, and what follows.
pub struct Step<N> {
    pub stroke: Stroke<N>,
    pub next: Reader<N>,
    pub rest: Seq<char>,
}

/// The command at the start of `s`, where the reader stands after it, and what
/// follows. A small letter counts from where the reader stands.
pub open spec fn read_command<N>(g: Algebra<N>, s: Seq<char>, at: Reader<N>) -> Option<Step<N>> {
    if s.len() == 0 {
        None
    } else {
        let letter = s[0];
        let small = is_small(letter);
        let rest = s.skip(1);
        if letter == 'M' || letter == 'm' {
            match reading::read_numbers(g, rest, 2, true) {
                Some((ns, end)) => Some(move_step(point(g, small, at, ns, 0), end)),
                None => None,
            }
        } else if letter == 'L' || letter == 'l' {
            match reading::read_numbers(g, rest, 2, true) {
                Some((ns, end)) => Some(line_step(at, point(g, small, at, ns, 0), end)),
                None => None,
            }
        } else if letter == 'H' || letter == 'h' {
            match reading::read_numbers(g, rest, 1, true) {
                Some((ns, end)) => Some(
                    line_step(at, (placed(g, small, at.x, ns[0]), at.y), end),
                ),
                None => None,
            }
        } else if letter == 'V' || letter == 'v' {
            match reading::read_numbers(g, rest, 1, true) {
                Some((ns, end)) => Some(
                    line_step(at, (at.x, placed(g, small, at.y, ns[0])), end),
                ),
                None => None,
            }
        } else if letter == 'C' || letter == 'c' {
            match reading::read_numbers(g, rest, 6, true) {
                Some((ns, end)) => Some(
                    cubic_step(
                        at,
                        point(g, small, at, ns, 0),
                        point(g, small, at, ns, 1),
                        point(g, small, at, ns, 2),
                        end,
                    ),
                ),
                None => None,
            }
        } else if letter == 'S' || letter == 's' {
            match reading::read_numbers(g, rest, 4, true) {
                Some((ns, end)) => Some(
                    cubic_step(
                        at,
                        mirror(g, at),
                        point(g, small, at, ns, 0),
                        point(g, small, at, ns, 1),
                        end,
                    ),
                ),
                None => None,
            }
        } else if letter == 'Z' {
            Some(
                Step {
                    stroke: Stroke::Close,
                    next: Reader { x: at.start_x, y: at.start_y, control: None, ..at },
                    rest,
                },
            )
        } else {
            None
        }
    }
}

pub open spec fn move_step<N>(q: (N, N), rest: Seq<char>) -> Step<N> {
    Step {
        stroke: Stroke::MoveTo(q.0, q.1),
        next: Reader { x: q.0, y: q.1, start_x: q.0, start_y: q.1, control: None },
        rest,
    }
}

pub open spec fn line_step<N>(at: Reader<N>, q: (N, N), rest: Seq<char>) -> Step<N> {
    Step {
        stroke: Stroke::LineTo(q.0, q.1),
        next: Reader { x: q.0, y: q.1, control: None, ..at },
        rest,
    }
}

pub open spec fn cubic_step<N>(
    at: Reader<N>,
    c1: (N, N),
    c2: (N, N),
    e: (N, N),
    rest: Seq<char>,
) -> Step<N> {
    Step {
        stroke: Stroke::CubicTo(c1.0, c1.1, c2.0, c2.1, e.0, e.1),
        next: Reader { x: e.0, y: e.1, control: Some(c2), ..at },
        rest,
    }
}

/// The first control point that a smooth cubic takes: the last second control
/// point mirrored at where the reader stands, or where it stands.
pub open spec fn mirror<N>(g: Algebra<N>, at: Reader<N>) -> (N, N) {
    match at.control {
        Some(c) => ((g.mirror)(at.x, c.0), (g.mirror)(at.y, c.1)),
        None => (at.x, at.y),
    }
}

/// The commands of `s`, read one after the other.
pub open spec fn read_path<N>(g: Algebra<N>, s: Seq<char>, at: Reader<N>) -> Option<Seq<Stroke<N>>>
    decreases s.len(),
{
    if s.len() == 0 {
        Some(seq![])
    } else {
        match read_command(g, s, at) {
            None => None,
            Some(step) => if step.rest.len() < s.len() {
                match read_path(g, step.rest, step.next) {
                    None => None,
                    Some(strokes) => Some(seq![step.stroke] + strokes),
                }
            } else {
                None
            },
        }
    }
}

/// What `cmd` draws, with each coordinate as `u` gives it.
pub open spec fn stroke<N>(cmd: PathCmd, u: spec_fn(Value) -> N) -> Stroke<N> {
    match cmd {
        PathCmd::MoveTo(q) => Stroke::MoveTo(u(q.x.value()), u(q.y.value())),
        PathCmd::LineTo(q) => Stroke::LineTo(u(q.x.value()), u(q.y.value())),
        PathCmd::CubicTo(c1, c2, e) => Stroke::CubicTo(
            u(c1.x.value()),
            u(c1.y.value()),
            u(c2.x.value()),
            u(c2.y.value()),
            u(e.x.value()),
            u(e.y.value()),
        ),
        PathCmd::Close => Stroke::Close,
    }
}

/// What `cmds` draw.
pub open spec fn strokes<N>(cmds: Seq<PathCmd>, u: spec_fn(Value) -> N) -> Seq<Stroke<N>> {
    Seq::new(cmds.len(), |i: int| stroke(cmds[i], u))
}

/// `q`, with each coordinate as `u` gives it.
pub open spec fn spot<N>(q: Point, u: spec_fn(Value) -> N) -> (N, N) {
    (u(q.x.value()), u(q.y.value()))
}

/// Where the reader stands when the encoder stands at `pen`.
pub open spec fn reader_at<N>(pen: Pen, u: spec_fn(Value) -> N) -> Reader<N> {
    Reader {
        x: u(pen.cur.x.value()),
        y: u(pen.cur.y.value()),
        start_x: u(pen.start.x.value()),
        start_y: u(pen.start.y.value()),
        control: match pen.prev_c2 {
            Some(c) => Some(spot(c, u)),
            None => None,
        },
    }
}

/// A writer, a reader, the float formatter's texts, what the reader makes of
/// coordinates, and what it makes of the ways between them.
#[verifier::reject_recursive_types(N)]
pub struct Setting<N> {
    pub w: SvgWriter,
    pub g: Algebra<N>,
    pub text: number::Formatted,
    pub u: spec_fn(Value) -> N,
    pub d: spec_fn(Value, Value) -> N,
}

/// Whether what is written of `a` is read as it should be; and where the way from `b`
/// to `a` may be written, that is too, and leads from `b` to `a`.
pub open spec fn faithful_coordinate<N>(t: Setting<N>, a: Value, b: Value) -> bool {
    let precision = t.w.precision;
    &&& reading::reads_as(t.g, number::number_text(a, precision, t.text), (t.u)(a))
    &&& t.w.relative && path::counted(a, b, precision) ==> {
        &&& reading::reads_as(t.g, number::delta_text(a, b, precision, t.text), (t.d)(a, b))
        &&& (t.g.add)((t.u)(b), (t.d)(a, b)) == (t.u)(a)
    }
}

pub open spec fn faithful_point<N>(t: Setting<N>, q: Point, cur: Point) -> bool {
    &&& faithful_coordinate(t, q.x.value(), cur.x.value())
    &&& faithful_coordinate(t, q.y.value(), cur.y.value())
}

/// Whether all that may be written of `cmd` is read as it should be; of a cubic that
/// goes on smoothly, that includes the first control point that a reader takes.
pub open spec fn faithful<N>(t: Setting<N>, pen: Pen, cmd: PathCmd) -> bool {
    match cmd {
        PathCmd::MoveTo(q) => faithful_point(t, q, pen.cur),
        PathCmd::LineTo(q) => faithful_point(t, q, pen.cur),
        PathCmd::CubicTo(c1, c2, e) => {
            &&& faithful_point(t, c1, pen.cur)
            &&& faithful_point(t, c2, pen.cur)
            &&& faithful_point(t, e, pen.cur)
            &&& t.w.shorthands && path::smooth(pen, c1, t.w.precision) ==> mirror(
                t.g,
                reader_at(pen, t.u),
            ) == spot(c1, t.u)
        },
        PathCmd::Close => true,
    }
}

/// Whether all of `cmds` are faithful.
pub open spec fn faithful_path<N>(t: Setting<N>, pen: Pen, cmds: Seq<PathCmd>) -> bool {
    forall|i: int|
        0 <= i < cmds.len() ==> faithful(
            t,
            path::pen_after(pen, cmds.take(i)),
            #[trigger] cmds[i],
        )
}

/// What a number of a command is read as.
spec fn measure<N>(t: Setting<N>, c: Coordinate) -> N {
    match c {
        Coordinate::At(a) => (t.u)(a),
        Coordinate::From(a, b) => (t.d)(a, b),
    }
}

spec fn measures<N>(t: Setting<N>, values: Seq<Coordinate>) -> Seq<N> {
    Seq::new(values.len(), |i: int| measure(t, values[i]))
}

/// Whether a number of a command is read as it should be.
spec fn legible<N>(t: Setting<N>, c: Coordinate) -> bool {
    reading::reads_as(t.g, path::coordinate_text(c, t.w.precision, t.text), measure(t, c))
}

/// A command with its numbers, read.
proof fn lemma_token_reads<N>(
    t: Setting<N>,
    letter: char,
    values: Seq<Coordinate>,
    rest: Seq<char>,
)
    requires
        forall|i: int| 0 <= i < values.len() ==> legible(t, #[trigger] values[i]),
        reading::ends_number(rest),
    ensures
        ({
            let s = path::token(letter, values, t.w.precision, t.text) + rest;
            &&& s.len() > 0
            &&& s[0] == letter
            &&& reading::read_numbers(t.g, s.skip(1), values.len(), true) == Some(
                (measures(t, values), rest),
            )
        }),
{
    let s = path::token(letter, values, t.w.precision, t.text) + rest;
    let nums = path::number_texts(values, t.w.precision, t.text);
    let ns = measures(t, values);
    assert forall|i: int| 0 <= i < ns.len() implies reading::reads_as(
        t.g,
        #[trigger] nums[i],
        ns[i],
    ) by {
        assert(legible(t, values[i]));
    }
    assert(s.skip(1) =~= path::list_text(values, t.w.precision, t.text) + rest);
    reading::law_list_reads_back(t.g, nums, ns, rest);
}

/// The numbers of points, one by one.
pub proof fn lemma_coordinates_at(pts: Seq<Point>, cur: Point, i: int)
    requires
        0 <= i < pts.len(),
    ensures
        path::coordinates(pts).len() == 2 * pts.len(),
        path::offsets(pts, cur).len() == 2 * pts.len(),
        path::coordinates(pts)[2 * i] == Coordinate::At(pts[i].x.value()),
        path::coordinates(pts)[2 * i + 1] == Coordinate::At(pts[i].y.value()),
        path::offsets(pts, cur)[2 * i] == Coordinate::From(pts[i].x.value(), cur.x.value()),
        path::offsets(pts, cur)[2 * i + 1] == Coordinate::From(pts[i].y.value(), cur.y.value()),
    decreases pts.len(),
{
    let before = pts.drop_last();
    lemma_coordinates_len(before, cur);
    if i < before.len() {
        lemma_coordinates_at(before, cur, i);
    }
}

pub proof fn lemma_coordinates_len(pts: Seq<Point>, cur: Point)
    ensures
        path::coordinates(pts).len() == 2 * pts.len(),
        path::offsets(pts, cur).len() == 2 * pts.len(),
    decreases pts.len(),
{
    if pts.len() > 0 {
        lemma_coordinates_len(pts.drop_last(), cur);
    }
}

/// One of two forms.
proof fn lemma_forms_pick(
    w: SvgWriter,
    upper: char,
    absolute: Seq<Coordinate>,
    lower: char,
    relative: Seq<Coordinate>,
    text: number::Formatted,
    c: Seq<char>,
)
    requires
        path::forms(w, upper, absolute, lower, relative, text).contains(c),
    ensures
        c == path::token(upper, absolute, w.precision, text) || (w.relative && path::all_counted(
            relative,
            w.precision,
        ) && c == path::token(lower, relative, w.precision, text)),
{
}

/// Whether `s` gives a reader at `cur` the letter of a command, small or not, and
/// then the points `pts`, before `rest`.
spec fn gives_points<N>(
    t: Setting<N>,
    s: Seq<char>,
    upper: char,
    lower: char,
    pts: Seq<Point>,
    at: Reader<N>,
    rest: Seq<char>,
) -> bool {
    let small = s[0] == lower;
    &&& s.len() > 0
    &&& s[0] == upper || s[0] == lower
    &&& reading::read_numbers(t.g, s.skip(1), 2 * pts.len(), true) matches Some((ns, end))
    &&& end == rest
    &&& forall|i: int|
        0 <= i < pts.len() ==> point(t.g, small, at, ns, i) == spot(#[trigger] pts[i], t.u)
}

/// A form of a command that takes points, read.
proof fn lemma_points_read<N>(
    t: Setting<N>,
    pts: Seq<Point>,
    pen: Pen,
    upper: char,
    lower: char,
    c: Seq<char>,
    rest: Seq<char>,
)
    requires
        upper != lower,
        forall|i: int| 0 <= i < pts.len() ==> faithful_point(t, #[trigger] pts[i], pen.cur),
        path::forms(
            t.w,
            upper,
            path::coordinates(pts),
            lower,
            path::offsets(pts, pen.cur),
            t.text,
        ).contains(c),
        reading::ends_number(rest),
    ensures
        gives_points(t, c + rest, upper, lower, pts, reader_at(pen, t.u), rest),
{
    let cur = pen.cur;
    let at = reader_at(pen, t.u);
    let absolute = path::coordinates(pts);
    let relative = path::offsets(pts, cur);
    let small = c != path::token(upper, absolute, t.w.precision, t.text);
    let values = if small {
        relative
    } else {
        absolute
    };
    lemma_coordinates_len(pts, cur);
    lemma_forms_pick(t.w, upper, absolute, lower, relative, t.text, c);
    assert forall|j: int| 0 <= j < values.len() implies legible(t, #[trigger] values[j]) by {
        let i = j / 2;
        lemma_coordinates_at(pts, cur, i);
        assert(faithful_point(t, pts[i], cur));
        assert(j == 2 * i || j == 2 * i + 1);
        assert(relative[j] is From);
    }
    let letter = if small {
        lower
    } else {
        upper
    };
    lemma_token_reads(t, letter, values, rest);
    let ns = measures(t, values);
    assert forall|i: int| 0 <= i < pts.len() implies point(t.g, small, at, ns, i) == spot(
        #[trigger] pts[i],
        t.u,
    ) by {
        lemma_coordinates_at(pts, cur, i);
        assert(faithful_point(t, pts[i], cur));
        assert(relative[2 * i] is From && relative[2 * i + 1] is From);
    }
}

/// A form of a command that takes one coordinate, read.
proof fn lemma_coordinate_reads<N>(
    t: Setting<N>,
    a: Value,
    b: Value,
    upper: char,
    lower: char,
    c: Seq<char>,
    rest: Seq<char>,
)
    requires
        upper != lower,
        faithful_coordinate(t, a, b),
        path::forms(
            t.w,
            upper,
            seq![Coordinate::At(a)],
            lower,
            seq![Coordinate::From(a, b)],
            t.text,
        ).contains(c),
        reading::ends_number(rest),
    ensures
        ({
            let s = c + rest;
            &&& s.len() > 0
            &&& s[0] == upper || s[0] == lower
            &&& reading::read_numbers(t.g, s.skip(1), 1, true) matches Some((ns, end))
            &&& end == rest
            &&& placed(t.g, s[0] == lower, (t.u)(b), ns[0]) == (t.u)(a)
        }),
{
    let (at, from) = (seq![Coordinate::At(a)], seq![Coordinate::From(a, b)]);
    lemma_forms_pick(t.w, upper, at, lower, from, t.text, c);
    if c == path::token(upper, at, t.w.precision, t.text) {
        assert(legible(t, at[0]));
        lemma_token_reads(t, upper, at, rest);
        assert(measures(t, at)[0] == (t.u)(a));
    } else {
        assert(from[0] is From);
        assert(legible(t, from[0]));
        lemma_token_reads(t, lower, from, rest);
        assert(measures(t, from)[0] == (t.d)(a, b));
    }
}

/// What a command should be read as, before `rest`.
pub open spec fn step_of<N>(t: Setting<N>, pen: Pen, cmd: PathCmd, rest: Seq<char>) -> Step<N> {
    Step { stroke: stroke(cmd, t.u), next: reader_at(path::moved(pen, cmd), t.u), rest }
}

/// Every form of a move reads as the move.
proof fn lemma_move_reads<N>(t: Setting<N>, pen: Pen, q: Point, c: Seq<char>, rest: Seq<char>)
    requires
        faithful_point(t, q, pen.cur),
        path::candidates(t.w, pen, PathCmd::MoveTo(q), t.text).contains(c),
        reading::ends_number(rest),
    ensures
        read_command(t.g, c + rest, reader_at(pen, t.u)) == Some(
            step_of(t, pen, PathCmd::MoveTo(q), rest),
        ),
{
    let pts = seq![q];
    assert(pts[0] == q);
    if !pen.started {
        let first = Setting { w: SvgWriter { relative: false, ..t.w }, ..t };
        assert(path::forms(
            first.w,
            'M',
            path::coordinates(pts),
            'm',
            path::offsets(pts, pen.cur),
            t.text,
        )[0] == c);
        lemma_points_read(first, pts, pen, 'M', 'm', c, rest);
    } else {
        lemma_points_read(t, pts, pen, 'M', 'm', c, rest);
    }
}

/// A line written with both coordinates reads as the line.
proof fn lemma_plain_line_reads<N>(t: Setting<N>, pen: Pen, q: Point, c: Seq<char>, rest: Seq<char>)
    requires
        faithful_point(t, q, pen.cur),
        path::forms(
            t.w,
            'L',
            path::coordinates(seq![q]),
            'l',
            path::offsets(seq![q], pen.cur),
            t.text,
        ).contains(c),
        reading::ends_number(rest),
    ensures
        read_command(t.g, c + rest, reader_at(pen, t.u)) == Some(
            step_of(t, pen, PathCmd::LineTo(q), rest),
        ),
{
    let pts = seq![q];
    assert(pts[0] == q);
    lemma_points_read(t, pts, pen, 'L', 'l', c, rest);
}

/// Every form of a line reads as the line.
#[verifier::rlimit(30)]
proof fn lemma_line_reads<N>(t: Setting<N>, pen: Pen, q: Point, c: Seq<char>, rest: Seq<char>)
    requires
        faithful_point(t, q, pen.cur),
        path::candidates(t.w, pen, PathCmd::LineTo(q), t.text).contains(c),
        reading::ends_number(rest),
    ensures
        read_command(t.g, c + rest, reader_at(pen, t.u)) == Some(
            step_of(t, pen, PathCmd::LineTo(q), rest),
        ),
{
    let (x, y) = (q.x.value(), q.y.value());
    let (cx, cy) = (pen.cur.x.value(), pen.cur.y.value());
    let along_x = if t.w.shorthands && scalar::equal(y, cy) {
        path::forms(
            t.w,
            'H',
            seq![Coordinate::At(x)],
            'h',
            seq![Coordinate::From(x, cx)],
            t.text,
        )
    } else {
        seq![]
    };
    let along_y = if t.w.shorthands && scalar::equal(x, cx) {
        path::forms(
            t.w,
            'V',
            seq![Coordinate::At(y)],
            'v',
            seq![Coordinate::From(y, cy)],
            t.text,
        )
    } else {
        seq![]
    };
    let plain = path::forms(
        t.w,
        'L',
        path::coordinates(seq![q]),
        'l',
        path::offsets(seq![q], pen.cur),
        t.text,
    );
    vstd::seq_lib::lemma_seq_concat_contains_all_elements(along_x + along_y, plain, c);
    vstd::seq_lib::lemma_seq_concat_contains_all_elements(along_x, along_y, c);
    if plain.contains(c) {
        lemma_plain_line_reads(t, pen, q, c, rest);
    } else if along_x.contains(c) {
        lemma_coordinate_reads(t, x, cx, 'H', 'h', c, rest);
    } else {
        lemma_coordinate_reads(t, y, cy, 'V', 'v', c, rest);
    }
}

/// A cubic with all its points reads as the cubic.
#[verifier::rlimit(30)]
proof fn lemma_plain_cubic_reads<N>(
    t: Setting<N>,
    pen: Pen,
    c1: Point,
    c2: Point,
    e: Point,
    c: Seq<char>,
    rest: Seq<char>,
)
    requires
        faithful_point(t, c1, pen.cur),
        faithful_point(t, c2, pen.cur),
        faithful_point(t, e, pen.cur),
        path::forms(
            t.w,
            'C',
            path::coordinates(seq![c1, c2, e]),
            'c',
            path::offsets(seq![c1, c2, e], pen.cur),
            t.text,
        ).contains(c),
        reading::ends_number(rest),
    ensures
        read_command(t.g, c + rest, reader_at(pen, t.u)) == Some(
            step_of(t, pen, PathCmd::CubicTo(c1, c2, e), rest),
        ),
{
    let pts = seq![c1, c2, e];
    assert(pts[0] == c1 && pts[1] == c2 && pts[2] == e);
    assert(forall|i: int| 0 <= i < pts.len() ==> i == 0 || i == 1 || #[trigger] pts[i] == pts[2]);
    lemma_points_read(t, pts, pen, 'C', 'c', c, rest);
}

/// A smooth cubic without its first point reads as the cubic.
#[verifier::rlimit(30)]
proof fn lemma_smooth_cubic_reads<N>(
    t: Setting<N>,
    pen: Pen,
    c1: Point,
    c2: Point,
    e: Point,
    c: Seq<char>,
    rest: Seq<char>,
)
    requires
        faithful_point(t, c2, pen.cur),
        faithful_point(t, e, pen.cur),
        mirror(t.g, reader_at(pen, t.u)) == spot(c1, t.u),
        path::forms(
            t.w,
            'S',
            path::coordinates(seq![c2, e]),
            's',
            path::offsets(seq![c2, e], pen.cur),
            t.text,
        ).contains(c),
        reading::ends_number(rest),
    ensures
        read_command(t.g, c + rest, reader_at(pen, t.u)) == Some(
            step_of(t, pen, PathCmd::CubicTo(c1, c2, e), rest),
        ),
{
    let pts = seq![c2, e];
    assert(pts[0] == c2 && pts[1] == e);
    assert(forall|i: int| 0 <= i < pts.len() ==> i == 0 || #[trigger] pts[i] == pts[1]);
    lemma_points_read(t, pts, pen, 'S', 's', c, rest);
}

/// Every form of a cubic reads as the cubic.
proof fn lemma_cubic_reads<N>(
    t: Setting<N>,
    pen: Pen,
    c1: Point,
    c2: Point,
    e: Point,
    c: Seq<char>,
    rest: Seq<char>,
)
    requires
        faithful(t, pen, PathCmd::CubicTo(c1, c2, e)),
        path::candidates(t.w, pen, PathCmd::CubicTo(c1, c2, e), t.text).contains(c),
        reading::ends_number(rest),
    ensures
        read_command(t.g, c + rest, reader_at(pen, t.u)) == Some(
            step_of(t, pen, PathCmd::CubicTo(c1, c2, e), rest),
        ),
{
    let short = if t.w.shorthands && path::smooth(pen, c1, t.w.precision) {
        path::forms(
            t.w,
            'S',
            path::coordinates(seq![c2, e]),
            's',
            path::offsets(seq![c2, e], pen.cur),
            t.text,
        )
    } else {
        seq![]
    };
    let plain = path::forms(
        t.w,
        'C',
        path::coordinates(seq![c1, c2, e]),
        'c',
        path::offsets(seq![c1, c2, e], pen.cur),
        t.text,
    );
    vstd::seq_lib::lemma_seq_concat_contains_all_elements(short, plain, c);
    if plain.contains(c) {
        lemma_plain_cubic_reads(t, pen, c1, c2, e, c, rest);
    } else {
        lemma_smooth_cubic_reads(t, pen, c1, c2, e, c, rest);
    }
}

/// A command reads back, in whichever form it was written.
pub proof fn law_command_reads_back<N>(t: Setting<N>, pen: Pen, cmd: PathCmd, rest: Seq<char>)
    requires
        faithful(t, pen, cmd),
        reading::ends_number(rest),
    ensures
        read_command(
            t.g,
            path::command_text(t.w, pen, cmd, t.text) + rest,
            reader_at(pen, t.u),
        ) == Some(step_of(t, pen, cmd, rest)),
{
    let c = path::command_text(t.w, pen, cmd, t.text);
    laws::law_command_is_a_candidate(t.w, pen, cmd, t.text);
    match cmd {
        PathCmd::MoveTo(q) => lemma_move_reads(t, pen, q, c, rest),
        PathCmd::LineTo(q) => lemma_line_reads(t, pen, q, c, rest),
        PathCmd::CubicTo(c1, c2, e) => lemma_cubic_reads(t, pen, c1, c2, e, c, rest),
        PathCmd::Close => {
            assert(c == seq!['Z']);
            assert((c + rest).skip(1) =~= rest);
        },
    }
}

/// Path data is empty or starts with a letter.
proof fn lemma_commands_start(
    w: SvgWriter,
    pen: Pen,
    cmds: Seq<PathCmd>,
    text: number::Formatted,
)
    ensures
        reading::ends_number(path::commands_text(w, pen, cmds, text)),
        cmds.len() > 0 ==> path::commands_text(w, pen, cmds, text).len() > 0,
    decreases cmds.len(),
{
    if cmds.len() > 0 {
        let before = cmds.drop_last();
        let here = path::pen_after(pen, before);
        let c = path::command_text(w, here, cmds.last(), text);
        lemma_commands_start(w, pen, before, text);
        laws::law_command_is_a_candidate(w, here, cmds.last(), text);
        laws::law_candidates_are_allowed(w, here, cmds.last(), text, c);
        let s = path::commands_text(w, pen, cmds, text);
        if before.len() > 0 {
            assert(s[0] == path::commands_text(w, pen, before, text)[0]);
        } else {
            assert(s =~= c);
        }
    }
}

/// Commands read back: where all that may be written is read as it should be, a
/// reader finds the commands, in whatever forms they were written.
#[verifier::rlimit(30)]
pub proof fn law_commands_read_back<N>(t: Setting<N>, pen: Pen, cmds: Seq<PathCmd>)
    requires
        faithful_path(t, pen, cmds),
    ensures
        read_path(t.g, path::commands_text(t.w, pen, cmds, t.text), reader_at(pen, t.u)) == Some(
            strokes(cmds, t.u),
        ),
    decreases cmds.len(),
{
    let s = path::commands_text(t.w, pen, cmds, t.text);
    if cmds.len() == 0 {
        assert(strokes(cmds, t.u) =~= seq![]);
    } else {
        let first = seq![cmds[0]];
        let more = cmds.skip(1);
        let next = path::moved(pen, cmds[0]);
        assert(cmds =~= first + more);
        path::lemma_commands_add(t.w, pen, first, more, t.text);
        assert(first.drop_last() =~= seq![]);
        assert(cmds.take(0) =~= seq![]);
        assert(path::pen_after(pen, first.drop_last()) == pen);
        assert(path::pen_after(pen, first) == next);
        let c = path::command_text(t.w, pen, cmds[0], t.text);
        let rest = path::commands_text(t.w, next, more, t.text);
        assert(path::commands_text(t.w, pen, first.drop_last(), t.text) =~= seq![]);
        assert(s =~= c + rest);
        assert(faithful(t, pen, cmds[0]));
        lemma_commands_start(t.w, next, more, t.text);
        lemma_commands_start(t.w, pen, first, t.text);
        assert(path::commands_text(t.w, pen, first, t.text) =~= c);
        law_command_reads_back(t, pen, cmds[0], rest);
        assert forall|i: int| 0 <= i < more.len() implies faithful(
            t,
            path::pen_after(next, more.take(i)),
            #[trigger] more[i],
        ) by {
            assert(cmds[i + 1] == more[i]);
            assert(cmds.take(i + 1) =~= first + more.take(i));
            path::lemma_commands_add(t.w, pen, first, more.take(i), t.text);
        }
        law_commands_read_back(t, next, more);
        assert(strokes(cmds, t.u) =~= seq![stroke(cmds[0], t.u)] + strokes(more, t.u));
    }
}

/// Whether `ok` holds of all coordinates of `cmd`.
pub open spec fn holds_of(cmd: PathCmd, ok: spec_fn(Value) -> bool) -> bool {
    match cmd {
        PathCmd::MoveTo(q) => ok(q.x.value()) && ok(q.y.value()),
        PathCmd::LineTo(q) => ok(q.x.value()) && ok(q.y.value()),
        PathCmd::CubicTo(c1, c2, e) => ok(c1.x.value()) && ok(c1.y.value()) && ok(c2.x.value())
            && ok(c2.y.value()) && ok(e.x.value()) && ok(e.y.value()),
        PathCmd::Close => true,
    }
}

/// Whether `ok` holds of all coordinates of `cmds`.
pub open spec fn holds_of_all(cmds: Seq<PathCmd>, ok: spec_fn(Value) -> bool) -> bool {
    forall|i: int| 0 <= i < cmds.len() ==> holds_of(#[trigger] cmds[i], ok)
}

/// The numbers that a reader of `p` decimals can take in: finite, and with no more
/// decimals where the float formatter writes them.
pub open spec fn fitting(p: u32, text: number::Formatted) -> spec_fn(Value) -> bool {
    |x: Value| reading::fits(x, Some(p), p as nat, text)
}

/// How a reader of `p` decimals takes what is written at that precision.
spec fn fixed_setting(w: SvgWriter, p: u32, text: number::Formatted) -> Setting<int> {
    Setting {
        w,
        g: reading::in_decimals(p as nat),
        text,
        u: reading::as_written(Some(p), p as nat, text),
        d: |a: Value, b: Value| number::scaled(a, Some(p))->0 - number::scaled(b, Some(p))->0,
    }
}

proof fn lemma_fixed_faithful(w: SvgWriter, p: u32, text: number::Formatted, a: Value, b: Value)
    requires
        number::sound(text),
        w.precision == Some(p),
        fitting(p, text)(a),
    ensures
        faithful_coordinate(fixed_setting(w, p, text), a, b),
{
    reading::law_number_text_reads_back(a, Some(p), p as nat, text);
    if path::counted(a, b, Some(p)) {
        let (n, m) = (number::scaled(a, Some(p))->0, number::scaled(b, Some(p))->0);
        reading::law_number_reads_back(n - m, p as nat);
        lemma_scaled_reads(b, p, text);
    }
}

/// What is written as a whole number of parts is read as it.
proof fn lemma_scaled_reads(x: Value, p: u32, text: number::Formatted)
    requires
        number::scaled(x, Some(p)) is Some,
    ensures
        reading::as_written(Some(p), p as nat, text)(x) == number::scaled(x, Some(p))->0,
{
    let n = number::scaled(x, Some(p))->0;
    let t = number::number_text(x, Some(p), text);
    reading::law_number_reads_back(n, p as nat);
    assert(t + Seq::<char>::empty() =~= t);
    assert(reading::next_number(reading::in_decimals(p as nat), t + Seq::<char>::empty()) == Some(
        (n, Seq::<char>::empty()),
    ));
}

proof fn lemma_fixed_command_faithful(
    w: SvgWriter,
    p: u32,
    text: number::Formatted,
    pen: Pen,
    cmd: PathCmd,
)
    requires
        number::sound(text),
        w.precision == Some(p),
        holds_of(cmd, fitting(p, text)),
    ensures
        faithful(fixed_setting(w, p, text), pen, cmd),
{
    let (x, y) = (pen.cur.x.value(), pen.cur.y.value());
    match cmd {
        PathCmd::MoveTo(q) => {
            lemma_fixed_faithful(w, p, text, q.x.value(), x);
            lemma_fixed_faithful(w, p, text, q.y.value(), y);
        },
        PathCmd::LineTo(q) => {
            lemma_fixed_faithful(w, p, text, q.x.value(), x);
            lemma_fixed_faithful(w, p, text, q.y.value(), y);
        },
        PathCmd::CubicTo(c1, c2, e) => {
            lemma_fixed_faithful(w, p, text, c1.x.value(), x);
            lemma_fixed_faithful(w, p, text, c1.y.value(), y);
            lemma_fixed_faithful(w, p, text, c2.x.value(), x);
            lemma_fixed_faithful(w, p, text, c2.y.value(), y);
            lemma_fixed_faithful(w, p, text, e.x.value(), x);
            lemma_fixed_faithful(w, p, text, e.y.value(), y);
            if path::smooth(pen, c1, Some(p)) {
                let c = pen.prev_c2->0;
                lemma_scaled_reads(x, p, text);
                lemma_scaled_reads(y, p, text);
                lemma_scaled_reads(c.x.value(), p, text);
                lemma_scaled_reads(c.y.value(), p, text);
                lemma_scaled_reads(c1.x.value(), p, text);
                lemma_scaled_reads(c1.y.value(), p, text);
            }
        },
        PathCmd::Close => {},
    }
}

/// Path data reads back: whatever the precision and the options, a reader finds the
/// commands, with each coordinate as it is written by itself; where that is a whole
/// number of parts, it is that number.
pub proof fn law_path_reads_back(
    w: SvgWriter,
    p: u32,
    shape: ir::ShapeView,
    text: number::Formatted,
)
    requires
        number::sound(text),
        w.precision == Some(p),
        holds_of_all(shape.path.flatten(), fitting(p, text)),
    ensures
        read_path(reading::in_decimals(p as nat), svg::path_data(w, shape, text), origin(0int))
            == Some(
            strokes(shape.path.flatten(), reading::as_written(Some(p), p as nat, text)),
        ),
        forall|x: Value| #[trigger]
            number::scaled(x, Some(p)) matches Some(n) ==> reading::as_written(
                Some(p),
                p as nat,
                text,
            )(x) == n,
{
    let t = fixed_setting(w, p, text);
    let cmds = shape.path.flatten();
    let pen = path::initial_pen();
    assert forall|i: int| 0 <= i < cmds.len() implies faithful(
        t,
        path::pen_after(pen, cmds.take(i)),
        #[trigger] cmds[i],
    ) by {
        lemma_fixed_command_faithful(w, p, text, path::pen_after(pen, cmds.take(i)), cmds[i]);
    }
    law_commands_read_back(t, pen, cmds);
    lemma_zero_reads(p, text);
    assert(reader_at(pen, t.u) == origin(0int));
    assert forall|x: Value| #[trigger] number::scaled(x, Some(p)) is Some implies (t.u)(x)
        == number::scaled(x, Some(p))->0 by {
        lemma_scaled_reads(x, p, text);
    }
}

/// Zero is read as zero.
proof fn lemma_zero_reads(p: u32, text: number::Formatted)
    requires
        number::sound(text),
    ensures
        (scalar::Scalar { bits: 0 }).value() == Value::Finite(0),
        reading::as_written(Some(p), p as nat, text)(Value::Finite(0)) == 0,
{
    let zero = Value::Finite(0);
    grid::lemma_origin_on_grid(p as nat);
    assert(number::acceptable(zero, Some(p), text(zero, Some(p))));
    reading::law_number_text_reads_back(zero, Some(p), p as nat, text);
    if p <= 15 {
        grid::law_grid_coordinate_is_kept(zero, 0, p);
    } else {
        reading::law_number_reads_back(0, p as nat);
        let t = number::number_text(zero, Some(p), text);
        assert(t + Seq::<char>::empty() =~= t);
        assert(reading::next_number(reading::in_decimals(p as nat), t + Seq::<char>::empty())
            == Some((0int, Seq::<char>::empty())));
    }
}

/// The options do not change the geometry: two writers of one precision, whatever it
/// is, write path data that a reader finds the same strokes in.
pub proof fn law_options_keep_geometry(
    w: SvgWriter,
    v: SvgWriter,
    p: u32,
    shape: ir::ShapeView,
    text: number::Formatted,
)
    requires
        number::sound(text),
        w.precision == Some(p),
        v.precision == Some(p),
        holds_of_all(shape.path.flatten(), fitting(p, text)),
    ensures
        ({
            let g = reading::in_decimals(p as nat);
            let a = read_path(g, svg::path_data(w, shape, text), origin(0int));
            let b = read_path(g, svg::path_data(v, shape, text), origin(0int));
            a is Some && a == b
        }),
{
    law_path_reads_back(w, p, shape, text);
    law_path_reads_back(v, p, shape, text);
}

/// How a reader of binary64 numbers takes what is written at full precision.
spec fn full_setting(w: SvgWriter, parse: Parser, text: number::Formatted) -> Setting<Value> {
    Setting {
        w,
        g: reading::in_binary(parse),
        text,
        u: |x: Value| x,
        d: |a: Value, b: Value| scalar::difference(a, b),
    }
}

proof fn lemma_full_faithful(
    w: SvgWriter,
    parse: Parser,
    text: number::Formatted,
    a: scalar::Scalar,
    b: Value,
)
    requires
        number::sound(text),
        reading::gives_back(parse, text),
        w.precision is None,
        a.value() is Finite,
    ensures
        faithful_coordinate(full_setting(w, parse, text), a.value(), b),
{
    a.lemma_representable();
    reading::law_full_number_reads_back(a.value(), parse, text);
    if path::counted(a.value(), b, None) {
        let d = scalar::difference(a.value(), b);
        reading::law_full_number_reads_back(d, parse, text);
    }
}

proof fn lemma_full_command_faithful(
    w: SvgWriter,
    parse: Parser,
    text: number::Formatted,
    pen: Pen,
    cmd: PathCmd,
)
    requires
        number::sound(text),
        reading::gives_back(parse, text),
        w.precision is None,
        holds_of(cmd, |x: Value| x is Finite),
    ensures
        faithful(full_setting(w, parse, text), pen, cmd),
{
    let (x, y) = (pen.cur.x.value(), pen.cur.y.value());
    match cmd {
        PathCmd::MoveTo(q) => {
            lemma_full_faithful(w, parse, text, q.x, x);
            lemma_full_faithful(w, parse, text, q.y, y);
        },
        PathCmd::LineTo(q) => {
            lemma_full_faithful(w, parse, text, q.x, x);
            lemma_full_faithful(w, parse, text, q.y, y);
        },
        PathCmd::CubicTo(c1, c2, e) => {
            lemma_full_faithful(w, parse, text, c1.x, x);
            lemma_full_faithful(w, parse, text, c1.y, y);
            lemma_full_faithful(w, parse, text, c2.x, x);
            lemma_full_faithful(w, parse, text, c2.y, y);
            lemma_full_faithful(w, parse, text, e.x, x);
            lemma_full_faithful(w, parse, text, e.y, y);
        },
        PathCmd::Close => {},
    }
}

/// Full precision loses nothing, and the options do not change the geometry there
/// either: without a precision a reader of binary64 numbers, whose parser gives back
/// what the float formatter writes, finds the commands with the very coordinates
/// that they have.
pub proof fn law_full_path_reads_back(
    w: SvgWriter,
    parse: Parser,
    shape: ir::ShapeView,
    text: number::Formatted,
)
    requires
        number::sound(text),
        reading::gives_back(parse, text),
        w.precision is None,
        holds_of_all(shape.path.flatten(), |x: Value| x is Finite),
    ensures
        read_path(
            reading::in_binary(parse),
            svg::path_data(w, shape, text),
            origin(Value::Finite(0)),
        ) == Some(strokes(shape.path.flatten(), |x: Value| x)),
{
    let t = full_setting(w, parse, text);
    let cmds = shape.path.flatten();
    let pen = path::initial_pen();
    assert forall|i: int| 0 <= i < cmds.len() implies faithful(
        t,
        path::pen_after(pen, cmds.take(i)),
        #[trigger] cmds[i],
    ) by {
        assert(holds_of(cmds[i], |x: Value| x is Finite));
        lemma_full_command_faithful(w, parse, text, path::pen_after(pen, cmds.take(i)), cmds[i]);
    }
    law_commands_read_back(t, pen, cmds);
    grid::lemma_origin_on_grid(0);
    assert(reader_at(pen, t.u) == origin(Value::Finite(0)));
    assert(t.u == (|x: Value| x));
}

/// Two writers of full precision, whatever their other options, write path data that
/// such a reader finds the same strokes in.
pub proof fn law_full_options_keep_geometry(
    w: SvgWriter,
    v: SvgWriter,
    parse: Parser,
    shape: ir::ShapeView,
    text: number::Formatted,
)
    requires
        number::sound(text),
        reading::gives_back(parse, text),
        w.precision is None,
        v.precision is None,
        holds_of_all(shape.path.flatten(), |x: Value| x is Finite),
    ensures
        ({
            let g = reading::in_binary(parse);
            let zero = Value::Finite(0);
            let a = read_path(g, svg::path_data(w, shape, text), origin(zero));
            let b = read_path(g, svg::path_data(v, shape, text), origin(zero));
            a is Some && a == b
        }),
{
    law_full_path_reads_back(w, parse, shape, text);
    law_full_path_reads_back(v, parse, shape, text);
}

} // verus!
