//! Path data: the text of an SVG `d` attribute, one command at a time.
//!
//! For each command the encoder forms every text that the writer's options allow
//! and keeps the shortest.
use vstd::prelude::*;
use vstd::string::*;
use vstd::utf8::*;

use crate::ir::{PathCmd, Point, SubPath};
use crate::number;
use crate::scalar;
use crate::scalar::{Scalar, Value};
use crate::svg::SvgWriter;

verus! {

/// The number of bytes that `s` takes.
pub open spec fn size(s: Seq<char>) -> nat {
    encode_utf8(s).len()
}

/// What is kept of the best candidate so far, empty at the start, and the next
/// one: the shorter, and of two as long the earlier.
pub open spec fn preferred(best: Seq<char>, cand: Seq<char>) -> Seq<char> {
    if best.len() == 0 || size(cand) < size(best) {
        cand
    } else {
        best
    }
}

/// What is kept of a list of candidates.
pub open spec fn chosen(cands: Seq<Seq<char>>) -> Seq<char>
    decreases cands.len(),
{
    if cands.len() == 0 {
        seq![]
    } else {
        preferred(chosen(cands.drop_last()), cands.last())
    }
}

/// Keep the shortest candidate; ties keep the earlier one. An empty `best` means
/// that none is chosen yet.
pub fn consider(best: &mut String, cand: &str)
    ensures
        final(best)@ == preferred(old(best)@, cand@),
{
    if best.as_str().is_empty() || cand.as_bytes().len() < best.as_str().as_bytes().len() {
        *best = cand.to_owned();
    }
}

/// `n` as it stands in a list: a comma parts it from the number before it, unless
/// it is the first or its sign does.
pub open spec fn listed(n: Seq<char>, first: bool) -> Seq<char> {
    if first || (n.len() > 0 && n[0] == '-') {
        n
    } else {
        seq![','] + n
    }
}

/// The list of `nums` with the separators that path data needs.
pub open spec fn joined(nums: Seq<Seq<char>>) -> Seq<char>
    decreases nums.len(),
{
    if nums.len() == 0 {
        seq![]
    } else {
        joined(nums.drop_last()) + listed(nums.last(), nums.len() == 1)
    }
}

/// A number of a command.
pub enum Coordinate {
    /// The coordinate itself.
    At(Value),
    /// The first coordinate, counted from the second.
    From(Value, Value),
}

pub open spec fn coordinate_text(
    c: Coordinate,
    precision: Option<u32>,
    text: number::Formatted,
) -> Seq<char> {
    match c {
        Coordinate::At(a) => number::number_text(a, precision, text),
        Coordinate::From(a, b) => number::delta_text(a, b, precision, text),
    }
}

/// The texts of `values`.
pub open spec fn number_texts(
    values: Seq<Coordinate>,
    precision: Option<u32>,
    text: number::Formatted,
) -> Seq<Seq<char>> {
    Seq::new(values.len(), |i: int| coordinate_text(values[i], precision, text))
}

/// The list of `values`.
pub open spec fn list_text(
    values: Seq<Coordinate>,
    precision: Option<u32>,
    text: number::Formatted,
) -> Seq<char> {
    joined(number_texts(values, precision, text))
}

/// Join formatted numbers with the minimal separators that SVG allows: a comma,
/// except that a leading `-` separates by itself.
pub fn join_nums(nums: &[String]) -> (s: String)
    ensures
        s@ == joined(Seq::new(nums@.len(), |i: int| nums@[i]@)),
{
    let ghost texts = Seq::new(nums@.len(), |i: int| nums@[i]@);
    let mut s = String::new();
    let mut i: usize = 0;
    assert(texts.take(0) =~= seq![]);
    while i < nums.len()
        invariant
            i <= nums.len(),
            texts == Seq::new(nums@.len(), |i: int| nums@[i]@),
            s@ == joined(texts.take(i as int)),
        decreases nums.len() - i,
    {
        let n = nums[i].as_str();
        if i > 0 && !(!n.is_empty() && n.get_char(0) == '-') {
            s.push(',');
        }
        s.append(n);
        i = i + 1;
        assert(texts.take(i as int).drop_last() =~= texts.take(i - 1));
        assert(s@ =~= joined(texts.take(i as int)));
    }
    assert(texts.take(i as int) =~= texts);
    s
}

/// Append one number to a list: a comma comes before it, unless it is the first
/// of its list or starts with a `-`, which separates by itself.
pub fn push_list_num<F: Fn(Scalar, Option<u32>) -> Option<String>>(
    buf: &mut String,
    v: Scalar,
    precision: Option<u32>,
    first: bool,
    format: &F,
)
    requires
        number::is_formatter(*format),
    ensures
        final(buf)@ == old(buf)@ + listed(
            number::number_text(v.value(), precision, number::formatted(*format)),
            first,
        ),
{
    let n = number::fmt_num(v, precision, format);
    let n = n.as_str();
    if !first && !(!n.is_empty() && n.get_char(0) == '-') {
        buf.push(',');
    }
    buf.append(n);
    assert(buf@ =~= old(buf)@ + listed(n@, first));
}

/// Append the way from `b` to `a` to a list, with the separator as in
/// [`push_list_num`].
pub fn push_list_delta<F: Fn(Scalar, Option<u32>) -> Option<String>>(
    buf: &mut String,
    a: Scalar,
    b: Scalar,
    precision: Option<u32>,
    first: bool,
    format: &F,
)
    requires
        number::is_formatter(*format),
    ensures
        final(buf)@ == old(buf)@ + listed(
            number::delta_text(a.value(), b.value(), precision, number::formatted(*format)),
            first,
        ),
{
    let mut n = String::new();
    number::push_delta(&mut n, a, b, precision, format);
    assert(n@ =~= number::delta_text(
        a.value(),
        b.value(),
        precision,
        number::formatted(*format),
    ));
    let n = n.as_str();
    if !first && !(!n.is_empty() && n.get_char(0) == '-') {
        buf.push(',');
    }
    buf.append(n);
    assert(buf@ =~= old(buf)@ + listed(n@, first));
}

/// The coordinates of `pts`, one after the other.
pub open spec fn coordinates(pts: Seq<Point>) -> Seq<Coordinate>
    decreases pts.len(),
{
    if pts.len() == 0 {
        seq![]
    } else {
        coordinates(pts.drop_last()).push(Coordinate::At(pts.last().x.value())).push(
            Coordinate::At(pts.last().y.value()),
        )
    }
}

/// The coordinates of `pts`, counted from those of `cur`.
pub open spec fn offsets(pts: Seq<Point>, cur: Point) -> Seq<Coordinate>
    decreases pts.len(),
{
    if pts.len() == 0 {
        seq![]
    } else {
        offsets(pts.drop_last(), cur).push(
            Coordinate::From(pts.last().x.value(), cur.x.value()),
        ).push(Coordinate::From(pts.last().y.value(), cur.y.value()))
    }
}

/// A list grows by its last number.
proof fn lemma_list_push(
    values: Seq<Coordinate>,
    v: Coordinate,
    precision: Option<u32>,
    text: number::Formatted,
)
    ensures
        list_text(values.push(v), precision, text) == list_text(values, precision, text) + listed(
            coordinate_text(v, precision, text),
            values.len() == 0,
        ),
{
    let all = number_texts(values.push(v), precision, text);
    assert(all.drop_last() =~= number_texts(values, precision, text));
}

/// A list behind `before` grows by its last two numbers.
proof fn lemma_list_push_pair(
    before: Seq<char>,
    values: Seq<Coordinate>,
    x: Coordinate,
    y: Coordinate,
    precision: Option<u32>,
    text: number::Formatted,
)
    ensures
        before + list_text(values.push(x).push(y), precision, text) == before + list_text(
            values,
            precision,
            text,
        ) + listed(coordinate_text(x, precision, text), values.len() == 0) + listed(
            coordinate_text(y, precision, text),
            false,
        ),
{
    lemma_list_push(values, x, precision, text);
    lemma_list_push(values.push(x), y, precision, text);
    let a = list_text(values, precision, text);
    let b = listed(coordinate_text(x, precision, text), values.len() == 0);
    let c = listed(coordinate_text(y, precision, text), false);
    assert(before + (a + b + c) =~= before + a + b + c);
}

/// The empty list has no text.
proof fn lemma_list_empty(precision: Option<u32>, text: number::Formatted)
    ensures
        list_text(seq![], precision, text) == Seq::<char>::empty(),
{
}

/// Absolute coordinate pair after a command letter.
pub fn push_coord<F: Fn(Scalar, Option<u32>) -> Option<String>>(
    buf: &mut String,
    p: Point,
    precision: Option<u32>,
    format: &F,
)
    requires
        number::is_formatter(*format),
    ensures
        final(buf)@ == old(buf)@ + list_text(
            coordinates(seq![p]),
            precision,
            number::formatted(*format),
        ),
{
    push_list_num(buf, p.x, precision, true, format);
    push_list_num(buf, p.y, precision, false, format);
    proof {
        let text = number::formatted(*format);
        let (x, y) = (Coordinate::At(p.x.value()), Coordinate::At(p.y.value()));
        lemma_list_pair(x, y, precision, text);
        assert(seq![p].drop_last() =~= seq![]);
        assert(coordinates(seq![p].drop_last()) =~= seq![]);
        assert(coordinates(seq![p]) =~= seq![x, y]);
        assert(buf@ =~= old(buf)@ + list_text(seq![x, y], precision, text));
    }
}

/// The list of two numbers.
proof fn lemma_list_pair(
    x: Coordinate,
    y: Coordinate,
    precision: Option<u32>,
    text: number::Formatted,
)
    ensures
        list_text(seq![x, y], precision, text) == coordinate_text(x, precision, text) + listed(
            coordinate_text(y, precision, text),
            false,
        ),
{
    let none = Seq::<Coordinate>::empty();
    lemma_list_empty(precision, text);
    lemma_list_push(none, x, precision, text);
    lemma_list_push(none.push(x), y, precision, text);
    assert(none.push(x).push(y) =~= seq![x, y]);
    assert(list_text(none, precision, text) + coordinate_text(x, precision, text)
        =~= coordinate_text(x, precision, text));
}

/// Coordinate pair counted from `cur`.
pub fn push_coord_delta<F: Fn(Scalar, Option<u32>) -> Option<String>>(
    buf: &mut String,
    p: Point,
    cur: Point,
    precision: Option<u32>,
    format: &F,
)
    requires
        number::is_formatter(*format),
    ensures
        final(buf)@ == old(buf)@ + list_text(
            offsets(seq![p], cur),
            precision,
            number::formatted(*format),
        ),
{
    push_list_delta(buf, p.x, cur.x, precision, true, format);
    push_list_delta(buf, p.y, cur.y, precision, false, format);
    proof {
        let text = number::formatted(*format);
        let x = Coordinate::From(p.x.value(), cur.x.value());
        let y = Coordinate::From(p.y.value(), cur.y.value());
        lemma_list_pair(x, y, precision, text);
        assert(seq![p].drop_last() =~= seq![]);
        assert(offsets(seq![p].drop_last(), cur) =~= seq![]);
        assert(offsets(seq![p], cur) =~= seq![x, y]);
        assert(buf@ =~= old(buf)@ + list_text(seq![x, y], precision, text));
    }
}

/// Absolute list of points, flattened.
pub fn push_coord_list<F: Fn(Scalar, Option<u32>) -> Option<String>>(
    buf: &mut String,
    pts: &[Point],
    precision: Option<u32>,
    format: &F,
)
    requires
        number::is_formatter(*format),
    ensures
        final(buf)@ == old(buf)@ + list_text(
            coordinates(pts@),
            precision,
            number::formatted(*format),
        ),
{
    let ghost text = number::formatted(*format);
    let ghost before = buf@;
    let mut i: usize = 0;
    proof {
        lemma_list_empty(precision, text);
        assert(coordinates(pts@.take(0)) =~= seq![]);
        assert(buf@ =~= before + list_text(coordinates(pts@.take(0)), precision, text));
    }
    while i < pts.len()
        invariant
            i <= pts.len(),
            number::is_formatter(*format),
            text == number::formatted(*format),
            buf@ == before + list_text(coordinates(pts@.take(i as int)), precision, text),
            i > 0 ==> coordinates(pts@.take(i as int)).len() > 0,
            i == 0 ==> coordinates(pts@.take(i as int)).len() == 0,
        decreases pts.len() - i,
    {
        let p = pts[i];
        let ghost done = coordinates(pts@.take(i as int));
        push_list_num(buf, p.x, precision, i == 0, format);
        push_list_num(buf, p.y, precision, false, format);
        i = i + 1;
        proof {
            assert(pts@.take(i as int).drop_last() =~= pts@.take(i - 1));
            let (x, y) = (Coordinate::At(p.x.value()), Coordinate::At(p.y.value()));
            assert(coordinates(pts@.take(i as int)) == done.push(x).push(y));
            lemma_list_push_pair(before, done, x, y, precision, text);
        }
    }
    assert(pts@.take(i as int) =~= pts@);
}

/// List of points counted from `cur`, all of them, as the relative commands of
/// several points have it.
pub fn push_delta_list<F: Fn(Scalar, Option<u32>) -> Option<String>>(
    buf: &mut String,
    pts: &[Point],
    cur: Point,
    precision: Option<u32>,
    format: &F,
)
    requires
        number::is_formatter(*format),
    ensures
        final(buf)@ == old(buf)@ + list_text(
            offsets(pts@, cur),
            precision,
            number::formatted(*format),
        ),
{
    let ghost text = number::formatted(*format);
    let ghost before = buf@;
    let mut i: usize = 0;
    proof {
        lemma_list_empty(precision, text);
        assert(offsets(pts@.take(0), cur) =~= seq![]);
        assert(buf@ =~= before + list_text(offsets(pts@.take(0), cur), precision, text));
    }
    while i < pts.len()
        invariant
            i <= pts.len(),
            number::is_formatter(*format),
            text == number::formatted(*format),
            buf@ == before + list_text(offsets(pts@.take(i as int), cur), precision, text),
            i > 0 ==> offsets(pts@.take(i as int), cur).len() > 0,
            i == 0 ==> offsets(pts@.take(i as int), cur).len() == 0,
        decreases pts.len() - i,
    {
        let p = pts[i];
        let ghost done = offsets(pts@.take(i as int), cur);
        push_list_delta(buf, p.x, cur.x, precision, i == 0, format);
        push_list_delta(buf, p.y, cur.y, precision, false, format);
        i = i + 1;
        proof {
            let x = Coordinate::From(p.x.value(), cur.x.value());
            let y = Coordinate::From(p.y.value(), cur.y.value());
            assert(pts@.take(i as int).drop_last() =~= pts@.take(i - 1));
            assert(offsets(pts@.take(i as int), cur) == done.push(x).push(y));
            lemma_list_push_pair(before, done, x, y, precision, text);
        }
    }
    assert(pts@.take(i as int) =~= pts@);
}

/// Where the encoder stands.
pub struct Pen {
    /// The current point.
    pub cur: Point,
    /// Start of the current subpath; the current point returns there after `Z`.
    pub start: Point,
    /// Whether there has been a move.
    pub started: bool,
    /// The second control point, where the last command was a cubic.
    pub prev_c2: Option<Point>,
}

/// Before the first command: at the origin.
pub open spec fn initial_pen() -> Pen {
    let origin = Point { x: Scalar { bits: 0 }, y: Scalar { bits: 0 } };
    Pen { cur: origin, start: origin, started: false, prev_c2: None }
}

/// After `cmd`.
pub open spec fn moved(pen: Pen, cmd: PathCmd) -> Pen {
    match cmd {
        PathCmd::MoveTo(p) => Pen { cur: p, start: p, started: true, prev_c2: None },
        PathCmd::LineTo(p) => Pen { cur: p, prev_c2: None, ..pen },
        PathCmd::CubicTo(_, c2, e) => Pen { cur: e, prev_c2: Some(c2), ..pen },
        PathCmd::Close => Pen { cur: pen.start, prev_c2: None, ..pen },
    }
}

/// A command letter and its numbers.
pub open spec fn token(
    letter: char,
    values: Seq<Coordinate>,
    precision: Option<u32>,
    text: number::Formatted,
) -> Seq<char> {
    seq![letter] + list_text(values, precision, text)
}

/// Whether a reader that adds what is written of the way from `b` to `a` to `b`
/// gets to `a`: at a precision where both are written as whole numbers of parts, and
/// without one where the difference is not rounded.
pub open spec fn counted(a: Value, b: Value, precision: Option<u32>) -> bool {
    match precision {
        Some(_) => number::scaled(a, precision) is Some && number::scaled(b, precision) is Some,
        None => scalar::exact_difference(a, b),
    }
}

/// Whether that holds of all numbers of a list that are counted from others.
pub open spec fn all_counted(values: Seq<Coordinate>, precision: Option<u32>) -> bool {
    forall|i: int|
        0 <= i < values.len() ==> (#[trigger] values[i] matches Coordinate::From(a, b) ==> counted(
            a,
            b,
            precision,
        ))
}

/// A command with absolute numbers and, where the writer allows it and they lead to
/// the same points, with relative ones.
pub open spec fn forms(
    w: SvgWriter,
    upper: char,
    absolute: Seq<Coordinate>,
    lower: char,
    relative: Seq<Coordinate>,
    text: number::Formatted,
) -> Seq<Seq<char>> {
    if w.relative && all_counted(relative, w.precision) {
        seq![
            token(upper, absolute, w.precision, text),
            token(lower, relative, w.precision, text),
        ]
    } else {
        seq![token(upper, absolute, w.precision, text)]
    }
}

/// The binary64 number nearest to a millionth, in units of `2^-1074`.
pub open spec fn tolerance() -> nat {
    0x10_c6f7_a0b5_ed8d * vstd::arithmetic::power2::pow2(1002)
}

/// Whether two coordinates differ by less than a millionth, as binary64 subtracts.
pub open spec fn near(a: Value, b: Value) -> bool {
    match scalar::difference(a, b) {
        Value::Finite(d) => scalar::distance(d) < tolerance(),
        _ => false,
    }
}

/// `prev` mirrored at `cur`, as binary64 computes `2 * cur - prev`.
pub open spec fn mirrored(cur: Value, prev: Value) -> Value {
    scalar::difference(scalar::multiple(cur, 2), prev)
}

/// Whether a reader that mirrors `prev` at `cur` gets to `c1`: at a precision where
/// `c1` mirrors `prev` to a millionth, and in whole numbers of parts exactly; and
/// without one where binary64 mirrors `prev` to `c1`.
pub open spec fn mirrors(cur: Value, prev: Value, c1: Value, precision: Option<u32>) -> bool {
    match precision {
        Some(_) => {
            &&& near(mirrored(cur, prev), c1)
            &&& match (
                number::scaled(cur, precision),
                number::scaled(prev, precision),
                number::scaled(c1, precision),
            ) {
                (Some(n), Some(m), Some(k)) => k == 2 * n - m,
                _ => false,
            }
        },
        None => scalar::equal(mirrored(cur, prev), c1),
    }
}

/// Whether a cubic whose first control point is `c1` goes on smoothly: `c1`
/// mirrors the second control point of the cubic before it.
pub open spec fn smooth(pen: Pen, c1: Point, precision: Option<u32>) -> bool {
    match pen.prev_c2 {
        Some(c2) => {
            &&& mirrors(pen.cur.x.value(), c2.x.value(), c1.x.value(), precision)
            &&& mirrors(pen.cur.y.value(), c2.y.value(), c1.y.value(), precision)
        },
        None => false,
    }
}

/// The texts of `cmd` that the writer may choose from.
pub open spec fn candidates(
    w: SvgWriter,
    pen: Pen,
    cmd: PathCmd,
    text: number::Formatted,
) -> Seq<Seq<char>> {
    let cur = pen.cur;
    match cmd {
        PathCmd::MoveTo(p) => if pen.started {
            forms(w, 'M', coordinates(seq![p]), 'm', offsets(seq![p], cur), text)
        } else {
            seq![token('M', coordinates(seq![p]), w.precision, text)]
        },
        PathCmd::LineTo(p) => {
            let (x, y) = (p.x.value(), p.y.value());
            let (cx, cy) = (cur.x.value(), cur.y.value());
            let along_x = if w.shorthands && scalar::equal(y, cy) {
                forms(
                    w,
                    'H',
                    seq![Coordinate::At(x)],
                    'h',
                    seq![Coordinate::From(x, cx)],
                    text,
                )
            } else {
                seq![]
            };
            let along_y = if w.shorthands && scalar::equal(x, cx) {
                forms(
                    w,
                    'V',
                    seq![Coordinate::At(y)],
                    'v',
                    seq![Coordinate::From(y, cy)],
                    text,
                )
            } else {
                seq![]
            };
            along_x + along_y + forms(
                w,
                'L',
                coordinates(seq![p]),
                'l',
                offsets(seq![p], cur),
                text,
            )
        },
        PathCmd::CubicTo(c1, c2, e) => {
            let short = if w.shorthands && smooth(pen, c1, w.precision) {
                forms(w, 'S', coordinates(seq![c2, e]), 's', offsets(seq![c2, e], cur), text)
            } else {
                seq![]
            };
            short + forms(
                w,
                'C',
                coordinates(seq![c1, c2, e]),
                'c',
                offsets(seq![c1, c2, e], cur),
                text,
            )
        },
        PathCmd::Close => seq![seq!['Z']],
    }
}

/// The text of `cmd`.
pub open spec fn command_text(
    w: SvgWriter,
    pen: Pen,
    cmd: PathCmd,
    text: number::Formatted,
) -> Seq<char> {
    chosen(candidates(w, pen, cmd, text))
}

/// Where `cmds` lead.
pub open spec fn pen_after(pen: Pen, cmds: Seq<PathCmd>) -> Pen
    decreases cmds.len(),
{
    if cmds.len() == 0 {
        pen
    } else {
        moved(pen_after(pen, cmds.drop_last()), cmds.last())
    }
}

/// The text of `cmds`, one command after the other.
pub open spec fn commands_text(
    w: SvgWriter,
    pen: Pen,
    cmds: Seq<PathCmd>,
    text: number::Formatted,
) -> Seq<char>
    decreases cmds.len(),
{
    if cmds.len() == 0 {
        seq![]
    } else {
        commands_text(w, pen, cmds.drop_last(), text) + command_text(
            w,
            pen_after(pen, cmds.drop_last()),
            cmds.last(),
            text,
        )
    }
}

/// Two runs of commands make one.
pub proof fn lemma_commands_add(
    w: SvgWriter,
    pen: Pen,
    a: Seq<PathCmd>,
    b: Seq<PathCmd>,
    text: number::Formatted,
)
    ensures
        pen_after(pen, a + b) == pen_after(pen_after(pen, a), b),
        commands_text(w, pen, a + b, text) == commands_text(w, pen, a, text) + commands_text(
            w,
            pen_after(pen, a),
            b,
            text,
        ),
    decreases b.len(),
{
    if b.len() == 0 {
        assert(a + b =~= a);
        assert(commands_text(w, pen, a + b, text) =~= commands_text(w, pen, a, text)
            + commands_text(w, pen_after(pen, a), b, text));
    } else {
        assert((a + b).drop_last() =~= a + b.drop_last());
        lemma_commands_add(w, pen, a, b.drop_last(), text);
        assert(commands_text(w, pen, a + b, text) =~= commands_text(w, pen, a, text)
            + commands_text(w, pen_after(pen, a), b, text));
    }
}

/// What is kept of `best` and a list of candidates that come after it.
pub open spec fn weighed(best: Seq<char>, cands: Seq<Seq<char>>) -> Seq<char>
    decreases cands.len(),
{
    if cands.len() == 0 {
        best
    } else {
        preferred(weighed(best, cands.drop_last()), cands.last())
    }
}

/// Candidates that come last are weighed against what was chosen before them.
proof fn lemma_chosen_add(a: Seq<Seq<char>>, b: Seq<Seq<char>>)
    ensures
        chosen(a + b) == weighed(chosen(a), b),
    decreases b.len(),
{
    if b.len() == 0 {
        assert(a + b =~= a);
    } else {
        assert((a + b).drop_last() =~= a + b.drop_last());
        lemma_chosen_add(a, b.drop_last());
    }
}

/// What is chosen of candidates alone.
proof fn lemma_chosen_alone(cands: Seq<Seq<char>>)
    ensures
        chosen(cands) == weighed(seq![], cands),
{
    lemma_chosen_add(seq![], cands);
    assert(Seq::<Seq<char>>::empty() + cands =~= cands);
}

/// A candidate alone is chosen.
proof fn lemma_chosen_one(c: Seq<char>)
    ensures
        chosen(seq![c]) == c,
{
    assert(seq![c].drop_last() =~= seq![]);
    assert(chosen(seq![c].drop_last()) == Seq::<char>::empty());
}

/// A form and then another, or the one alone.
proof fn lemma_weighed_forms(
    best: Seq<char>,
    w: SvgWriter,
    upper: char,
    absolute: Seq<Coordinate>,
    lower: char,
    relative: Seq<Coordinate>,
    text: number::Formatted,
)
    ensures
        weighed(best, forms(w, upper, absolute, lower, relative, text)) == ({
            let first = preferred(best, token(upper, absolute, w.precision, text));
            if w.relative && all_counted(relative, w.precision) {
                preferred(first, token(lower, relative, w.precision, text))
            } else {
                first
            }
        }),
{
    let all = forms(w, upper, absolute, lower, relative, text);
    let one = seq![token(upper, absolute, w.precision, text)];
    assert(one.drop_last() =~= seq![]);
    assert(weighed(best, one.drop_last()) == best);
    assert(weighed(best, one) == preferred(best, one[0]));
    if w.relative && all_counted(relative, w.precision) {
        assert(all.drop_last() =~= one);
    } else {
        assert(all =~= one);
    }
}

/// A list of one number.
proof fn lemma_list_single(v: Coordinate, precision: Option<u32>, text: number::Formatted)
    ensures
        list_text(seq![v], precision, text) == coordinate_text(v, precision, text),
{
    lemma_list_empty(precision, text);
    lemma_list_push(seq![], v, precision, text);
    assert(Seq::<Coordinate>::empty().push(v) =~= seq![v]);
    assert(list_text(seq![v], precision, text) =~= coordinate_text(v, precision, text));
}

/// The bit pattern of a millionth.
const MILLIONTH: u64 = 0x3eb0_c6f7_a0b5_ed8d;

/// Whether two points differ by less than a millionth in each coordinate.
pub fn approx(a: Point, b: Point) -> (r: bool)
    ensures
        r == (near(a.x.value(), b.x.value()) && near(a.y.value(), b.y.value())),
{
    let limit = Scalar { bits: MILLIONTH };
    assert(limit.significand() == 0x10_c6f7_a0b5_ed8d);
    assert(limit.exponent() == 1002);
    a.x.sub(b.x).nearer_zero_than(limit) && a.y.sub(b.y).nearer_zero_than(limit)
}

/// Whether `cur`, `prev` and `c1` are written as whole numbers of parts, and in these
/// `c1` mirrors `prev` at `cur`.
fn mirrors_as_written(
    cur: Scalar,
    prev: Scalar,
    c1: Scalar,
    precision: Option<u32>,
) -> (r: bool)
    ensures
        r == (match (
            number::scaled(cur.value(), precision),
            number::scaled(prev.value(), precision),
            number::scaled(c1.value(), precision),
        ) {
            (Some(n), Some(m), Some(k)) => k == 2 * n - m,
            _ => false,
        }),
{
    match (
        number::scaled_parts(cur, precision),
        number::scaled_parts(prev, precision),
        number::scaled_parts(c1, precision),
    ) {
        (Some(n), Some(m), Some(k)) => k == 2 * n - m,
        _ => false,
    }
}

/// Whether a reader that adds what is written of the way from `b` to `a` to `b` gets
/// to `a`.
fn counts(a: Scalar, b: Scalar, precision: Option<u32>) -> (r: bool)
    ensures
        r == counted(a.value(), b.value(), precision),
{
    if precision.is_none() {
        a.differs_exactly(b)
    } else {
        number::scaled_parts(a, precision).is_some() && number::scaled_parts(
            b,
            precision,
        ).is_some()
    }
}

/// [`counts`], of all coordinates of `pts` and `cur`.
fn all_count(pts: &[Point], cur: Point, precision: Option<u32>) -> (r: bool)
    ensures
        r == all_counted(offsets(pts@, cur), precision),
{
    let mut i: usize = 0;
    assert(offsets(pts@.take(0), cur) =~= seq![]);
    while i < pts.len()
        invariant
            i <= pts.len(),
            all_counted(offsets(pts@.take(i as int), cur), precision),
        decreases pts.len() - i,
    {
        let p = pts[i];
        proof {
            lemma_offsets_prefix(pts@, (i + 1) as nat, cur, precision);
        }
        if !counts(p.x, cur.x, precision) || !counts(p.y, cur.y, precision) {
            return false;
        }
        i = i + 1;
    }
    assert(pts@.take(i as int) =~= pts@);
    true
}

/// The offsets of the first `k` points, and whether they count, by their last
/// point.
proof fn lemma_offsets_prefix(pts: Seq<Point>, k: nat, cur: Point, precision: Option<u32>)
    requires
        0 < k <= pts.len(),
    ensures
        ({
            let p = pts[k - 1];
            let last = counted(p.x.value(), cur.x.value(), precision) && counted(
                p.y.value(),
                cur.y.value(),
                precision,
            );
            &&& all_counted(offsets(pts.take(k as int), cur), precision) == (all_counted(
                offsets(pts.take(k - 1), cur),
                precision,
            ) && last)
            &&& !last ==> !all_counted(offsets(pts, cur), precision)
        }),
{
    let some = pts.take(k as int);
    let p = pts[k - 1];
    let (x, y) = (
        Coordinate::From(p.x.value(), cur.x.value()),
        Coordinate::From(p.y.value(), cur.y.value()),
    );
    let fewer = offsets(pts.take(k - 1), cur);
    assert(some.drop_last() =~= pts.take(k - 1));
    assert(offsets(some, cur) == fewer.push(x).push(y));
    lemma_counted_push(fewer, x, y, precision);
    if !all_counted(offsets(some, cur), precision) {
        lemma_offsets_grow(pts, k, cur, precision);
    }
}

proof fn lemma_counted_push(
    values: Seq<Coordinate>,
    x: Coordinate,
    y: Coordinate,
    precision: Option<u32>,
)
    requires
        x is From,
        y is From,
    ensures
        all_counted(values.push(x).push(y), precision) == (all_counted(values, precision)
            && counted(x->From_0, x->From_1, precision) && counted(
            y->From_0,
            y->From_1,
            precision,
        )),
{
    let all = values.push(x).push(y);
    let n = values.len() as int;
    assert(all[n] == x && all[n + 1] == y);
    assert(forall|i: int| 0 <= i < n ==> #[trigger] all[i] == values[i]);
    if all_counted(all, precision) {
        assert forall|i: int| 0 <= i < values.len() implies (#[trigger] values[i] matches Coordinate::From(a, b) ==> counted(a, b, precision)) by {
            assert(all[i] == values[i]);
        }
    }
}

/// Offsets that do not count still do not with more points.
proof fn lemma_offsets_grow(pts: Seq<Point>, k: nat, cur: Point, precision: Option<u32>)
    requires
        k <= pts.len(),
        !all_counted(offsets(pts.take(k as int), cur), precision),
    ensures
        !all_counted(offsets(pts, cur), precision),
    decreases pts.len() - k,
{
    if k == pts.len() {
        assert(pts.take(k as int) =~= pts);
    } else {
        let more = pts.take((k + 1) as int);
        let p = pts[k as int];
        assert(more.drop_last() =~= pts.take(k as int));
        lemma_counted_push(
            offsets(pts.take(k as int), cur),
            Coordinate::From(p.x.value(), cur.x.value()),
            Coordinate::From(p.y.value(), cur.y.value()),
            precision,
        );
        lemma_offsets_grow(pts, k + 1, cur, precision);
    }
}

/// Consider a command that takes one coordinate: `v`, or `v` counted from `cur`.
fn offer_number<F: Fn(Scalar, Option<u32>) -> Option<String>>(
    best: &mut String,
    w: SvgWriter,
    upper: char,
    lower: char,
    v: Scalar,
    cur: Scalar,
    format: &F,
)
    requires
        number::is_formatter(*format),
    ensures
        final(best)@ == weighed(
            old(best)@,
            forms(
                w,
                upper,
                seq![Coordinate::At(v.value())],
                lower,
                seq![Coordinate::From(v.value(), cur.value())],
                number::formatted(*format),
            ),
        ),
{
    let ghost text = number::formatted(*format);
    let ghost absolute = Coordinate::At(v.value());
    let ghost relative = Coordinate::From(v.value(), cur.value());
    let mut cand = String::new();
    cand.push(upper);
    push_list_num(&mut cand, v, w.precision, true, format);
    consider(best, cand.as_str());
    proof {
        lemma_list_single(absolute, w.precision, text);
        assert(cand@ =~= token(upper, seq![absolute], w.precision, text));
    }
    proof {
        assert(all_counted(seq![relative], w.precision) == counted(
            v.value(),
            cur.value(),
            w.precision,
        )) by {
            assert(seq![relative][0] == relative);
        }
    }
    if w.relative && counts(v, cur, w.precision) {
        let mut cand = String::new();
        cand.push(lower);
        push_list_delta(&mut cand, v, cur, w.precision, true, format);
        consider(best, cand.as_str());
        proof {
            lemma_list_single(relative, w.precision, text);
            assert(cand@ =~= token(lower, seq![relative], w.precision, text));
        }
    }
    proof {
        lemma_weighed_forms(
            old(best)@,
            w,
            upper,
            seq![absolute],
            lower,
            seq![relative],
            text,
        );
    }
}

/// Consider a command that takes one point: `p`, or `p` counted from `cur`.
fn offer_point<F: Fn(Scalar, Option<u32>) -> Option<String>>(
    best: &mut String,
    w: SvgWriter,
    upper: char,
    lower: char,
    p: Point,
    cur: Point,
    format: &F,
)
    requires
        number::is_formatter(*format),
    ensures
        final(best)@ == weighed(
            old(best)@,
            forms(
                w,
                upper,
                coordinates(seq![p]),
                lower,
                offsets(seq![p], cur),
                number::formatted(*format),
            ),
        ),
{
    let ghost text = number::formatted(*format);
    let mut cand = String::new();
    cand.push(upper);
    push_coord(&mut cand, p, w.precision, format);
    consider(best, cand.as_str());
    proof {
        assert(cand@ =~= token(upper, coordinates(seq![p]), w.precision, text));
    }
    proof {
        let x = Coordinate::From(p.x.value(), cur.x.value());
        let y = Coordinate::From(p.y.value(), cur.y.value());
        assert(seq![p].drop_last() =~= seq![]);
        assert(offsets(seq![p].drop_last(), cur) =~= seq![]);
        assert(offsets(seq![p], cur) =~= Seq::<Coordinate>::empty().push(x).push(y));
        lemma_counted_push(seq![], x, y, w.precision);
    }
    if w.relative && counts(p.x, cur.x, w.precision) && counts(p.y, cur.y, w.precision) {
        let mut cand = String::new();
        cand.push(lower);
        push_coord_delta(&mut cand, p, cur, w.precision, format);
        consider(best, cand.as_str());
        assert(cand@ =~= token(lower, offsets(seq![p], cur), w.precision, text));
    }
    proof {
        lemma_weighed_forms(
            old(best)@,
            w,
            upper,
            coordinates(seq![p]),
            lower,
            offsets(seq![p], cur),
            text,
        );
    }
}

/// Consider a command that takes several points, as they are or counted from `cur`.
fn offer_points<F: Fn(Scalar, Option<u32>) -> Option<String>>(
    best: &mut String,
    w: SvgWriter,
    upper: char,
    lower: char,
    pts: &[Point],
    cur: Point,
    format: &F,
)
    requires
        number::is_formatter(*format),
    ensures
        final(best)@ == weighed(
            old(best)@,
            forms(
                w,
                upper,
                coordinates(pts@),
                lower,
                offsets(pts@, cur),
                number::formatted(*format),
            ),
        ),
{
    let ghost text = number::formatted(*format);
    let mut cand = String::new();
    cand.push(upper);
    push_coord_list(&mut cand, pts, w.precision, format);
    consider(best, cand.as_str());
    assert(cand@ =~= token(upper, coordinates(pts@), w.precision, text));
    if w.relative && all_count(pts, cur, w.precision) {
        let mut cand = String::new();
        cand.push(lower);
        push_delta_list(&mut cand, pts, cur, w.precision, format);
        consider(best, cand.as_str());
        assert(cand@ =~= token(lower, offsets(pts@, cur), w.precision, text));
    }
    proof {
        lemma_weighed_forms(
            old(best)@,
            w,
            upper,
            coordinates(pts@),
            lower,
            offsets(pts@, cur),
            text,
        );
    }
}

/// Path encoder that tracks the current point.
pub struct Emitter {
    relative: bool,
    shorthands: bool,
    precision: Option<u32>,
    out: String,
    cur: Point,
    subpath_start: Point,
    started: bool,
    prev_cubic_c2: Option<Point>,
}

impl Emitter {
    pub closed spec fn writer(&self) -> SvgWriter {
        SvgWriter {
            relative: self.relative,
            shorthands: self.shorthands,
            precision: self.precision,
        }
    }

    pub closed spec fn pen(&self) -> Pen {
        Pen {
            cur: self.cur,
            start: self.subpath_start,
            started: self.started,
            prev_c2: self.prev_cubic_c2,
        }
    }

    /// What has been written.
    pub closed spec fn output(&self) -> Seq<char> {
        self.out@
    }

    pub fn new(relative: bool, shorthands: bool, precision: Option<u32>) -> (r: Emitter)
        ensures
            r.writer() == (SvgWriter { relative, shorthands, precision }),
            r.pen() == initial_pen(),
            r.output() == Seq::<char>::empty(),
    {
        Emitter {
            relative,
            shorthands,
            precision,
            out: String::new(),
            cur: Point::origin(),
            subpath_start: Point::origin(),
            started: false,
            prev_cubic_c2: None,
        }
    }

    /// The options as a writer holds them.
    fn options(&self) -> (r: SvgWriter)
        ensures
            r == self.writer(),
    {
        SvgWriter {
            relative: self.relative,
            shorthands: self.shorthands,
            precision: self.precision,
        }
    }

    /// Whether a cubic with the first control point `c1` goes on smoothly: `c1` is
    /// the reflection of the previous cubic's second control point, as a reader
    /// finds it.
    fn continues(&self, c1: Point) -> (r: bool)
        ensures
            r == smooth(self.pen(), c1, self.writer().precision),
    {
        match self.prev_cubic_c2 {
            Some(prev_c2) => {
                let reflection = Point {
                    x: self.cur.x.doubled().sub(prev_c2.x),
                    y: self.cur.y.doubled().sub(prev_c2.y),
                };
                if self.precision.is_none() {
                    reflection.x.same(c1.x) && reflection.y.same(c1.y)
                } else {
                    approx(reflection, c1) && mirrors_as_written(
                        self.cur.x,
                        prev_c2.x,
                        c1.x,
                        self.precision,
                    ) && mirrors_as_written(self.cur.y, prev_c2.y, c1.y, self.precision)
                }
            },
            None => false,
        }
    }

    pub fn finish(self) -> (r: String)
        ensures
            r@ == self.output(),
    {
        self.out
    }

    pub fn move_to<F: Fn(Scalar, Option<u32>) -> Option<String>>(&mut self, p: Point, format: &F)
        requires
            number::is_formatter(*format),
        ensures
            final(self).writer() == old(self).writer(),
            final(self).pen() == moved(old(self).pen(), PathCmd::MoveTo(p)),
            final(self).output() == old(self).output() + command_text(
                old(self).writer(),
                old(self).pen(),
                PathCmd::MoveTo(p),
                number::formatted(*format),
            ),
    {
        let ghost text = number::formatted(*format);
        let w = self.options();
        if !self.started {
            // The first move is always absolute.
            self.out.push('M');
            push_coord(&mut self.out, p, self.precision, format);
            proof {
                let only = token('M', coordinates(seq![p]), w.precision, text);
                lemma_chosen_one(only);
                assert(self.out@ =~= old(self).out@ + only);
            }
            self.started = true;
        } else {
            let mut best = String::new();
            offer_point(&mut best, w, 'M', 'm', p, self.cur, format);
            proof {
                lemma_chosen_alone(
                    forms(
                        w,
                        'M',
                        coordinates(seq![p]),
                        'm',
                        offsets(seq![p], self.cur),
                        text,
                    ),
                );
            }
            self.out.append(best.as_str());
        }
        self.cur = p;
        self.subpath_start = p;
        self.prev_cubic_c2 = None;
    }

    pub fn line_to<F: Fn(Scalar, Option<u32>) -> Option<String>>(&mut self, p: Point, format: &F)
        requires
            number::is_formatter(*format),
        ensures
            final(self).writer() == old(self).writer(),
            final(self).pen() == moved(old(self).pen(), PathCmd::LineTo(p)),
            final(self).output() == old(self).output() + command_text(
                old(self).writer(),
                old(self).pen(),
                PathCmd::LineTo(p),
                number::formatted(*format),
            ),
    {
        let ghost text = number::formatted(*format);
        let ghost mut cands: Seq<Seq<char>> = seq![];
        let w = self.options();
        let cur = self.cur;
        let mut best = String::new();
        // Axis-aligned shorthands.
        if w.shorthands && p.y.same(cur.y) {
            offer_number(&mut best, w, 'H', 'h', p.x, cur.x, format);
            proof {
                let more = forms(
                    w,
                    'H',
                    seq![Coordinate::At(p.x.value())],
                    'h',
                    seq![Coordinate::From(p.x.value(), cur.x.value())],
                    text,
                );
                lemma_chosen_add(cands, more);
                cands = cands + more;
            }
        }
        if w.shorthands && p.x.same(cur.x) {
            offer_number(&mut best, w, 'V', 'v', p.y, cur.y, format);
            proof {
                let more = forms(
                    w,
                    'V',
                    seq![Coordinate::At(p.y.value())],
                    'v',
                    seq![Coordinate::From(p.y.value(), cur.y.value())],
                    text,
                );
                lemma_chosen_add(cands, more);
                cands = cands + more;
            }
        }
        offer_point(&mut best, w, 'L', 'l', p, cur, format);
        proof {
            let plain = forms(w, 'L', coordinates(seq![p]), 'l', offsets(seq![p], cur), text);
            lemma_chosen_add(cands, plain);
            assert(cands + plain =~= candidates(w, self.pen(), PathCmd::LineTo(p), text));
        }
        self.out.append(best.as_str());
        self.cur = p;
        self.prev_cubic_c2 = None;
    }

    pub fn cubic_to<F: Fn(Scalar, Option<u32>) -> Option<String>>(
        &mut self,
        c1: Point,
        c2: Point,
        e: Point,
        format: &F,
    )
        requires
            number::is_formatter(*format),
        ensures
            final(self).writer() == old(self).writer(),
            final(self).pen() == moved(old(self).pen(), PathCmd::CubicTo(c1, c2, e)),
            final(self).output() == old(self).output() + command_text(
                old(self).writer(),
                old(self).pen(),
                PathCmd::CubicTo(c1, c2, e),
                number::formatted(*format),
            ),
    {
        let ghost text = number::formatted(*format);
        let w = self.options();
        let cur = self.cur;
        let mut best = String::new();
        let ghost plain = forms(
            w,
            'C',
            coordinates(seq![c1, c2, e]),
            'c',
            offsets(seq![c1, c2, e], cur),
            text,
        );
        let short = w.shorthands && self.continues(c1);
        let ghost cands = if short {
            forms(w, 'S', coordinates(seq![c2, e]), 's', offsets(seq![c2, e], cur), text)
        } else {
            seq![]
        };
        if short {
            offer_points(&mut best, w, 'S', 's', &[c2, e], cur, format);
            proof {
                assert([c2, e]@ =~= seq![c2, e]);
                lemma_chosen_alone(cands);
            }
        }
        offer_points(&mut best, w, 'C', 'c', &[c1, c2, e], cur, format);
        proof {
            assert([c1, c2, e]@ =~= seq![c1, c2, e]);
            lemma_chosen_add(cands, plain);
            assert(cands + plain =~= candidates(
                w,
                self.pen(),
                PathCmd::CubicTo(c1, c2, e),
                text,
            ));
        }
        self.out.append(best.as_str());
        self.cur = e;
        self.prev_cubic_c2 = Some(c2);
    }

    /// Close the subpath. SVG takes the current point back to the subpath's start
    /// after `Z`; a relative command that follows is measured from there.
    pub fn close(&mut self)
        ensures
            final(self).writer() == old(self).writer(),
            final(self).pen() == moved(old(self).pen(), PathCmd::Close),
            final(self).output() == old(self).output() + seq!['Z'],
    {
        self.out.push('Z');
        assert(self.out@ =~= old(self).out@ + seq!['Z']);
        self.cur = self.subpath_start;
        self.prev_cubic_c2 = None;
    }

    /// Append the text of `cmd`.
    fn command<F: Fn(Scalar, Option<u32>) -> Option<String>>(&mut self, cmd: PathCmd, format: &F)
        requires
            number::is_formatter(*format),
        ensures
            final(self).writer() == old(self).writer(),
            final(self).pen() == moved(old(self).pen(), cmd),
            final(self).output() == old(self).output() + command_text(
                old(self).writer(),
                old(self).pen(),
                cmd,
                number::formatted(*format),
            ),
    {
        match cmd {
            PathCmd::MoveTo(p) => self.move_to(p, format),
            PathCmd::LineTo(p) => self.line_to(p, format),
            PathCmd::CubicTo(c1, c2, e) => self.cubic_to(c1, c2, e, format),
            PathCmd::Close => {
                self.close();
                proof {
                    lemma_chosen_one(seq!['Z']);
                }
            },
        }
    }

    pub fn subpath<F: Fn(Scalar, Option<u32>) -> Option<String>>(&mut self, sub: &SubPath, format: &F)
        requires
            number::is_formatter(*format),
        ensures
            final(self).writer() == old(self).writer(),
            final(self).pen() == pen_after(old(self).pen(), sub@),
            final(self).output() == old(self).output() + commands_text(
                old(self).writer(),
                old(self).pen(),
                sub@,
                number::formatted(*format),
            ),
    {
        let ghost text = number::formatted(*format);
        let ghost w = self.writer();
        let ghost pen = self.pen();
        let ghost before = self.output();
        let mut i: usize = 0;
        assert(self.output() =~= before + commands_text(w, pen, sub@.take(0), text));
        while i < sub.commands.len()
            invariant
                i <= sub.commands.len(),
                number::is_formatter(*format),
                text == number::formatted(*format),
                self.writer() == w,
                self.pen() == pen_after(pen, sub@.take(i as int)),
                self.output() == before + commands_text(w, pen, sub@.take(i as int), text),
            decreases sub.commands.len() - i,
        {
            let cmd = sub.commands[i];
            self.command(cmd, format);
            proof {
                lemma_commands_push(before, w, pen, sub@.take(i as int), cmd, text);
                assert(sub@.take(i + 1) =~= sub@.take(i as int).push(cmd));
            }
            i = i + 1;
        }
        assert(sub@.take(i as int) =~= sub@);
    }
}

/// Commands behind `before` grow by the last.
proof fn lemma_commands_push(
    before: Seq<char>,
    w: SvgWriter,
    pen: Pen,
    cmds: Seq<PathCmd>,
    cmd: PathCmd,
    text: number::Formatted,
)
    ensures
        pen_after(pen, cmds.push(cmd)) == moved(pen_after(pen, cmds), cmd),
        before + commands_text(w, pen, cmds.push(cmd), text) == before + commands_text(
            w,
            pen,
            cmds,
            text,
        ) + command_text(w, pen_after(pen, cmds), cmd, text),
{
    assert(cmds.push(cmd).drop_last() =~= cmds);
    let a = commands_text(w, pen, cmds, text);
    let b = command_text(w, pen_after(pen, cmds), cmd, text);
    assert(before + (a + b) =~= before + a + b);
}

} // verus!
