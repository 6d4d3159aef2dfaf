//! What path data says, told from the commands that went in: the text of a command is
//! the first of the shortest among the forms that its points have, commands follow
//! each other, and each leaves the pen where it ends. And what the letters and the
//! numbers of path data mean to a reader.
use vstd::prelude::*;
use vstd::utf8::*;

use crate::ir::{PathCmd, Point};
use crate::laws;
use crate::number;
use crate::path;
use crate::path::{Coordinate, Pen};
use crate::replay;
use crate::rounding;
use crate::scalar;
use crate::scalar::{Scalar, Value};
use crate::svg::SvgWriter;

verus! {

/// Size is counted in the bytes of the encoded text.
pub proof fn law_size_is_in_bytes(s: Seq<char>)
    ensures
        path::size(s) == encode_utf8(s).len(),
{
}

/// Of two texts the shorter is kept, and of two as long the earlier; the first text
/// is kept in any case.
pub proof fn law_shorter_text_is_kept(best: Seq<char>, cand: Seq<char>)
    ensures
        path::preferred(best, cand) == best || path::preferred(best, cand) == cand,
        best.len() == 0 ==> path::preferred(best, cand) == cand,
        best.len() > 0 ==> {
            &&& encode_utf8(path::preferred(best, cand)).len() <= encode_utf8(best).len()
            &&& encode_utf8(path::preferred(best, cand)).len() <= encode_utf8(cand).len()
            &&& encode_utf8(best).len() <= encode_utf8(cand).len() ==> path::preferred(best, cand)
                == best
        },
{
}

/// What is kept of a list is what is kept of all but the last, or the last.
pub proof fn law_choice_goes_from_left_to_right(cands: Seq<Seq<char>>, cand: Seq<char>)
    ensures
        path::chosen(seq![]) == Seq::<char>::empty(),
        path::chosen(cands.push(cand)) == path::preferred(path::chosen(cands), cand),
{
    assert(cands.push(cand).drop_last() =~= cands);
}

/// A number joins a list behind a comma, or directly where its sign parts it from the
/// number before it.
pub proof fn law_numbers_are_parted(nums: Seq<Seq<char>>, n: Seq<char>)
    ensures
        path::joined(seq![]) == Seq::<char>::empty(),
        path::joined(seq![n]) == n,
        nums.len() > 0 ==> path::joined(nums.push(n)) == (if n.len() > 0 && n[0] == '-' {
            path::joined(nums) + n
        } else {
            path::joined(nums) + seq![','] + n
        }),
        path::listed(n, true) == n,
        path::listed(n, false) == (if n.len() > 0 && n[0] == '-' {
            n
        } else {
            seq![','] + n
        }),
{
    let none = Seq::<Seq<char>>::empty();
    assert(seq![n].drop_last() =~= none);
    assert(path::joined(none) =~= seq![]);
    assert(path::joined(seq![n]) =~= n);
    assert(nums.push(n).drop_last() =~= nums);
    assert(path::joined(nums) + (seq![','] + n) =~= path::joined(nums) + seq![','] + n);
}

/// Points give their coordinates, x before y, as they are or counted from a point.
pub proof fn law_points_give_their_coordinates(pts: Seq<Point>, cur: Point)
    ensures
        path::coordinates(pts).len() == 2 * pts.len(),
        path::offsets(pts, cur).len() == 2 * pts.len(),
        forall|i: int|
            #![trigger pts[i]]
            0 <= i < pts.len() ==> {
                &&& path::coordinates(pts)[2 * i] == Coordinate::At(pts[i].x.value())
                &&& path::coordinates(pts)[2 * i + 1] == Coordinate::At(pts[i].y.value())
                &&& path::offsets(pts, cur)[2 * i] == Coordinate::From(
                    pts[i].x.value(),
                    cur.x.value(),
                )
                &&& path::offsets(pts, cur)[2 * i + 1] == Coordinate::From(
                    pts[i].y.value(),
                    cur.y.value(),
                )
            },
{
    replay::lemma_coordinates_len(pts, cur);
    assert forall|i: int| #![trigger pts[i]] 0 <= i < pts.len() implies {
        &&& path::coordinates(pts)[2 * i] == Coordinate::At(pts[i].x.value())
        &&& path::coordinates(pts)[2 * i + 1] == Coordinate::At(pts[i].y.value())
        &&& path::offsets(pts, cur)[2 * i] == Coordinate::From(pts[i].x.value(), cur.x.value())
        &&& path::offsets(pts, cur)[2 * i + 1] == Coordinate::From(
            pts[i].y.value(),
            cur.y.value(),
        )
    } by {
        replay::lemma_coordinates_at(pts, cur, i);
    }
}

/// The list of coordinates is the list of their texts: of the coordinate itself, or
/// of the way to it.
pub proof fn law_lists_hold_the_coordinates(
    values: Seq<Coordinate>,
    precision: Option<u32>,
    text: number::Formatted,
)
    ensures
        path::list_text(values, precision, text) == path::joined(
            Seq::new(
                values.len(),
                |i: int|
                    match values[i] {
                        Coordinate::At(a) => number::number_text(a, precision, text),
                        Coordinate::From(a, b) => number::delta_text(a, b, precision, text),
                    },
            ),
        ),
{
    assert(path::number_texts(values, precision, text) =~= Seq::new(
        values.len(),
        |i: int|
            match values[i] {
                Coordinate::At(a) => number::number_text(a, precision, text),
                Coordinate::From(a, b) => number::delta_text(a, b, precision, text),
            },
    ));
}

/// The pen starts at the origin, and no move is behind it.
pub proof fn law_pen_starts_at_the_origin()
    ensures
        path::initial_pen() == (Pen {
            cur: Point { x: Scalar { bits: 0 }, y: Scalar { bits: 0 } },
            start: Point { x: Scalar { bits: 0 }, y: Scalar { bits: 0 } },
            started: false,
            prev_c2: None,
        }),
        (Scalar { bits: 0 }).value() == Value::Finite(0),
{
    crate::grid::lemma_origin_on_grid(0);
}

/// A command leaves the pen at its last point, or where the subpath started where it
/// closes; only a move starts a subpath, and only a cubic leaves a control point.
pub proof fn law_pen_follows_the_command(pen: Pen, p: Point, c1: Point, c2: Point)
    ensures
        path::moved(pen, PathCmd::MoveTo(p)) == (Pen {
            cur: p,
            start: p,
            started: true,
            prev_c2: None,
        }),
        path::moved(pen, PathCmd::LineTo(p)) == (Pen {
            cur: p,
            start: pen.start,
            started: pen.started,
            prev_c2: None,
        }),
        path::moved(pen, PathCmd::CubicTo(c1, c2, p)) == (Pen {
            cur: p,
            start: pen.start,
            started: pen.started,
            prev_c2: Some(c2),
        }),
        path::moved(pen, PathCmd::Close) == (Pen {
            cur: pen.start,
            start: pen.start,
            started: pen.started,
            prev_c2: None,
        }),
{
}

/// Commands follow each other: the text of each comes behind those before it, and is
/// that of the command from where these leave the pen.
pub proof fn law_commands_follow_each_other(
    w: SvgWriter,
    pen: Pen,
    cmds: Seq<PathCmd>,
    cmd: PathCmd,
    text: number::Formatted,
)
    ensures
        path::pen_after(pen, seq![]) == pen,
        path::commands_text(w, pen, seq![], text) == Seq::<char>::empty(),
        path::pen_after(pen, cmds.push(cmd)) == path::moved(path::pen_after(pen, cmds), cmd),
        path::commands_text(w, pen, cmds.push(cmd), text) == path::commands_text(
            w,
            pen,
            cmds,
            text,
        ) + path::command_text(w, path::pen_after(pen, cmds), cmd, text),
{
    assert(cmds.push(cmd).drop_last() =~= cmds);
}

/// The path data of a shape is the text of all commands of all its subpaths.
pub proof fn law_path_data_is_that_of_the_commands(
    w: SvgWriter,
    shape: crate::ir::ShapeView,
    text: number::Formatted,
)
    ensures
        crate::svg::path_data(w, shape, text) == path::commands_text(
            w,
            path::initial_pen(),
            shape.path.flatten(),
            text,
        ),
{
}

/// A way may be written in place of a coordinate where a reader that follows it gets
/// to the coordinate: at a precision where both ends are written as whole numbers of
/// parts, and without one where the difference of the two is exact.
pub proof fn law_ways_are_exact(a: Value, b: Value, p: u32)
    ensures
        path::counted(a, b, Some(p)) <==> number::scaled(a, Some(p)) is Some && number::scaled(
            b,
            Some(p),
        ) is Some,
        path::counted(a, b, None) <==> (a matches Value::Finite(x) && b matches Value::Finite(y)
            && scalar::rounded(x - y) == Value::Finite(x - y)),
{
}

/// Two points.
proof fn lemma_pair(p: Point, cur: Point)
    ensures
        path::coordinates(seq![p]) == seq![
            Coordinate::At(p.x.value()),
            Coordinate::At(p.y.value()),
        ],
        path::offsets(seq![p], cur) == seq![
            Coordinate::From(p.x.value(), cur.x.value()),
            Coordinate::From(p.y.value(), cur.y.value()),
        ],
{
    law_points_give_their_coordinates(seq![p], cur);
    assert(seq![p][0] == p);
    assert(path::coordinates(seq![p]) =~= seq![
        Coordinate::At(p.x.value()),
        Coordinate::At(p.y.value()),
    ]);
    assert(path::offsets(seq![p], cur) =~= seq![
        Coordinate::From(p.x.value(), cur.x.value()),
        Coordinate::From(p.y.value(), cur.y.value()),
    ]);
}

/// The forms of a command that takes one point.
proof fn lemma_point_forms(
    w: SvgWriter,
    upper: char,
    lower: char,
    p: Point,
    cur: Point,
    text: number::Formatted,
)
    ensures
        ({
            let (x, y) = (p.x.value(), p.y.value());
            let (cx, cy) = (cur.x.value(), cur.y.value());
            let at = path::joined(
                seq![
                    number::number_text(x, w.precision, text),
                    number::number_text(y, w.precision, text),
                ],
            );
            let way = path::joined(
                seq![
                    number::delta_text(x, cx, w.precision, text),
                    number::delta_text(y, cy, w.precision, text),
                ],
            );
            path::forms(
                w,
                upper,
                path::coordinates(seq![p]),
                lower,
                path::offsets(seq![p], cur),
                text,
            ) == (if w.relative && path::counted(x, cx, w.precision) && path::counted(
                y,
                cy,
                w.precision,
            ) {
                seq![seq![upper] + at, seq![lower] + way]
            } else {
                seq![seq![upper] + at]
            })
        }),
{
    let (x, y) = (p.x.value(), p.y.value());
    let (cx, cy) = (cur.x.value(), cur.y.value());
    let (at, from) = (path::coordinates(seq![p]), path::offsets(seq![p], cur));
    lemma_pair(p, cur);
    assert(path::number_texts(at, w.precision, text) =~= seq![
        number::number_text(x, w.precision, text),
        number::number_text(y, w.precision, text),
    ]);
    assert(path::number_texts(from, w.precision, text) =~= seq![
        number::delta_text(x, cx, w.precision, text),
        number::delta_text(y, cy, w.precision, text),
    ]);
    assert(from[0] == Coordinate::From(x, cx) && from[1] == Coordinate::From(y, cy));
    assert(path::all_counted(from, w.precision) == (path::counted(x, cx, w.precision)
        && path::counted(y, cy, w.precision)));
}

/// The forms of a command that takes one coordinate.
proof fn lemma_number_forms(
    w: SvgWriter,
    upper: char,
    lower: char,
    a: Value,
    b: Value,
    text: number::Formatted,
)
    ensures
        path::forms(
            w,
            upper,
            seq![Coordinate::At(a)],
            lower,
            seq![Coordinate::From(a, b)],
            text,
        ) == (if w.relative && path::counted(a, b, w.precision) {
            seq![
                seq![upper] + number::number_text(a, w.precision, text),
                seq![lower] + number::delta_text(a, b, w.precision, text),
            ]
        } else {
            seq![seq![upper] + number::number_text(a, w.precision, text)]
        }),
{
    let (at, from) = (seq![Coordinate::At(a)], seq![Coordinate::From(a, b)]);
    let (n, d) = (
        number::number_text(a, w.precision, text),
        number::delta_text(a, b, w.precision, text),
    );
    law_numbers_are_parted(seq![], n);
    law_numbers_are_parted(seq![], d);
    assert(path::number_texts(at, w.precision, text) =~= seq![n]);
    assert(path::number_texts(from, w.precision, text) =~= seq![d]);
    assert(from[0] == Coordinate::From(a, b));
    assert(path::all_counted(from, w.precision) == path::counted(a, b, w.precision));
}

/// What is chosen is the first of the shortest.
proof fn lemma_command_chosen(
    w: SvgWriter,
    pen: Pen,
    cmd: PathCmd,
    text: number::Formatted,
    forms: Seq<Seq<char>>,
)
    requires
        path::candidates(w, pen, cmd, text) == forms,
    ensures
        exists|i: int|
            0 <= i < forms.len() && path::command_text(w, pen, cmd, text) == #[trigger] forms[i]
                && (forall|j: int|
                0 <= j < forms.len() ==> encode_utf8(forms[i]).len() <= encode_utf8(
                    #[trigger] forms[j],
                ).len()) && (forall|j: int|
                0 <= j < i ==> encode_utf8(forms[i]).len() < encode_utf8(
                    #[trigger] forms[j],
                ).len()),
{
    let cands = laws::lemma_candidates_present(w, pen, cmd, text);
    laws::law_chosen_is_first_shortest(cands);
    let i = choose|i: int|
        laws::first_shortest(cands, i) && path::chosen(cands) == #[trigger] cands[i];
    assert(forms[i] == cands[i]);
    assert forall|j: int| 0 <= j < forms.len() implies encode_utf8(forms[i]).len()
        <= encode_utf8(#[trigger] forms[j]).len() by {
        assert(path::size(cands[i]) <= path::size(cands[j]));
    }
    assert forall|j: int| 0 <= j < i implies encode_utf8(forms[i]).len() < encode_utf8(
        #[trigger] forms[j],
    ).len() by {
        assert(path::size(cands[i]) < path::size(cands[j]));
    }
}

/// A move is written as `M` and its point, the first in any case; a later one, where
/// relative numbers are allowed and exact, as `m` and the way to it where that is
/// shorter.
pub proof fn law_move_is_its_shortest_form(
    w: SvgWriter,
    pen: Pen,
    p: Point,
    text: number::Formatted,
)
    ensures
        ({
            let (x, y) = (p.x.value(), p.y.value());
            let (cx, cy) = (pen.cur.x.value(), pen.cur.y.value());
            let at = seq!['M'] + path::joined(
                seq![
                    number::number_text(x, w.precision, text),
                    number::number_text(y, w.precision, text),
                ],
            );
            let way = seq!['m'] + path::joined(
                seq![
                    number::delta_text(x, cx, w.precision, text),
                    number::delta_text(y, cy, w.precision, text),
                ],
            );
            path::command_text(w, pen, PathCmd::MoveTo(p), text) == (if pen.started && w.relative
                && path::counted(x, cx, w.precision) && path::counted(y, cy, w.precision)
                && encode_utf8(way).len() < encode_utf8(at).len() {
                way
            } else {
                at
            })
        }),
{
    let (x, y) = (p.x.value(), p.y.value());
    let (cx, cy) = (pen.cur.x.value(), pen.cur.y.value());
    lemma_point_forms(w, 'M', 'm', p, pen.cur, text);
    lemma_pair(p, pen.cur);
    let at = path::coordinates(seq![p]);
    let forms = path::candidates(w, pen, PathCmd::MoveTo(p), text);
    assert(path::number_texts(at, w.precision, text) =~= seq![
        number::number_text(x, w.precision, text),
        number::number_text(y, w.precision, text),
    ]);
    lemma_command_chosen(w, pen, PathCmd::MoveTo(p), text, forms);
}

/// A line is written in the first of its shortest forms: where shorthands are
/// allowed and it is level, as `H` and its x; where it is upright, as `V` and its y;
/// and as `L` and its point. Behind each comes the relative form, where such numbers
/// are allowed and exact.
pub proof fn law_line_is_its_shortest_form(
    w: SvgWriter,
    pen: Pen,
    p: Point,
    text: number::Formatted,
    forms: Seq<Seq<char>>,
)
    requires
        ({
            let (x, y) = (p.x.value(), p.y.value());
            let (cx, cy) = (pen.cur.x.value(), pen.cur.y.value());
            let (nx, ny) = (
                number::number_text(x, w.precision, text),
                number::number_text(y, w.precision, text),
            );
            let (dx, dy) = (
                number::delta_text(x, cx, w.precision, text),
                number::delta_text(y, cy, w.precision, text),
            );
            let (way_x, way_y) = (
                w.relative && path::counted(x, cx, w.precision),
                w.relative && path::counted(y, cy, w.precision),
            );
            let level = if w.shorthands && y == cy && y !is NotANumber {
                if way_x {
                    seq![seq!['H'] + nx, seq!['h'] + dx]
                } else {
                    seq![seq!['H'] + nx]
                }
            } else {
                seq![]
            };
            let upright = if w.shorthands && x == cx && x !is NotANumber {
                if way_y {
                    seq![seq!['V'] + ny, seq!['v'] + dy]
                } else {
                    seq![seq!['V'] + ny]
                }
            } else {
                seq![]
            };
            let plain = if way_x && way_y {
                seq![
                    seq!['L'] + path::joined(seq![nx, ny]),
                    seq!['l'] + path::joined(seq![dx, dy]),
                ]
            } else {
                seq![seq!['L'] + path::joined(seq![nx, ny])]
            };
            forms == level + upright + plain
        }),
    ensures
        exists|i: int|
            0 <= i < forms.len() && path::command_text(w, pen, PathCmd::LineTo(p), text)
                == #[trigger] forms[i] && (forall|j: int|
                0 <= j < forms.len() ==> encode_utf8(forms[i]).len() <= encode_utf8(
                    #[trigger] forms[j],
                ).len()) && (forall|j: int|
                0 <= j < i ==> encode_utf8(forms[i]).len() < encode_utf8(
                    #[trigger] forms[j],
                ).len()),
{
    let (x, y) = (p.x.value(), p.y.value());
    let (cx, cy) = (pen.cur.x.value(), pen.cur.y.value());
    lemma_point_forms(w, 'L', 'l', p, pen.cur, text);
    lemma_number_forms(w, 'H', 'h', x, cx, text);
    lemma_number_forms(w, 'V', 'v', y, cy, text);
    assert(path::candidates(w, pen, PathCmd::LineTo(p), text) =~= forms);
    lemma_command_chosen(w, pen, PathCmd::LineTo(p), text, forms);
}

/// The coordinates of two points.
proof fn lemma_two_points(a: Point, b: Point, cur: Point)
    ensures
        path::coordinates(seq![a, b]) == seq![
            Coordinate::At(a.x.value()),
            Coordinate::At(a.y.value()),
            Coordinate::At(b.x.value()),
            Coordinate::At(b.y.value()),
        ],
        path::offsets(seq![a, b], cur) == seq![
            Coordinate::From(a.x.value(), cur.x.value()),
            Coordinate::From(a.y.value(), cur.y.value()),
            Coordinate::From(b.x.value(), cur.x.value()),
            Coordinate::From(b.y.value(), cur.y.value()),
        ],
{
    let pts = seq![a, b];
    lemma_pair(a, cur);
    assert(pts.drop_last() =~= seq![a]);
    assert(path::coordinates(pts) =~= seq![
        Coordinate::At(a.x.value()),
        Coordinate::At(a.y.value()),
        Coordinate::At(b.x.value()),
        Coordinate::At(b.y.value()),
    ]);
    assert(path::offsets(pts, cur) =~= seq![
        Coordinate::From(a.x.value(), cur.x.value()),
        Coordinate::From(a.y.value(), cur.y.value()),
        Coordinate::From(b.x.value(), cur.x.value()),
        Coordinate::From(b.y.value(), cur.y.value()),
    ]);
}

/// The coordinates of three points.
proof fn lemma_three_points(a: Point, b: Point, c: Point, cur: Point)
    ensures
        path::coordinates(seq![a, b, c]) == seq![
            Coordinate::At(a.x.value()),
            Coordinate::At(a.y.value()),
            Coordinate::At(b.x.value()),
            Coordinate::At(b.y.value()),
            Coordinate::At(c.x.value()),
            Coordinate::At(c.y.value()),
        ],
        path::offsets(seq![a, b, c], cur) == seq![
            Coordinate::From(a.x.value(), cur.x.value()),
            Coordinate::From(a.y.value(), cur.y.value()),
            Coordinate::From(b.x.value(), cur.x.value()),
            Coordinate::From(b.y.value(), cur.y.value()),
            Coordinate::From(c.x.value(), cur.x.value()),
            Coordinate::From(c.y.value(), cur.y.value()),
        ],
{
    let pts = seq![a, b, c];
    lemma_two_points(a, b, cur);
    assert(pts.drop_last() =~= seq![a, b]);
    assert(path::coordinates(pts) =~= seq![
        Coordinate::At(a.x.value()),
        Coordinate::At(a.y.value()),
        Coordinate::At(b.x.value()),
        Coordinate::At(b.y.value()),
        Coordinate::At(c.x.value()),
        Coordinate::At(c.y.value()),
    ]);
    assert(path::offsets(pts, cur) =~= seq![
        Coordinate::From(a.x.value(), cur.x.value()),
        Coordinate::From(a.y.value(), cur.y.value()),
        Coordinate::From(b.x.value(), cur.x.value()),
        Coordinate::From(b.y.value(), cur.y.value()),
        Coordinate::From(c.x.value(), cur.x.value()),
        Coordinate::From(c.y.value(), cur.y.value()),
    ]);
}

/// Ways count together where each counts.
pub proof fn law_ways_count_one_by_one(values: Seq<Coordinate>, precision: Option<u32>)
    ensures
        path::all_counted(values, precision) <==> forall|i: int|
            0 <= i < values.len() ==> match #[trigger] values[i] {
                Coordinate::At(_) => true,
                Coordinate::From(a, b) => path::counted(a, b, precision),
            },
{
}

/// The forms of a command with these coordinates.
proof fn lemma_forms_of(
    w: SvgWriter,
    upper: char,
    at: Seq<Coordinate>,
    lower: char,
    way: Seq<Coordinate>,
    text: number::Formatted,
)
    ensures
        path::forms(w, upper, at, lower, way, text) == (if w.relative && path::all_counted(
            way,
            w.precision,
        ) {
            seq![
                seq![upper] + path::list_text(at, w.precision, text),
                seq![lower] + path::list_text(way, w.precision, text),
            ]
        } else {
            seq![seq![upper] + path::list_text(at, w.precision, text)]
        }),
{
}

/// A cubic is written in the first of its shortest forms: where shorthands are
/// allowed and it goes on smoothly, as `S`, its second control point and its end; and
/// as `C` and its three points. Behind each comes the relative form, where such
/// numbers are allowed and exact.
pub proof fn law_cubic_is_its_shortest_form(
    w: SvgWriter,
    pen: Pen,
    c1: Point,
    c2: Point,
    e: Point,
    text: number::Formatted,
    forms: Seq<Seq<char>>,
)
    requires
        ({
            let (cx, cy) = (pen.cur.x.value(), pen.cur.y.value());
            let short_at = seq![
                Coordinate::At(c2.x.value()),
                Coordinate::At(c2.y.value()),
                Coordinate::At(e.x.value()),
                Coordinate::At(e.y.value()),
            ];
            let short_way = seq![
                Coordinate::From(c2.x.value(), cx),
                Coordinate::From(c2.y.value(), cy),
                Coordinate::From(e.x.value(), cx),
                Coordinate::From(e.y.value(), cy),
            ];
            let plain_at = seq![
                Coordinate::At(c1.x.value()),
                Coordinate::At(c1.y.value()),
                Coordinate::At(c2.x.value()),
                Coordinate::At(c2.y.value()),
                Coordinate::At(e.x.value()),
                Coordinate::At(e.y.value()),
            ];
            let plain_way = seq![
                Coordinate::From(c1.x.value(), cx),
                Coordinate::From(c1.y.value(), cy),
                Coordinate::From(c2.x.value(), cx),
                Coordinate::From(c2.y.value(), cy),
                Coordinate::From(e.x.value(), cx),
                Coordinate::From(e.y.value(), cy),
            ];
            let short = if w.shorthands && path::smooth(pen, c1, w.precision) {
                if w.relative && path::all_counted(short_way, w.precision) {
                    seq![
                        seq!['S'] + path::list_text(short_at, w.precision, text),
                        seq!['s'] + path::list_text(short_way, w.precision, text),
                    ]
                } else {
                    seq![seq!['S'] + path::list_text(short_at, w.precision, text)]
                }
            } else {
                seq![]
            };
            let plain = if w.relative && path::all_counted(plain_way, w.precision) {
                seq![
                    seq!['C'] + path::list_text(plain_at, w.precision, text),
                    seq!['c'] + path::list_text(plain_way, w.precision, text),
                ]
            } else {
                seq![seq!['C'] + path::list_text(plain_at, w.precision, text)]
            };
            forms == short + plain
        }),
    ensures
        exists|i: int|
            0 <= i < forms.len() && path::command_text(w, pen, PathCmd::CubicTo(c1, c2, e), text)
                == #[trigger] forms[i] && (forall|j: int|
                0 <= j < forms.len() ==> encode_utf8(forms[i]).len() <= encode_utf8(
                    #[trigger] forms[j],
                ).len()) && (forall|j: int|
                0 <= j < i ==> encode_utf8(forms[i]).len() < encode_utf8(
                    #[trigger] forms[j],
                ).len()),
{
    let cmd = PathCmd::CubicTo(c1, c2, e);
    let (two, three) = (seq![c2, e], seq![c1, c2, e]);
    lemma_two_points(c2, e, pen.cur);
    lemma_three_points(c1, c2, e, pen.cur);
    lemma_forms_of(w, 'S', path::coordinates(two), 's', path::offsets(two, pen.cur), text);
    lemma_forms_of(w, 'C', path::coordinates(three), 'c', path::offsets(three, pen.cur), text);
    assert(path::candidates(w, pen, cmd, text) =~= forms);
    lemma_command_chosen(w, pen, cmd, text, forms);
}

/// A close is written as `Z`.
pub proof fn law_close_is_a_letter(w: SvgWriter, pen: Pen, text: number::Formatted)
    ensures
        path::command_text(w, pen, PathCmd::Close, text) == seq!['Z'],
{
    lemma_command_chosen(w, pen, PathCmd::Close, text, seq![seq!['Z']]);
}

/// A cubic goes on smoothly only behind a cubic, and where its first control point is
/// the mirror image of the last control point of that one: without a precision as
/// binary64 computes it, and at one to a millionth and exactly in whole parts.
pub proof fn law_smooth_cubics_mirror_the_last(pen: Pen, c1: Point, p: u32)
    ensures
        pen.prev_c2 is None ==> !path::smooth(pen, c1, None) && !path::smooth(pen, c1, Some(p)),
        pen.prev_c2 matches Some(c2) ==> {
            let image = |cur: Scalar, c: Scalar|
                scalar::difference(scalar::multiple(cur.value(), 2), c.value());
            let parts = |v: Scalar| number::scaled(v.value(), Some(p));
            let whole = |cur: Scalar, c: Scalar, to: Scalar|
                parts(cur) is Some && parts(c) is Some && parts(to) is Some && parts(to)->0 == 2
                    * parts(cur)->0 - parts(c)->0;
            &&& path::smooth(pen, c1, None) <==> {
                &&& image(pen.cur.x, c2.x) == c1.x.value() && c1.x.value() !is NotANumber
                &&& image(pen.cur.y, c2.y) == c1.y.value() && c1.y.value() !is NotANumber
            }
            &&& path::smooth(pen, c1, Some(p)) <==> {
                &&& path::near(image(pen.cur.x, c2.x), c1.x.value())
                &&& path::near(image(pen.cur.y, c2.y), c1.y.value())
                &&& whole(pen.cur.x, c2.x, c1.x)
                &&& whole(pen.cur.y, c2.y, c1.y)
            }
        },
{
}

/// Coordinates are near where their difference, as binary64 subtracts, is finite and
/// less than the binary64 number nearest to a millionth.
pub proof fn law_near_is_within_a_millionth(a: Value, b: Value)
    ensures
        ({
            let step = vstd::arithmetic::power2::pow2(1002) as int;
            let limit = 0x10_c6f7_a0b5_ed8d * step;
            &&& path::near(a, b) <==> (scalar::difference(a, b) matches Value::Finite(d) && -limit
                < d < limit)
            &&& -1_000_000 * step <= 2 * (1_000_000 * limit - vstd::arithmetic::power2::pow2(1074))
                <= 1_000_000 * step
        }),
{
    let step = vstd::arithmetic::power2::pow2(1002) as int;
    let limit = 0x10_c6f7_a0b5_ed8d * step;
    vstd::arithmetic::power2::lemma_pow2_adds(72, 1002);
    vstd::arithmetic::power2::lemma_pow2_adds(64, 8);
    vstd::arithmetic::power2::lemma2_to64();
    rounding::lemma_pow2_values();
    let one = vstd::arithmetic::power2::pow2(1074) as int;
    assert(vstd::arithmetic::power2::pow2(72) == 0x100_0000_0000_0000_0000);
    assert(one == 0x100_0000_0000_0000_0000 * step);
    vstd::arithmetic::power2::lemma_pow2_pos(1002);
    assert(limit == 4722366482869645 * step);
    assert(1_000_000 * limit == 4722366482869645000000 * step);
}

} // verus!
