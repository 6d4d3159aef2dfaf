//! What a written document is, told from the shapes that went in: each shape that
//! draws anything is an element, in paint order and in its own paint, and the path
//! data of the element draws all commands of all its subpaths. And what stands
//! around the path data, letter by letter.
use vstd::prelude::*;

use crate::document;
use crate::ir;
use crate::ir::{Color, Paint, PathCmd};
use crate::number;
use crate::reading;
use crate::reading::Parser;
use crate::replay;
use crate::replay::Stroke;
use crate::scalar::Value;
use crate::svg;
use crate::svg::SvgWriter;

verus! {

/// The number that a hexadecimal digit stands for.
pub open spec fn hex_value(c: char) -> int {
    if '0' <= c <= '9' {
        c as int - 48
    } else if 'A' <= c <= 'F' {
        c as int - 55
    } else {
        -1
    }
}

/// The channel that the two digits from `i` on stand for.
pub open spec fn channel(fill: Seq<char>, i: int) -> int {
    16 * hex_value(fill[i]) + hex_value(fill[i + 1])
}

/// The fill of a shape gives the red, the green and the blue of its paint, each in
/// two hexadecimal digits behind a `#`.
pub proof fn law_fill_is_the_paint(shape: ir::ShapeView)
    ensures
        ({
            let Paint::Solid(c) = shape.paint;
            let fill = svg::fill_text(shape);
            &&& fill.len() == 7
            &&& fill[0] == '#'
            &&& channel(fill, 1) == c.r
            &&& channel(fill, 3) == c.g
            &&& channel(fill, 5) == c.b
        }),
{
    let Paint::Solid(c) = shape.paint;
    lemma_byte_digits(c.r);
    lemma_byte_digits(c.g);
    lemma_byte_digits(c.b);
}

proof fn lemma_byte_digits(b: u8)
    ensures
        16 * hex_value(svg::hex_digit((b / 16) as nat)) + hex_value(
            svg::hex_digit((b % 16) as nat),
        ) == b,
{
    lemma_digit((b / 16) as nat);
    lemma_digit((b % 16) as nat);
}

proof fn lemma_digit(d: nat)
    requires
        d < 16,
    ensures
        hex_value(svg::hex_digit(d)) == d,
{
}

/// Two shapes have the same fill exactly where red, green and blue of their paints
/// are the same.
pub proof fn law_fills_tell_paints_apart(a: ir::ShapeView, b: ir::ShapeView)
    ensures
        ({
            let Paint::Solid(c) = a.paint;
            let Paint::Solid(d) = b.paint;
            svg::fill_text(a) == svg::fill_text(b) <==> (c.r == d.r && c.g == d.g && c.b == d.b)
        }),
{
    law_fill_is_the_paint(a);
    law_fill_is_the_paint(b);
}

/// What is painted are the shapes that draw anything.
proof fn lemma_painted_shapes(
    w: SvgWriter,
    shapes: Seq<ir::ShapeView>,
    text: number::Formatted,
)
    ensures
        ({
            let drawing = shapes.filter(|s: ir::ShapeView| s.path.flatten().len() > 0);
            let painted = document::painted(w, shapes, text);
            &&& painted.len() == drawing.len()
            &&& forall|k: int|
                #![trigger painted[k]]
                #![trigger drawing[k]]
                0 <= k < drawing.len() ==> {
                    &&& painted[k].data == svg::path_data(w, drawing[k], text)
                    &&& painted[k].fill == svg::fill_text(drawing[k])
                }
        }),
    decreases shapes.len(),
{
    reveal(Seq::filter);
    if shapes.len() > 0 {
        lemma_painted_shapes(w, shapes.drop_last(), text);
    }
}

/// The shapes that draw anything are shapes of the document.
proof fn lemma_drawing_holds(
    shapes: Seq<ir::ShapeView>,
    ok: spec_fn(Value) -> bool,
)
    requires
        forall|j: int|
            0 <= j < shapes.len() ==> replay::holds_of_all(
                (#[trigger] shapes[j]).path.flatten(),
                ok,
            ),
    ensures
        ({
            let drawing = shapes.filter(|s: ir::ShapeView| s.path.flatten().len() > 0);
            forall|k: int|
                0 <= k < drawing.len() ==> replay::holds_of_all(
                    (#[trigger] drawing[k]).path.flatten(),
                    ok,
                )
        }),
    decreases shapes.len(),
{
    reveal(Seq::filter);
    if shapes.len() > 0 {
        let fewer = shapes.drop_last();
        assert forall|j: int| 0 <= j < fewer.len() implies replay::holds_of_all(
            (#[trigger] fewer[j]).path.flatten(),
            ok,
        ) by {
            assert(fewer[j] == shapes[j]);
        }
        lemma_drawing_holds(fewer, ok);
        assert(replay::holds_of_all(shapes[shapes.len() - 1].path.flatten(), ok));
        let drawing = shapes.filter(|s: ir::ShapeView| s.path.flatten().len() > 0);
        let before = fewer.filter(|s: ir::ShapeView| s.path.flatten().len() > 0);
        assert forall|k: int| 0 <= k < drawing.len() implies replay::holds_of_all(
            (#[trigger] drawing[k]).path.flatten(),
            ok,
        ) by {
            if k < before.len() {
                assert(drawing[k] == before[k]);
            }
        }
    }
}

/// A written document draws its shapes: a reader finds the size of the document and,
/// in paint order, an element for each shape that has a command, and no other. The
/// fill of an element is the paint of its shape. Its path data has a stroke for each
/// command of each subpath of the shape, in their order, of the same kind and with
/// the points of the command, each coordinate as it is written by itself; where that
/// is a whole number of parts, it is that number.
pub proof fn law_document_draws_its_shapes(
    w: SvgWriter,
    p: u32,
    doc: ir::DocView,
    text: number::Formatted,
)
    requires
        number::sound(text),
        w.precision == Some(p),
        forall|j: int|
            0 <= j < doc.shapes.len() ==> replay::holds_of_all(
                (#[trigger] doc.shapes[j]).path.flatten(),
                replay::fitting(p, text),
            ),
    ensures
        ({
            let u = reading::as_written(Some(p), p as nat, text);
            let g = reading::in_decimals(p as nat);
            let drawing = doc.shapes.filter(|s: ir::ShapeView| s.path.flatten().len() > 0);
            &&& document::read_document(svg::document_text(w, doc, text)) matches Some(read)
            &&& read.width == doc.width
            &&& read.height == doc.height
            &&& read.painted.len() == drawing.len()
            &&& forall|k: int|
                #![trigger read.painted[k]]
                0 <= k < drawing.len() ==> {
                    let Paint::Solid(c) = drawing[k].paint;
                    let fill = read.painted[k].fill;
                    let cmds = drawing[k].path.flatten();
                    &&& fill.len() == 7 && fill[0] == '#'
                    &&& channel(fill, 1) == c.r && channel(fill, 3) == c.g && channel(fill, 5)
                        == c.b
                    &&& replay::read_path(
                        g,
                        read.painted[k].data,
                        replay::origin(0int),
                    ) matches Some(strokes)
                    &&& strokes.len() == cmds.len()
                    &&& forall|i: int|
                        #![trigger strokes[i]]
                        0 <= i < cmds.len() ==> match cmds[i] {
                            PathCmd::MoveTo(q) => strokes[i] == Stroke::MoveTo(
                                u(q.x.value()),
                                u(q.y.value()),
                            ),
                            PathCmd::LineTo(q) => strokes[i] == Stroke::LineTo(
                                u(q.x.value()),
                                u(q.y.value()),
                            ),
                            PathCmd::CubicTo(a, b, e) => strokes[i] == Stroke::CubicTo(
                                u(a.x.value()),
                                u(a.y.value()),
                                u(b.x.value()),
                                u(b.y.value()),
                                u(e.x.value()),
                                u(e.y.value()),
                            ),
                            PathCmd::Close => strokes[i] == Stroke::<int>::Close,
                        }
                }
        }),
        forall|x: Value| #[trigger]
            number::scaled(x, Some(p)) matches Some(n) ==> reading::as_written(
                Some(p),
                p as nat,
                text,
            )(x) == n,
{
    let u = reading::as_written(Some(p), p as nat, text);
    let g = reading::in_decimals(p as nat);
    let drawing = doc.shapes.filter(|s: ir::ShapeView| s.path.flatten().len() > 0);
    document::law_document_reads_back(w, doc, text);
    lemma_painted_shapes(w, doc.shapes, text);
    lemma_drawing_holds(doc.shapes, replay::fitting(p, text));
    let painted = document::painted(w, doc.shapes, text);
    assert forall|k: int| #![trigger painted[k]] 0 <= k < drawing.len() implies {
        &&& replay::read_path(g, painted[k].data, replay::origin(0int)) == Some(
            replay::strokes(drawing[k].path.flatten(), u),
        )
        &&& painted[k].fill == svg::fill_text(drawing[k])
    } by {
        assert(replay::holds_of_all(drawing[k].path.flatten(), replay::fitting(p, text)));
        replay::law_path_reads_back(w, p, drawing[k], text);
    }
    assert forall|k: int| #![trigger painted[k]] 0 <= k < drawing.len() implies {
        let Paint::Solid(c) = drawing[k].paint;
        let fill = painted[k].fill;
        &&& fill.len() == 7 && fill[0] == '#'
        &&& channel(fill, 1) == c.r && channel(fill, 3) == c.g && channel(fill, 5) == c.b
    } by {
        law_fill_is_the_paint(drawing[k]);
    }
    let none = ir::ShapeView { paint: Paint::Solid(Color { r: 0, g: 0, b: 0, a: 0 }), path: seq![] };
    assert(none.path.flatten() =~= seq![]);
    replay::law_path_reads_back(w, p, none, text);
}

/// Without a precision a written document draws its shapes with the very coordinates
/// that they have, for a reader of binary64 numbers whose parser gives back what the
/// float formatter writes.
pub proof fn law_full_document_draws_its_shapes(
    w: SvgWriter,
    parse: Parser,
    doc: ir::DocView,
    text: number::Formatted,
)
    requires
        number::sound(text),
        reading::gives_back(parse, text),
        w.precision is None,
        forall|j: int|
            0 <= j < doc.shapes.len() ==> replay::holds_of_all(
                (#[trigger] doc.shapes[j]).path.flatten(),
                |x: Value| x is Finite,
            ),
    ensures
        ({
            let g = reading::in_binary(parse);
            let drawing = doc.shapes.filter(|s: ir::ShapeView| s.path.flatten().len() > 0);
            &&& document::read_document(svg::document_text(w, doc, text)) matches Some(read)
            &&& read.width == doc.width
            &&& read.height == doc.height
            &&& read.painted.len() == drawing.len()
            &&& forall|k: int|
                #![trigger read.painted[k]]
                0 <= k < drawing.len() ==> {
                    let Paint::Solid(c) = drawing[k].paint;
                    let fill = read.painted[k].fill;
                    let cmds = drawing[k].path.flatten();
                    &&& fill.len() == 7 && fill[0] == '#'
                    &&& channel(fill, 1) == c.r && channel(fill, 3) == c.g && channel(fill, 5)
                        == c.b
                    &&& replay::read_path(
                        g,
                        read.painted[k].data,
                        replay::origin(Value::Finite(0)),
                    ) matches Some(strokes)
                    &&& strokes.len() == cmds.len()
                    &&& forall|i: int|
                        #![trigger strokes[i]]
                        0 <= i < cmds.len() ==> match cmds[i] {
                            PathCmd::MoveTo(q) => strokes[i] == Stroke::MoveTo(
                                q.x.value(),
                                q.y.value(),
                            ),
                            PathCmd::LineTo(q) => strokes[i] == Stroke::LineTo(
                                q.x.value(),
                                q.y.value(),
                            ),
                            PathCmd::CubicTo(a, b, e) => strokes[i] == Stroke::CubicTo(
                                a.x.value(),
                                a.y.value(),
                                b.x.value(),
                                b.y.value(),
                                e.x.value(),
                                e.y.value(),
                            ),
                            PathCmd::Close => strokes[i] == Stroke::<Value>::Close,
                        }
                }
        }),
{
    let ok = |x: Value| x is Finite;
    let u = |x: Value| x;
    let g = reading::in_binary(parse);
    let drawing = doc.shapes.filter(|s: ir::ShapeView| s.path.flatten().len() > 0);
    document::law_document_reads_back(w, doc, text);
    lemma_painted_shapes(w, doc.shapes, text);
    lemma_drawing_holds(doc.shapes, ok);
    let painted = document::painted(w, doc.shapes, text);
    assert forall|k: int| #![trigger painted[k]] 0 <= k < drawing.len() implies {
        &&& replay::read_path(g, painted[k].data, replay::origin(Value::Finite(0))) == Some(
            replay::strokes(drawing[k].path.flatten(), u),
        )
        &&& painted[k].fill == svg::fill_text(drawing[k])
    } by {
        assert(replay::holds_of_all(drawing[k].path.flatten(), ok));
        replay::law_full_path_reads_back(w, parse, drawing[k], text);
    }
    assert forall|k: int| #![trigger painted[k]] 0 <= k < drawing.len() implies {
        let Paint::Solid(c) = drawing[k].paint;
        let fill = painted[k].fill;
        &&& fill.len() == 7 && fill[0] == '#'
        &&& channel(fill, 1) == c.r && channel(fill, 3) == c.g && channel(fill, 5) == c.b
    } by {
        law_fill_is_the_paint(drawing[k]);
    }
}

/// All subpaths of a shape are written, one after the other: the path data of a shape
/// starts with that of its first subpath alone, and each subpath adds to it.
pub proof fn law_path_data_holds_all_subpaths(
    w: SvgWriter,
    shape: ir::ShapeView,
    text: number::Formatted,
)
    requires
        shape.path.len() > 0,
    ensures
        ({
            let fewer = ir::ShapeView {
                paint: shape.paint,
                path: shape.path.take(shape.path.len() - 1),
            };
            let data = svg::path_data(w, shape, text);
            let before = svg::path_data(w, fewer, text);
            &&& before.is_prefix_of(data)
            &&& shape.path.last().len() > 0 ==> before.len() < data.len()
        }),
{
    let n = shape.path.len() as int;
    let fewer = shape.path.take(n - 1);
    let pen = crate::path::initial_pen();
    assert(shape.path.drop_last() =~= fewer);
    shape.path.lemma_flatten_and_flatten_alt_are_equivalent();
    fewer.lemma_flatten_and_flatten_alt_are_equivalent();
    assert(shape.path.flatten() =~= fewer.flatten() + shape.path.last());
    crate::path::lemma_commands_add(w, pen, fewer.flatten(), shape.path.last(), text);
    crate::laws::lemma_commands_present(
        w,
        crate::path::pen_after(pen, fewer.flatten()),
        shape.path.last(),
        text,
    );
}

/// A shape with a command has an element: its path data in quotation marks and, where
/// it stands alone, its fill. A shape without any has none.
pub proof fn law_element_is_its_data_and_fill(
    w: SvgWriter,
    shape: ir::ShapeView,
    text: number::Formatted,
)
    ensures
        shape.path.flatten().len() == 0 ==> {
            &&& svg::path_element(w, shape, true, text) == Seq::<char>::empty()
            &&& svg::path_element(w, shape, false, text) == Seq::<char>::empty()
        },
        shape.path.flatten().len() > 0 ==> {
            let data = svg::path_data(w, shape, text);
            &&& svg::path_element(w, shape, true, text) == "<path d=\""@ + data + "\" fill=\""@
                + svg::fill_text(shape) + "\"/>\n"@
            &&& svg::path_element(w, shape, false, text) == "<path d=\""@ + data + "\"/>\n"@
        },
{
    crate::laws::lemma_commands_present(
        w,
        crate::path::initial_pen(),
        shape.path.flatten(),
        text,
    );
}

/// The elements of shapes follow each other in their order.
pub proof fn law_elements_follow_each_other(
    w: SvgWriter,
    shapes: Seq<ir::ShapeView>,
    shape: ir::ShapeView,
    with_fill: bool,
    text: number::Formatted,
)
    ensures
        svg::path_elements(w, seq![], with_fill, text) == Seq::<char>::empty(),
        svg::path_elements(w, shapes.push(shape), with_fill, text) == svg::path_elements(
            w,
            shapes,
            with_fill,
            text,
        ) + svg::path_element(w, shape, with_fill, text),
{
    assert(shapes.push(shape).drop_last() =~= shapes);
}

/// What stands around the elements of a document, and that the size is in it.
pub proof fn law_document_is_framed(w: SvgWriter, doc: ir::DocView, text: number::Formatted)
    ensures
        svg::document_text(w, doc, text) == "<?xml version=\"1.0\" encoding=\"UTF-8\"?>\n"@
            + "<!-- Generator: visioncortex VTracer "@ + "0.7.0"@ + " -->\n"@
            + "<svg version=\"1.1\" xmlns=\"http://www.w3.org/2000/svg\" width=\""@
            + number::decimal(doc.width as nat) + "\" height=\""@ + number::decimal(
            doc.height as nat,
        ) + "\">\n"@ + svg::body_text(w, doc.shapes, text) + "</svg>\n"@,
{
}

/// Without grouping the body of a document is the elements of its shapes, each with
/// its fill.
pub proof fn law_plain_body_is_the_elements(
    w: SvgWriter,
    shapes: Seq<ir::ShapeView>,
    text: number::Formatted,
)
    requires
        !w.shorthands,
    ensures
        svg::body_text(w, shapes, text) == svg::path_elements(w, shapes, true, text),
{
}

/// With grouping the body of a document is its runs.
pub proof fn law_grouped_body_is_the_runs(
    w: SvgWriter,
    shapes: Seq<ir::ShapeView>,
    text: number::Formatted,
)
    requires
        w.shorthands,
    ensures
        svg::body_text(w, shapes, text) == svg::runs_text(w, svg::runs(shapes), text),
{
}

/// A shape alone is an element with its fill, and no group.
pub proof fn law_lone_shape_is_not_grouped(
    w: SvgWriter,
    shape: ir::ShapeView,
    text: number::Formatted,
)
    ensures
        svg::runs_text(w, svg::runs(seq![shape]), text) == svg::path_element(w, shape, true, text),
        svg::runs_text(w, svg::runs(seq![]), text) == Seq::<char>::empty(),
{
    let one = seq![shape];
    let none = Seq::<ir::ShapeView>::empty();
    assert(one.skip(1) =~= none);
    assert(one.take(1) =~= one);
    assert(svg::runs(none) =~= seq![]);
    assert(svg::runs(one) =~= seq![one]);
    assert(seq![one].skip(1) =~= seq![]);
    assert(svg::runs_text(w, seq![one].skip(1), text) =~= seq![]);
    law_elements_follow_each_other(w, none, shape, true, text);
    assert(none.push(shape) =~= one);
    assert(svg::path_elements(w, one, true, text) =~= svg::path_element(w, shape, true, text));
    assert(svg::runs_text(w, seq![one], text) =~= svg::path_element(w, shape, true, text));
}

/// Several shapes of one fill are a group of this fill, and their elements have none
/// of their own.
pub proof fn law_shapes_of_one_fill_are_grouped(
    w: SvgWriter,
    shapes: Seq<ir::ShapeView>,
    text: number::Formatted,
)
    requires
        shapes.len() > 1,
        forall|i: int|
            0 <= i < shapes.len() ==> svg::fill_text(#[trigger] shapes[i]) == svg::fill_text(
                shapes[0],
            ),
    ensures
        svg::runs_text(w, svg::runs(shapes), text) == "<g fill=\""@ + svg::fill_text(shapes[0])
            + "\">\n"@ + svg::path_elements(w, shapes, false, text) + "</g>\n"@,
{
    let n = shapes.len();
    let none = Seq::<ir::ShapeView>::empty();
    svg::lemma_run_found(shapes, n);
    assert(shapes.take(n as int) =~= shapes);
    assert(shapes.skip(n as int) =~= none);
    assert(svg::runs(none) =~= seq![]);
    assert(svg::runs(shapes) =~= seq![shapes]);
    assert(seq![shapes].skip(1) =~= seq![]);
    assert(svg::runs_text(w, seq![shapes].skip(1), text) =~= seq![]);
    assert(svg::runs_text(w, seq![shapes], text) =~= svg::run_text(w, shapes, text));
}

/// Runs on both sides of a change of fill are runs of the whole.
proof fn lemma_runs_split(a: Seq<ir::ShapeView>, b: Seq<ir::ShapeView>)
    requires
        a.len() > 0,
        b.len() > 0,
        svg::fill_text(a[a.len() - 1]) != svg::fill_text(b[0]),
    ensures
        svg::runs(a + b) == svg::runs(a) + svg::runs(b),
    decreases a.len(),
{
    let all = a + b;
    let n = svg::run_length(a);
    svg::lemma_run_length(a);
    assert forall|i: int| 0 <= i < n implies svg::fill_text(#[trigger] all[i]) == svg::fill_text(
        all[0],
    ) by {
        assert(all[i] == a[i]);
    }
    if n < a.len() {
        assert(all[n as int] == a[n as int]);
    } else {
        assert(all[n as int] == b[0]);
        assert(svg::fill_text(a[n - 1]) == svg::fill_text(a[0]));
    }
    svg::lemma_run_found(all, n);
    let run = a.take(n as int);
    let rest = a.skip(n as int);
    assert(all.take(n as int) =~= run);
    if rest.len() > 0 {
        assert(all.skip(n as int) =~= rest + b);
        assert(rest[rest.len() - 1] == a[a.len() - 1]);
        lemma_runs_split(rest, b);
    } else {
        assert(all.skip(n as int) =~= b);
        assert(svg::runs(rest) =~= seq![]);
    }
    assert(svg::runs(all) =~= svg::runs(a) + svg::runs(b));
}

proof fn lemma_runs_text_add(
    w: SvgWriter,
    x: Seq<Seq<ir::ShapeView>>,
    y: Seq<Seq<ir::ShapeView>>,
    text: number::Formatted,
)
    ensures
        svg::runs_text(w, x + y, text) == svg::runs_text(w, x, text) + svg::runs_text(w, y, text),
    decreases x.len(),
{
    if x.len() == 0 {
        assert(x + y =~= y);
        assert(svg::runs_text(w, x, text) + svg::runs_text(w, y, text) =~= svg::runs_text(
            w,
            y,
            text,
        ));
    } else {
        assert((x + y).skip(1) =~= x.skip(1) + y);
        lemma_runs_text_add(w, x.skip(1), y, text);
        let first = svg::run_text(w, x[0], text);
        let (p, q) = (svg::runs_text(w, x.skip(1), text), svg::runs_text(w, y, text));
        assert(first + (p + q) =~= (first + p) + q);
    }
}

/// Where the fill changes, the runs of shapes fall into two parts.
pub proof fn law_runs_part_where_the_fill_changes(
    w: SvgWriter,
    a: Seq<ir::ShapeView>,
    b: Seq<ir::ShapeView>,
    text: number::Formatted,
)
    requires
        a.len() > 0,
        b.len() > 0,
        svg::fill_text(a[a.len() - 1]) != svg::fill_text(b[0]),
    ensures
        svg::runs_text(w, svg::runs(a + b), text) == svg::runs_text(w, svg::runs(a), text)
            + svg::runs_text(w, svg::runs(b), text),
{
    lemma_runs_split(a, b);
    lemma_runs_text_add(w, svg::runs(a), svg::runs(b), text);
}

} // verus!
