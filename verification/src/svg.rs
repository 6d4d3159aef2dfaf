//! Serialize a [`VectorDoc`] to an SVG string.
//!
//! The writer makes the encoding choices that shrink the output without changing
//! the geometry that is written:
//!
//! * per segment, the shorter of absolute and relative coordinates (`L`/`l`,
//!   `C`/`c`);
//! * `H`/`V` (`h`/`v`) for axis-aligned lines and `S`/`s` for smooth cubic
//!   continuations;
//! * compact numbers (trimmed zeros, leading-dot decimals, no separator before a
//!   negative number);
//! * optional `<g fill>` grouping of consecutive shapes of the same fill.
//!
//! Coordinates are in absolute document space, so no path carries a `transform`.
//!
//! At a precision, a relative number leads from what is written of one point to
//! what is written of the next, so rounding does not add up; and a smooth
//! continuation is taken only where the written control points mirror each other.
//! Where numbers are not written as whole numbers of parts, there is no relative
//! form and no smooth continuation. Without a precision, a relative number is
//! written only where the difference of the floats is exact, and a smooth
//! continuation is taken only where the control point is the mirror image itself.
//!
//! The functions that write numbers take a float formatter, which is asked only
//! for numbers that the integer formatter cannot write: see
//! [`crate::number::push_num`].
use vstd::prelude::*;
use vstd::string::*;

use crate::document;
use crate::ir::{Color, Paint, Shape, VectorDoc};
use crate::ir;
use crate::number;
use crate::number::push_decimal;
use crate::path;
use crate::path::Emitter;
use crate::scalar::Scalar;

verus! {

/// The version that the generator comment gives.
pub const VERSION: &'static str = "0.7.0";

/// SVG serializer configuration.
#[derive(Debug, Clone, Copy)]
pub struct SvgWriter {
    /// Allow relative commands where they serialize shorter.
    pub relative: bool,
    /// Allow `H`/`V`/`S` shorthands and `<g fill>` grouping.
    pub shorthands: bool,
    /// Decimal places for coordinates (`None`: full precision).
    pub precision: Option<u32>,
}

impl Default for SvgWriter {
    fn default() -> (r: SvgWriter)
        ensures
            r == (SvgWriter { relative: true, shorthands: true, precision: Some(2) }),
    {
        SvgWriter { relative: true, shorthands: true, precision: Some(2) }
    }
}

/// The character of a hexadecimal digit, in capitals.
pub open spec fn hex_digit(d: nat) -> char {
    if d < 10 {
        (48 + d) as char
    } else {
        (55 + d) as char
    }
}

/// The color as `#RRGGBB`; the alpha channel is left out.
pub open spec fn hex_text(c: Color) -> Seq<char> {
    seq![
        '#',
        hex_digit((c.r / 16) as nat),
        hex_digit((c.r % 16) as nat),
        hex_digit((c.g / 16) as nat),
        hex_digit((c.g % 16) as nat),
        hex_digit((c.b / 16) as nat),
        hex_digit((c.b % 16) as nat),
    ]
}

/// `visioncortex::Color::to_hex_string` writes a `#` and the red, green and blue
/// channels, each as two hexadecimal digits in capitals.
#[verifier::external_body]
fn to_hex_string(c: Color) -> (r: String)
    ensures
        r@ == hex_text(c),
{
    visioncortex::Color::new_rgba(c.r, c.g, c.b, c.a).to_hex_string()
}

/// The fill of a shape, as the attribute holds it.
pub open spec fn fill_text(shape: ir::ShapeView) -> Seq<char> {
    match shape.paint {
        Paint::Solid(c) => hex_text(c),
    }
}

pub fn shape_fill(shape: &Shape) -> (r: String)
    ensures
        r@ == fill_text(shape@),
{
    match shape.paint {
        Paint::Solid(c) => to_hex_string(c),
    }
}

/// The path data of a shape: its subpaths, one after the other.
pub open spec fn path_data(
    w: SvgWriter,
    shape: ir::ShapeView,
    text: number::Formatted,
) -> Seq<char> {
    path::commands_text(w, path::initial_pen(), shape.path.flatten(), text)
}

/// The `<path>` element of a shape; a shape without path data has none.
pub open spec fn path_element(
    w: SvgWriter,
    shape: ir::ShapeView,
    with_fill: bool,
    text: number::Formatted,
) -> Seq<char> {
    let d = path_data(w, shape, text);
    if d.len() == 0 {
        seq![]
    } else if with_fill {
        "<path d=\""@ + d + "\" fill=\""@ + fill_text(shape) + "\"/>\n"@
    } else {
        "<path d=\""@ + d + "\"/>\n"@
    }
}

/// The elements of `shapes`, in their order.
pub open spec fn path_elements(
    w: SvgWriter,
    shapes: Seq<ir::ShapeView>,
    with_fill: bool,
    text: number::Formatted,
) -> Seq<char>
    decreases shapes.len(),
{
    if shapes.len() == 0 {
        seq![]
    } else {
        path_elements(w, shapes.drop_last(), with_fill, text) + path_element(
            w,
            shapes.last(),
            with_fill,
            text,
        )
    }
}

/// One element more.
proof fn lemma_path_elements_grow(
    w: SvgWriter,
    shapes: Seq<ir::ShapeView>,
    k: int,
    with_fill: bool,
    text: number::Formatted,
    before: Seq<char>,
)
    requires
        0 < k <= shapes.len(),
    ensures
        before + path_elements(w, shapes.take(k), with_fill, text) == before + path_elements(
            w,
            shapes.take(k - 1),
            with_fill,
            text,
        ) + path_element(w, shapes[k - 1], with_fill, text),
{
    assert(shapes.take(k).drop_last() =~= shapes.take(k - 1));
    assert(before + path_elements(w, shapes.take(k), with_fill, text) =~= before + path_elements(
        w,
        shapes.take(k - 1),
        with_fill,
        text,
    ) + path_element(w, shapes[k - 1], with_fill, text));
}

/// How many shapes from the first on have the fill of the first.
pub open spec fn run_length(shapes: Seq<ir::ShapeView>) -> nat
    decreases shapes.len(),
{
    if shapes.len() == 0 {
        0
    } else if shapes.len() == 1 || fill_text(shapes[0]) != fill_text(shapes[1]) {
        1
    } else {
        1 + run_length(shapes.skip(1))
    }
}

/// A run of shapes of one fill: a `<g fill>` where there are several.
pub open spec fn run_text(
    w: SvgWriter,
    run: Seq<ir::ShapeView>,
    text: number::Formatted,
) -> Seq<char> {
    if run.len() > 1 {
        "<g fill=\""@ + fill_text(run[0]) + "\">\n"@ + path_elements(w, run, false, text)
            + "</g>\n"@
    } else {
        path_elements(w, run, true, text)
    }
}

/// `shapes` cut into maximal runs of one fill.
pub open spec fn runs(shapes: Seq<ir::ShapeView>) -> Seq<Seq<ir::ShapeView>>
    decreases shapes.len(),
    via runs_decreases
{
    if shapes.len() == 0 {
        seq![]
    } else {
        let n = run_length(shapes) as int;
        seq![shapes.take(n)] + runs(shapes.skip(n))
    }
}

#[via_fn]
proof fn runs_decreases(shapes: Seq<ir::ShapeView>) {
    if shapes.len() > 0 {
        lemma_run_length(shapes);
    }
}

/// A run is not empty, lies within the shapes, has one fill, and ends only where
/// the fill changes.
pub proof fn lemma_run_length(shapes: Seq<ir::ShapeView>)
    requires
        shapes.len() > 0,
    ensures
        0 < run_length(shapes) <= shapes.len(),
        forall|i: int|
            0 <= i < run_length(shapes) ==> fill_text(#[trigger] shapes[i]) == fill_text(shapes[0]),
        run_length(shapes) < shapes.len() ==> fill_text(shapes[run_length(shapes) as int])
            != fill_text(shapes[0]),
    decreases shapes.len(),
{
    if shapes.len() > 1 && fill_text(shapes[0]) == fill_text(shapes[1]) {
        let rest = shapes.skip(1);
        lemma_run_length(rest);
        assert forall|i: int| 0 <= i < run_length(shapes) implies fill_text(#[trigger] shapes[i])
            == fill_text(shapes[0]) by {
            if i > 0 {
                assert(rest[i - 1] == shapes[i]);
            }
        }
    }
}

/// The texts of `all` runs, in their order.
pub open spec fn runs_text(
    w: SvgWriter,
    all: Seq<Seq<ir::ShapeView>>,
    text: number::Formatted,
) -> Seq<char>
    decreases all.len(),
{
    if all.len() == 0 {
        seq![]
    } else {
        run_text(w, all[0], text) + runs_text(w, all.skip(1), text)
    }
}

/// What stands between the opening and the closing of the `<svg>` element.
pub open spec fn body_text(
    w: SvgWriter,
    shapes: Seq<ir::ShapeView>,
    text: number::Formatted,
) -> Seq<char> {
    if w.shorthands {
        runs_text(w, runs(shapes), text)
    } else {
        path_elements(w, shapes, true, text)
    }
}

/// The document.
pub open spec fn document_text(w: SvgWriter, doc: ir::DocView, text: number::Formatted) -> Seq<char> {
    "<?xml version=\"1.0\" encoding=\"UTF-8\"?>\n"@
        + "<!-- Generator: visioncortex VTracer "@ + VERSION@ + " -->\n"@
        + "<svg version=\"1.1\" xmlns=\"http://www.w3.org/2000/svg\" width=\""@
        + number::decimal(doc.width as nat) + "\" height=\""@ + number::decimal(doc.height as nat)
        + "\">\n"@ + body_text(w, doc.shapes, text) + "</svg>\n"@
}

impl SvgWriter {
    /// Serialize `doc`. What is written reads back as the path data and the fills
    /// of the shapes, in paint order.
    pub fn write<F: Fn(Scalar, Option<u32>) -> Option<String>>(
        &self,
        doc: &VectorDoc,
        format: &F,
    ) -> (r: String)
        requires
            number::is_formatter(*format),
        ensures
            r@ == document_text(*self, doc@, number::formatted(*format)),
            document::read_document(r@) == Some(
                (document::Document {
                    width: doc.width as nat,
                    height: doc.height as nat,
                    painted: document::painted(
                        *self,
                        doc@.shapes,
                        number::formatted(*format),
                    ),
                }),
            ),
    {
        let ghost text = number::formatted(*format);
        let mut out = String::new();
        out.append("<?xml version=\"1.0\" encoding=\"UTF-8\"?>\n");
        out.append("<!-- Generator: visioncortex VTracer ");
        out.append(VERSION);
        out.append(" -->\n");
        out.append("<svg version=\"1.1\" xmlns=\"http://www.w3.org/2000/svg\" width=\"");
        push_decimal(&mut out, doc.width as u64);
        out.append("\" height=\"");
        push_decimal(&mut out, doc.height as u64);
        out.append("\">\n");
        if self.shorthands {
            self.write_grouped(&mut out, doc.shapes.as_slice(), format);
        } else {
            let n = doc.shapes.len();
            self.write_paths(&mut out, doc.shapes.as_slice(), 0, n, true, format);
            assert(doc@.shapes.subrange(0, n as int) =~= doc@.shapes);
        }
        out.append("</svg>\n");
        assert(out@ =~= document_text(*self, doc@, text));
        proof {
            number::law_formatter_is_sound(*format);
            document::law_document_reads_back(*self, doc@, text);
        }
        out
    }

    /// Emit shapes, grouping maximal runs of consecutive shapes of the same fill
    /// into a single `<g fill>` (preserving paint order).
    pub fn write_grouped<F: Fn(Scalar, Option<u32>) -> Option<String>>(
        &self,
        out: &mut String,
        shapes: &[Shape],
        format: &F,
    )
        requires
            number::is_formatter(*format),
        ensures
            final(out)@ == old(out)@ + runs_text(
                *self,
                runs(ir::shapes_view(shapes@)),
                number::formatted(*format),
            ),
    {
        let ghost text = number::formatted(*format);
        let ghost all = ir::shapes_view(shapes@);
        let ghost goal = out@ + runs_text(*self, runs(all), text);
        let mut i: usize = 0;
        assert(all.skip(0) =~= all);
        while i < shapes.len()
            invariant
                i <= shapes.len(),
                number::is_formatter(*format),
                text == number::formatted(*format),
                all == ir::shapes_view(shapes@),
                goal == out@ + runs_text(*self, runs(all.skip(i as int)), text),
            decreases shapes.len() - i,
        {
            let ghost rest = all.skip(i as int);
            let fill = shape_fill(&shapes[i]);
            let mut j: usize = i + 1;
            assert(rest[0] == shapes@[i as int]@);
            while j < shapes.len() && shape_fill(&shapes[j]) == fill
                invariant
                    i < j <= shapes.len(),
                    all == ir::shapes_view(shapes@),
                    rest == all.skip(i as int),
                    fill@ == fill_text(rest[0]),
                    forall|k: int| 0 <= k < j - i ==> fill_text(#[trigger] rest[k]) == fill@,
                decreases shapes.len() - j,
            {
                assert(rest[j - i] == shapes@[j as int]@);
                j = j + 1;
            }
            proof {
                if j < shapes.len() {
                    assert(rest[j - i] == shapes@[j as int]@);
                }
                lemma_run_found(rest, (j - i) as nat);
            }
            let ghost run = rest.take(j - i);
            let ghost before = out@;
            assert(run =~= all.subrange(i as int, j as int));
            self.write_run(out, shapes, i, j, fill.as_str(), format);
            proof {
                assert(rest.skip(j - i) =~= all.skip(j as int));
                let left = runs(rest);
                assert(left[0] == run);
                assert(left.skip(1) =~= runs(all.skip(j as int)));
                assert(goal =~= out@ + runs_text(*self, runs(all.skip(j as int)), text));
            }
            i = j;
        }
        assert(all.skip(i as int) =~= seq![]);
        assert(out@ =~= goal);
    }

    /// Emit the run `shapes[from..to]`, whose fill is `fill`.
    fn write_run<F: Fn(Scalar, Option<u32>) -> Option<String>>(
        &self,
        out: &mut String,
        shapes: &[Shape],
        from: usize,
        to: usize,
        fill: &str,
        format: &F,
    )
        requires
            number::is_formatter(*format),
            from < to <= shapes@.len(),
            fill@ == fill_text(shapes@[from as int]@),
        ensures
            final(out)@ == old(out)@ + run_text(
                *self,
                ir::shapes_view(shapes@).subrange(from as int, to as int),
                number::formatted(*format),
            ),
    {
        let ghost text = number::formatted(*format);
        let ghost run = ir::shapes_view(shapes@).subrange(from as int, to as int);
        if to - from > 1 {
            out.append("<g fill=\"");
            out.append(fill);
            out.append("\">\n");
            self.write_paths(out, shapes, from, to, false, format);
            out.append("</g>\n");
        } else {
            self.write_path(out, &shapes[from], true, format);
            assert(run.drop_last() =~= seq![]);
            assert(path_elements(*self, run.drop_last(), true, text) =~= seq![]);
        }
        assert(out@ =~= old(out)@ + run_text(*self, run, text));
    }

    /// Emit the `<path>` elements of `shapes[from..to]`.
    fn write_paths<F: Fn(Scalar, Option<u32>) -> Option<String>>(
        &self,
        out: &mut String,
        shapes: &[Shape],
        from: usize,
        to: usize,
        with_fill: bool,
        format: &F,
    )
        requires
            number::is_formatter(*format),
            from <= to <= shapes@.len(),
        ensures
            final(out)@ == old(out)@ + path_elements(
                *self,
                ir::shapes_view(shapes@).subrange(from as int, to as int),
                with_fill,
                number::formatted(*format),
            ),
    {
        let ghost text = number::formatted(*format);
        let ghost run = ir::shapes_view(shapes@).subrange(from as int, to as int);
        let ghost before = out@;
        let mut k: usize = from;
        assert(out@ =~= before + path_elements(*self, run.take(0), with_fill, text));
        while k < to
            invariant
                from <= k <= to <= shapes@.len(),
                number::is_formatter(*format),
                text == number::formatted(*format),
                run == ir::shapes_view(shapes@).subrange(from as int, to as int),
                out@ == before + path_elements(*self, run.take(k - from), with_fill, text),
            decreases to - k,
        {
            self.write_path(out, &shapes[k], with_fill, format);
            k = k + 1;
            proof {
                lemma_path_elements_grow(*self, run, k - from, with_fill, text, before);
            }
        }
        assert(run.take(k - from) =~= run);
    }

    /// Emit the `<path>` element of `shape`.
    pub fn write_path<F: Fn(Scalar, Option<u32>) -> Option<String>>(
        &self,
        out: &mut String,
        shape: &Shape,
        with_fill: bool,
        format: &F,
    )
        requires
            number::is_formatter(*format),
        ensures
            final(out)@ == old(out)@ + path_element(
                *self,
                shape@,
                with_fill,
                number::formatted(*format),
            ),
    {
        let d = self.encode_path(shape, format);
        if d.as_str().is_empty() {
            assert(out@ =~= old(out)@ + Seq::<char>::empty());
            return;
        }
        out.append("<path d=\"");
        out.append(d.as_str());
        if with_fill {
            out.append("\" fill=\"");
            let fill = shape_fill(shape);
            out.append(fill.as_str());
        }
        out.append("\"/>\n");
        assert(out@ =~= old(out)@ + path_element(
            *self,
            shape@,
            with_fill,
            number::formatted(*format),
        ));
    }

    /// The path data of `shape`.
    pub fn encode_path<F: Fn(Scalar, Option<u32>) -> Option<String>>(
        &self,
        shape: &Shape,
        format: &F,
    ) -> (r: String)
        requires
            number::is_formatter(*format),
        ensures
            r@ == path_data(*self, shape@, number::formatted(*format)),
    {
        let ghost text = number::formatted(*format);
        let mut emitter = Emitter::new(self.relative, self.shorthands, self.precision);
        let ghost subs = shape@.path;
        let ghost pen = path::initial_pen();
        let mut i: usize = 0;
        assert(subs.take(0).flatten() =~= seq![]);
        while i < shape.path.subpaths.len()
            invariant
                i <= shape.path.subpaths.len(),
                number::is_formatter(*format),
                text == number::formatted(*format),
                subs == shape@.path,
                pen == path::initial_pen(),
                emitter.writer() == *self,
                emitter.pen() == path::pen_after(pen, subs.take(i as int).flatten()),
                emitter.output() == path::commands_text(
                    *self,
                    pen,
                    subs.take(i as int).flatten(),
                    text,
                ),
            decreases shape.path.subpaths.len() - i,
        {
            emitter.subpath(&shape.path.subpaths[i], format);
            i = i + 1;
            proof {
                let done = subs.take(i - 1);
                let next = subs.take(i as int);
                assert(next.drop_last() =~= done);
                next.lemma_flatten_and_flatten_alt_are_equivalent();
                done.lemma_flatten_and_flatten_alt_are_equivalent();
                assert(next.flatten() =~= done.flatten() + subs[i - 1]);
                path::lemma_commands_add(*self, pen, done.flatten(), subs[i - 1], text);
            }
        }
        assert(subs.take(i as int) =~= subs);
        emitter.finish()
    }
}

/// A run that has one fill and ends where the fill changes is the one at the
/// start.
pub proof fn lemma_run_found(shapes: Seq<ir::ShapeView>, n: nat)
    requires
        0 < n <= shapes.len(),
        forall|i: int| 0 <= i < n ==> fill_text(#[trigger] shapes[i]) == fill_text(shapes[0]),
        n < shapes.len() ==> fill_text(shapes[n as int]) != fill_text(shapes[0]),
    ensures
        run_length(shapes) == n,
{
    lemma_run_length(shapes);
    let m = run_length(shapes);
    if m < n {
        assert(fill_text(shapes[m as int]) == fill_text(shapes[0]));
    } else if n < m {
        assert(fill_text(shapes[n as int]) == fill_text(shapes[0]));
    }
}

/// Whether every shape of `run` has the fill of the first, and there is a first.
pub open spec fn one_fill(run: Seq<ir::ShapeView>) -> bool {
    &&& run.len() > 0
    &&& forall|i: int| 0 <= i < run.len() ==> fill_text(#[trigger] run[i]) == fill_text(run[0])
}

/// Grouping keeps the paint order: the runs, one after the other, are the shapes.
/// Each run has one fill, and the fill changes from each run to the next.
pub proof fn law_runs_keep_order(shapes: Seq<ir::ShapeView>)
    ensures
        runs(shapes).flatten() == shapes,
        forall|i: int| 0 <= i < runs(shapes).len() ==> one_fill(#[trigger] runs(shapes)[i]),
        forall|i: int|
            0 < i < runs(shapes).len() ==> fill_text(runs(shapes)[i - 1][0]) != fill_text(
                #[trigger] runs(shapes)[i][0],
            ),
    decreases shapes.len(),
{
    let all = runs(shapes);
    if shapes.len() == 0 {
        assert(all.flatten() =~= shapes);
    } else {
        let n = run_length(shapes) as int;
        let run = shapes.take(n);
        let rest = shapes.skip(n);
        let more = runs(rest);
        lemma_run_length(shapes);
        law_runs_keep_order(rest);
        assert(all[0] == run);
        assert(all.drop_first() =~= more);
        assert(all.flatten() =~= shapes) by {
            assert(all.flatten() == run + more.flatten());
        }
        assert forall|i: int| 0 <= i < all.len() implies one_fill(#[trigger] all[i]) by {
            if i == 0 {
                assert forall|k: int| 0 <= k < run.len() implies fill_text(#[trigger] run[k])
                    == fill_text(run[0]) by {
                    assert(run[k] == shapes[k]);
                }
            } else {
                assert(all[i] == more[i - 1]);
            }
        }
        assert forall|i: int| 0 < i < all.len() implies fill_text(all[i - 1][0]) != fill_text(
            #[trigger] all[i][0],
        ) by {
            assert(all[i] == more[i - 1]);
            if i == 1 {
                assert(rest.len() > 0);
                lemma_run_length(rest);
                assert(more[0] == rest.take(run_length(rest) as int));
                assert(more[0][0] == shapes[n]);
            } else {
                assert(all[i - 1] == more[i - 2]);
                assert(fill_text(more[i - 1 - 1][0]) != fill_text(more[i - 1][0]));
            }
        }
    }
}

} // verus!
