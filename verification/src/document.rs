//! How a reader takes a document apart, and that it finds there the path data and
//! the fills of the shapes, in paint order.
use vstd::prelude::*;

use crate::ir;
use crate::laws;
use crate::number;
use crate::path;
use crate::reading;
use crate::scalar::Value;
use crate::svg;
use crate::svg::SvgWriter;

verus! {

/// The path data of a `<path>` element and its fill, its own or that of the group
/// around it.
pub struct Painted {
    pub data: Seq<char>,
    pub fill: Seq<char>,
}

/// What a document comes to.
pub struct Document {
    pub width: nat,
    pub height: nat,
    pub painted: Seq<Painted>,
}

/// What follows `prefix` in `s`, where `s` starts with it.
pub open spec fn after(s: Seq<char>, prefix: Seq<char>) -> Option<Seq<char>> {
    if prefix.is_prefix_of(s) {
        Some(s.skip(prefix.len() as int))
    } else {
        None
    }
}

/// How far the first quotation mark of `s` is.
pub open spec fn quote(s: Seq<char>) -> nat
    decreases s.len(),
{
    if s.len() == 0 || s[0] == '"' {
        0
    } else {
        1 + quote(s.skip(1))
    }
}

/// One step of reading.
pub enum Step {
    /// A `<path>` element, and what follows it.
    Path(Painted, Seq<char>),
    /// A `<g>` opens with this fill.
    Open(Seq<char>, Seq<char>),
    /// A `<g>` closes.
    Close(Seq<char>),
    /// The document ends.
    End,
}

/// A `<path>` element, of which `s` follows `<path d="`.
pub open spec fn read_path_element(s: Seq<char>, fill: Option<Seq<char>>) -> Option<Step> {
    let data = s.take(quote(s) as int);
    let rest = s.skip(quote(s) as int);
    match (after(rest, "\"/>\n"@), after(rest, "\" fill=\""@), fill) {
        (Some(end), _, Some(fill)) => Some(Step::Path(Painted { data, fill }, end)),
        (_, Some(own), _) => match after(own.skip(quote(own) as int), "\"/>\n"@) {
            Some(end) => Some(Step::Path(Painted { data, fill: own.take(quote(own) as int) }, end)),
            None => None,
        },
        _ => None,
    }
}

/// What `s` starts with, inside a group of the fill `fill` or outside of any.
#[verifier::opaque]
pub open spec fn read_step(s: Seq<char>, fill: Option<Seq<char>>) -> Option<Step> {
    match (
        after(s, "<path d=\""@),
        after(s, "<g fill=\""@),
        after(s, "</g>\n"@),
        after(s, "</svg>\n"@),
    ) {
        (Some(rest), _, _, _) => read_path_element(rest, fill),
        (_, Some(rest), _, _) => match (fill, after(rest.skip(quote(rest) as int), "\">\n"@)) {
            (None, Some(end)) => Some(Step::Open(rest.take(quote(rest) as int), end)),
            _ => None,
        },
        (_, _, Some(rest), _) => if fill is Some {
            Some(Step::Close(rest))
        } else {
            None
        },
        (_, _, _, Some(rest)) => if fill is None && rest.len() == 0 {
            Some(Step::End)
        } else {
            None
        },
        _ => None,
    }
}

/// The elements of `s`, up to the end of the document.
#[verifier::opaque]
pub open spec fn read_elements(s: Seq<char>, fill: Option<Seq<char>>) -> Option<Seq<Painted>>
    decreases s.len(),
{
    match read_step(s, fill) {
        Some(Step::Path(painted, rest)) => if rest.len() < s.len() {
            before(seq![painted], read_elements(rest, fill))
        } else {
            None
        },
        Some(Step::Open(own, rest)) => if rest.len() < s.len() {
            read_elements(rest, Some(own))
        } else {
            None
        },
        Some(Step::Close(rest)) => if rest.len() < s.len() {
            read_elements(rest, None)
        } else {
            None
        },
        Some(Step::End) => Some(seq![]),
        None => None,
    }
}

/// `some` and then `more`, where there is more to be read.
pub open spec fn before(some: Seq<Painted>, more: Option<Seq<Painted>>) -> Option<Seq<Painted>> {
    match more {
        Some(more) => Some(some + more),
        None => None,
    }
}

/// The number that `s` starts with, and what follows `mark` behind it.
pub open spec fn read_count(s: Seq<char>, mark: Seq<char>) -> Option<(nat, Seq<char>)> {
    let n = reading::digit_run(s) as int;
    match after(s.skip(n), mark) {
        Some(rest) => Some((reading::digits_value(s.take(n)), rest)),
        None => None,
    }
}

/// What stands in `s` from the width on.
pub open spec fn read_size(s: Seq<char>) -> Option<Document> {
    match read_count(s, "\" height=\""@) {
        Some((width, rest)) => match read_count(rest, "\">\n"@) {
            Some((height, body)) => match read_elements(body, None) {
                Some(painted) => Some(Document { width, height, painted }),
                None => None,
            },
            None => None,
        },
        None => None,
    }
}

/// The document.
pub open spec fn read_document(s: Seq<char>) -> Option<Document> {
    let head = "<?xml version=\"1.0\" encoding=\"UTF-8\"?>\n"@
        + "<!-- Generator: visioncortex VTracer "@ + svg::VERSION@ + " -->\n"@
        + "<svg version=\"1.1\" xmlns=\"http://www.w3.org/2000/svg\" width=\""@;
    match after(s, head) {
        Some(rest) => read_size(rest),
        None => None,
    }
}

/// The shapes that draw anything, each as its path data and its fill.
pub open spec fn painted(
    w: SvgWriter,
    shapes: Seq<ir::ShapeView>,
    text: number::Formatted,
) -> Seq<Painted>
    decreases shapes.len(),
{
    if shapes.len() == 0 {
        seq![]
    } else {
        let lower = painted(w, shapes.drop_last(), text);
        let top = shapes.last();
        if top.path.flatten().len() == 0 {
            lower
        } else {
            lower.push(
                Painted { data: svg::path_data(w, top, text), fill: svg::fill_text(top) },
            )
        }
    }
}

/// All but the quotation mark.
pub open spec fn unquoted() -> laws::Charset {
    |c: char| c != '"'
}

proof fn lemma_after(prefix: Seq<char>, rest: Seq<char>)
    ensures
        after(prefix + rest, prefix) == Some(rest),
{
    assert((prefix + rest).skip(prefix.len() as int) =~= rest);
    assert(prefix.is_prefix_of(prefix + rest));
}

/// What holds no quotation mark ends at the first.
proof fn lemma_quote(s: Seq<char>, rest: Seq<char>)
    requires
        laws::made_of(s, unquoted()),
        rest.len() > 0,
        rest[0] == '"',
    ensures
        quote(s + rest) == s.len(),
        (s + rest).take(s.len() as int) == s,
        (s + rest).skip(s.len() as int) == rest,
    decreases s.len(),
{
    if s.len() == 0 {
        assert(s + rest =~= rest);
    } else {
        let t = s.skip(1);
        assert forall|i: int| 0 <= i < t.len() implies unquoted()(#[trigger] t[i]) by {
            assert(t[i] == s[i + 1]);
        }
        assert(unquoted()(s[0]));
        lemma_quote(t, rest);
        assert((s + rest).skip(1) =~= t + rest);
    }
    assert((s + rest).take(s.len() as int) =~= s);
    assert((s + rest).skip(s.len() as int) =~= rest);
}

/// A fill holds no quotation mark.
proof fn lemma_fill_unquoted(shape: ir::ShapeView)
    ensures
        laws::made_of(svg::fill_text(shape), unquoted()),
{
}

/// Path data holds no quotation mark.
proof fn lemma_data_unquoted(w: SvgWriter, shape: ir::ShapeView, text: number::Formatted)
    requires
        number::sound(text),
    ensures
        laws::made_of(svg::path_data(w, shape, text), unquoted()),
{
    assert forall|x: Value, p: Option<u32>|
        !(x is Finite) && #[trigger] text(x, p) is Some implies laws::made_of(
        text(x, p)->0,
        unquoted(),
    ) by {
        assert(number::acceptable(x, p, text(x, p)));
        let raw = text(x, p)->0;
        assert forall|i: int| 0 <= i < raw.len() implies unquoted()(#[trigger] raw[i]) by {
            assert(raw[i] == '"' ==> raw.contains('"'));
        }
    }
    laws::lemma_sound_writes_only(text, unquoted());
    laws::lemma_commands_made_of(
        w,
        path::initial_pen(),
        shape.path.flatten(),
        text,
        unquoted(),
    );
}

/// An element with its own fill, read.
pub proof fn law_filled_element_reads(
    data: Seq<char>,
    own: Seq<char>,
    fill: Option<Seq<char>>,
    rest: Seq<char>,
)
    requires
        laws::made_of(data, unquoted()),
        laws::made_of(own, unquoted()),
    ensures
        ({
            let s = "<path d=\""@ + data + "\" fill=\""@ + own + "\"/>\n"@ + rest;
            &&& rest.len() < s.len()
            &&& read_step(s, fill) == Some(Step::Path((Painted { data, fill: own }), rest))
        }),
{
    reveal(read_step);
    let (open, mid, close) = ("<path d=\""@, "\" fill=\""@, "\"/>\n"@);
    reveal_strlit("\"/>\n");
    reveal_strlit("\" fill=\"");
    let u = close + rest;
    let v = own + u;
    let t = mid + v;
    let s = open + data + mid + own + close + rest;
    assert(s =~= open + (data + t));
    lemma_after(open, data + t);
    lemma_quote(data, t);
    lemma_after(mid, v);
    lemma_quote(own, u);
    lemma_after(close, rest);
    assert(t[1] == ' ');
    assert(after(t, close) is None) by {
        if close.is_prefix_of(t) {
            assert(close[1] == t[1]);
        }
    }
}

/// An element in a group, read.
pub proof fn law_grouped_element_reads(data: Seq<char>, fill: Seq<char>, rest: Seq<char>)
    requires
        laws::made_of(data, unquoted()),
    ensures
        ({
            let s = "<path d=\""@ + data + "\"/>\n"@ + rest;
            &&& rest.len() < s.len()
            &&& read_step(s, Some(fill)) == Some(Step::Path((Painted { data, fill }), rest))
        }),
{
    reveal(read_step);
    let (open, close) = ("<path d=\""@, "\"/>\n"@);
    reveal_strlit("\"/>\n");
    let t = close + rest;
    let s = open + data + close + rest;
    assert(s =~= open + (data + t));
    lemma_after(open, data + t);
    lemma_quote(data, t);
    lemma_after(close, rest);
}

/// A group opens.
pub proof fn law_group_opening_reads(fill: Seq<char>, rest: Seq<char>)
    requires
        laws::made_of(fill, unquoted()),
    ensures
        ({
            let s = "<g fill=\""@ + fill + "\">\n"@ + rest;
            &&& rest.len() < s.len()
            &&& read_step(s, None) == Some(Step::Open(fill, rest))
        }),
{
    reveal(read_step);
    let (open, close, path) = ("<g fill=\""@, "\">\n"@, "<path d=\""@);
    reveal_strlit("<g fill=\"");
    reveal_strlit("\">\n");
    reveal_strlit("<path d=\"");
    let t = close + rest;
    let s = open + fill + close + rest;
    assert(s =~= open + (fill + t));
    lemma_after(open, fill + t);
    lemma_quote(fill, t);
    lemma_after(close, rest);
    assert(s[1] == 'g');
    assert(after(s, path) is None) by {
        if path.is_prefix_of(s) {
            assert(path[1] == s[1]);
        }
    }
}

/// A group closes.
pub proof fn law_group_closing_reads(fill: Seq<char>, rest: Seq<char>)
    ensures
        ({
            let s = "</g>\n"@ + rest;
            &&& rest.len() < s.len()
            &&& read_step(s, Some(fill)) == Some(Step::Close(rest))
        }),
{
    reveal(read_step);
    let (close, open, path) = ("</g>\n"@, "<g fill=\""@, "<path d=\""@);
    reveal_strlit("</g>\n");
    reveal_strlit("<g fill=\"");
    reveal_strlit("<path d=\"");
    let s = close + rest;
    lemma_after(close, rest);
    assert(s[1] == '/');
    assert(after(s, path) is None && after(s, open) is None) by {
        if path.is_prefix_of(s) {
            assert(path[1] == s[1]);
        }
        if open.is_prefix_of(s) {
            assert(open[1] == s[1]);
        }
    }
}

/// The document ends.
pub proof fn law_document_end_reads()
    ensures
        read_elements("</svg>\n"@, None) == Some(Seq::<Painted>::empty()),
{
    reveal_with_fuel(read_elements, 1);
    reveal(read_step);
    let (end, close, open, path) = ("</svg>\n"@, "</g>\n"@, "<g fill=\""@, "<path d=\""@);
    reveal_strlit("</svg>\n");
    reveal_strlit("</g>\n");
    reveal_strlit("<g fill=\"");
    reveal_strlit("<path d=\"");
    lemma_after(end, seq![]);
    assert(end + Seq::<char>::empty() =~= end);
    assert(end[1] == '/' && end[2] == 's');
    assert(after(end, path) is None && after(end, open) is None && after(end, close) is None) by {
        if path.is_prefix_of(end) {
            assert(path[1] == end[1]);
        }
        if open.is_prefix_of(end) {
            assert(open[1] == end[1]);
        }
        if close.is_prefix_of(end) {
            assert(close[2] == end[2]);
        }
    }
}

/// The element of a shape, read: it is there where the shape draws anything.
proof fn lemma_element_reads(
    w: SvgWriter,
    shape: ir::ShapeView,
    with_fill: bool,
    fill: Option<Seq<char>>,
    text: number::Formatted,
    rest: Seq<char>,
)
    requires
        number::sound(text),
        with_fill || fill == Some(svg::fill_text(shape)),
    ensures
        read_elements(svg::path_element(w, shape, with_fill, text) + rest, fill) == before(
            painted(w, seq![shape], text),
            read_elements(rest, fill),
        ),
{
    reveal_with_fuel(read_elements, 1);
    let data = svg::path_data(w, shape, text);
    let own = svg::fill_text(shape);
    let s = svg::path_element(w, shape, with_fill, text) + rest;
    laws::lemma_commands_present(w, path::initial_pen(), shape.path.flatten(), text);
    lemma_data_unquoted(w, shape, text);
    lemma_fill_unquoted(shape);
    assert(seq![shape].drop_last() =~= seq![]);
    assert(painted(w, seq![shape].drop_last(), text) =~= seq![]);
    let one = painted(w, seq![shape], text);
    if data.len() == 0 {
        assert(s =~= rest);
        assert(one =~= seq![]);
        if let Some(more) = read_elements(rest, fill) {
            assert(one + more =~= more);
        }
    } else {
        assert(one =~= seq![Painted { data, fill: own }]);
        if with_fill {
            law_filled_element_reads(data, own, fill, rest);
            assert(s =~= "<path d=\""@ + data + "\" fill=\""@ + own + "\"/>\n"@ + rest);
        } else {
            law_grouped_element_reads(data, own, rest);
            assert(s =~= "<path d=\""@ + data + "\"/>\n"@ + rest);
        }
    }
}

/// What is painted of two lists of shapes, one after the other.
proof fn lemma_painted_add(
    w: SvgWriter,
    a: Seq<ir::ShapeView>,
    b: Seq<ir::ShapeView>,
    text: number::Formatted,
)
    ensures
        painted(w, a + b, text) == painted(w, a, text) + painted(w, b, text),
    decreases b.len(),
{
    if b.len() == 0 {
        assert(a + b =~= a);
    } else {
        assert((a + b).drop_last() =~= a + b.drop_last());
        lemma_painted_add(w, a, b.drop_last(), text);
    }
    assert(painted(w, a + b, text) =~= painted(w, a, text) + painted(w, b, text));
}

proof fn lemma_before_add(a: Seq<Painted>, b: Seq<Painted>, more: Option<Seq<Painted>>)
    ensures
        before(a, before(b, more)) == before(a + b, more),
{
    if let Some(m) = more {
        assert(a + (b + m) =~= a + b + m);
    }
}

proof fn lemma_regroup_three(a: Seq<char>, b: Seq<char>, c: Seq<char>)
    ensures
        a + b + c == a + (b + c),
{
    assert(a + b + c =~= a + (b + c));
}

/// The elements of several shapes, read.
proof fn lemma_elements_read(
    w: SvgWriter,
    shapes: Seq<ir::ShapeView>,
    with_fill: bool,
    fill: Option<Seq<char>>,
    text: number::Formatted,
    rest: Seq<char>,
)
    requires
        number::sound(text),
        with_fill || forall|i: int|
            0 <= i < shapes.len() ==> fill == Some(svg::fill_text(#[trigger] shapes[i])),
    ensures
        read_elements(svg::path_elements(w, shapes, with_fill, text) + rest, fill) == before(
            painted(w, shapes, text),
            read_elements(rest, fill),
        ),
    decreases shapes.len(),
{
    let s = svg::path_elements(w, shapes, with_fill, text) + rest;
    if shapes.len() == 0 {
        assert(s =~= rest);
        if let Some(more) = read_elements(rest, fill) {
            assert(painted(w, shapes, text) + more =~= more);
        }
    } else {
        let lower = shapes.drop_last();
        let top = shapes[shapes.len() - 1];
        let next = svg::path_element(w, top, with_fill, text) + rest;
        if !with_fill {
            assert(fill == Some(svg::fill_text(top)));
            assert forall|i: int| 0 <= i < lower.len() implies fill == Some(
                svg::fill_text(#[trigger] lower[i]),
            ) by {
                assert(lower[i] == shapes[i]);
            }
        }
        lemma_elements_read(w, lower, with_fill, fill, text, next);
        lemma_element_reads(w, top, with_fill, fill, text, rest);
        lemma_regroup_three(
            svg::path_elements(w, lower, with_fill, text),
            svg::path_element(w, top, with_fill, text),
            rest,
        );
        assert(shapes =~= lower + seq![top]);
        lemma_painted_add(w, lower, seq![top], text);
        lemma_before_add(
            painted(w, lower, text),
            painted(w, seq![top], text),
            read_elements(rest, fill),
        );
    }
}

/// A run of one fill, read.
proof fn lemma_run_reads(
    w: SvgWriter,
    run: Seq<ir::ShapeView>,
    text: number::Formatted,
    rest: Seq<char>,
)
    requires
        number::sound(text),
        svg::one_fill(run),
    ensures
        read_elements(svg::run_text(w, run, text) + rest, None) == before(
            painted(w, run, text),
            read_elements(rest, None),
        ),
{
    reveal_with_fuel(read_elements, 1);
    if run.len() > 1 {
        let fill = svg::fill_text(run[0]);
        let tail = "</g>\n"@ + rest;
        let inner = svg::path_elements(w, run, false, text) + tail;
        let s = svg::run_text(w, run, text) + rest;
        lemma_fill_unquoted(run[0]);
        law_group_opening_reads(fill, inner);
        assert(s =~= "<g fill=\""@ + fill + "\">\n"@ + inner);
        assert forall|i: int| 0 <= i < run.len() implies Some(fill) == Some(
            svg::fill_text(#[trigger] run[i]),
        ) by {}
        lemma_elements_read(w, run, false, Some(fill), text, tail);
        law_group_closing_reads(fill, rest);
        assert(read_elements(tail, Some(fill)) == read_elements(rest, None));
    } else {
        lemma_elements_read(w, run, true, None, text, rest);
    }
}

/// Runs seen from the first.
proof fn lemma_runs_front(
    w: SvgWriter,
    all: Seq<Seq<ir::ShapeView>>,
    text: number::Formatted,
    rest: Seq<char>,
)
    requires
        all.len() > 0,
    ensures
        svg::runs_text(w, all, text) + rest == svg::run_text(w, all[0], text) + (svg::runs_text(
            w,
            all.drop_first(),
            text,
        ) + rest),
        all.flatten() == all[0] + all.drop_first().flatten(),
{
    let others = all.drop_first();
    assert(all.skip(1) =~= others);
    let (a, b) = (svg::run_text(w, all[0], text), svg::runs_text(w, others, text));
    assert(svg::runs_text(w, all, text) == a + b);
    assert(a + b + rest =~= a + (b + rest));
}

/// A run and then others, read.
proof fn lemma_run_then(
    w: SvgWriter,
    run: Seq<ir::ShapeView>,
    others: Seq<ir::ShapeView>,
    text: number::Formatted,
    next: Seq<char>,
    rest: Seq<char>,
)
    requires
        number::sound(text),
        svg::one_fill(run),
        read_elements(next, None) == before(
            painted(w, others, text),
            read_elements(rest, None),
        ),
    ensures
        read_elements(svg::run_text(w, run, text) + next, None) == before(
            painted(w, run + others, text),
            read_elements(rest, None),
        ),
{
    lemma_run_reads(w, run, text, next);
    lemma_painted_add(w, run, others, text);
    lemma_before_add(
        painted(w, run, text),
        painted(w, others, text),
        read_elements(rest, None),
    );
}

/// Runs, read one after the other.
proof fn lemma_runs_read(
    w: SvgWriter,
    all: Seq<Seq<ir::ShapeView>>,
    text: number::Formatted,
    rest: Seq<char>,
)
    requires
        number::sound(text),
        forall|i: int| 0 <= i < all.len() ==> svg::one_fill(#[trigger] all[i]),
    ensures
        read_elements(svg::runs_text(w, all, text) + rest, None) == before(
            painted(w, all.flatten(), text),
            read_elements(rest, None),
        ),
    decreases all.len(),
{
    if all.len() == 0 {
        assert(svg::runs_text(w, all, text) + rest =~= rest);
        assert(all.flatten() =~= seq![]);
        assert(painted(w, all.flatten(), text) =~= seq![]);
        lemma_before_nothing(read_elements(rest, None));
    } else {
        let others = all.drop_first();
        assert forall|i: int| 0 <= i < others.len() implies svg::one_fill(#[trigger] others[i]) by {
            assert(others[i] == all[i + 1]);
        }
        let next = svg::runs_text(w, others, text) + rest;
        lemma_runs_front(w, all, text, rest);
        lemma_runs_read(w, others, text, rest);
        lemma_run_then(w, all[0], others.flatten(), text, next, rest);
    }
}

proof fn lemma_before_nothing(more: Option<Seq<Painted>>)
    ensures
        before(seq![], more) == more,
{
    if let Some(m) = more {
        assert(Seq::<Painted>::empty() + m =~= m);
    }
}

/// A number up to a quotation mark, read.
proof fn lemma_count_reads(n: nat, mark: Seq<char>, rest: Seq<char>)
    requires
        mark.len() > 0,
        mark[0] == '"',
    ensures
        read_count(number::decimal(n) + mark + rest, mark) == Some((n, rest)),
{
    let digits = number::decimal(n);
    let s = digits + mark + rest;
    let tail = mark + rest;
    reading::lemma_decimal_reads(n);
    assert(s =~= digits + tail);
    reading::lemma_digit_run(digits, tail);
    assert(s.take(digits.len() as int) =~= digits);
    assert(s.skip(digits.len() as int) =~= tail);
    lemma_after(mark, rest);
}

proof fn lemma_regroup(
    a: Seq<char>,
    b: Seq<char>,
    c: Seq<char>,
    d: Seq<char>,
    e: Seq<char>,
    f: Seq<char>,
    g: Seq<char>,
)
    ensures
        a + b + c + d + e + f + g == a + (b + c + (d + e + (f + g))),
{
    assert(a + b + c + d + e + f + g =~= a + (b + c + (d + e + (f + g))));
}

/// The body of a document, read.
proof fn lemma_body_reads(w: SvgWriter, shapes: Seq<ir::ShapeView>, text: number::Formatted)
    requires
        number::sound(text),
    ensures
        read_elements(svg::body_text(w, shapes, text) + "</svg>\n"@, None) == Some(
            painted(w, shapes, text),
        ),
{
    let end = "</svg>\n"@;
    if w.shorthands {
        svg::law_runs_keep_order(shapes);
        lemma_runs_read(w, svg::runs(shapes), text, end);
    } else {
        lemma_elements_read(w, shapes, true, None, text, end);
    }
    law_document_end_reads();
    let all = painted(w, shapes, text);
    assert(all + Seq::<Painted>::empty() =~= all);
}

/// A document reads back: a reader finds its size and, in paint order, the path
/// data and the fill of each shape that draws anything; grouping loses, adds,
/// moves and recolors nothing.
pub proof fn law_document_reads_back(w: SvgWriter, doc: ir::DocView, text: number::Formatted)
    requires
        number::sound(text),
    ensures
        read_document(svg::document_text(w, doc, text)) == Some(
            (Document {
                width: doc.width as nat,
                height: doc.height as nat,
                painted: painted(w, doc.shapes, text),
            }),
        ),
{
    let head = "<?xml version=\"1.0\" encoding=\"UTF-8\"?>\n"@
        + "<!-- Generator: visioncortex VTracer "@ + svg::VERSION@ + " -->\n"@
        + "<svg version=\"1.1\" xmlns=\"http://www.w3.org/2000/svg\" width=\""@;
    let (mid, close, end) = ("\" height=\""@, "\">\n"@, "</svg>\n"@);
    let (width, height) = (doc.width as nat, doc.height as nat);
    let body = svg::body_text(w, doc.shapes, text) + end;
    let tall = number::decimal(height) + close + body;
    let wide = number::decimal(width) + mid + tall;
    reveal_strlit("\" height=\"");
    reveal_strlit("\">\n");
    lemma_regroup(
        head,
        number::decimal(width),
        mid,
        number::decimal(height),
        close,
        svg::body_text(w, doc.shapes, text),
        end,
    );
    assert(svg::document_text(w, doc, text) == head + wide);
    lemma_after(head, wide);
    lemma_count_reads(width, mid, tall);
    lemma_count_reads(height, close, body);
    lemma_body_reads(w, doc.shapes, text);
}

} // verus!
