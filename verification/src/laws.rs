//! What holds of path data whatever the path: the text of a command is the
//! shortest that the options allow, more options never lengthen it, and each
//! option brings only its own letters.
use vstd::prelude::*;
use vstd::seq_lib::*;
use vstd::utf8::*;

use crate::ir;
use crate::ir::PathCmd;
use crate::number;
use crate::path;
use crate::path::{Coordinate, Pen};
use crate::scalar;
use crate::scalar::Value;
use crate::svg;
use crate::svg::SvgWriter;

verus! {

/// Whether `cands[i]` is the shortest of `cands`, and the first that is so short.
pub open spec fn first_shortest(cands: Seq<Seq<char>>, i: int) -> bool {
    &&& 0 <= i < cands.len()
    &&& forall|j: int|
        0 <= j < cands.len() ==> path::size(cands[i]) <= path::size(#[trigger] cands[j])
    &&& forall|j: int| 0 <= j < i ==> path::size(cands[i]) < path::size(#[trigger] cands[j])
}

/// The chosen text is the first of the shortest candidates.
pub proof fn law_chosen_is_first_shortest(cands: Seq<Seq<char>>)
    requires
        cands.len() > 0,
        forall|j: int| 0 <= j < cands.len() ==> (#[trigger] cands[j]).len() > 0,
    ensures
        exists|i: int| first_shortest(cands, i) && path::chosen(cands) == #[trigger] cands[i],
    decreases cands.len(),
{
    let before = cands.drop_last();
    let c = cands.last();
    if before.len() == 0 {
        assert(path::chosen(before) == Seq::<char>::empty());
        assert(first_shortest(cands, 0) && path::chosen(cands) == cands[0]);
    } else {
        assert forall|j: int| 0 <= j < before.len() implies (#[trigger] before[j]).len() > 0 by {
            assert(before[j] == cands[j]);
        }
        law_chosen_is_first_shortest(before);
        let i = choose|i: int|
            first_shortest(before, i) && path::chosen(before) == #[trigger] before[i];
        assert(before[i] == cands[i]);
        assert forall|j: int| 0 <= j < before.len() implies path::size(before[i]) <= path::size(
            #[trigger] cands[j],
        ) by {
            assert(before[j] == cands[j]);
        }
        assert forall|j: int| 0 <= j < i implies path::size(before[i]) < path::size(
            #[trigger] cands[j],
        ) by {
            assert(before[j] == cands[j]);
        }
        if path::size(c) < path::size(path::chosen(before)) {
            assert(first_shortest(cands, cands.len() - 1));
        } else {
            assert(first_shortest(cands, i));
        }
    }
}

/// Whether `w` may write a command with this letter.
pub open spec fn allowed_letter(w: SvgWriter, letter: char) -> bool {
    ||| letter == 'M' || letter == 'L' || letter == 'C' || letter == 'Z'
    ||| w.shorthands && (letter == 'H' || letter == 'V' || letter == 'S')
    ||| w.relative && (letter == 'm' || letter == 'l' || letter == 'c')
    ||| w.relative && w.shorthands && (letter == 'h' || letter == 'v' || letter == 's')
}

/// Whether `c` is a command with an allowed letter.
pub open spec fn allowed_token(w: SvgWriter, c: Seq<char>, text: number::Formatted) -> bool {
    exists|letter: char, values: Seq<Coordinate>|
        allowed_letter(w, letter) && c == #[trigger] path::token(letter, values, w.precision, text)
}

broadcast proof fn lemma_forms_allowed(
    w: SvgWriter,
    upper: char,
    absolute: Seq<Coordinate>,
    lower: char,
    relative: Seq<Coordinate>,
    text: number::Formatted,
    c: Seq<char>,
)
    requires
        #[trigger] path::forms(w, upper, absolute, lower, relative, text).contains(c),
        allowed_letter(w, upper),
        w.relative ==> allowed_letter(w, lower),
    ensures
        allowed_token(w, c, text),
{
    let all = path::forms(w, upper, absolute, lower, relative, text);
    let i = choose|i: int| 0 <= i < all.len() && all[i] == c;
    if i == 0 {
        assert(c == path::token(upper, absolute, w.precision, text));
    } else {
        assert(c == path::token(lower, relative, w.precision, text));
    }
}

/// Every candidate is a command with an allowed letter.
pub proof fn law_candidates_are_allowed(
    w: SvgWriter,
    pen: Pen,
    cmd: PathCmd,
    text: number::Formatted,
    c: Seq<char>,
)
    requires
        path::candidates(w, pen, cmd, text).contains(c),
    ensures
        allowed_token(w, c, text),
{
    broadcast use lemma_forms_allowed;
    broadcast use lemma_seq_concat_contains_all_elements;

    match cmd {
        PathCmd::Close => {
            let none = Seq::<Coordinate>::empty();
            assert(path::number_texts(none, w.precision, text) =~= seq![]);
            assert(c =~= path::token('Z', none, w.precision, text));
        },
        PathCmd::MoveTo(p) => {
            if !pen.started {
                assert(c == path::token('M', path::coordinates(seq![p]), w.precision, text));
            }
        },
        _ => {},
    }
}

/// The candidate `j` is not empty.
proof fn lemma_candidate_present(
    w: SvgWriter,
    pen: Pen,
    cmd: PathCmd,
    text: number::Formatted,
    j: int,
)
    requires
        0 <= j < path::candidates(w, pen, cmd, text).len(),
    ensures
        path::candidates(w, pen, cmd, text)[j].len() > 0,
{
    let c = path::candidates(w, pen, cmd, text)[j];
    assert(path::candidates(w, pen, cmd, text).contains(c));
    law_candidates_are_allowed(w, pen, cmd, text, c);
}

/// There is one form at least.
proof fn lemma_forms_some(
    w: SvgWriter,
    upper: char,
    absolute: Seq<Coordinate>,
    lower: char,
    relative: Seq<Coordinate>,
    text: number::Formatted,
)
    ensures
        path::forms(w, upper, absolute, lower, relative, text).len() > 0,
{
}

/// There is one candidate at least.
proof fn lemma_candidates_some(w: SvgWriter, pen: Pen, cmd: PathCmd, text: number::Formatted)
    ensures
        path::candidates(w, pen, cmd, text).len() > 0,
{
    let cur = pen.cur;
    match cmd {
        PathCmd::MoveTo(p) => {
            let (at, from) = (path::coordinates(seq![p]), path::offsets(seq![p], cur));
            lemma_forms_some(w, 'M', at, 'm', from, text);
        },
        PathCmd::LineTo(p) => {
            let (at, from) = (path::coordinates(seq![p]), path::offsets(seq![p], cur));
            lemma_forms_some(w, 'L', at, 'l', from, text);
        },
        PathCmd::CubicTo(c1, c2, e) => {
            let pts = seq![c1, c2, e];
            let (at, from) = (path::coordinates(pts), path::offsets(pts, cur));
            lemma_forms_some(w, 'C', at, 'c', from, text);
        },
        PathCmd::Close => {},
    }
}

/// The candidates of a command are not empty, and there is one at least.
pub proof fn lemma_candidates_present(
    w: SvgWriter,
    pen: Pen,
    cmd: PathCmd,
    text: number::Formatted,
) -> (cands: Seq<Seq<char>>)
    ensures
        cands == path::candidates(w, pen, cmd, text),
        cands.len() > 0,
        forall|j: int| 0 <= j < cands.len() ==> (#[trigger] cands[j]).len() > 0,
{
    let cands = path::candidates(w, pen, cmd, text);
    lemma_candidates_some(w, pen, cmd, text);
    assert forall|j: int| 0 <= j < cands.len() implies (#[trigger] cands[j]).len() > 0 by {
        lemma_candidate_present(w, pen, cmd, text, j);
    }
    cands
}

/// Whether `w` allows all that `v` allows, at the same precision.
pub open spec fn allows_as_much(w: SvgWriter, v: SvgWriter) -> bool {
    &&& w.precision == v.precision
    &&& v.relative ==> w.relative
    &&& v.shorthands ==> w.shorthands
}

/// Size adds up.
pub proof fn lemma_size_add(a: Seq<char>, b: Seq<char>)
    ensures
        path::size(a + b) == path::size(a) + path::size(b),
    decreases a.len(),
{
    if a.len() == 0 {
        assert(a + b =~= b);
    } else {
        lemma_size_add(a.drop_first(), b);
        assert((a + b).drop_first() =~= a.drop_first() + b);
    }
}

/// What one writer may choose from, one that allows as much may choose from too.
proof fn lemma_candidates_grow(
    w: SvgWriter,
    v: SvgWriter,
    pen: Pen,
    cmd: PathCmd,
    text: number::Formatted,
    c: Seq<char>,
)
    requires
        allows_as_much(w, v),
        path::candidates(v, pen, cmd, text).contains(c),
    ensures
        path::candidates(w, pen, cmd, text).contains(c),
{
    broadcast use lemma_forms_grow;
    broadcast use lemma_seq_concat_contains_all_elements;

}

broadcast proof fn lemma_forms_grow(
    w: SvgWriter,
    v: SvgWriter,
    upper: char,
    absolute: Seq<Coordinate>,
    lower: char,
    relative: Seq<Coordinate>,
    text: number::Formatted,
    c: Seq<char>,
)
    requires
        allows_as_much(w, v),
        #[trigger] path::forms(v, upper, absolute, lower, relative, text).contains(c),
    ensures
        #[trigger] path::forms(w, upper, absolute, lower, relative, text).contains(c),
{
    let few = path::forms(v, upper, absolute, lower, relative, text);
    let many = path::forms(w, upper, absolute, lower, relative, text);
    let i = choose|i: int| 0 <= i < few.len() && few[i] == c;
    assert(many[i] == c);
}

/// A command takes no more bytes where more is allowed.
pub proof fn law_options_shrink_command(
    w: SvgWriter,
    v: SvgWriter,
    pen: Pen,
    cmd: PathCmd,
    text: number::Formatted,
)
    requires
        allows_as_much(w, v),
    ensures
        path::size(path::command_text(w, pen, cmd, text)) <= path::size(
            path::command_text(v, pen, cmd, text),
        ),
{
    let few = lemma_candidates_present(v, pen, cmd, text);
    let many = lemma_candidates_present(w, pen, cmd, text);
    law_chosen_is_first_shortest(few);
    law_chosen_is_first_shortest(many);
    let i = choose|i: int| first_shortest(few, i) && path::chosen(few) == #[trigger] few[i];
    let j = choose|j: int| first_shortest(many, j) && path::chosen(many) == #[trigger] many[j];
    lemma_candidates_grow(w, v, pen, cmd, text, few[i]);
    let k = choose|k: int| 0 <= k < many.len() && many[k] == few[i];
    assert(path::size(many[j]) <= path::size(many[k]));
}

/// Path data takes no more bytes where more is allowed.
pub proof fn law_options_shrink(
    w: SvgWriter,
    v: SvgWriter,
    pen: Pen,
    cmds: Seq<PathCmd>,
    text: number::Formatted,
)
    requires
        allows_as_much(w, v),
    ensures
        path::size(path::commands_text(w, pen, cmds, text)) <= path::size(
            path::commands_text(v, pen, cmds, text),
        ),
    decreases cmds.len(),
{
    if cmds.len() > 0 {
        let before = cmds.drop_last();
        let here = path::pen_after(pen, before);
        law_options_shrink(w, v, pen, before, text);
        law_options_shrink_command(w, v, here, cmds.last(), text);
        lemma_size_add(
            path::commands_text(w, pen, before, text),
            path::command_text(w, here, cmds.last(), text),
        );
        lemma_size_add(
            path::commands_text(v, pen, before, text),
            path::command_text(v, here, cmds.last(), text),
        );
    }
}

/// The text of a command is one of its candidates.
pub proof fn law_command_is_a_candidate(
    w: SvgWriter,
    pen: Pen,
    cmd: PathCmd,
    text: number::Formatted,
)
    ensures
        path::candidates(w, pen, cmd, text).contains(path::command_text(w, pen, cmd, text)),
{
    let cands = lemma_candidates_present(w, pen, cmd, text);
    law_chosen_is_first_shortest(cands);
}

/// The first move is absolute.
pub proof fn law_first_move_is_absolute(
    w: SvgWriter,
    pen: Pen,
    p: crate::ir::Point,
    text: number::Formatted,
)
    requires
        !pen.started,
    ensures
        path::command_text(w, pen, PathCmd::MoveTo(p), text) == path::token(
            'M',
            path::coordinates(seq![p]),
            w.precision,
            text,
        ),
{
    law_command_is_a_candidate(w, pen, PathCmd::MoveTo(p), text);
}

/// Some of the characters.
pub type Charset = spec_fn(char) -> bool;

/// Whether all characters of `s` are among `ok`.
pub open spec fn made_of(s: Seq<char>, ok: Charset) -> bool {
    forall|i: int| 0 <= i < s.len() ==> ok(#[trigger] s[i])
}

/// Whether numbers and their separators are among `ok`.
pub open spec fn holds_numbers(ok: Charset) -> bool {
    &&& ok('-')
    &&& ok('.')
    &&& ok(',')
    &&& forall|c: char| number::is_digit(c) ==> #[trigger] ok(c)
}

/// Whether the float formatter writes only characters among `ok`.
pub open spec fn writes_only(text: number::Formatted, ok: Charset) -> bool {
    forall|x: Value, p: Option<u32>|
        number::asked(x, p) && #[trigger] text(x, p) is Some ==> made_of(text(x, p)->0, ok)
}

/// Whether the words that the float formatter writes of what is no finite number
/// have only characters among `ok`.
pub open spec fn words_only(text: number::Formatted, ok: Charset) -> bool {
    forall|x: Value, p: Option<u32>|
        !(x is Finite) && #[trigger] text(x, p) is Some ==> made_of(text(x, p)->0, ok)
}

/// Besides words, a float formatter writes only what numbers are made of.
pub proof fn lemma_sound_writes_only(text: number::Formatted, ok: Charset)
    requires
        number::sound(text),
        holds_numbers(ok),
        words_only(text, ok),
    ensures
        writes_only(text, ok),
{
    assert forall|x: Value, p: Option<u32>|
        number::asked(x, p) && #[trigger] text(x, p) is Some implies made_of(
        text(x, p)->0,
        ok,
    ) by {
        assert(number::acceptable(x, p, text(x, p)));
        let raw = text(x, p)->0;
        if x is Finite {
            let (negative, left, right) = choose|negative: bool, left: Seq<char>, right: Seq<char>|
                number::proper_digits(left, right) && raw == #[trigger] number::decimal_form(
                    negative,
                    left,
                    right,
                );
            lemma_form_made_of(negative, left, right, ok);
        }
    }
}

proof fn lemma_form_made_of(negative: bool, left: Seq<char>, right: Seq<char>, ok: Charset)
    requires
        holds_numbers(ok),
        number::all_digits(left),
        number::all_digits(right),
    ensures
        made_of(number::decimal_form(negative, left, right), ok),
{
    let s = number::decimal_form(negative, left, right);
    let k: int = if negative {
        1
    } else {
        0
    };
    assert forall|i: int| 0 <= i < s.len() implies ok(#[trigger] s[i]) by {
        if k <= i < k + left.len() {
            assert(number::is_digit(left[i - k]));
        } else if i > k + left.len() {
            assert(number::is_digit(right[i - k - left.len() - 1]));
        }
    }
}

proof fn lemma_decimal_made_of(n: nat, ok: Charset)
    requires
        holds_numbers(ok),
    ensures
        made_of(number::decimal(n), ok),
    decreases n,
{
    let last = number::digit(n % 10);
    assert(number::is_digit(last));
    if n >= 10 {
        lemma_decimal_made_of(n / 10, ok);
    }
}

proof fn lemma_padded_made_of(n: nat, k: nat, ok: Charset)
    requires
        holds_numbers(ok),
    ensures
        made_of(number::padded(n, k), ok),
    decreases k,
{
    if k > 0 {
        let last = number::digit(n % 10);
        assert(number::is_digit(last));
        lemma_padded_made_of(n / 10, (k - 1) as nat, ok);
    }
}

proof fn lemma_trimmed_made_of(s: Seq<char>, c: char, ok: Charset)
    requires
        made_of(s, ok),
    ensures
        made_of(number::trimmed(s, c), ok),
    decreases s.len(),
{
    if s.len() > 0 && s.last() == c {
        lemma_trimmed_made_of(s.drop_last(), c, ok);
    }
}

proof fn lemma_parts_made_of(n: int, p: nat, ok: Charset)
    requires
        holds_numbers(ok),
    ensures
        made_of(number::parts_text(n, p), ok),
{
    let zero = '0';
    assert(number::is_digit(zero) && ok(zero));
    let a = scalar::distance(n);
    let scale = crate::rounding::power_of_ten(p);
    lemma_decimal_made_of(a / scale, ok);
    lemma_padded_made_of(a % scale, p, ok);
    lemma_trimmed_made_of(number::padded(a % scale, p), '0', ok);
}

proof fn lemma_number_made_of(
    x: Value,
    precision: Option<u32>,
    text: number::Formatted,
    ok: Charset,
)
    requires
        holds_numbers(ok),
        writes_only(text, ok),
    ensures
        made_of(number::number_text(x, precision, text), ok),
{
    match number::scaled(x, precision) {
        Some(n) => lemma_parts_made_of(n, precision->0 as nat, ok),
        None => {
            let zero = '0';
            assert(number::is_digit(zero) && ok(zero));
            if number::asked(x, precision) && text(x, precision) is Some {
                let raw = text(x, precision)->0;
                lemma_trimmed_made_of(raw, '0', ok);
                lemma_trimmed_made_of(number::trimmed(raw, '0'), '.', ok);
            }
        },
    }
}

proof fn lemma_coordinate_made_of(
    c: Coordinate,
    precision: Option<u32>,
    text: number::Formatted,
    ok: Charset,
)
    requires
        holds_numbers(ok),
        writes_only(text, ok),
    ensures
        made_of(path::coordinate_text(c, precision, text), ok),
{
    match c {
        Coordinate::At(a) => lemma_number_made_of(a, precision, text, ok),
        Coordinate::From(a, b) => {
            lemma_number_made_of(scalar::difference(a, b), precision, text, ok);
            if let (Some(n), Some(m)) = (
                number::scaled(a, precision),
                number::scaled(b, precision),
            ) {
                lemma_parts_made_of(n - m, precision->0 as nat, ok);
            }
        },
    }
}

proof fn lemma_joined_made_of(nums: Seq<Seq<char>>, ok: Charset)
    requires
        holds_numbers(ok),
        forall|i: int| 0 <= i < nums.len() ==> made_of(#[trigger] nums[i], ok),
    ensures
        made_of(path::joined(nums), ok),
    decreases nums.len(),
{
    if nums.len() > 0 {
        let before = nums.drop_last();
        assert forall|i: int| 0 <= i < before.len() implies made_of(#[trigger] before[i], ok) by {
            assert(before[i] == nums[i]);
        }
        lemma_joined_made_of(before, ok);
        assert(made_of(nums[nums.len() - 1], ok));
    }
}

/// Path data is made of numbers and of the letters that the options allow.
pub proof fn lemma_commands_made_of(
    w: SvgWriter,
    pen: Pen,
    cmds: Seq<PathCmd>,
    text: number::Formatted,
    ok: Charset,
)
    requires
        holds_numbers(ok),
        writes_only(text, ok),
        forall|letter: char| allowed_letter(w, letter) ==> #[trigger] ok(letter),
    ensures
        made_of(path::commands_text(w, pen, cmds, text), ok),
    decreases cmds.len(),
{
    if cmds.len() > 0 {
        let before = cmds.drop_last();
        let here = path::pen_after(pen, before);
        let c = path::command_text(w, here, cmds.last(), text);
        lemma_commands_made_of(w, pen, before, text, ok);
        law_command_is_a_candidate(w, here, cmds.last(), text);
        law_candidates_are_allowed(w, here, cmds.last(), text, c);
        let (letter, values) = choose|letter: char, values: Seq<Coordinate>|
            allowed_letter(w, letter) && c == #[trigger] path::token(
                letter,
                values,
                w.precision,
                text,
            );
        let nums = path::number_texts(values, w.precision, text);
        assert forall|i: int| 0 <= i < nums.len() implies made_of(#[trigger] nums[i], ok) by {
            lemma_coordinate_made_of(values[i], w.precision, text, ok);
        }
        lemma_joined_made_of(nums, ok);
        assert(ok(letter));
        assert(made_of(c, ok));
    }
}

/// Whether `l` is none of the letters of path commands.
pub open spec fn no_letter(l: char) -> bool {
    !(l == 'M' || l == 'm' || l == 'L' || l == 'l' || l == 'H' || l == 'h' || l == 'V' || l == 'v'
        || l == 'C' || l == 'c' || l == 'S' || l == 's' || l == 'Z' || l == 'z')
}

/// The characters that `w` may write: of the letters of path commands, those that
/// the options allow.
pub open spec fn allowed_characters(w: SvgWriter) -> Charset {
    |l: char| no_letter(l) || allowed_letter(w, l)
}

/// Path data has only the letters that the options allow: without `relative` none
/// of `m l h v c s`, without `shorthands` none of `H V S h v s`.
pub proof fn law_only_allowed_letters(
    w: SvgWriter,
    pen: Pen,
    cmds: Seq<PathCmd>,
    text: number::Formatted,
)
    requires
        number::sound(text),
        words_only(text, allowed_characters(w)),
    ensures
        made_of(path::commands_text(w, pen, cmds, text), allowed_characters(w)),
{
    lemma_sound_writes_only(text, allowed_characters(w));
    lemma_commands_made_of(w, pen, cmds, text, allowed_characters(w));
}

/// How many of `shapes` draw anything.
pub open spec fn drawn(shapes: Seq<ir::ShapeView>) -> nat
    decreases shapes.len(),
{
    if shapes.len() == 0 {
        0
    } else if shapes.last().path.flatten().len() == 0 {
        drawn(shapes.drop_last())
    } else {
        drawn(shapes.drop_last()) + 1
    }
}

/// Whether in each run of several shapes of one fill two at least draw anything.
pub open spec fn worth_grouping(shapes: Seq<ir::ShapeView>) -> bool {
    forall|i: int|
        0 <= i < svg::runs(shapes).len() && svg::runs(shapes)[i].len() > 1 ==> drawn(
            #[trigger] svg::runs(shapes)[i],
        ) >= 2
}

/// Commands have a text, and only they have.
pub proof fn lemma_commands_present(
    w: SvgWriter,
    pen: Pen,
    cmds: Seq<PathCmd>,
    text: number::Formatted,
)
    ensures
        (path::commands_text(w, pen, cmds, text).len() == 0) == (cmds.len() == 0),
{
    if cmds.len() > 0 {
        let here = path::pen_after(pen, cmds.drop_last());
        let c = path::command_text(w, here, cmds.last(), text);
        law_command_is_a_candidate(w, here, cmds.last(), text);
        law_candidates_are_allowed(w, here, cmds.last(), text, c);
    }
}

/// The bytes that the fill takes in an element, and those of a group around its
/// elements.
proof fn lemma_fixed_sizes(shape: ir::ShapeView)
    ensures
        path::size("\" fill=\""@) == 8,
        path::size("<g fill=\""@) == 9,
        path::size("\">\n"@) == 3,
        path::size("</g>\n"@) == 5,
        path::size(svg::fill_text(shape)) == 7,
{
    reveal_strlit("\" fill=\"");
    reveal_strlit("<g fill=\"");
    reveal_strlit("\">\n");
    reveal_strlit("</g>\n");
    is_ascii_chars_encode_utf8("\" fill=\""@);
    is_ascii_chars_encode_utf8("<g fill=\""@);
    is_ascii_chars_encode_utf8("\">\n"@);
    is_ascii_chars_encode_utf8("</g>\n"@);
    is_ascii_chars_encode_utf8(svg::fill_text(shape));
}

/// The element of a shape takes no more bytes where more is allowed, and without
/// its fill fifteen less.
proof fn lemma_element_size(
    w: SvgWriter,
    v: SvgWriter,
    shape: ir::ShapeView,
    text: number::Formatted,
)
    requires
        allows_as_much(w, v),
    ensures
        path::size(svg::path_element(w, shape, true, text)) <= path::size(
            svg::path_element(v, shape, true, text),
        ),
        path::size(svg::path_element(w, shape, true, text)) == path::size(
            svg::path_element(w, shape, false, text),
        ) + (if shape.path.flatten().len() == 0 {
            0int
        } else {
            15
        }),
{
    let pen = path::initial_pen();
    let cmds = shape.path.flatten();
    let (d, e) = (svg::path_data(w, shape, text), svg::path_data(v, shape, text));
    lemma_commands_present(w, pen, cmds, text);
    lemma_commands_present(v, pen, cmds, text);
    law_options_shrink(w, v, pen, cmds, text);
    lemma_fixed_sizes(shape);
    if cmds.len() > 0 {
        let (open, mid, close) = ("<path d=\""@, "\" fill=\""@, "\"/>\n"@);
        let fill = svg::fill_text(shape);
        lemma_size_add(open, d);
        lemma_size_add(open + d, mid);
        lemma_size_add(open + d + mid, fill);
        lemma_size_add(open + d + mid + fill, close);
        lemma_size_add(open + d, close);
        lemma_size_add(open, e);
        lemma_size_add(open + e, mid);
        lemma_size_add(open + e + mid, fill);
        lemma_size_add(open + e + mid + fill, close);
    }
}

/// As [`lemma_element_size`], for the elements of several shapes.
proof fn lemma_elements_size(
    w: SvgWriter,
    v: SvgWriter,
    shapes: Seq<ir::ShapeView>,
    text: number::Formatted,
)
    requires
        allows_as_much(w, v),
    ensures
        path::size(svg::path_elements(w, shapes, true, text)) <= path::size(
            svg::path_elements(v, shapes, true, text),
        ),
        path::size(svg::path_elements(w, shapes, true, text)) == path::size(
            svg::path_elements(w, shapes, false, text),
        ) + 15 * drawn(shapes),
    decreases shapes.len(),
{
    if shapes.len() == 0 {
        is_ascii_chars_encode_utf8(seq![]);
    } else {
        let before = shapes.drop_last();
        lemma_elements_size(w, v, before, text);
        lemma_element_size(w, v, shapes.last(), text);
        lemma_size_add(
            svg::path_elements(w, before, true, text),
            svg::path_element(w, shapes.last(), true, text),
        );
        lemma_size_add(
            svg::path_elements(w, before, false, text),
            svg::path_element(w, shapes.last(), false, text),
        );
        lemma_size_add(
            svg::path_elements(v, before, true, text),
            svg::path_element(v, shapes.last(), true, text),
        );
    }
}

/// The elements of two lists of shapes make those of one.
proof fn lemma_elements_add(
    w: SvgWriter,
    a: Seq<ir::ShapeView>,
    b: Seq<ir::ShapeView>,
    text: number::Formatted,
)
    ensures
        svg::path_elements(w, a + b, true, text) == svg::path_elements(w, a, true, text)
            + svg::path_elements(w, b, true, text),
    decreases b.len(),
{
    let x = svg::path_elements(w, a, true, text);
    if b.len() == 0 {
        assert(a + b =~= a);
        assert(x + seq![] =~= x);
    } else {
        let y = svg::path_elements(w, b.drop_last(), true, text);
        let z = svg::path_element(w, b.last(), true, text);
        assert((a + b).drop_last() =~= a + b.drop_last());
        lemma_elements_add(w, a, b.drop_last(), text);
        assert((x + y) + z =~= x + (y + z));
    }
}

/// A group of shapes of which two draw takes no more bytes than the shapes alone.
proof fn lemma_run_size(
    w: SvgWriter,
    v: SvgWriter,
    run: Seq<ir::ShapeView>,
    text: number::Formatted,
)
    requires
        allows_as_much(w, v),
        run.len() > 1 ==> drawn(run) >= 2,
    ensures
        path::size(svg::run_text(w, run, text)) <= path::size(
            svg::path_elements(v, run, true, text),
        ),
{
    lemma_elements_size(w, v, run, text);
    if run.len() > 1 {
        let (open, mid, close) = ("<g fill=\""@, "\">\n"@, "</g>\n"@);
        let fill = svg::fill_text(run[0]);
        let inner = svg::path_elements(w, run, false, text);
        lemma_fixed_sizes(run[0]);
        lemma_size_add(open, fill);
        lemma_size_add(open + fill, mid);
        lemma_size_add(open + fill + mid, inner);
        lemma_size_add(open + fill + mid + inner, close);
    }
}

/// Grouped shapes against shapes one by one.
proof fn lemma_grouping_shrinks(
    w: SvgWriter,
    v: SvgWriter,
    all: Seq<Seq<ir::ShapeView>>,
    text: number::Formatted,
)
    requires
        allows_as_much(w, v),
        forall|i: int| 0 <= i < all.len() && all[i].len() > 1 ==> drawn(#[trigger] all[i]) >= 2,
    ensures
        path::size(svg::runs_text(w, all, text)) <= path::size(
            svg::path_elements(v, all.flatten(), true, text),
        ),
    decreases all.len(),
{
    if all.len() == 0 {
        is_ascii_chars_encode_utf8(seq![]);
    } else {
        let more = all.drop_first();
        assert(all.skip(1) =~= more);
        assert forall|i: int| 0 <= i < more.len() && more[i].len() > 1 implies drawn(
            #[trigger] more[i],
        ) >= 2 by {
            assert(more[i] == all[i + 1]);
        }
        lemma_run_size(w, v, all[0], text);
        lemma_grouping_shrinks(w, v, more, text);
        lemma_size_add(svg::run_text(w, all[0], text), svg::runs_text(w, more, text));
        lemma_elements_add(v, all[0], more.flatten(), text);
        lemma_size_add(
            svg::path_elements(v, all[0], true, text),
            svg::path_elements(v, more.flatten(), true, text),
        );
        assert(all.flatten() == all[0] + more.flatten());
    }
}

/// Runs written by a writer that allows more.
proof fn lemma_runs_shrink(
    w: SvgWriter,
    v: SvgWriter,
    all: Seq<Seq<ir::ShapeView>>,
    text: number::Formatted,
)
    requires
        allows_as_much(w, v),
    ensures
        path::size(svg::runs_text(w, all, text)) <= path::size(svg::runs_text(v, all, text)),
    decreases all.len(),
{
    if all.len() > 0 {
        let run = all[0];
        let more = all.skip(1);
        lemma_runs_shrink(w, v, more, text);
        lemma_elements_size(w, v, run, text);
        lemma_elements_size(v, v, run, text);
        lemma_size_add(svg::run_text(w, run, text), svg::runs_text(w, more, text));
        lemma_size_add(svg::run_text(v, run, text), svg::runs_text(v, more, text));
        if run.len() > 1 {
            let (open, mid, close) = ("<g fill=\""@, "\">\n"@, "</g>\n"@);
            let fill = svg::fill_text(run[0]);
            let head = open + fill + mid;
            let a = svg::path_elements(w, run, false, text);
            let b = svg::path_elements(v, run, false, text);
            lemma_size_add(head, a);
            lemma_size_add(head + a, close);
            lemma_size_add(head, b);
            lemma_size_add(head + b, close);
        }
    }
}

/// A document takes no more bytes where more is allowed. Where grouping is what is
/// allowed besides, each run of several shapes holds two at least that draw: a
/// group costs more than the one fill that it would spare.
pub proof fn law_options_shrink_document(
    w: SvgWriter,
    v: SvgWriter,
    doc: ir::DocView,
    text: number::Formatted,
)
    requires
        allows_as_much(w, v),
        w.shorthands && !v.shorthands ==> worth_grouping(doc.shapes),
    ensures
        path::size(svg::document_text(w, doc, text)) <= path::size(
            svg::document_text(v, doc, text),
        ),
{
    let (a, b) = (svg::body_text(w, doc.shapes, text), svg::body_text(v, doc.shapes, text));
    if !w.shorthands {
        lemma_elements_size(w, v, doc.shapes, text);
    } else if v.shorthands {
        lemma_runs_shrink(w, v, svg::runs(doc.shapes), text);
    } else {
        svg::law_runs_keep_order(doc.shapes);
        lemma_grouping_shrinks(w, v, svg::runs(doc.shapes), text);
    }
    let head = "<?xml version=\"1.0\" encoding=\"UTF-8\"?>\n"@
        + "<!-- Generator: visioncortex VTracer "@ + svg::VERSION@ + " -->\n"@
        + "<svg version=\"1.1\" xmlns=\"http://www.w3.org/2000/svg\" width=\""@
        + number::decimal(doc.width as nat) + "\" height=\""@ + number::decimal(doc.height as nat)
        + "\">\n"@;
    let close = "</svg>\n"@;
    lemma_size_add(head, a);
    lemma_size_add(head + a, close);
    lemma_size_add(head, b);
    lemma_size_add(head + b, close);
}

} // verus!
