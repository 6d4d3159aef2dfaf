//! Compact decimal text of numbers, as path data holds it: rounded to a number of
//! decimals, without trailing zeros and without the zero before a leading dot.
use vstd::prelude::*;

use crate::rounding;
use crate::scalar;
use crate::scalar::{Scalar, Value};

verus! {

/// `String::push` appends one character.
pub assume_specification[ String::push ](s: &mut String, c: char)
    ensures
        final(s)@ == old(s)@.push(c),
;

/// The character of a decimal digit.
pub open spec fn digit(d: nat) -> char {
    (48 + d) as char
}

/// The decimal digits of `n`, without leading zeros.
pub open spec fn decimal(n: nat) -> Seq<char>
    decreases n,
{
    if n < 10 {
        seq![digit(n)]
    } else {
        decimal(n / 10).push(digit(n % 10))
    }
}

/// The last `k` decimal digits of `n`, with leading zeros.
pub open spec fn padded(n: nat, k: nat) -> Seq<char>
    decreases k,
{
    if k == 0 {
        seq![]
    } else {
        padded(n / 10, (k - 1) as nat).push(digit(n % 10))
    }
}

/// `s` without the run of `c` at its end.
pub open spec fn trimmed(s: Seq<char>, c: char) -> Seq<char>
    decreases s.len(),
{
    if s.len() > 0 && s.last() == c {
        trimmed(s.drop_last(), c)
    } else {
        s
    }
}

/// The text of `n / 10^p`, for `n` other than zero: a sign, the whole part where
/// it is not zero, and the decimals up to the last that is not zero.
pub open spec fn fixed_text(n: int, p: nat) -> Seq<char> {
    let a = scalar::distance(n);
    let whole = a / rounding::power_of_ten(p);
    let rest = a % rounding::power_of_ten(p);
    let sign = if n < 0 {
        seq!['-']
    } else {
        Seq::<char>::empty()
    };
    let left = if whole != 0 {
        decimal(whole)
    } else {
        Seq::<char>::empty()
    };
    let right = if rest != 0 {
        seq!['.'] + trimmed(padded(rest, p), '0')
    } else {
        Seq::<char>::empty()
    };
    sign + left + right
}

fn digit_of(d: u64) -> (c: char)
    requires
        d < 10,
    ensures
        c == digit(d as nat),
{
    (48u8 + d as u8) as char
}

/// Append the decimal digits of `n`.
pub fn push_decimal(buf: &mut String, n: u64)
    ensures
        final(buf)@ == old(buf)@ + decimal(n as nat),
    decreases n,
{
    if n >= 10 {
        push_decimal(buf, n / 10);
    }
    buf.push(digit_of(n % 10));
    assert(buf@ =~= old(buf)@ + decimal(n as nat));
}

fn push_padded(buf: &mut String, n: u64, k: u32)
    ensures
        final(buf)@ == old(buf)@ + padded(n as nat, k as nat),
    decreases k,
{
    if k > 0 {
        push_padded(buf, n / 10, k - 1);
        buf.push(digit_of(n % 10));
    }
    assert(buf@ =~= old(buf)@ + padded(n as nat, k as nat));
}

/// Append the `k` decimals that `n` gives, up to the last that is not zero.
fn push_decimals(buf: &mut String, n: u64, k: u32)
    requires
        0 < n < rounding::power_of_ten(k as nat),
    ensures
        final(buf)@ == old(buf)@ + trimmed(padded(n as nat, k as nat), '0'),
    decreases k,
{
    let ghost all = padded(n as nat, k as nat);
    assert(all.drop_last() =~= padded(n as nat / 10, (k - 1) as nat));
    if n % 10 == 0 {
        push_decimals(buf, n / 10, k - 1);
    } else {
        push_padded(buf, n, k);
    }
}

/// Append the text of `n / 10^p`, for `n` other than zero (of zero nothing is
/// appended).
pub fn push_num_fixed(buf: &mut String, n: i64, p: u32)
    requires
        p <= 19,
    ensures
        final(buf)@ == old(buf)@ + fixed_text(n as int, p as nat),
{
    let a: u64 = if n < 0 {
        buf.push('-');
        (-(n + 1)) as u64 + 1
    } else {
        n as u64
    };
    let scale = scalar::ten_to(p);
    proof {
        rounding::lemma_power_of_ten_positive(p as nat);
    }
    let whole: u64 = a / scale;
    let rest: u64 = a % scale;
    if whole != 0 {
        push_decimal(buf, whole);
    }
    if rest != 0 {
        buf.push('.');
        push_decimals(buf, rest, p);
    }
    assert(buf@ =~= old(buf)@ + fixed_text(n as int, p as nat));
}

/// The text of a number that a float formatter wrote as `raw`: where there is a
/// dot, the zeros at the end go and then the dot at the end, and a zero before
/// the dot that leads goes too.
pub open spec fn compact_text(raw: Seq<char>) -> Seq<char> {
    let s = if raw.contains('.') {
        trimmed(trimmed(raw, '0'), '.')
    } else {
        raw
    };
    if seq!['0', '.'].is_prefix_of(s) {
        s.skip(1)
    } else if seq!['-', '0', '.'].is_prefix_of(s) {
        seq!['-'] + s.skip(2)
    } else {
        s
    }
}

/// The characters of `s`, one by one.
fn characters(s: &str) -> (r: Vec<char>)
    ensures
        r@ == s@,
{
    let mut r: Vec<char> = Vec::new();
    for c in it: s.chars()
        invariant
            r@ == it.seq().take(it.index() as int),
            it.seq() == s@,
    {
        r.push(c);
        assert(r@ =~= it.seq().take(it.index() + 1));
    }
    assert(s@.take(s@.len() as int) =~= s@);
    r
}

/// Remove the run of `c` at the end of `s`.
fn trim_end(s: &mut Vec<char>, c: char)
    ensures
        final(s)@ == trimmed(old(s)@, c),
{
    let ghost all = s@;
    while s.len() > 0 && s[s.len() - 1] == c
        invariant
            trimmed(s@, c) == trimmed(all, c),
        decreases s.len(),
    {
        s.pop();
    }
}

/// Append what `raw`, a float formatter's text, comes to.
pub fn push_float_text(buf: &mut String, raw: &str)
    ensures
        final(buf)@ == old(buf)@ + compact_text(raw@),
{
    let mut s = characters(raw);
    let mut dotted: bool = false;
    let mut i: usize = 0;
    while i < s.len()
        invariant
            i <= s.len(),
            dotted == exists|j: int| 0 <= j < i && s@[j] == '.',
        decreases s.len() - i,
    {
        if s[i] == '.' {
            dotted = true;
        }
        i = i + 1;
    }
    if dotted {
        trim_end(&mut s, '0');
        trim_end(&mut s, '.');
    }
    let mut from: usize = 0;
    if s.len() >= 2 && s[0] == '0' && s[1] == '.' {
        from = 1;
    } else if s.len() >= 3 && s[0] == '-' && s[1] == '0' && s[2] == '.' {
        buf.push('-');
        from = 2;
    }
    let ghost before = buf@;
    let mut k: usize = from;
    assert(buf@ =~= before + s@.subrange(from as int, k as int));
    while k < s.len()
        invariant
            from <= k <= s.len(),
            buf@ == before + s@.subrange(from as int, k as int),
        decreases s.len() - k,
    {
        buf.push(s[k]);
        k = k + 1;
        assert(buf@ =~= before + s@.subrange(from as int, k as int));
    }
    assert(buf@ =~= old(buf)@ + compact_text(raw@));
}

/// What a float formatter writes of a number at a precision: the number as it
/// stands where the precision is `None`, else rounded to so many decimals and
/// written with all of them; `None` where rounding leaves zero.
pub type Formatted = spec_fn(Value, Option<u32>) -> Option<Seq<char>>;

pub open spec fn written(t: Option<String>) -> Option<Seq<char>> {
    match t {
        Some(s) => Some(s@),
        None => None,
    }
}

pub open spec fn is_digit(c: char) -> bool {
    '0' <= c && c <= '9'
}

pub open spec fn all_digits(s: Seq<char>) -> bool {
    forall|i: int| 0 <= i < s.len() ==> is_digit(#[trigger] s[i])
}

/// A sign or none, digits, and where there are decimals a dot and these.
pub open spec fn decimal_form(negative: bool, left: Seq<char>, right: Seq<char>) -> Seq<char> {
    let sign = if negative {
        seq!['-']
    } else {
        Seq::<char>::empty()
    };
    let decimals = if right.len() > 0 {
        seq!['.'] + right
    } else {
        Seq::<char>::empty()
    };
    sign + left + decimals
}

/// Whether `left` and `right` are the digits of a number other than zero around a
/// dot, without a zero too many in front.
pub open spec fn proper_digits(left: Seq<char>, right: Seq<char>) -> bool {
    &&& all_digits(left)
    &&& all_digits(right)
    &&& left.len() > 0
    &&& left == seq!['0'] || left[0] != '0'
    &&& left != seq!['0'] || exists|i: int| 0 <= i < right.len() && #[trigger] right[i] != '0'
}

/// Whether `s` is a plain decimal of a number other than zero: no exponent, at most
/// one dot, with digits before and behind it, and no zero too many in front.
pub open spec fn is_decimal(s: Seq<char>) -> bool {
    exists|negative: bool, left: Seq<char>, right: Seq<char>|
        proper_digits(left, right) && s == #[trigger] decimal_form(negative, left, right)
}

/// Whether a float formatter may write `raw` of `x`: of a finite number a plain
/// decimal; else a word, without a dot and without a quotation mark.
pub open spec fn legible(x: Value, raw: Seq<char>) -> bool {
    if x is Finite {
        is_decimal(raw)
    } else {
        raw.len() > 0 && !raw.contains('.') && !raw.contains('"')
    }
}

/// Whether the formatter is asked for `x` at `p`: zero as it stands never goes to
/// it.
pub open spec fn asked(x: Value, p: Option<u32>) -> bool {
    !(p is None && x == Value::Finite(0))
}

/// Whether a formatter may write `t` of `x` at `p`: something legible, or nothing
/// where it rounds, as it does of zero.
pub open spec fn acceptable(x: Value, p: Option<u32>, t: Option<Seq<char>>) -> bool {
    match t {
        Some(raw) => x != Value::Finite(0) && legible(x, raw),
        None => p is Some,
    }
}

/// Whether all that a formatter is asked for is acceptable.
pub open spec fn sound(text: Formatted) -> bool {
    forall|x: Value, p: Option<u32>| asked(x, p) ==> acceptable(x, p, #[trigger] text(x, p))
}

/// Whether `format` can be called with every number and precision, always writes
/// the same of the same value, and writes something legible, or nothing where it
/// rounds. What it does with a zero as it stands does not matter.
pub open spec fn is_formatter<F: Fn(Scalar, Option<u32>) -> Option<String>>(format: F) -> bool {
    &&& forall|v: Scalar, p: Option<u32>| #[trigger] format.requires((v, p))
    &&& forall|v: Scalar, w: Scalar, p: Option<u32>, s: Option<String>, t: Option<String>|
        v.value() == w.value() && asked(v.value(), p) && #[trigger] format.ensures((v, p), s)
            && #[trigger] format.ensures((w, p), t) ==> written(s) == written(t)
    &&& forall|v: Scalar, p: Option<u32>, s: Option<String>|
        asked(v.value(), p) && #[trigger] format.ensures((v, p), s) ==> acceptable(
            v.value(),
            p,
            written(s),
        )
}

/// Whether `format` can give `t` of a number of the value `x`.
pub open spec fn writes<F: Fn(Scalar, Option<u32>) -> Option<String>>(
    format: F,
    x: Value,
    p: Option<u32>,
    t: Option<String>,
) -> bool {
    exists|v: Scalar| v.value() == x && #[trigger] format.ensures((v, p), t)
}

/// What `format` writes of a value. Of a value that it is never seen to write, a `1`
/// stands for the text, or nothing where the value is zero.
pub open spec fn formatted<F: Fn(Scalar, Option<u32>) -> Option<String>>(format: F) -> Formatted {
    |x: Value, p: Option<u32>|
        if exists|t: Option<String>| writes(format, x, p, t) {
            written(choose|t: Option<String>| writes(format, x, p, t))
        } else if x == Value::Finite(0) {
            None
        } else {
            Some(seq!['1'])
        }
}

/// What a formatter writes is sound.
pub proof fn law_formatter_is_sound<F: Fn(Scalar, Option<u32>) -> Option<String>>(format: F)
    requires
        is_formatter(format),
    ensures
        sound(formatted(format)),
{
    let text = formatted(format);
    assert forall|x: Value, p: Option<u32>| asked(x, p) implies acceptable(
        x,
        p,
        #[trigger] text(x, p),
    ) by {
        if exists|t: Option<String>| writes(format, x, p, t) {
            let t = choose|t: Option<String>| writes(format, x, p, t);
            let v = choose|v: Scalar| v.value() == x && #[trigger] format.ensures((v, p), t);
            assert(acceptable(v.value(), p, written(t)));
        } else if x != Value::Finite(0) {
            let digit = seq!['1'];
            assert(digit =~= decimal_form(false, digit, seq![]));
            assert(digit[0] == '1');
            assert(proper_digits(digit, seq![]));
        }
    }
}

/// The text of `x` where the float formatter writes it.
pub open spec fn float_text(x: Value, precision: Option<u32>, text: Formatted) -> Seq<char> {
    if precision is None && x == Value::Finite(0) {
        seq!['0']
    } else {
        match text(x, precision) {
            Some(raw) => compact_text(raw),
            None => seq!['0'],
        }
    }
}

/// The whole number whose digits stand for `x` at `precision`, where there is one:
/// up to fifteen decimals the one nearest to `x * 10^p`, as binary64 multiplies,
/// unless it is too far from zero.
pub open spec fn scaled(x: Value, precision: Option<u32>) -> Option<int> {
    match precision {
        Some(p) => if p <= 15 {
            scalar::whole_value(scalar::multiple(x, rounding::power_of_ten(p as nat)))
        } else {
            None
        },
        None => None,
    }
}

/// The text of `n` parts of `10^p`.
pub open spec fn parts_text(n: int, p: nat) -> Seq<char> {
    if n == 0 {
        seq!['0']
    } else {
        fixed_text(n, p)
    }
}

/// The text of `x`, rounded to `precision` decimals (`None`: as it stands).
pub open spec fn number_text(x: Value, precision: Option<u32>, text: Formatted) -> Seq<char> {
    match scaled(x, precision) {
        Some(n) => parts_text(n, precision->0 as nat),
        None => float_text(x, precision, text),
    }
}

/// The text of what leads from `b` to `a`: from what is written of `b` to what is
/// written of `a`, where both are written as whole numbers of parts, so that
/// rounding never adds up; else the difference as binary64 subtracts.
pub open spec fn delta_text(
    a: Value,
    b: Value,
    precision: Option<u32>,
    text: Formatted,
) -> Seq<char> {
    match (scaled(a, precision), scaled(b, precision)) {
        (Some(n), Some(m)) => parts_text(n - m, precision->0 as nat),
        _ => number_text(scalar::difference(a, b), precision, text),
    }
}

/// Append the text that the float formatter gives of `v`; there is always some.
pub fn push_num_float<F: Fn(Scalar, Option<u32>) -> Option<String>>(
    buf: &mut String,
    v: Scalar,
    precision: Option<u32>,
    format: &F,
)
    requires
        is_formatter(*format),
    ensures
        final(buf)@ == old(buf)@ + float_text(v.value(), precision, formatted(*format)),
        final(buf)@.len() > old(buf)@.len(),
{
    if precision.is_none() && v.same(Scalar::zero()) {
        buf.push('0');
        assert(buf@ =~= old(buf)@ + seq!['0']);
        return;
    }
    let text = format(v, precision);
    assert(writes(*format, v.value(), precision, text));
    match text {
        Some(raw) => {
            push_float_text(buf, raw.as_str());
            proof {
                lemma_compact_present(v.value(), raw@);
            }
        },
        None => {
            buf.push('0');
            assert(buf@ =~= old(buf)@ + seq!['0']);
        },
    }
}

/// The whole number whose digits stand for `v` at `precision`, where there is one.
pub fn scaled_parts(v: Scalar, precision: Option<u32>) -> (r: Option<i64>)
    ensures
        match r {
            Some(n) => {
                &&& scaled(v.value(), precision) == Some(n as int)
                &&& -scalar::WHOLE_LIMIT < n < scalar::WHOLE_LIMIT
                &&& precision is Some && precision->0 <= 15
            },
            None => scaled(v.value(), precision) is None,
        },
{
    match precision {
        Some(p) => if p <= 15 {
            v.times_ten_to(p).nearest_whole()
        } else {
            None
        },
        None => None,
    }
}

/// Append the text of `n / 10^p`.
fn push_parts(buf: &mut String, n: i64, p: u32)
    requires
        p <= 19,
    ensures
        final(buf)@ == old(buf)@ + parts_text(n as int, p as nat),
        final(buf)@.len() > old(buf)@.len(),
{
    if n == 0 {
        buf.push('0');
        assert(buf@ =~= old(buf)@ + seq!['0']);
    } else {
        push_num_fixed(buf, n, p);
        proof {
            law_fixed_text_is_spare(n as int, p as nat);
        }
    }
}

/// Append the compact text of `v`: rounded to `precision`, trailing zeros trimmed,
/// a leading dot for magnitudes below one. Something is always appended, and what
/// stood before is not touched.
pub fn push_num<F: Fn(Scalar, Option<u32>) -> Option<String>>(
    buf: &mut String,
    v: Scalar,
    precision: Option<u32>,
    format: &F,
)
    requires
        is_formatter(*format),
    ensures
        final(buf)@ == old(buf)@ + number_text(v.value(), precision, formatted(*format)),
        final(buf)@.len() > old(buf)@.len(),
{
    match (scaled_parts(v, precision), precision) {
        (Some(n), Some(p)) => push_parts(buf, n, p),
        _ => push_num_float(buf, v, precision, format),
    }
}

/// Append the compact text of what leads from `b` to `a`.
pub fn push_delta<F: Fn(Scalar, Option<u32>) -> Option<String>>(
    buf: &mut String,
    a: Scalar,
    b: Scalar,
    precision: Option<u32>,
    format: &F,
)
    requires
        is_formatter(*format),
    ensures
        final(buf)@ == old(buf)@ + delta_text(
            a.value(),
            b.value(),
            precision,
            formatted(*format),
        ),
        final(buf)@.len() > old(buf)@.len(),
{
    match (scaled_parts(a, precision), scaled_parts(b, precision), precision) {
        (Some(n), Some(m), Some(p)) => push_parts(buf, n - m, p),
        _ => push_num(buf, a.sub(b), precision, format),
    }
}

/// The compact text of `v`.
pub fn fmt_num<F: Fn(Scalar, Option<u32>) -> Option<String>>(
    v: Scalar,
    precision: Option<u32>,
    format: &F,
) -> (r: String)
    requires
        is_formatter(*format),
    ensures
        r@ == number_text(v.value(), precision, formatted(*format)),
{
    let mut buf = String::new();
    push_num(&mut buf, v, precision, format);
    assert(buf@ =~= number_text(v.value(), precision, formatted(*format)));
    buf
}

/// The text of `n / 10^p` with the whole part and all `p` decimals, as a float
/// formatter writes it at a fixed number of decimals.
pub open spec fn full_text(n: int, p: nat) -> Seq<char> {
    let a = scalar::distance(n);
    let scale = rounding::power_of_ten(p);
    let sign = if n < 0 {
        seq!['-']
    } else {
        Seq::<char>::empty()
    };
    let right = if p > 0 {
        seq!['.'] + padded(a % scale, p)
    } else {
        Seq::<char>::empty()
    };
    sign + decimal(a / scale) + right
}

/// Trimming stops at the last character that stays.
pub proof fn lemma_trimmed(s: Seq<char>, c: char)
    ensures
        trimmed(s, c).is_prefix_of(s),
        trimmed(s, c).len() > 0 ==> trimmed(s, c).last() != c,
        forall|i: int| trimmed(s, c).len() <= i < s.len() ==> #[trigger] s[i] == c,
    decreases s.len(),
{
    if s.len() > 0 && s.last() == c {
        lemma_trimmed(s.drop_last(), c);
        assert forall|i: int| trimmed(s, c).len() <= i < s.len() implies #[trigger] s[i] == c by {
            if i < s.len() - 1 {
                assert(s.drop_last()[i] == s[i]);
            }
        }
    }
}

/// What stands before a text that does not go whole is not touched by trimming it.
proof fn lemma_trimmed_after(a: Seq<char>, b: Seq<char>, c: char)
    requires
        trimmed(b, c).len() > 0,
    ensures
        trimmed(a + b, c) == a + trimmed(b, c),
    decreases b.len(),
{
    if b.last() == c {
        assert((a + b).drop_last() =~= a + b.drop_last());
        lemma_trimmed_after(a, b.drop_last(), c);
    }
}

/// Trimming a run and no more leaves what stands before it.
proof fn lemma_trimmed_run(a: Seq<char>, b: Seq<char>, c: char)
    requires
        a.len() == 0 || a.last() != c,
        forall|i: int| 0 <= i < b.len() ==> #[trigger] b[i] == c,
    ensures
        trimmed(a + b, c) == a,
    decreases b.len(),
{
    if b.len() == 0 {
        assert(a + b =~= a);
    } else {
        assert((a + b).last() == b[b.len() - 1]);
        assert((a + b).drop_last() =~= a + b.drop_last());
        assert forall|i: int| 0 <= i < b.drop_last().len() implies #[trigger] b.drop_last()[i]
            == c by {
            assert(b[i] == c);
        }
        lemma_trimmed_run(a, b.drop_last(), c);
    }
}

/// The digits of a number are digits; but for zero, the first is not `0`.
pub proof fn lemma_decimal_digits(n: nat)
    ensures
        decimal(n).len() > 0,
        forall|i: int| 0 <= i < decimal(n).len() ==> '0' <= #[trigger] decimal(n)[i] <= '9',
        n > 0 ==> decimal(n)[0] != '0',
        n == 0 ==> decimal(n) == seq!['0'],
    decreases n,
{
    if n >= 10 {
        lemma_decimal_digits(n / 10);
    }
}

/// The decimals of a number are digits; where it is not zero, trimming leaves some,
/// and where it is zero they are all `0`.
proof fn lemma_padded_digits(n: nat, k: nat)
    requires
        n < rounding::power_of_ten(k),
    ensures
        padded(n, k).len() == k,
        forall|i: int| 0 <= i < k ==> '0' <= #[trigger] padded(n, k)[i] <= '9',
        n > 0 ==> trimmed(padded(n, k), '0').len() > 0,
        n == 0 ==> forall|i: int| 0 <= i < k ==> #[trigger] padded(n, k)[i] == '0',
    decreases k,
{
    if k > 0 {
        lemma_padded_digits(n / 10, (k - 1) as nat);
        assert(padded(n, k).drop_last() =~= padded(n / 10, (k - 1) as nat));
    }
}

/// A number that is not zero and leaves no rest has a whole part.
proof fn lemma_whole_part(a: nat, scale: nat)
    by (nonlinear_arith)
    requires
        a > 0,
        scale > 0,
        a % scale == 0,
    ensures
        a / scale > 0,
{
    assert(a == scale * (a / scale) + a % scale);
}

/// Of what a float formatter may write, compacting leaves something.
proof fn lemma_compact_present(x: Value, raw: Seq<char>)
    requires
        legible(x, raw),
    ensures
        compact_text(raw).len() > 0,
{
    if x is Finite {
        let (negative, left, right) = choose|negative: bool, left: Seq<char>, right: Seq<char>|
            proper_digits(left, right) && raw == #[trigger] decimal_form(negative, left, right);
        lemma_compact_form(negative, left, right);
    } else if seq!['0', '.'].is_prefix_of(raw) {
        assert(raw[1] == '.');
    } else if seq!['-', '0', '.'].is_prefix_of(raw) {
        assert(raw[2] == '.');
    }
}

/// What is left of the digits before the dot, where `right` is left behind it.
pub open spec fn compact_left(left: Seq<char>, right: Seq<char>) -> Seq<char> {
    if left == seq!['0'] && right.len() > 0 {
        seq![]
    } else {
        left
    }
}

/// Compacting a plain decimal takes the zeros at its end, and the zero before a
/// leading dot.
pub proof fn lemma_compact_form(negative: bool, left: Seq<char>, right: Seq<char>)
    requires
        all_digits(left),
        all_digits(right),
        left.len() > 0,
    ensures
        ({
            let cut = trimmed(right, '0');
            &&& compact_text(decimal_form(negative, left, right)) == decimal_form(
                negative,
                compact_left(left, cut),
                cut,
            )
            &&& all_digits(cut)
            &&& compact_left(left, cut).len() + cut.len() > 0
        }),
{
    let raw = decimal_form(negative, left, right);
    let sign = if negative {
        seq!['-']
    } else {
        Seq::<char>::empty()
    };
    let head = sign + left;
    let dot = seq!['.'];
    let cut = trimmed(right, '0');
    lemma_trimmed(right, '0');
    assert(forall|i: int| 0 <= i < cut.len() ==> #[trigger] cut[i] == right[i]);
    assert(is_digit(head.last())) by {
        assert(head.last() == left[left.len() - 1]);
    }
    let s = decimal_form(negative, left, cut);
    if right.len() == 0 {
        assert(raw =~= head);
        assert(!raw.contains('.')) by {
            assert forall|i: int| 0 <= i < raw.len() implies raw[i] != '.' by {
                if i >= sign.len() {
                    assert(raw[i] == left[i - sign.len()]);
                }
            }
        }
        assert(s =~= raw);
    } else {
        assert(raw =~= head + dot + right);
        assert(raw[head.len() as int] == '.');
        if cut.len() == 0 {
            assert forall|i: int| 0 <= i < right.len() implies #[trigger] right[i] == '0' by {}
            lemma_trimmed_run(head + dot, right, '0');
            lemma_trimmed_run(head, dot, '.');
            assert(s =~= head);
        } else {
            lemma_trimmed_after(head + dot, right, '0');
            assert(s =~= head + dot + cut);
            assert(s.last() == cut.last());
            assert(is_digit(cut[cut.len() - 1]));
            assert(trimmed(s, '.') == s);
        }
        assert(trimmed(trimmed(raw, '0'), '.') == s);
    }
    lemma_leading_zero(negative, left, cut);
}

/// The zero that goes is a lone one before a dot.
proof fn lemma_leading_zero(negative: bool, left: Seq<char>, cut: Seq<char>)
    requires
        all_digits(left),
        left.len() > 0,
    ensures
        ({
            let s = decimal_form(negative, left, cut);
            let t = decimal_form(negative, compact_left(left, cut), cut);
            if seq!['0', '.'].is_prefix_of(s) {
                t == s.skip(1)
            } else if seq!['-', '0', '.'].is_prefix_of(s) {
                t == seq!['-'] + s.skip(2)
            } else {
                t == s
            }
        }),
{
    let s = decimal_form(negative, left, cut);
    let t = decimal_form(negative, compact_left(left, cut), cut);
    assert(is_digit(left[0]));
    let k: int = if negative {
        1
    } else {
        0
    };
    assert(s[k] == left[0]);
    if negative {
        assert(s[0] == '-');
    }
    if left == seq!['0'] && cut.len() > 0 {
        assert(s[k + 1] == '.');
        if negative {
            assert(s =~= seq!['-', '0', '.'] + cut);
            assert(seq!['-', '0', '.'].is_prefix_of(s));
            assert(t =~= seq!['-'] + s.skip(2));
        } else {
            assert(s =~= seq!['0', '.'] + cut);
            assert(seq!['0', '.'].is_prefix_of(s));
            assert(t =~= s.skip(1));
        }
    } else {
        assert(s[k] == '0' && s.len() > k + 1 ==> s[k + 1] != '.') by {
            if s[k] == '0' && s.len() > k + 1 {
                if left.len() == 1 {
                    assert(left =~= seq!['0']);
                } else {
                    assert(s[k + 1] == left[1]);
                    assert(is_digit(left[1]));
                }
            }
        }
        if seq!['0', '.'].is_prefix_of(s) {
            assert(s[0] == '0' && s[1] == '.');
        }
        if seq!['-', '0', '.'].is_prefix_of(s) {
            assert(s[0] == '-' && s[1] == '0' && s[2] == '.');
        }
    }
}

/// The integer formatter and the float formatter give the same text: the digits of
/// the scaled whole number, with the whole part and all decimals, come down to
/// [`fixed_text`].
pub proof fn law_full_text_compacts(n: int, p: nat)
    requires
        n != 0,
    ensures
        compact_text(full_text(n, p)) == fixed_text(n, p),
{
    let a = scalar::distance(n);
    let scale = rounding::power_of_ten(p);
    rounding::lemma_power_of_ten_positive(p);
    let whole = a / scale;
    let rest = a % scale;
    let raw = full_text(n, p);
    let sign = if n < 0 {
        seq!['-']
    } else {
        Seq::<char>::empty()
    };
    let head = sign + decimal(whole);
    lemma_decimal_digits(whole);
    lemma_padded_digits(rest, p);
    if p == 0 {
        assert(scale == 1);
        assert(whole == a && rest == 0) by (nonlinear_arith)
            requires
                scale == 1,
                whole == a / scale,
                rest == a % scale,
        ;
        assert(raw =~= head);
        assert(!raw.contains('.'));
        assert(raw =~= fixed_text(n, p));
    } else {
        let dot = seq!['.'];
        let all = padded(rest, p);
        assert(raw =~= head + dot + all);
        assert(raw[head.len() as int] == '.');
        if rest == 0 {
            lemma_whole_part(a, scale);
            lemma_trimmed_run(head + dot, all, '0');
            lemma_trimmed_run(head, dot, '.');
            assert(trimmed(trimmed(raw, '0'), '.') == head);
            assert(head =~= fixed_text(n, p));
        } else {
            lemma_trimmed_after(head + dot, all, '0');
            let cut = trimmed(all, '0');
            lemma_trimmed(all, '0');
            let s = head + dot + cut;
            assert(s.last() == cut.last());
            assert(cut.last() == all[cut.len() - 1]);
            assert(trimmed(s, '.') == s);
            if whole == 0 {
                if n < 0 {
                    assert(s =~= seq!['-', '0', '.'] + cut);
                    assert(seq!['-'] + s.skip(2) =~= fixed_text(n, p));
                } else {
                    assert(s =~= seq!['0', '.'] + cut);
                    assert(s.skip(1) =~= fixed_text(n, p));
                }
            } else {
                assert(s =~= fixed_text(n, p));
            }
        }
    }
}

/// At a fixed number of decimals the integer formatter is not to be told from the
/// float formatter: where the latter writes `n / 10^p`, with `n` the scaled whole
/// number, [`number_text`] and [`float_text`] agree.
pub proof fn law_fixed_matches_float(x: Value, p: u32, text: Formatted)
    requires
        scaled(x, Some(p)) matches Some(n) ==> text(x, Some(p)) == (if n == 0 {
            None
        } else {
            Some(full_text(n, p as nat))
        }),
    ensures
        number_text(x, Some(p), text) == float_text(x, Some(p), text),
{
    if let Some(n) = scaled(x, Some(p)) {
        if n != 0 {
            law_full_text_compacts(n, p as nat);
        }
    }
}

/// Whether `s` spends no character it could spare: no zero before the digits, and
/// after a dot neither zeros at the end nor nothing at all.
pub open spec fn spare(s: Seq<char>) -> bool {
    let digits = if s.len() > 0 && s[0] == '-' {
        s.skip(1)
    } else {
        s
    };
    &&& digits.len() > 0
    &&& digits[0] == '0' ==> s == seq!['0']
    &&& s.contains('.') ==> s.last() != '0' && s.last() != '.'
}

/// The text of parts starts with a sign exactly where they are negative.
pub proof fn lemma_fixed_sign(n: int, p: nat)
    requires
        n != 0,
    ensures
        fixed_text(n, p).len() > 0,
        fixed_text(n, p)[0] == '-' <==> n < 0,
{
    let a = scalar::distance(n);
    let scale = rounding::power_of_ten(p);
    rounding::lemma_power_of_ten_positive(p);
    let whole = a / scale;
    let s = fixed_text(n, p);
    lemma_decimal_digits(whole);
    law_fixed_text_is_spare(n, p);
    if n > 0 {
        if whole != 0 {
            assert(s[0] == decimal(whole)[0]);
        } else if a % scale != 0 {
            assert(s[0] == '.');
        }
    }
}

/// The integer formatter spends no character it could spare.
pub proof fn law_fixed_text_is_spare(n: int, p: nat)
    requires
        n != 0,
    ensures
        spare(fixed_text(n, p)),
{
    let a = scalar::distance(n);
    let scale = rounding::power_of_ten(p);
    rounding::lemma_power_of_ten_positive(p);
    let whole = a / scale;
    let rest = a % scale;
    let s = fixed_text(n, p);
    lemma_decimal_digits(whole);
    lemma_padded_digits(rest, p);
    lemma_trimmed(padded(rest, p), '0');
    let cut = trimmed(padded(rest, p), '0');
    if rest == 0 {
        lemma_whole_part(a, scale);
        assert(!s.contains('.'));
    } else {
        assert(s.last() == cut.last());
        assert(cut.last() == padded(rest, p)[cut.len() - 1]);
    }
    if n < 0 {
        assert(s[0] == '-');
        if whole > 0 {
            assert(s.skip(1)[0] == decimal(whole)[0]);
        } else {
            assert(s.skip(1)[0] == '.');
        }
    } else if whole > 0 {
        assert(s[0] == decimal(whole)[0]);
    } else {
        assert(s[0] == '.');
    }
}

/// Scaling and rounding are symmetric about zero.
pub proof fn law_scaled_is_odd(x: Value, precision: Option<u32>)
    ensures
        scaled(scalar::negated(x), precision) == (match scaled(x, precision) {
            Some(n) => Some(-n),
            None => None,
        }),
{
    if let (Value::Finite(a), Some(p)) = (x, precision) {
        let k = rounding::power_of_ten(p as nat) as int;
        assert((-a) * k == -(a * k)) by (nonlinear_arith);
        let y = a * k;
        vstd::arithmetic::power2::lemma_pow2_pos(2098);
        vstd::arithmetic::power2::lemma_pow2_pos(1074);
        assert(rounding::width(0) == 0);
        assert(scalar::distance(-y) == scalar::distance(y));
        if let Value::Finite(z) = scalar::rounded(y) {
            assert(scalar::rounded(-y) == Value::Finite(-z));
            assert(scalar::whole(-z) == -scalar::whole(z)) by {
                if z == 0 {
                    lemma_whole_zero();
                }
            }
        }
    }
}

/// Zero is a whole number.
proof fn lemma_whole_zero()
    ensures
        scalar::whole(0) == 0,
{
    vstd::arithmetic::power2::lemma_pow2_pos(1074);
    let u = scalar::one() as int;
    assert(u / (2 * u) == 0) by (nonlinear_arith)
        requires
            u > 0,
    ;
}

/// The text of a number below zero is that of its opposite behind a sign.
pub proof fn law_fixed_text_is_odd(n: int, p: nat)
    requires
        n > 0,
    ensures
        fixed_text(-n, p) == seq!['-'] + fixed_text(n, p),
{
    assert(scalar::distance(-n) == scalar::distance(n));
    assert(fixed_text(-n, p) =~= seq!['-'] + fixed_text(n, p));
}

/// Compacting leaves a sign in front as it is.
proof fn lemma_compact_sign(raw: Seq<char>)
    requires
        raw.len() > 0,
        raw[0] != '-',
    ensures
        compact_text(seq!['-'] + raw) == seq!['-'] + compact_text(raw),
{
    let minus = seq!['-'];
    let signed = minus + raw;
    assert(signed.contains('.') == raw.contains('.')) by {
        if raw.contains('.') {
            let i = choose|i: int| 0 <= i < raw.len() && raw[i] == '.';
            assert(signed[i + 1] == '.');
        }
        if signed.contains('.') {
            let i = choose|i: int| 0 <= i < signed.len() && signed[i] == '.';
            assert(raw[i - 1] == '.');
        }
    }
    lemma_trimmed_behind(minus, raw, '0');
    lemma_trimmed_behind(minus, trimmed(raw, '0'), '.');
    lemma_trimmed(raw, '0');
    lemma_trimmed(trimmed(raw, '0'), '.');
    let s = if raw.contains('.') {
        trimmed(trimmed(raw, '0'), '.')
    } else {
        raw
    };
    let t = minus + s;
    assert(t[0] == '-');
    assert(s.len() > 0 ==> s[0] == raw[0]);
    assert(seq!['-', '0', '.'].is_prefix_of(t) == seq!['0', '.'].is_prefix_of(s)) by {
        if seq!['-', '0', '.'].is_prefix_of(t) {
            assert(t[1] == '0' && t[2] == '.');
            assert(s.take(2) =~= seq!['0', '.']);
        }
        if seq!['0', '.'].is_prefix_of(s) {
            assert(s[0] == '0' && s[1] == '.');
            assert(t.take(3) =~= seq!['-', '0', '.']);
        }
    }
    if seq!['0', '.'].is_prefix_of(t) {
        assert(t[0] == '0');
    }
    if seq!['-', '0', '.'].is_prefix_of(s) {
        assert(s[0] == '-');
    }
    if seq!['0', '.'].is_prefix_of(s) {
        assert(minus + t.skip(2) =~= minus + s.skip(1));
    }
}

/// What stands before a text and is no run of `c` is not touched by trimming.
proof fn lemma_trimmed_behind(a: Seq<char>, b: Seq<char>, c: char)
    requires
        a.len() > 0,
        a.last() != c,
    ensures
        trimmed(a + b, c) == a + trimmed(b, c),
    decreases b.len(),
{
    if b.len() == 0 {
        assert(a + b =~= a);
    } else if b.last() == c {
        assert((a + b).drop_last() =~= a + b.drop_last());
        lemma_trimmed_behind(a, b.drop_last(), c);
    }
}

/// Whether the formatter treats `x` and its opposite alike: of both it writes
/// nothing, or of the opposite the same behind a sign.
pub open spec fn even_handed(x: Value, precision: Option<u32>, text: Formatted) -> bool {
    match text(x, precision) {
        None => text(scalar::negated(x), precision) is None,
        Some(raw) => {
            &&& raw.len() > 0 && raw[0] != '-'
            &&& text(scalar::negated(x), precision) == Some(seq!['-'] + raw)
        },
    }
}

/// Rounding is symmetric about zero, and `-0` is never written: the text of the
/// opposite of a positive number is `0` where that of the number is, and else that
/// of the number behind a sign. Where the float formatter writes, it is it that
/// has to treat both alike.
pub proof fn law_number_text_is_odd(a: int, precision: Option<u32>, text: Formatted)
    requires
        sound(text),
        a > 0,
        scaled(Value::Finite(a), precision) is None ==> even_handed(
            Value::Finite(a),
            precision,
            text,
        ),
    ensures
        ({
            let s = number_text(Value::Finite(a), precision, text);
            number_text(Value::Finite(-a), precision, text) == (if s == seq!['0'] {
                s
            } else {
                seq!['-'] + s
            })
        }),
{
    let x = Value::Finite(a);
    law_scaled_is_odd(x, precision);
    match scaled(x, precision) {
        Some(n) => {
            if n != 0 {
                lemma_scaled_sign(a, precision);
                let p = precision->0 as nat;
                law_fixed_text_is_odd(n, p);
                law_fixed_text_is_spare(n, p);
                lemma_fixed_text_not_zero(n, p);
            }
        },
        None => {
            assert(acceptable(x, precision, text(x, precision)));
            if text(x, precision) is Some {
                law_compact_text_is_spare(text(x, precision)->0);
                lemma_compact_sign(text(x, precision)->0);
            }
        },
    }
}

/// What is above zero is not scaled below it.
proof fn lemma_scaled_sign(a: int, precision: Option<u32>)
    requires
        a > 0,
        scaled(Value::Finite(a), precision) is Some,
    ensures
        scaled(Value::Finite(a), precision)->0 >= 0,
{
    let k = rounding::power_of_ten(precision->0 as nat) as int;
    rounding::lemma_power_of_ten_positive(precision->0 as nat);
    assert(a * k >= 0) by (nonlinear_arith)
        requires
            a > 0,
            k > 0,
    ;
    vstd::arithmetic::power2::lemma_pow2_pos(1074);
    let z = scalar::rounded(a * k)->Finite_0;
    let u = scalar::one() as int;
    assert((2 * z + u) / (2 * u) >= 0) by (nonlinear_arith)
        requires
            z >= 0,
            u > 0,
    ;
}

/// Only zero is written `0`.
proof fn lemma_fixed_text_not_zero(n: int, p: nat)
    requires
        n > 0,
    ensures
        fixed_text(n, p) != seq!['0'],
{
    let scale = rounding::power_of_ten(p);
    rounding::lemma_power_of_ten_positive(p);
    let s = fixed_text(n, p);
    let whole = scalar::distance(n) / scale;
    lemma_decimal_digits(whole);
    if scalar::distance(n) % scale == 0 {
        lemma_whole_part(scalar::distance(n), scale);
    }
    if whole > 0 {
        assert(s[0] == decimal(whole)[0]);
    } else {
        assert(s[0] == '.');
    }
}

/// Compacting a plain decimal leaves no character that could be spared.
pub proof fn law_compact_text_is_spare(raw: Seq<char>)
    requires
        is_decimal(raw),
    ensures
        spare(compact_text(raw)),
        compact_text(raw) != seq!['0'],
{
    let (negative, left, right) = choose|negative: bool, left: Seq<char>, right: Seq<char>|
        proper_digits(left, right) && raw == #[trigger] decimal_form(negative, left, right);
    let cut = trimmed(right, '0');
    let short = compact_left(left, cut);
    lemma_compact_form(negative, left, right);
    lemma_trimmed(right, '0');
    let s = compact_text(raw);
    let k: int = if negative {
        1
    } else {
        0
    };
    if cut.len() > 0 {
        assert(s.last() == cut.last());
        assert(is_digit(cut[cut.len() - 1]));
    } else {
        if left == seq!['0'] {
            let i = choose|i: int| 0 <= i < right.len() && #[trigger] right[i] != '0';
            assert(right[i] == '0');
        }
        assert(!s.contains('.')) by {
            assert forall|i: int| 0 <= i < s.len() implies s[i] != '.' by {
                if i >= k {
                    assert(is_digit(short[i - k]));
                }
            }
        }
    }
    if short.len() > 0 {
        assert(s[k] == short[0]);
        assert(is_digit(short[0]));
        assert(short[0] != '0');
    } else {
        assert(s[k] == '.');
    }
    if negative {
        assert(s[0] == '-');
        assert(s.skip(1)[0] == s[1]);
    }
}

/// Whatever writes it, the text of a finite number spends no character it could
/// spare.
pub proof fn law_number_text_is_spare(x: Value, precision: Option<u32>, text: Formatted)
    requires
        sound(text),
        x is Finite,
    ensures
        spare(number_text(x, precision, text)),
        spare(float_text(x, precision, text)),
{
    assert(spare(seq!['0'])) by {
        assert(seq!['0'][0] == '0');
        assert(!seq!['0'].contains('.'));
    }
    if asked(x, precision) {
        assert(acceptable(x, precision, text(x, precision)));
        if let Some(raw) = text(x, precision) {
            law_compact_text_is_spare(raw);
        }
    }
    if let Some(n) = scaled(x, precision) {
        if n != 0 {
            law_fixed_text_is_spare(n, precision->0 as nat);
        }
    }
}

} // verus!
