//! How a reader understands the numbers of path data, and that it finds there what
//! was written.
//!
//! A number is read in units of its last decimal: at precision `p` a whole number
//! stands for so many parts of `10^p`. Or it is read as a binary64 number, with a
//! parser that is given.
use vstd::prelude::*;

use crate::number;
use crate::path;
use crate::rounding;
use crate::scalar;
use crate::scalar::Value;

verus! {

/// How many digits `s` starts with.
pub open spec fn digit_run(s: Seq<char>) -> nat
    decreases s.len(),
{
    if s.len() > 0 && number::is_digit(s[0]) {
        1 + digit_run(s.skip(1))
    } else {
        0
    }
}

/// The number that the digits of `s` give.
pub open spec fn digits_value(s: Seq<char>) -> nat
    decreases s.len(),
{
    if s.len() == 0 {
        0
    } else {
        10 * digits_value(s.drop_last()) + (s.last() as int - 48) as nat
    }
}

/// The unsigned number at the start of `s`, in parts of `10^p`, and what follows
/// it: digits, and an optional dot with at most `p` digits.
pub open spec fn read_unsigned(s: Seq<char>, p: nat) -> Option<(nat, Seq<char>)> {
    let i = digit_run(s);
    let u = s.skip(i as int);
    let dotted = u.len() > 0 && u[0] == '.';
    let v = if dotted {
        u.skip(1)
    } else {
        u
    };
    let j = if dotted {
        digit_run(v)
    } else {
        0
    };
    if i + j == 0 || j > p {
        None
    } else {
        let n = digits_value(s.take(i as int)) * rounding::power_of_ten(p) + digits_value(
            v.take(j as int),
        ) * rounding::power_of_ten((p - j) as nat);
        Some((n, v.skip(j as int)))
    }
}

/// The number at the start of `s`, in parts of `10^p`, and what follows it.
pub open spec fn read_number(s: Seq<char>, p: nat) -> Option<(int, Seq<char>)> {
    if s.len() > 0 && s[0] == '-' {
        match read_unsigned(s.skip(1), p) {
            Some((n, rest)) => Some((-n, rest)),
            None => None,
        }
    } else {
        match read_unsigned(s, p) {
            Some((n, rest)) => Some((n as int, rest)),
            None => None,
        }
    }
}

/// Whether a number ends before `rest`.
pub open spec fn ends_number(rest: Seq<char>) -> bool {
    rest.len() == 0 || !(number::is_digit(rest[0]) || rest[0] == '.')
}

/// How numbers are read and reckoned with.
#[verifier::reject_recursive_types(N)]
pub struct Algebra<N> {
    /// The number at the start of a text, and what follows it.
    pub read: spec_fn(Seq<char>) -> Option<(N, Seq<char>)>,
    /// The first, and the second counted from it.
    pub add: spec_fn(N, N) -> N,
    /// The second, mirrored at the first.
    pub mirror: spec_fn(N, N) -> N,
}

pub open spec fn next_number<N>(g: Algebra<N>, s: Seq<char>) -> Option<(N, Seq<char>)> {
    (g.read)(s)
}

/// Numbers in parts of `10^p`.
pub open spec fn in_decimals(p: nat) -> Algebra<int> {
    Algebra {
        read: |s: Seq<char>| read_number(s, p),
        add: |a: int, b: int| a + b,
        mirror: |a: int, b: int| 2 * a - b,
    }
}

/// What makes a number of its text.
pub type Parser = spec_fn(Seq<char>) -> Value;

/// How long the number at the start of `s` is: a sign or none, digits, and a dot
/// with digits, each as far as it is there.
pub open spec fn number_length(s: Seq<char>) -> nat {
    let sign: int = if s.len() > 0 && s[0] == '-' {
        1
    } else {
        0
    };
    let i = sign + digit_run(s.skip(sign));
    let rest = s.skip(i);
    if rest.len() > 0 && rest[0] == '.' {
        (i + 1 + digit_run(rest.skip(1))) as nat
    } else {
        i as nat
    }
}

/// Binary64 numbers, as `parse` reads them and binary64 reckons.
pub open spec fn in_binary(parse: Parser) -> Algebra<Value> {
    Algebra {
        read: |s: Seq<char>|
            {
                let n = number_length(s) as int;
                if n == 0 {
                    None
                } else {
                    Some((parse(s.take(n)), s.skip(n)))
                }
            },
        add: |a: Value, b: Value| scalar::total(a, b),
        mirror: |a: Value, b: Value| path::mirrored(a, b),
    }
}

/// Whether `t`, wherever it ends, is read as `n`.
pub open spec fn reads_as<N>(g: Algebra<N>, t: Seq<char>, n: N) -> bool {
    &&& t.len() > 0
    &&& t[0] == '-' || t[0] == '.' || number::is_digit(t[0])
    &&& forall|rest: Seq<char>|
        ends_number(rest) ==> #[trigger] next_number(g, t + rest) == Some((n, rest))
}

pub proof fn lemma_digit_run(a: Seq<char>, rest: Seq<char>)
    requires
        number::all_digits(a),
        rest.len() == 0 || !number::is_digit(rest[0]),
    ensures
        digit_run(a + rest) == a.len(),
    decreases a.len(),
{
    if a.len() == 0 {
        assert(a + rest =~= rest);
    } else {
        assert((a + rest)[0] == a[0]);
        lemma_digit_run(a.skip(1), rest);
        assert((a + rest).skip(1) =~= a.skip(1) + rest);
    }
}

proof fn lemma_digits_push(s: Seq<char>, d: nat)
    requires
        d < 10,
    ensures
        digits_value(s.push(number::digit(d))) == 10 * digits_value(s) + d,
        number::is_digit(number::digit(d)),
{
    assert(s.push(number::digit(d)).drop_last() =~= s);
}

pub proof fn lemma_decimal_reads(n: nat)
    ensures
        number::decimal(n).len() > 0,
        number::all_digits(number::decimal(n)),
        digits_value(number::decimal(n)) == n,
    decreases n,
{
    if n < 10 {
        lemma_digits_push(seq![], n);
        assert(Seq::<char>::empty().push(number::digit(n)) =~= number::decimal(n));
        assert(digits_value(seq![]) == 0);
    } else {
        lemma_decimal_reads(n / 10);
        lemma_digits_push(number::decimal(n / 10), n % 10);
    }
}

proof fn lemma_padded_reads(n: nat, k: nat)
    requires
        n < rounding::power_of_ten(k),
    ensures
        number::padded(n, k).len() == k,
        number::all_digits(number::padded(n, k)),
        digits_value(number::padded(n, k)) == n,
    decreases k,
{
    if k > 0 {
        lemma_padded_reads(n / 10, (k - 1) as nat);
        lemma_digits_push(number::padded(n / 10, (k - 1) as nat), n % 10);
    }
}

/// Zeros that are trimmed off the end count ten times each.
proof fn lemma_trimmed_reads(s: Seq<char>)
    requires
        number::all_digits(s),
        digits_value(s) > 0,
    ensures
        0 < number::trimmed(s, '0').len() <= s.len(),
        number::all_digits(number::trimmed(s, '0')),
        digits_value(number::trimmed(s, '0')) * rounding::power_of_ten(
            (s.len() - number::trimmed(s, '0').len()) as nat,
        ) == digits_value(s),
    decreases s.len(),
{
    assert(rounding::power_of_ten(0) == 1);
    if s.last() == '0' {
        let t = s.drop_last();
        lemma_trimmed_reads(t);
        let k = (t.len() - number::trimmed(t, '0').len()) as nat;
        let d = digits_value(number::trimmed(t, '0'));
        assert(rounding::power_of_ten(k + 1) == 10 * rounding::power_of_ten(k));
        assert(number::trimmed(s, '0') == number::trimmed(t, '0'));
        assert((s.len() - number::trimmed(s, '0').len()) as nat == k + 1);
        assert(digits_value(s) == 10 * digits_value(t));
        assert(d * (10 * rounding::power_of_ten(k)) == 10 * (d * rounding::power_of_ten(k)))
            by (nonlinear_arith);
    } else {
        assert(number::trimmed(s, '0') == s);
        assert((s.len() - s.len()) as nat == 0);
        vstd::arithmetic::mul::lemma_mul_basics(digits_value(s) as int);
    }
}

/// Digits, a dot and digits, or digits alone, read as they should.
proof fn lemma_unsigned_reads(left: Seq<char>, right: Seq<char>, p: nat, rest: Seq<char>)
    requires
        number::all_digits(left),
        number::all_digits(right),
        left.len() + right.len() > 0,
        right.len() <= p,
        ends_number(rest),
    ensures
        ({
            let n = digits_value(left) * rounding::power_of_ten(p) + digits_value(right)
                * rounding::power_of_ten((p - right.len()) as nat);
            &&& right.len() > 0 ==> read_unsigned(left + seq!['.'] + right + rest, p) == Some(
                (n, rest),
            )
            &&& right.len() == 0 ==> read_unsigned(left + rest, p) == Some((n, rest))
        }),
{
    if right.len() > 0 {
        let s = left + seq!['.'] + right + rest;
        let u = seq!['.'] + right + rest;
        assert(s =~= left + u);
        lemma_digit_run(left, u);
        assert(s.take(left.len() as int) =~= left);
        assert(s.skip(left.len() as int) =~= u);
        let v = u.skip(1);
        assert(v =~= right + rest);
        lemma_digit_run(right, rest);
        assert(v.take(right.len() as int) =~= right);
        assert(v.skip(right.len() as int) =~= rest);
    } else {
        let s = left + rest;
        lemma_digit_run(left, rest);
        assert(s.take(left.len() as int) =~= left);
        assert(s.skip(left.len() as int) =~= rest);
        assert(rest.take(0) =~= right);
        assert(rest.skip(0) =~= rest);
    }
}

/// The parts that digits around a dot come to.
pub open spec fn form_parts(negative: bool, left: Seq<char>, right: Seq<char>, p: nat) -> int {
    let n = digits_value(left) * rounding::power_of_ten(p) + digits_value(right)
        * rounding::power_of_ten((p - right.len()) as nat);
    if negative {
        -n
    } else {
        n as int
    }
}

/// A plain decimal is read as its digits say.
pub proof fn lemma_form_reads(negative: bool, left: Seq<char>, right: Seq<char>, p: nat)
    requires
        number::all_digits(left),
        number::all_digits(right),
        left.len() + right.len() > 0,
        right.len() <= p,
    ensures
        reads_as(
            in_decimals(p),
            number::decimal_form(negative, left, right),
            form_parts(negative, left, right, p),
        ),
{
    let t = number::decimal_form(negative, left, right);
    let n = form_parts(negative, left, right, p);
    let k: int = if negative {
        1
    } else {
        0
    };
    if left.len() > 0 {
        assert(t[k] == left[0]);
        assert(number::is_digit(left[0]));
    } else {
        assert(t[k] == '.');
    }
    assert forall|rest: Seq<char>| ends_number(rest) implies #[trigger] next_number(
        in_decimals(p),
        t + rest,
    ) == Some((n, rest)) by {
        lemma_unsigned_reads(left, right, p, rest);
        let s = t + rest;
        let body = if right.len() > 0 {
            left + seq!['.'] + right + rest
        } else {
            left + rest
        };
        assert(s[k] == t[k]);
        if negative {
            assert(s =~= seq!['-'] + body);
            assert(s.skip(1) =~= body);
        } else {
            assert(s =~= body);
        }
    }
}

/// A number reads back: the text of `n` parts of `10^p`, wherever the number ends,
/// is read as `n`.
pub proof fn law_number_reads_back(n: int, p: nat)
    ensures
        reads_as(in_decimals(p), number::parts_text(n, p), n),
{
    let none = Seq::<char>::empty();
    assert(digits_value(none) == 0);
    if n == 0 {
        lemma_decimal_reads(0);
        assert(number::decimal(0) =~= seq!['0']);
        lemma_form_reads(false, seq!['0'], none, p);
        assert(number::decimal_form(false, seq!['0'], none) =~= seq!['0']);
        vstd::arithmetic::mul::lemma_mul_basics(rounding::power_of_ten(p) as int);
    } else {
        let scale = rounding::power_of_ten(p);
        rounding::lemma_power_of_ten_positive(p);
        let a = scalar::distance(n);
        let whole = a / scale;
        let decimals = a % scale;
        vstd::arithmetic::div_mod::lemma_fundamental_div_mod(a as int, scale as int);
        vstd::arithmetic::mul::lemma_mul_is_commutative(whole as int, scale as int);
        vstd::arithmetic::mul::lemma_mul_basics(scale as int);
        let left = if whole != 0 {
            number::decimal(whole)
        } else {
            none
        };
        lemma_decimal_reads(whole);
        let digits = if decimals != 0 {
            number::trimmed(number::padded(decimals, p), '0')
        } else {
            none
        };
        if decimals != 0 {
            lemma_padded_reads(decimals, p);
            lemma_trimmed_reads(number::padded(decimals, p));
        }
        assert(left.len() + digits.len() > 0);
        lemma_form_reads(n < 0, left, digits, p);
        assert(number::decimal_form(n < 0, left, digits) =~= number::parts_text(n, p));
        assert(form_parts(n < 0, left, digits, p) == n);
    }
}

/// Compacting a plain decimal keeps its value and its plain form: what the decimal
/// reads as, its compact text reads as too, and that is digits, with a sign or
/// none before them and at most one dot among them.
pub proof fn law_compact_keeps_value(negative: bool, left: Seq<char>, right: Seq<char>, p: nat)
    requires
        number::all_digits(left),
        number::all_digits(right),
        left.len() > 0,
        right.len() <= p,
    ensures
        ({
            let raw = number::decimal_form(negative, left, right);
            let n = form_parts(negative, left, right, p);
            let cut = number::trimmed(right, '0');
            &&& reads_as(in_decimals(p), raw, n)
            &&& reads_as(in_decimals(p), number::compact_text(raw), n)
            &&& number::compact_text(raw) == number::decimal_form(
                negative,
                number::compact_left(left, cut),
                cut,
            )
            &&& number::all_digits(number::compact_left(left, cut))
            &&& number::all_digits(cut)
        }),
{
    let cut = number::trimmed(right, '0');
    let short = number::compact_left(left, cut);
    number::lemma_compact_form(negative, left, right);
    lemma_form_reads(negative, left, right, p);
    lemma_cut_value(right, p);
    lemma_form_reads(negative, short, cut, p);
    assert(digits_value(short) == digits_value(left)) by {
        lemma_decimal_reads(0);
        assert(number::decimal(0) =~= seq!['0']);
    }
}

/// Zeros at the end of the decimals do not count.
proof fn lemma_cut_value(right: Seq<char>, p: nat)
    requires
        number::all_digits(right),
        right.len() <= p,
    ensures
        ({
            let cut = number::trimmed(right, '0');
            &&& cut.len() <= right.len()
            &&& digits_value(cut) * rounding::power_of_ten((p - cut.len()) as nat) == digits_value(
                right,
            ) * rounding::power_of_ten((p - right.len()) as nat)
        }),
    decreases right.len(),
{
    if right.len() > 0 && right.last() == '0' {
        let t = right.drop_last();
        lemma_cut_value(t, p);
        let k = (p - right.len()) as nat;
        assert(rounding::power_of_ten(k + 1) == 10 * rounding::power_of_ten(k));
        assert(digits_value(right) == 10 * digits_value(t));
        let (d, q) = (digits_value(t), rounding::power_of_ten(k));
        assert((10 * d) * q == d * (10 * q)) by (nonlinear_arith);
    }
}

/// A plain decimal is read whole.
proof fn lemma_form_parses(negative: bool, left: Seq<char>, right: Seq<char>, parse: Parser)
    requires
        number::all_digits(left),
        number::all_digits(right),
        left.len() + right.len() > 0,
    ensures
        reads_as(
            in_binary(parse),
            number::decimal_form(negative, left, right),
            parse(number::decimal_form(negative, left, right)),
        ),
{
    let t = number::decimal_form(negative, left, right);
    let k: int = if negative {
        1
    } else {
        0
    };
    if left.len() > 0 {
        assert(t[k] == left[0]);
        assert(number::is_digit(left[0]));
    } else {
        assert(t[k] == '.');
    }
    assert forall|rest: Seq<char>| ends_number(rest) implies #[trigger] next_number(
        in_binary(parse),
        t + rest,
    ) == Some((parse(t), rest)) by {
        let s = t + rest;
        lemma_form_length(negative, left, right, rest);
        assert(s.take(t.len() as int) =~= t);
        assert(s.skip(t.len() as int) =~= rest);
    }
}

/// How long a plain decimal is before `rest`.
proof fn lemma_form_length(negative: bool, left: Seq<char>, right: Seq<char>, rest: Seq<char>)
    requires
        number::all_digits(left),
        number::all_digits(right),
        left.len() + right.len() > 0,
        ends_number(rest),
    ensures
        number_length(number::decimal_form(negative, left, right) + rest) == number::decimal_form(
            negative,
            left,
            right,
        ).len(),
{
    let t = number::decimal_form(negative, left, right);
    let s = t + rest;
    let k: int = if negative {
        1
    } else {
        0
    };
    let tail = if right.len() > 0 {
        seq!['.'] + right + rest
    } else {
        rest
    };
    assert(s[k] == t[k]);
    if left.len() > 0 {
        assert(t[k] == left[0]);
        assert(number::is_digit(left[0]));
    }
    assert(s.skip(k) =~= left + tail);
    lemma_digit_run(left, tail);
    assert(s.skip(k + left.len()) =~= tail);
    if right.len() > 0 {
        assert(tail.skip(1) =~= right + rest);
        lemma_digit_run(right, rest);
    }
}

/// `k` numbers at the start of `s`, parted by commas or signs, and what follows.
pub open spec fn read_numbers<N>(g: Algebra<N>, s: Seq<char>, k: nat, first: bool) -> Option<
    (Seq<N>, Seq<char>),
>
    decreases k,
{
    if k == 0 {
        Some((seq![], s))
    } else {
        let t = if !first && s.len() > 0 && s[0] == ',' {
            s.skip(1)
        } else {
            s
        };
        match next_number(g, t) {
            None => None,
            Some((n, rest)) => match read_numbers(g, rest, (k - 1) as nat, false) {
                None => None,
                Some((ns, end)) => Some((seq![n] + ns, end)),
            },
        }
    }
}

/// The texts of numbers behind another.
spec fn tail_text(nums: Seq<Seq<char>>) -> Seq<char>
    decreases nums.len(),
{
    if nums.len() == 0 {
        seq![]
    } else {
        path::listed(nums[0], false) + tail_text(nums.skip(1))
    }
}

proof fn lemma_tail_push(nums: Seq<Seq<char>>, n: Seq<char>)
    ensures
        tail_text(nums.push(n)) == tail_text(nums) + path::listed(n, false),
    decreases nums.len(),
{
    if nums.len() == 0 {
        assert(nums.push(n).skip(1) =~= seq![]);
        assert(tail_text(nums.push(n).skip(1)) =~= seq![]);
        assert(tail_text(nums.push(n)) =~= tail_text(nums) + path::listed(n, false));
    } else {
        assert(nums.push(n).skip(1) =~= nums.skip(1).push(n));
        lemma_tail_push(nums.skip(1), n);
        assert(tail_text(nums.push(n)) =~= tail_text(nums) + path::listed(n, false));
    }
}

/// A list seen from its first number.
proof fn lemma_joined_front(nums: Seq<Seq<char>>)
    requires
        nums.len() > 0,
    ensures
        path::joined(nums) == nums[0] + tail_text(nums.skip(1)),
    decreases nums.len(),
{
    let before = nums.drop_last();
    if before.len() == 0 {
        assert(nums.skip(1) =~= seq![]);
        assert(path::joined(before) =~= seq![]);
        assert(path::joined(nums) =~= nums[0] + tail_text(nums.skip(1)));
    } else {
        lemma_joined_front(before);
        lemma_tail_push(before.skip(1), nums.last());
        assert(before.skip(1).push(nums.last()) =~= nums.skip(1));
        assert(path::joined(nums) =~= nums[0] + tail_text(nums.skip(1)));
    }
}

/// A number behind another, with its separator, read.
proof fn lemma_listed_reads<N>(g: Algebra<N>, t: Seq<char>, n: N, after: Seq<char>)
    requires
        reads_as(g, t, n),
        ends_number(after),
    ensures
        ({
            let s = path::listed(t, false) + after;
            let u = if s[0] == ',' {
                s.skip(1)
            } else {
                s
            };
            &&& s.len() > 0
            &&& ends_number(s)
            &&& next_number(g, u) == Some((n, after))
        }),
{
    let s = path::listed(t, false) + after;
    if t[0] == '-' {
        assert(s =~= t + after);
    } else {
        assert(s[0] == ',');
        assert(s.skip(1) =~= t + after);
    }
    assert(next_number(g, t + after) == Some((n, after)));
}

/// Whether `nums` are read as `ns`, one by one.
pub open spec fn all_read_as<N>(g: Algebra<N>, nums: Seq<Seq<char>>, ns: Seq<N>) -> bool {
    &&& nums.len() == ns.len()
    &&& forall|i: int| 0 <= i < ns.len() ==> reads_as(g, #[trigger] nums[i], ns[i])
}

/// The numbers behind the first of a list, read.
proof fn lemma_tail_reads<N>(
    g: Algebra<N>,
    nums: Seq<Seq<char>>,
    ns: Seq<N>,
    rest: Seq<char>,
)
    requires
        all_read_as(g, nums, ns),
        ends_number(rest),
    ensures
        ends_number(tail_text(nums) + rest),
        read_numbers(g, tail_text(nums) + rest, ns.len(), false) == Some((ns, rest)),
    decreases ns.len(),
{
    let s = tail_text(nums) + rest;
    if ns.len() == 0 {
        assert(s =~= rest);
        assert(ns =~= seq![]);
    } else {
        let (more_nums, more) = (nums.skip(1), ns.skip(1));
        let after = tail_text(more_nums) + rest;
        assert forall|i: int| 0 <= i < more.len() implies reads_as(
            g,
            #[trigger] more_nums[i],
            more[i],
        ) by {
            assert(more_nums[i] == nums[i + 1]);
        }
        lemma_tail_reads(g, more_nums, more, rest);
        assert(reads_as(g, nums[0], ns[0]));
        lemma_listed_reads(g, nums[0], ns[0], after);
        assert(s =~= path::listed(nums[0], false) + after);
        assert(ns =~= seq![ns[0]] + more);
    }
}

/// A list reads back: numbers that are read as `ns` are so in a list, wherever the
/// list ends.
pub proof fn law_list_reads_back<N>(
    g: Algebra<N>,
    nums: Seq<Seq<char>>,
    ns: Seq<N>,
    rest: Seq<char>,
)
    requires
        all_read_as(g, nums, ns),
        ends_number(rest),
    ensures
        read_numbers(g, path::joined(nums) + rest, ns.len(), true) == Some((ns, rest)),
{
    let s = path::joined(nums) + rest;
    if ns.len() == 0 {
        assert(s =~= rest);
        assert(ns =~= seq![]);
    } else {
        lemma_joined_front(nums);
        let (more_nums, more) = (nums.skip(1), ns.skip(1));
        let after = tail_text(more_nums) + rest;
        assert forall|i: int| 0 <= i < more.len() implies reads_as(
            g,
            #[trigger] more_nums[i],
            more[i],
        ) by {
            assert(more_nums[i] == nums[i + 1]);
        }
        lemma_tail_reads(g, more_nums, more, rest);
        assert(reads_as(g, nums[0], ns[0]));
        assert(s =~= nums[0] + after);
        assert(next_number(g, nums[0] + after) == Some((ns[0], after)));
        assert(ns =~= seq![ns[0]] + more);
    }
}

/// How many characters follow the first dot of `s`.
pub open spec fn decimals(s: Seq<char>) -> nat
    decreases s.len(),
{
    if s.len() == 0 {
        0
    } else if s[0] == '.' {
        (s.len() - 1) as nat
    } else {
        decimals(s.skip(1))
    }
}

/// Whether `s` is digits, with a sign or none before them and at most one dot among
/// them; there is no exponent.
pub open spec fn plain_decimal(s: Seq<char>) -> bool {
    exists|negative: bool, left: Seq<char>, right: Seq<char>|
        {
            &&& number::all_digits(left)
            &&& number::all_digits(right)
            &&& left.len() + right.len() > 0
            &&& s == #[trigger] number::decimal_form(negative, left, right)
        }
}

/// The characters before the first dot do not count.
proof fn lemma_decimals_behind(a: Seq<char>, b: Seq<char>)
    requires
        !a.contains('.'),
    ensures
        decimals(a + b) == decimals(b),
    decreases a.len(),
{
    if a.len() == 0 {
        assert(a + b =~= b);
    } else {
        assert(a[0] != '.');
        assert(!a.skip(1).contains('.')) by {
            if a.skip(1).contains('.') {
                let i = choose|i: int| 0 <= i < a.skip(1).len() && a.skip(1)[i] == '.';
                assert(a[i + 1] == '.');
            }
        }
        lemma_decimals_behind(a.skip(1), b);
        assert((a + b).skip(1) =~= a.skip(1) + b);
    }
}

/// The decimals of a plain decimal.
proof fn lemma_form_decimals(negative: bool, left: Seq<char>, right: Seq<char>)
    requires
        number::all_digits(left),
    ensures
        decimals(number::decimal_form(negative, left, right)) == right.len(),
{
    let s = number::decimal_form(negative, left, right);
    let sign = if negative {
        seq!['-']
    } else {
        Seq::<char>::empty()
    };
    let head = sign + left;
    assert(!head.contains('.')) by {
        assert forall|i: int| 0 <= i < head.len() implies head[i] != '.' by {
            if i >= sign.len() {
                assert(number::is_digit(left[i - sign.len()]));
            }
        }
    }
    let tail = if right.len() > 0 {
        seq!['.'] + right
    } else {
        Seq::<char>::empty()
    };
    assert(s =~= head + tail);
    lemma_decimals_behind(head, tail);
}

/// Whether `x` is a finite number whose text, where the float formatter writes it,
/// has at most `p` decimals.
pub open spec fn fits(x: Value, precision: Option<u32>, p: nat, text: number::Formatted) -> bool {
    &&& x is Finite
    &&& number::scaled(x, precision) is None && number::asked(x, precision) && text(x, precision)
        is Some ==> decimals(text(x, precision)->0) <= p
}

/// How many parts of `10^p` the text of a number reads as.
pub open spec fn as_written(precision: Option<u32>, p: nat, text: number::Formatted) -> spec_fn(
    Value,
) -> int {
    |x: Value| (read_number(number::number_text(x, precision, text), p)->0).0
}

/// The text of a finite number is a plain decimal, and reads as what it is written
/// of: at a precision, the whole number of parts where there is one, and else what
/// the float formatter wrote.
pub proof fn law_number_text_reads_back(
    x: Value,
    precision: Option<u32>,
    p: nat,
    text: number::Formatted,
)
    requires
        number::sound(text),
        precision is Some ==> precision->0 == p,
        fits(x, precision, p, text),
    ensures
        plain_decimal(number::number_text(x, precision, text)),
        reads_as(
            in_decimals(p),
            number::number_text(x, precision, text),
            as_written(precision, p, text)(x),
        ),
        number::scaled(x, precision) matches Some(n) ==> as_written(precision, p, text)(x) == n,
        number::scaled(x, precision) is None && number::asked(x, precision) && text(x, precision)
            is Some ==> reads_as(
            in_decimals(p),
            text(x, precision)->0,
            as_written(precision, p, text)(x),
        ),
{
    let t = number::number_text(x, precision, text);
    let none = Seq::<char>::empty();
    assert(t + none =~= t);
    if let Some(n) = number::scaled(x, precision) {
        law_number_reads_back(n, p);
        lemma_parts_plain(n, p);
        assert(next_number(in_decimals(p), t + none) == Some((n, none)));
    } else if number::asked(x, precision) && text(x, precision) is Some {
        assert(number::acceptable(x, precision, text(x, precision)));
        let raw = text(x, precision)->0;
        let (negative, left, right) = choose|negative: bool, left: Seq<char>, right: Seq<char>|
            number::proper_digits(left, right) && raw == #[trigger] number::decimal_form(
                negative,
                left,
                right,
            );
        lemma_form_decimals(negative, left, right);
        law_compact_keeps_value(negative, left, right, p);
        let n = form_parts(negative, left, right, p);
        number::lemma_compact_form(negative, left, right);
        assert(next_number(in_decimals(p), t + none) == Some((n, none)));
    } else {
        law_number_reads_back(0, p);
        lemma_parts_plain(0, p);
        assert(next_number(in_decimals(p), t + none) == Some((0int, none)));
    }
}

/// The text of a whole number of parts is a plain decimal.
proof fn lemma_parts_plain(n: int, p: nat)
    ensures
        plain_decimal(number::parts_text(n, p)),
{
    let none = Seq::<char>::empty();
    if n == 0 {
        assert(seq!['0'] =~= number::decimal_form(false, seq!['0'], none));
        assert(number::all_digits(seq!['0']));
    } else {
        let scale = rounding::power_of_ten(p);
        rounding::lemma_power_of_ten_positive(p);
        let a = scalar::distance(n);
        vstd::arithmetic::div_mod::lemma_fundamental_div_mod(a as int, scale as int);
        vstd::arithmetic::mul::lemma_mul_basics(scale as int);
        let (whole, rest) = (a / scale, a % scale);
        lemma_decimal_reads(whole);
        let left = if whole != 0 {
            number::decimal(whole)
        } else {
            none
        };
        let right = if rest != 0 {
            number::trimmed(number::padded(rest, p), '0')
        } else {
            none
        };
        if rest != 0 {
            lemma_padded_reads(rest, p);
            lemma_trimmed_reads(number::padded(rest, p));
        }
        assert(left.len() + right.len() > 0);
        assert(number::decimal_form(n < 0, left, right) =~= number::parts_text(n, p));
    }
}

/// Whether `s` and `t` are decimals of the same number, written with at most `p`
/// decimals.
pub open spec fn same_decimal(s: Seq<char>, t: Seq<char>, n: int, p: nat) -> bool {
    reads_as(in_decimals(p), s, n) && reads_as(in_decimals(p), t, n)
}

/// Whether `parse` goes by the number that a decimal stands for, takes `0` for zero,
/// and makes of what the float formatter writes of a binary64 number as it stands
/// that number.
pub open spec fn gives_back(parse: Parser, text: number::Formatted) -> bool {
    &&& forall|s: Seq<char>, t: Seq<char>, n: int, p: nat| #[trigger]
        same_decimal(s, t, n, p) ==> parse(s) == parse(t)
    &&& parse(seq!['0']) == Value::Finite(0)
    &&& forall|x: Value|
        scalar::representable(x) && x != Value::Finite(0) ==> (#[trigger] text(x, None) matches Some(
            raw,
        ) ==> parse(raw) == x)
}

/// At full precision the text of a number is read whole, so that a parser which
/// gives back what the float formatter writes gives back the number itself.
pub proof fn law_full_number_reads_back(x: Value, parse: Parser, text: number::Formatted)
    requires
        number::sound(text),
        scalar::representable(x),
        gives_back(parse, text),
    ensures
        plain_decimal(number::number_text(x, None, text)),
        reads_as(in_binary(parse), number::number_text(x, None, text), x),
{
    let t = number::number_text(x, None, text);
    let p = if text(x, None) is Some {
        decimals(text(x, None)->0)
    } else {
        0
    };
    law_number_text_reads_back(x, None, p, text);
    if x != Value::Finite(0) {
        assert(number::acceptable(x, None, text(x, None)));
        assert(same_decimal(t, text(x, None)->0, as_written(None, p, text)(x), p));
    }
    let (negative, left, right) = choose|negative: bool, left: Seq<char>, right: Seq<char>|
        {
            &&& number::all_digits(left)
            &&& number::all_digits(right)
            &&& left.len() + right.len() > 0
            &&& t == #[trigger] number::decimal_form(negative, left, right)
        };
    lemma_form_parses(negative, left, right, parse);
}

} // verus!
