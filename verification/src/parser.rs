//! The readers of the fields of one sample: a size with its unit, a pair of
//! sizes around a slash, a share in percent.
//!
//! None of them fails: a field that cannot be read counts as nothing.

use crate::number::{
    after_fraction, all_digits, capped, digit_run, digits_value, fraction_digits, has_sign,
    is_literal, pow10, read_literal, scaled_value, scan_literal, spells_inf, spells_nan, unsigned,
    Literal, MAX_FACTOR,
};
use crate::text::{
    after_first, before_first, chars_of, digit, ends_with, find_first, is_digit, is_whitespace,
    lemma_leading_is, lemma_trailing_is, replaced, replaced_copy, strip_trailing,
    strip_trailing_end, trim_span, trim_start, trimmed, whitespace,
};
use vstd::prelude::*;

verus! {

/// The units that a size is written in.
#[derive(Clone, Copy, PartialEq, Eq, Structural, Debug)]
pub enum Unit {
    /// `GiB`
    Gibibyte,
    /// `MiB`
    Mebibyte,
    /// `kB`
    Kilobyte,
    /// `B`
    Byte,
}

impl Unit {
    /// The letters that stand for the unit behind a number.
    pub open spec fn suffix(self) -> Seq<char> {
        match self {
            Unit::Gibibyte => seq!['G', 'i', 'B'],
            Unit::Mebibyte => seq!['M', 'i', 'B'],
            Unit::Kilobyte => seq!['k', 'B'],
            Unit::Byte => seq!['B'],
        }
    }

    /// How many bytes one of the unit is.
    pub open spec fn factor(self) -> nat {
        match self {
            Unit::Gibibyte => 1073741824,
            Unit::Mebibyte => 1048576,
            Unit::Kilobyte => 1024,
            Unit::Byte => 1,
        }
    }

    /// How many letters the unit is written with.
    pub fn suffix_len(self) -> (n: usize)
        ensures
            n == self.suffix().len(),
    {
        match self {
            Unit::Gibibyte => 3,
            Unit::Mebibyte => 3,
            Unit::Kilobyte => 2,
            Unit::Byte => 1,
        }
    }

    /// How many bytes one of the unit is.
    pub fn bytes(self) -> (n: u64)
        ensures
            n == self.factor(),
            1 <= n <= MAX_FACTOR,
    {
        match self {
            Unit::Gibibyte => 1073741824,
            Unit::Mebibyte => 1048576,
            Unit::Kilobyte => 1024,
            Unit::Byte => 1,
        }
    }
}

/// The unit that `s` ends with: the first of `GiB`, `MiB`, `kB` and `B`, tried
/// in this order, that the text ends with.
pub open spec fn unit_of(s: Seq<char>) -> Option<Unit> {
    if ends_with(s, Unit::Gibibyte.suffix()) {
        Some(Unit::Gibibyte)
    } else if ends_with(s, Unit::Mebibyte.suffix()) {
        Some(Unit::Mebibyte)
    } else if ends_with(s, Unit::Kilobyte.suffix()) {
        Some(Unit::Kilobyte)
    } else if ends_with(s, Unit::Byte.suffix()) {
        Some(Unit::Byte)
    } else {
        None
    }
}

/// The text in which the number of a size is read: what stands before the
/// unit, without the white space around it, with a period for each comma.
pub open spec fn number_text(s: Seq<char>, unit: Unit) -> Seq<char> {
    replaced(trimmed(s.take(s.len() - unit.suffix().len())), ',', '.')
}

/// The bytes that the size `s` stands for: its number times its unit, rounded
/// down and kept within `u64`; nothing where `s` ends with no unit or holds no
/// number before it.
pub open spec fn byte_size(s: Seq<char>) -> nat {
    match unit_of(s) {
        Some(unit) => match read_literal(number_text(s, unit)) {
            Some(literal) => literal.scaled(unit.factor()),
            None => 0,
        },
        None => 0,
    }
}

/// The two sizes of `s`: the one before its first slash, and the one between
/// its first slash and its second; nothing for the second where `s` holds no
/// slash. White space around each size is left out.
pub open spec fn pair_sizes(s: Seq<char>) -> (nat, nat) {
    (
        byte_size(trimmed(before_first(s, '/'))),
        match after_first(s, '/') {
            Some(rest) => byte_size(trimmed(before_first(rest, '/'))),
            None => 0,
        },
    )
}

/// The number literal of the share `s`: `s` without the percent signs at its
/// end, with a period for each comma; `0` where that is no number.
pub open spec fn percent_text(s: Seq<char>) -> Seq<char> {
    let text = replaced(strip_trailing(s, '%'), ',', '.');
    if is_literal(text) {
        text
    } else {
        seq!['0']
    }
}

/// The unit that `v[lo..hi]` ends with.
fn unit_at_end(v: &Vec<char>, lo: usize, hi: usize) -> (r: Option<Unit>)
    requires
        lo <= hi <= v.len(),
    ensures
        r == unit_of(v@.subrange(lo as int, hi as int)),
{
    let ghost s = v@.subrange(lo as int, hi as int);
    let n = hi - lo;
    if n == 0 || v[hi - 1] != 'B' {
        proof {
            if n > 0 {
                assert(s[s.len() - 1] == v@[hi - 1]);
                if n >= 3 {
                    assert(s.skip(s.len() - 3)[2] == s[s.len() - 1]);
                }
                if n >= 2 {
                    assert(s.skip(s.len() - 2)[1] == s[s.len() - 1]);
                }
                assert(s.skip(s.len() - 1)[0] == s[s.len() - 1]);
            }
        }
        return None;
    }
    assert(s.skip(s.len() - 1) == seq!['B']);
    if n >= 2 {
        assert(s.skip(s.len() - 2)[0] == v@[hi - 2]);
        assert(s.skip(s.len() - 2)[1] == v@[hi - 1]);
    }
    if n >= 3 {
        assert(s.skip(s.len() - 3)[0] == v@[hi - 3]);
        assert(s.skip(s.len() - 3)[1] == v@[hi - 2]);
        assert(s.skip(s.len() - 3)[2] == v@[hi - 1]);
    }
    if n >= 3 && v[hi - 2] == 'i' && v[hi - 3] == 'G' {
        assert(s.skip(s.len() - 3) == seq!['G', 'i', 'B']);
        Some(Unit::Gibibyte)
    } else if n >= 3 && v[hi - 2] == 'i' && v[hi - 3] == 'M' {
        assert(s.skip(s.len() - 3) == seq!['M', 'i', 'B']);
        Some(Unit::Mebibyte)
    } else if n >= 2 && v[hi - 2] == 'k' {
        assert(s.skip(s.len() - 2) == seq!['k', 'B']);
        Some(Unit::Kilobyte)
    } else {
        Some(Unit::Byte)
    }
}

/// The bytes that the size `v[lo..hi]` stands for.
fn span_bytes(v: &Vec<char>, lo: usize, hi: usize) -> (n: u64)
    requires
        lo <= hi <= v.len(),
    ensures
        n == byte_size(v@.subrange(lo as int, hi as int)),
{
    let ghost s = v@.subrange(lo as int, hi as int);
    match unit_at_end(v, lo, hi) {
        None => 0,
        Some(unit) => {
            let end: usize = hi - unit.suffix_len();
            assert(v@.subrange(lo as int, end as int) == s.take(s.len() - unit.suffix().len()));
            let (a, b) = trim_span(v, lo, end);
            let text = replaced_copy(v, a, b, ',', '.');
            match scan_literal(&text) {
                Some(span) => scaled_value(&text, &span, unit.bytes()),
                None => 0,
            }
        },
    }
}

/// Reads a size such as `4.2MiB`: a number, then one of the units `GiB`,
/// `MiB`, `kB` and `B`. The number may have a comma for its decimal point and
/// white space around it. Gives the bytes, rounded down and at most
/// `u64::MAX`; gives 0 where the text ends with no unit or holds no number
/// before it.
pub fn parse_bytes(s: &str) -> (n: u64)
    ensures
        n == byte_size(s@),
{
    let v = chars_of(s);
    assert(v@.subrange(0, v@.len() as int) == v@);
    span_bytes(&v, 0, v.len())
}

/// Reads two sizes with a slash between them, such as `1.2kB / 3.4kB`, each
/// as `parse_bytes` reads it once the white space around it is left out. A
/// text without a slash gives 0 for the second size; what follows a second
/// slash is not read.
pub fn parse_io(s: &str) -> (r: (u64, u64))
    ensures
        r.0 == pair_sizes(s@).0,
        r.1 == pair_sizes(s@).1,
{
    let v = chars_of(s);
    let n = v.len();
    assert(v@.subrange(0, n as int) == v@);
    let cut = find_first(&v, 0, n, '/');
    let (a, b) = trim_span(&v, 0, cut);
    let first = span_bytes(&v, a, b);
    let second = if cut < n {
        assert(v@.subrange(cut + 1, n as int) == v@.skip(cut + 1));
        let next = find_first(&v, cut + 1, n, '/');
        let (c, d) = trim_span(&v, cut + 1, next);
        span_bytes(&v, c, d)
    } else {
        0
    };
    (first, second)
}

/// The text `s[..end]` with a period for each comma, where `v` holds the
/// characters of `s`.
fn text_with_periods(s: &str, v: &Vec<char>, end: usize) -> (out: String)
    requires
        v@ == s@,
        end <= v.len(),
    ensures
        out@ == replaced(v@.take(end as int), ',', '.'),
{
    let ghost whole = replaced(v@.take(end as int), ',', '.');
    let mut out = String::new();
    let mut start: usize = 0;
    let mut i: usize = 0;
    proof {
        reveal_strlit(".");
    }
    while i < end
        invariant
            start <= i <= end <= v.len(),
            v@ == s@,
            "."@ == seq!['.'],
            whole == replaced(v@.take(end as int), ',', '.'),
            out@ == whole.take(start as int),
            forall|k: int| start <= k < i ==> #[trigger] v@[k] != ',',
        decreases end - i,
    {
        if v[i] == ',' {
            out.append(s.substring_char(start, i));
            out.append(".");
            assert(out@ == whole.take(i + 1)) by {
                assert(out@.len() == i + 1);
                assert forall|k: int| 0 <= k < i + 1 implies out@[k] == whole[k] by {
                    if k >= start && k < i {
                        assert(v@[k] != ',');
                    }
                }
            }
            start = i + 1;
        }
        i += 1;
    }
    out.append(s.substring_char(start, end));
    assert(out@ == whole) by {
        assert(out@.len() == end);
        assert forall|k: int| 0 <= k < end implies out@[k] == whole[k] by {
            if k >= start {
                assert(v@[k] != ',');
            }
        }
    }
    out
}

/// Reads a share such as `45.30%` and gives its number as a number literal:
/// the text without the percent signs at its end, with a period for each
/// comma. Gives `0` where that is no number. White space is not left out: a
/// share with white space in it is no number.
pub fn parse_percent(s: &str) -> (r: String)
    ensures
        r@ == percent_text(s@),
        is_literal(r@),
{
    let v = chars_of(s);
    let n = v.len();
    assert(v@.subrange(0, n as int) == v@);
    let end = strip_trailing_end(&v, 0, n, '%');
    assert(v@.subrange(0, end as int) == v@.take(end as int));
    let text = replaced_copy(&v, 0, end, ',', '.');
    match scan_literal(&text) {
        Some(_) => text_with_periods(s, &v, end),
        None => {
            proof {
                reveal_strlit("0");
                lemma_zero_is_literal();
            }
            String::from_str("0")
        },
    }
}

/// `0` is a number literal.
proof fn lemma_zero_is_literal()
    ensures
        is_literal(seq!['0']),
{
    lemma_read_whole(seq!['0']);
}

/// A character that a plain decimal number is written with: a digit, a
/// period or a comma.
spec fn is_plain(c: char) -> bool {
    is_digit(c) || c == '.' || c == ','
}

/// A unit written behind a text that ends in a digit, a period or a comma is
/// the unit that the whole is read with, and the text is what is left for
/// the number.
proof fn lemma_unit_of_suffixed(body: Seq<char>, unit: Unit)
    requires
        body.len() > 0,
        is_plain(body.last()),
    ensures
        unit_of(body + unit.suffix()) == Some(unit),
        (body + unit.suffix()).take((body + unit.suffix()).len() - unit.suffix().len()) == body,
{
    let s = body + unit.suffix();
    let n = s.len() as int;
    let k = unit.suffix().len() as int;
    assert(s.skip(n - k) == unit.suffix());
    assert(s.take(n - k) == body);
    assert(s[n - k - 1] == body.last());
    assert(s[n - k] == unit.suffix()[0]);
    if n >= 3 {
        assert(s.skip(n - 3)[0] == s[n - 3]);
        assert(s.skip(n - 3)[1] == s[n - 2]);
    }
    assert(s.skip(n - 2)[0] == s[n - 2]);
}

/// A text that neither starts nor ends with white space is its own trimming.
proof fn lemma_trimmed_same(s: Seq<char>)
    requires
        s.len() > 0,
        !is_whitespace(s[0]),
        !is_whitespace(s.last()),
    ensures
        trimmed(s) == s,
{
    lemma_leading_is(s, whitespace(), 0);
    assert(trim_start(s) == s);
    lemma_trailing_is(s, whitespace(), 0);
    assert(s.take(s.len() as int) == s);
}

/// Digits, a period and more digits are read as the number they write down
/// at sight, with no sign and no exponent.
proof fn lemma_read_decimal(whole: Seq<char>, frac: Seq<char>)
    requires
        all_digits(whole),
        all_digits(frac),
        whole.len() + frac.len() > 0,
    ensures
        read_literal(whole + seq!['.'] + frac) == Some(
            Literal::Finite {
                negative: false,
                whole,
                frac,
                exp_negative: false,
                exp: Seq::<char>::empty(),
            },
        ),
{
    let s = whole + seq!['.'] + frac;
    let w = whole.len() as int;
    assert(s[w] == '.');
    assert forall|i: int| 0 <= i < w implies digit()(#[trigger] s[i]) by {
        assert(s[i] == whole[i]);
    }
    assert(!has_sign(s));
    assert(unsigned(s) == s);
    assert(!spells_nan(s));
    assert(!spells_inf(s));
    lemma_leading_is(s, digit(), w);
    assert(digit_run(s) == whole);
    let rest = s.skip(w);
    assert(rest[0] == '.');
    assert(rest.skip(1) == frac);
    assert forall|i: int| 0 <= i < frac.len() implies digit()(#[trigger] frac[i]) by {}
    lemma_leading_is(frac, digit(), frac.len() as int);
    assert(digit_run(frac) == frac);
    assert(fraction_digits(rest) == frac);
    assert(after_fraction(rest) == Seq::<char>::empty());
}

/// Digits alone are read as the whole number they write down.
proof fn lemma_read_whole(whole: Seq<char>)
    requires
        all_digits(whole),
        whole.len() > 0,
    ensures
        read_literal(whole) == Some(
            Literal::Finite {
                negative: false,
                whole,
                frac: Seq::<char>::empty(),
                exp_negative: false,
                exp: Seq::<char>::empty(),
            },
        ),
{
    let w = whole.len() as int;
    assert(is_digit(whole[0]));
    assert forall|i: int| 0 <= i < w implies digit()(#[trigger] whole[i]) by {}
    assert(unsigned(whole) == whole);
    lemma_leading_is(whole, digit(), w);
    assert(digit_run(whole) == whole);
    assert(whole.skip(w) == Seq::<char>::empty());
}

/// A size written as a plain decimal number and a unit is worth the number
/// times the unit, rounded down: for digits `whole`, a period or a comma,
/// digits `frac`, and then the unit, the bytes are the digits of `whole` and
/// `frac` read as one number, times the unit, divided by ten for each digit of
/// `frac`. The result is that number exactly where it fits in `u64`, and
/// `u64::MAX` where it does not.
pub proof fn lemma_size_of_decimal(whole: Seq<char>, point: char, frac: Seq<char>, unit: Unit)
    requires
        all_digits(whole),
        all_digits(frac),
        whole.len() + frac.len() > 0,
        point == '.' || point == ',',
    ensures
        byte_size(whole + seq![point] + frac + unit.suffix()) == capped(
            (digits_value(whole + frac) * unit.factor()) / pow10(frac.len()),
        ),
        (digits_value(whole + frac) * unit.factor()) / pow10(frac.len()) <= u64::MAX
            ==> byte_size(whole + seq![point] + frac + unit.suffix()) == (digits_value(
            whole + frac,
        ) * unit.factor()) / pow10(frac.len()),
{
    let body = whole + seq![point] + frac;
    let s = body + unit.suffix();
    let w = whole.len() as int;
    assert(body[w] == point);
    assert forall|i: int| 0 <= i < body.len() implies is_plain(#[trigger] body[i]) by {
        if i < w {
            assert(body[i] == whole[i]);
        } else if i > w {
            assert(body[i] == frac[i - w - 1]);
        }
    }
    assert(is_plain(body[0]));
    assert(is_plain(body.last()));
    lemma_unit_of_suffixed(body, unit);
    lemma_trimmed_same(body);
    let text = whole + seq!['.'] + frac;
    assert(replaced(body, ',', '.') == text) by {
        assert forall|i: int| 0 <= i < body.len() implies replaced(body, ',', '.')[i] == text[i] by {
            if i < w {
                assert(body[i] == whole[i]);
                assert(is_digit(whole[i]));
            } else if i > w {
                assert(body[i] == frac[i - w - 1]);
                assert(is_digit(frac[i - w - 1]));
            }
        }
    }
    assert(number_text(s, unit) == text);
    lemma_read_decimal(whole, frac);
    assert(digits_value(Seq::<char>::empty()) == 0);
    let x = digits_value(whole + frac) * unit.factor();
    if frac.len() == 0 {
        assert(pow10(0) == 1);
        assert(x * 1 == x / 1);
    }
}

/// A size written as a whole number and a unit is worth the number times
/// the unit: exactly where that fits in `u64`, and `u64::MAX` where it does
/// not.
pub proof fn lemma_size_of_whole(whole: Seq<char>, unit: Unit)
    requires
        all_digits(whole),
        whole.len() > 0,
    ensures
        byte_size(whole + unit.suffix()) == capped(digits_value(whole) * unit.factor()),
{
    let s = whole + unit.suffix();
    assert(is_digit(whole[0]));
    assert(is_digit(whole.last()));
    lemma_unit_of_suffixed(whole, unit);
    lemma_trimmed_same(whole);
    assert(replaced(whole, ',', '.') == whole) by {
        assert forall|i: int| 0 <= i < whole.len() implies replaced(whole, ',', '.')[i]
            == whole[i] by {
            assert(is_digit(whole[i]));
        }
    }
    assert(number_text(s, unit) == whole);
    lemma_read_whole(whole);
    assert(whole + Seq::<char>::empty() == whole);
    assert(digits_value(Seq::<char>::empty()) == 0);
    assert(pow10(0) == 1);
    let x = digits_value(whole) * unit.factor();
    assert(x * 1 == x);
}

} // verus!
