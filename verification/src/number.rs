//! Decimal number literals: which texts are numbers, and what a number is
//! worth in whole units after scaling.
//!
//! A literal is read exactly: its worth is the rational number that its
//! digits and exponent write down, with no rounding before it is scaled.

use crate::text::{
    char_digit_value, char_is_digit, digit, digit_value, is_digit, leading, lemma_leading_bounds,
    lemma_leading_is,
};
use vstd::arithmetic::div_mod::{
    lemma_div_denominator, lemma_fundamental_div_mod, lemma_hoist_over_denominator,
};
use vstd::prelude::*;

verus! {

/// Ten to the power of `n`.
pub open spec fn pow10(n: nat) -> nat
    decreases n,
{
    if n == 0 {
        1
    } else {
        10 * pow10((n - 1) as nat)
    }
}

/// Every character of `s` is a decimal digit.
pub open spec fn all_digits(s: Seq<char>) -> bool {
    forall|i: int| 0 <= i < s.len() ==> is_digit(#[trigger] s[i])
}

/// The number that the digits of `s` write down, most significant first.
pub open spec fn digits_value(s: Seq<char>) -> nat
    decreases s.len(),
{
    if s.len() == 0 {
        0
    } else {
        10 * digits_value(s.drop_last()) + digit_value(s.last())
    }
}

/// `n` times ten to the power of `by`, rounded down to a whole number.
pub open spec fn shifted(n: nat, by: int) -> nat {
    if by >= 0 {
        n * pow10(by as nat)
    } else {
        n / pow10((-by) as nat)
    }
}

/// The whole units that `digits`, read as a fraction behind the point, carry
/// over once they are scaled by `factor`.
pub(crate) open spec fn carried(digits: Seq<char>, factor: nat) -> nat {
    (digits_value(digits) * factor) / pow10(digits.len())
}

/// `n`, or the largest `u64` where `n` lies above it.
pub open spec fn capped(n: nat) -> nat {
    if n > u64::MAX {
        u64::MAX as nat
    } else {
        n
    }
}

/// A number literal taken apart.
pub enum Literal {
    /// `nan`, in any mix of cases.
    NotANumber,
    /// `inf` or `infinity`, in any mix of cases.
    Infinite { negative: bool },
    /// Digits with an optional point and an optional exponent.
    Finite {
        negative: bool,
        /// The digits before the point.
        whole: Seq<char>,
        /// The digits after the point.
        frac: Seq<char>,
        exp_negative: bool,
        /// The digits of the exponent; none where the literal has no exponent.
        exp: Seq<char>,
    },
}

impl Literal {
    /// The parts hold digits only, and at least one digit stands beside the point.
    pub open spec fn wf(self) -> bool {
        match self {
            Literal::Finite { whole, frac, exp, .. } => {
                &&& all_digits(whole)
                &&& all_digits(frac)
                &&& all_digits(exp)
                &&& whole.len() + frac.len() > 0
            },
            _ => true,
        }
    }

    /// The whole units in the literal's worth times `factor`, kept within `u64`:
    /// nothing for a negative number and for `nan`, the largest `u64` for
    /// anything at or above it.
    pub open spec fn scaled(self, factor: nat) -> nat {
        match self {
            Literal::NotANumber => 0,
            Literal::Infinite { negative } => if negative {
                0
            } else {
                u64::MAX as nat
            },
            Literal::Finite { negative, whole, frac, exp_negative, exp } => if negative {
                0
            } else {
                capped(
                    shifted(
                        digits_value(whole + frac) * factor,
                        signed(exp_negative, digits_value(exp)) - frac.len(),
                    ),
                )
            },
        }
    }
}

/// `n` with the sign that `negative` tells.
pub open spec fn signed(negative: bool, n: nat) -> int {
    if negative {
        -(n as int)
    } else {
        n as int
    }
}

/// `s` starts with a sign.
pub open spec fn has_sign(s: Seq<char>) -> bool {
    s.len() > 0 && (s[0] == '+' || s[0] == '-')
}

/// `s` starts with a minus sign.
pub open spec fn has_minus(s: Seq<char>) -> bool {
    s.len() > 0 && s[0] == '-'
}

/// `s` without the sign at its front, if it has one.
pub open spec fn unsigned(s: Seq<char>) -> Seq<char> {
    if has_sign(s) {
        s.skip(1)
    } else {
        s
    }
}

/// `c` is the lower-case letter `l` or its upper-case form.
pub open spec fn is_letter(c: char, l: char) -> bool {
    c == l || c as u32 == l as u32 - 32
}

/// `s` spells `nan`, in any mix of cases.
pub open spec fn spells_nan(s: Seq<char>) -> bool {
    &&& s.len() == 3
    &&& is_letter(s[0], 'n')
    &&& is_letter(s[1], 'a')
    &&& is_letter(s[2], 'n')
}

/// `s` spells `inf` or `infinity`, in any mix of cases.
pub open spec fn spells_inf(s: Seq<char>) -> bool {
    &&& s.len() == 3 || s.len() == 8
    &&& is_letter(s[0], 'i')
    &&& is_letter(s[1], 'n')
    &&& is_letter(s[2], 'f')
    &&& s.len() == 8 ==> {
        &&& is_letter(s[3], 'i')
        &&& is_letter(s[4], 'n')
        &&& is_letter(s[5], 'i')
        &&& is_letter(s[6], 't')
        &&& is_letter(s[7], 'y')
    }
}

/// The digits at the front of `s`.
pub open spec fn digit_run(s: Seq<char>) -> Seq<char> {
    s.take(leading(s, digit()) as int)
}

/// `s` starts with a decimal point.
pub open spec fn has_point(s: Seq<char>) -> bool {
    s.len() > 0 && s[0] == '.'
}

/// `s` starts with the letter that opens an exponent.
pub open spec fn has_exponent_mark(s: Seq<char>) -> bool {
    s.len() > 0 && (s[0] == 'e' || s[0] == 'E')
}

/// The digits after the point at the front of `s`; none where `s` starts
/// with no point.
pub open spec fn fraction_digits(s: Seq<char>) -> Seq<char> {
    if has_point(s) {
        digit_run(s.skip(1))
    } else {
        Seq::<char>::empty()
    }
}

/// `s` without the point at its front and the digits that follow it.
pub open spec fn after_fraction(s: Seq<char>) -> Seq<char> {
    if has_point(s) {
        s.skip(1 + fraction_digits(s).len() as int)
    } else {
        s
    }
}

/// The exponent that `tail` writes down, as its sign and its digits, if all
/// of `tail` is one: nothing at all, or `e` or `E`, an optional sign and at
/// least one digit.
pub open spec fn read_exponent(tail: Seq<char>) -> Option<(bool, Seq<char>)> {
    if tail.len() == 0 {
        Some((false, Seq::<char>::empty()))
    } else if has_exponent_mark(tail) && unsigned(tail.skip(1)).len() > 0 && all_digits(
        unsigned(tail.skip(1)),
    ) {
        Some((has_minus(tail.skip(1)), unsigned(tail.skip(1))))
    } else {
        None
    }
}

/// The literal that the unsigned text `body` writes down, if it is all digits,
/// point and exponent:
/// digits, then optionally a point and more digits, with a digit on at least
/// one side of the point, then optionally an exponent.
pub open spec fn read_finite(body: Seq<char>, negative: bool) -> Option<Literal> {
    let whole = digit_run(body);
    let rest = body.skip(whole.len() as int);
    let frac = fraction_digits(rest);
    if whole.len() + frac.len() == 0 {
        None
    } else {
        match read_exponent(after_fraction(rest)) {
            Some((exp_negative, exp)) => Some(
                Literal::Finite { negative, whole, frac, exp_negative, exp },
            ),
            None => None,
        }
    }
}

/// The literal that `s` writes down, if all of `s` is one: an optional sign,
/// then `nan`, `inf`, `infinity`, or digits with point and exponent.
pub open spec fn read_literal(s: Seq<char>) -> Option<Literal> {
    let body = unsigned(s);
    if spells_nan(body) {
        Some(Literal::NotANumber)
    } else if spells_inf(body) {
        Some(Literal::Infinite { negative: has_minus(s) })
    } else {
        read_finite(body, has_minus(s))
    }
}

/// `s` is a number literal.
pub open spec fn is_literal(s: Seq<char>) -> bool {
    read_literal(s) is Some
}

/// What is read from a text is well formed.
proof fn lemma_read_literal_wf(s: Seq<char>)
    ensures
        read_literal(s) matches Some(l) ==> l.wf(),
{
    let body = unsigned(s);
    lemma_leading_bounds(body, digit());
    let rest = body.skip(digit_run(body).len() as int);
    if has_point(rest) {
        lemma_leading_bounds(rest.skip(1), digit());
    }
}

/// A power of ten is at least one.
pub(crate) proof fn lemma_pow10_positive(n: nat)
    ensures
        pow10(n) >= 1,
    decreases n,
{
    if n > 0 {
        lemma_pow10_positive((n - 1) as nat);
    }
}

/// Powers of ten multiply as their exponents add.
pub(crate) proof fn lemma_pow10_adds(a: nat, b: nat)
    ensures
        pow10(a + b) == pow10(a) * pow10(b),
    decreases a,
{
    if a == 0 {
        assert(pow10(a + b) == 1 * pow10(b));
    } else {
        lemma_pow10_adds((a - 1) as nat, b);
        assert(pow10(a + b) == 10 * pow10((a + b - 1) as nat));
        assert(10 * (pow10((a - 1) as nat) * pow10(b)) == (10 * pow10((a - 1) as nat)) * pow10(b))
            by (nonlinear_arith);
    }
}

/// A larger exponent gives no smaller power of ten.
pub(crate) proof fn lemma_pow10_grows(a: nat, b: nat)
    requires
        a <= b,
    ensures
        pow10(a) <= pow10(b),
    decreases b,
{
    if a < b {
        lemma_pow10_grows(a, (b - 1) as nat);
    }
}

/// Ten to the tenth lies above every factor in use, ten to the twentieth
/// above every `u64`.
pub(crate) proof fn lemma_pow10_marks()
    ensures
        pow10(10) == 10_000_000_000,
        pow10(20) == 100_000_000_000_000_000_000,
{
    reveal_with_fuel(pow10, 11);
    assert(pow10(10) == 10_000_000_000);
    assert(pow10(20) == pow10(10) * pow10(10)) by {
        lemma_pow10_adds(10, 10);
    }
}

/// A digit written behind others counts once, and they ten times as much.
pub(crate) proof fn lemma_digits_push(s: Seq<char>, c: char)
    ensures
        digits_value(s.push(c)) == 10 * digits_value(s) + digit_value(c),
{
    assert(s.push(c).drop_last() == s);
}

/// Digits written side by side: the left ones count for as many places more
/// as there are digits on the right.
pub(crate) proof fn lemma_digits_concat(a: Seq<char>, b: Seq<char>)
    ensures
        digits_value(a + b) == digits_value(a) * pow10(b.len()) + digits_value(b),
    decreases b.len(),
{
    if b.len() == 0 {
        assert(a + b == a);
        assert(pow10(0) == 1);
        assert(digits_value(a) * 1 == digits_value(a));
    } else {
        let b0 = b.drop_last();
        let va = digits_value(a);
        let low = pow10(b0.len());
        assert((a + b).drop_last() == a + b0);
        assert((a + b).last() == b.last());
        lemma_digits_concat(a, b0);
        assert(digits_value(a + b) == 10 * digits_value(a + b0) + digit_value(b.last()));
        assert(digits_value(b) == 10 * digits_value(b0) + digit_value(b.last()));
        assert(pow10(b.len()) == 10 * low);
        assert(10 * (va * low + digits_value(b0)) == va * (10 * low) + 10 * digits_value(b0))
            by (nonlinear_arith);
    }
}

/// `n` digits write a number below ten to the `n`.
pub(crate) proof fn lemma_digits_bound(s: Seq<char>)
    requires
        all_digits(s),
    ensures
        digits_value(s) < pow10(s.len()),
    decreases s.len(),
{
    if s.len() > 0 {
        let t = s.drop_last();
        assert forall|i: int| 0 <= i < t.len() implies is_digit(#[trigger] t[i]) by {
            assert(t[i] == s[i]);
        }
        lemma_digits_bound(t);
        assert(is_digit(s[s.len() - 1]));
    }
}

/// The whole units of a scaled number, counted apart on the two sides of a
/// cut after `cut` digits: what stands before the cut counts in full, what
/// stands after it only by the units it carries over.
pub(crate) proof fn lemma_shifted_splits(digits: Seq<char>, cut: int, factor: nat)
    requires
        0 <= cut <= digits.len(),
    ensures
        shifted(digits_value(digits) * factor, cut - digits.len()) == digits_value(
            digits.take(cut),
        ) * factor + carried(digits.skip(cut), factor),
{
    let head = digits.take(cut);
    let tail = digits.skip(cut);
    let p = pow10(tail.len());
    let i = digits_value(head);
    let r = digits_value(tail);
    assert(digits == head + tail);
    lemma_digits_concat(head, tail);
    lemma_pow10_positive(tail.len());
    if cut == digits.len() {
        assert(pow10(0) == 1);
        assert(r == 0);
        assert((0 * factor) / 1 == 0);
        assert(i * factor * 1 == i * factor + 0);
    } else {
        assert((i * p + r) * factor == r * factor + (i * factor) * p) by (nonlinear_arith);
        lemma_hoist_over_denominator((r * factor) as int, (i * factor) as int, p);
    }
}

/// One step of carrying units over from the digits after a cut: a digit put
/// in front of `rest` brings a tenth of its own scaled worth and of what
/// `rest` carried.
pub(crate) proof fn lemma_carry_step(c: char, rest: Seq<char>, factor: nat)
    ensures
        carried(seq![c] + rest, factor) == (digit_value(c) * factor + carried(rest, factor)) / 10,
{
    let p = pow10(rest.len());
    let d = digit_value(c);
    let x = digits_value(rest) * factor;
    lemma_pow10_positive(rest.len());
    lemma_digits_concat(seq![c], rest);
    assert(digits_value(seq![c]) == d) by {
        assert(seq![c].drop_last() == Seq::<char>::empty());
        assert(digits_value(Seq::<char>::empty()) == 0);
    }
    let n = digits_value(seq![c] + rest) * factor;
    assert(n == x + (d * factor) * p) by (nonlinear_arith)
        requires
            n == (d * p + digits_value(rest)) * factor,
            x == digits_value(rest) * factor,
    ;
    lemma_hoist_over_denominator(x as int, (d * factor) as int, p);
    lemma_div_denominator(n as int, p as int, 10);
    assert(pow10(rest.len() + 1) == 10 * p);
    assert(p * 10 == 10 * p);
}

/// Digits behind the point carry over less than one unit for each unit of
/// the factor.
pub(crate) proof fn lemma_carried_bound(digits: Seq<char>, factor: nat)
    requires
        all_digits(digits),
        factor >= 1,
    ensures
        carried(digits, factor) < factor,
{
    lemma_digits_bound(digits);
    let m = digits_value(digits);
    let p = pow10(digits.len());
    let c = carried(digits, factor);
    lemma_fundamental_div_mod((m * factor) as int, p as int);
    assert(c < factor) by (nonlinear_arith)
        requires
            m * factor == p * c + (m * factor) % p,
            (m * factor) % p >= 0,
            m < p,
            factor >= 1,
            c >= 0,
    ;
}

/// Where the parts of a literal lie in the text that it was read from, each
/// part as the places of its first character and of the one after its last.
pub(crate) enum LiteralSpan {
    NotANumber,
    Infinite { negative: bool },
    Finite {
        negative: bool,
        whole: (usize, usize),
        frac: (usize, usize),
        exp_negative: bool,
        exp: (usize, usize),
    },
}

impl LiteralSpan {
    /// Every part lies within a text of `len` characters.
    pub(crate) open spec fn within(self, len: nat) -> bool {
        match self {
            LiteralSpan::Finite { whole, frac, exp, .. } => {
                &&& whole.0 <= whole.1 <= len
                &&& frac.0 <= frac.1 <= len
                &&& exp.0 <= exp.1 <= len
            },
            _ => true,
        }
    }

    /// The literal that these places cut out of `s`.
    pub(crate) open spec fn of(self, s: Seq<char>) -> Literal {
        match self {
            LiteralSpan::NotANumber => Literal::NotANumber,
            LiteralSpan::Infinite { negative } => Literal::Infinite { negative },
            LiteralSpan::Finite { negative, whole, frac, exp_negative, exp } => Literal::Finite {
                negative,
                whole: s.subrange(whole.0 as int, whole.1 as int),
                frac: s.subrange(frac.0 as int, frac.1 as int),
                exp_negative,
                exp: s.subrange(exp.0 as int, exp.1 as int),
            },
        }
    }
}

/// Where the run of digits that starts at `from` ends.
fn digits_end(v: &Vec<char>, from: usize) -> (end: usize)
    requires
        from <= v.len(),
    ensures
        from <= end <= v.len(),
        end - from == leading(v@.skip(from as int), digit()),
        v@.subrange(from as int, end as int) == digit_run(v@.skip(from as int)),
        all_digits(v@.subrange(from as int, end as int)),
        end == v.len() || !is_digit(v@[end as int]),
{
    let ghost s = v@.skip(from as int);
    let mut end: usize = from;
    while end < v.len() && char_is_digit(v[end])
        invariant
            from <= end <= v.len(),
            forall|i: int| from <= i < end ==> is_digit(#[trigger] v@[i]),
        decreases v.len() - end,
    {
        end += 1;
    }
    proof {
        assert forall|i: int| 0 <= i < end - from implies digit()(#[trigger] s[i]) by {
            assert(s[i] == v@[from + i]);
        }
        lemma_leading_is(s, digit(), end - from);
        assert(v@.subrange(from as int, end as int) == s.take(end - from));
    }
    end
}

/// Whether `v[at]` is the lower-case letter `l` or its upper-case form.
fn letter_at(v: &Vec<char>, at: usize, l: char) -> (b: bool)
    requires
        at < v.len(),
    ensures
        b == is_letter(v@[at as int], l),
{
    let c = v[at];
    c == l || (l as u32 >= 32 && c as u32 == l as u32 - 32)
}

/// Whether `v[from..]` spells `nan`.
fn span_spells_nan(v: &Vec<char>, from: usize) -> (b: bool)
    requires
        from <= v.len(),
    ensures
        b == spells_nan(v@.skip(from as int)),
{
    v.len() - from == 3 && letter_at(v, from, 'n') && letter_at(v, from + 1, 'a') && letter_at(
        v,
        from + 2,
        'n',
    )
}

/// Whether `v[from..]` spells `inf` or `infinity`.
fn span_spells_inf(v: &Vec<char>, from: usize) -> (b: bool)
    requires
        from <= v.len(),
    ensures
        b == spells_inf(v@.skip(from as int)),
{
    let n = v.len() - from;
    if n != 3 && n != 8 {
        return false;
    }
    if !(letter_at(v, from, 'i') && letter_at(v, from + 1, 'n') && letter_at(v, from + 2, 'f')) {
        return false;
    }
    n == 3 || (letter_at(v, from + 3, 'i') && letter_at(v, from + 4, 'n') && letter_at(
        v,
        from + 5,
        'i',
    ) && letter_at(v, from + 6, 't') && letter_at(v, from + 7, 'y'))
}

/// Reads `v[from..]` as an exponent and tells its sign and where its digits
/// start; they end where `v` ends.
fn scan_exponent(v: &Vec<char>, from: usize) -> (r: Option<(bool, usize)>)
    requires
        from <= v.len(),
    ensures
        match r {
            Some((negative, start)) => from <= start <= v.len() && read_exponent(
                v@.skip(from as int),
            ) == Some((negative, v@.subrange(start as int, v@.len() as int))),
            None => read_exponent(v@.skip(from as int)) is None,
        },
{
    let n = v.len();
    let ghost tail = v@.skip(from as int);
    if from == n {
        assert(v@.subrange(n as int, n as int) == Seq::<char>::empty());
        return Some((false, n));
    }
    if v[from] != 'e' && v[from] != 'E' {
        return None;
    }
    let mark_end: usize = from + 1;
    let ghost signed_exp = tail.skip(1);
    assert(signed_exp == v@.skip(mark_end as int));
    let with_sign = mark_end < n && (v[mark_end] == '+' || v[mark_end] == '-');
    let negative = mark_end < n && v[mark_end] == '-';
    let start: usize = if with_sign {
        mark_end + 1
    } else {
        mark_end
    };
    let ghost exp = unsigned(signed_exp);
    assert(exp == v@.skip(start as int));
    let end = digits_end(v, start);
    if start < n && end == n {
        assert(exp == v@.subrange(start as int, n as int));
        Some((negative, start))
    } else {
        proof {
            if start < n {
                assert(exp[end - start] == v@[end as int]);
            }
        }
        None
    }
}

/// Reads `v[start..]` as digits with point and exponent.
fn scan_finite(v: &Vec<char>, start: usize, negative: bool) -> (r: Option<LiteralSpan>)
    requires
        start <= v.len(),
    ensures
        match r {
            Some(span) => span.within(v@.len()) && read_finite(v@.skip(start as int), negative)
                == Some(span.of(v@)),
            None => read_finite(v@.skip(start as int), negative) is None,
        },
{
    let n = v.len();
    let ghost body = v@.skip(start as int);
    let whole_end = digits_end(v, start);
    let ghost rest = body.skip(whole_end - start);
    assert(rest == v@.skip(whole_end as int));
    let pointed = whole_end < n && v[whole_end] == '.';
    assert(pointed == has_point(rest));
    let frac_start: usize = if pointed {
        whole_end + 1
    } else {
        whole_end
    };
    let frac_end: usize = if pointed {
        digits_end(v, frac_start)
    } else {
        frac_start
    };
    assert(fraction_digits(rest) == v@.subrange(frac_start as int, frac_end as int)) by {
        if pointed {
            assert(rest.skip(1) == v@.skip(frac_start as int));
        }
    }
    assert(after_fraction(rest) == v@.skip(frac_end as int));
    if whole_end - start == 0 && frac_end - frac_start == 0 {
        return None;
    }
    match scan_exponent(v, frac_end) {
        Some((exp_negative, exp_start)) => Some(
            LiteralSpan::Finite {
                negative,
                whole: (start, whole_end),
                frac: (frac_start, frac_end),
                exp_negative,
                exp: (exp_start, n),
            },
        ),
        None => None,
    }
}

/// Reads all of `v` as one number literal and tells where its parts lie.
pub(crate) fn scan_literal(v: &Vec<char>) -> (r: Option<LiteralSpan>)
    ensures
        match r {
            Some(span) => span.within(v@.len()) && read_literal(v@) == Some(span.of(v@))
                && span.of(v@).wf(),
            None => read_literal(v@) is None,
        },
{
    let n = v.len();
    let with_sign = n > 0 && (v[0] == '+' || v[0] == '-');
    let negative = n > 0 && v[0] == '-';
    let start: usize = if with_sign {
        1
    } else {
        0
    };
    assert(unsigned(v@) == v@.skip(start as int));
    proof {
        lemma_read_literal_wf(v@);
    }
    if span_spells_nan(v, start) {
        Some(LiteralSpan::NotANumber)
    } else if span_spells_inf(v, start) {
        Some(LiteralSpan::Infinite { negative })
    } else {
        scan_finite(v, start, negative)
    }
}

/// The largest factor that a literal is scaled by.
pub const MAX_FACTOR: u64 = 1073741824;

/// One more than the largest `u64`: what a count is held at once it has left
/// the range of `u64`.
const OVER: u128 = 18446744073709551616;

/// What the magnitude of an exponent is held at once it has passed every
/// number of digits that a text can have.
const EXPONENT_LIMIT: u128 = 1208925819614629174706176;

/// `n`, or `OVER` where `n` lies at or above it.
spec fn clipped(n: nat) -> nat {
    if n >= OVER {
        OVER as nat
    } else {
        n
    }
}

/// Where the decimal point falls among `n` digits, `point` places after the
/// first: how many of the digits stand before it, how many zeros are to be
/// added behind them, and how many zeros stand between the point and the
/// first digit. Zeros are counted as far as they can matter: twenty behind,
/// ten in front.
spec fn placed(point: int, n: nat, cut: int, pad: nat, lead: nat) -> bool {
    if point >= n + 20 {
        cut == n && pad == 20 && lead == 0
    } else if point >= n {
        cut == n && pad == point - n && lead == 0
    } else if point >= 0 {
        cut == point && pad == 0 && lead == 0
    } else if point > -10 {
        cut == 0 && pad == 0 && lead == -point
    } else {
        cut == 0 && pad == 0 && lead == 10
    }
}

/// Zeros added behind a number beyond the twentieth change nothing once the
/// result is capped.
proof fn lemma_capped_high(a: nat, k: nat)
    requires
        k >= 20,
    ensures
        capped(a * pow10(k)) == capped(a * pow10(20)),
{
    lemma_pow10_marks();
    lemma_pow10_grows(20, k);
    if a == 0 {
        assert(a * pow10(k) == 0);
        assert(a * pow10(20) == 0);
    } else {
        assert(a * pow10(k) >= pow10(k)) by (nonlinear_arith)
            requires
                a >= 1,
        ;
        assert(a * pow10(20) >= pow10(20)) by (nonlinear_arith)
            requires
                a >= 1,
        ;
    }
}

/// The scaled worth of `digits` with the point `point` places after the
/// first digit, counted on the two sides of the point.
proof fn lemma_units_by_parts(
    digits: Seq<char>,
    point: int,
    factor: nat,
    cut: int,
    pad: nat,
    lead: nat,
)
    requires
        all_digits(digits),
        1 <= factor <= MAX_FACTOR,
        placed(point, digits.len(), cut, pad, lead),
    ensures
        0 <= cut <= digits.len(),
        capped(shifted(digits_value(digits) * factor, point - digits.len())) == capped(
            digits_value(digits.take(cut)) * factor * pow10(pad) + carried(
                digits.skip(cut),
                factor,
            ) / pow10(lead),
        ),
{
    let n = digits.len();
    let m = digits_value(digits);
    let x = m * factor;
    lemma_pow10_marks();
    lemma_pow10_positive(n);
    lemma_pow10_positive(lead);
    assert(pow10(0) == 1);
    assert(digits_value(Seq::<char>::empty()) == 0);
    if point >= n {
        assert(digits.take(n as int) == digits);
        assert(digits.skip(n as int) == Seq::<char>::empty());
        assert((0 * factor) / 1 / 1 == 0);
        assert(x * pow10((point - n) as nat) == m * factor * pow10((point - n) as nat));
        if point >= n + 20 {
            lemma_capped_high(x, (point - n) as nat);
        }
    } else if point >= 0 {
        lemma_shifted_splits(digits, point, factor);
        let i = digits_value(digits.take(point)) * factor;
        let c = carried(digits.skip(point), factor);
        assert(i * 1 == i);
        assert(c / 1 == c);
    } else {
        assert(digits.take(0) == Seq::<char>::empty());
        assert(digits.skip(0) == digits);
        assert(0 * factor * 1 == 0);
        let back = (-point) as nat;
        lemma_pow10_positive(back);
        lemma_pow10_adds(n, back);
        lemma_div_denominator(x as int, pow10(n) as int, pow10(back) as int);
        assert(shifted(x, point - n) == carried(digits, factor) / pow10(back));
        if point <= -10 {
            lemma_carried_bound(digits, factor);
            let c = carried(digits, factor);
            lemma_pow10_grows(10, back);
            assert(c / pow10(back) == 0) by (nonlinear_arith)
                requires
                    0 <= c < pow10(back),
            ;
            assert(c / pow10(10) == 0);
        }
    }
}

/// The digits of `v[whole.0..whole.1]`, then those of `v[frac.0..frac.1]`.
fn gather_digits(v: &Vec<char>, whole: (usize, usize), frac: (usize, usize)) -> (d: Vec<char>)
    requires
        whole.0 <= whole.1 <= v.len(),
        frac.0 <= frac.1 <= v.len(),
    ensures
        d@ == v@.subrange(whole.0 as int, whole.1 as int) + v@.subrange(
            frac.0 as int,
            frac.1 as int,
        ),
{
    let mut d: Vec<char> = Vec::new();
    let mut i: usize = whole.0;
    while i < whole.1
        invariant
            whole.0 <= i <= whole.1 <= v.len(),
            d@ == v@.subrange(whole.0 as int, i as int),
        decreases whole.1 - i,
    {
        d.push(v[i]);
        i += 1;
    }
    let mut j: usize = frac.0;
    while j < frac.1
        invariant
            frac.0 <= j <= frac.1 <= v.len(),
            d@ == v@.subrange(whole.0 as int, whole.1 as int) + v@.subrange(
                frac.0 as int,
                j as int,
            ),
        decreases frac.1 - j,
    {
        d.push(v[j]);
        j += 1;
    }
    d
}

/// The number that the digits `v[lo..hi]` write down, held at
/// `EXPONENT_LIMIT` once it has reached it.
fn exponent_magnitude(v: &Vec<char>, lo: usize, hi: usize) -> (m: u128)
    requires
        lo <= hi <= v.len(),
        all_digits(v@.subrange(lo as int, hi as int)),
    ensures
        m == if digits_value(v@.subrange(lo as int, hi as int)) >= EXPONENT_LIMIT {
            EXPONENT_LIMIT as nat
        } else {
            digits_value(v@.subrange(lo as int, hi as int))
        },
{
    let ghost s = v@.subrange(lo as int, hi as int);
    let mut m: u128 = 0;
    let mut i: usize = lo;
    while i < hi
        invariant
            lo <= i <= hi <= v.len(),
            s == v@.subrange(lo as int, hi as int),
            all_digits(s),
            m <= EXPONENT_LIMIT,
            m == if digits_value(s.take(i - lo)) >= EXPONENT_LIMIT {
                EXPONENT_LIMIT as nat
            } else {
                digits_value(s.take(i - lo))
            },
        decreases hi - i,
    {
        assert(is_digit(s[i - lo]));
        let digit = char_digit_value(v[i]) as u128;
        proof {
            assert(s.take(i - lo + 1) == s.take(i - lo).push(s[i - lo]));
            lemma_digits_push(s.take(i - lo), s[i - lo]);
        }
        let next: u128 = m * 10 + digit;
        m = if next >= EXPONENT_LIMIT {
            EXPONENT_LIMIT
        } else {
            next
        };
        i += 1;
    }
    assert(s.take(hi - lo) == s);
    m
}

/// Where the decimal point falls among `n` digits of which `w` stand before
/// the written point, once the exponent has moved it.
fn place_point(w: usize, n: usize, exp_negative: bool, e: u128, Ghost(exponent): Ghost<nat>) -> (r:
    (usize, u32, u32))
    requires
        w <= n,
        e == if exponent >= EXPONENT_LIMIT {
            EXPONENT_LIMIT as nat
        } else {
            exponent
        },
    ensures
        placed(w + signed(exp_negative, exponent), n as nat, r.0 as int, r.1 as nat, r.2 as nat),
{
    if exp_negative {
        if e >= w as u128 + 10 {
            (0, 0, 10)
        } else if e > w as u128 {
            (0, 0, (e - w as u128) as u32)
        } else {
            (w - e as usize, 0, 0)
        }
    } else {
        let point: u128 = w as u128 + e;
        if point >= n as u128 + 20 {
            (n, 20, 0)
        } else if point >= n as u128 {
            (n, (point - n as u128) as u32, 0)
        } else {
            (point as usize, 0, 0)
        }
    }
}

/// The worth of the digits `d[..cut]` times `factor`, with `pad` zeros added
/// behind, held at `OVER` once it has left the range of `u64`.
fn integral_units(d: &Vec<char>, cut: usize, pad: u32, factor: u64) -> (r: u128)
    requires
        all_digits(d@),
        cut <= d.len(),
        pad <= 20,
        1 <= factor <= MAX_FACTOR,
    ensures
        r == clipped(digits_value(d@.take(cut as int)) * factor as nat * pow10(pad as nat)),
{
    let mut acc: u128 = 0;
    let mut i: usize = 0;
    assert(d@.take(0) == Seq::<char>::empty());
    while i < cut
        invariant
            0 <= i <= cut <= d.len(),
            all_digits(d@),
            acc == clipped(digits_value(d@.take(i as int))),
        decreases cut - i,
    {
        let digit = char_digit_value(d[i]) as u128;
        proof {
            assert(d@.take(i + 1) == d@.take(i as int).push(d@[i as int]));
            lemma_digits_push(d@.take(i as int), d@[i as int]);
        }
        let next: u128 = acc * 10 + digit;
        acc = if next >= OVER {
            OVER
        } else {
            next
        };
        i += 1;
    }
    let ghost whole = digits_value(d@.take(cut as int));
    let ghost f = factor as nat;
    assert(acc * f <= OVER * MAX_FACTOR) by (nonlinear_arith)
        requires
            acc <= OVER,
            f <= MAX_FACTOR,
    ;
    let scaled: u128 = acc * (factor as u128);
    assert(clipped(scaled as nat) == clipped(whole * f)) by (nonlinear_arith)
        requires
            acc == clipped(whole),
            scaled == acc * f,
            f >= 1,
    ;
    acc = if scaled >= OVER {
        OVER
    } else {
        scaled
    };
    let mut k: u32 = 0;
    assert(pow10(0) == 1);
    assert(whole * f * 1 == whole * f);
    while k < pad
        invariant
            0 <= k <= pad,
            acc == clipped(whole * f * pow10(k as nat)),
        decreases pad - k,
    {
        let ghost before = whole * f * pow10(k as nat);
        let next: u128 = acc * 10;
        assert(pow10((k + 1) as nat) == 10 * pow10(k as nat));
        assert(whole * f * pow10((k + 1) as nat) == before * 10) by (nonlinear_arith)
            requires
                before == whole * f * pow10(k as nat),
                pow10((k + 1) as nat) == 10 * pow10(k as nat),
        ;
        acc = if next >= OVER {
            OVER
        } else {
            next
        };
        k += 1;
    }
    acc
}

/// The whole units that the digits `d[cut..]`, read as a fraction, carry
/// over once they are scaled by `factor`, with `lead` zeros put between the
/// point and the first of them.
fn carried_units(d: &Vec<char>, cut: usize, lead: u32, factor: u64) -> (r: u64)
    requires
        all_digits(d@),
        cut <= d.len(),
        lead <= 10,
        1 <= factor <= MAX_FACTOR,
    ensures
        r == carried(d@.skip(cut as int), factor as nat) / pow10(lead as nat),
        r < factor,
{
    let n = d.len();
    let mut carry: u64 = 0;
    let mut j: usize = n;
    proof {
        assert(d@.skip(n as int) == Seq::<char>::empty());
        assert(pow10(0) == 1);
        assert((0 * factor as nat) / 1 == 0);
    }
    while j > cut
        invariant
            cut <= j <= n,
            n == d.len(),
            all_digits(d@),
            1 <= factor <= MAX_FACTOR,
            carry < factor,
            carry == carried(d@.skip(j as int), factor as nat),
        decreases j,
    {
        j -= 1;
        let digit = char_digit_value(d[j]) as u64;
        let ghost rest = d@.skip(j + 1);
        proof {
            assert(d@.skip(j as int) == seq![d@[j as int]] + rest);
            lemma_carry_step(d@[j as int], rest, factor as nat);
            assert(all_digits(d@.skip(j as int))) by {
                assert forall|i: int| 0 <= i < d@.skip(j as int).len() implies is_digit(
                    #[trigger] d@.skip(j as int)[i],
                ) by {
                    assert(d@.skip(j as int)[i] == d@[j + i]);
                }
            }
            lemma_carried_bound(d@.skip(j as int), factor as nat);
        }
        assert(digit * factor <= 9 * MAX_FACTOR) by (nonlinear_arith)
            requires
                digit <= 9,
                factor <= MAX_FACTOR,
        ;
        let sum: u64 = digit * factor + carry;
        carry = sum / 10;
    }
    let mut k: u32 = 0;
    assert(carry as nat / 1 == carry);
    let ghost start: nat = carry as nat;
    while k < lead
        invariant
            0 <= k <= lead,
            carry <= start,
            carry == start / pow10(k as nat),
        decreases lead - k,
    {
        proof {
            lemma_pow10_positive(k as nat);
            lemma_div_denominator(start as int, pow10(k as nat) as int, 10);
            assert(pow10((k + 1) as nat) == pow10(k as nat) * 10);
        }
        carry = carry / 10;
        k += 1;
    }
    carry
}

/// The whole units in the worth of the literal at `span` in `v` times `factor`.
pub(crate) fn scaled_value(v: &Vec<char>, span: &LiteralSpan, factor: u64) -> (r: u64)
    requires
        span.within(v@.len()),
        span.of(v@).wf(),
        1 <= factor <= MAX_FACTOR,
    ensures
        r == span.of(v@).scaled(factor as nat),
{
    match span {
        LiteralSpan::NotANumber => 0,
        LiteralSpan::Infinite { negative } => if *negative {
            0
        } else {
            u64::MAX
        },
        LiteralSpan::Finite { negative, whole, frac, exp_negative, exp } => {
            if *negative {
                return 0;
            }
            let d = gather_digits(v, *whole, *frac);
            let w: usize = whole.1 - whole.0;
            let ghost exponent = digits_value(v@.subrange(exp.0 as int, exp.1 as int));
            let e = exponent_magnitude(v, exp.0, exp.1);
            let (cut, pad, lead) = place_point(w, d.len(), *exp_negative, e, Ghost(exponent));
            proof {
                lemma_units_by_parts(
                    d@,
                    w + signed(*exp_negative, exponent),
                    factor as nat,
                    cut as int,
                    pad as nat,
                    lead as nat,
                );
            }
            let high = integral_units(&d, cut, pad, factor);
            let low = carried_units(&d, cut, lead, factor);
            let total: u128 = high + low as u128;
            if total > u64::MAX as u128 {
                u64::MAX
            } else {
                total as u64
            }
        },
    }
}

} // verus!
