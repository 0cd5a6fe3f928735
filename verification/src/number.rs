//! Numbers, kept as the decimal text that names them.

use vstd::prelude::*;
use vstd::utf8::valid_utf8;
use crate::ascii::{digit, DIGIT_0, DOT, is_digit, LOWER_E, MINUS, PLUS, UPPER_E};
use crate::utils::lemma_ascii_is_utf8;

verus! {

/// The number of decimal digits that `s` begins with.
pub open spec fn digits_len(s: Seq<u8>) -> nat
    decreases s.len(),
{
    if s.len() == 0 || !is_digit(s[0]) {
        0
    } else {
        1 + digits_len(s.skip(1))
    }
}

/// Whether `s` is nothing, or an exponent: `e` or `E`, an optional sign, and
/// one digit or more.
pub open spec fn is_exponent_text(s: Seq<u8>) -> bool {
    s.len() == 0 || {
        let t = s.skip(1);
        let u = if t.len() > 0 && (t[0] == PLUS || t[0] == MINUS) {
            t.skip(1)
        } else {
            t
        };
        (s[0] == LOWER_E || s[0] == UPPER_E) && u.len() >= 1 && digits_len(u) == u.len()
    }
}

/// Whether `s` is the text of a number without its sign: digits, then
/// optionally a point with digits after it, then optionally an exponent.
/// The digits before the point may be left out; those after it may not.
pub open spec fn is_number_text(s: Seq<u8>) -> bool {
    let whole = digits_len(s);
    let after_whole = s.skip(whole as int);
    if after_whole.len() > 0 && after_whole[0] == DOT {
        let fraction = digits_len(after_whole.skip(1));
        fraction >= 1 && is_exponent_text(after_whole.skip(1 + fraction as int))
    } else {
        whole >= 1 && is_exponent_text(after_whole)
    }
}

/// A number: its sign and its text.
#[derive(Debug)]
pub struct Number {
    negative: bool,
    text: Vec<u8>,
}

/// What a `Number` is to the contracts.
pub struct NumberView {
    pub negative: bool,
    pub text: Seq<u8>,
}

impl View for Number {
    type V = NumberView;

    closed spec fn view(&self) -> NumberView {
        NumberView { negative: self.negative, text: self.text@ }
    }
}

/// The number that `digits` name in the given base, the first digit
/// weighing most. Each digit is given by its value.
pub open spec fn digits_value(digits: Seq<u8>, base: nat) -> nat
    decreases digits.len(),
{
    if digits.len() == 0 {
        0
    } else {
        digits_value(digits.drop_last(), base) * base + digits.last() as nat
    }
}

/// The number that the decimal digits of `text` name.
pub open spec fn decimal_value(text: Seq<u8>) -> nat
    decreases text.len(),
{
    if text.len() == 0 {
        0
    } else {
        decimal_value(text.drop_last()) * 10 + (text.last() - DIGIT_0) as nat
    }
}

/// Whether `text` is a whole number in decimal digits, with no zero before
/// its first digit.
pub open spec fn is_integer_text(text: Seq<u8>) -> bool {
    &&& text.len() >= 1
    &&& forall|i: int| 0 <= i < text.len() ==> is_digit(#[trigger] text[i])
    &&& text.len() > 1 ==> text[0] != DIGIT_0
}

/// The decimal digits of `v`, with no zero before the first.
pub open spec fn decimal_text(v: nat) -> Seq<u8>
    decreases v,
{
    if v < 10 {
        seq![(DIGIT_0 + v) as u8]
    } else {
        decimal_text(v / 10).push((DIGIT_0 + v % 10) as u8)
    }
}

proof fn lemma_decimal_value_positive(text: Seq<u8>)
    requires
        text.len() >= 1,
        forall|i: int| 0 <= i < text.len() ==> is_digit(#[trigger] text[i]),
        text[0] != DIGIT_0,
    ensures
        decimal_value(text) >= 1,
    decreases text.len(),
{
    if text.len() == 1 {
        assert(text.drop_last() =~= Seq::<u8>::empty());
        assert(decimal_value(text.drop_last()) == 0);
        assert(is_digit(text[0]));
    } else {
        let front = text.drop_last();
        assert forall|i: int| 0 <= i < front.len() implies is_digit(#[trigger] front[i]) by {
            assert(front[i] == text[i]);
        }
        lemma_decimal_value_positive(front);
    }
}

/// A whole number has one text only.
pub proof fn lemma_integer_text_unique(text: Seq<u8>)
    requires
        is_integer_text(text),
    ensures
        decimal_text(decimal_value(text)) == text,
    decreases text.len(),
{
    let front = text.drop_last();
    let d = (text.last() - DIGIT_0) as nat;
    assert(is_digit(text[text.len() - 1]));
    if text.len() == 1 {
        assert(front =~= Seq::<u8>::empty());
        assert(decimal_value(front) == 0);
        assert(decimal_text(d) =~= text);
    } else {
        assert forall|i: int| 0 <= i < front.len() implies is_digit(#[trigger] front[i]) by {
            assert(front[i] == text[i]);
        }
        assert(front[0] == text[0]);
        lemma_decimal_value_positive(front);
        lemma_integer_text_unique(front);
        let v = decimal_value(text);
        assert(v == decimal_value(front) * 10 + d);
        assert(v / 10 == decimal_value(front) && v % 10 == d);
        assert(decimal_text(v) =~= text);
    }
}

/// The decimal digits of a number are the text of a whole number.
pub proof fn lemma_decimal_text_is_integer_text(v: nat)
    ensures
        is_integer_text(decimal_text(v)),
        is_number_text(decimal_text(v)),
        v >= 1 ==> decimal_text(v)[0] != DIGIT_0,
        v >= 10 ==> decimal_text(v).len() >= 2,
    decreases v,
{
    let t = decimal_text(v);
    if v >= 10 {
        let front = decimal_text(v / 10);
        lemma_decimal_text_is_integer_text(v / 10);
        assert(t == front.push((DIGIT_0 + v % 10) as u8));
        assert(t[0] == front[0]);
        assert forall|i: int| 0 <= i < t.len() implies is_digit(#[trigger] t[i]) by {
            if i < front.len() {
                assert(t[i] == front[i]);
            }
        }
    }
    lemma_integer_text_is_number_text(t);
}

/// Ten to the power of `n`.
pub open spec fn pow10(n: nat) -> nat
    decreases n,
{
    if n == 0 {
        1
    } else {
        10 * pow10((n - 1) as nat)
    }
}

/// The number that `digits` name in base ten, the first digit weighing
/// least.
pub open spec fn le_value(digits: Seq<u8>) -> nat
    decreases digits.len(),
{
    if digits.len() == 0 {
        0
    } else {
        digits[0] as nat + 10 * le_value(digits.skip(1))
    }
}

proof fn lemma_le_value_push(digits: Seq<u8>, x: u8)
    ensures
        le_value(digits.push(x)) == le_value(digits) + x * pow10(digits.len()),
    decreases digits.len(),
{
    let pushed = digits.push(x);
    if digits.len() == 0 {
        assert(pushed.skip(1) =~= Seq::<u8>::empty());
        assert(pushed[0] == x);
        assert(le_value(pushed.skip(1)) == 0);
        assert(pow10(0) == 1);
        assert(le_value(pushed) == x as nat + 10 * le_value(pushed.skip(1)));
    } else {
        assert(pushed.skip(1) =~= digits.skip(1).push(x));
        assert(pushed[0] == digits[0]);
        lemma_le_value_push(digits.skip(1), x);
        let p = pow10((digits.len() - 1) as nat) as int;
        let xi = x as int;
        assert(pow10(digits.len()) == 10 * p);
        assert(10 * (xi * p) == xi * (10 * p)) by (nonlinear_arith);
        assert(le_value(pushed) == pushed[0] as nat + 10 * le_value(pushed.skip(1)));
    }
}

proof fn lemma_le_value_take(digits: Seq<u8>, j: int)
    requires
        0 <= j < digits.len(),
    ensures
        le_value(digits.take(j + 1)) == le_value(digits.take(j)) + digits[j] * pow10(j as nat),
{
    assert(digits.take(j + 1) =~= digits.take(j).push(digits[j]));
    lemma_le_value_push(digits.take(j), digits[j]);
}

/// Where every byte is a digit, the digits are as many as the bytes.
pub proof fn lemma_digits_len_all(s: Seq<u8>)
    requires
        forall|i: int| 0 <= i < s.len() ==> is_digit(#[trigger] s[i]),
    ensures
        digits_len(s) == s.len(),
    decreases s.len(),
{
    if s.len() > 0 {
        assert(is_digit(s[0]));
        assert forall|i: int| 0 <= i < s.skip(1).len() implies is_digit(#[trigger] s.skip(1)[i]) by {
            assert(s.skip(1)[i] == s[i + 1]);
        }
        lemma_digits_len_all(s.skip(1));
    }
}

/// The digits that a text begins with are digits, and no digit follows
/// them.
pub proof fn lemma_digits_len_bound(s: Seq<u8>)
    ensures
        digits_len(s) <= s.len(),
        forall|i: int| 0 <= i < digits_len(s) ==> is_digit(#[trigger] s[i]),
        digits_len(s) < s.len() ==> !is_digit(s[digits_len(s) as int]),
    decreases s.len(),
{
    if s.len() == 0 || !is_digit(s[0]) {
    } else {
        lemma_digits_len_bound(s.skip(1));
        assert forall|i: int| 0 <= i < digits_len(s) implies is_digit(#[trigger] s[i]) by {
            if i > 0 {
                assert(s.skip(1)[i - 1] == s[i]);
            }
        }
    }
}

/// A whole number in decimal digits is the text of a number.
pub proof fn lemma_integer_text_is_number_text(text: Seq<u8>)
    requires
        is_integer_text(text),
    ensures
        is_number_text(text),
{
    lemma_digits_len_all(text);
    assert(text.skip(text.len() as int).len() == 0);
}

/// The place where the digits that begin at `from` end.
pub fn scan_digits(text: &[u8], from: usize) -> (end: usize)
    requires
        from <= text@.len(),
    ensures
        from <= end <= text@.len(),
        end == from + digits_len(text@.skip(from as int)),
{
    let n: usize = text.len();
    let mut i: usize = from;
    while i < n && digit(text[i])
        invariant
            from <= i <= n,
            n == text@.len(),
            from + digits_len(text@.skip(from as int)) == i + digits_len(text@.skip(i as int)),
        decreases n - i,
    {
        assert(text@.skip(i as int).skip(1) =~= text@.skip(i + 1));
        i = i + 1;
    }
    i
}

/// Whether nothing or an exponent stands in `text` from place `from` on.
pub fn is_valid_exponent(text: &[u8], from: usize) -> (r: bool)
    requires
        from <= text@.len(),
    ensures
        r == is_exponent_text(text@.skip(from as int)),
{
    let n: usize = text.len();
    let ghost tail = text@.skip(from as int);
    if from == n {
        return true;
    }
    if text[from] != LOWER_E && text[from] != UPPER_E {
        return false;
    }
    let mut p: usize = from + 1;
    assert(tail.skip(1) =~= text@.skip(from + 1));
    if p < n && (text[p] == PLUS || text[p] == MINUS) {
        assert(tail.skip(1).skip(1) =~= text@.skip(from + 2));
        p = p + 1;
    }
    if p >= n {
        return false;
    }
    let end: usize = scan_digits(text, p);
    end == n
}

/// Whether `text` is the text of a number.
pub fn is_valid_text(text: &[u8]) -> (r: bool)
    ensures
        r == is_number_text(text@),
{
    let n: usize = text.len();
    assert(text@.skip(0) =~= text@);
    let whole_end: usize = scan_digits(text, 0);
    let ghost after_whole = text@.skip(whole_end as int);
    if whole_end < n && text[whole_end] == DOT {
        let fraction_end: usize = scan_digits(text, whole_end + 1);
        assert(after_whole.skip(1) =~= text@.skip(whole_end + 1));
        assert(after_whole.skip(1 + (fraction_end - whole_end - 1)) =~= text@.skip(
            fraction_end as int,
        ));
        fraction_end > whole_end + 1 && is_valid_exponent(text, fraction_end)
    } else {
        whole_end >= 1 && is_valid_exponent(text, whole_end)
    }
}

impl Number {
    #[verifier::type_invariant]
    spec fn inv(self) -> bool {
        is_number_text(self.text@)
    }

    /// The number with the given sign and text, where the text is that of a
    /// number.
    pub fn new(negative: bool, text: Vec<u8>) -> (r: Option<Number>)
        ensures
            r is Some <==> is_number_text(text@),
            r matches Some(n) ==> n@ == (NumberView { negative, text: text@ }),
    {
        if is_valid_text(text.as_slice()) {
            Some(Number { negative, text })
        } else {
            None
        }
    }

    /// The whole number that `digits` name in the given base, the first
    /// digit weighing most, with the given sign. Each digit is given by its
    /// value.
    pub fn from_digits(negative: bool, digits: &[u8], base: u8) -> (n: Number)
        requires
            2 <= base <= 16,
            forall|i: int| 0 <= i < digits@.len() ==> #[trigger] digits@[i] < base,
        ensures
            n@.negative == negative,
            is_integer_text(n@.text),
            is_number_text(n@.text),
            decimal_value(n@.text) == digits_value(digits@, base as nat),
            n@.text == decimal_text(digits_value(digits@, base as nat)),
    {
        let text: Vec<u8> = to_decimal(digits, base);
        proof {
            lemma_integer_text_is_number_text(text@);
            lemma_integer_text_unique(text@);
        }
        Number { negative, text }
    }

    /// Whether the number has a minus sign.
    pub fn is_negative(&self) -> (r: bool)
        ensures
            r == self@.negative,
    {
        self.negative
    }

    /// The text of the number, without its sign.
    pub fn text(&self) -> (r: &[u8])
        ensures
            r@ == self@.text,
            is_number_text(r@),
    {
        proof {
            use_type_invariant(self);
        }
        self.text.as_slice()
    }

    /// Adds the number as it is written, a minus sign first where it has
    /// one, to `out`.
    pub fn write_to(&self, out: &mut Vec<u8>)
        ensures
            final(out)@ == old(out)@ + number_text(self@),
            is_number_text(self@.text),
    {
        proof {
            use_type_invariant(self);
        }
        if self.negative {
            out.push(MINUS);
        }
        let n: usize = self.text.len();
        let mut i: usize = 0;
        while i < n
            invariant
                i <= n,
                n == self.text@.len(),
                out@ == old(out)@ + number_text(self@).take(
                    i + if self.negative { 1int } else { 0int },
                ),
            decreases n - i,
        {
            let ghost shift = if self.negative { 1int } else { 0int };
            out.push(self.text[i]);
            assert(number_text(self@).take(i + shift).push(self.text@[i as int])
                =~= number_text(self@).take(i + 1 + shift));
            i = i + 1;
        }
        assert(number_text(self@).take(number_text(self@).len() as int) =~= number_text(self@));
    }
}

/// The number as it is written: a minus sign where it has one, and its text.
pub open spec fn number_text(n: NumberView) -> Seq<u8> {
    if n.negative {
        seq![MINUS] + n.text
    } else {
        n.text
    }
}

proof fn lemma_step_bounds(a: int, b: int, c: int)
    requires
        0 <= a <= 9,
        2 <= b <= 16,
        0 <= c < b,
    ensures
        0 <= a * b <= 144,
        (a * b + c) / 10 < b,
        a >= 1 ==> a * b + c >= 1,
{
    assert(0 <= a * b <= 144) by (nonlinear_arith)
        requires
            0 <= a <= 9,
            2 <= b <= 16,
    ;
    assert(a * b <= 9 * b) by (nonlinear_arith)
        requires
            0 <= a <= 9,
            2 <= b <= 16,
    ;
    assert(a >= 1 ==> a * b >= 1) by (nonlinear_arith)
        requires
            0 <= a <= 9,
            2 <= b <= 16,
    ;
}

proof fn lemma_step_value(v: int, a: int, b: int, c: int, p: int, t: int, w: int, d: int)
    requires
        t == a * b + c,
        w + c * p == v * b + d,
    ensures
        (w + (t % 10) * p) + (t / 10) * (10 * p) == (v + a * p) * b + d,
{
    assert((t % 10) * p + (t / 10) * (10 * p) == t * p) by (nonlinear_arith);
    assert(t * p == a * p * b + c * p) by (nonlinear_arith)
        requires
            t == a * b + c,
    ;
    assert((v + a * p) * b == v * b + a * p * b) by (nonlinear_arith);
}

/// Multiplies the number that `acc` names, the first digit weighing least,
/// by `base`, and adds `d`.
#[verifier::rlimit(30)]
fn multiply_add(acc: &Vec<u8>, base: u8, d: u8) -> (next: Vec<u8>)
    requires
        2 <= base <= 16,
        d < base,
        forall|i: int| 0 <= i < acc@.len() ==> #[trigger] acc@[i] <= 9,
        acc@.len() > 0 ==> acc@.last() != 0,
    ensures
        le_value(next@) == le_value(acc@) * base + d,
        forall|i: int| 0 <= i < next@.len() ==> #[trigger] next@[i] <= 9,
        next@.len() > 0 ==> next@.last() != 0,
{
    let n: usize = acc.len();
    let mut next: Vec<u8> = Vec::new();
    let mut carry: u32 = d as u32;
    let mut j: usize = 0;
    proof {
        assert(acc@.take(0) =~= Seq::<u8>::empty());
        assert(pow10(0) == 1);
        assert(le_value(acc@.take(0)) == 0);
        assert(le_value(next@) == 0);
    }
    while j < n
        invariant
            j <= n,
            n == acc@.len(),
            2 <= base <= 16,
            d < base,
            next@.len() == j,
            carry < base,
            forall|i: int| 0 <= i < acc@.len() ==> #[trigger] acc@[i] <= 9,
            forall|i: int| 0 <= i < next@.len() ==> #[trigger] next@[i] <= 9,
            le_value(next@) + carry * pow10(j as nat) == le_value(acc@.take(j as int)) * base + d,
            j > 0 && carry == 0 ==> (next@.last() != 0 || acc@[j - 1] == 0),
        decreases n - j,
    {
        let a: u8 = acc[j];
        assert(a == acc@[j as int] && acc@[j as int] <= 9);
        proof {
            lemma_step_bounds(a as int, base as int, carry as int);
        }
        let t: u32 = (a as u32) * (base as u32) + carry;
        let low: u8 = (t % 10) as u8;
        let ghost before = next@;
        proof {
            lemma_le_value_push(before, low);
            lemma_le_value_take(acc@, j as int);
            assert(pow10((j + 1) as nat) == 10 * pow10(j as nat));
            lemma_step_value(
                le_value(acc@.take(j as int)) as int,
                a as int,
                base as int,
                carry as int,
                pow10(j as nat) as int,
                t as int,
                le_value(before) as int,
                d as int,
            );
        }
        next.push(low);
        carry = t / 10;
        j = j + 1;
    }
    assert(acc@.take(n as int) =~= acc@);
    while carry > 0
        invariant
            n == acc@.len(),
            next@.len() >= n,
            carry < 16,
            forall|i: int| 0 <= i < next@.len() ==> #[trigger] next@[i] <= 9,
            le_value(next@) + carry * pow10(next@.len()) == le_value(acc@) * base + d,
            carry == 0 && next@.len() > n ==> next@.last() != 0,
            carry == 0 && next@.len() == n && n > 0 ==> (next@.last() != 0 || acc@.last() == 0),
        decreases carry,
    {
        let low: u8 = (carry % 10) as u8;
        proof {
            lemma_le_value_push(next@, low);
            let p = pow10(next@.len()) as int;
            let c = carry as int;
            assert(pow10(next@.len() + 1) == 10 * p);
            assert((c % 10) * p + (c / 10) * (10 * p) == c * p) by (nonlinear_arith);
        }
        next.push(low);
        carry = carry / 10;
    }
    next
}

/// The decimal text of the whole number that `digits` name in the given
/// base.
#[verifier::rlimit(30)]
pub fn to_decimal(digits: &[u8], base: u8) -> (text: Vec<u8>)
    requires
        2 <= base <= 16,
        forall|i: int| 0 <= i < digits@.len() ==> #[trigger] digits@[i] < base,
    ensures
        is_integer_text(text@),
        decimal_value(text@) == digits_value(digits@, base as nat),
{
    let n: usize = digits.len();
    let mut acc: Vec<u8> = Vec::new();
    let mut k: usize = 0;
    assert(digits@.take(0) =~= Seq::<u8>::empty());
    while k < n
        invariant
            k <= n,
            n == digits@.len(),
            2 <= base <= 16,
            forall|i: int| 0 <= i < digits@.len() ==> #[trigger] digits@[i] < base,
            forall|i: int| 0 <= i < acc@.len() ==> #[trigger] acc@[i] <= 9,
            acc@.len() > 0 ==> acc@.last() != 0,
            le_value(acc@) == digits_value(digits@.take(k as int), base as nat),
        decreases n - k,
    {
        assert(digits@.take(k + 1).drop_last() =~= digits@.take(k as int));
        acc = multiply_add(&acc, base, digits[k]);
        k = k + 1;
    }
    assert(digits@.take(n as int) =~= digits@);
    let mut text: Vec<u8> = Vec::new();
    if acc.len() == 0 {
        text.push(DIGIT_0);
        proof {
            assert(text@.drop_last() =~= Seq::<u8>::empty());
            assert(decimal_value(text@.drop_last()) == 0);
            assert(le_value(acc@) == 0);
        }
        return text;
    }
    let m: usize = acc.len();
    let mut i: usize = m;
    proof {
        assert(acc@.take(m as int) =~= acc@);
        assert(decimal_value(text@) == 0);
    }
    while i > 0
        invariant
            i <= m,
            m == acc@.len(),
            m > 0,
            acc@.last() != 0,
            text@.len() == m - i,
            forall|q: int| 0 <= q < acc@.len() ==> #[trigger] acc@[q] <= 9,
            forall|q: int| 0 <= q < text@.len() ==> is_digit(#[trigger] text@[q]),
            text@.len() > 0 ==> text@[0] != DIGIT_0,
            decimal_value(text@) * pow10(i as nat) + le_value(acc@.take(i as int)) == le_value(
                acc@,
            ),
        decreases i,
    {
        let d: u8 = acc[i - 1];
        let ghost before = text@;
        assert(d == acc@[i - 1] && acc@[i - 1] <= 9);
        proof {
            lemma_le_value_take(acc@, i - 1);
            let p = pow10((i - 1) as nat) as int;
            let v = decimal_value(before) as int;
            let di = d as int;
            assert(pow10(i as nat) == 10 * p);
            assert((v * 10 + di) * p == v * (10 * p) + di * p) by (nonlinear_arith);
        }
        text.push(DIGIT_0 + d);
        proof {
            assert(text@.drop_last() =~= before);
            assert(text@.last() == DIGIT_0 + d);
            assert(decimal_value(text@) == decimal_value(before) * 10 + d);
        }
        i = i - 1;
    }
    proof {
        assert(i == 0);
        assert(acc@.take(0) =~= Seq::<u8>::empty());
        assert(le_value(acc@.take(0)) == 0);
        assert(pow10(0) == 1);
        let v = decimal_value(text@) as int;
        let one = pow10(0) as int;
        assert(v * one == v) by (nonlinear_arith)
            requires
                one == 1,
        ;
        assert(decimal_value(text@) == le_value(acc@));
        assert(le_value(acc@) == digits_value(digits@, base as nat));
    }
    text
}

/// Whether `a` and `b` hold the same bytes.
pub fn bytes_equal(a: &[u8], b: &[u8]) -> (r: bool)
    ensures
        r == (a@ == b@),
{
    let n: usize = a.len();
    if n != b.len() {
        return false;
    }
    let mut i: usize = 0;
    while i < n
        invariant
            i <= n,
            n == a@.len(),
            n == b@.len(),
            forall|j: int| 0 <= j < i ==> a@[j] == b@[j],
        decreases n - i,
    {
        if a[i] != b[i] {
            return false;
        }
        i = i + 1;
    }
    assert(a@ =~= b@);
    true
}

/// A copy of `bytes`.
pub fn copy_bytes(bytes: &[u8]) -> (r: Vec<u8>)
    ensures
        r@ == bytes@,
{
    let n: usize = bytes.len();
    let mut out: Vec<u8> = Vec::new();
    let mut i: usize = 0;
    while i < n
        invariant
            i <= n,
            n == bytes@.len(),
            out@ == bytes@.take(i as int),
        decreases n - i,
    {
        out.push(bytes[i]);
        assert(bytes@.take(i as int).push(bytes@[i as int]) =~= bytes@.take(i + 1));
        i = i + 1;
    }
    assert(bytes@.take(n as int) =~= bytes@);
    out
}

impl Clone for Number {
    fn clone(&self) -> (r: Number)
        ensures
            r@ == self@,
    {
        proof {
            use_type_invariant(self);
        }
        Number { negative: self.negative, text: copy_bytes(self.text.as_slice()) }
    }
}

impl PartialEq for Number {
    fn eq(&self, other: &Number) -> (r: bool) {
        self.negative == other.negative && bytes_equal(self.text.as_slice(), other.text.as_slice())
    }
}

impl vstd::std_specs::cmp::PartialEqSpecImpl for Number {
    open spec fn obeys_eq_spec() -> bool {
        true
    }

    open spec fn eq_spec(&self, other: &Number) -> bool {
        self@ == other@
    }
}

/// Whether `byte` can stand in the text of a number.
pub open spec fn is_number_byte(byte: u8) -> bool {
    is_digit(byte) || byte == DOT || byte == LOWER_E || byte == UPPER_E || byte == PLUS || byte
        == MINUS
}

/// Where the digits are as many as the bytes, every byte is a digit.
pub proof fn lemma_all_digits(s: Seq<u8>)
    requires
        digits_len(s) == s.len(),
    ensures
        forall|i: int| 0 <= i < s.len() ==> is_digit(#[trigger] s[i]),
{
    lemma_digits_len_bound(s);
}

proof fn lemma_exponent_bytes(x: Seq<u8>)
    requires
        is_exponent_text(x),
    ensures
        forall|i: int| 0 <= i < x.len() ==> is_number_byte(#[trigger] x[i]),
{
    if x.len() > 0 {
        let t = x.skip(1);
        let signed = t.len() > 0 && (t[0] == PLUS || t[0] == MINUS);
        let u = if signed {
            t.skip(1)
        } else {
            t
        };
        lemma_all_digits(u);
        assert forall|i: int| 0 <= i < x.len() implies is_number_byte(#[trigger] x[i]) by {
            if i == 0 {
            } else if signed {
                if i == 1 {
                    assert(x[1] == t[0]);
                } else {
                    assert(x[i] == u[i - 2]);
                }
            } else {
                assert(x[i] == u[i - 1]);
            }
        }
    }
}

/// The text of a number begins with a digit or a point and holds digits,
/// points, signs and the letter `e` only.
pub proof fn lemma_number_text_bytes(t: Seq<u8>)
    requires
        is_number_text(t),
    ensures
        t.len() >= 1,
        is_digit(t[0]) || t[0] == DOT,
        forall|i: int| 0 <= i < t.len() ==> is_number_byte(#[trigger] t[i]),
{
    let whole = digits_len(t) as int;
    lemma_digits_len_bound(t);
    let after = t.skip(whole);
    if after.len() > 0 && after[0] == DOT {
        let frac = after.skip(1);
        let fraction = digits_len(frac) as int;
        lemma_digits_len_bound(frac);
        let x = after.skip(1 + fraction);
        lemma_exponent_bytes(x);
        assert(t[whole] == DOT);
        assert forall|i: int| 0 <= i < t.len() implies is_number_byte(#[trigger] t[i]) by {
            if i < whole {
            } else if i == whole {
            } else if i < whole + 1 + fraction {
                assert(t[i] == frac[i - whole - 1]);
            } else {
                assert(t[i] == x[i - whole - 1 - fraction]);
            }
        }
    } else {
        lemma_exponent_bytes(after);
        assert forall|i: int| 0 <= i < t.len() implies is_number_byte(#[trigger] t[i]) by {
            if i >= whole {
                assert(t[i] == after[i - whole]);
            }
        }
    }
}

/// A number is written in ASCII.
pub proof fn lemma_number_text_is_utf8(n: NumberView)
    requires
        is_number_text(n.text),
    ensures
        valid_utf8(number_text(n)),
{
    lemma_number_text_bytes(n.text);
    let t = number_text(n);
    assert forall|i: int| 0 <= i < t.len() implies #[trigger] t[i] < 128 by {
        if n.negative {
            if i > 0 {
                assert(t[i] == n.text[i - 1]);
                assert(is_number_byte(n.text[i - 1]));
            }
        } else {
            assert(is_number_byte(n.text[i]));
        }
    }
    lemma_ascii_is_utf8(t);
}

} // verus!
