//! Numbers written as text: decimal integers, and the literals of floating
//! point numbers that plugin tools print.

use vstd::prelude::*;
use crate::text;

verus! {

// ── Decimal integers ─────────────────────────────────────────────────────────

/// The value of a decimal digit.
pub open spec fn digit_value(c: char) -> nat {
    (c as int - '0' as int) as nat
}

/// The digit that stands for `n`.
pub open spec fn digit(n: nat) -> char {
    ('0' as int + n) as char
}

pub open spec fn all_digits(s: Seq<char>) -> bool {
    forall|i: int| 0 <= i < s.len() ==> text::is_digit(#[trigger] s[i])
}

/// The value of a row of decimal digits.
pub open spec fn digits_value(s: Seq<char>) -> nat
    decreases s.len(),
{
    if s.len() == 0 {
        0
    } else {
        10 * digits_value(s.drop_last()) + digit_value(s.last())
    }
}

/// The number up to `max` that `s` writes: an optional `+`, then digits only.
pub open spec fn parse_unsigned(s: Seq<char>, max: nat) -> Option<nat> {
    let d = if s.len() > 0 && s[0] == '+' {
        s.drop_first()
    } else {
        s
    };
    if d.len() > 0 && all_digits(d) && digits_value(d) <= max {
        Some(digits_value(d))
    } else {
        None
    }
}

/// `n` in decimal digits, without leading zeros.
pub open spec fn decimal(n: nat) -> Seq<char>
    decreases n,
{
    if n < 10 {
        seq![digit(n)]
    } else {
        decimal(n / 10).push(digit(n % 10))
    }
}

/// More digits behind a row of digits never make its value smaller.
pub proof fn lemma_digits_value_grows(s: Seq<char>, n: int)
    requires
        0 <= n <= s.len(),
        all_digits(s),
    ensures
        digits_value(s.take(n)) <= digits_value(s),
    decreases s.len(),
{
    if n == s.len() {
        assert(s.take(n) =~= s);
    } else {
        assert(text::is_digit(s.last()));
        lemma_digits_value_grows(s.drop_last(), n);
        assert(s.drop_last().take(n) =~= s.take(n));
    }
}

/// Reading what `decimal` writes gives the number back.
pub proof fn lemma_decimal_reads_back(n: nat)
    ensures
        decimal(n).len() > 0,
        all_digits(decimal(n)),
        digits_value(decimal(n)) == n,
    decreases n,
{
    if n < 10 {
        let d = decimal(n);
        assert(d.drop_last() =~= seq![]);
        assert(digits_value(d.drop_last()) == 0);
    } else {
        lemma_decimal_reads_back(n / 10);
        let d = decimal(n);
        assert(d.drop_last() =~= decimal(n / 10));
        assert(d.last() == digit(n % 10));
        assert forall|i: int| 0 <= i < d.len() implies text::is_digit(#[trigger] d[i]) by {
            if i < d.len() - 1 {
                assert(d[i] == decimal(n / 10)[i]);
            }
        }
    }
}

/// A number up to `max`, written in decimal and read again, is itself.
pub proof fn decimal_round_trip(n: nat, max: nat)
    requires
        n <= max,
    ensures
        parse_unsigned(decimal(n), max) == Some(n),
{
    lemma_decimal_reads_back(n);
    assert(text::is_digit(decimal(n)[0]));
}

/// A number above `max` is not read.
pub proof fn large_decimal_is_not_read(n: nat, max: nat)
    requires
        max < n,
    ensures
        parse_unsigned(decimal(n), max) is None,
{
    lemma_decimal_reads_back(n);
    assert(text::is_digit(decimal(n)[0]));
}

/// Different numbers are written differently.
pub proof fn decimal_injective(a: nat, b: nat)
    requires
        decimal(a) == decimal(b),
    ensures
        a == b,
{
    lemma_decimal_reads_back(a);
    lemma_decimal_reads_back(b);
}

/// Reads a number up to `max`.
pub fn read_unsigned(s: &[char], max: u64) -> (r: Option<u64>)
    ensures
        r is Some == parse_unsigned(s@, max as nat) is Some,
        r matches Some(n) ==> n == parse_unsigned(s@, max as nat)->0,
{
    let start: usize = if s.len() > 0 && s[0] == '+' {
        1
    } else {
        0
    };
    let ghost d = s@.skip(start as int);
    assert(start == 1 ==> d =~= s@.drop_first());
    assert(start == 0 ==> d =~= s@);
    if start == s.len() {
        return None;
    }
    let mut n: u64 = 0;
    let mut i: usize = start;
    while i < s.len()
        invariant
            start <= i <= s@.len(),
            start < s@.len(),
            start == 0 || start == 1,
            d == s@.skip(start as int),
            start == 1 <==> s@.len() > 0 && s@[0] == '+',
            start == 1 ==> d == s@.drop_first(),
            start == 0 ==> d == s@,
            all_digits(d.take(i - start)),
            n == digits_value(d.take(i - start)),
            n <= max,
        decreases s@.len() - i,
    {
        let c = s[i];
        assert(d[i - start] == c);
        if !text::char_is_digit(c) {
            return None;
        }
        let v: u64 = (c as u32 - 48) as u64;
        let ghost t = d.take(i - start + 1);
        proof {
            assert(t.drop_last() =~= d.take(i - start));
            assert(t.last() == c);
            assert forall|k: int| 0 <= k < t.len() implies text::is_digit(#[trigger] t[k]) by {
                if k < t.len() - 1 {
                    assert(t[k] == d.take(i - start)[k]);
                }
            }
        }
        if n > max / 10 || v > max - 10 * n {
            proof {
                if parse_unsigned(s@, max as nat) is Some {
                    lemma_digits_value_grows(d, i - start + 1);
                }
            }
            return None;
        }
        n = 10 * n + v;
        i += 1;
    }
    assert(d.take(i - start) =~= d);
    Some(n)
}

/// Reads a `u32`.
pub fn read_u32(s: &[char]) -> (r: Option<u32>)
    ensures
        r is Some == parse_unsigned(s@, u32::MAX as nat) is Some,
        r matches Some(n) ==> n == parse_unsigned(s@, u32::MAX as nat)->0,
{
    match read_unsigned(s, u32::MAX as u64) {
        Some(n) => Some(n as u32),
        None => None,
    }
}

/// The character of a digit below ten.
fn digit_char(n: u64) -> (c: char)
    requires
        n < 10,
    ensures
        c == digit(n as nat),
{
    let b: u8 = 48 + n as u8;
    b as char
}

/// Appends `n` in decimal.
pub fn push_decimal(out: &mut String, n: u64)
    ensures
        final(out)@ == old(out)@ + decimal(n as nat),
    decreases n,
{
    if n < 10 {
        out.push(digit_char(n));
        assert(out@ =~= old(out)@ + decimal(n as nat));
    } else {
        push_decimal(out, n / 10);
        out.push(digit_char(n % 10));
        assert(out@ =~= old(out)@ + decimal(n as nat));
    }
}

// ── Floating point literals ──────────────────────────────────────────────────

/// An optional sign taken off.
pub open spec fn unsigned_part(s: Seq<char>) -> Seq<char> {
    if s.len() > 0 && (s[0] == '+' || s[0] == '-') {
        s.drop_first()
    } else {
        s
    }
}

/// Digits with at most one point among them, and at least one digit.
pub open spec fn is_mantissa(s: Seq<char>) -> bool {
    match text::find_char(s, '.') {
        Some(i) => s.len() > 1 && all_digits(s.take(i)) && all_digits(s.skip(i + 1)),
        None => s.len() > 0 && all_digits(s),
    }
}

/// A mantissa, then possibly `e`, a sign and digits.
pub open spec fn is_decimal_literal(s: Seq<char>) -> bool {
    match text::find_char(s, 'e') {
        Some(i) => {
            let exp = unsigned_part(s.skip(i + 1));
            is_mantissa(s.take(i)) && exp.len() > 0 && all_digits(exp)
        },
        None => is_mantissa(s),
    }
}

/// The literals of floating point numbers, in any case: an optional sign, then
/// `inf`, `infinity`, `nan` or a decimal literal.
pub open spec fn is_float_text(s: Seq<char>) -> bool {
    let body = unsigned_part(text::ascii_lower_all(s));
    ||| body == "inf"@
    ||| body == "infinity"@
    ||| body == "nan"@
    ||| is_decimal_literal(body)
}

fn only_digits(s: &[char]) -> (r: bool)
    ensures
        r == all_digits(s@),
{
    for i in 0..s.len()
        invariant
            forall|j: int| 0 <= j < i ==> text::is_digit(#[trigger] s@[j]),
    {
        if !text::char_is_digit(s[i]) {
            return false;
        }
    }
    true
}

fn without_sign<'a>(s: &'a [char]) -> (r: &'a [char])
    ensures
        r@ == unsigned_part(s@),
{
    if s.len() > 0 && (s[0] == '+' || s[0] == '-') {
        let r = vstd::slice::slice_subrange(s, 1, s.len());
        assert(r@ =~= s@.drop_first());
        r
    } else {
        s
    }
}

fn mantissa(s: &[char]) -> (r: bool)
    ensures
        r == is_mantissa(s@),
{
    match text::position_char(s, '.') {
        Some(i) => {
            let n: usize = s.len();
            let whole = vstd::slice::slice_subrange(s, 0, i);
            let part = vstd::slice::slice_subrange(s, i + 1, n);
            assert(whole@ =~= s@.take(i as int));
            assert(part@ =~= s@.skip(i + 1));
            n > 1 && only_digits(whole) && only_digits(part)
        },
        None => s.len() > 0 && only_digits(s),
    }
}

fn decimal_literal(s: &[char]) -> (r: bool)
    ensures
        r == is_decimal_literal(s@),
{
    match text::position_char(s, 'e') {
        Some(i) => {
            let n: usize = s.len();
            let front = vstd::slice::slice_subrange(s, 0, i);
            let back = vstd::slice::slice_subrange(s, i + 1, n);
            assert(front@ =~= s@.take(i as int));
            assert(back@ =~= s@.skip(i + 1));
            let exp = without_sign(back);
            mantissa(front) && exp.len() > 0 && only_digits(exp)
        },
        None => mantissa(s),
    }
}

/// Whether `s` is the literal of a floating point number.
pub fn float_text(s: &[char]) -> (r: bool)
    ensures
        r == is_float_text(s@),
{
    let mut low: Vec<char> = Vec::new();
    for i in 0..s.len()
        invariant
            low@.len() == i,
            forall|j: int| 0 <= j < i ==> low@[j] == text::ascii_lower(s@[j]),
    {
        low.push(text::char_ascii_lower(s[i]));
    }
    assert(low@ =~= text::ascii_lower_all(s@));
    let body = without_sign(low.as_slice());
    text::spells(body, "inf") || text::spells(body, "infinity") || text::spells(body, "nan") || decimal_literal(body)
}

/// The literal of a floating point number, kept as it was written.
#[derive(Debug)]
pub struct Number {
    text: String,
}

impl View for Number {
    type V = Seq<char>;

    closed spec fn view(&self) -> Seq<char> {
        self.text@
    }
}

impl Number {
    #[verifier::type_invariant]
    spec fn is_literal(self) -> bool {
        is_float_text(self.text@)
    }

    /// The number that `s` writes, if it writes one.
    pub fn read(s: &[char]) -> (r: Option<Number>)
        ensures
            r is Some == is_float_text(s@),
            r matches Some(n) ==> n@ == s@,
    {
        if float_text(s) {
            Some(Number { text: text::text_of(s) })
        } else {
            None
        }
    }

    /// As `read`, from a string.
    pub fn parse(s: &str) -> (r: Option<Number>)
        ensures
            r is Some == is_float_text(s@),
            r matches Some(n) ==> n@ == s@,
    {
        Number::read(text::chars_of(s).as_slice())
    }

    /// The literal; it is one that reads as a floating point number.
    pub fn text(&self) -> (r: &str)
        ensures
            r@ == self@,
            is_float_text(r@),
    {
        proof {
            use_type_invariant(self);
        }
        self.text.as_str()
    }
}

impl Clone for Number {
    fn clone(&self) -> (r: Number)
        ensures
            r == *self,
    {
        proof {
            use_type_invariant(self);
        }
        Number { text: self.text.clone() }
    }
}

/// The view of an optional number.
pub open spec fn opt_number(n: Option<Number>) -> Option<Seq<char>> {
    match n {
        Some(t) => Some(t@),
        None => None,
    }
}

/// What reading `s` as a number gives: `s` itself where it is a literal.
pub open spec fn number_of(s: Seq<char>) -> Option<Seq<char>> {
    if is_float_text(s) {
        Some(s)
    } else {
        None
    }
}

// ── What texts are numbers ───────────────────────────────────────────────────

/// A number may have a plus sign and zeros before it; a text without digits, or with
/// anything else in it, is none.
pub proof fn only_digits_are_numbers(s: Seq<char>, max: nat, i: int)
    ensures
        s.len() > 0 && all_digits(s) ==> parse_unsigned(seq!['+'] + s, max) == parse_unsigned(s, max),
        s.len() > 0 && all_digits(s) ==> parse_unsigned(seq!['0'] + s, max) == parse_unsigned(s, max),
        s.len() == 0 ==> parse_unsigned(s, max) is None,
        parse_unsigned(seq!['+'], max) is None,
        0 <= i < s.len() && !text::is_digit(s[i]) && !(i == 0 && s[i] == '+') ==> parse_unsigned(
            s,
            max,
        ) is None,
        parse_unsigned(s, max) matches Some(n) ==> n <= max,
{
    let plus = seq!['+'] + s;
    let zero = seq!['0'] + s;
    if s.len() > 0 && all_digits(s) {
        assert(text::is_digit(s[0]));
        assert(plus.drop_first() =~= s);
        assert forall|j: int| 0 <= j < zero.len() implies text::is_digit(#[trigger] zero[j]) by {
            if j > 0 {
                assert(zero[j] == s[j - 1]);
            }
        }
        lemma_zero_before(s);
    }
    assert(seq!['+'].drop_first() =~= Seq::<char>::empty());
    if 0 <= i < s.len() && !text::is_digit(s[i]) && !(i == 0 && s[i] == '+') {
        if s[0] == '+' {
            assert(s.drop_first()[i - 1] == s[i]);
        }
    }
}

proof fn lemma_zero_before(s: Seq<char>)
    ensures
        digits_value(seq!['0'] + s) == digits_value(s),
    decreases s.len(),
{
    let zero = seq!['0'] + s;
    if s.len() == 0 {
        assert(zero.drop_last() =~= s);
        assert(zero.last() == '0');
    } else {
        lemma_zero_before(s.drop_last());
        assert(zero.drop_last() =~= seq!['0'] + s.drop_last());
        assert(zero.last() == s.last());
    }
}

/// The digits of a number stand for what they are worth by their places: one more digit
/// makes ten times as much and the digit.
pub proof fn digits_count_by_place(s: Seq<char>, d: nat, max: nat)
    requires
        s.len() > 0,
        all_digits(s),
        d < 10,
        10 * digits_value(s) + d <= max,
    ensures
        parse_unsigned(s.push(('0' as int + d) as char), max) == Some(
            10 * parse_unsigned(s, max)->0 + d,
        ),
        parse_unsigned(s, max) is Some,
{
    let t = s.push(('0' as int + d) as char);
    assert(text::is_digit(s[0]));
    assert(t[0] == s[0]);
    assert(t.drop_last() =~= s);
    assert forall|j: int| 0 <= j < t.len() implies text::is_digit(#[trigger] t[j]) by {
        if j < s.len() {
            assert(t[j] == s[j]);
        }
    }
}

proof fn lemma_lower_digits(s: Seq<char>)
    requires
        forall|i: int|
            0 <= i < s.len() ==> text::is_digit(#[trigger] s[i]) || s[i] == '.' || s[i] == 'e'
                || s[i] == '+' || s[i] == '-',
    ensures
        text::ascii_lower_all(s) == s,
{
    assert(text::ascii_lower_all(s) =~= s);
}

/// The literals of floating point numbers: digits, with a point among them or without,
/// and with an exponent behind them or without, and a sign before them or without.
pub proof fn decimal_literals(a: Seq<char>, b: Seq<char>, exp: Seq<char>, sign: char)
    requires
        all_digits(a),
        all_digits(b),
        all_digits(exp),
        a.len() + b.len() > 0,
        exp.len() > 0,
        sign == '+' || sign == '-',
    ensures
        a.len() > 0 ==> is_float_text(a),
        is_float_text(a.push('.') + b),
        is_float_text(a.push('.') + b + seq!['e'] + exp),
        is_float_text(a.push('.') + b + seq!['e'] + seq![sign] + exp),
        is_float_text(seq![sign] + (a.push('.') + b)),
{
    let m = a.push('.') + b;
    let n = a.len() as int;
    if a.len() > 0 {
        lemma_lower_digits(a);
        lemma_no_char(a, 'e');
        lemma_no_char(a, '.');
        assert(text::is_digit(a[0]));
    }
    lemma_point(a, b);
    lemma_lower_digits(m);
    assert(!(m[0] == '+' || m[0] == '-')) by {
        if n > 0 {
            assert(m[0] == a[0]);
            assert(text::is_digit(a[0]));
        }
    }
    let e1 = m + seq!['e'] + exp;
    lemma_exponent(m, exp, e1, seq![]);
    let e2 = m + seq!['e'] + seq![sign] + exp;
    lemma_exponent(m, exp, e2, seq![sign]);
    let s = seq![sign] + m;
    lemma_lower_digits(s);
    assert(s.drop_first() =~= m);
}

proof fn lemma_no_char(s: Seq<char>, c: char)
    requires
        forall|i: int| 0 <= i < s.len() ==> s[i] != c,
    ensures
        text::find_char(s, c) is None,
{
    text::lemma_find_char_from(s, c, 0);
}

proof fn lemma_point(a: Seq<char>, b: Seq<char>)
    requires
        all_digits(a),
        all_digits(b),
        a.len() + b.len() > 0,
    ensures
        is_mantissa(a.push('.') + b),
        text::find_char(a.push('.') + b, 'e') is None,
        forall|i: int|
            0 <= i < a.len() + b.len() + 1 ==> text::is_digit(#[trigger] (a.push('.') + b)[i])
                || (a.push('.') + b)[i] == '.',
{
    let m = a.push('.') + b;
    let n = a.len() as int;
    assert forall|i: int| 0 <= i < m.len() implies text::is_digit(#[trigger] m[i]) || m[i]
        == '.' by {
        if i < n {
            assert(m[i] == a[i]);
        } else if i > n {
            assert(m[i] == b[i - n - 1]);
        }
    }
    text::lemma_find_char_from(m, '.', 0);
    assert(m[n] == '.');
    let k = text::find_char(m, '.')->0;
    if k < n {
        assert(m[k] == a[k]);
        assert(text::is_digit(a[k]));
    }
    assert(m.take(n) =~= a);
    assert(m.skip(n + 1) =~= b);
    lemma_no_char(m, 'e');
}

proof fn lemma_exponent(m: Seq<char>, exp: Seq<char>, s: Seq<char>, sign: Seq<char>)
    requires
        is_mantissa(m),
        m.len() > 0,
        m[0] != '+' && m[0] != '-',
        forall|i: int| 0 <= i < m.len() ==> text::is_digit(#[trigger] m[i]) || m[i] == '.',
        all_digits(exp),
        exp.len() > 0,
        sign.len() == 0 || sign == seq!['+'] || sign == seq!['-'],
        s == m + seq!['e'] + sign + exp,
    ensures
        is_float_text(s),
{
    let n = m.len() as int;
    assert forall|i: int| 0 <= i < s.len() implies text::is_digit(#[trigger] s[i]) || s[i] == '.'
        || s[i] == 'e' || s[i] == '+' || s[i] == '-' by {
        if i < n {
            assert(s[i] == m[i]);
        } else if i > n + sign.len() {
            assert(s[i] == exp[i - n - 1 - sign.len()]);
        } else if i > n {
            assert(s[i] == sign[i - n - 1]);
        }
    }
    lemma_lower_digits(s);
    assert(s[0] == m[0]);
    text::lemma_find_char_from(s, 'e', 0);
    assert(s[n] == 'e');
    let k = text::find_char(s, 'e')->0;
    if k < n {
        assert(s[k] == m[k]);
    }
    assert(s.take(n) =~= m);
    let rest = s.skip(n + 1);
    assert(rest =~= sign + exp);
    if sign.len() == 0 {
        assert(rest =~= exp);
        assert(text::is_digit(exp[0]));
    } else {
        assert(rest.drop_first() =~= exp);
    }
}

/// The case of the letters of a literal does not matter, and the empty text is none.
pub proof fn literals_in_any_case(s: Seq<char>)
    ensures
        is_float_text(s) == is_float_text(text::ascii_lower_all(s)),
        !is_float_text(seq![]),
        is_float_text("inf"@) && is_float_text("infinity"@) && is_float_text("nan"@),
        s.len() > 0 && s[0] != '+' && s[0] != '-' ==> is_float_text(seq!['-'] + s) == is_float_text(s)
            && is_float_text(seq!['+'] + s) == is_float_text(s),
        number_of(s) is Some <==> is_float_text(s),
        number_of(s) matches Some(t) ==> t == s,
{
    text::lower_case_is_by_character(s, seq![]);
    reveal_strlit("inf");
    reveal_strlit("infinity");
    reveal_strlit("nan");
    assert("inf"@.len() == 3 && "infinity"@.len() == 8 && "nan"@.len() == 3);
    let none = Seq::<char>::empty();
    assert(text::ascii_lower_all(none) =~= none);
    text::lemma_find_char_from(none, 'e', 0);
    text::lemma_find_char_from(none, '.', 0);
    assert(text::ascii_lower_all("inf"@) =~= "inf"@);
    assert(text::ascii_lower_all("infinity"@) =~= "infinity"@);
    assert(text::ascii_lower_all("nan"@) =~= "nan"@);
    assert("inf"@[0] == 'i' && "infinity"@[0] == 'i' && "nan"@[0] == 'n');
    if s.len() > 0 && s[0] != '+' && s[0] != '-' {
        let l = text::ascii_lower_all(s);
        assert(l[0] == text::ascii_lower(s[0]));
        let m = text::ascii_lower_all(seq!['-'] + s);
        let p = text::ascii_lower_all(seq!['+'] + s);
        assert(m[0] == '-' && p[0] == '+');
        assert(m.drop_first() =~= l);
        assert(p.drop_first() =~= l);
    }
}

/// A point alone, an exponent without digits and an exponent without digits before it
/// are no literals.
pub proof fn parts_are_no_literals(a: Seq<char>)
    requires
        all_digits(a),
    ensures
        !is_float_text(seq!['.']),
        !is_float_text(a.push('e')),
        !is_float_text(seq!['e'] + a),
{
    reveal_strlit("inf");
    reveal_strlit("infinity");
    reveal_strlit("nan");
    assert("inf"@.len() == 3 && "infinity"@.len() == 8 && "nan"@.len() == 3);
    let dot = seq!['.'];
    lemma_lower_digits(dot);
    text::lemma_find_char_from(dot, 'e', 0);
    text::lemma_find_char_from(dot, '.', 0);
    let x = a.push('e');
    let n = a.len() as int;
    assert forall|i: int| 0 <= i < x.len() implies text::is_digit(#[trigger] x[i]) || x[i]
        == 'e' by {
        if i < n {
            assert(x[i] == a[i]);
        }
    }
    lemma_lower_digits(x);
    text::lemma_find_char_from(x, 'e', 0);
    assert(x[n] == 'e');
    let k = text::find_char(x, 'e')->0;
    if k < n {
        assert(x[k] == a[k]);
    }
    assert(x.skip(n + 1) =~= Seq::<char>::empty());
    assert("inf"@[0] == 'i' && "infinity"@[0] == 'i' && "nan"@[0] == 'n');
    assert(x[0] == 'e' || text::is_digit(x[0]));
    let y = seq!['e'] + a;
    assert forall|i: int| 0 <= i < y.len() implies text::is_digit(#[trigger] y[i]) || y[i]
        == 'e' by {
        if i > 0 {
            assert(y[i] == a[i - 1]);
        }
    }
    lemma_lower_digits(y);
    text::lemma_find_char_from(y, 'e', 0);
    assert(y[0] == 'e');
    assert(y.take(0) =~= Seq::<char>::empty());
    text::lemma_find_char_from(y.take(0), '.', 0);
}

/// A literal that begins with a digit or a point holds only digits, one point and one
/// exponent; so a word with any other character in it is none.
pub proof fn other_words_are_no_literals(s: Seq<char>, i: int)
    requires
        s.len() > 0,
        text::is_digit(s[0]) || s[0] == '.',
        0 <= i < s.len(),
        !text::is_digit(s[i]) && s[i] != '.' && s[i] != 'e' && s[i] != 'E' && s[i] != '+' && s[i]
            != '-',
    ensures
        !is_float_text(s),
{
    reveal_strlit("inf");
    reveal_strlit("infinity");
    reveal_strlit("nan");
    let l = text::ascii_lower_all(s);
    assert(l[0] == s[0]);
    assert(l[i] == text::ascii_lower(s[i]));
    assert(l[i] != 'e' && l[i] != '.' && !text::is_digit(l[i]) && l[i] != '+' && l[i] != '-');
    assert("inf"@[0] == 'i' && "infinity"@[0] == 'i' && "nan"@[0] == 'n');
    text::lemma_find_char_from(l, 'e', 0);
    match text::find_char(l, 'e') {
        Some(k) => {
            if i < k {
                lemma_stray(l.take(k), i);
            } else {
                let exp = unsigned_part(l.skip(k + 1));
                let j = i - k - 1;
                assert(l.skip(k + 1)[j] == l[i]);
                if exp.len() < l.skip(k + 1).len() {
                    assert(exp[j - 1] == l[i]);
                }
            }
        },
        None => {
            lemma_stray(l, i);
        },
    }
}

proof fn lemma_stray(m: Seq<char>, i: int)
    requires
        0 <= i < m.len(),
        !text::is_digit(m[i]) && m[i] != '.',
    ensures
        !is_mantissa(m),
{
    text::lemma_find_char_from(m, '.', 0);
    if let Some(k) = text::find_char(m, '.') {
        if i < k {
            assert(m.take(k)[i] == m[i]);
        } else {
            assert(m.skip(k + 1)[i - k - 1] == m[i]);
        }
    }
}

} // verus!
