//! Character-level helpers shared by the amount parser and the statement
//! formatter: whitespace trimming and decimal digit sequences.

use vstd::prelude::*;

verus! {

/// The characters that `char::is_whitespace` accepts: those with the
/// Unicode `White_Space` property.
pub open spec fn is_white_space(c: char) -> bool {
    ||| ('\u{9}' <= c && c <= '\u{d}')
    ||| c == ' '
    ||| c == '\u{85}'
    ||| c == '\u{a0}'
    ||| c == '\u{1680}'
    ||| ('\u{2000}' <= c && c <= '\u{200a}')
    ||| c == '\u{2028}'
    ||| c == '\u{2029}'
    ||| c == '\u{202f}'
    ||| c == '\u{205f}'
    ||| c == '\u{3000}'
}

/// Drops the leading white space of a character sequence.
pub open spec fn trim_start(s: Seq<char>) -> Seq<char>
    decreases s.len(),
{
    if s.len() > 0 && is_white_space(s[0]) {
        trim_start(s.drop_first())
    } else {
        s
    }
}

/// Drops the trailing white space of a character sequence.
pub open spec fn trim_end(s: Seq<char>) -> Seq<char>
    decreases s.len(),
{
    if s.len() > 0 && is_white_space(s.last()) {
        trim_end(s.drop_last())
    } else {
        s
    }
}

/// What `str::trim` gives back.
pub open spec fn trim(s: Seq<char>) -> Seq<char> {
    trim_end(trim_start(s))
}

pub open spec fn is_digit(c: char) -> bool {
    '0' <= c && c <= '9'
}

pub open spec fn all_digits(s: Seq<char>) -> bool {
    forall|i: int| 0 <= i < s.len() ==> #[trigger] is_digit(s[i])
}

pub open spec fn digit_value(c: char) -> int {
    (c as int) - ('0' as int)
}

/// The number that a sequence of decimal digits spells, most significant
/// digit first; the empty sequence spells zero.
pub open spec fn digits_value(s: Seq<char>) -> int
    decreases s.len(),
{
    if s.len() == 0 {
        0
    } else {
        digits_value(s.drop_last()) * 10 + digit_value(s.last())
    }
}

pub open spec fn pow10(n: nat) -> int
    decreases n,
{
    if n == 0 {
        1
    } else {
        10 * pow10((n - 1) as nat)
    }
}

/// The index of the first `'.'` in `s`, or `s.len()` where there is none.
pub open spec fn dot_position(s: Seq<char>) -> int
    decreases s.len(),
{
    if s.len() == 0 || s[0] == '.' {
        0
    } else {
        1 + dot_position(s.drop_first())
    }
}

pub proof fn lemma_dot_position(s: Seq<char>, k: int)
    requires
        0 <= k <= s.len(),
        k == s.len() || s[k] == '.',
        forall|i: int| 0 <= i < k ==> s[i] != '.',
    ensures
        dot_position(s) == k,
    decreases s.len(),
{
    if s.len() > 0 && s[0] != '.' {
        assert forall|i: int| 0 <= i < k - 1 implies s.drop_first()[i] != '.' by {
            assert(s.drop_first()[i] == s[i + 1]);
        }
        lemma_dot_position(s.drop_first(), k - 1);
    }
}

/// Trimming the white space in front of `s` gives the same as trimming it in
/// front of `s[i..]`, when `s[..i]` is all white space.
pub proof fn lemma_trim_start_skip(s: Seq<char>, i: int)
    requires
        0 <= i < s.len(),
        is_white_space(s[i]),
    ensures
        trim_start(s.subrange(i, s.len() as int)) == trim_start(s.subrange(i + 1, s.len() as int)),
{
    assert(s.subrange(i, s.len() as int).drop_first() =~= s.subrange(i + 1, s.len() as int));
}

pub proof fn lemma_trim_end_skip(s: Seq<char>, a: int, b: int)
    requires
        0 <= a < b <= s.len(),
        is_white_space(s[b - 1]),
    ensures
        trim_end(s.subrange(a, b)) == trim_end(s.subrange(a, b - 1)),
{
    assert(s.subrange(a, b).drop_last() =~= s.subrange(a, b - 1));
}

/// Appending a digit never makes the spelled number smaller.
pub proof fn lemma_digits_value_prefix(s: Seq<char>, k: int)
    requires
        0 <= k <= s.len(),
        all_digits(s),
    ensures
        0 <= digits_value(s.take(k)) <= digits_value(s),
    decreases s.len() - k,
{
    if k < s.len() {
        lemma_digits_value_prefix(s, k + 1);
        assert(s.take(k + 1).drop_last() =~= s.take(k));
        assert(is_digit(s[k]));
    } else {
        assert(s.take(k) =~= s);
        lemma_digits_value_nonneg(s);
    }
}

pub proof fn lemma_digits_value_nonneg(s: Seq<char>)
    requires
        all_digits(s),
    ensures
        0 <= digits_value(s),
    decreases s.len(),
{
    if s.len() > 0 {
        assert(is_digit(s.last()));
        lemma_digits_value_nonneg(s.drop_last());
    }
}

/// The character of the decimal digit `d`.
pub open spec fn digit_char(d: int) -> char {
    (('0' as int) + d) as char
}

/// The decimal digits of `n`, most significant first, without leading zeros.
pub open spec fn decimal(n: nat) -> Seq<char>
    decreases n,
{
    if n < 10 {
        seq![digit_char(n as int)]
    } else {
        decimal(n / 10).push(digit_char((n % 10) as int))
    }
}

/// The four decimal digits of `f < 10000`, with leading zeros.
pub open spec fn four_digits(f: nat) -> Seq<char> {
    seq![
        digit_char((f / 1000) as int),
        digit_char((f / 100 % 10) as int),
        digit_char((f / 10 % 10) as int),
        digit_char((f % 10) as int),
    ]
}

/// `s` without its trailing `'0'`s.
pub open spec fn strip_trailing_zeros(s: Seq<char>) -> Seq<char>
    decreases s.len(),
{
    if s.len() > 0 && s.last() == '0' {
        strip_trailing_zeros(s.drop_last())
    } else {
        s
    }
}

/// How a number of ten-thousandths is written in a statement: the whole
/// part, then, where there is a fractional part, a `.` and its up to four
/// digits without trailing zeros; with a `-` in front of negative values.
pub open spec fn units_text(v: int) -> Seq<char> {
    let m: nat = if v < 0 { (-v) as nat } else { v as nat };
    let whole = m / 10000;
    let frac = m % 10000;
    let body = if frac == 0 {
        decimal(whole)
    } else {
        decimal(whole) + seq!['.'] + strip_trailing_zeros(four_digits(frac))
    };
    if v < 0 {
        seq!['-'] + body
    } else {
        body
    }
}

pub proof fn lemma_digit_char(d: int)
    requires
        0 <= d < 10,
    ensures
        is_digit(digit_char(d)),
        digit_value(digit_char(d)) == d,
        digit_char(d) != '.',
{
}

/// The digits of `n` are digits, spell `n`, and start with no white space.
pub proof fn lemma_decimal(n: nat)
    ensures
        all_digits(decimal(n)),
        digits_value(decimal(n)) == n,
        decimal(n).len() > 0,
    decreases n,
{
    if n < 10 {
        lemma_digit_char(n as int);
        let d = decimal(n);
        assert(d.drop_last() =~= Seq::<char>::empty());
        assert(digits_value(d.drop_last()) == 0);
        assert(d.last() == digit_char(n as int));
        assert(digits_value(d) == digits_value(d.drop_last()) * 10 + digit_value(d.last()));
    } else {
        lemma_decimal(n / 10);
        lemma_digit_char((n % 10) as int);
        let d = decimal(n);
        assert(d.drop_last() =~= decimal(n / 10));
        assert(digits_value(d) == digits_value(decimal(n / 10)) * 10 + (n % 10));
        assert forall|i: int| 0 <= i < d.len() implies #[trigger] is_digit(d[i]) by {
            if i < d.len() - 1 {
                assert(d[i] == decimal(n / 10)[i]);
            }
        }
    }
}

/// Four digits spell the number they were made from.
pub proof fn lemma_four_digits(f: nat)
    requires
        f < 10000,
    ensures
        all_digits(four_digits(f)),
        digits_value(four_digits(f)) == f,
        four_digits(f).len() == 4,
{
    let s = four_digits(f);
    lemma_digit_char((f / 1000) as int);
    lemma_digit_char((f / 100 % 10) as int);
    lemma_digit_char((f / 10 % 10) as int);
    lemma_digit_char((f % 10) as int);
    let s3 = s.drop_last();
    let s2 = s3.drop_last();
    let s1 = s2.drop_last();
    assert(s1.drop_last() =~= Seq::<char>::empty());
    assert(digits_value(s1.drop_last()) == 0);
    assert(s1.last() == digit_char((f / 1000) as int));
    assert(digits_value(s1) == digits_value(s1.drop_last()) * 10 + digit_value(s1.last()));
    assert(digits_value(s1) == f / 1000);
    assert(digits_value(s2) == (f / 1000) * 10 + f / 100 % 10);
    assert(digits_value(s3) == ((f / 1000) * 10 + f / 100 % 10) * 10 + f / 10 % 10);
    assert(f == (((f / 1000) * 10 + f / 100 % 10) * 10 + f / 10 % 10) * 10 + f % 10) by (nonlinear_arith)
        requires
            f < 10000,
    ;
}

/// Dropping trailing zeros keeps a run of digits, and divides what it spells
/// by ten for each zero dropped.
pub proof fn lemma_strip_trailing_zeros(s: Seq<char>)
    requires
        all_digits(s),
    ensures
        all_digits(strip_trailing_zeros(s)),
        strip_trailing_zeros(s).len() <= s.len(),
        strip_trailing_zeros(s) =~= s.take(strip_trailing_zeros(s).len() as int),
        digits_value(strip_trailing_zeros(s)) * pow10((s.len() - strip_trailing_zeros(s).len()) as nat)
            == digits_value(s),
    decreases s.len(),
{
    if s.len() > 0 && s.last() == '0' {
        let t = s.drop_last();
        assert forall|i: int| 0 <= i < t.len() implies #[trigger] is_digit(t[i]) by {
            assert(is_digit(s[i]));
        }
        lemma_strip_trailing_zeros(t);
        let r = strip_trailing_zeros(t);
        let a = digits_value(r);
        let p = pow10((t.len() - r.len()) as nat);
        assert(pow10((s.len() - r.len()) as nat) == 10 * p);
        assert(a * (10 * p) == (a * p) * 10) by (nonlinear_arith);
        assert(r =~= s.take(r.len() as int));
    } else {
        assert(s.take(s.len() as int) =~= s);
    }
}

/// A sequence that neither starts nor ends with white space is its own trim.
pub proof fn lemma_trim_untouched(s: Seq<char>)
    requires
        s.len() > 0,
        !is_white_space(s[0]),
        !is_white_space(s.last()),
    ensures
        trim(s) == s,
{
}

/// A negative value is written as a `-` followed by how its magnitude is
/// written.
pub proof fn lemma_units_text_negative(v: int)
    requires
        v > 0,
    ensures
        units_text(-v) == seq!['-'] + units_text(v),
        units_text(v)[0] != '-',
{
    lemma_decimal((v / 10000) as nat);
    assert(units_text(v)[0] == decimal((v / 10000) as nat)[0]);
    assert(is_digit(decimal((v / 10000) as nat)[0]));
}

fn digit(d: u64) -> (c: char)
    requires
        d < 10,
    ensures
        c == digit_char(d as int),
{
    if d == 0 { '0' }
    else if d == 1 { '1' }
    else if d == 2 { '2' }
    else if d == 3 { '3' }
    else if d == 4 { '4' }
    else if d == 5 { '5' }
    else if d == 6 { '6' }
    else if d == 7 { '7' }
    else if d == 8 { '8' }
    else { '9' }
}

/// Appends the decimal digits of `n` to `out`.
fn push_decimal(n: u64, out: &mut Vec<char>)
    ensures
        final(out)@ == old(out)@ + decimal(n as nat),
    decreases n,
{
    if n >= 10 {
        push_decimal(n / 10, out);
    }
    out.push(digit(n % 10));
    proof {
        if n >= 10 {
            assert(decimal(n as nat) == decimal((n / 10) as nat).push(digit_char((n % 10) as int)));
        }
    }
    assert(final(out)@ =~= old(out)@ + decimal(n as nat));
}

/// Format a fixed-point value of ten-thousandths with at most four decimal
/// places and no trailing zeros after the point.
pub fn format_units(val: i64) -> (text: String)
    ensures
        text@ == units_text(val as int),
{
    let absolute: u64 = if val < 0 {
        (-(val as i128)) as u64
    } else {
        val as u64
    };
    let whole = absolute / 10000;
    let fractional = absolute % 10000;
    let mut out: Vec<char> = Vec::new();
    if val < 0 {
        out.push('-');
    }
    push_decimal(whole, &mut out);
    if fractional != 0 {
        let mut frac: Vec<char> = Vec::new();
        frac.push(digit(fractional / 1000));
        frac.push(digit(fractional / 100 % 10));
        frac.push(digit(fractional / 10 % 10));
        frac.push(digit(fractional % 10));
        let ghost four = frac@;
        assert(four =~= four_digits(fractional as nat));
        while frac.len() > 0 && frac[frac.len() - 1] == '0'
            invariant
                strip_trailing_zeros(four) == strip_trailing_zeros(frac@),
            decreases frac.len(),
        {
            let ghost before = frac@;
            frac.pop();
            assert(frac@ =~= before.drop_last());
        }
        out.push('.');
        let ghost head = out@;
        out.append(&mut frac);
        assert(out@ =~= head + strip_trailing_zeros(four));
    }
    let text = string_from_chars(out);
    assert(text@ =~= units_text(val as int));
    text
}

/// `String`'s `FromIterator<char>` implementation: the string that holds the
/// given characters, in order.
#[verifier::external_body]
fn string_from_chars(chars: Vec<char>) -> (s: String)
    ensures
        s@ == chars@,
{
    String::from_iter(chars)
}

/// Whether `c` is white space, as `char::is_whitespace` decides it.
pub fn is_whitespace(c: char) -> (b: bool)
    ensures
        b == is_white_space(c),
{
    ('\u{9}' <= c && c <= '\u{d}') || c == ' ' || c == '\u{85}' || c == '\u{a0}' || c == '\u{1680}'
        || ('\u{2000}' <= c && c <= '\u{200a}') || c == '\u{2028}' || c == '\u{2029}' || c
        == '\u{202f}' || c == '\u{205f}' || c == '\u{3000}'
}

/// The characters of a string, in order.
pub fn chars_of(s: &str) -> (v: Vec<char>)
    ensures
        v@ == s@,
{
    broadcast use vstd::string::group_string_axioms;

    let mut v: Vec<char> = Vec::new();
    for c in it: s.chars()
        invariant
            it.seq() == s@,
            v@ == s@.take(it.index() as int),
    {
        v.push(c);
    }
    v
}

} // verus!
