//! Types used in handling requests for the engine to action.
//!
//! Newtype structs keep client identifiers, transaction identifiers and
//! payment amounts apart.

use vstd::prelude::*;
use crate::text::{
    decimal, four_digits, is_digit, lemma_decimal, lemma_four_digits, lemma_strip_trailing_zeros,
    lemma_trim_untouched, lemma_units_text_negative, strip_trailing_zeros, units_text,
    all_digits, chars_of, digits_value, dot_position, is_whitespace, lemma_digits_value_prefix,
    lemma_dot_position, lemma_trim_end_skip, lemma_trim_start_skip, lemma_digits_value_nonneg, pow10, trim, trim_end, trim_start,
};

verus! {

/// Identifier used to identify a client of the payment system.
#[derive(Debug, Clone, Copy, PartialEq, Eq, Structural, Hash, PartialOrd, Ord)]
pub struct ClientId(pub u16);

/// Identifier used to identify a transaction within the payment system.
#[derive(Debug, Clone, Copy, PartialEq, Eq, Structural, Hash)]
pub struct TransactionId(pub u32);

/// An exact, positive payment amount, stored as ten-thousandths of a unit.
/// Using this allows fixed-point arithmetic within the engine.
#[derive(Debug, Clone, Copy, PartialEq, Eq, Structural, Hash)]
pub struct Amount(i64);

/// Types of requests that can be made on the engine.
#[derive(Debug, Clone, Copy)]
pub enum RequestType {
    Deposit { amount: Amount },
    Withdrawal { amount: Amount },
    Dispute,
    Resolve,
    Chargeback,
}

/// A request that can be made on the payment engine for it to action.
#[derive(Debug, Clone, Copy)]
pub struct Request {
    pub client: ClientId,
    pub transaction: TransactionId,
    pub request_type: RequestType,
}

/// What a request asks of the engine, with amounts in units.
pub enum Action {
    Deposit(int),
    Withdrawal(int),
    Dispute,
    Resolve,
    Chargeback,
}

impl View for RequestType {
    type V = Action;

    open spec fn view(&self) -> Action {
        match *self {
            RequestType::Deposit { amount } => Action::Deposit(amount@),
            RequestType::Withdrawal { amount } => Action::Withdrawal(amount@),
            RequestType::Dispute => Action::Dispute,
            RequestType::Resolve => Action::Resolve,
            RequestType::Chargeback => Action::Chargeback,
        }
    }
}

/// Error returned when parsing an invalid payment amount.
#[derive(Debug, PartialEq, Eq, Structural)]
pub struct AmountParseError;

/// Largest whole part whose units still fit in an `i64`.
const MAX_WHOLE: i64 = 922_337_203_685_477;

/// The units that `raw` denotes as a payment amount, or `None` where it is
/// no valid amount: surrounding white space is ignored; what remains is an
/// optional `+`, then decimal digits with at most one `.` and at most four
/// digits after it, with at least one digit on some side of the `.`; the
/// amount must be positive and its units must fit in an `i64`.
pub open spec fn parse_units(raw: Seq<char>) -> Option<int> {
    let v = trim(raw);
    if v.len() == 0 || v[0] == '-' {
        None
    } else {
        let u = if v[0] == '+' { v.drop_first() } else { v };
        let d = dot_position(u);
        let whole = u.take(d);
        let frac = if d < u.len() { u.skip(d + 1) } else { Seq::<char>::empty() };
        if whole.len() == 0 && frac.len() == 0 {
            None
        } else if !all_digits(whole) || !all_digits(frac) || frac.len() > 4 {
            None
        } else {
            let units = digits_value(whole) * Amount::SCALE + digits_value(frac) * pow10(
                (4 - frac.len()) as nat,
            );
            if 0 < units <= i64::MAX {
                Some(units)
            } else {
                None
            }
        }
    }
}

impl View for Amount {
    type V = int;

    closed spec fn view(&self) -> int {
        self.0 as int
    }
}

impl Amount {
    /// Number of fixed-point units in one whole payment unit.
    pub const SCALE: i64 = 10_000;

    /// Every amount is positive.
    #[verifier::type_invariant]
    pub open spec fn positive(self) -> bool {
        self@ > 0
    }

    /// Return the stored fixed-point units.
    pub fn units(self) -> (u: i64)
        ensures
            u == self@,
            u > 0,
    {
        proof {
            use_type_invariant(&self);
        }
        self.0
    }

    /// Parse a decimal amount with up to four decimal places.
    pub fn parse(raw: &str) -> (r: Result<Amount, AmountParseError>)
        ensures
            match parse_units(raw@) {
                Some(u) => r matches Ok(a) && a@ == u,
                None => r is Err,
            },
    {
        let v = chars_of(raw);
        let ghost s = v@;
        let (a, b) = trimmed_bounds(&v);
        let ghost t = s.subrange(a as int, b as int);
        if a == b || v[a] == '-' {
            return Err(AmountParseError);
        }
        let p: usize = if v[a] == '+' { a + 1 } else { a };
        let ghost u = s.subrange(p as int, b as int);
        assert(u =~= (if t[0] == '+' { t.drop_first() } else { t }));
        let q = find_dot(&v, p, b);
        let frac_start: usize = if q < b { q + 1 } else { b };
        let ghost whole = s.subrange(p as int, q as int);
        let ghost frac = s.subrange(frac_start as int, b as int);
        assert(whole =~= u.take(q - p));
        assert(frac =~= (if q - p < u.len() { u.skip(q - p + 1) } else { Seq::<char>::empty() }));
        if q == p && frac_start == b {
            return Err(AmountParseError);
        }
        if b - frac_start > 4 {
            return Err(AmountParseError);
        }
        let frac_units = match digits_in(&v, frac_start, b, 9999) {
            Some(f) => {
                proof {
                    lemma_small_digits(frac);
                }
                scale_fraction(f, b - frac_start)
            },
            None => {
                proof {
                    if all_digits(frac) {
                        lemma_small_digits(frac);
                        reveal_with_fuel(pow10, 5);
                    }
                }
                return Err(AmountParseError);
            },
        };
        let w = match digits_in(&v, p, q, MAX_WHOLE) {
            Some(w) => w,
            None => {
                return Err(AmountParseError);
            },
        };
        proof {
            lemma_digits_value_nonneg(frac);
            assert(pow10((4 - frac.len()) as nat) > 0) by {
                reveal_with_fuel(pow10, 5);
            }
        }
        let units = w * Amount::SCALE;
        match units.checked_add(frac_units) {
            Some(total) => {
                if total <= 0 {
                    return Err(AmountParseError);
                }
                Ok(Amount(total))
            },
            None => Err(AmountParseError),
        }
    }
}

/// The bounds of `v` with its surrounding white space left out.
fn trimmed_bounds(v: &Vec<char>) -> (r: (usize, usize))
    ensures
        r.0 <= r.1 <= v@.len(),
        trim(v@) == v@.subrange(r.0 as int, r.1 as int),
{
    let n = v.len();
    let ghost s = v@;
    let mut a: usize = 0;
    assert(s.subrange(0, n as int) =~= s);
    while a < n && is_whitespace(v[a])
        invariant
            a <= n == s.len(),
            v@ == s,
            trim_start(s) == trim_start(s.subrange(a as int, n as int)),
        decreases n - a,
    {
        proof {
            lemma_trim_start_skip(s, a as int);
        }
        a = a + 1;
    }
    let ghost started = s.subrange(a as int, n as int);
    assert(trim_start(started) == started);
    let mut b: usize = n;
    while b > a && is_whitespace(v[b - 1])
        invariant
            a <= b <= n == s.len(),
            v@ == s,
            trim(s) == trim_end(s.subrange(a as int, b as int)),
        decreases b - a,
    {
        proof {
            lemma_trim_end_skip(s, a as int, b as int);
        }
        b = b - 1;
    }
    let ghost t = s.subrange(a as int, b as int);
    assert(trim_end(t) == t);
    (a, b)
}

/// The index of the first `'.'` in `v[from..to]`, relative to `v`.
fn find_dot(v: &Vec<char>, from: usize, to: usize) -> (q: usize)
    requires
        from <= to <= v@.len(),
    ensures
        from <= q <= to,
        q - from == dot_position(v@.subrange(from as int, to as int)),
{
    let ghost u = v@.subrange(from as int, to as int);
    let mut q: usize = from;
    while q < to && v[q] != '.'
        invariant
            from <= q <= to <= v@.len(),
            forall|i: int| from <= i < q ==> v@[i] != '.',
        decreases to - q,
    {
        q = q + 1;
    }
    proof {
        assert forall|i: int| 0 <= i < q - from implies u[i] != '.' by {
            assert(u[i] == v@[from + i]);
        }
        lemma_dot_position(u, q - from);
    }
    q
}

/// The number that the digits `v[from..to]` spell, when they are all digits
/// and it is at most `limit`.
fn digits_in(v: &Vec<char>, from: usize, to: usize, limit: i64) -> (r: Option<i64>)
    requires
        from <= to <= v@.len(),
        0 <= limit <= MAX_WHOLE,
    ensures
        match r {
            Some(w) => all_digits(v@.subrange(from as int, to as int)) && w == digits_value(
                v@.subrange(from as int, to as int),
            ) && 0 <= w <= limit,
            None => !all_digits(v@.subrange(from as int, to as int)) || digits_value(
                v@.subrange(from as int, to as int),
            ) > limit,
        },
{
    let ghost d = v@.subrange(from as int, to as int);
    let mut w: i64 = 0;
    let mut j: usize = from;
    assert(v@.subrange(from as int, from as int) =~= Seq::<char>::empty());
    while j < to
        invariant
            from <= j <= to <= v@.len(),
            0 <= limit <= MAX_WHOLE,
            d == v@.subrange(from as int, to as int),
            all_digits(v@.subrange(from as int, j as int)),
            w == digits_value(v@.subrange(from as int, j as int)),
            0 <= w <= limit,
        decreases to - j,
    {
        let c = v[j];
        if !('0' <= c && c <= '9') {
            assert(d[j - from] == c);
            assert(!crate::text::is_digit(d[j - from]));
            return None;
        }
        proof {
            assert(v@.subrange(from as int, j + 1).drop_last() =~= v@.subrange(
                from as int,
                j as int,
            ));
        }
        w = w * 10 + ((c as u32) - ('0' as u32)) as i64;
        j = j + 1;
        if w > limit {
            proof {
                // Every longer run of digits spells at least as much.
                if all_digits(d) {
                    assert(d.take(j - from) =~= v@.subrange(from as int, j as int));
                    lemma_digits_value_prefix(d, j - from);
                }
            }
            return None;
        }
    }
    assert(v@.subrange(from as int, to as int) =~= v@.subrange(from as int, j as int));
    Some(w)
}

/// At most four digits spell at most 9999.
proof fn lemma_small_digits(s: Seq<char>)
    requires
        all_digits(s),
        s.len() <= 4,
    ensures
        digits_value(s) < pow10(s.len()),
    decreases s.len(),
{
    if s.len() > 0 {
        lemma_small_digits(s.drop_last());
        assert(crate::text::is_digit(s.last()));
        assert(pow10(s.len()) == 10 * pow10((s.len() - 1) as nat));
    }
}

/// The units of a fraction with `len` digits that spell `f`.
fn scale_fraction(f: i64, len: usize) -> (units: i64)
    requires
        len <= 4,
        0 <= f < pow10(len as nat),
    ensures
        units == f * pow10((4 - len) as nat),
        0 <= units <= 9999,
{
    proof {
        reveal_with_fuel(pow10, 5);
    }
    if len == 0 {
        f * 10000
    } else if len == 1 {
        f * 1000
    } else if len == 2 {
        f * 100
    } else if len == 3 {
        f * 10
    } else {
        f
    }
}

/// Reading back what `format_units` writes of a positive amount gives that
/// amount again.
pub proof fn lemma_parse_formatted(u: int)
    requires
        0 < u <= i64::MAX,
    ensures
        parse_units(units_text(u)) == Some(u),
{
    let whole = (u / 10000) as nat;
    let f = (u % 10000) as nat;
    let w = decimal(whole);
    lemma_decimal(whole);
    let t = units_text(u);
    if f == 0 {
        assert(t == w);
    } else {
        lemma_four_digits(f);
        lemma_strip_trailing_zeros(four_digits(f));
        let r = strip_trailing_zeros(four_digits(f));
        assert(r.len() > 0) by {
            if r.len() == 0 {
                assert(digits_value(r) == 0);
            }
        }
        assert(t == w + seq!['.'] + r);
        assert(t.last() == r.last());
        assert(is_digit(r[r.len() - 1]));
    }
    assert(is_digit(t[0])) by {
        assert(t[0] == w[0]);
    }
    assert(is_digit(t.last()));
    lemma_trim_untouched(t);
    assert(trim(t) == t);
    // The whole part runs up to the first '.'.
    assert forall|i: int| 0 <= i < w.len() implies t[i] != '.' by {
        assert(t[i] == w[i]);
        assert(is_digit(w[i]));
    }
    lemma_dot_position(t, w.len() as int);
    assert(t.take(w.len() as int) =~= w);
    if f != 0 {
        let r = strip_trailing_zeros(four_digits(f));
        assert(t.skip(w.len() as int + 1) =~= r);
        assert(pow10((4 - r.len()) as nat) == pow10((four_digits(f).len() - r.len()) as nat));
    }
}

/// A negative balance is written as `-` and then text that reads back as its
/// magnitude, so the text of any value from `-i64::MAX` on reads back as that
/// value.
pub proof fn lemma_parse_formatted_negative(v: int)
    requires
        -i64::MAX <= v < 0,
    ensures
        units_text(v)[0] == '-',
        parse_units(units_text(v).drop_first()) == Some(-v),
{
    lemma_units_text_negative(-v);
    assert(units_text(v).drop_first() =~= units_text(-v));
    lemma_parse_formatted(-v);
}

/// What `w.f` is read as, for runs of digits `w` and `f` with at most four
/// digits after the point: `w` whole units and `f` as that many decimal
/// places, so `value(w) * 10000 + value(f) * 10^(4 - |f|)` units, where that
/// is a positive `i64`.
pub proof fn lemma_parse_decimal(w: Seq<char>, f: Seq<char>)
    requires
        all_digits(w),
        all_digits(f),
        f.len() <= 4,
        w.len() + f.len() > 0,
    ensures
        ({
            let u = digits_value(w) * 10000 + digits_value(f) * pow10((4 - f.len()) as nat);
            parse_units(w + seq!['.'] + f) == if 0 < u <= i64::MAX {
                Some(u)
            } else {
                None::<int>
            }
        }),
{
    let t = w + seq!['.'] + f;
    assert(t[0] == if w.len() > 0 { w[0] } else { '.' });
    if w.len() > 0 {
        assert(is_digit(w[0]));
    }
    if f.len() > 0 {
        assert(t.last() == f.last());
        assert(is_digit(f[f.len() - 1]));
    }
    lemma_trim_untouched(t);
    assert forall|i: int| 0 <= i < w.len() implies t[i] != '.' by {
        assert(t[i] == w[i]);
        assert(is_digit(w[i]));
    }
    lemma_dot_position(t, w.len() as int);
    assert(t.take(w.len() as int) =~= w);
    assert(t.skip(w.len() as int + 1) =~= f);
}

/// A run of digits reads as the same amount with or without a point after
/// it: `value(w) * 10000` units.
pub proof fn lemma_parse_whole(w: Seq<char>)
    requires
        all_digits(w),
        w.len() > 0,
    ensures
        parse_units(w) == parse_units(w + seq!['.']),
        ({
            let u = digits_value(w) * 10000;
            parse_units(w) == if 0 < u <= i64::MAX {
                Some(u)
            } else {
                None::<int>
            }
        }),
{
    assert(is_digit(w[0]));
    assert(is_digit(w.last()));
    lemma_trim_untouched(w);
    assert forall|i: int| 0 <= i < w.len() implies w[i] != '.' by {
        assert(is_digit(w[i]));
    }
    lemma_dot_position(w, w.len() as int);
    assert(w.take(w.len() as int) =~= w);
    lemma_parse_decimal(w, Seq::<char>::empty());
    assert(w + seq!['.'] =~= w + seq!['.'] + Seq::<char>::empty());
    assert(pow10(4) == 10000) by {
        reveal_with_fuel(pow10, 5);
    }
}

/// A trailing zero after the point changes no amount: `w.f0` reads as `w.f`
/// where `f` has fewer than four digits.
pub proof fn lemma_parse_trailing_zero(w: Seq<char>, f: Seq<char>)
    requires
        all_digits(w),
        all_digits(f),
        f.len() < 4,
        w.len() + f.len() > 0,
    ensures
        parse_units(w + seq!['.'] + f.push('0')) == parse_units(w + seq!['.'] + f),
{
    let g = f.push('0');
    assert forall|i: int| 0 <= i < g.len() implies #[trigger] is_digit(g[i]) by {
        if i < f.len() {
            assert(g[i] == f[i]);
        }
    }
    lemma_parse_decimal(w, f);
    lemma_parse_decimal(w, g);
    assert(g.drop_last() =~= f);
    assert(digits_value(g) == digits_value(f) * 10);
    let k = (4 - g.len()) as nat;
    assert(pow10((4 - f.len()) as nat) == 10 * pow10(k));
    let a = digits_value(f);
    let p = pow10(k);
    assert((a * 10) * p == a * (10 * p)) by (nonlinear_arith);
}

impl core::str::FromStr for Amount {
    type Err = AmountParseError;

    /// Parse a decimal amount with up to four decimal places, as
    /// `Amount::parse` does.
    fn from_str(raw: &str) -> (r: Result<Self, Self::Err>)
        ensures
            match parse_units(raw@) {
                Some(u) => r matches Ok(a) && a@ == u,
                None => r is Err,
            },
    {
        Amount::parse(raw)
    }
}

} // verus!
