//! Money amounts, held as whole hundredths of the currency unit (cents),
//! and their decimal text: the two renderings that replies use, and the
//! reading of an amount written in a request.

use vstd::prelude::*;
use crate::text::{chars_of, push_char};

verus! {

/// The decimal digit character for `d` (0 to 9).
pub open spec fn digit_char(d: int) -> char {
    (48 + d) as char
}

/// A decimal digit character.
pub open spec fn is_digit(c: char) -> bool {
    '0' <= c <= '9'
}

/// The value of a decimal digit character.
pub open spec fn digit_value(c: char) -> int {
    c as int - 48
}

/// Every character of `s` is a decimal digit.
pub open spec fn all_digits(s: Seq<char>) -> bool {
    forall|i: int| 0 <= i < s.len() ==> is_digit(#[trigger] s[i])
}

/// The number written by the decimal digits `s` (0 for no digits).
pub open spec fn digits_value(s: Seq<char>) -> nat
    decreases s.len(),
{
    if s.len() == 0 {
        0
    } else {
        (digits_value(s.drop_last()) * 10 + digit_value(s.last())) as nat
    }
}

/// The decimal text of `n`, without leading zeros.
pub open spec fn nat_text(n: nat) -> Seq<char>
    decreases n,
{
    if n < 10 {
        seq![digit_char(n as int)]
    } else {
        nat_text(n / 10).push(digit_char((n % 10) as int))
    }
}

/// The magnitude of `c`.
pub open spec fn magnitude(c: int) -> nat {
    if c < 0 {
        (-c) as nat
    } else {
        c as nat
    }
}

/// `"-"` for a negative amount, nothing otherwise.
pub open spec fn sign_text(c: int) -> Seq<char> {
    if c < 0 {
        seq!['-']
    } else {
        seq![]
    }
}

/// `c` hundredths written with exactly two decimals, as `{:.2}` writes the
/// amount: `1250` is `12.50`, `-5` is `-0.05`.
pub open spec fn fixed2_text(c: int) -> Seq<char> {
    let m = magnitude(c);
    sign_text(c) + nat_text(m / 100) + seq![
        '.',
        digit_char(((m % 100) / 10) as int),
        digit_char((m % 10) as int),
    ]
}

/// `c` hundredths written in the shortest decimal form, as `{}` writes the
/// amount: `1250` is `12.5`, `1205` is `12.05`, `1200` is `12`.
pub open spec fn plain_text(c: int) -> Seq<char> {
    let m = magnitude(c);
    let cents = m % 100;
    sign_text(c) + nat_text(m / 100) + if cents == 0 {
        seq![]
    } else if cents % 10 == 0 {
        seq!['.', digit_char((cents / 10) as int)]
    } else {
        seq!['.', digit_char((cents / 10) as int), digit_char((cents % 10) as int)]
    }
}

/// Appends the decimal text of `n` to `s`.
fn push_nat(s: &mut String, n: u64)
    ensures
        final(s)@ == old(s)@ + nat_text(n as nat),
    decreases n,
{
    if n < 10 {
        push_char(s, digit_to_char(n));
    } else {
        push_nat(s, n / 10);
        push_char(s, digit_to_char(n % 10));
        assert(nat_text(n as nat) == nat_text((n / 10) as nat).push(digit_char((n % 10) as int)));
    }
}

/// The character of digit `d`.
fn digit_to_char(d: u64) -> (c: char)
    requires
        d < 10,
    ensures
        c == digit_char(d as int),
{
    let b: u8 = 48 + d as u8;
    b as char
}

/// The magnitude of `c` as an unsigned number.
fn magnitude_of(c: i64) -> (m: u64)
    ensures
        m == magnitude(c as int),
{
    if c < 0 {
        let p: i64 = -(c + 1);
        (p as u64) + 1
    } else {
        c as u64
    }
}

/// Writes `cents` hundredths with exactly two decimals (`{:.2}`).
pub fn format_fixed2(cents: i64) -> (r: String)
    ensures
        r@ == fixed2_text(cents as int),
{
    let m = magnitude_of(cents);
    let mut r = String::new();
    if cents < 0 {
        push_char(&mut r, '-');
    }
    assert(r@ == sign_text(cents as int));
    push_nat(&mut r, m / 100);
    push_char(&mut r, '.');
    push_char(&mut r, digit_to_char((m % 100) / 10));
    push_char(&mut r, digit_to_char(m % 10));
    assert(r@ =~= fixed2_text(cents as int));
    r
}

/// Writes `cents` hundredths in the shortest decimal form (`{}`).
pub fn format_plain(cents: i64) -> (r: String)
    ensures
        r@ == plain_text(cents as int),
{
    let m = magnitude_of(cents);
    let mut r = String::new();
    if cents < 0 {
        push_char(&mut r, '-');
    }
    assert(r@ == sign_text(cents as int));
    push_nat(&mut r, m / 100);
    let ghost head = r@;
    let c = m % 100;
    if c != 0 {
        push_char(&mut r, '.');
        push_char(&mut r, digit_to_char(c / 10));
        if c % 10 != 0 {
            push_char(&mut r, digit_to_char(c % 10));
        }
    }
    assert(r@ =~= plain_text(cents as int));
    r
}


/// Index of the first character of `s` that is `a` or `b`, or `s.len()`
/// where there is none.
pub open spec fn first_of(s: Seq<char>, a: char, b: char) -> nat
    decreases s.len(),
{
    if s.len() == 0 {
        0
    } else if s[0] == a || s[0] == b {
        0
    } else {
        1 + first_of(s.drop_first(), a, b)
    }
}

/// The text starts with a `'+'` or `'-'` sign.
pub open spec fn has_sign(s: Seq<char>) -> bool {
    s.len() > 0 && (s[0] == '-' || s[0] == '+')
}

/// The text after the sign, if any.
pub open spec fn unsigned_part(s: Seq<char>) -> Seq<char> {
    if has_sign(s) {
        s.drop_first()
    } else {
        s
    }
}

/// An exponent marker `e` or `E` stands in `b`.
pub open spec fn has_exponent(b: Seq<char>) -> bool {
    first_of(b, 'e', 'E') < b.len()
}

/// The text before the exponent marker.
pub open spec fn mantissa_part(b: Seq<char>) -> Seq<char> {
    b.take(first_of(b, 'e', 'E') as int)
}

/// The text after the exponent marker (nothing without one).
pub open spec fn exponent_part(b: Seq<char>) -> Seq<char> {
    if has_exponent(b) {
        b.skip(first_of(b, 'e', 'E') as int + 1)
    } else {
        seq![]
    }
}

/// The digits of the mantissa `m` before its decimal point.
pub open spec fn whole_digits(m: Seq<char>) -> Seq<char> {
    m.take(first_of(m, '.', '.') as int)
}

/// The digits of the mantissa `m` after its decimal point (none without a
/// point).
pub open spec fn fraction_digits(m: Seq<char>) -> Seq<char> {
    if first_of(m, '.', '.') < m.len() {
        m.skip(first_of(m, '.', '.') as int + 1)
    } else {
        seq![]
    }
}

/// The value of the exponent text `e`: an optional sign and digits.
pub open spec fn exponent_value(e: Seq<char>) -> int {
    if has_sign(e) && e[0] == '-' {
        -digits_value(unsigned_part(e))
    } else {
        digits_value(unsigned_part(e)) as int
    }
}

/// A decimal number as `f64` parsing reads one: an optional sign, digits
/// with at most one decimal point and at least one digit, and optionally
/// `e` or `E` with an optionally signed exponent of at least one digit.
pub open spec fn is_amount_text(s: Seq<char>) -> bool {
    let b = unsigned_part(s);
    let m = mantissa_part(b);
    let e = exponent_part(b);
    &&& all_digits(whole_digits(m))
    &&& all_digits(fraction_digits(m))
    &&& whole_digits(m).len() + fraction_digits(m).len() > 0
    &&& has_exponent(b) ==> unsigned_part(e).len() > 0 && all_digits(unsigned_part(e))
}

/// Ten to the power `n`.
pub open spec fn pow10(n: nat) -> nat
    decreases n,
{
    if n == 0 {
        1
    } else {
        10 * pow10((n - 1) as nat)
    }
}

/// The number written by the digits `d` with a point after the first `p`
/// of them, rounded half away from zero to a whole number.
pub open spec fn rounded_at(d: Seq<char>, p: int) -> nat {
    if p < 0 {
        0
    } else if p < d.len() {
        digits_value(d.take(p)) + if digit_value(d[p]) >= 5 {
            1nat
        } else {
            0nat
        }
    } else {
        digits_value(d) * pow10((p - d.len()) as nat)
    }
}

/// The hundredths that the unsigned number `b` stands for, rounded half
/// away from zero.
pub open spec fn unsigned_cents(b: Seq<char>) -> nat {
    let m = mantissa_part(b);
    rounded_at(
        whole_digits(m) + fraction_digits(m),
        whole_digits(m).len() + 2 + exponent_value(exponent_part(b)),
    )
}

/// The hundredths that the amount text `s` stands for.
pub open spec fn amount_cents(s: Seq<char>) -> int {
    if has_sign(s) && s[0] == '-' {
        -unsigned_cents(unsigned_part(s))
    } else {
        unsigned_cents(unsigned_part(s)) as int
    }
}

/// The amount that `s` denotes, in hundredths, where `s` is a decimal number
/// whose rounded magnitude fits in an `i64`.
pub open spec fn parsed_amount(s: Seq<char>) -> Option<int> {
    if is_amount_text(s) && magnitude(amount_cents(s)) <= i64::MAX {
        Some(amount_cents(s))
    } else {
        None
    }
}

proof fn lemma_first_of(s: Seq<char>, a: char, b: char, d: int)
    requires
        0 <= d <= s.len(),
        forall|j: int| 0 <= j < d ==> s[j] != a && s[j] != b,
        d == s.len() || s[d] == a || s[d] == b,
    ensures
        first_of(s, a, b) == d,
    decreases s.len(),
{
    if s.len() > 0 && d > 0 {
        let s1 = s.drop_first();
        assert forall|j: int| 0 <= j < d - 1 implies s1[j] != a && s1[j] != b by {
            assert(s1[j] == s[j + 1]);
        }
        if d < s.len() {
            assert(s1[d - 1] == s[d]);
        }
        lemma_first_of(s1, a, b, d - 1);
    }
}

proof fn lemma_pow10_grows(n: nat)
    ensures
        pow10(n) >= n + 1,
    decreases n,
{
    if n > 0 {
        lemma_pow10_grows((n - 1) as nat);
    }
}

/// Position of the first `a` or `b` among `v[from..to]`, or `to`.
fn find_first(v: &Vec<char>, from: usize, to: usize, a: char, b: char) -> (k: usize)
    requires
        from <= to <= v@.len(),
    ensures
        from <= k <= to,
        first_of(v@.subrange(from as int, to as int), a, b) == k - from,
{
    let mut k = from;
    while k < to && v[k] != a && v[k] != b
        invariant
            from <= k <= to <= v@.len(),
            forall|j: int| from <= j < k ==> v@[j] != a && v@[j] != b,
        decreases to - k,
    {
        k = k + 1;
    }
    proof {
        let s = v@.subrange(from as int, to as int);
        assert forall|j: int| 0 <= j < k - from implies s[j] != a && s[j] != b by {
            assert(s[j] == v@[j + from]);
        }
        if k < to {
            assert(s[k - from] == v@[k as int]);
        }
        lemma_first_of(s, a, b, k - from);
    }
    k
}

/// Whether `v[from..to]` is all decimal digits.
fn digits_in(v: &Vec<char>, from: usize, to: usize) -> (r: bool)
    requires
        from <= to <= v@.len(),
    ensures
        r == all_digits(v@.subrange(from as int, to as int)),
{
    let mut j = from;
    while j < to
        invariant
            from <= j <= to <= v@.len(),
            forall|i: int| from <= i < j ==> is_digit(#[trigger] v@[i]),
        decreases to - j,
    {
        if !('0' <= v[j] && v[j] <= '9') {
            assert(v@.subrange(from as int, to as int)[j - from] == v@[j as int]);
            return false;
        }
        j = j + 1;
    }
    assert forall|i: int| 0 <= i < to - from implies is_digit(#[trigger] v@.subrange(from as int, to as int)[i]) by {
        assert(v@.subrange(from as int, to as int)[i] == v@[i + from]);
    }
    true
}

/// The number written by the digits `v[from..to]` when it is at most `cap`.
fn capped_value(v: &Vec<char>, from: usize, to: usize, cap: u128) -> (r: Option<u128>)
    requires
        from <= to <= v@.len(),
        all_digits(v@.subrange(from as int, to as int)),
        cap <= 1_000_000_000_000_000_000_000_000_000_000u128,
    ensures
        match r {
            Some(x) => x == digits_value(v@.subrange(from as int, to as int)) && x <= cap,
            None => digits_value(v@.subrange(from as int, to as int)) > cap,
        },
{
    let ghost w = v@.subrange(from as int, to as int);
    let mut acc: u128 = 0;
    let mut j: usize = from;
    assert(w.take(0) =~= seq![]);
    while j < to
        invariant
            from <= j <= to <= v@.len(),
            w == v@.subrange(from as int, to as int),
            all_digits(w),
            cap <= 1_000_000_000_000_000_000_000_000_000_000u128,
            acc == digits_value(w.take(j - from)),
            acc <= cap,
        decreases to - j,
    {
        let c = v[j];
        assert(w[j - from] == c);
        assert(is_digit(w[j - from]));
        let d = (c as u32 - 48) as u128;
        let ghost p = w.take(j - from);
        let ghost p1 = w.take(j + 1 - from);
        assert(p1.drop_last() =~= p);
        assert(p1.last() == c);
        assert(digits_value(p1) == digits_value(p) * 10 + digit_value(c));
        let next = acc * 10 + d;
        if next > cap {
            proof {
                lemma_digits_prefix_le(w, j + 1 - from);
            }
            return None;
        }
        acc = next;
        j = j + 1;
    }
    assert(w.take(to - from) =~= w);
    Some(acc)
}

proof fn lemma_digits_prefix_le(w: Seq<char>, k: int)
    requires
        0 <= k <= w.len(),
        all_digits(w),
    ensures
        digits_value(w.take(k)) <= digits_value(w),
    decreases w.len() - k,
{
    if k < w.len() {
        lemma_digits_prefix_le(w, k + 1);
        let p1 = w.take(k + 1);
        assert(p1.drop_last() =~= w.take(k));
        assert(is_digit(w[k]));
        assert(p1.last() == w[k]);
    } else {
        assert(w.take(k) =~= w);
    }
}

/// Appends `v[from..to]` to `d`.
fn append_range(d: &mut Vec<char>, v: &Vec<char>, from: usize, to: usize)
    requires
        from <= to <= v@.len(),
    ensures
        final(d)@ == old(d)@ + v@.subrange(from as int, to as int),
{
    let mut j = from;
    while j < to
        invariant
            from <= j <= to <= v@.len(),
            d@ == old(d)@ + v@.subrange(from as int, j as int),
        decreases to - j,
    {
        d.push(v[j]);
        j = j + 1;
        assert(d@ =~= old(d)@ + v@.subrange(from as int, j as int));
    }
}

/// The largest magnitude an amount may have, in hundredths.
spec fn max_cents() -> int {
    i64::MAX as int
}

/// `rounded_at(d, p)`, when it is at most `i64::MAX`.
fn cents_at(d: &Vec<char>, p: i128) -> (r: Option<u128>)
    requires
        all_digits(d@),
    ensures
        match r {
            Some(x) => x == rounded_at(d@, p as int) && x <= max_cents(),
            None => rounded_at(d@, p as int) > max_cents(),
        },
{
    let cap: u128 = 9_223_372_036_854_775_807u128;
    let len = d.len();
    if p < 0 {
        return Some(0);
    }
    if p < len as i128 {
        let pu = p as usize;
        assert(d@.subrange(0, pu as int) =~= d@.take(pu as int));
        assert(all_digits(d@.take(pu as int))) by {
            assert forall|i: int| 0 <= i < pu implies is_digit(#[trigger] d@.take(pu as int)[i]) by {
                assert(d@.take(pu as int)[i] == d@[i]);
            }
        }
        match capped_value(d, 0, pu, cap) {
            None => None,
            Some(x) => {
                assert(is_digit(d@[pu as int]));
                let c = d[pu];
                let up: u128 = if (c as u32 - 48) >= 5 { 1 } else { 0 };
                if x + up > cap {
                    None
                } else {
                    Some(x + up)
                }
            },
        }
    } else {
        assert(d@.subrange(0, len as int) =~= d@);
        let ghost k = (p - len) as nat;
        assert(rounded_at(d@, p as int) == digits_value(d@) * pow10(k));
        match capped_value(d, 0, len, cap) {
            None => {
                proof {
                    lemma_pow10_grows(k);
                    assert(digits_value(d@) * pow10(k) >= digits_value(d@)) by (nonlinear_arith)
                        requires pow10(k) >= 1;
                }
                None
            },
            Some(x) => {
                if x == 0 {
                    assert(digits_value(d@) * pow10(k) == 0) by (nonlinear_arith)
                        requires digits_value(d@) == 0;
                    return Some(0);
                }
                let cnt: i128 = p - len as i128;
                assert(pow10(0) == 1);
                assert(x * pow10(0) == x);
                let mut val: u128 = x;
                let mut j: i128 = 0;
                while j < cnt
                    invariant
                        0 <= j <= cnt,
                        cnt == k,
                        rounded_at(d@, p as int) == digits_value(d@) * pow10(k),
                        x == digits_value(d@),
                        x >= 1,
                        cap == 9_223_372_036_854_775_807u128,
                        val == x * pow10(j as nat),
                        val <= cap,
                    decreases cnt - j,
                {
                    let next = val * 10;
                    proof {
                        assert(pow10((j + 1) as nat) == 10 * pow10(j as nat));
                        assert(next == x * pow10((j + 1) as nat)) by (nonlinear_arith)
                            requires
                                next == val * 10,
                                val == x * pow10(j as nat),
                                pow10((j + 1) as nat) == 10 * pow10(j as nat);
                    }
                    if next > cap {
                        proof {
                            lemma_pow10_mono((j + 1) as nat, cnt as nat);
                            assert(x * pow10(cnt as nat) >= x * pow10((j + 1) as nat)) by (nonlinear_arith)
                                requires pow10(cnt as nat) >= pow10((j + 1) as nat), x >= 1;
                        }
                        return None;
                    }
                    val = next;
                    j = j + 1;
                }
                Some(val)
            },
        }
    }
}

/// With the point so far right of the digits `d`, the rounded number is 0
/// for digits of value 0 and exceeds any `i64` otherwise.
proof fn lemma_rounded_far(d: Seq<char>, p: int)
    requires
        p >= d.len() + max_cents(),
    ensures
        digits_value(d) == 0 ==> rounded_at(d, p) == 0,
        digits_value(d) > 0 ==> rounded_at(d, p) > max_cents(),
{
    let k = (p - d.len()) as nat;
    lemma_pow10_grows(k);
    if digits_value(d) > 0 {
        assert(digits_value(d) * pow10(k) >= pow10(k)) by (nonlinear_arith)
            requires digits_value(d) >= 1;
    }
}

/// The exponent written by `v[from..to]`: `Some((x, false))` with its value
/// `x` when that is at most `10^30` in magnitude, `Some((x, true))` with `x`
/// of its sign when it is larger, `None` when the text is no exponent.
fn read_exponent(v: &Vec<char>, from: usize, to: usize) -> (r: Option<(i128, bool)>)
    requires
        from <= to <= v@.len(),
    ensures
        ({
            let e = v@.subrange(from as int, to as int);
            match r {
                None => !(unsigned_part(e).len() > 0 && all_digits(unsigned_part(e))),
                Some((x, huge)) => {
                    &&& unsigned_part(e).len() > 0 && all_digits(unsigned_part(e))
                    &&& -1_000_000_000_000_000_000_000_000_000_000 <= x <= 1_000_000_000_000_000_000_000_000_000_000
                    &&& !huge ==> x == exponent_value(e)
                    &&& huge ==> (x < 0 <==> exponent_value(e) < 0)
                    &&& huge ==> exponent_value(e) > 1_000_000_000_000_000_000_000_000_000_000
                        || exponent_value(e) < -1_000_000_000_000_000_000_000_000_000_000
                },
            }
        }),
{
    let ghost e = v@.subrange(from as int, to as int);
    let signed = from < to && (v[from] == '-' || v[from] == '+');
    let negative = from < to && v[from] == '-';
    let ds = if signed { from + 1 } else { from };
    assert(unsigned_part(e) =~= v@.subrange(ds as int, to as int));
    if ds == to {
        return None;
    }
    if !digits_in(v, ds, to) {
        return None;
    }
    match capped_value(v, ds, to, 1_000_000_000_000_000_000_000_000_000_000u128) {
        Some(x) => Some((if negative { -(x as i128) } else { x as i128 }, false)),
        None => Some((if negative { -1 } else { 1 }, true)),
    }
}

/// The digits of the mantissa `v[from..to]` without its point, and how
/// many of them stand before the point; `None` when it is no mantissa.
fn read_mantissa(v: &Vec<char>, from: usize, to: usize) -> (r: Option<(Vec<char>, usize)>)
    requires
        from <= to <= v@.len(),
    ensures
        ({
            let m = v@.subrange(from as int, to as int);
            match r {
                None => !(all_digits(whole_digits(m)) && all_digits(fraction_digits(m))
                    && whole_digits(m).len() + fraction_digits(m).len() > 0),
                Some((d, wl)) => {
                    &&& all_digits(whole_digits(m)) && all_digits(fraction_digits(m))
                    &&& d@ == whole_digits(m) + fraction_digits(m)
                    &&& d@.len() > 0
                    &&& wl == whole_digits(m).len()
                },
            }
        }),
{
    let ghost m = v@.subrange(from as int, to as int);
    let k = find_first(v, from, to, '.', '.');
    let ghost w = whole_digits(m);
    let ghost f = fraction_digits(m);
    assert(w =~= v@.subrange(from as int, k as int));
    let frac_from = if k < to { k + 1 } else { to };
    assert(f =~= v@.subrange(frac_from as int, to as int));
    if !digits_in(v, from, k) {
        return None;
    }
    if !digits_in(v, frac_from, to) {
        return None;
    }
    if k - from + (to - frac_from) == 0 {
        return None;
    }
    let mut d: Vec<char> = Vec::new();
    append_range(&mut d, v, from, k);
    append_range(&mut d, v, frac_from, to);
    assert(d@ =~= w + f);
    Some((d, k - from))
}

/// Reads a decimal amount into hundredths, rounding half away from zero.
/// The text is what `f64` parsing reads as a finite decimal number: an
/// optional sign, digits with at most one point, and an optional exponent.
/// Returns `None` for other text and for amounts whose rounded magnitude
/// does not fit in an `i64`.
pub fn parse_amount(s: &str) -> (r: Option<i64>)
    ensures
        match r {
            Some(v) => parsed_amount(s@) == Some(v as int),
            None => parsed_amount(s@) is None,
        },
{
    let v = chars_of(s);
    let n = v.len();
    let signed = n > 0 && (v[0] == '-' || v[0] == '+');
    let negative = n > 0 && v[0] == '-';
    let start: usize = if signed { 1 } else { 0 };
    let ghost b = unsigned_part(s@);
    assert(b =~= v@.subrange(start as int, n as int));

    let epos = find_first(&v, start, n, 'e', 'E');
    let ghost m = mantissa_part(b);
    assert(m =~= v@.subrange(start as int, epos as int));
    let (d, wl) = match read_mantissa(&v, start, epos) {
        None => {
            return None;
        },
        Some(x) => x,
    };
    let ghost dd = whole_digits(m) + fraction_digits(m);
    assert(all_digits(dd)) by {
        let w = whole_digits(m);
        let f = fraction_digits(m);
        assert forall|i: int| 0 <= i < dd.len() implies is_digit(#[trigger] dd[i]) by {
            if i < w.len() {
                assert(dd[i] == w[i]);
            } else {
                assert(dd[i] == f[i - w.len()]);
            }
        }
    }

    let ghost e = exponent_part(b);
    let mut exp: i128 = 0;
    let mut huge = false;
    if epos < n {
        assert(e =~= v@.subrange(epos + 1, n as int));
        match read_exponent(&v, epos + 1, n) {
            None => {
                return None;
            },
            Some((x, h)) => {
                exp = x;
                huge = h;
            },
        }
    } else {
        assert(e =~= seq![]);
    }
    let ghost p = wl + 2 + exponent_value(e);
    assert(unsigned_cents(b) == rounded_at(dd, p));

    let mag: u128 = if huge {
        if exp < 0 {
            0
        } else {
            proof {
                lemma_rounded_far(dd, p);
            }
            assert(d@.subrange(0, d@.len() as int) =~= dd);
            match capped_value(&d, 0, d.len(), 9_223_372_036_854_775_807u128) {
                Some(x) => {
                    if x != 0 {
                        return None;
                    }
                    0
                },
                None => {
                    return None;
                },
            }
        }
    } else {
        match cents_at(&d, wl as i128 + 2 + exp) {
            Some(x) => x,
            None => {
                return None;
            },
        }
    };
    let mi = mag as i64;
    if negative {
        Some(-mi)
    } else {
        Some(mi)
    }
}

proof fn lemma_pow10_mono(a: nat, b: nat)
    requires
        a <= b,
    ensures
        pow10(a) <= pow10(b),
    decreases b,
{
    if a < b {
        lemma_pow10_mono(a, (b - 1) as nat);
    }
}

proof fn lemma_nat_text(n: nat)
    ensures
        nat_text(n).len() > 0,
        all_digits(nat_text(n)),
        digits_value(nat_text(n)) == n,
    decreases n,
{
    if n < 10 {
        assert(digit_value(digit_char(n as int)) == n);
        assert(nat_text(n).drop_last() =~= seq![]);
        assert(digits_value(nat_text(n).drop_last()) == 0);
        assert(digits_value(nat_text(n)) == digits_value(nat_text(n).drop_last()) * 10
            + digit_value(nat_text(n).last()));
    } else {
        lemma_nat_text(n / 10);
        let t = nat_text(n);
        let h = nat_text(n / 10);
        assert(t.drop_last() =~= h);
        assert(digit_value(t.last()) == n % 10);
        assert((n / 10) * 10 + n % 10 == n);
        assert(digits_value(t) == digits_value(h) * 10 + digit_value(t.last()));
        assert forall|i: int| 0 <= i < t.len() implies is_digit(#[trigger] t[i]) by {
            if i < h.len() {
                assert(t[i] == h[i]);
            }
        }
    }
}

/// Reading back the unsigned text made of the digits `digits`, then, when
/// `frac` is not empty, a point and the digits `frac`.
proof fn lemma_read_unsigned(digits: Seq<char>, frac: Seq<char>)
    requires
        digits.len() > 0,
        all_digits(digits),
        all_digits(frac),
    ensures
        ({
            let b = digits + if frac.len() == 0 {
                seq![]
            } else {
                seq!['.'] + frac
            };
            &&& !has_exponent(b)
            &&& mantissa_part(b) == b
            &&& whole_digits(b) == digits
            &&& fraction_digits(b) == frac
            &&& exponent_value(exponent_part(b)) == 0
            &&& unsigned_cents(b) == rounded_at(digits + frac, digits.len() as int + 2)
        }),
{
    let tail = if frac.len() == 0 {
        seq![]
    } else {
        seq!['.'] + frac
    };
    let b = digits + tail;
    assert forall|j: int| 0 <= j < b.len() implies b[j] != 'e' && b[j] != 'E' by {
        if j < digits.len() {
            assert(b[j] == digits[j]);
            assert(is_digit(digits[j]));
        } else if j > digits.len() {
            assert(b[j] == frac[j - digits.len() - 1]);
            assert(is_digit(frac[j - digits.len() - 1]));
        } else {
            assert(b[j] == '.');
        }
    }
    lemma_first_of(b, 'e', 'E', b.len() as int);
    assert(b.take(b.len() as int) =~= b);
    assert forall|j: int| 0 <= j < digits.len() implies b[j] != '.' by {
        assert(b[j] == digits[j]);
        assert(is_digit(digits[j]));
    }
    if frac.len() > 0 {
        assert(b[digits.len() as int] == '.');
        assert(b.skip(digits.len() as int + 1) =~= frac);
    } else {
        assert(b =~= digits);
    }
    lemma_first_of(b, '.', '.', digits.len() as int);
    assert(b.take(digits.len() as int) =~= digits);
    assert(exponent_part(b) =~= seq![]);
    assert(unsigned_part(seq![]) =~= seq![]);
}

proof fn lemma_read_signed(c: int, body: Seq<char>)
    requires
        body.len() > 0,
        is_digit(body[0]),
    ensures
        has_sign(sign_text(c) + body) == (c < 0),
        unsigned_part(sign_text(c) + body) == body,
        (c < 0) ==> (sign_text(c) + body)[0] == '-',
{
    let s = sign_text(c) + body;
    if c < 0 {
        assert(s[0] == '-');
        assert(s.drop_first() =~= body);
    } else {
        assert(s =~= body);
    }
}

/// The value of a digit followed by one more digit.
proof fn lemma_digits_push(a: Seq<char>, c: char)
    requires
        is_digit(c),
    ensures
        digits_value(a.push(c)) == digits_value(a) * 10 + digit_value(c),
{
    assert(a.push(c).drop_last() =~= a);
}

/// Reading back `sign_text(c) + body`, where `body` is digits, possibly
/// followed by a point and the digits `frac`, that stand for `magnitude(c)`.
proof fn lemma_read_back(c: int, digits: Seq<char>, frac: Seq<char>)
    requires
        magnitude(c) <= i64::MAX,
        digits.len() > 0,
        all_digits(digits),
        all_digits(frac),
        rounded_at(digits + frac, digits.len() as int + 2) == magnitude(c),
    ensures
        parsed_amount(
            sign_text(c) + (digits + if frac.len() == 0 {
                seq![]
            } else {
                seq!['.'] + frac
            }),
        ) == Some(c),
{
    let body = digits + if frac.len() == 0 {
        seq![]
    } else {
        seq!['.'] + frac
    };
    let s = sign_text(c) + body;
    lemma_read_unsigned(digits, frac);
    assert(body[0] == digits[0]);
    assert(is_digit(digits[0]));
    lemma_read_signed(c, body);
    assert(unsigned_part(s) == body);
    assert(is_amount_text(s));
    assert(unsigned_cents(body) == magnitude(c));
    assert(amount_cents(s) == c);
}

/// An amount written with two decimals reads back as the same amount.
pub proof fn lemma_fixed2_reads_back(c: int)
    requires
        magnitude(c) <= i64::MAX,
    ensures
        parsed_amount(fixed2_text(c)) == Some(c),
{
    let m = magnitude(c);
    let digits = nat_text(m / 100);
    let d1 = digit_char(((m % 100) / 10) as int);
    let d2 = digit_char((m % 10) as int);
    let frac = seq![d1, d2];
    lemma_nat_text(m / 100);
    assert(all_digits(frac));
    let dd = digits + frac;
    assert(dd =~= digits.push(d1).push(d2));
    lemma_digits_push(digits, d1);
    lemma_digits_push(digits.push(d1), d2);
    assert(pow10(0) == 1);
    assert(dd.len() == digits.len() + 2);
    assert(digits_value(dd) * pow10(0) == digits_value(dd));
    assert(rounded_at(dd, digits.len() as int + 2) == digits_value(dd));
    lemma_read_back(c, digits, frac);
    assert(fixed2_text(c) =~= sign_text(c) + (digits + (seq!['.'] + frac)));
}

/// An amount written in the shortest decimal form reads back as the same
/// amount.
pub proof fn lemma_plain_reads_back(c: int)
    requires
        magnitude(c) <= i64::MAX,
    ensures
        parsed_amount(plain_text(c)) == Some(c),
{
    reveal_with_fuel(pow10, 3);
    let m = magnitude(c);
    let cents = m % 100;
    let digits = nat_text(m / 100);
    let d1 = digit_char((cents / 10) as int);
    let d2 = digit_char((cents % 10) as int);
    let frac: Seq<char> = if cents == 0 {
        seq![]
    } else if cents % 10 == 0 {
        seq![d1]
    } else {
        seq![d1, d2]
    };
    lemma_nat_text(m / 100);
    assert(all_digits(frac));
    let dd = digits + frac;
    lemma_digits_push(digits, d1);
    lemma_digits_push(digits.push(d1), d2);
    if cents == 0 {
        assert(dd =~= digits);
        assert(pow10(2) == 100);
        assert(rounded_at(dd, digits.len() as int + 2) == digits_value(digits) * 100);
    } else if cents % 10 == 0 {
        assert(dd =~= digits.push(d1));
        assert(pow10(1) == 10);
        assert(rounded_at(dd, digits.len() as int + 2) == digits_value(dd) * 10);
    } else {
        assert(dd =~= digits.push(d1).push(d2));
        assert(dd.len() == digits.len() + 2);
        assert(pow10(0) == 1);
        assert(digits_value(dd) * pow10(0) == digits_value(dd));
        assert(rounded_at(dd, digits.len() as int + 2) == digits_value(dd));
    }
    lemma_read_back(c, digits, frac);
    assert(plain_text(c) =~= sign_text(c) + (digits + if frac.len() == 0 {
        seq![]
    } else {
        seq!['.'] + frac
    }));
}

proof fn lemma_digits_append(a: Seq<char>, b: Seq<char>)
    requires
        all_digits(b),
    ensures
        digits_value(a + b) == digits_value(a) * pow10(b.len()) + digits_value(b),
    decreases b.len(),
{
    if b.len() == 0 {
        assert(a + b =~= a);
        assert(digits_value(a) * pow10(0) == digits_value(a)) by (nonlinear_arith)
            requires pow10(0) == 1;
    } else {
        let b1 = b.drop_last();
        assert(all_digits(b1)) by {
            assert forall|i: int| 0 <= i < b1.len() implies is_digit(#[trigger] b1[i]) by {
                assert(b1[i] == b[i]);
            }
        }
        lemma_digits_append(a, b1);
        assert((a + b).drop_last() =~= a + b1);
        assert((a + b).last() == b.last());
        assert(is_digit(b.last()));
        let x = digits_value(a);
        let y = digits_value(b1);
        let q = pow10(b1.len());
        let d = digit_value(b.last());
        assert(pow10(b.len()) == 10 * q);
        assert(digits_value(a + b) == (x * q + y) * 10 + d);
        assert(digits_value(b) == y * 10 + d);
        assert((x * q + y) * 10 + d == x * (10 * q) + (y * 10 + d)) by (nonlinear_arith);
    }
}

proof fn lemma_digits_below(b: Seq<char>)
    requires
        all_digits(b),
    ensures
        digits_value(b) < pow10(b.len()),
    decreases b.len(),
{
    if b.len() > 0 {
        let b1 = b.drop_last();
        assert(all_digits(b1)) by {
            assert forall|i: int| 0 <= i < b1.len() implies is_digit(#[trigger] b1[i]) by {
                assert(b1[i] == b[i]);
            }
        }
        lemma_digits_below(b1);
        assert(is_digit(b.last()));
        let y = digits_value(b1);
        let q = pow10(b1.len());
        assert(pow10(b.len()) == 10 * q);
        assert(y * 10 + digit_value(b.last()) < 10 * q) by (nonlinear_arith)
            requires y < q, 0 <= digit_value(b.last()) <= 9;
    }
}

/// Reading an amount rounds to the nearest whole number of hundredths,
/// ties away from zero: the digits `d` with the point after the first `p`
/// of them (`p` at most `d.len()`, so that `k = d.len() - p` digits follow
/// it) stand for `digits_value(d) / 10^k`, and the result differs from that
/// by more than minus one half and at most one half.
pub proof fn lemma_rounded_nearest(d: Seq<char>, p: int)
    requires
        all_digits(d),
        p <= d.len(),
    ensures
        -(pow10((d.len() - p) as nat) as int) < 2 * rounded_at(d, p) * pow10((d.len() - p) as nat) - 2
            * digits_value(d) <= pow10((d.len() - p) as nat),
{
    let k = (d.len() - p) as nat;
    let v = digits_value(d);
    lemma_digits_below(d);
    if p < 0 {
        lemma_pow10_mono((d.len() + 1) as nat, k);
        assert(pow10((d.len() + 1) as nat) == 10 * pow10(d.len()));
        assert(rounded_at(d, p) == 0);
        assert(2 * rounded_at(d, p) * pow10(k) == 0) by (nonlinear_arith)
            requires rounded_at(d, p) == 0;
    } else if p == d.len() {
        assert(k == 0);
        assert(pow10(0) == 1);
        assert(rounded_at(d, p) == v * pow10(0));
        assert(2 * rounded_at(d, p) * pow10(k) - 2 * v == 0) by (nonlinear_arith)
            requires rounded_at(d, p) == v * pow10(0), pow10(0) == 1, k == 0;
    } else {
        let head = d.take(p);
        let tail = d.skip(p);
        let rest = tail.drop_first();
        assert(d =~= head + tail);
        assert(tail =~= seq![tail[0]] + rest);
        assert(all_digits(tail)) by {
            assert forall|i: int| 0 <= i < tail.len() implies is_digit(#[trigger] tail[i]) by {
                assert(tail[i] == d[i + p]);
            }
        }
        assert(all_digits(rest)) by {
            assert forall|i: int| 0 <= i < rest.len() implies is_digit(#[trigger] rest[i]) by {
                assert(rest[i] == tail[i + 1]);
            }
        }
        lemma_digits_append(head, tail);
        lemma_digits_append(seq![tail[0]], rest);
        lemma_digits_below(rest);
        assert(is_digit(tail[0]));
        assert(tail[0] == d[p]);
        let dig = digit_value(d[p]);
        let one = seq![tail[0]];
        assert(one.drop_last() =~= Seq::<char>::empty());
        assert(digits_value(one.drop_last()) == 0);
        assert(one.last() == d[p]);
        assert(digits_value(one) == digits_value(one.drop_last()) * 10 + digit_value(one.last()));
        assert(digits_value(seq![tail[0]]) == dig);
        let q = digits_value(head);
        let r = digits_value(tail);
        let big = pow10(rest.len());
        assert(tail.len() == k);
        assert(pow10(k) == 10 * big);
        assert(v == q * pow10(k) + r);
        assert(r == dig * big + digits_value(rest));
        let c = rounded_at(d, p);
        assert(c == q + if dig >= 5 { 1nat } else { 0nat });
        if dig >= 5 {
            assert(-(pow10(k) as int) < 2 * c * pow10(k) - 2 * v <= pow10(k)) by (nonlinear_arith)
                requires
                    c == q + 1,
                    v == q * pow10(k) + r,
                    r == dig * big + digits_value(rest),
                    digits_value(rest) < big,
                    pow10(k) == 10 * big,
                    5 <= dig <= 9,
                    big >= 1;
        } else {
            assert(-(pow10(k) as int) < 2 * c * pow10(k) - 2 * v <= pow10(k)) by (nonlinear_arith)
                requires
                    c == q,
                    v == q * pow10(k) + r,
                    r == dig * big + digits_value(rest),
                    digits_value(rest) < big,
                    pow10(k) == 10 * big,
                    0 <= dig < 5,
                    big >= 1;
        }
    }
}

/// A plain decimal `w.f` with at least two decimals reads as the nearest
/// whole number of hundredths, ties away from zero, when that fits: with
/// `k` the decimals beyond the second, twice the result times `10^k` is
/// within `10^k` of twice the hundredths written, `digits_value(w + f)`.
pub proof fn lemma_parse_rounds(w: Seq<char>, f: Seq<char>)
    requires
        w.len() > 0,
        all_digits(w),
        all_digits(f),
        f.len() >= 2,
    ensures
        ({
            let k = (f.len() - 2) as nat;
            let text = w + (seq!['.'] + f);
            parsed_amount(text) matches Some(c) ==> -(pow10(k) as int) < 2 * c * pow10(k) - 2
                * digits_value(w + f) <= pow10(k)
        }),
        is_amount_text(w + (seq!['.'] + f)),
{
    let text = w + (seq!['.'] + f);
    lemma_read_unsigned(w, f);
    assert(text[0] == w[0]);
    assert(is_digit(w[0]));
    assert(!has_sign(text));
    assert(unsigned_part(text) == text);
    assert(all_digits(w + f)) by {
        assert forall|i: int| 0 <= i < (w + f).len() implies is_digit(#[trigger] (w + f)[i]) by {
            if i < w.len() {
                assert((w + f)[i] == w[i]);
            } else {
                assert((w + f)[i] == f[i - w.len()]);
            }
        }
    }
    lemma_rounded_nearest(w + f, w.len() as int + 2);
    assert((w + f).len() - (w.len() + 2) == f.len() - 2);
}

} // verus!
