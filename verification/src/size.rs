//! Human-readable size parsing. All units are binary (1024-based).
//!
//! Accepted forms (case-insensitive, optional whitespace):
//!   - bare integer: bytes (e.g. `1048576`)
//!   - `K`/`KB`/`KiB`, `M`/`MB`/`MiB`, `G`/`GB`/`GiB`, `T`/`TB`/`TiB`
//!
//! The `*B` family (`MB`, `GB`) is treated as 1024-based and is equivalent to
//! the `*iB` family (`MiB`, `GiB`). A decimal number is scaled by the unit and
//! rounded to the nearest byte, halves rounding up. The scaling is exact: the
//! decimal is not first rounded to a binary floating-point value, so a number
//! with more than about fifteen significant digits keeps all of them.
use vstd::arithmetic::div_mod::*;
use vstd::arithmetic::mul::*;
use vstd::prelude::*;

use crate::error::{err_view, ErrorView, Fa10Error};
use crate::text::{is_white, owned, str_is, string_of_chars, trim, trim_end, trim_start, trim_str};

verus! {

pub const KIB: u64 = 1024;

pub const MIB: u64 = KIB * 1024;

pub const GIB: u64 = MIB * 1024;

pub const TIB: u64 = GIB * 1024;

/// A character that belongs to the numeric part of a size.
pub open spec fn is_num_char(c: char) -> bool {
    ('0' <= c && c <= '9') || c == '.' || c == '_'
}

/// The length of the leading run of numeric characters of `s`.
pub open spec fn num_prefix_len(s: Seq<char>) -> nat
    decreases s.len(),
{
    if s.len() > 0 && is_num_char(s[0]) {
        1 + num_prefix_len(s.drop_first())
    } else {
        0
    }
}

/// `c` mapped to its ASCII lower case, as `char::to_ascii_lowercase` does.
pub open spec fn lower_char(c: char) -> char {
    if 'A' <= c && c <= 'Z' {
        ((c as u32) + 32) as char
    } else {
        c
    }
}

/// `s` with every ASCII upper-case letter lowered, as `str::to_ascii_lowercase` returns it.
pub open spec fn ascii_lower(s: Seq<char>) -> Seq<char> {
    s.map_values(|c: char| lower_char(c))
}

/// How `{:?}` writes the string `s` (quoted and escaped).
pub uninterp spec fn debug_str(s: Seq<char>) -> Seq<char>;

/// `c` mapped to its ASCII lower case.
fn lower_ascii_char(c: char) -> (r: char)
    ensures
        r == lower_char(c),
{
    if 'A' <= c && c <= 'Z' {
        ((c as u8) + 32) as char
    } else {
        c
    }
}

/// `s` with every ASCII upper-case letter lowered, as `str::to_ascii_lowercase` returns it.
fn to_ascii_lowercase(s: &str) -> (r: String)
    ensures
        r@ == ascii_lower(s@),
{
    let n = s.unicode_len();
    let mut chars: Vec<char> = Vec::new();
    let mut i: usize = 0;
    while i < n
        invariant
            i <= n,
            n == s@.len(),
            chars@ == ascii_lower(s@.take(i as int)),
        decreases n - i,
    {
        let c = lower_ascii_char(s.get_char(i));
        chars.push(c);
        assert(ascii_lower(s@.take(i + 1)) =~= ascii_lower(s@.take(i as int)).push(c));
        i += 1;
    }
    assert(s@.take(n as int) == s@);
    string_of_chars(&chars)
}

/// Calls `format!("{:?}", s)`. Trusted: the result is the `Debug` rendering of
/// the string, a function of its characters alone.
#[verifier::external_body]
fn debug_string(s: &str) -> (r: String)
    ensures
        r@ == debug_str(s@),
{
    format!("{:?}", s)
}

/// The number of bytes one unit stands for, or `None` for an unknown unit.
pub open spec fn unit_multiplier(unit: Seq<char>) -> Option<u64> {
    if unit == ""@ || unit == "b"@ {
        Some(1)
    } else if unit == "k"@ || unit == "kb"@ || unit == "kib"@ {
        Some(KIB)
    } else if unit == "m"@ || unit == "mb"@ || unit == "mib"@ {
        Some(MIB)
    } else if unit == "g"@ || unit == "gb"@ || unit == "gib"@ {
        Some(GIB)
    } else if unit == "t"@ || unit == "tb"@ || unit == "tib"@ {
        Some(TIB)
    } else {
        None
    }
}

/// `s` without its underscores.
pub open spec fn without_underscores(s: Seq<char>) -> Seq<char>
    decreases s.len(),
{
    if s.len() == 0 {
        seq![]
    } else if s.last() == '_' {
        without_underscores(s.drop_last())
    } else {
        without_underscores(s.drop_last()).push(s.last())
    }
}

/// How many times `c` occurs in `s`.
pub open spec fn count_of(s: Seq<char>, c: char) -> nat
    decreases s.len(),
{
    if s.len() == 0 {
        0
    } else {
        count_of(s.drop_last(), c) + if s.last() == c {
            1nat
        } else {
            0nat
        }
    }
}

/// The index of the first `'.'` of `s` (its length when there is none).
pub open spec fn dot_index(s: Seq<char>) -> nat
    decreases s.len(),
{
    if s.len() == 0 {
        0
    } else if s[0] == '.' {
        0
    } else {
        1 + dot_index(s.drop_first())
    }
}

/// The value of an ASCII digit.
pub open spec fn digit_val(c: char) -> nat {
    ((c as u32) - ('0' as u32)) as nat
}

/// The number that a string of decimal digits denotes.
pub open spec fn digits_value(ds: Seq<char>) -> nat
    decreases ds.len(),
{
    if ds.len() == 0 {
        0
    } else {
        digits_value(ds.drop_last()) * 10 + digit_val(ds.last())
    }
}

/// Ten to the power `n`.
pub open spec fn pow10(n: nat) -> nat
    decreases n,
{
    if n == 0 {
        1
    } else {
        10 * pow10((n - 1) as nat)
    }
}

/// The decimal numeral of 2^1024 - 2^970, halfway between `f64::MAX` and
/// 2^1024: the smallest value that parses to an infinite `f64`.
pub const F64_OVERFLOW_DIGITS: &'static str = "179769313486231580793728971405303415079934132710037826936173778980444968292764750946649017977587207096330286416692887910946555547851940402630657488671505820681908902000708383676273854845817711531764475730270069855571366959622842914819860834936475292719074168444365510704342711559699508093042880177904174497792";

/// `s` without its leading zeros.
pub open spec fn strip_zeros(s: Seq<char>) -> Seq<char>
    decreases s.len(),
{
    if s.len() > 0 && s[0] == '0' {
        strip_zeros(s.drop_first())
    } else {
        s
    }
}

/// For two numerals of the same length: `a` is at least `b` in numeral order
/// (the first differing digit decides).
pub open spec fn numeral_at_least(a: Seq<char>, b: Seq<char>) -> bool
    decreases a.len(),
{
    if a.len() == 0 || b.len() == 0 {
        true
    } else if a[0] != b[0] {
        a[0] > b[0]
    } else {
        numeral_at_least(a.drop_first(), b.drop_first())
    }
}

/// The numeral `ds` denotes a value at least 2^1024 - 2^970, so that it
/// parses to an infinite `f64`.
pub open spec fn beyond_f64(ds: Seq<char>) -> bool {
    let s = strip_zeros(ds);
    let t = F64_OVERFLOW_DIGITS@;
    s.len() > t.len() || (s.len() == t.len() && numeral_at_least(s, t))
}

/// `x` rounded to the nearest integer, halves up: the value `int_digits.frac_digits`
/// scaled by `mult`, saturated at `u64::MAX`.
pub open spec fn scaled_decimal(int_digits: Seq<char>, frac_digits: Seq<char>, mult: nat) -> u64 {
    let p = pow10(frac_digits.len());
    let v = (2 * mult * (digits_value(int_digits) * p + digits_value(frac_digits)) + p) / (2 * p);
    if v > u64::MAX {
        u64::MAX
    } else {
        v as u64
    }
}

/// A `BadSize` error for `input` with `reason`.
pub open spec fn bad_size(input: Seq<char>, reason: Seq<char>) -> ErrorView {
    ErrorView::BadSize { input, reason }
}

/// The number of bytes a digit-only string (after its unit) stands for, before the zero check.
pub open spec fn spec_number_bytes(input: Seq<char>, clean: Seq<char>, mult: u64) -> Result<u64, ErrorView> {
    if count_of(clean, '.') > 0 {
        if count_of(clean, '.') != 1 || clean.len() < 2 {
            Err(bad_size(input, "invalid decimal number"@))
        } else {
            let d = dot_index(clean) as int;
            let int_digits = clean.take(d);
            let frac_digits = clean.skip(d + 1);
            if beyond_f64(int_digits) {
                Err(bad_size(input, "number must be non-negative and finite"@))
            } else {
                Ok(scaled_decimal(int_digits, frac_digits, mult as nat))
            }
        }
    } else if digits_value(clean) > u64::MAX {
        Err(bad_size(input, "invalid integer (too large?)"@))
    } else if digits_value(clean) * mult > u64::MAX {
        Err(bad_size(input, "size overflows u64"@))
    } else {
        Ok((digits_value(clean) * mult) as u64)
    }
}

/// What parsing the size string `input` gives: a byte count, or the error.
pub open spec fn spec_parse_size(input: Seq<char>) -> Result<u64, ErrorView> {
    let t = trim(input);
    if t.len() == 0 {
        Err(bad_size(input, "empty size"@))
    } else {
        let k = num_prefix_len(t) as int;
        let unit = ascii_lower(trim(t.skip(k)));
        match unit_multiplier(unit) {
            None => Err(bad_size(input, "unknown unit "@ + debug_str(unit))),
            Some(mult) => {
                let clean = without_underscores(t.take(k));
                if clean.len() == 0 {
                    Err(bad_size(input, "missing number"@))
                } else {
                    match spec_number_bytes(input, clean, mult) {
                        Err(e) => Err(e),
                        Ok(bytes) => if bytes == 0 {
                            Err(bad_size(input, "size must be greater than zero"@))
                        } else {
                            Ok(bytes)
                        },
                    }
                }
            },
        }
    }
}

fn bad(input: &str, reason: &str) -> (e: Fa10Error)
    ensures
        e@ == bad_size(input@, reason@),
{
    Fa10Error::BadSize { input: owned(input), reason: owned(reason) }
}

fn unit_bytes(unit: &str) -> (r: Option<u64>)
    ensures
        r == unit_multiplier(unit@),
{
    if str_is(unit, "") || str_is(unit, "b") {
        Some(1)
    } else if str_is(unit, "k") || str_is(unit, "kb") || str_is(unit, "kib") {
        Some(KIB)
    } else if str_is(unit, "m") || str_is(unit, "mb") || str_is(unit, "mib") {
        Some(MIB)
    } else if str_is(unit, "g") || str_is(unit, "gb") || str_is(unit, "gib") {
        Some(GIB)
    } else if str_is(unit, "t") || str_is(unit, "tb") || str_is(unit, "tib") {
        Some(TIB)
    } else {
        None
    }
}

fn is_num(c: char) -> (r: bool)
    ensures
        r == is_num_char(c),
{
    ('0' <= c && c <= '9') || c == '.' || c == '_'
}

/// Every character of `s` is an ASCII digit.
pub open spec fn all_digits(s: Seq<char>) -> bool {
    forall|i: int| 0 <= i < s.len() ==> '0' <= #[trigger] s[i] && s[i] <= '9'
}

/// A digit string denotes less than ten to the power of its length.
pub proof fn lemma_digits_value_bound(ds: Seq<char>)
    requires
        all_digits(ds),
    ensures
        digits_value(ds) < pow10(ds.len()),
    decreases ds.len(),
{
    if ds.len() > 0 {
        let init = ds.drop_last();
        assert(all_digits(init)) by {
            assert forall|i: int| 0 <= i < init.len() implies '0' <= #[trigger] init[i] && init[i] <= '9' by {
                assert(init[i] == ds[i]);
            }
        }
        lemma_digits_value_bound(init);
        let v = digits_value(init);
        let p = pow10(init.len());
        assert(ds.last() == ds[ds.len() - 1]);
        assert(digit_val(ds.last()) <= 9);
        assert(v * 10 + digit_val(ds.last()) < 10 * p) by (nonlinear_arith)
            requires
                v < p,
                digit_val(ds.last()) <= 9,
        ;
    }
}

/// A digit string's value grows (weakly) as digits are appended.
pub proof fn lemma_digits_value_prefix(ds: Seq<char>, k: int)
    requires
        0 <= k <= ds.len(),
    ensures
        digits_value(ds.take(k)) <= digits_value(ds),
    decreases ds.len(),
{
    if k < ds.len() {
        assert(ds.drop_last().take(k) == ds.take(k));
        lemma_digits_value_prefix(ds.drop_last(), k);
        let v = digits_value(ds.drop_last());
        assert(v <= v * 10 + digit_val(ds.last())) by (nonlinear_arith);
    } else {
        assert(ds.take(k) == ds);
    }
}

/// The value of a digit string, read from its first digit.
pub proof fn lemma_digits_value_first(ds: Seq<char>)
    requires
        ds.len() > 0,
    ensures
        digits_value(ds) == digit_val(ds[0]) * pow10((ds.len() - 1) as nat) + digits_value(
            ds.drop_first(),
        ),
    decreases ds.len(),
{
    if ds.len() == 1 {
        assert(ds.drop_last().len() == 0);
        assert(ds.drop_first().len() == 0);
        assert(ds.last() == ds[0]);
        let d = digit_val(ds[0]);
        let q = pow10((ds.len() - 1) as nat);
        assert(q == 1);
        assert(d * q == d) by (nonlinear_arith)
            requires
                q == 1,
        ;
        assert(digits_value(ds.drop_last()) == 0);
        assert(digits_value(ds.drop_first()) == 0);
        assert(digits_value(ds) == d);
    } else {
        let init = ds.drop_last();
        lemma_digits_value_first(init);
        assert(init.drop_first() == ds.drop_first().drop_last());
        assert(ds.drop_first().last() == ds.last());
        let a = digit_val(ds[0]);
        let p = pow10((init.len() - 1) as nat);
        let w = digits_value(init.drop_first());
        assert(init[0] == ds[0]);
        assert(pow10((ds.len() - 1) as nat) == 10 * p);
        assert(digits_value(ds.drop_first()) == w * 10 + digit_val(ds.last()));
        let q = pow10((ds.len() - 1) as nat);
        let l = digit_val(ds.last());
        assert((a * p + w) * 10 + l == a * q + (w * 10 + l)) by (nonlinear_arith)
            requires
                q == 10 * p,
        ;
        assert(digits_value(init) == a * p + w);
        assert(digits_value(ds) == digits_value(init) * 10 + l);
        assert(digits_value(ds.drop_first()) == w * 10 + l);
        assert(digits_value(ds) == a * q + digits_value(ds.drop_first()));
    }
}

/// Leading zeros do not change a digit string's value.
pub proof fn lemma_digits_value_leading_zeros(ds: Seq<char>, k: int)
    requires
        0 <= k <= ds.len(),
        forall|i: int| 0 <= i < k ==> #[trigger] ds[i] == '0',
    ensures
        digits_value(ds) == digits_value(ds.skip(k)),
    decreases k,
{
    if k > 0 {
        lemma_digits_value_first(ds);
        assert(digit_val(ds[0]) == 0);
        let q = pow10((ds.len() - 1) as nat);
        assert(digit_val(ds[0]) * q == 0) by (nonlinear_arith)
            requires
                digit_val(ds[0]) == 0,
        ;
        assert(ds.drop_first().skip(k - 1) == ds.skip(k));
        assert forall|i: int| 0 <= i < k - 1 implies #[trigger] ds.drop_first()[i] == '0' by {
            assert(ds.drop_first()[i] == ds[i + 1]);
        }
        lemma_digits_value_leading_zeros(ds.drop_first(), k - 1);
    } else {
        assert(ds.skip(0) == ds);
    }
}

/// Two digit strings of the same length compare as the first place where they differ.
pub proof fn lemma_digits_value_lex(a: Seq<char>, b: Seq<char>, i: int)
    requires
        a.len() == b.len(),
        0 <= i < a.len(),
        all_digits(a),
        all_digits(b),
        a.take(i) == b.take(i),
        a[i] < b[i],
    ensures
        digits_value(a) < digits_value(b),
    decreases a.len(),
{
    if i == a.len() - 1 {
        assert(a.drop_last() == a.take(i));
        assert(b.drop_last() == b.take(i));
        assert(digit_val(a.last()) < digit_val(b.last()));
    } else {
        let a0 = a.drop_last();
        let b0 = b.drop_last();
        assert(a0.take(i) == a.take(i));
        assert(b0.take(i) == b.take(i));
        assert(a0[i] == a[i] && b0[i] == b[i]);
        assert(all_digits(a0)) by {
            assert forall|j: int| 0 <= j < a0.len() implies '0' <= #[trigger] a0[j] && a0[j] <= '9' by {
                assert(a0[j] == a[j]);
            }
        }
        assert(all_digits(b0)) by {
            assert forall|j: int| 0 <= j < b0.len() implies '0' <= #[trigger] b0[j] && b0[j] <= '9' by {
                assert(b0[j] == b[j]);
            }
        }
        lemma_digits_value_lex(a0, b0, i);
        let va = digits_value(a0);
        let vb = digits_value(b0);
        assert(a.last() == a[a.len() - 1] && b.last() == b[b.len() - 1]);
        let da = digit_val(a.last());
        let db = digit_val(b.last());
        assert(da <= 9);
        assert(va * 10 + da < vb * 10 + db) by (nonlinear_arith)
            requires
                va < vb,
                da <= 9,
        ;
    }
}

/// The value of a digit string extended by one digit.
pub proof fn lemma_digits_value_step(ds: Seq<char>, i: int)
    requires
        0 <= i < ds.len(),
    ensures
        digits_value(ds.take(i + 1)) == digits_value(ds.take(i)) * 10 + digit_val(ds[i]),
{
    assert(ds.take(i + 1).drop_last() == ds.take(i));
    assert(ds.take(i + 1).last() == ds[i]);
}

fn digit_of(c: char) -> (d: u64)
    requires
        '0' <= c <= '9',
    ensures
        d == digit_val(c),
        d <= 9,
{
    (c as u32 - '0' as u32) as u64
}

/// The value of an all-digit string, or `None` when it exceeds `u64::MAX`.
fn integer_value(ds: &[char]) -> (r: Option<u64>)
    requires
        all_digits(ds@),
    ensures
        r is Some <==> digits_value(ds@) <= u64::MAX,
        r matches Some(v) ==> v == digits_value(ds@),
{
    let mut acc: u64 = 0;
    let mut i: usize = 0;
    assert(ds@.take(0).len() == 0);
    while i < ds.len()
        invariant
            i <= ds@.len(),
            all_digits(ds@),
            acc == digits_value(ds@.take(i as int)),
        decreases ds@.len() - i,
    {
        assert('0' <= ds@[i as int] <= '9');
        let d = digit_of(ds[i]);
        proof {
            lemma_digits_value_step(ds@, i as int);
        }
        if acc > (u64::MAX - d) / 10 {
            proof {
                lemma_digits_value_prefix(ds@, i + 1);
            }
            return None;
        }
        acc = acc * 10 + d;
        i += 1;
    }
    assert(ds@.take(i as int) == ds@);
    Some(acc)
}

/// Whether the numeral `ds` parses to an infinite `f64`.
fn reaches_f64_overflow(ds: &[char]) -> (r: bool)
    ensures
        r == beyond_f64(ds@),
{
    let mut k: usize = 0;
    assert(ds@.skip(0) == ds@);
    while k < ds.len() && ds[k] == '0'
        invariant
            k <= ds@.len(),
            strip_zeros(ds@) == strip_zeros(ds@.skip(k as int)),
        decreases ds@.len() - k,
    {
        assert(ds@.skip(k as int).drop_first() == ds@.skip(k + 1));
        k += 1;
    }
    let ghost s = ds@.skip(k as int);
    assert(strip_zeros(s) == s);
    let t = F64_OVERFLOW_DIGITS;
    let tl = t.unicode_len();
    let total = ds.len();
    let len = total - k;
    if len > tl {
        return true;
    }
    if len < tl {
        return false;
    }
    let mut i: usize = 0;
    assert(s.skip(0) == s);
    assert(t@.skip(0) == t@);
    assert(s.len() == len);
    while i < len
        invariant
            i <= len,
            s.len() == len,
            len == tl,
            tl == t@.len(),
            k + len == total,
            total == ds@.len(),
            t@ == F64_OVERFLOW_DIGITS@,
            s == ds@.skip(k as int),
            strip_zeros(ds@) == s,
            numeral_at_least(s, t@) == numeral_at_least(s.skip(i as int), t@.skip(i as int)),
        decreases len - i,
    {
        let a = ds[k + i];
        let b = t.get_char(i);
        assert(s.skip(i as int)[0] == a);
        assert(t@.skip(i as int)[0] == b);
        if a != b {
            assert(s.skip(i as int).len() > 0 && t@.skip(i as int).len() > 0);
            assert(numeral_at_least(s.skip(i as int), t@.skip(i as int)) == (a > b));
            return a > b;
        }
        assert(s.skip(i as int).drop_first() == s.skip(i + 1));
        assert(t@.skip(i as int).drop_first() == t@.skip(i + 1));
        i += 1;
    }
    true
}

/// `(p * a + n) / p == a + n / p` for a positive divisor and a non-negative `n`.
pub proof fn lemma_div_add_multiple(a: int, n: int, p: int)
    requires
        p > 0,
        n >= 0,
    ensures
        (p * a + n) / p == a + n / p,
{
    lemma_fundamental_div_mod(n, p);
    lemma_mod_pos_bound(n, p);
    let q = n / p;
    let r = n % p;
    assert(p * a + n == p * (a + q) + r) by (nonlinear_arith)
        requires
            n == p * q + r,
    ;
    lemma_div_multiples_vanish_fancy(a + q, r, p);
}

/// One step of reading fraction digits from the last: folding a digit `d` in
/// front of a fraction of value `v / p` keeps `floor(m * fraction)`.
pub proof fn lemma_fraction_step(m: int, d: int, v: int, p: int)
    requires
        m >= 0,
        d >= 0,
        v >= 0,
        p > 0,
    ensures
        (m * (d * p + v)) / (p * 10) == (m * d + (m * v) / p) / 10,
{
    let x = m * (d * p + v);
    assert(x == p * (m * d) + m * v) by (nonlinear_arith)
        requires
            x == m * (d * p + v),
    ;
    assert(m * v >= 0) by (nonlinear_arith)
        requires
            m >= 0,
            v >= 0,
    ;
    assert(x >= 0) by (nonlinear_arith)
        requires
            x == m * (d * p + v),
            m >= 0,
            d >= 0,
            v >= 0,
            p > 0,
    ;
    lemma_div_denominator(x, p, 10);
    lemma_div_add_multiple(m * d, m * v, p);
}

/// `floor(m2 * fraction)` for the fraction `0.frac`, read from its last digit.
fn fraction_units(frac: &[char], m2: u64) -> (c: u64)
    requires
        all_digits(frac@),
        1 <= m2 <= 2 * TIB,
    ensures
        c == (m2 * digits_value(frac@)) / (pow10(frac@.len()) as int),
        c < m2,
{
    let n = frac.len();
    let mut c: u64 = 0;
    let mut j: usize = n;
    assert(frac@.skip(n as int).len() == 0);
    assert(digits_value(frac@.skip(n as int)) == 0);
    assert(pow10(0) == 1);
    while j > 0
        invariant
            j <= n,
            n == frac@.len(),
            all_digits(frac@),
            1 <= m2 <= 2 * TIB,
            c == (m2 * digits_value(frac@.skip(j as int))) / (pow10((n - j) as nat) as int),
            c < m2,
        decreases j,
    {
        let ghost old_c = c;
        let ghost tail = frac@.skip(j as int);
        let ghost l = (n - j) as nat;
        assert('0' <= frac@[j - 1] <= '9');
        let d = digit_of(frac[j - 1]);
        assert(m2 * d <= m2 * 9) by (nonlinear_arith)
            requires
                d <= 9,
        ;
        c = (m2 * d + c) / 10;
        j -= 1;
        proof {
            let sfx = frac@.skip(j as int);
            assert(sfx.drop_first() == tail);
            assert(sfx[0] == frac@[j as int]);
            lemma_digits_value_first(sfx);
            assert(sfx.len() - 1 == l);
            let p = pow10(l);
            assert(pow10((n - j) as nat) == p * 10);
            assert(all_digits(sfx)) by {
                assert forall|i: int| 0 <= i < sfx.len() implies '0' <= #[trigger] sfx[i] && sfx[i]
                    <= '9' by {
                    assert(sfx[i] == frac@[j + i]);
                }
            }
            lemma_pow10_positive(l);
            lemma_fraction_step(m2 as int, d as int, digits_value(tail) as int, p as int);
            lemma_digits_value_bound(sfx);
            let v = digits_value(sfx);
            let q = pow10((n - j) as nat);
            assert((m2 * v) / (q as int) < m2) by (nonlinear_arith)
                requires
                    v < q,
                    q > 0,
                    m2 >= 1,
            ;
        }
    }
    assert(frac@.skip(0) == frac@);
    c
}

/// Ten to any power is positive.
pub proof fn lemma_pow10_positive(n: nat)
    ensures
        pow10(n) > 0,
    decreases n,
{
    if n > 0 {
        lemma_pow10_positive((n - 1) as nat);
    }
}

/// The rounded, scaled decimal is the scaled integer part plus the rounded
/// scaled fraction.
pub proof fn lemma_scaled_split(i: int, f: int, m: int, p: int, c: int)
    requires
        i >= 0,
        f >= 0,
        m >= 1,
        p > 0,
        c == (2 * m * f) / p,
    ensures
        (2 * m * (i * p + f) + p) / (2 * p) == i * m + (c + 1) / 2,
{
    let y = 2 * m * f + p;
    assert(2 * m * (i * p + f) + p == (2 * p) * (i * m) + y) by (nonlinear_arith)
        requires
            y == 2 * m * f + p,
    ;
    assert(2 * m * f >= 0) by (nonlinear_arith)
        requires
            m >= 1,
            f >= 0,
    ;
    lemma_div_add_multiple(i * m, y, 2 * p);
    lemma_div_denominator(y, p, 2);
    assert(p * 2 == 2 * p);
    assert(y == p * 1 + 2 * m * f);
    lemma_div_add_multiple(1, 2 * m * f, p);
}

/// The first `'.'` of `s` sits at `d`.
pub proof fn lemma_dot_index_at(s: Seq<char>, d: int)
    requires
        0 <= d < s.len(),
        s[d] == '.',
        forall|j: int| 0 <= j < d ==> s[j] != '.',
    ensures
        dot_index(s) == d,
    decreases d,
{
    if d > 0 {
        assert forall|j: int| 0 <= j < d - 1 implies s.drop_first()[j] != '.' by {
            assert(s.drop_first()[j] == s[j + 1]);
        }
        lemma_dot_index_at(s.drop_first(), d - 1);
    }
}

/// A character that may stand in a numeral once its underscores are gone.
pub open spec fn digit_or_dot(c: char) -> bool {
    ('0' <= c && c <= '9') || c == '.'
}

/// The characters of `num` without its underscores.
fn clean_digits(num: &str) -> (clean: Vec<char>)
    requires
        forall|i: int| 0 <= i < num@.len() ==> is_num_char(#[trigger] num@[i]),
    ensures
        clean@ == without_underscores(num@),
        forall|i: int| 0 <= i < clean@.len() ==> digit_or_dot(#[trigger] clean@[i]),
{
    let n = num.unicode_len();
    let mut clean: Vec<char> = Vec::new();
    let mut i: usize = 0;
    assert(num@.take(0).len() == 0);
    while i < n
        invariant
            i <= n,
            n == num@.len(),
            forall|j: int| 0 <= j < num@.len() ==> is_num_char(#[trigger] num@[j]),
            clean@ == without_underscores(num@.take(i as int)),
            forall|j: int| 0 <= j < clean@.len() ==> digit_or_dot(#[trigger] clean@[j]),
        decreases n - i,
    {
        let c = num.get_char(i);
        assert(num@.take(i + 1).drop_last() == num@.take(i as int));
        assert(num@.take(i + 1).last() == c);
        assert(is_num_char(num@[i as int]));
        if c != '_' {
            clean.push(c);
        }
        i += 1;
    }
    assert(num@.take(n as int) == num@);
    clean
}

/// The byte count of a numeral made of digits and dots, scaled by `mult`,
/// before the zero check.
fn number_bytes(input: &str, clean: &Vec<char>, mult: u64) -> (r: Result<u64, Fa10Error>)
    requires
        1 <= mult <= TIB,
        forall|i: int| 0 <= i < clean@.len() ==> digit_or_dot(#[trigger] clean@[i]),
    ensures
        err_view(r) == spec_number_bytes(input@, clean@, mult),
{
    let n = clean.len();
    let mut dots: usize = 0;
    let mut first: usize = n;
    let mut i: usize = 0;
    assert(clean@.take(0).len() == 0);
    while i < n
        invariant
            i <= n,
            n == clean@.len(),
            dots <= i,
            dots == count_of(clean@.take(i as int), '.'),
            dots == 0 ==> first == n && forall|j: int| 0 <= j < i ==> clean@[j] != '.',
            dots > 0 ==> first < i && clean@[first as int] == '.' && forall|j: int|
                0 <= j < first ==> clean@[j] != '.',
            dots == 1 ==> forall|j: int| 0 <= j < i && j != first ==> clean@[j] != '.',
        decreases n - i,
    {
        assert(clean@.take(i + 1).drop_last() == clean@.take(i as int));
        assert(clean@.take(i + 1).last() == clean@[i as int]);
        if clean[i] == '.' {
            if dots == 0 {
                first = i;
            }
            dots += 1;
        }
        i += 1;
    }
    assert(clean@.take(n as int) == clean@);
    if dots > 0 {
        if dots != 1 || n < 2 {
            return Err(bad(input, "invalid decimal number"));
        }
        proof {
            lemma_dot_index_at(clean@, first as int);
        }
        let int_digits = &clean.as_slice()[0..first];
        let frac = &clean.as_slice()[first + 1..n];
        assert(int_digits@ == clean@.take(first as int));
        assert(frac@ == clean@.skip(first + 1));
        if reaches_f64_overflow(int_digits) {
            return Err(bad(input, "number must be non-negative and finite"));
        }
        assert(all_digits(int_digits@)) by {
            assert forall|j: int| 0 <= j < int_digits@.len() implies '0' <= #[trigger] int_digits@[j]
                && int_digits@[j] <= '9' by {
                assert(int_digits@[j] == clean@[j]);
                assert(digit_or_dot(clean@[j]));
            }
        }
        assert(all_digits(frac@)) by {
            assert forall|j: int| 0 <= j < frac@.len() implies '0' <= #[trigger] frac@[j] && frac@[j]
                <= '9' by {
                assert(frac@[j] == clean@[first + 1 + j]);
                assert(digit_or_dot(clean@[first + 1 + j]));
            }
        }
        let c = fraction_units(frac, 2 * mult);
        let ghost iv = digits_value(int_digits@) as int;
        let ghost fv = digits_value(frac@) as int;
        let ghost p = pow10(frac@.len()) as int;
        proof {
            lemma_pow10_positive(frac@.len());
            lemma_scaled_split(iv, fv, mult as int, p, c as int);
            assert(iv * mult >= iv) by (nonlinear_arith)
                requires
                    iv >= 0,
                    mult >= 1,
            ;
        }
        let bytes = match integer_value(int_digits) {
            None => u64::MAX,
            Some(whole) => match whole.checked_mul(mult) {
                None => u64::MAX,
                Some(scaled) => match scaled.checked_add((c + 1) / 2) {
                    None => u64::MAX,
                    Some(total) => total,
                },
            },
        };
        Ok(bytes)
    } else {
        assert(all_digits(clean@)) by {
            assert forall|j: int| 0 <= j < clean@.len() implies '0' <= #[trigger] clean@[j]
                && clean@[j] <= '9' by {
                assert(digit_or_dot(clean@[j]));
            }
        }
        let value = match integer_value(clean.as_slice()) {
            Some(v) => v,
            None => {
                return Err(bad(input, "invalid integer (too large?)"));
            },
        };
        match value.checked_mul(mult) {
            Some(bytes) => Ok(bytes),
            None => Err(bad(input, "size overflows u64")),
        }
    }
}

/// Parse a human-readable size string into a byte count (binary units).
pub fn parse_size(input: &str) -> (r: Result<u64, Fa10Error>)
    ensures
        err_view(r) == spec_parse_size(input@),
{
    let trimmed = trim_str(input);
    let n = trimmed.unicode_len();
    if n == 0 {
        return Err(bad(input, "empty size"));
    }

    // Split the leading numeric portion from the unit suffix.
    let mut split: usize = 0;
    assert(trimmed@.skip(0) == trimmed@);
    while split < n && is_num(trimmed.get_char(split))
        invariant
            split <= n,
            n == trimmed@.len(),
            num_prefix_len(trimmed@) == split + num_prefix_len(trimmed@.skip(split as int)),
            forall|j: int| 0 <= j < split ==> is_num_char(#[trigger] trimmed@[j]),
        decreases n - split,
    {
        assert(trimmed@.skip(split as int).drop_first() == trimmed@.skip(split + 1));
        split += 1;
    }
    assert(num_prefix_len(trimmed@.skip(split as int)) == 0);
    let num_part = trimmed.substring_char(0, split);
    let unit_part = trimmed.substring_char(split, n);
    assert(num_part@ == trimmed@.take(split as int));
    assert(unit_part@ == trimmed@.skip(split as int));
    let unit = to_ascii_lowercase(trim_str(unit_part));

    let multiplier = match unit_bytes(unit.as_str()) {
        Some(m) => m,
        None => {
            let mut reason = owned("unknown unit ");
            let shown = debug_string(unit.as_str());
            reason.append(shown.as_str());
            return Err(Fa10Error::BadSize { input: owned(input), reason });
        },
    };

    let clean = clean_digits(num_part);
    if clean.len() == 0 {
        return Err(bad(input, "missing number"));
    }
    let bytes = match number_bytes(input, &clean, multiplier) {
        Ok(b) => b,
        Err(e) => {
            return Err(e);
        },
    };
    if bytes == 0 {
        return Err(bad(input, "size must be greater than zero"));
    }
    Ok(bytes)
}


/// The numeric part of a size as written: digits, dots and underscores.
pub open spec fn is_numeral(n: Seq<char>) -> bool {
    forall|i: int| 0 <= i < n.len() ==> #[trigger] is_num_char(n[i])
}

/// A unit as written right after a number: not empty, not starting with a
/// numeric character, and with no white space around it.
pub open spec fn is_unit_text(u: Seq<char>) -> bool {
    &&& u.len() > 0
    &&& !is_num_char(u[0])
    &&& !is_white(u[0])
    &&& !is_white(u.last())
}

/// The leading run of numeric characters of a numeral followed by a unit is
/// the numeral.
pub proof fn lemma_num_prefix_of_numeral(n: Seq<char>, u: Seq<char>)
    requires
        is_numeral(n),
        u.len() > 0,
        !is_num_char(u[0]),
    ensures
        num_prefix_len(n + u) == n.len(),
    decreases n.len(),
{
    if n.len() == 0 {
        assert(n + u == u);
    } else {
        assert((n + u).drop_first() == n.drop_first() + u);
        assert(is_num_char(n[0]));
        assert(is_numeral(n.drop_first())) by {
            assert forall|i: int| 0 <= i < n.drop_first().len() implies #[trigger] is_num_char(
                n.drop_first()[i],
            ) by {
                assert(n.drop_first()[i] == n[i + 1]);
            }
        }
        lemma_num_prefix_of_numeral(n.drop_first(), u);
    }
}

/// A numeral followed by a unit, and the unit alone, have no white space to trim.
pub proof fn lemma_trim_numeral_unit(n: Seq<char>, u: Seq<char>)
    requires
        is_numeral(n),
        is_unit_text(u),
    ensures
        trim(n + u) == n + u,
        trim(u) == u,
{
    let s = n + u;
    assert(s.last() == u.last());
    if n.len() > 0 {
        assert(s[0] == n[0]);
        assert(is_num_char(n[0]));
    } else {
        assert(s[0] == u[0]);
    }
    assert(!is_white(s[0]));
    assert(trim_start(s) == s);
    assert(trim_end(s) == s);
    assert(trim_start(u) == u);
    assert(trim_end(u) == u);
}

/// What a numeral followed by a unit parses to, spelled out.
pub proof fn lemma_parse_numeral_unit(n: Seq<char>, u: Seq<char>)
    requires
        is_numeral(n),
        is_unit_text(u),
    ensures
        spec_parse_size(n + u) == (match unit_multiplier(ascii_lower(u)) {
            None => Err(bad_size(n + u, "unknown unit "@ + debug_str(ascii_lower(u)))),
            Some(mult) => if without_underscores(n).len() == 0 {
                Err(bad_size(n + u, "missing number"@))
            } else {
                match spec_number_bytes(n + u, without_underscores(n), mult) {
                    Err(e) => Err(e),
                    Ok(bytes) => if bytes == 0 {
                        Err(bad_size(n + u, "size must be greater than zero"@))
                    } else {
                        Ok(bytes)
                    },
                }
            },
        }),
{
    lemma_trim_numeral_unit(n, u);
    lemma_num_prefix_of_numeral(n, u);
    assert((n + u).skip(n.len() as int) == u);
    assert((n + u).take(n.len() as int) == n);
}

/// Law: spellings of one unit mean the same thing. `KB`, `KiB` and `K`, in
/// any case, all stand for 1024 bytes (likewise for M, G and T, and `B`
/// for bytes): a number written with either of two units of the same size
/// parses to the same byte count, or is refused with both.
pub proof fn law_unit_spellings_agree(n: Seq<char>, u1: Seq<char>, u2: Seq<char>)
    requires
        is_numeral(n),
        is_unit_text(u1),
        is_unit_text(u2),
        unit_multiplier(ascii_lower(u1)) == unit_multiplier(ascii_lower(u2)),
    ensures
        spec_parse_size(n + u1) is Ok <==> spec_parse_size(n + u2) is Ok,
        spec_parse_size(n + u1) is Ok ==> spec_parse_size(n + u1) == spec_parse_size(n + u2),
{
    lemma_parse_numeral_unit(n, u1);
    lemma_parse_numeral_unit(n, u2);
}


/// A digit string has no underscores to drop and no decimal point.
pub proof fn lemma_digits_plain(n: Seq<char>)
    requires
        all_digits(n),
    ensures
        without_underscores(n) == n,
        count_of(n, '.') == 0,
        is_numeral(n),
    decreases n.len(),
{
    if n.len() > 0 {
        let init = n.drop_last();
        assert(all_digits(init)) by {
            assert forall|i: int| 0 <= i < init.len() implies '0' <= #[trigger] init[i] && init[i]
                <= '9' by {
                assert(init[i] == n[i]);
            }
        }
        lemma_digits_plain(init);
        assert(n.last() == n[n.len() - 1]);
        assert(init.push(n.last()) == n);
    }
    assert forall|i: int| 0 <= i < n.len() implies #[trigger] is_num_char(n[i]) by {
        assert('0' <= n[i] && n[i] <= '9');
    }
}

/// A whole number of digits followed by a unit of `p` bytes parses to the
/// number times `p`, when that fits in a `u64`.
pub proof fn lemma_parse_digits_unit(n: Seq<char>, u: Seq<char>, p: nat)
    requires
        n.len() > 0,
        all_digits(n),
        digits_value(n) > 0,
        is_unit_text(u),
        unit_multiplier(ascii_lower(u)) == Some(p as u64),
        p >= 1,
        digits_value(n) * p <= u64::MAX,
    ensures
        spec_parse_size(n + u) == Ok::<u64, ErrorView>((digits_value(n) * p) as u64),
{
    lemma_digits_plain(n);
    lemma_parse_numeral_unit(n, u);
    let v = digits_value(n);
    assert(v <= v * p && p <= v * p && v * p > 0) by (nonlinear_arith)
        requires
            p >= 1,
            v >= 1,
    ;
    assert(spec_number_bytes(n + u, n, p as u64) == Ok::<u64, ErrorView>((v * p) as u64));
}

/// The unit table, spelling by spelling.
proof fn lemma_unit_table()
    ensures
        unit_multiplier("b"@) == Some(1u64),
        unit_multiplier("k"@) == Some(1024u64),
        unit_multiplier("kb"@) == Some(1024u64),
        unit_multiplier("kib"@) == Some(1024u64),
        unit_multiplier("m"@) == Some(1048576u64),
        unit_multiplier("mb"@) == Some(1048576u64),
        unit_multiplier("mib"@) == Some(1048576u64),
        unit_multiplier("g"@) == Some(1073741824u64),
        unit_multiplier("gb"@) == Some(1073741824u64),
        unit_multiplier("gib"@) == Some(1073741824u64),
        unit_multiplier("t"@) == Some(1099511627776u64),
        unit_multiplier("tb"@) == Some(1099511627776u64),
        unit_multiplier("tib"@) == Some(1099511627776u64),
{
    reveal_strlit("");
    reveal_strlit("b");
    reveal_strlit("k");
    reveal_strlit("kb");
    reveal_strlit("kib");
    reveal_strlit("m");
    reveal_strlit("mb");
    reveal_strlit("mib");
    reveal_strlit("g");
    reveal_strlit("gb");
    reveal_strlit("gib");
    reveal_strlit("t");
    reveal_strlit("tb");
    reveal_strlit("tib");
    assert("b"@ =~= seq!['b']);
    assert("k"@ =~= seq!['k']);
    assert("kb"@ =~= seq!['k', 'b']);
    assert("kib"@ =~= seq!['k', 'i', 'b']);
    assert("m"@ =~= seq!['m']);
    assert("mb"@ =~= seq!['m', 'b']);
    assert("mib"@ =~= seq!['m', 'i', 'b']);
    assert("g"@ =~= seq!['g']);
    assert("gb"@ =~= seq!['g', 'b']);
    assert("gib"@ =~= seq!['g', 'i', 'b']);
    assert("t"@ =~= seq!['t']);
    assert("tb"@ =~= seq!['t', 'b']);
    assert("tib"@ =~= seq!['t', 'i', 'b']);
    assert(""@ =~= Seq::<char>::empty());
    assert("k"@ != "b"@) by {
        assert("k"@[0] != "b"@[0]);
    }
    assert("m"@ != "b"@) by {
        assert("m"@[0] != "b"@[0]);
    }
    assert("m"@ != "k"@) by {
        assert("m"@[0] != "k"@[0]);
    }
    assert("mb"@ != "kb"@) by {
        assert("mb"@[0] != "kb"@[0]);
    }
    assert("mib"@ != "kib"@) by {
        assert("mib"@[0] != "kib"@[0]);
    }
    assert("g"@ != "b"@) by {
        assert("g"@[0] != "b"@[0]);
    }
    assert("g"@ != "k"@) by {
        assert("g"@[0] != "k"@[0]);
    }
    assert("g"@ != "m"@) by {
        assert("g"@[0] != "m"@[0]);
    }
    assert("gb"@ != "kb"@) by {
        assert("gb"@[0] != "kb"@[0]);
    }
    assert("gb"@ != "mb"@) by {
        assert("gb"@[0] != "mb"@[0]);
    }
    assert("gib"@ != "kib"@) by {
        assert("gib"@[0] != "kib"@[0]);
    }
    assert("gib"@ != "mib"@) by {
        assert("gib"@[0] != "mib"@[0]);
    }
    assert("t"@ != "b"@) by {
        assert("t"@[0] != "b"@[0]);
    }
    assert("t"@ != "k"@) by {
        assert("t"@[0] != "k"@[0]);
    }
    assert("t"@ != "m"@) by {
        assert("t"@[0] != "m"@[0]);
    }
    assert("t"@ != "g"@) by {
        assert("t"@[0] != "g"@[0]);
    }
    assert("tb"@ != "kb"@) by {
        assert("tb"@[0] != "kb"@[0]);
    }
    assert("tb"@ != "mb"@) by {
        assert("tb"@[0] != "mb"@[0]);
    }
    assert("tb"@ != "gb"@) by {
        assert("tb"@[0] != "gb"@[0]);
    }
    assert("tib"@ != "kib"@) by {
        assert("tib"@[0] != "kib"@[0]);
    }
    assert("tib"@ != "mib"@) by {
        assert("tib"@[0] != "mib"@[0]);
    }
    assert("tib"@ != "gib"@) by {
        assert("tib"@[0] != "gib"@[0]);
    }
}

/// A unit as written in the canonical case lowers to its table spelling.
proof fn lemma_unit_spellings()
    ensures
        ascii_lower("B"@) == "b"@ && is_unit_text("B"@),
        ascii_lower("K"@) == "k"@ && is_unit_text("K"@),
        ascii_lower("KB"@) == "kb"@ && is_unit_text("KB"@),
        ascii_lower("KiB"@) == "kib"@ && is_unit_text("KiB"@),
        ascii_lower("M"@) == "m"@ && is_unit_text("M"@),
        ascii_lower("MB"@) == "mb"@ && is_unit_text("MB"@),
        ascii_lower("MiB"@) == "mib"@ && is_unit_text("MiB"@),
        ascii_lower("G"@) == "g"@ && is_unit_text("G"@),
        ascii_lower("GB"@) == "gb"@ && is_unit_text("GB"@),
        ascii_lower("GiB"@) == "gib"@ && is_unit_text("GiB"@),
        ascii_lower("T"@) == "t"@ && is_unit_text("T"@),
        ascii_lower("TB"@) == "tb"@ && is_unit_text("TB"@),
        ascii_lower("TiB"@) == "tib"@ && is_unit_text("TiB"@),
{
    reveal_strlit("b");
    reveal_strlit("k");
    reveal_strlit("kb");
    reveal_strlit("kib");
    reveal_strlit("m");
    reveal_strlit("mb");
    reveal_strlit("mib");
    reveal_strlit("g");
    reveal_strlit("gb");
    reveal_strlit("gib");
    reveal_strlit("t");
    reveal_strlit("tb");
    reveal_strlit("tib");
    reveal_strlit("B");
    reveal_strlit("K");
    reveal_strlit("KB");
    reveal_strlit("KiB");
    reveal_strlit("M");
    reveal_strlit("MB");
    reveal_strlit("MiB");
    reveal_strlit("G");
    reveal_strlit("GB");
    reveal_strlit("GiB");
    reveal_strlit("T");
    reveal_strlit("TB");
    reveal_strlit("TiB");
    assert(ascii_lower("B"@) =~= "b"@);
    assert(ascii_lower("K"@) =~= "k"@);
    assert(ascii_lower("KB"@) =~= "kb"@);
    assert(ascii_lower("KiB"@) =~= "kib"@);
    assert(ascii_lower("M"@) =~= "m"@);
    assert(ascii_lower("MB"@) =~= "mb"@);
    assert(ascii_lower("MiB"@) =~= "mib"@);
    assert(ascii_lower("G"@) =~= "g"@);
    assert(ascii_lower("GB"@) =~= "gb"@);
    assert(ascii_lower("GiB"@) =~= "gib"@);
    assert(ascii_lower("T"@) =~= "t"@);
    assert(ascii_lower("TB"@) =~= "tb"@);
    assert(ascii_lower("TiB"@) =~= "tib"@);
}

/// Law: each unit stands for its fixed number of bytes, all binary. A whole
/// number `n` (digits only, not zero) followed by `B` is `n` bytes; by `K`,
/// `KB` or `KiB` it is `n * 2^10`; by `M`, `MB` or `MiB` `n * 2^20`; by `G`,
/// `GB` or `GiB` `n * 2^30`; by `T`, `TB` or `TiB` `n * 2^40` (so `GB` is a
/// gibibyte, not a mebibyte or 10^9), whenever the product fits in a `u64`.
pub proof fn law_unit_sizes(n: Seq<char>)
    requires
        n.len() > 0,
        all_digits(n),
        digits_value(n) > 0,
    ensures
        digits_value(n) <= u64::MAX ==> spec_parse_size(n + "B"@) == Ok::<u64, ErrorView>(
            digits_value(n) as u64,
        ),
        digits_value(n) * 1024 <= u64::MAX ==> {
            &&& spec_parse_size(n + "K"@) == Ok::<u64, ErrorView>((digits_value(n) * 1024) as u64)
            &&& spec_parse_size(n + "KB"@) == Ok::<u64, ErrorView>((digits_value(n) * 1024) as u64)
            &&& spec_parse_size(n + "KiB"@) == Ok::<u64, ErrorView>((digits_value(n) * 1024) as u64)
        },
        digits_value(n) * 1048576 <= u64::MAX ==> {
            &&& spec_parse_size(n + "M"@) == Ok::<u64, ErrorView>((digits_value(n) * 1048576) as u64)
            &&& spec_parse_size(n + "MB"@) == Ok::<u64, ErrorView>((digits_value(n) * 1048576) as u64)
            &&& spec_parse_size(n + "MiB"@) == Ok::<u64, ErrorView>(
                (digits_value(n) * 1048576) as u64,
            )
        },
        digits_value(n) * 1073741824 <= u64::MAX ==> {
            &&& spec_parse_size(n + "G"@) == Ok::<u64, ErrorView>(
                (digits_value(n) * 1073741824) as u64,
            )
            &&& spec_parse_size(n + "GB"@) == Ok::<u64, ErrorView>(
                (digits_value(n) * 1073741824) as u64,
            )
            &&& spec_parse_size(n + "GiB"@) == Ok::<u64, ErrorView>(
                (digits_value(n) * 1073741824) as u64,
            )
        },
        digits_value(n) * 1099511627776 <= u64::MAX ==> {
            &&& spec_parse_size(n + "T"@) == Ok::<u64, ErrorView>(
                (digits_value(n) * 1099511627776) as u64,
            )
            &&& spec_parse_size(n + "TB"@) == Ok::<u64, ErrorView>(
                (digits_value(n) * 1099511627776) as u64,
            )
            &&& spec_parse_size(n + "TiB"@) == Ok::<u64, ErrorView>(
                (digits_value(n) * 1099511627776) as u64,
            )
        },
{
    lemma_unit_table();
    lemma_unit_spellings();
    if digits_value(n) <= u64::MAX {
        lemma_parse_digits_unit(n, "B"@, 1);
    }
    if digits_value(n) * 1024 <= u64::MAX {
        lemma_parse_digits_unit(n, "K"@, 1024);
        lemma_parse_digits_unit(n, "KB"@, 1024);
        lemma_parse_digits_unit(n, "KiB"@, 1024);
    }
    if digits_value(n) * 1048576 <= u64::MAX {
        lemma_parse_digits_unit(n, "M"@, 1048576);
        lemma_parse_digits_unit(n, "MB"@, 1048576);
        lemma_parse_digits_unit(n, "MiB"@, 1048576);
    }
    if digits_value(n) * 1073741824 <= u64::MAX {
        lemma_parse_digits_unit(n, "G"@, 1073741824);
        lemma_parse_digits_unit(n, "GB"@, 1073741824);
        lemma_parse_digits_unit(n, "GiB"@, 1073741824);
    }
    if digits_value(n) * 1099511627776 <= u64::MAX {
        lemma_parse_digits_unit(n, "T"@, 1099511627776);
        lemma_parse_digits_unit(n, "TB"@, 1099511627776);
        lemma_parse_digits_unit(n, "TiB"@, 1099511627776);
    }
}

} // verus!
