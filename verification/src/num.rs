//! Numbers: values carry the IEEE-754 bit pattern of a double, the
//! arithmetic and conversions run through a software implementation of the
//! same format, and the decimal rendering is the shortest text that parses
//! back to the same pattern.

use vstd::prelude::*;
use rustc_apfloat::Float;
use crate::text::{find_char, lemma_find_char_at, lemma_find_char_missing, scan_char, ulen};

verus! {

/// Bit pattern of the quiet NaN that division and modulo by zero yield.
pub const NAN_BITS: u64 = 0x7ff8000000000000;

/// Bit pattern of the double 1.0.
pub const ONE_BITS: u64 = 0x3ff0000000000000;

/// Bit pattern of the double 0.0.
pub const ZERO_BITS: u64 = 0;

/// The sign bit of a double's bit pattern.
pub open spec fn sign_bits(b: u64) -> u64 {
    b >> 63
}

/// The biased exponent field of a double's bit pattern.
pub open spec fn exp_bits(b: u64) -> u64 {
    (b >> 52) & 0x7ff
}

/// The fraction field of a double's bit pattern.
pub open spec fn frac_bits(b: u64) -> u64 {
    b & 0xf_ffff_ffff_ffff
}

/// The bit pattern with the sign bit cleared: the magnitude.
pub open spec fn mag_bits(b: u64) -> u64 {
    b & 0x7fff_ffff_ffff_ffff
}

/// Whether the bit pattern encodes a NaN.
pub open spec fn is_nan_bits(b: u64) -> bool {
    exp_bits(b) == 0x7ff && frac_bits(b) != 0
}

/// Whether the bit pattern encodes an infinity.
pub open spec fn is_inf_bits(b: u64) -> bool {
    exp_bits(b) == 0x7ff && frac_bits(b) == 0
}

/// Whether the bit pattern encodes a zero of either sign.
pub open spec fn is_zero_bits(b: u64) -> bool {
    mag_bits(b) == 0
}

/// IEEE-754 equality on bit patterns: NaN equals nothing, the two zeros
/// are equal, and every other value equals exactly its own pattern.
pub open spec fn num_eq(a: u64, b: u64) -> bool {
    &&& !is_nan_bits(a)
    &&& !is_nan_bits(b)
    &&& (if is_zero_bits(a) && is_zero_bits(b) {
        true
    } else {
        a == b
    })
}

/// IEEE-754 strict order on bit patterns: false whenever either side is a
/// NaN; otherwise sign first, then magnitude, with the two zeros equal.
/// For one sign the encoding is monotone in the value, so magnitudes
/// compare as plain integers.
pub open spec fn num_lt(a: u64, b: u64) -> bool {
    &&& !is_nan_bits(a)
    &&& !is_nan_bits(b)
    &&& !(is_zero_bits(a) && is_zero_bits(b))
    &&& (if sign_bits(a) == 1 && sign_bits(b) == 0 {
        true
    } else if sign_bits(a) == 0 && sign_bits(b) == 1 {
        false
    } else if sign_bits(a) == 0 {
        mag_bits(a) < mag_bits(b)
    } else {
        mag_bits(b) < mag_bits(a)
    })
}

/// The negated pattern: IEEE-754 negation flips exactly the sign bit.
pub open spec fn num_neg(b: u64) -> u64 {
    b ^ 0x8000_0000_0000_0000
}

/// Whether the pattern encodes a NaN.
pub fn is_nan(b: u64) -> (r: bool)
    ensures
        r == is_nan_bits(b),
{
    (b >> 52) & 0x7ff == 0x7ff && b & 0xf_ffff_ffff_ffff != 0
}

/// Whether the pattern encodes an infinity.
pub fn is_inf(b: u64) -> (r: bool)
    ensures
        r == is_inf_bits(b),
{
    (b >> 52) & 0x7ff == 0x7ff && b & 0xf_ffff_ffff_ffff == 0
}

/// Whether the pattern encodes a zero of either sign.
pub fn is_zero(b: u64) -> (r: bool)
    ensures
        r == is_zero_bits(b),
{
    b & 0x7fff_ffff_ffff_ffff == 0
}

/// IEEE-754 equality of two doubles, on their bit patterns.
pub fn nums_equal(a: u64, b: u64) -> (r: bool)
    ensures
        r == num_eq(a, b),
{
    if is_nan(a) || is_nan(b) {
        false
    } else if is_zero(a) && is_zero(b) {
        true
    } else {
        a == b
    }
}

/// IEEE-754 strict less-than of two doubles, on their bit patterns.
pub fn nums_less(a: u64, b: u64) -> (r: bool)
    ensures
        r == num_lt(a, b),
{
    if is_nan(a) || is_nan(b) {
        false
    } else if is_zero(a) && is_zero(b) {
        false
    } else {
        let sa = a >> 63;
        let sb = b >> 63;
        if sa == 1 && sb == 0 {
            true
        } else if sa == 0 && sb == 1 {
            false
        } else if sa == 0 {
            a & 0x7fff_ffff_ffff_ffff < b & 0x7fff_ffff_ffff_ffff
        } else {
            b & 0x7fff_ffff_ffff_ffff < a & 0x7fff_ffff_ffff_ffff
        }
    }
}

/// Negates a double by flipping the sign bit of its pattern.
pub fn num_negate(b: u64) -> (r: u64)
    ensures
        r == num_neg(b),
{
    b ^ 0x8000_0000_0000_0000
}

/// What the IEEE-754 sum of two doubles is, as bit patterns.
pub uninterp spec fn num_sum(a: u64, b: u64) -> u64;

/// What the IEEE-754 difference of two doubles is, as bit patterns.
pub uninterp spec fn num_diff(a: u64, b: u64) -> u64;

/// What the IEEE-754 product of two doubles is, as bit patterns.
pub uninterp spec fn num_prod(a: u64, b: u64) -> u64;

/// What the IEEE-754 quotient of two doubles is, as bit patterns.
pub uninterp spec fn num_quot(a: u64, b: u64) -> u64;

/// What the C-style remainder (fmod) of two doubles is, as bit patterns.
pub uninterp spec fn num_rem(a: u64, b: u64) -> u64;

/// What a 32-bit signed integer converts to as a double, as a bit pattern.
pub uninterp spec fn num_of_i32(i: i32) -> u64;

/// What a 32-bit unsigned integer converts to as a double, as a bit pattern.
pub uninterp spec fn num_of_u32(u: u32) -> u64;

/// What a double truncates to as a 32-bit signed integer: toward zero,
/// saturating at the ends of the range, zero for NaN.
pub uninterp spec fn i32_of_num(b: u64) -> i32;

/// What a double truncates to as a 32-bit unsigned integer: toward zero,
/// saturating at the ends of the range, zero for NaN.
pub uninterp spec fn u32_of_num(b: u64) -> u32;

/// What the scientific rendering of a double with a given number of
/// significant digits is.
pub uninterp spec fn sci_text_of(b: u64, p: usize) -> Seq<char>;

/// What a decimal text parses to as a double, correctly rounded; nothing
/// when the text is not a number.
pub uninterp spec fn num_of_text(s: Seq<char>) -> Option<u64>;

/// What an integer literal with an optional 0x, 0o or 0b prefix and
/// underscores parses to as a 32-bit signed integer.
pub uninterp spec fn int_text_val(s: Seq<char>) -> Option<i32>;

/// Relies on rustc_apfloat's IEEE-754 binary64 addition: the result
/// depends on the two bit patterns alone.
#[verifier::external_body]
pub fn fl_add(a: u64, b: u64) -> (r: u64)
    ensures
        r == num_sum(a, b),
{
    let x = rustc_apfloat::ieee::Double::from_bits(a as u128);
    let y = rustc_apfloat::ieee::Double::from_bits(b as u128);
    (x + y).value.to_bits() as u64
}

/// Relies on rustc_apfloat's IEEE-754 binary64 subtraction.
#[verifier::external_body]
pub fn fl_sub(a: u64, b: u64) -> (r: u64)
    ensures
        r == num_diff(a, b),
{
    let x = rustc_apfloat::ieee::Double::from_bits(a as u128);
    let y = rustc_apfloat::ieee::Double::from_bits(b as u128);
    (x - y).value.to_bits() as u64
}

/// Relies on rustc_apfloat's IEEE-754 binary64 multiplication.
#[verifier::external_body]
pub fn fl_mul(a: u64, b: u64) -> (r: u64)
    ensures
        r == num_prod(a, b),
{
    let x = rustc_apfloat::ieee::Double::from_bits(a as u128);
    let y = rustc_apfloat::ieee::Double::from_bits(b as u128);
    (x * y).value.to_bits() as u64
}

/// Relies on rustc_apfloat's IEEE-754 binary64 division.
#[verifier::external_body]
pub fn fl_div(a: u64, b: u64) -> (r: u64)
    ensures
        r == num_quot(a, b),
{
    let x = rustc_apfloat::ieee::Double::from_bits(a as u128);
    let y = rustc_apfloat::ieee::Double::from_bits(b as u128);
    (x / y).value.to_bits() as u64
}

/// Relies on rustc_apfloat's c_fmod: the C-style remainder of two doubles.
#[verifier::external_body]
pub fn fl_rem(a: u64, b: u64) -> (r: u64)
    ensures
        r == num_rem(a, b),
{
    let x = rustc_apfloat::ieee::Double::from_bits(a as u128);
    let y = rustc_apfloat::ieee::Double::from_bits(b as u128);
    (x % y).value.to_bits() as u64
}

/// Relies on rustc_apfloat's integer-to-double conversion, exact for every
/// 32-bit integer.
#[verifier::external_body]
pub fn fl_of_i32(i: i32) -> (r: u64)
    ensures
        r == num_of_i32(i),
{
    rustc_apfloat::ieee::Double::from_i128(i as i128).value.to_bits() as u64
}

/// Relies on rustc_apfloat's integer-to-double conversion, exact for every
/// 32-bit unsigned integer.
#[verifier::external_body]
pub fn fl_of_u32(u: u32) -> (r: u64)
    ensures
        r == num_of_u32(u),
{
    rustc_apfloat::ieee::Double::from_u128(u as u128).value.to_bits() as u64
}

/// Relies on rustc_apfloat's double-to-integer conversion with rounding
/// toward zero: saturates at the range ends and maps NaN to zero.
#[verifier::external_body]
pub fn fl_to_i32(b: u64) -> (r: i32)
    ensures
        r == i32_of_num(b),
{
    let x = rustc_apfloat::ieee::Double::from_bits(b as u128);
    x.to_i128(32).value as i32
}

/// Relies on rustc_apfloat's double-to-unsigned conversion with rounding
/// toward zero: saturates at the range ends and maps NaN to zero.
#[verifier::external_body]
pub fn fl_to_u32(b: u64) -> (r: u32)
    ensures
        r == u32_of_num(b),
{
    let x = rustc_apfloat::ieee::Double::from_bits(b as u128);
    x.to_u128(32).value as u32
}

/// Relies on rustc_apfloat's scientific formatting of a double with an
/// explicit number of significant digits; seventeen digits always suffice
/// for a double, and the bound keeps the formatter's internal digit
/// arithmetic far from its limits.
#[verifier::external_body]
pub fn fl_fmt_sci(b: u64, p: usize) -> (r: String)
    requires
        1 <= p <= 17,
    ensures
        r@ == sci_text_of(b, p),
{
    let x = rustc_apfloat::ieee::Double::from_bits(b as u128);
    format!("{:w$.p$}", x, w = 0usize, p = p)
}

/// Relies on rustc_apfloat's correctly rounded decimal-to-double parsing.
#[verifier::external_body]
pub fn fl_parse(s: &str) -> (r: Option<u64>)
    ensures
        r == num_of_text(s@),
{
    match rustc_apfloat::ieee::Double::from_str_r(s, rustc_apfloat::Round::NearestTiesToEven) {
        Ok(sa) => Some(sa.value.to_bits() as u64),
        Err(_) => None,
    }
}

/// Relies on parse_int::parse::<i32>: an integer literal in decimal, or
/// with a 0x, 0o or 0b prefix, underscores allowed.
#[verifier::external_body]
pub fn parse_i32(s: &str) -> (r: Option<i32>)
    ensures
        r == int_text_val(s@),
{
    match parse_int::parse::<i32>(s) {
        Ok(v) => Some(v),
        Err(_) => None,
    }
}

/// Whether a character is a decimal digit.
pub open spec fn is_digit(c: char) -> bool {
    '0' <= c && c <= '9'
}

/// The value of a decimal digit.
pub open spec fn digit_val(c: char) -> int {
    c as int - '0' as int
}

/// Whether every character of the text is a decimal digit.
pub open spec fn all_digits(s: Seq<char>) -> bool {
    forall|i: int| 0 <= i < s.len() ==> is_digit(#[trigger] s[i])
}

/// The value of a digit string read in base ten.
pub open spec fn dec_val(s: Seq<char>) -> int
    decreases s.len(),
{
    if s.len() == 0 {
        0
    } else {
        dec_val(s.drop_last()) * 10 + digit_val(s.last())
    }
}

/// A run of zero characters.
pub open spec fn zeros(n: int) -> Seq<char> {
    Seq::new(
        if n > 0 {
            n as nat
        } else {
            0
        },
        |i: int| '0',
    )
}

/// The text with its trailing zero characters removed.
pub open spec fn strip_tz(s: Seq<char>) -> Seq<char>
    decreases s.len(),
{
    if s.len() > 0 && s.last() == '0' {
        strip_tz(s.drop_last())
    } else {
        s
    }
}

/// Whether a scientific rendering carries a leading minus sign.
pub open spec fn sci_neg(s: Seq<char>) -> bool {
    s.len() > 0 && s[0] == '-'
}

/// The rendering without its sign.
pub open spec fn sci_body(s: Seq<char>) -> Seq<char> {
    if sci_neg(s) {
        s.skip(1)
    } else {
        s
    }
}

/// The position of the exponent marker in the unsigned body.
pub open spec fn sci_eidx(s: Seq<char>) -> Option<int> {
    find_char(sci_body(s), 'E', 0)
}

/// The mantissa: what stands before the exponent marker.
pub open spec fn sci_mant(s: Seq<char>) -> Seq<char> {
    match sci_eidx(s) {
        Some(e) => sci_body(s).take(e),
        None => Seq::empty(),
    }
}

/// The exponent text: what stands after the exponent marker.
pub open spec fn sci_rest(s: Seq<char>) -> Seq<char> {
    match sci_eidx(s) {
        Some(e) => sci_body(s).skip(e + 1),
        None => Seq::empty(),
    }
}

/// The integer digits of the mantissa, before its decimal point.
pub open spec fn sci_ip(s: Seq<char>) -> Seq<char> {
    match find_char(sci_mant(s), '.', 0) {
        Some(d) => sci_mant(s).take(d),
        None => sci_mant(s),
    }
}

/// The fraction digits of the mantissa, after its decimal point.
pub open spec fn sci_fp(s: Seq<char>) -> Seq<char> {
    match find_char(sci_mant(s), '.', 0) {
        Some(d) => sci_mant(s).skip(d + 1),
        None => Seq::empty(),
    }
}

/// The sign of the exponent.
pub open spec fn sci_esign(s: Seq<char>) -> int {
    if sci_rest(s).len() > 0 && sci_rest(s)[0] == '-' {
        -1
    } else {
        1
    }
}

/// The exponent digits, the optional sign dropped.
pub open spec fn sci_ed(s: Seq<char>) -> Seq<char> {
    let rest = sci_rest(s);
    if rest.len() > 0 && (rest[0] == '+' || rest[0] == '-') {
        rest.skip(1)
    } else {
        rest
    }
}

/// Whether the text has the shape `d[.ddd]E(+|-)x` of a scientific
/// rendering, with moderate part lengths.
pub open spec fn sci_ok(s: Seq<char>) -> bool {
    &&& sci_eidx(s) is Some
    &&& 0 < sci_ip(s).len() <= 40
    &&& sci_fp(s).len() <= 60
    &&& all_digits(sci_ip(s))
    &&& all_digits(sci_fp(s))
    &&& 0 < sci_ed(s).len() <= 6
    &&& all_digits(sci_ed(s))
}

/// The plain positional expansion of a well-shaped scientific rendering:
/// the digit string shifted by the exponent, with a leading `0.` and
/// padding zeros for small values and trailing zeros for large ones.
pub open spec fn sci_expanded(s: Seq<char>) -> Seq<char> {
    let x = sci_esign(s) * dec_val(sci_ed(s));
    let digits = sci_ip(s) + strip_tz(sci_fp(s));
    let pt = sci_ip(s).len() + x;
    let core = if pt >= digits.len() {
        digits + zeros(pt - digits.len())
    } else if pt > 0 {
        digits.take(pt) + seq!['.'] + digits.skip(pt)
    } else {
        seq!['0', '.'] + zeros(-pt) + digits
    };
    if sci_neg(s) {
        seq!['-'] + core
    } else {
        core
    }
}

/// The plain decimal expansion of a scientific rendering; text of any
/// other shape is returned unchanged.
pub open spec fn expand_sci(s: Seq<char>) -> Seq<char> {
    if sci_ok(s) {
        sci_expanded(s)
    } else {
        s
    }
}

/// The number of significant digits that the shortest faithful rendering
/// of a double needs: the first count whose rendering parses back to the
/// same pattern, seventeen at most.
pub open spec fn pick_prec(b: u64, p: usize) -> usize
    decreases 17 - p,
{
    if p >= 17 {
        17
    } else if num_of_text(sci_text_of(b, p)) == Some(b) {
        p
    } else {
        pick_prec(b, (p + 1) as usize)
    }
}

/// The decimal text of a double: `NaN`, `inf` and `-inf` for the special
/// patterns, `0` and `-0` for the zeros, and otherwise the plain expansion
/// of the shortest faithful scientific rendering.
pub open spec fn spec_num_text(b: u64) -> Seq<char> {
    if is_nan_bits(b) {
        seq!['N', 'a', 'N']
    } else if is_inf_bits(b) {
        if sign_bits(b) == 1 {
            seq!['-', 'i', 'n', 'f']
        } else {
            seq!['i', 'n', 'f']
        }
    } else if is_zero_bits(b) {
        if sign_bits(b) == 1 {
            seq!['-', '0']
        } else {
            seq!['0']
        }
    } else {
        expand_sci(sci_text_of(b, pick_prec(b, 1)))
    }
}

/// If every character of a text from some position on is a zero, and the
/// character just before that position is not, stripping trailing zeros
/// keeps exactly the prefix before that position.
proof fn lemma_strip_tz_take(s: Seq<char>, k: int)
    requires
        0 <= k <= s.len(),
        k == 0 || s[k - 1] != '0',
        forall|i: int| k <= i < s.len() ==> s[i] == '0',
    ensures
        strip_tz(s) == s.take(k),
    decreases s.len(),
{
    if s.len() == k {
        assert(s.take(k) =~= s);
        if k == 0 {
        } else {
            assert(s.last() != '0');
        }
    } else {
        assert(s.last() == '0');
        assert(s.drop_last() =~= s.take(s.len() - 1));
        lemma_strip_tz_take(s.drop_last(), k);
        assert(s.drop_last().take(k) =~= s.take(k));
    }
}

/// Ten to a small power, for digit-count bounds.
pub open spec fn ten_to(k: int) -> int {
    if k <= 0 {
        1
    } else if k == 1 {
        10
    } else if k == 2 {
        100
    } else if k == 3 {
        1000
    } else if k == 4 {
        10000
    } else if k == 5 {
        100000
    } else {
        1000000
    }
}

/// Parses a run of at most six decimal digits, left to right.
fn dec_digits_val(s: &str, from: usize, to: usize) -> (r: i64)
    requires
        0 <= from <= to <= s@.len(),
        to - from <= 6,
        all_digits(s@.subrange(from as int, to as int)),
    ensures
        r == dec_val(s@.subrange(from as int, to as int)),
        0 <= r < 1000000,
{
    let ghost whole = s@.subrange(from as int, to as int);
    let mut acc: i64 = 0;
    let mut j: usize = from;
    while j < to
        invariant
            from <= j <= to,
            to <= s@.len(),
            to - from <= 6,
            whole == s@.subrange(from as int, to as int),
            all_digits(whole),
            acc == dec_val(s@.subrange(from as int, j as int)),
            0 <= acc < ten_to(j - from),
        decreases to - j,
    {
        let c = s.get_char(j);
        proof {
            assert(whole[j - from] == s@[j as int]);
            assert(is_digit(c));
            let pre = s@.subrange(from as int, j as int);
            let post = s@.subrange(from as int, j as int + 1);
            assert(post.drop_last() =~= pre);
            assert(post.last() == c);
        }
        acc = acc * 10 + (c as i64 - 48);
        j = j + 1;
    }
    assert(ten_to(to - from) <= 1000000);
    acc
}

/// Whether every character in a range of the text is a decimal digit.
fn check_digits(s: &str, from: usize, to: usize) -> (r: bool)
    requires
        from <= to <= s@.len(),
    ensures
        r == all_digits(s@.subrange(from as int, to as int)),
{
    let ghost part = s@.subrange(from as int, to as int);
    let mut i: usize = from;
    while i < to
        invariant
            from <= i <= to <= s@.len(),
            part == s@.subrange(from as int, to as int),
            forall|k: int| 0 <= k < i - from ==> is_digit(#[trigger] part[k]),
        decreases to - i,
    {
        let ch = s.get_char(i);
        assert(part[i - from] == ch);
        if !(ch >= '0' && ch <= '9') {
            return false;
        }
        i = i + 1;
    }
    true
}

/// Appends a range of the combined digit string, whose head lies at one
/// place in the text and whose tail at another.
fn push_digits(
    out: &mut String,
    s: &str,
    off: usize,
    ip_len: usize,
    fp_from: usize,
    fz: usize,
    from: usize,
    to: usize,
    Ghost(digits): Ghost<Seq<char>>,
)
    requires
        s@.len() <= usize::MAX,
        digits.len() == ip_len + fz,
        from <= to <= digits.len(),
        off + ip_len <= s@.len(),
        fp_from + fz <= s@.len(),
        forall|q: int| 0 <= q < ip_len ==> digits[q] == s@[off + q],
        forall|q: int| ip_len <= q < digits.len() ==> digits[q] == s@[fp_from + (q - ip_len)],
    ensures
        final(out)@ == old(out)@ + digits.subrange(from as int, to as int),
{
    let mut k: usize = from;
    while k < to
        invariant
            from <= k <= to <= digits.len(),
            s@.len() <= usize::MAX,
            digits.len() == ip_len + fz,
            off + ip_len <= s@.len(),
            fp_from + fz <= s@.len(),
            forall|q: int| 0 <= q < ip_len ==> digits[q] == s@[off + q],
            forall|q: int| ip_len <= q < digits.len() ==> digits[q] == s@[fp_from + (q - ip_len)],
            out@ == old(out)@ + digits.subrange(from as int, k as int),
        decreases to - k,
    {
        let c = if k < ip_len {
            s.get_char(off + k)
        } else {
            s.get_char(fp_from + (k - ip_len))
        };
        proof {
            assert(digits[k as int] == c);
            assert((old(out)@ + digits.subrange(from as int, k as int)).push(c) =~= old(out)@
                + digits.subrange(from as int, k as int + 1));
        }
        out.push(c);
        k = k + 1;
    }
}

/// Appends a run of zero characters.
fn push_zeros(out: &mut String, cnt: i64)
    requires
        cnt >= 0,
    ensures
        final(out)@ == old(out)@ + zeros(cnt as int),
{
    let mut z: i64 = 0;
    while z < cnt
        invariant
            0 <= z <= cnt,
            out@ == old(out)@ + zeros(z as int),
        decreases cnt - z,
    {
        proof {
            assert((old(out)@ + zeros(z as int)).push('0') =~= old(out)@ + zeros(z as int + 1));
        }
        out.push('0');
        z = z + 1;
    }
}

/// The positions of the parts of a well-shaped scientific rendering
/// inside the text.
struct SciParts {
    neg: bool,
    off: usize,
    ipend: usize,
    fp_from: usize,
    eabs: usize,
    ed_from: usize,
    esign: i64,
}

/// Locates sign, mantissa, decimal point and exponent in a scientific
/// rendering, or reports that the text has some other shape.
#[verifier::rlimit(60)]
fn sci_scan(s: &str) -> (r: Option<SciParts>)
    ensures
        r is None ==> !sci_ok(s@),
        r matches Some(p) ==> {
            &&& sci_ok(s@)
            &&& p.neg == sci_neg(s@)
            &&& p.off == if p.neg {
                1int
            } else {
                0int
            }
            &&& p.off <= p.ipend <= p.fp_from <= p.eabs < p.ed_from <= s@.len()
            &&& sci_ip(s@) == s@.subrange(p.off as int, p.ipend as int)
            &&& sci_fp(s@) == s@.subrange(p.fp_from as int, p.eabs as int)
            &&& sci_ed(s@) == s@.subrange(p.ed_from as int, s@.len() as int)
            &&& p.esign == sci_esign(s@)
        },
{
    let n = ulen(s);
    let neg = n > 0 && s.get_char(0) == '-';
    let off: usize = if neg {
        1
    } else {
        0
    };
    let ghost body = sci_body(s@);
    proof {
        assert(body =~= s@.skip(off as int));
    }
    let efound = scan_char(s, off, n, 'E');
    proof {
        match efound {
            Some(i) => {
                assert(body[i - off] == s@[i as int]);
                assert forall|k: int| 0 <= k < i - off implies body[k] != 'E' by {
                    assert(body[k] == s@[off + k]);
                }
                lemma_find_char_at(body, 'E', 0, i - off);
            },
            None => {
                assert forall|k: int| 0 <= k < body.len() implies body[k] != 'E' by {
                    assert(body[k] == s@[off + k]);
                }
                lemma_find_char_missing(body, 'E', 0);
            },
        }
    }
    let eabs: usize = match efound {
        Some(i) => i,
        None => {
            assert(!sci_ok(s@));
            return None;
        },
    };
    let ghost e = eabs - off;
    assert(sci_eidx(s@) == Some(e));
    let ghost mant = sci_mant(s@);
    let ghost rest = sci_rest(s@);
    proof {
        assert(mant =~= s@.subrange(off as int, eabs as int));
        assert(rest =~= s@.subrange(eabs as int + 1, s@.len() as int));
    }
    let dfound = scan_char(s, off, eabs, '.');
    proof {
        match dfound {
            Some(i) => {
                assert(mant[i - off] == s@[i as int]);
                assert forall|k: int| 0 <= k < i - off implies mant[k] != '.' by {
                    assert(mant[k] == s@[off + k]);
                }
                lemma_find_char_at(mant, '.', 0, i - off);
            },
            None => {
                assert forall|k: int| 0 <= k < mant.len() implies mant[k] != '.' by {
                    assert(mant[k] == s@[off + k]);
                }
                lemma_find_char_missing(mant, '.', 0);
            },
        }
    }
    let has_dot = dfound.is_some();
    let dabs: usize = match dfound {
        Some(i) => i,
        None => eabs,
    };
    let ghost ip = sci_ip(s@);
    let ghost fp = sci_fp(s@);
    let ipend: usize = dabs;
    let fp_from: usize = if has_dot {
        dabs + 1
    } else {
        eabs
    };
    let ip_len: usize = ipend - off;
    let fp_len: usize = eabs - fp_from;
    proof {
        assert(ip =~= s@.subrange(off as int, ipend as int));
        assert(fp =~= s@.subrange(fp_from as int, eabs as int));
    }
    let mut esign: i64 = 1;
    let mut ed_from: usize = eabs + 1;
    if ed_from < n {
        let c = s.get_char(ed_from);
        proof {
            assert(rest[0] == s@[eabs + 1]);
        }
        if c == '-' {
            esign = -1;
            ed_from = ed_from + 1;
        } else if c == '+' {
            ed_from = ed_from + 1;
        }
    }
    let ghost ed = sci_ed(s@);
    let ed_len: usize = n - ed_from;
    proof {
        assert(esign == sci_esign(s@));
        assert(ed =~= s@.subrange(ed_from as int, n as int));
    }
    if ip_len == 0 || ip_len > 40 || fp_len > 60 || ed_len == 0 || ed_len > 6 {
        assert(!sci_ok(s@));
        return None;
    }
    if !check_digits(s, off, ipend) {
        assert(!all_digits(ip));
        return None;
    }
    if !check_digits(s, fp_from, eabs) {
        assert(!all_digits(fp));
        return None;
    }
    if !check_digits(s, ed_from, n) {
        assert(!all_digits(ed));
        return None;
    }
    assert(sci_ok(s@));
    Some(SciParts { neg, off, ipend, fp_from, eabs, ed_from, esign })
}

/// Expands a scientific rendering into plain decimal text.
#[verifier::rlimit(60)]
fn expand_sci_exec(s: &str) -> (r: String)
    ensures
        r@ == expand_sci(s@),
{
    let n = ulen(s);
    let parts = match sci_scan(s) {
        Some(p) => p,
        None => {
            return s.to_owned();
        },
    };
    let neg = parts.neg;
    let off = parts.off;
    let ipend = parts.ipend;
    let fp_from = parts.fp_from;
    let eabs = parts.eabs;
    let ed_from = parts.ed_from;
    let esign = parts.esign;
    let ip_len: usize = ipend - off;
    let fp_len: usize = eabs - fp_from;
    let ghost ip = sci_ip(s@);
    let ghost fp = sci_fp(s@);
    let ghost ed = sci_ed(s@);
    proof {
        assert(ip.len() == ip_len);
        assert(fp.len() == fp_len);
        assert(0 < ip_len <= 40);
        assert(fp_len <= 60);
        assert(0 < ed.len() <= 6);
        assert(ed =~= s@.subrange(ed_from as int, n as int));
    }
    let x = dec_digits_val(s, ed_from, n);
    let xe: i64 = esign * x;
    proof {
        assert(xe == sci_esign(s@) * dec_val(ed));
    }
    // strip trailing zeros of the fraction
    let mut fz: usize = fp_len;
    let mut fstop = false;
    while fz > 0 && !fstop
        invariant
            0 <= fz <= fp_len,
            fp.len() == fp_len,
            fp_from + fp_len <= n,
            n == s@.len(),
            fp == s@.subrange(fp_from as int, eabs as int),
            eabs == fp_from + fp_len,
            forall|k: int| fz <= k < fp.len() ==> fp[k] == '0',
            fstop ==> fz > 0 && fp[fz - 1] != '0',
        decreases fz + (if fstop { 0int } else { 1int }),
    {
        let c = s.get_char(fp_from + fz - 1);
        assert(fp[fz - 1] == c);
        if c != '0' {
            fstop = true;
        } else {
            fz = fz - 1;
        }
    }
    proof {
        lemma_strip_tz_take(fp, fz as int);
    }
    let ghost digits = ip + fp.take(fz as int);
    let dlen: usize = ip_len + fz;
    proof {
        assert(digits.len() == dlen);
        assert forall|q: int| 0 <= q < ip_len implies digits[q] == s@[off + q] by {
            assert(digits[q] == ip[q]);
            assert(ip[q] == s@.subrange(off as int, ipend as int)[q]);
        }
        assert forall|q: int| ip_len <= q < digits.len() implies digits[q] == s@[fp_from + (q
            - ip_len)] by {
            assert(digits[q] == fp.take(fz as int)[q - ip_len]);
            assert(fp[q - ip_len] == s@.subrange(fp_from as int, eabs as int)[q - ip_len]);
        }
    }
    let pt: i64 = ip_len as i64 + xe;
    let ghost core = if pt >= dlen {
        digits + zeros(pt - dlen)
    } else if pt > 0 {
        digits.take(pt as int) + seq!['.'] + digits.skip(pt as int)
    } else {
        seq!['0', '.'] + zeros(-pt as int) + digits
    };
    proof {
        assert(sci_expanded(s@) == if neg {
            seq!['-'] + core
        } else {
            core
        });
    }
    let mut out = String::new();
    if neg {
        out.push('-');
    }
    let ghost sgn: Seq<char> = if neg {
        seq!['-']
    } else {
        Seq::empty()
    };
    assert(out@ =~= sgn);
    if pt >= dlen as i64 {
        push_digits(&mut out, s, off, ip_len, fp_from, fz, 0, dlen, Ghost(digits));
        push_zeros(&mut out, pt - dlen as i64);
        proof {
            assert(digits.subrange(0, dlen as int) =~= digits);
            assert(out@ =~= sgn + core);
        }
    } else if pt > 0 {
        let ptu: usize = pt as usize;
        push_digits(&mut out, s, off, ip_len, fp_from, fz, 0, ptu, Ghost(digits));
        out.push('.');
        push_digits(&mut out, s, off, ip_len, fp_from, fz, ptu, dlen, Ghost(digits));
        proof {
            assert(digits.subrange(0, ptu as int) =~= digits.take(ptu as int));
            assert(digits.subrange(ptu as int, dlen as int) =~= digits.skip(ptu as int));
            assert(out@ =~= sgn + core);
        }
    } else {
        out.push('0');
        out.push('.');
        push_zeros(&mut out, 0 - pt);
        push_digits(&mut out, s, off, ip_len, fp_from, fz, 0, dlen, Ghost(digits));
        proof {
            assert(digits.subrange(0, dlen as int) =~= digits);
            assert(out@ =~= sgn + core);
        }
    }
    assert(out@ =~= expand_sci(s@));
    out
}

/// The decimal text of a double, as its `to_string` serialization shows
/// it: the shortest decimal that parses back to the same pattern, written
/// out in plain positional notation.
#[verifier::loop_isolation(false)]
pub fn num_to_text(b: u64) -> (r: String)
    ensures
        r@ == spec_num_text(b),
{
    if is_nan(b) {
        let r = "NaN".to_owned();
        proof {
            reveal_strlit("NaN");
            assert(r@ =~= seq!['N', 'a', 'N']);
        }
        return r;
    }
    if is_inf(b) {
        if b >> 63 == 1 {
            let r = "-inf".to_owned();
            proof {
                reveal_strlit("-inf");
                assert(r@ =~= seq!['-', 'i', 'n', 'f']);
            }
            return r;
        } else {
            let r = "inf".to_owned();
            proof {
                reveal_strlit("inf");
                assert(r@ =~= seq!['i', 'n', 'f']);
            }
            return r;
        }
    }
    if is_zero(b) {
        if b >> 63 == 1 {
            let r = "-0".to_owned();
            proof {
                reveal_strlit("-0");
                assert(r@ =~= seq!['-', '0']);
            }
            return r;
        } else {
            let r = "0".to_owned();
            proof {
                reveal_strlit("0");
                assert(r@ =~= seq!['0']);
            }
            return r;
        }
    }
    let mut p: usize = 1;
    while p < 17
        invariant
            1 <= p <= 17,
            pick_prec(b, 1) == pick_prec(b, p),
        decreases 17 - p,
    {
        let t = fl_fmt_sci(b, p);
        let parsed = fl_parse(t.as_str());
        let mut hit = false;
        if let Some(v) = parsed {
            if v == b {
                hit = true;
            }
        }
        if hit {
            assert(pick_prec(b, p as usize) == p);
            return expand_sci_exec(t.as_str());
        }
        proof {
            assert(pick_prec(b, p as usize) == pick_prec(b, (p + 1) as usize));
        }
        p = p + 1;
    }
    let t = fl_fmt_sci(b, 17);
    assert(pick_prec(b, 1) == 17);
    expand_sci_exec(t.as_str())
}

/// The bit-field facts about the handful of named double constants.
pub proof fn lemma_const_bits()
    ensures
        is_zero_bits(ZERO_BITS),
        !is_nan_bits(ZERO_BITS),
        !is_zero_bits(ONE_BITS),
        !is_nan_bits(ONE_BITS),
        is_nan_bits(NAN_BITS),
        num_eq(ZERO_BITS, ZERO_BITS),
        !num_eq(ONE_BITS, ZERO_BITS),
{
    assert((0u64 >> 52) & 0x7ff == 0) by (bit_vector);
    assert(0u64 & 0xf_ffff_ffff_ffff == 0) by (bit_vector);
    assert(0u64 & 0x7fff_ffff_ffff_ffff == 0) by (bit_vector);
    assert((0x3ff0000000000000u64 >> 52) & 0x7ff == 0x3ff) by (bit_vector);
    assert(0x3ff0000000000000u64 & 0x7fff_ffff_ffff_ffff != 0) by (bit_vector);
    assert((0x7ff8000000000000u64 >> 52) & 0x7ff == 0x7ff) by (bit_vector);
    assert(0x7ff8000000000000u64 & 0xf_ffff_ffff_ffff != 0) by (bit_vector);
}

} // verus!
