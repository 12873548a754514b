//! Text-level primitives: the grammars of the scalar targets.
//!
//! Each primitive has a spec-level grammar over `Seq<char>` and an executable
//! parser or renderer proved against it. Integer parsing is bounds-checked
//! against the requested [`IntKind`](crate::shape::IntKind); rendering
//! produces the canonical decimal form.

use vstd::prelude::*;

use crate::shape::{IntKind, IntWidth};

verus! {

/// Character-for-character equality of two string slices.
pub fn str_eq(a: &str, b: &str) -> (r: bool)
    ensures
        r == (a@ == b@),
{
    let n = a.unicode_len();
    let m = b.unicode_len();
    if n != m {
        proof {
            assert(a@ != b@) by {
                assert(a@.len() != b@.len());
            }
        }
        return false;
    }
    let mut i: usize = 0;
    while i < n
        invariant
            n == a@.len(),
            n == b@.len(),
            0 <= i <= n,
            forall|j: int| 0 <= j < i ==> a@[j] == b@[j],
        decreases n - i,
    {
        if a.get_char(i) != b.get_char(i) {
            return false;
        }
        i = i + 1;
    }
    proof {
        assert(a@ =~= b@);
    }
    true
}

/// Whether `c` is a decimal digit.
pub open spec fn is_digit(c: char) -> bool {
    48 <= c as u32 <= 57
}

/// The value of a decimal digit.
pub open spec fn digit_val(c: char) -> int {
    c as u32 - 48
}

/// A nonempty run of decimal digits.
pub open spec fn all_digits(s: Seq<char>) -> bool {
    s.len() > 0 && forall|i: int| 0 <= i < s.len() ==> is_digit(#[trigger] s[i])
}

/// The integer a digit run denotes, most significant digit first.
pub open spec fn dec_val(s: Seq<char>) -> int
    decreases s,
{
    if s.len() == 0 {
        0
    } else {
        dec_val(s.drop_last()) * 10 + digit_val(s.last())
    }
}

/// A digit run denotes a value at least as large as any of its prefixes.
proof fn lemma_dec_val_prefix_grows(s: Seq<char>, k: int)
    requires
        0 <= k <= s.len(),
        forall|i: int| 0 <= i < s.len() ==> is_digit(#[trigger] s[i]),
    ensures
        dec_val(s.take(k)) <= dec_val(s),
        dec_val(s) >= 0,
    decreases s.len() - k,
{
    if k == s.len() {
        assert(s.take(k) =~= s);
        lemma_dec_val_nonneg(s);
    } else {
        lemma_dec_val_prefix_grows(s, k + 1);
        assert(s.take(k + 1).drop_last() =~= s.take(k));
        lemma_dec_val_nonneg(s.take(k));
        assert(dec_val(s.take(k + 1)) == dec_val(s.take(k)) * 10 + digit_val(s[k]));
        assert(dec_val(s.take(k)) * 10 >= dec_val(s.take(k))) by (nonlinear_arith)
            requires dec_val(s.take(k)) >= 0 {}
    }
}

/// The value of a digit run is never negative.
proof fn lemma_dec_val_nonneg(s: Seq<char>)
    requires
        forall|i: int| 0 <= i < s.len() ==> is_digit(#[trigger] s[i]),
    ensures
        dec_val(s) >= 0,
    decreases s,
{
    if s.len() > 0 {
        lemma_dec_val_nonneg(s.drop_last());
        assert(dec_val(s.drop_last()) * 10 >= 0) by (nonlinear_arith)
            requires dec_val(s.drop_last()) >= 0 {}
    }
}

/// Parse the digit run of `s` from position `from` to the end.
///
/// `None` means the run is not a nonempty all-digit run, or its value does
/// not fit in `u128`.
pub fn parse_digits_u128(s: &str, from: usize) -> (r: Option<u128>)
    requires
        from <= s@.len(),
    ensures
        match r {
            Some(v) => all_digits(s@.skip(from as int)) && dec_val(s@.skip(from as int)) == v,
            None => !all_digits(s@.skip(from as int))
                || dec_val(s@.skip(from as int)) > u128::MAX,
        },
{
    let ghost ds = s@.skip(from as int);
    let n = s.unicode_len();
    if from == n {
        return None;
    }
    let mut acc: u128 = 0;
    let mut i: usize = from;
    while i < n
        invariant
            from <= i <= n,
            n == s@.len(),
            from < n,
            ds == s@.skip(from as int),
            forall|j: int| 0 <= j < i - from ==> is_digit(#[trigger] ds[j]),
            acc == dec_val(ds.take(i - from)),
        decreases n - i,
    {
        let c = s.get_char(i);
        let cv = c as u32;
        if cv < 48 || cv > 57 {
            proof {
                assert(ds[i - from] == s@[i as int]);
            }
            return None;
        }
        let d: u128 = (cv - 48) as u128;
        if acc > (u128::MAX - d) / 10 {
            proof {
                let k = i - from;
                assert(ds.take(k + 1).drop_last() =~= ds.take(k));
                assert(ds.take(k + 1).last() == ds[k]);
                assert(ds[k] == s@[i as int]);
                assert(dec_val(ds.take(k + 1)) == acc * 10 + d);
                assert(acc * 10 + d > u128::MAX) by (nonlinear_arith)
                    requires
                        acc > (u128::MAX - d) / 10,
                        0 <= d <= 9,
                        acc >= 0,
                {}
                assert forall|j: int| 0 <= j < k + 1 implies is_digit(#[trigger] ds[j]) by {
                    if j == k {
                        assert(ds[k] == s@[i as int]);
                    }
                }
                if all_digits(ds) {
                    lemma_dec_val_prefix_grows(ds, k + 1);
                }
            }
            return None;
        }
        proof {
            let k = i - from;
            assert(ds.take(k + 1).drop_last() =~= ds.take(k));
            assert(ds.take(k + 1).last() == ds[k]);
            assert(ds[k] == s@[i as int]);
            assert(acc * 10 + d <= u128::MAX) by (nonlinear_arith)
                requires
                    acc <= (u128::MAX - d) / 10,
                    0 <= d <= 9,
                    acc >= 0,
            {}
        }
        acc = acc * 10 + d;
        i = i + 1;
    }
    proof {
        assert(ds.take(n - from) =~= ds);
        assert(ds.len() > 0);
    }
    Some(acc)
}

/// The decimal-integer grammar of an integer target: an optional sign, then
/// a nonempty digit run, with the value within the kind's bounds. A minus
/// sign is admitted only for signed kinds; zero is refused for non-zero
/// kinds.
pub open spec fn parse_int_text(s: Seq<char>, k: IntKind) -> Option<int> {
    if s.len() == 0 {
        None
    } else {
        let neg = s[0] as u32 == 45;
        let signed_prefix = s[0] as u32 == 45 || s[0] as u32 == 43;
        let digits = if signed_prefix {
            s.drop_first()
        } else {
            s
        };
        if neg && !k.signed {
            None
        } else if !all_digits(digits) {
            None
        } else {
            let v = if neg {
                -dec_val(digits)
            } else {
                dec_val(digits)
            };
            if k.fits(v) {
                Some(v)
            } else {
                None
            }
        }
    }
}

/// Largest magnitude an unsigned target of this width admits.
fn unsigned_max(w: IntWidth) -> (r: u128)
    ensures
        r == (IntKind { signed: false, width: w, nonzero: false }).max_spec(),
{
    match w {
        IntWidth::W8 => 255,
        IntWidth::W16 => 65535,
        IntWidth::W32 => 4294967295,
        IntWidth::W64 => 18446744073709551615,
        IntWidth::W128 => u128::MAX,
    }
}

/// Largest value a signed target of this width admits.
fn signed_max(w: IntWidth) -> (r: u128)
    ensures
        r == (IntKind { signed: true, width: w, nonzero: false }).max_spec(),
{
    match w {
        IntWidth::W8 => 127,
        IntWidth::W16 => 32767,
        IntWidth::W32 => 2147483647,
        IntWidth::W64 => 9223372036854775807,
        IntWidth::W128 => 170141183460469231731687303715884105727,
    }
}

/// Magnitude of the smallest value a signed target of this width admits.
fn signed_min_magnitude(w: IntWidth) -> (r: u128)
    ensures
        r == -(IntKind { signed: true, width: w, nonzero: false }).min_spec(),
{
    match w {
        IntWidth::W8 => 128,
        IntWidth::W16 => 32768,
        IntWidth::W32 => 2147483648,
        IntWidth::W64 => 9223372036854775808,
        IntWidth::W128 => 170141183460469231731687303715884105728,
    }
}

/// The parsed integer, as the kind directs: signed kinds yield the signed
/// representation, unsigned kinds the unsigned one.
pub enum ParsedInt {
    Signed(i128),
    Unsigned(u128),
}

impl ParsedInt {
    /// The mathematical value.
    pub open spec fn int_value(self) -> int {
        match self {
            ParsedInt::Signed(v) => v as int,
            ParsedInt::Unsigned(v) => v as int,
        }
    }
}

/// Parse `s` as a decimal integer of kind `k`.
pub fn parse_int(s: &str, k: IntKind) -> (r: Option<ParsedInt>)
    ensures
        match r {
            Some(p) => {
                &&& parse_int_text(s@, k) == Some(p.int_value())
                &&& (k.signed <==> p is Signed)
            },
            None => parse_int_text(s@, k) is None,
        },
{
    let n = s.unicode_len();
    if n == 0 {
        return None;
    }
    let c0 = s.get_char(0) as u32;
    let neg = c0 == 45;
    let signed_prefix = c0 == 45 || c0 == 43;
    let start: usize = if signed_prefix {
        1
    } else {
        0
    };
    proof {
        if signed_prefix {
            assert(s@.skip(1) =~= s@.drop_first());
        } else {
            assert(s@.skip(0) =~= s@);
        }
    }
    if neg && !k.signed {
        return None;
    }
    let mag = match parse_digits_u128(s, start) {
        Some(m) => m,
        None => {
            proof {
                let digits = if signed_prefix {
                    s@.drop_first()
                } else {
                    s@
                };
                if all_digits(digits) {
                    lemma_dec_val_nonneg(digits);
                    assert(!k.fits(if neg { -dec_val(digits) } else { dec_val(digits) })) by {
                        assert(dec_val(digits) > u128::MAX >= k.max_spec());
                        if neg {
                            assert(-dec_val(digits) < 0);
                            assert(k.min_spec() >= i128::MIN as int);
                        }
                    }
                }
            }
            return None;
        }
    };
    if k.nonzero && mag == 0 {
        return None;
    }
    if k.signed {
        if neg {
            let limit = signed_min_magnitude(k.width);
            if mag > limit {
                return None;
            }
            if mag == limit {
                let v: i128 = match k.width {
                    IntWidth::W8 => -128,
                    IntWidth::W16 => -32768,
                    IntWidth::W32 => -2147483648,
                    IntWidth::W64 => -9223372036854775808,
                    IntWidth::W128 => i128::MIN,
                };
                return Some(ParsedInt::Signed(v));
            }
            let v: i128 = -(mag as i128);
            Some(ParsedInt::Signed(v))
        } else {
            let limit = signed_max(k.width);
            if mag > limit {
                return None;
            }
            let v: i128 = mag as i128;
            Some(ParsedInt::Signed(v))
        }
    } else {
        let limit = unsigned_max(k.width);
        if mag > limit {
            return None;
        }
        Some(ParsedInt::Unsigned(mag))
    }
}

/// The boolean grammar: exactly `true` or `false`.
pub open spec fn parse_bool_text(s: Seq<char>) -> Option<bool> {
    if s == seq!['t', 'r', 'u', 'e'] {
        Some(true)
    } else if s == seq!['f', 'a', 'l', 's', 'e'] {
        Some(false)
    } else {
        None
    }
}

/// Parse `s` as a boolean.
pub fn parse_bool(s: &str) -> (r: Option<bool>)
    ensures
        match r {
            Some(b) => parse_bool_text(s@) == Some(b),
            None => parse_bool_text(s@) is None,
        },
{
    proof {
        reveal_strlit("true");
        reveal_strlit("false");
        assert("true"@ =~= seq!['t', 'r', 'u', 'e']);
        assert("false"@ =~= seq!['f', 'a', 'l', 's', 'e']);
    }
    if str_eq(s, "true") {
        Some(true)
    } else if str_eq(s, "false") {
        Some(false)
    } else {
        None
    }
}

/// The canonical decimal text of a non-negative integer.
pub open spec fn uint_text(n: int) -> Seq<char>
    decreases n,
{
    if n < 10 {
        seq![digit_char(n)]
    } else {
        uint_text(n / 10).push(digit_char(n % 10))
    }
}

/// The canonical decimal text of an integer, signed.
pub open spec fn int_text(v: int) -> Seq<char> {
    if v < 0 {
        seq!['-'] + uint_text(-v)
    } else {
        uint_text(v)
    }
}

/// The digit character of a value below ten.
pub open spec fn digit_char(d: int) -> char {
    if d == 0 { '0' }
    else if d == 1 { '1' }
    else if d == 2 { '2' }
    else if d == 3 { '3' }
    else if d == 4 { '4' }
    else if d == 5 { '5' }
    else if d == 6 { '6' }
    else if d == 7 { '7' }
    else if d == 8 { '8' }
    else { '9' }
}

/// The one-character string of a digit value.
fn digit_str(d: u128) -> (r: &'static str)
    requires
        d < 10,
    ensures
        r@ == seq![digit_char(d as int)],
{
    proof {
        reveal_strlit("0");
        reveal_strlit("1");
        reveal_strlit("2");
        reveal_strlit("3");
        reveal_strlit("4");
        reveal_strlit("5");
        reveal_strlit("6");
        reveal_strlit("7");
        reveal_strlit("8");
        reveal_strlit("9");
    }
    match d {
        0 => "0",
        1 => "1",
        2 => "2",
        3 => "3",
        4 => "4",
        5 => "5",
        6 => "6",
        7 => "7",
        8 => "8",
        _ => "9",
    }
}

/// Render a non-negative integer in canonical decimal.
pub fn render_u128(n: u128) -> (r: String)
    ensures
        r@ == uint_text(n as int),
    decreases n,
{
    if n < 10 {
        String::from_str(digit_str(n))
    } else {
        let mut s = render_u128(n / 10);
        s.append(digit_str(n % 10));
        s
    }
}

/// Render a signed integer in canonical decimal.
pub fn render_i128(v: i128) -> (r: String)
    ensures
        r@ == int_text(v as int),
{
    if v >= 0 {
        render_u128(v as u128)
    } else {
        let mag: u128 = (-(v + 1)) as u128 + 1;
        let mut s = String::from_str("-");
        let digits = render_u128(mag);
        s.append(digits.as_str());
        proof {
            reveal_strlit("-");
            assert(s@ =~= int_text(v as int));
        }
        s
    }
}

/// Canonical decimal text is a digit run that parses back to the value.
pub proof fn lemma_uint_text_value(n: int)
    requires
        n >= 0,
    ensures
        all_digits(uint_text(n)),
        dec_val(uint_text(n)) == n,
        uint_text(n)[0] as u32 != 45 && uint_text(n)[0] as u32 != 43,
    decreases n,
{
    if n < 10 {
        let t = uint_text(n);
        assert(t =~= seq![digit_char(n)]);
        assert(t.drop_last() =~= Seq::<char>::empty());
        assert(t.last() == digit_char(n));
        assert(digit_val(digit_char(n)) == n);
        assert(dec_val(Seq::<char>::empty()) == 0);
        assert(dec_val(t) == dec_val(t.drop_last()) * 10 + digit_val(t.last()));
    } else {
        lemma_uint_text_value(n / 10);
        let t = uint_text(n);
        assert(t.drop_last() =~= uint_text(n / 10));
        assert(t.last() == digit_char(n % 10));
        assert(dec_val(t) == (n / 10) * 10 + n % 10);
        assert((n / 10) * 10 + n % 10 == n) by (nonlinear_arith)
            requires n >= 0 {}
        assert forall|i: int| 0 <= i < t.len() implies is_digit(#[trigger] t[i]) by {
            if i < t.len() - 1 {
                assert(t[i] == uint_text(n / 10)[i]);
            }
        }
    }
}

/// The canonical text of a value that fits an integer kind parses back to
/// exactly that value under the same kind.
pub proof fn lemma_int_text_round_trip(v: int, k: IntKind)
    requires
        k.fits(v),
    ensures
        parse_int_text(int_text(v), k) == Some(v),
{
    if v < 0 {
        lemma_uint_text_value(-v);
        let s = int_text(v);
        assert(s[0] == '-');
        assert(s.drop_first() =~= uint_text(-v));
        assert('-' as u32 == 45);
    } else {
        lemma_uint_text_value(v);
        let s = int_text(v);
        assert(s == uint_text(v));
        assert(!(s[0] as u32 == 45 || s[0] as u32 == 43));
    }
}

} // verus!
