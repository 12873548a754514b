//! The floating-point literal grammar.
//!
//! A float target keeps its text: the codec only checks that the text is a
//! well-formed literal. The grammar is the usual one for decimal float
//! literals: an optional sign, then either a case-insensitive `inf`,
//! `infinity` or `nan`, or a number — a digit run, a digit run with a dot and
//! an optional fraction, or a dot with a fraction — followed by an optional
//! exponent `e`/`E` with an optional sign and a digit run.

use vstd::prelude::*;

use crate::text::all_digits;

verus! {

/// Case-fold an ASCII letter to lower case, as a code point.
pub open spec fn lower_u32(c: char) -> u32 {
    if 65 <= c as u32 <= 90 {
        (c as u32 + 32) as u32
    } else {
        c as u32
    }
}

/// The case-folded code points of a text.
pub open spec fn lower_seq(s: Seq<char>) -> Seq<u32> {
    s.map_values(|c: char| lower_u32(c))
}

/// Code points of `inf`.
pub open spec fn inf_seq() -> Seq<u32> {
    seq![105u32, 110u32, 102u32]
}

/// Code points of `infinity`.
pub open spec fn infinity_seq() -> Seq<u32> {
    seq![105u32, 110u32, 102u32, 105u32, 110u32, 105u32, 116u32, 121u32]
}

/// Code points of `nan`.
pub open spec fn nan_seq() -> Seq<u32> {
    seq![110u32, 97u32, 110u32]
}

/// An `inf`, `infinity` or `nan` body, in any letter case.
pub open spec fn is_special_body(b: Seq<char>) -> bool {
    lower_seq(b) == inf_seq() || lower_seq(b) == infinity_seq() || lower_seq(b) == nan_seq()
}

/// First position of `a` or `b` in `s`, or `-1`.
pub open spec fn find_cc(s: Seq<char>, a: u32, b: u32) -> int
    decreases s,
{
    if s.len() == 0 {
        -1
    } else if s[0] as u32 == a || s[0] as u32 == b {
        0
    } else {
        let rest = find_cc(s.drop_first(), a, b);
        if rest < 0 {
            -1
        } else {
            rest + 1
        }
    }
}

/// `find_cc` names the first occurrence, and `-1` means none.
pub proof fn lemma_find_cc(s: Seq<char>, a: u32, b: u32)
    ensures
        find_cc(s, a, b) == -1 ==> forall|j: int|
            0 <= j < s.len() ==> (#[trigger] s[j]) as u32 != a && s[j] as u32 != b,
        find_cc(s, a, b) != -1 ==> {
            let f = find_cc(s, a, b);
            &&& 0 <= f < s.len()
            &&& (s[f] as u32 == a || s[f] as u32 == b)
            &&& forall|j: int| 0 <= j < f ==> (#[trigger] s[j]) as u32 != a && s[j] as u32 != b
        },
    decreases s,
{
    if s.len() > 0 {
        lemma_find_cc(s.drop_first(), a, b);
        assert forall|j: int| 1 <= j < s.len() implies s.drop_first()[j - 1] == #[trigger] s[j] by {}
    }
}

/// A mantissa: a digit run, a digit run with a trailing dot and optional
/// fraction, or a bare dot with a fraction.
pub open spec fn is_mantissa(m: Seq<char>) -> bool {
    let d = find_cc(m, 46, 46);
    if d == -1 {
        all_digits(m)
    } else {
        let before = m.take(d);
        let after = m.skip(d + 1);
        ||| (all_digits(before) && (after.len() == 0 || all_digits(after)))
        ||| (before.len() == 0 && all_digits(after))
    }
}

/// An exponent body after the `e` marker: an optional sign, then digits.
pub open spec fn is_exp_part(e: Seq<char>) -> bool {
    if e.len() == 0 {
        false
    } else {
        let digits = if e[0] as u32 == 43 || e[0] as u32 == 45 {
            e.drop_first()
        } else {
            e
        };
        all_digits(digits)
    }
}

/// A number body: a mantissa, optionally followed by `e`/`E` and an exponent.
pub open spec fn is_number_body(b: Seq<char>) -> bool {
    let f = find_cc(b, 101, 69);
    if f == -1 {
        is_mantissa(b)
    } else {
        is_mantissa(b.take(f)) && is_exp_part(b.skip(f + 1))
    }
}

/// The floating-point literal grammar.
pub open spec fn is_float_text(s: Seq<char>) -> bool {
    if s.len() == 0 {
        false
    } else {
        let body = if s[0] as u32 == 43 || s[0] as u32 == 45 {
            s.drop_first()
        } else {
            s
        };
        is_special_body(body) || is_number_body(body)
    }
}

/// Case-fold one character.
fn lower32(c: char) -> (r: u32)
    ensures
        r == lower_u32(c),
{
    let v = c as u32;
    if v >= 65 && v <= 90 {
        v + 32
    } else {
        v
    }
}

/// Whether `b` reads `inf`, `infinity` or `nan` in any letter case.
fn is_special(b: &str) -> (r: bool)
    ensures
        r == is_special_body(b@),
{
    let n = b.unicode_len();
    if n == 3 {
        let a0 = lower32(b.get_char(0));
        let a1 = lower32(b.get_char(1));
        let a2 = lower32(b.get_char(2));
        proof {
            assert(lower_seq(b@) =~= seq![
                lower_u32(b@[0]), lower_u32(b@[1]), lower_u32(b@[2]),
            ]);
        }
        (a0 == 105 && a1 == 110 && a2 == 102) || (a0 == 110 && a1 == 97 && a2 == 110)
    } else if n == 8 {
        let a0 = lower32(b.get_char(0));
        let a1 = lower32(b.get_char(1));
        let a2 = lower32(b.get_char(2));
        let a3 = lower32(b.get_char(3));
        let a4 = lower32(b.get_char(4));
        let a5 = lower32(b.get_char(5));
        let a6 = lower32(b.get_char(6));
        let a7 = lower32(b.get_char(7));
        proof {
            assert(lower_seq(b@) =~= seq![
                lower_u32(b@[0]), lower_u32(b@[1]), lower_u32(b@[2]), lower_u32(b@[3]),
                lower_u32(b@[4]), lower_u32(b@[5]), lower_u32(b@[6]), lower_u32(b@[7]),
            ]);
        }
        a0 == 105 && a1 == 110 && a2 == 102 && a3 == 105 && a4 == 110 && a5 == 105
            && a6 == 116 && a7 == 121
    } else {
        proof {
            assert(lower_seq(b@).len() == b@.len());
        }
        false
    }
}

/// First position of code point `a` or `b` in `s`.
fn find_cc_exec(s: &str, a: u32, b: u32) -> (r: Option<usize>)
    ensures
        match r {
            Some(i) => find_cc(s@, a, b) == i,
            None => find_cc(s@, a, b) == -1,
        },
{
    proof {
        lemma_find_cc(s@, a, b);
    }
    let n = s.unicode_len();
    let mut i: usize = 0;
    while i < n
        invariant
            n == s@.len(),
            0 <= i <= n,
            forall|j: int| 0 <= j < i ==> (#[trigger] s@[j]) as u32 != a && s@[j] as u32 != b,
        decreases n - i,
    {
        let v = s.get_char(i) as u32;
        if v == a || v == b {
            proof {
                lemma_find_cc(s@, a, b);
                let f = find_cc(s@, a, b);
                assert(s@[i as int] as u32 == a || s@[i as int] as u32 == b);
                if f == -1 {
                    assert(s@[i as int] as u32 != a && s@[i as int] as u32 != b);
                }
                if 0 <= f < i {
                    assert(s@[f] as u32 != a && s@[f] as u32 != b);
                }
                if f > i {
                    assert(s@[i as int] as u32 != a && s@[i as int] as u32 != b);
                }
            }
            return Some(i);
        }
        i = i + 1;
    }
    None
}

/// Whether the characters of `s` from `from` to `to` are a nonempty digit
/// run.
fn all_digits_range(s: &str, from: usize, to: usize) -> (r: bool)
    requires
        from <= to <= s@.len(),
    ensures
        r == all_digits(s@.subrange(from as int, to as int)),
{
    let ghost ds = s@.subrange(from as int, to as int);
    if from == to {
        return false;
    }
    let mut i: usize = from;
    while i < to
        invariant
            from <= i <= to <= s@.len(),
            ds == s@.subrange(from as int, to as int),
            from < to,
            forall|j: int| 0 <= j < i - from ==> crate::text::is_digit(#[trigger] ds[j]),
        decreases to - i,
    {
        let v = s.get_char(i) as u32;
        if v < 48 || v > 57 {
            proof {
                assert(ds[i - from] == s@[i as int]);
            }
            return false;
        }
        proof {
            assert(ds[i - from] == s@[i as int]);
        }
        i = i + 1;
    }
    true
}

/// Whether `m` is a mantissa.
fn is_mantissa_exec(m: &str) -> (r: bool)
    ensures
        r == is_mantissa(m@),
{
    let n = m.unicode_len();
    match find_cc_exec(m, 46, 46) {
        None => {
            proof {
                assert(m@.subrange(0, n as int) =~= m@);
            }
            all_digits_range(m, 0, n)
        }
        Some(d) => {
            proof {
                lemma_find_cc(m@, 46, 46);
                assert(m@.take(d as int) =~= m@.subrange(0, d as int));
                assert(m@.skip(d + 1) =~= m@.subrange(d + 1, n as int));
            }
            let before_ok = all_digits_range(m, 0, d);
            let after_empty = d + 1 == n;
            let after_ok = all_digits_range(m, d + 1, n);
            (before_ok && (after_empty || after_ok)) || (d == 0 && after_ok)
        }
    }
}

/// Whether the characters of `e` from `from` on are an exponent body.
fn is_exp_part_range(e: &str, from: usize) -> (r: bool)
    requires
        from <= e@.len(),
    ensures
        r == is_exp_part(e@.skip(from as int)),
{
    let n = e.unicode_len();
    if from == n {
        return false;
    }
    let c0 = e.get_char(from) as u32;
    let start: usize = if c0 == 43 || c0 == 45 {
        from + 1
    } else {
        from
    };
    proof {
        let ep = e@.skip(from as int);
        assert(ep[0] == e@[from as int]);
        if c0 == 43 || c0 == 45 {
            assert(ep.drop_first() =~= e@.subrange(from + 1, n as int));
        } else {
            assert(ep =~= e@.subrange(from as int, n as int));
        }
    }
    all_digits_range(e, start, n)
}

/// Whether `s` is a well-formed floating-point literal.
pub fn is_float_literal(s: &str) -> (r: bool)
    ensures
        r == is_float_text(s@),
{
    let n = s.unicode_len();
    if n == 0 {
        return false;
    }
    let c0 = s.get_char(0) as u32;
    let start: usize = if c0 == 43 || c0 == 45 {
        1
    } else {
        0
    };
    let body = s.substring_char(start, n);
    proof {
        if c0 == 43 || c0 == 45 {
            assert(body@ =~= s@.drop_first());
        } else {
            assert(body@ =~= s@);
        }
    }
    if is_special(body) {
        return true;
    }
    let bn = body.unicode_len();
    match find_cc_exec(body, 101, 69) {
        None => is_mantissa_exec(body),
        Some(f) => {
            proof {
                lemma_find_cc(body@, 101, 69);
            }
            let mant = body.substring_char(0, f);
            proof {
                assert(mant@ =~= body@.take(f as int));
                assert(body@.skip(f + 1) =~= body@.skip(f + 1));
            }
            if !is_mantissa_exec(mant) {
                return false;
            }
            is_exp_part_range(body, f + 1)
        }
    }
}

} // verus!
