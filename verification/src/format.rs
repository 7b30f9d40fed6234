//! Result formatting: rounding and decimal rendering.
//!
//! Every displayed value carries exactly one fractional digit.  A
//! value held in tenths renders directly; a mean is first rounded to
//! the nearest tenth, ties away from zero.

use vstd::prelude::*;

use crate::record::{all_digits, digits_val, is_digit, signed_tenths, unsigned_tenths};

verus! {

/// `s / c` rounded to the nearest integer, ties away from zero, for
/// `c >= 1`.  Applied to a sum of tenths and a count it rounds the
/// mean to the nearest tenth.
pub open spec fn round_div(s: int, c: int) -> int
    recommends
        c >= 1,
{
    if s >= 0 {
        (2 * s + c) / (2 * c)
    } else {
        -((2 * -s + c) / (2 * c))
    }
}

/// Rounding is idempotent: a value already expressed in whole tenths
/// rounds to itself.
pub proof fn lemma_round_idempotent(t: int)
    ensures
        round_div(t, 1) == t,
{
    if t >= 0 {
        assert((2 * t + 1) / 2 == t);
    } else {
        assert((2 * -t + 1) / 2 == -t);
    }
}

/// The rounded ratio differs from the exact ratio by at most half a
/// unit: `|round_div(s, c) * c - s| * 2 <= c`.
pub proof fn lemma_round_div_nearest(s: int, c: int)
    requires
        c >= 1,
    ensures
        2 * (round_div(s, c) * c - s) <= c,
        2 * (s - round_div(s, c) * c) <= c,
{
    if s >= 0 {
        let q = (2 * s + c) / (2 * c);
        vstd::arithmetic::div_mod::lemma_fundamental_div_mod(2 * s + c, 2 * c);
        let rem = (2 * s + c) % (2 * c);
        vstd::arithmetic::div_mod::lemma_mod_bound(2 * s + c, 2 * c);
        assert(2 * s + c == 2 * c * q + rem);
        assert(2 * (q * c - s) == c - rem) by (nonlinear_arith)
            requires
                2 * s + c == 2 * c * q + rem,
        ;
    } else {
        let q = (2 * -s + c) / (2 * c);
        vstd::arithmetic::div_mod::lemma_fundamental_div_mod(2 * -s + c, 2 * c);
        let rem = (2 * -s + c) % (2 * c);
        vstd::arithmetic::div_mod::lemma_mod_bound(2 * -s + c, 2 * c);
        assert(2 * -s + c == 2 * c * q + rem);
        assert(2 * (-q * c - s) == rem - c) by (nonlinear_arith)
            requires
                2 * -s + c == 2 * c * q + rem,
        ;
    }
}

/// Round the exact mean `sum / count` of an accumulator to the nearest
/// tenth, ties away from zero.
pub fn round_mean(sum: i128, count: u64) -> (r: i64)
    requires
        count >= 1,
        count * (i64::MIN as int) <= sum,
        sum <= count * (i64::MAX as int),
    ensures
        r as int == round_div(sum as int, count as int),
{
    let neg = sum < 0;
    proof {
        assert(-0x80000000000000000000000000000000 < sum
            <= 0x7fffffffffffffffffffffffffffffff) by (nonlinear_arith)
            requires
                1 <= count <= 0xffffffffffffffffu64,
                count * (i64::MIN as int) <= sum <= count * (i64::MAX as int),
        ;
    }
    let mag: u128 = if neg {
        (-sum) as u128
    } else {
        sum as u128
    };
    proof {
        assert(2 * (mag as int) + count <= 0xffffffffffffffffffffffffffffffff && (2 * (mag as int)
            + count) / (2 * (count as int)) <= 0x8000000000000000 && (!neg ==> (2 * (mag as int)
            + count) / (2 * (count as int)) <= 0x7fffffffffffffff)) by (nonlinear_arith)
            requires
                1 <= count <= 0xffffffffffffffffu64,
                count * (i64::MIN as int) <= sum <= count * (i64::MAX as int),
                neg <==> sum < 0,
                mag == if neg {
                    -(sum as int)
                } else {
                    sum as int
                },
        ;
    }
    let num: u128 = 2 * mag + (count as u128);
    let den: u128 = 2 * (count as u128);
    let q: u128 = num / den;
    if neg {
        if q >= 9223372036854775808u128 {
            proof {
                assert(q == 9223372036854775808u128);
            }
            i64::MIN
        } else {
            -(q as i64)
        }
    } else {
        q as i64
    }
}

/// The ASCII digits of a non-negative integer, most significant first.
pub open spec fn spec_digits(n: int) -> Seq<u8>
    recommends
        n >= 0,
    decreases n,
{
    if n < 10 {
        seq![(48 + if n >= 0 {
            n
        } else {
            0
        }) as u8]
    } else {
        spec_digits(n / 10).push((48 + n % 10) as u8)
    }
}

/// The rendering of a value held in tenths: an optional minus sign,
/// the integer digits, a point, and exactly one fractional digit.
pub open spec fn spec_tenths_bytes(t: int) -> Seq<u8> {
    let a = if t < 0 {
        -t
    } else {
        t
    };
    let sign: Seq<u8> = if t < 0 {
        seq![45u8]
    } else {
        Seq::empty()
    };
    sign + spec_digits(a / 10) + seq![46u8, (48 + a % 10) as u8]
}

/// Render a value held in tenths with exactly one fractional digit.
#[verifier::loop_isolation(false)]
pub fn format_tenths(t: i64) -> (r: Vec<u8>)
    ensures
        r@ == spec_tenths_bytes(t as int),
{
    let neg = t < 0;
    let mag: u64 = if neg {
        (-(t as i128)) as u64
    } else {
        t as u64
    };
    let ghost a: int = if t < 0 {
        -(t as int)
    } else {
        t as int
    };
    assert(mag as int == a);
    let mut out: Vec<u8> = Vec::new();
    if neg {
        out.push(45u8);
    }
    let ghost sign = out@;
    let ip: u64 = mag / 10;
    let fd: u64 = mag % 10;
    let mut rev: Vec<u8> = Vec::new();
    let ghost mut suffix: Seq<u8> = Seq::empty();
    let mut m: u64 = ip;
    while m >= 10
        invariant
            spec_digits(ip as int) == spec_digits(m as int) + suffix,
            rev@.len() == suffix.len(),
            forall|k: int| 0 <= k < suffix.len() ==> rev@[k] == suffix[suffix.len() - 1 - k],
            out@ == sign,
        decreases m,
    {
        let d: u8 = 48 + ((m % 10) as u8);
        rev.push(d);
        proof {
            let ghost old_suffix = suffix;
            suffix = seq![d] + suffix;
            assert(spec_digits(m as int) == spec_digits(m as int / 10).push(d));
            assert(spec_digits(m as int / 10) + (seq![d] + old_suffix) =~= (spec_digits(
                m as int / 10,
            ).push(d)) + old_suffix);
            assert(spec_digits(ip as int) == spec_digits(m as int / 10) + suffix);
        }
        m = m / 10;
    }
    out.push(48 + (m as u8));
    proof {
        assert(spec_digits(m as int) =~= seq![(48 + m as int) as u8]);
        assert(out@ =~= sign + spec_digits(m as int));
    }
    let ghost base = out@;
    let mut j: usize = 0;
    while j < rev.len()
        invariant
            0 <= j <= rev@.len(),
            rev@.len() == suffix.len(),
            forall|k: int| 0 <= k < suffix.len() ==> rev@[k] == suffix[suffix.len() - 1 - k],
            out@ == base + suffix.take(j as int),
        decreases rev@.len() - j,
    {
        let d = rev[rev.len() - 1 - j];
        out.push(d);
        proof {
            assert(d == suffix[j as int]);
            assert(base + suffix.take(j + 1) =~= (base + suffix.take(j as int)).push(
                suffix[j as int],
            ));
        }
        j = j + 1;
    }
    proof {
        assert(suffix.take(suffix.len() as int) =~= suffix);
        assert(out@ == sign + spec_digits(ip as int)) by {
            assert(base + suffix =~= sign + (spec_digits(m as int) + suffix));
        }
    }
    out.push(46u8);
    out.push(48 + (fd as u8));
    proof {
        assert(ip as int == a / 10 && fd as int == a % 10);
        assert(out@ =~= spec_tenths_bytes(t as int));
    }
    out
}

/// The digits of a non-negative integer denote that integer, and are
/// digits.
proof fn lemma_spec_digits_val(n: int)
    requires
        n >= 0,
    ensures
        all_digits(spec_digits(n)),
        digits_val(spec_digits(n)) == n,
        spec_digits(n).len() >= 1,
    decreases n,
{
    if n < 10 {
        assert(spec_digits(n) =~= seq![(48 + n) as u8]);
        assert((48 + n) as u8 == 48 + n);
        assert(spec_digits(n).len() == 1);
        assert(spec_digits(n).last() == (48 + n) as u8);
        assert(digits_val(spec_digits(n).drop_last()) == 0) by {
            assert(spec_digits(n).drop_last().len() == 0);
        }
        assert(digits_val(spec_digits(n)) == n);
    } else {
        lemma_spec_digits_val(n / 10);
        let d = (48 + n % 10) as u8;
        let s = spec_digits(n / 10);
        assert(s.push(d).drop_last() =~= s);
        assert(s.push(d).last() == d);
        assert(digits_val(s.push(d)) == digits_val(s) * 10 + (n % 10));
        assert(all_digits(s.push(d))) by {
            assert(forall|i: int|
                0 <= i < s.len() ==> s.push(d)[i] == s[i] && is_digit(s.push(d)[i]));
            assert(is_digit(d));
        }
    }
}

/// Rendering then parsing is the identity: a rendered value is already
/// expressed with one fractional digit, and reading it back yields
/// exactly the tenths it was rendered from.
pub proof fn lemma_format_parse_roundtrip(t: int)
    ensures
        signed_tenths(spec_tenths_bytes(t)) == Some(t),
{
    let a = if t < 0 {
        -t
    } else {
        t
    };
    let digits = spec_digits(a / 10);
    lemma_spec_digits_val(a / 10);
    let unsigned = digits + seq![46u8, (48 + a % 10) as u8];
    assert(unsigned.len() >= 3);
    assert(unsigned[unsigned.len() - 2] == 46u8);
    assert(unsigned.take(unsigned.len() - 2) =~= digits);
    assert(unsigned.last() == (48 + a % 10) as u8);
    assert(is_digit(unsigned.last()));
    assert(unsigned_tenths(unsigned) == Some(digits_val(digits) * 10 + (a % 10)));
    assert(digits_val(digits) * 10 + a % 10 == a);
    if t < 0 {
        let s = spec_tenths_bytes(t);
        assert(s == seq![45u8] + unsigned);
        assert(s[0] == 45u8);
        assert(s.skip(1) =~= unsigned);
        assert(signed_tenths(s) == Some(-a));
    } else {
        let s = spec_tenths_bytes(t);
        assert(s =~= unsigned);
        assert(s.len() >= 1 && !(s[0] == 43u8 || s[0] == 45u8)) by {
            assert(s[0] == digits[0]);
            assert(is_digit(digits[0]));
        }
        assert(signed_tenths(s) == Some(a));
    }
}

} // verus!

