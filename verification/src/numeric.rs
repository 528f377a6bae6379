//! Verified numeric conversions: decimal parsing for Int, and a pure-integer
//! construction of IEEE 754 binary64 bit patterns for the coercions whose
//! target is Float.
//!
//! The engine never computes with floating-point numbers; a Float payload is
//! a 64-bit pattern. `float_bits` builds the pattern of the double nearest to
//! `m / 10^f` (ties to even) by scaling the exact rational until its quotient
//! has 53 significant bits, so the supported decimal inputs convert exactly
//! as standard round-to-nearest parsing would convert them.

use vstd::prelude::*;
use vstd::arithmetic::power2::pow2;
use vstd::string::StrSliceExecFns;

verus! {

/// 10^k.
pub open spec fn pow10(k: nat) -> nat
    decreases k,
{
    if k == 0 {
        1
    } else {
        10 * pow10((k - 1) as nat)
    }
}

pub open spec fn is_digit(c: char) -> bool {
    48 <= c as u32 <= 57
}

pub open spec fn digit_val(c: char) -> nat {
    (c as u32 - 48) as nat
}

pub open spec fn all_digits(s: Seq<char>) -> bool {
    forall|i: int| 0 <= i < s.len() ==> is_digit(#[trigger] s[i])
}

/// The number a digit string stands for.
pub open spec fn digits_val(s: Seq<char>) -> nat
    decreases s.len(),
{
    if s.len() == 0 {
        0
    } else {
        digits_val(s.drop_last()) * 10 + digit_val(s.last())
    }
}

/// A longer digit string never stands for a smaller number.
pub proof fn lemma_digits_val_prefix(s: Seq<char>, k: int)
    requires
        0 <= k <= s.len(),
    ensures
        digits_val(s) >= digits_val(s.take(k)),
    decreases s.len() - k,
{
    if k < s.len() {
        lemma_digits_val_prefix(s, k + 1);
        let t = s.take(k + 1);
        assert(t.drop_last() =~= s.take(k));
        assert(digits_val(t) == digits_val(s.take(k)) * 10 + digit_val(t.last()));
    } else {
        assert(s.take(k) =~= s);
    }
}

/// The sign and the remaining characters: a leading '+' or '-' is stripped.
pub open spec fn split_sign(s: Seq<char>) -> (bool, Seq<char>) {
    if s.len() > 0 && s[0] == '-' {
        (true, s.skip(1))
    } else if s.len() > 0 && s[0] == '+' {
        (false, s.skip(1))
    } else {
        (false, s)
    }
}

/// What parsing the characters as a 64-bit signed integer yields: an
/// optional sign, then one or more decimal digits, within the i64 range.
pub open spec fn parse_int_spec(s: Seq<char>) -> Option<i64> {
    let (neg, ds) = split_sign(s);
    if ds.len() == 0 || !all_digits(ds) {
        None
    } else {
        let v = digits_val(ds) as int;
        if neg {
            if v <= 0x8000_0000_0000_0000 {
                Some((-v) as i64)
            } else {
                None
            }
        } else {
            if v < 0x8000_0000_0000_0000 {
                Some(v as i64)
            } else {
                None
            }
        }
    }
}

/// Reads the digits of `s` from `from` on, accumulating their value, and
/// failing on a non-digit or once the value passes 2^63.
fn digits_value(s: &str, from: usize, n: usize) -> (r: Option<u64>)
    requires
        n == s@.len(),
        from <= n,
    ensures
        match r {
            Some(v) => all_digits(s@.skip(from as int)) && v == digits_val(s@.skip(from as int))
                && v <= 0x8000_0000_0000_0000u64,
            None => !all_digits(s@.skip(from as int)) || digits_val(s@.skip(from as int))
                > 0x8000_0000_0000_0000u64,
        },
{
    let ghost whole = s@.skip(from as int);
    let mut acc: u64 = 0;
    let mut i: usize = from;
    while i < n
        invariant
            from <= i <= n,
            n == s@.len(),
            whole == s@.skip(from as int),
            all_digits(whole.take(i - from)),
            acc == digits_val(whole.take(i - from)),
            acc <= 0x8000_0000_0000_0000u64,
        decreases n - i,
    {
        let c = s.get_char(i);
        let u = c as u32;
        if u < 48 || u > 57 {
            proof {
                assert(whole[i - from] == s@[i as int]);
                assert(!is_digit(whole[i - from]));
            }
            return None;
        }
        let d = (u - 48) as u64;
        proof {
            assert(whole.take(i - from + 1).drop_last() =~= whole.take(i - from));
            assert(whole.take(i - from + 1).last() == s@[i as int]);
        }
        if acc > 0x0CCC_CCCC_CCCC_CCCCu64 || (acc == 0x0CCC_CCCC_CCCC_CCCCu64 && d > 8) {
            proof {
                let k = i - from + 1;
                assert(digits_val(whole.take(k)) > 0x8000_0000_0000_0000) by {
                    assert(digits_val(whole.take(k)) == acc * 10 + d);
                }
                lemma_digits_val_prefix(whole, k);
            }
            return None;
        }
        acc = acc * 10 + d;
        i = i + 1;
    }
    proof {
        assert(whole.take(i - from) =~= whole);
    }
    Some(acc)
}

/// Parses the characters as an i64, as `parse_int_spec` says.
pub fn parse_int(s: &str) -> (r: Option<i64>)
    ensures
        r == parse_int_spec(s@),
{
    let n = s.unicode_len();
    let mut from: usize = 0;
    let mut neg = false;
    if n > 0 {
        let c0 = s.get_char(0);
        if c0 == '-' {
            neg = true;
            from = 1;
        } else if c0 == '+' {
            from = 1;
        }
    }
    proof {
        let (sneg, ds) = split_sign(s@);
        assert(sneg == neg && ds == s@.skip(from as int));
    }
    if from == n {
        // no digits at all
        proof {
            assert(s@.skip(from as int).len() == 0);
        }
        return None;
    }
    match digits_value(s, from, n) {
        None => None,
        Some(v) => {
            if neg {
                if v == 0x8000_0000_0000_0000u64 {
                    Some(i64::MIN)
                } else {
                    Some(-(v as i64))
                }
            } else {
                if v >= 0x8000_0000_0000_0000u64 {
                    None
                } else {
                    Some(v as i64)
                }
            }
        },
    }
}

/// What parsing the characters as a plain decimal number yields: an optional
/// sign, digits with at most one decimal point and at least one digit, given
/// as (negative, all digits as one number, digits after the point). Numbers
/// whose digits exceed u64::MAX, or with more than 19 fractional digits, are
/// out of the supported range.
pub open spec fn parse_decimal_spec(s: Seq<char>) -> Option<(bool, u64, u8)> {
    let (neg, ds) = split_sign(s);
    parse_decimal_digits(neg, ds)
}

pub open spec fn parse_decimal_digits(neg: bool, ds: Seq<char>) -> Option<(bool, u64, u8)> {
    let p = first_dot(ds);
    if p >= 0 {
        let ip = ds.take(p);
        let fp = ds.skip(p + 1);
        if all_digits(ip) && all_digits(fp) && ip.len() + fp.len() > 0 && digits_val(ip + fp)
            <= u64::MAX && fp.len() <= 19 {
            Some((neg, digits_val(ip + fp) as u64, fp.len() as u8))
        } else {
            None
        }
    } else {
        if all_digits(ds) && ds.len() > 0 && digits_val(ds) <= u64::MAX {
            Some((neg, digits_val(ds) as u64, 0))
        } else {
            None
        }
    }
}

/// The index of the first '.' among the characters, or -1.
pub open spec fn first_dot(ds: Seq<char>) -> int
    decreases ds.len(),
{
    if ds.len() == 0 {
        -1
    } else if ds[0] == '.' {
        0
    } else {
        let r = first_dot(ds.skip(1));
        if r == -1 {
            -1
        } else {
            r + 1
        }
    }
}

pub proof fn lemma_first_dot(ds: Seq<char>)
    ensures
        first_dot(ds) >= -1,
        first_dot(ds) == -1 ==> forall|j: int| 0 <= j < ds.len() ==> ds[j] != '.',
        first_dot(ds) >= 0 ==> 0 <= first_dot(ds) < ds.len() && ds[first_dot(ds)] == '.'
            && forall|j: int| 0 <= j < first_dot(ds) ==> ds[j] != '.',
    decreases ds.len(),
{
    if ds.len() > 0 && ds[0] != '.' {
        lemma_first_dot(ds.skip(1));
        assert(forall|j: int| 1 <= j < ds.len() ==> #[trigger] ds[j] == ds.skip(1)[j - 1]);
        if first_dot(ds) == -1 {
            assert(first_dot(ds.skip(1)) == -1);
            assert forall|j: int| 0 <= j < ds.len() implies ds[j] != '.' by {
                if j >= 1 {
                    assert(ds[j] == ds.skip(1)[j - 1]);
                }
            }
        }
    }
}

/// Doubles `u` (halving the weight 2^e) until `u` has at least 53 binary
/// digits more than... precisely: until `u >= 2^52 * v`.
pub open spec fn scale_down(u: int, v: int, e: int) -> (int, int)
    decreases (if 1 <= u && 1 <= v && u < pow2(52) * v {
        pow2(52) * v - u
    } else {
        0
    }),
{
    if 1 <= u && 1 <= v && u < pow2(52) * v {
        scale_down(2 * u, v, e - 1)
    } else {
        (u, e)
    }
}

/// Doubles `v` (raising the weight 2^e) until `u < 2^53 * v`.
pub open spec fn scale_up(u: int, v: int, e: int) -> (int, int)
    decreases (if 1 <= v && v < u && pow2(53) * v <= u {
        u - v
    } else {
        0
    }),
{
    if 1 <= v && v < u && pow2(53) * v <= u {
        scale_up(u, 2 * v, e + 1)
    } else {
        (v, e)
    }
}

/// The IEEE 754 binary64 bit pattern of the double nearest to
/// (-1)^neg * m / 10^f, ties to even. For every m < 2^64 and f <= 19 the
/// result is a normal number, so no clamping arises.
pub open spec fn float_bits_spec(neg: bool, m: u64, f: u8) -> u64 {
    let sign: int = if neg {
        0x8000_0000_0000_0000
    } else {
        0
    };
    if m == 0 {
        sign as u64
    } else {
        let v0 = pow10(f as nat) as int;
        let (u1, e1) = scale_down(m as int, v0, 0);
        let (v2, e2) = scale_up(u1, v0, e1);
        let q = u1 / v2;
        let r = u1 % v2;
        let q1: int = if 2 * r > v2 || (2 * r == v2 && q % 2 == 1) {
            q + 1
        } else {
            q
        };
        let q2: int = if q1 == pow2(53) {
            pow2(52) as int
        } else {
            q1
        };
        let e3: int = if q1 == pow2(53) {
            e2 + 1
        } else {
            e2
        };
        (sign + (e3 + 1075) * pow2(52) + (q2 - pow2(52))) as u64
    }
}

/// 10^f as a number, for the small exponents the decimal parser admits.
pub fn pow10_u64(f: u8) -> (r: u64)
    requires
        f <= 19,
    ensures
        r == pow10(f as nat),
{
    let mut r: u64 = 1;
    let mut i: u8 = 0;
    proof {
        lemma_pow10_19();
    }
    while i < f
        invariant
            i <= f <= 19,
            r == pow10(i as nat),
            pow10(19) == 10_000_000_000_000_000_000,
        decreases f - i,
    {
        proof {
            lemma_pow10_mono(i as nat + 1, 19);
        }
        r = r * 10;
        i = i + 1;
    }
    r
}

pub proof fn lemma_pow10_19()
    ensures
        pow10(19) == 10_000_000_000_000_000_000,
{
    reveal_with_fuel(pow10, 21);
    assert(pow10(19) == 10_000_000_000_000_000_000);
}

pub proof fn lemma_pow10_mono(a: nat, b: nat)
    requires
        a <= b,
    ensures
        pow10(a) <= pow10(b),
        pow10(a) >= 1,
    decreases b,
{
    if b > 0 {
        if a == b {
            lemma_pow10_mono((a - 1) as nat, (b - 1) as nat);
        } else {
            lemma_pow10_mono(a, (b - 1) as nat);
        }
    }
}

/// Builds the bit pattern `float_bits_spec` describes, in integer
/// arithmetic alone.
pub fn float_bits(neg: bool, m: u64, f: u8) -> (r: u64)
    requires
        f <= 19,
    ensures
        r == float_bits_spec(neg, m, f),
{
    let sign: u64 = if neg {
        0x8000_0000_0000_0000u64
    } else {
        0
    };
    if m == 0 {
        return sign;
    }
    proof {
        vstd::arithmetic::power2::lemma2_to64();
        vstd::arithmetic::power2::lemma2_to64_rest();
        lemma_pow10_19();
        lemma_pow10_mono(f as nat, 19);
    }
    let v0: u64 = pow10_u64(f);
    let mut u: u128 = m as u128;
    let mut v: u128 = v0 as u128;
    let mut e: i64 = 0;
    let ghost m0 = m as int;
    proof {
        assert(u as int == m0 * pow2(0));
    }
    while u < 0x10_0000_0000_0000u128 * v
        invariant
            v == v0 as u128,
            1 <= v <= pow10(19) < 0x1_0000_0000_0000_0000,
            1 <= m0 < 0x1_0000_0000_0000_0000,
            -120 <= e <= 0,
            u as int == m0 * pow2((-e) as nat),
            e == 0 ==> u == m0,
            e < 0 ==> (u as int) < pow2(53) * (v as int),
            pow2(52) == 0x10_0000_0000_0000,
            pow2(53) == 0x20_0000_0000_0000,
            scale_down(m0, v as int, 0) == scale_down(u as int, v as int, e as int),
        decreases 0x20_0000_0000_0000u128 * v - u,
    {
        proof {
            let p = pow2((-e) as nat) as int;
            vstd::arithmetic::power2::lemma_pow2_pos((-e) as nat);
            assert(p <= u as int) by (nonlinear_arith)
                requires
                    u as int == m0 * p,
                    m0 >= 1,
                    p >= 1,
            ;
            assert((u as int) < pow2(52) * (v as int));
            assert(pow2(52) * (v as int) < 0x10_0000_0000_0000 * 0x1_0000_0000_0000_0000)
                by (nonlinear_arith)
                requires
                    v < 0x1_0000_0000_0000_0000,
                    pow2(52) == 0x10_0000_0000_0000,
            ;
            if -e >= 117 {
                vstd::arithmetic::power2::lemma_pow2_strictly_increases(116, (-e) as nat);
                assert(pow2(116) == pow2(52) * pow2(64)) by {
                    vstd::arithmetic::power2::lemma_pow2_adds(52, 64);
                }
                vstd::arithmetic::power2::lemma2_to64();
                assert(false);
            }
            assert(pow2(((-e) + 1) as nat) == 2 * pow2((-e) as nat)) by {
                vstd::arithmetic::power2::lemma_pow2_adds(1, (-e) as nat);
                vstd::arithmetic::power2::lemma2_to64();
            }
            assert(2 * (u as int) == m0 * pow2(((-e) + 1) as nat)) by (nonlinear_arith)
                requires
                    u as int == m0 * pow2((-e) as nat),
                    pow2(((-e) + 1) as nat) == 2 * pow2((-e) as nat),
            ;
            assert(2 * (u as int) < pow2(53) * (v as int)) by (nonlinear_arith)
                requires
                    (u as int) < pow2(52) * (v as int),
                    pow2(53) == 2 * pow2(52),
            ;
        }
        u = u * 2;
        e = e - 1;
    }
    let ghost u1 = u as int;
    let ghost e1 = e as int;
    proof {
        assert(scale_down(u1, v as int, e1) == (u1, e1));
        assert(u1 >= pow2(52) * (v as int));
        if e == 0 {
            assert(u1 < 0x1_0000_0000_0000_0000);
        } else {
            assert(u1 < 0x100_0000_0000_0000_0000_0000_0000_0000) by (nonlinear_arith)
                requires
                    (u1 as int) < pow2(53) * (v as int),
                    v < 0x1_0000_0000_0000_0000,
                    pow2(53) == 0x20_0000_0000_0000,
            ;
        }
        assert(u1 < 0x100_0000_0000_0000_0000_0000_0000_0000);
    }
    let ghost v00 = v0 as int;
    while u >= 0x20_0000_0000_0000u128 * v
        invariant
            1 <= v,
            1 <= v00,
            u as int == u1,
            u1 < 0x100_0000_0000_0000_0000_0000_0000_0000,
            pow2(52) * (v as int) <= u1,
            v < 0x20_0000_0000_0000_0000u128,
            e1 <= e <= 130,
            v as int == v00 * pow2((e - e1) as nat),
            pow2(52) == 0x10_0000_0000_0000,
            pow2(53) == 0x20_0000_0000_0000,
            -120 <= e1 <= 0,
            scale_up(u1, v00, e1) == scale_up(u1, v as int, e as int),
        decreases u - v,
    {
        proof {
            assert(pow2(53) * (v as int) <= u1);
            assert(v < u) by (nonlinear_arith)
                requires
                    pow2(53) * (v as int) <= u1,
                    u as int == u1,
                    v >= 1,
                    pow2(53) == 0x20_0000_0000_0000,
            ;
            assert(pow2(((e - e1) + 1) as nat) == 2 * pow2((e - e1) as nat)) by {
                vstd::arithmetic::power2::lemma_pow2_adds(1, (e - e1) as nat);
                vstd::arithmetic::power2::lemma2_to64();
            }
            assert(2 * (v as int) == v00 * pow2(((e - e1) + 1) as nat)) by (nonlinear_arith)
                requires
                    v as int == v00 * pow2((e - e1) as nat),
                    pow2(((e - e1) + 1) as nat) == 2 * pow2((e - e1) as nat),
            ;
            assert(2 * (v as int) < 0x20_0000_0000_0000_0000) by (nonlinear_arith)
                requires
                    pow2(53) * (v as int) <= u1,
                    u1 < 0x100_0000_0000_0000_0000_0000_0000_0000,
                    pow2(53) == 0x20_0000_0000_0000,
            ;
            assert(pow2(52) * (2 * (v as int)) <= u1) by (nonlinear_arith)
                requires
                    pow2(53) * (v as int) <= u1,
                    pow2(53) == 2 * pow2(52),
            ;
            vstd::arithmetic::power2::lemma_pow2_pos(((e - e1) + 1) as nat);
            assert(pow2(((e - e1) + 1) as nat) <= 2 * (v as int)) by (nonlinear_arith)
                requires
                    2 * (v as int) == v00 * pow2(((e - e1) + 1) as nat),
                    v00 >= 1,
                    pow2(((e - e1) + 1) as nat) >= 1,
            ;
            assert(pow2(69) == 0x20_0000_0000_0000_0000) by {
                vstd::arithmetic::power2::lemma_pow2_adds(64, 5);
                vstd::arithmetic::power2::lemma2_to64();
            }
            if (e - e1) + 1 >= 69 {
                if (e - e1) + 1 > 69 {
                    vstd::arithmetic::power2::lemma_pow2_strictly_increases(
                        69,
                        ((e - e1) + 1) as nat,
                    );
                }
                assert(false);
            }
        }
        v = v * 2;
        e = e + 1;
    }
    let ghost v2 = v as int;
    let ghost e2 = e as int;
    proof {
        assert(scale_up(u1, v2, e2) == (v2, e2)) by {
            assert(!(1 <= v2 && v2 < u1 && pow2(53) * v2 <= u1)) by (nonlinear_arith)
                requires
                    u1 < pow2(53) * v2 || !(v2 < u1) || v2 < 1,
            ;
        }
        assert((u as int) < pow2(53) * v2);
    }
    let q0: u128 = u / v;
    let r0: u128 = u % v;
    proof {
        assert(q0 as int == u1 / v2 && r0 as int == u1 % v2);
        assert(r0 < v);
        assert(q0 < pow2(53)) by (nonlinear_arith)
            requires
                q0 == u1 / v2,
                u1 < pow2(53) * v2,
                v2 >= 1,
                u1 >= 0,
        ;
        assert(q0 >= pow2(52)) by (nonlinear_arith)
            requires
                q0 == u1 / v2,
                u1 >= pow2(52) * v2,
                v2 >= 1,
        ;
    }
    let mut q: u128 = q0;
    if r0 > v - r0 || (r0 == v - r0 && q0 % 2 == 1) {
        q = q + 1;
    }
    proof {
        assert((r0 > v - r0) == (2 * (r0 as int) > v2));
        assert((r0 == v - r0) == (2 * (r0 as int) == v2));
        assert(pow2(52) <= q <= pow2(53));
    }
    let mut e3: i64 = e;
    if q == 0x20_0000_0000_0000u128 {
        q = 0x10_0000_0000_0000u128;
        e3 = e + 1;
    }
    proof {
        assert(-120 <= e3 <= 131);
        assert(pow2(52) <= q && q < pow2(53));
    }
    let qm: u64 = (q as u64) - 0x10_0000_0000_0000u64;
    let field: u64 = ((e3 + 1075) as u64) * 0x10_0000_0000_0000u64;
    let bits: u64 = sign + field + qm;
    proof {
        assert(bits == float_bits_spec(neg, m, f));
    }
    bits
}

/// Accumulates the digits of two character ranges as one number, failing on
/// a non-digit or a value beyond u64::MAX.
fn digits_value2(s: &str, a1: usize, b1: usize, a2: usize, b2: usize) -> (r: Option<u64>)
    requires
        a1 <= b1 <= s@.len(),
        a2 <= b2 <= s@.len(),
    ensures
        ({
            let cat = s@.subrange(a1 as int, b1 as int) + s@.subrange(a2 as int, b2 as int);
            match r {
                Some(v) => all_digits(cat) && v == digits_val(cat),
                None => !all_digits(cat) || digits_val(cat) > u64::MAX,
            }
        }),
{
    let ghost cat = s@.subrange(a1 as int, b1 as int) + s@.subrange(a2 as int, b2 as int);
    let ghost len1 = b1 - a1;
    let mut acc: u128 = 0;
    let mut i: usize = a1;
    while i < b1
        invariant
            a1 <= i <= b1 <= s@.len(),
            a2 <= b2 <= s@.len(),
            cat == s@.subrange(a1 as int, b1 as int) + s@.subrange(a2 as int, b2 as int),
            len1 == b1 - a1,
            all_digits(cat.take(i - a1)),
            acc == digits_val(cat.take(i - a1)),
            acc <= u64::MAX,
        decreases b1 - i,
    {
        proof {
            assert(cat[i - a1] == s@[i as int]);
            assert(cat.take(i - a1 + 1).drop_last() =~= cat.take(i - a1));
            assert(cat.take(i - a1 + 1).last() == s@[i as int]);
        }
        let c = s.get_char(i);
        let u = c as u32;
        if u < 48 || u > 57 {
            return None;
        }
        let d = (u - 48) as u128;
        let next = acc * 10 + d;
        if next > 0xFFFF_FFFF_FFFF_FFFFu128 {
            proof {
                lemma_digits_val_prefix(cat, i - a1 + 1);
            }
            return None;
        }
        acc = next;
        i = i + 1;
    }
    let mut j: usize = a2;
    while j < b2
        invariant
            a1 <= b1 <= s@.len(),
            a2 <= j <= b2 <= s@.len(),
            cat == s@.subrange(a1 as int, b1 as int) + s@.subrange(a2 as int, b2 as int),
            len1 == b1 - a1,
            all_digits(cat.take(len1 + (j - a2))),
            acc == digits_val(cat.take(len1 + (j - a2))),
            acc <= u64::MAX,
        decreases b2 - j,
    {
        let ghost k = len1 + (j - a2);
        proof {
            assert(cat[k] == s@[j as int]);
            assert(cat.take(k + 1).drop_last() =~= cat.take(k));
            assert(cat.take(k + 1).last() == s@[j as int]);
        }
        let c = s.get_char(j);
        let u = c as u32;
        if u < 48 || u > 57 {
            return None;
        }
        let d = (u - 48) as u128;
        let next = acc * 10 + d;
        if next > 0xFFFF_FFFF_FFFF_FFFFu128 {
            proof {
                lemma_digits_val_prefix(cat, k + 1);
            }
            return None;
        }
        acc = next;
        j = j + 1;
    }
    proof {
        assert(cat.take(len1 + (j - a2)) =~= cat);
    }
    Some(acc as u64)
}

/// Parses the characters as a plain decimal number, as
/// `parse_decimal_spec` says.
pub fn parse_decimal(s: &str) -> (r: Option<(bool, u64, u8)>)
    ensures
        r == parse_decimal_spec(s@),
{
    let n = s.unicode_len();
    let mut from: usize = 0;
    let mut neg = false;
    if n > 0 {
        let c0 = s.get_char(0);
        if c0 == '-' {
            neg = true;
            from = 1;
        } else if c0 == '+' {
            from = 1;
        }
    }
    let ghost ds = s@.skip(from as int);
    proof {
        let (sneg, dss) = split_sign(s@);
        assert(sneg == neg && dss == ds);
        lemma_first_dot(ds);
    }
    let mut i: usize = from;
    let mut dot: usize = n;
    let mut found = false;
    while i < n && !found
        invariant
            from <= i <= n,
            n == s@.len(),
            ds == s@.skip(from as int),
            forall|j: int| from <= j < i ==> s@[j] != '.',
            found ==> i < n && dot == i && s@[dot as int] == '.',
            !found ==> dot == n,
        decreases n - i + (if found { 0int } else { 1int }),
    {
        let c = s.get_char(i);
        if c == '.' {
            dot = i;
            found = true;
        } else {
            i = i + 1;
        }
    }
    proof {
        assert(forall|j: int| 0 <= j < ds.len() ==> ds[j] == s@[j + from]);
        if found {
            assert(ds[dot - from] == '.');
            assert(forall|j: int| 0 <= j < dot - from ==> ds[j] != '.');
            if first_dot(ds) < dot - from {
                assert(ds[first_dot(ds)] == '.');
                assert(false);
            }
            if first_dot(ds) > dot - from {
                assert(false);
            }
            assert(first_dot(ds) == dot - from);
        } else {
            assert(forall|j: int| 0 <= j < ds.len() ==> ds[j] != '.');
            if first_dot(ds) >= 0 {
                assert(ds[first_dot(ds)] == '.');
                assert(false);
            }
        }
    }
    if !found {
        if from == n {
            return None;
        }
        proof {
            assert(ds =~= s@.subrange(from as int, n as int) + s@.subrange(n as int, n as int));
        }
        match digits_value2(s, from, n, n, n) {
            Some(v) => Some((neg, v, 0)),
            None => None,
        }
    } else {
        let ghost p = dot - from;
        let ghost ip = ds.take(p);
        let ghost fp = ds.skip(p + 1);
        proof {
            assert(ip =~= s@.subrange(from as int, dot as int));
            assert(fp =~= s@.subrange(dot + 1, n as int));
            let cat = ip + fp;
            if all_digits(cat) {
                assert forall|x: int| 0 <= x < ip.len() implies is_digit(#[trigger] ip[x]) by {
                    assert(cat[x] == ip[x]);
                }
                assert forall|x: int| 0 <= x < fp.len() implies is_digit(#[trigger] fp[x]) by {
                    assert(cat[ip.len() + x] == fp[x]);
                }
            }
            if all_digits(ip) && all_digits(fp) {
                assert forall|x: int| 0 <= x < cat.len() implies is_digit(#[trigger] cat[x]) by {
                    if x < ip.len() {
                        assert(cat[x] == ip[x]);
                    } else {
                        assert(cat[x] == fp[x - ip.len()]);
                    }
                }
            }
            assert(all_digits(cat) == (all_digits(ip) && all_digits(fp)));
        }
        if n - dot - 1 > 19 {
            // too many fractional digits for the supported range
            return None;
        }
        if from == dot && dot + 1 == n {
            // a lone '.', with no digits at all
            return None;
        }
        match digits_value2(s, from, dot, dot + 1, n) {
            Some(v) => Some((neg, v, (n - dot - 1) as u8)),
            None => None,
        }
    }
}

} // verus!
