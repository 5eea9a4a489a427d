//! Decimal numbers: the grammar of a numeric field and its fixed-point
//! value in millionths of a unit, with a verified parser.

use vstd::prelude::*;
use crate::record::VALUE_UNIT;

verus! {

/// The ASCII digit `0`.
pub const BYTE_ZERO: u8 = 48;

/// The ASCII digit `9`.
pub const BYTE_NINE: u8 = 57;

/// The ASCII decimal point `.`.
pub const BYTE_DOT: u8 = 46;

/// The ASCII minus sign `-`.
pub const BYTE_MINUS: u8 = 45;

/// The ASCII plus sign `+`.
pub const BYTE_PLUS: u8 = 43;

/// True of an ASCII decimal digit byte.
pub open spec fn is_digit(b: u8) -> bool {
    BYTE_ZERO <= b && b <= BYTE_NINE
}

/// Numeric value of one digit byte.
pub open spec fn digit_value(b: u8) -> int {
    b as int - BYTE_ZERO as int
}

/// Every byte of `s` is a decimal digit.
pub open spec fn all_digits(s: Seq<u8>) -> bool {
    forall|k: int| 0 <= k < s.len() ==> is_digit(#[trigger] s[k])
}

/// Value of a digit string, most significant digit first.
pub open spec fn digits_value(s: Seq<u8>) -> int
    decreases s.len(),
{
    if s.len() == 0 {
        0
    } else {
        digits_value(s.drop_last()) * 10 + digit_value(s.last())
    }
}

/// Ten to the power `n`.
pub open spec fn pow10(n: nat) -> int
    decreases n,
{
    if n == 0 {
        1
    } else {
        10 * pow10((n - 1) as nat)
    }
}

/// Index of the first occurrence of `t` in `s`, or `s.len()` when absent.
pub open spec fn find_byte(s: Seq<u8>, t: u8) -> int
    decreases s.len(),
{
    if s.len() == 0 {
        0
    } else if s[0] == t {
        0
    } else {
        1 + find_byte(s.drop_first(), t)
    }
}

/// Value in millionths of an unsigned decimal literal: digits with at most
/// one point and at least one digit, and at most six fractional digits.
pub open spec fn unsigned_micros(s: Seq<u8>) -> Option<int> {
    let d = find_byte(s, BYTE_DOT);
    if d == s.len() {
        if s.len() > 0 && all_digits(s) {
            Some(digits_value(s) * (VALUE_UNIT as int))
        } else {
            None
        }
    } else {
        let ip = s.subrange(0, d);
        let fp = s.subrange(d + 1, s.len() as int);
        if ip.len() + fp.len() > 0 && all_digits(ip) && all_digits(fp) && fp.len() <= 6 {
            Some(digits_value(ip) * (VALUE_UNIT as int) + digits_value(fp) * pow10(
                (6 - fp.len()) as nat,
            ))
        } else {
            None
        }
    }
}

/// The magnitudes a stored value may take.
pub open spec fn in_value_range(v: int) -> bool {
    -(i64::MAX as int) <= v <= i64::MAX as int
}

/// Value in millionths of a signed decimal literal, or `None` when the
/// bytes are not such a literal or its magnitude does not fit a stored
/// value.
pub open spec fn decimal_micros(s: Seq<u8>) -> Option<int> {
    let (neg, body) = if s.len() > 0 && (s[0] == BYTE_MINUS || s[0] == BYTE_PLUS) {
        (s[0] == BYTE_MINUS, s.drop_first())
    } else {
        (false, s)
    };
    match unsigned_micros(body) {
        Some(m) => {
            let v = if neg {
                -m
            } else {
                m
            };
            if in_value_range(v) {
                Some(v)
            } else {
                None
            }
        },
        None => None,
    }
}

/// Splitting a digit string shifts the front part by a power of ten.
proof fn lemma_digits_append(a: Seq<u8>, b: Seq<u8>)
    ensures
        digits_value(a + b) == digits_value(a) * pow10(b.len() as nat) + digits_value(b),
    decreases b.len(),
{
    if b.len() == 0 {
        assert(a + b =~= a);
    } else {
        lemma_digits_append(a, b.drop_last());
        assert((a + b).drop_last() =~= a + b.drop_last());
        let p = pow10((b.len() - 1) as nat);
        assert(pow10(b.len() as nat) == 10 * p);
        assert(digits_value(a) * p * 10 == digits_value(a) * (10 * p)) by (nonlinear_arith);
    }
}

/// A digit string's value is non-negative.
proof fn lemma_digits_nonneg(s: Seq<u8>)
    requires
        all_digits(s),
    ensures
        digits_value(s) >= 0,
    decreases s.len(),
{
    if s.len() > 0 {
        lemma_digits_nonneg(s.drop_last());
    }
}

/// Ten to any power is at least one.
proof fn lemma_pow10_pos(n: nat)
    ensures
        pow10(n) >= 1,
    decreases n,
{
    if n > 0 {
        lemma_pow10_pos((n - 1) as nat);
    }
}

/// A digit string's value is at least the value of any of its prefixes.
proof fn lemma_digits_prefix(s: Seq<u8>, k: int)
    requires
        0 <= k <= s.len(),
        all_digits(s),
    ensures
        digits_value(s) >= digits_value(s.subrange(0, k)) >= 0,
{
    let a = s.subrange(0, k);
    let b = s.subrange(k, s.len() as int);
    assert(s =~= a + b);
    lemma_digits_append(a, b);
    lemma_digits_nonneg(a);
    lemma_digits_nonneg(b);
    lemma_pow10_pos(b.len() as nat);
    assert(digits_value(a) * pow10(b.len() as nat) >= digits_value(a)) by (nonlinear_arith)
        requires
            digits_value(a) >= 0,
            pow10(b.len() as nat) >= 1,
    ;
}

/// The spec `find_byte` returns the index an exec scan stops at.
pub(crate) proof fn lemma_find_byte_at(s: Seq<u8>, t: u8, d: int)
    requires
        0 <= d <= s.len(),
        forall|k: int| 0 <= k < d ==> s[k] != t,
        d < s.len() ==> s[d] == t,
    ensures
        find_byte(s, t) == d,
    decreases s.len(),
{
    if s.len() > 0 && s[0] != t {
        lemma_find_byte_at(s.drop_first(), t, d - 1);
    }
}

/// Larger exponents give larger powers of ten.
proof fn lemma_pow10_mono(a: nat, b: nat)
    requires
        a <= b,
    ensures
        pow10(a) <= pow10(b),
    decreases b,
{
    lemma_pow10_pos(a);
    if a < b {
        lemma_pow10_mono(a, (b - 1) as nat);
    }
}

/// The powers of ten up to the value scale, as numbers.
proof fn lemma_pow10_unit()
    ensures
        pow10(6) == 1_000_000,
        pow10(5) == 100_000,
{
    reveal_with_fuel(pow10, 8);
}

/// Relates the slices of the whole field to the slices of its unsigned
/// body, and the body to the spec's reading of the sign.
proof fn lemma_parts(s: Seq<u8>, pos: int, dot: int)
    requires
        0 <= pos <= dot <= s.len(),
    ensures
        s.subrange(pos, dot) =~= s.skip(pos).subrange(0, dot - pos),
        dot < s.len() ==> s.subrange(dot + 1, s.len() as int) =~= s.skip(pos).subrange(
            dot - pos + 1,
            s.skip(pos).len() as int,
        ),
        dot == s.len() ==> s.subrange(pos, dot) =~= s.skip(pos),
        pos == 1 ==> s.skip(pos) =~= s.drop_first(),
        pos == 0 ==> s.skip(pos) =~= s,
{
}

/// How the sign prefix was consumed: `pos` and `neg` agree with the spec's
/// reading of the first byte of `s`.
spec fn sign_split(s: Seq<u8>, pos: int, neg: bool) -> bool {
    if s.len() > 0 && (s[0] == BYTE_MINUS || s[0] == BYTE_PLUS) {
        pos == 1 && (neg <==> s[0] == BYTE_MINUS)
    } else {
        pos == 0 && neg == false
    }
}

/// `dot` is the first decimal point at or after `pos` in `s`, or `s.len()`.
spec fn dot_split(s: Seq<u8>, pos: int, dot: int) -> bool {
    &&& pos <= dot <= s.len()
    &&& forall|k: int| pos <= k < dot ==> s[k] != BYTE_DOT
    &&& dot < s.len() ==> s[dot] == BYTE_DOT
}

/// Ten to the power `e`, computed.
fn pow10_exec(e: usize) -> (r: i64)
    requires
        e <= 6,
    ensures
        r == pow10(e as nat),
        1 <= r <= 1_000_000,
{
    proof {
        lemma_pow10_unit();
    }
    let mut r: i64 = 1;
    let mut k: usize = 0;
    while k < e
        invariant
            k <= e <= 6,
            r == pow10(k as nat),
            1 <= r <= 1_000_000,
        decreases e - k,
    {
        proof {
            lemma_pow10_unit();
            lemma_pow10_mono(k as nat, 5);
            assert(pow10((k + 1) as nat) == 10 * pow10(k as nat));
        }
        r = r * 10;
        k = k + 1;
    }
    r
}

/// Parses a signed decimal literal into a stored value in millionths of a
/// unit.
///
/// Returns `Some(v)` exactly when the bytes match the decimal grammar and
/// the denoted value fits the stored range, and then `v` is that value;
/// otherwise returns `None`.
#[verifier::rlimit(60)]
pub fn parse_decimal(field: &Vec<u8>) -> (r: Option<i64>)
    ensures
        (r matches Some(x) ==> decimal_micros(field@) == Some(x as int)),
        (r is None ==> decimal_micros(field@) is None),
{
    let n = field.len();
    let mut pos: usize = 0;
    let mut neg: bool = false;
    if n > 0 && (field[0] == BYTE_MINUS || field[0] == BYTE_PLUS) {
        neg = field[0] == BYTE_MINUS;
        pos = 1;
    }
    let ghost body = field@.skip(pos as int);
    proof {
        if pos == 1 {
            assert(body =~= field@.drop_first());
        } else {
            assert(body =~= field@);
        }
    }
    if pos == n {
        proof {
            assert(body.len() == 0);
        }
        return None;
    }

    // Find the first decimal point of the body.
    let mut dot: usize = pos;
    while dot < n && field[dot] != BYTE_DOT
        invariant
            pos <= dot <= n,
            n == field@.len(),
            forall|k: int| pos <= k < dot ==> field@[k] != BYTE_DOT,
        decreases n - dot,
    {
        dot = dot + 1;
    }
    proof {
        assert(dot_split(field@, pos as int, dot as int));
        lemma_find_byte_at(body, BYTE_DOT, dot - pos);
    }
    let ghost ip = field@.subrange(pos as int, dot as int);
    let ghost fp = if dot < n {
        field@.subrange(dot + 1, n as int)
    } else {
        Seq::<u8>::empty()
    };
    proof {
        assert(ip =~= body.subrange(0, dot - pos));
        if dot == n {
            assert(ip =~= body);
        } else {
            assert(fp =~= body.subrange(dot - pos + 1, body.len() as int));
        }
    }
    if dot < n && pos == dot && dot + 1 == n {
        // A lone decimal point carries no digit.
        return None;
    }

    // Integer part.
    let mut m: i128 = 0;
    let mut idx: usize = pos;
    while idx < dot
        invariant
            pos <= idx <= dot <= n,
            n == field@.len(),
            pos <= 1,
            body == field@.skip(pos as int),
            sign_split(field@, pos as int, neg),
            dot_split(field@, pos as int, dot as int),
            find_byte(body, BYTE_DOT) == dot - pos,
            ip == field@.subrange(pos as int, dot as int),
            fp == (if dot < n {
                field@.subrange(dot + 1, n as int)
            } else {
                Seq::<u8>::empty()
            }),
            forall|k: int| pos <= k < idx ==> is_digit(#[trigger] field@[k]),
            m == digits_value(field@.subrange(pos as int, idx as int)),
            0 <= m <= i64::MAX as i128,
        decreases dot - idx,
    {
        let b = field[idx];
        if !(BYTE_ZERO <= b && b <= BYTE_NINE) {
            proof {
                lemma_parts(field@, pos as int, dot as int);
                assert(!is_digit(ip[idx - pos]));
                assert(!all_digits(ip));
            }
            return None;
        }
        let d10 = (b - BYTE_ZERO) as i128;
        let ghost prefix = field@.subrange(pos as int, idx + 1);
        proof {
            assert(prefix.drop_last() =~= field@.subrange(pos as int, idx as int));
            assert(prefix.last() == field@[idx as int]);
            assert(forall|k: int| 0 <= k < prefix.len() ==> is_digit(#[trigger] prefix[k]));
        }
        let m2: i128 = m * 10 + d10;
        assert(m2 == digits_value(prefix));
        if m2 > i64::MAX as i128 {
            proof {
                // Whatever the remaining bytes hold, the denoted magnitude
                // already exceeds the stored range.
                lemma_parts(field@, pos as int, dot as int);
                lemma_digits_nonneg(prefix);
                if dot == n {
                    if body.len() > 0 && all_digits(body) {
                        lemma_digits_prefix(body, idx + 1 - pos);
                        assert(body.subrange(0, idx + 1 - pos) =~= prefix);
                        assert(digits_value(body) * (VALUE_UNIT as int) >= digits_value(body))
                            by (nonlinear_arith)
                            requires
                                digits_value(body) >= 0,
                        ;
                    }
                } else {
                    if all_digits(ip) && all_digits(fp) && fp.len() <= 6 {
                        lemma_digits_prefix(ip, idx + 1 - pos);
                        assert(ip.subrange(0, idx + 1 - pos) =~= prefix);
                        lemma_digits_nonneg(fp);
                        lemma_pow10_pos((6 - fp.len()) as nat);
                        assert(digits_value(fp) * pow10((6 - fp.len()) as nat) >= 0)
                            by (nonlinear_arith)
                            requires
                                digits_value(fp) >= 0,
                                pow10((6 - fp.len()) as nat) >= 1,
                        ;
                        assert(digits_value(ip) * (VALUE_UNIT as int) >= digits_value(ip))
                            by (nonlinear_arith)
                            requires
                                digits_value(ip) >= 0,
                        ;
                    }
                }
            }
            return None;
        }
        m = m2;
        idx = idx + 1;
    }
    assert(m == digits_value(ip));
    assert(forall|k: int| 0 <= k < ip.len() ==> is_digit(#[trigger] ip[k]));

    // Fractional part.
    let mut f: i64 = 0;
    let mut scale_pow: i64 = 1;
    if dot < n {
        let fplen = n - dot - 1;
        if fplen > 6 {
            proof {
                lemma_parts(field@, pos as int, dot as int);
            }
            return None;
        }
        let mut idx2: usize = dot + 1;
        while idx2 < n
            invariant
                dot + 1 <= idx2 <= n,
                n == field@.len(),
                pos <= 1,
                dot < n,
                n - dot - 1 <= 6,
                fplen == n - dot - 1,
                body == field@.skip(pos as int),
                sign_split(field@, pos as int, neg),
                dot_split(field@, pos as int, dot as int),
                find_byte(body, BYTE_DOT) == dot - pos,
                ip == field@.subrange(pos as int, dot as int),
                fp == field@.subrange(dot + 1, n as int),
                all_digits(ip),
                m == digits_value(ip),
                0 <= m <= i64::MAX as i128,
                forall|k: int| dot + 1 <= k < idx2 ==> is_digit(#[trigger] field@[k]),
                f == digits_value(field@.subrange(dot + 1, idx2 as int)),
                0 <= f < pow10((idx2 - dot - 1) as nat),
            decreases n - idx2,
        {
            let b = field[idx2];
            if !(BYTE_ZERO <= b && b <= BYTE_NINE) {
                proof {
                    lemma_parts(field@, pos as int, dot as int);
                    assert(!is_digit(fp[idx2 - dot - 1]));
                    assert(!all_digits(fp));
                }
                return None;
            }
            let ghost fprefix = field@.subrange(dot + 1, idx2 + 1);
            proof {
                assert(fprefix.drop_last() =~= field@.subrange(dot + 1, idx2 as int));
                assert(fprefix.last() == field@[idx2 as int]);
                lemma_pow10_unit();
                lemma_pow10_mono((idx2 - dot - 1) as nat, 5);
                assert(pow10((idx2 + 1 - dot - 1) as nat) == 10 * pow10((idx2 - dot - 1) as nat));
            }
            f = f * 10 + ((b - BYTE_ZERO) as i64);
            idx2 = idx2 + 1;
        }
        assert(f == digits_value(fp));
        assert(forall|k: int| 0 <= k < fp.len() ==> is_digit(#[trigger] fp[k]));
        scale_pow = pow10_exec(6 - fplen);
        proof {
            assert((6 - fplen) as nat == (6 - fp.len()) as nat);
        }
    }
    proof {
        lemma_parts(field@, pos as int, dot as int);
        lemma_pow10_unit();
        if dot < n {
            lemma_pow10_mono((n - dot - 1) as nat, 6);
        }
    }
    assert(0 <= f <= 999_999);
    assert((f as int) * (scale_pow as int) <= 999_999_000_000 && (f as int) * (scale_pow as int)
        >= 0) by (nonlinear_arith)
        requires
            0 <= f as int <= 999_999,
            1 <= scale_pow as int <= 1_000_000,
    ;
    let total: i128 = m * (VALUE_UNIT as i128) + (f as i128) * (scale_pow as i128);
    proof {
        if dot == n {
            assert(unsigned_micros(body) == Some(digits_value(body) * (VALUE_UNIT as int)));
            assert(total == digits_value(body) * (VALUE_UNIT as int));
        } else {
            assert(ip.len() + fp.len() > 0);
            assert(unsigned_micros(body) == Some(
                digits_value(ip) * (VALUE_UNIT as int) + digits_value(fp) * pow10(
                    (6 - fp.len()) as nat,
                ),
            ));
        }
        assert(total >= 0);
    }
    if total > i64::MAX as i128 {
        return None;
    }
    let magnitude: i64 = total as i64;
    if neg {
        Some(-magnitude)
    } else {
        Some(magnitude)
    }
}

} // verus!
