use crate::error::Error;
use vstd::prelude::*;
use vstd::string::StrSliceExecFns;

verus! {

/// An exact decimal number: the value is `mantissa * 10^exp10`, negated when
/// `neg` is set.
///
/// LDF real literals are finite decimal strings (`19.2`, `0.1`) or hexadecimal
/// integers, so every value the grammar can write is held exactly; nothing is
/// rounded, and equality is plain structural equality.  A literal whose digit
/// string does not fit in 64 bits is rejected as [`Error::NumberParse`].
#[derive(Debug, Clone, Copy, PartialEq, Eq, Structural)]
pub struct Real {
    pub neg: bool,
    pub mantissa: u64,
    pub exp10: i32,
}

/// Ten to the `e`.
pub open spec fn pow10(e: nat) -> nat
    decreases e,
{
    if e == 0 {
        1
    } else {
        10 * pow10((e - 1) as nat)
    }
}

impl Real {
    /// The numerator of the value as an exact fraction `num() / den()`.
    pub open spec fn num(self) -> int {
        (if self.neg {
            -1int
        } else {
            1int
        }) * (self.mantissa as int) * (if self.exp10 >= 0 {
            pow10(self.exp10 as nat) as int
        } else {
            1int
        })
    }

    /// The positive denominator of the value as an exact fraction.
    pub open spec fn den(self) -> nat {
        if self.exp10 >= 0 {
            1
        } else {
            pow10((0 - self.exp10) as nat)
        }
    }
}

proof fn lemma_pow10_add(a: nat, b: nat)
    ensures
        pow10(a + b) == pow10(a) * pow10(b),
    decreases a,
{
    if a > 0 {
        lemma_pow10_add((a - 1) as nat, b);
        assert(pow10(a + b) == 10 * pow10((a + b - 1) as nat));
        assert((a + b - 1) as nat == (a - 1) as nat + b);
        assert(pow10(a) == 10 * pow10((a - 1) as nat));
        assert(10 * (pow10((a - 1) as nat) * pow10(b)) == (10 * pow10((a - 1) as nat)) * pow10(
            b,
        )) by (nonlinear_arith);
        assert(pow10(a + b) == 10 * (pow10((a - 1) as nat) * pow10(b)));
        assert(pow10(a + b) == (10 * pow10((a - 1) as nat)) * pow10(b));
        assert(pow10(a + b) == pow10(a) * pow10(b));
    } else {
        assert(pow10(a) == 1);
    }
}

proof fn lemma_pow10_three()
    ensures
        pow10(3) == 1000,
{
    reveal_with_fuel(pow10, 4);
}

/// Raising the exponent by three multiplies the value by a thousand: this is
/// what converting kilobits to bits per second does to the speed literal.
pub proof fn lemma_exp10_shift3_is_times_1000(a: Real, b: Real)
    requires
        b.neg == a.neg,
        b.mantissa == a.mantissa,
        a.exp10 + 3 <= i32::MAX,
        b.exp10 == a.exp10 + 3,
    ensures
        b.num() * (a.den() as int) == 1000 * a.num() * (b.den() as int),
{
    lemma_pow10_three();
    let s: int = if a.neg {
        -1
    } else {
        1
    };
    let m = a.mantissa as int;
    let e = a.exp10 as int;
    if e >= 0 {
        let p0 = pow10(e as nat) as int;
        let p3 = pow10((e + 3) as nat) as int;
        lemma_pow10_add(e as nat, 3);
        assert(p3 == p0 * 1000);
        assert(b.num() == s * m * p3);
        assert(a.num() == s * m * p0);
        assert(a.den() == 1 && b.den() == 1);
        assert(s * m * p3 * 1 == 1000 * (s * m * p0) * 1) by (nonlinear_arith)
            requires
                p3 == p0 * 1000,
        ;
    } else if e >= -3 {
        // the denominator of `a` cancels against part of the thousand
        let pd = pow10((0 - e) as nat) as int;
        let p3 = pow10((e + 3) as nat) as int;
        lemma_pow10_add((e + 3) as nat, (0 - e) as nat);
        assert(p3 * pd == 1000);
        assert(b.num() == s * m * p3);
        assert(a.num() == s * m * 1);
        assert(a.den() == pow10((0 - e) as nat) && b.den() == 1);
        assert(s * m * p3 * pd == 1000 * (s * m * 1) * 1) by (nonlinear_arith)
            requires
                p3 * pd == 1000,
        ;
    } else {
        // both values are fractions; the denominators differ by a thousand
        let pd = pow10((0 - e) as nat) as int;
        let pd3 = pow10((0 - e - 3) as nat) as int;
        lemma_pow10_add(3, (0 - e - 3) as nat);
        assert(pd == 1000 * pd3);
        assert(b.num() == s * m * 1);
        assert(a.num() == s * m * 1);
        assert(a.den() == pow10((0 - e) as nat) && b.den() == pow10((0 - e - 3) as nat));
        assert(s * m * 1 * pd == 1000 * (s * m * 1) * pd3) by (nonlinear_arith)
            requires
                pd == 1000 * pd3,
        ;
    }
}

pub open spec fn is_dec_digit(c: char) -> bool {
    ('0' as u32) <= (c as u32) && (c as u32) <= ('9' as u32)
}

pub open spec fn is_hex_digit(c: char) -> bool {
    ||| is_dec_digit(c)
    ||| ('a' as u32) <= (c as u32) && (c as u32) <= ('f' as u32)
    ||| ('A' as u32) <= (c as u32) && (c as u32) <= ('F' as u32)
}

pub open spec fn dec_digit_val(c: char) -> nat
    recommends
        is_dec_digit(c),
{
    ((c as u32) - ('0' as u32)) as nat
}

pub open spec fn hex_digit_val(c: char) -> nat
    recommends
        is_hex_digit(c),
{
    if is_dec_digit(c) {
        dec_digit_val(c)
    } else if ('a' as u32) <= (c as u32) && (c as u32) <= ('f' as u32) {
        ((c as u32) - ('a' as u32) + 10) as nat
    } else {
        ((c as u32) - ('A' as u32) + 10) as nat
    }
}

pub open spec fn all_dec_digits(s: Seq<char>) -> bool {
    forall|i: int| 0 <= i < s.len() ==> is_dec_digit(#[trigger] s[i])
}

pub open spec fn all_hex_digits(s: Seq<char>) -> bool {
    forall|i: int| 0 <= i < s.len() ==> is_hex_digit(#[trigger] s[i])
}

/// The number written by a run of decimal digits, most significant first.
pub open spec fn dec_val(s: Seq<char>) -> nat
    recommends
        all_dec_digits(s),
    decreases s.len(),
{
    if s.len() == 0 {
        0
    } else {
        dec_val(s.drop_last()) * 10 + dec_digit_val(s.last())
    }
}

/// The number written by a run of hexadecimal digits, most significant first.
pub open spec fn hex_val(s: Seq<char>) -> nat
    recommends
        all_hex_digits(s),
    decreases s.len(),
{
    if s.len() == 0 {
        0
    } else {
        hex_val(s.drop_last()) * 16 + hex_digit_val(s.last())
    }
}

/// An optional leading `+` is accepted and dropped, as the standard library's
/// unsigned readers do.
pub open spec fn unsigned_digits(s: Seq<char>) -> Seq<char> {
    if s.len() > 0 && s[0] == '+' {
        s.subrange(1, s.len() as int)
    } else {
        s
    }
}

/// What a token means as an unsigned integer in one base: `None` when it is
/// malformed, otherwise the full mathematical value.
pub open spec fn uint_token_val(t: Seq<char>, hex: bool) -> Option<nat> {
    let d = unsigned_digits(t);
    if d.len() > 0 && (if hex {
        all_hex_digits(d)
    } else {
        all_dec_digits(d)
    }) {
        Some(if hex {
            hex_val(d)
        } else {
            dec_val(d)
        })
    } else {
        None
    }
}

/// What a token means as an integer literal: hexadecimal after a `0x` prefix,
/// decimal otherwise.
pub open spec fn int_token_val(s: Seq<char>) -> Option<nat> {
    if s.len() >= 2 && s[0] == '0' && s[1] == 'x' {
        uint_token_val(s.subrange(2, s.len() as int), true)
    } else {
        uint_token_val(s, false)
    }
}

/// The index of the first `.` at or after `i`, or the length when none follows.
pub open spec fn dot_pos(s: Seq<char>, i: int) -> int
    recommends
        0 <= i <= s.len(),
    decreases s.len() - i,
{
    if i >= s.len() {
        s.len() as int
    } else if s[i] == '.' {
        i
    } else {
        dot_pos(s, i + 1)
    }
}

/// An exponent mark of a decimal literal.
pub open spec fn is_exp_mark(c: char) -> bool {
    c == 'e' || c == 'E'
}

/// The index of the first exponent mark at or after `i`, or the length when
/// none follows.
pub open spec fn exp_mark_pos(s: Seq<char>, i: int) -> int
    recommends
        0 <= i <= s.len(),
    decreases s.len() - i,
{
    if i >= s.len() {
        s.len() as int
    } else if is_exp_mark(s[i]) {
        i
    } else {
        exp_mark_pos(s, i + 1)
    }
}

/// The mantissa of a decimal literal: its digits with the single point
/// removed, and the number of fraction digits.  `None` when it is malformed.
pub open spec fn mantissa_parts(mb: Seq<char>) -> Option<(Seq<char>, int)> {
    let k = dot_pos(mb, 0);
    let ip = mb.subrange(0, k);
    if k == mb.len() {
        if ip.len() > 0 && all_dec_digits(ip) {
            Some((ip, 0))
        } else {
            None
        }
    } else {
        let fp = mb.subrange(k + 1, mb.len() as int);
        if ip.len() + fp.len() > 0 && all_dec_digits(ip) && all_dec_digits(fp) {
            Some((ip + fp, fp.len() as int))
        } else {
            None
        }
    }
}

/// The signed number written after an exponent mark: an optional sign, then
/// at least one digit.  `None` when it is malformed.
pub open spec fn exponent_value(eb: Seq<char>) -> Option<int> {
    let d = if eb.len() > 0 && (eb[0] == '+' || eb[0] == '-') {
        eb.subrange(1, eb.len() as int)
    } else {
        eb
    };
    if d.len() > 0 && all_dec_digits(d) {
        Some(
            if eb.len() > 0 && eb[0] == '-' {
                0 - (dec_val(d) as int)
            } else {
                dec_val(d) as int
            },
        )
    } else {
        None
    }
}

/// Decomposition of a decimal real literal: sign, the digits of the
/// mantissa, the number of fraction digits, and the written exponent (zero
/// when none is written).  `None` when the literal is malformed.
pub open spec fn real_token_parts(s: Seq<char>) -> Option<(bool, Seq<char>, int, int)> {
    let neg = s.len() > 0 && s[0] == '-';
    let b = if s.len() > 0 && (s[0] == '-' || s[0] == '+') {
        s.subrange(1, s.len() as int)
    } else {
        s
    };
    let x = exp_mark_pos(b, 0);
    let mb = b.subrange(0, x);
    match mantissa_parts(mb) {
        None => None,
        Some((digs, frac)) => if x == b.len() {
            Some((neg, digs, frac, 0))
        } else {
            match exponent_value(b.subrange(x + 1, b.len() as int)) {
                None => None,
                Some(ev) => Some((neg, digs, frac, ev)),
            }
        },
    }
}

/// What a token means as a real-or-integer literal: a hexadecimal integer
/// after a `0x` prefix, else a finite decimal with an optional exponent.
/// `None` when it is malformed or does not fit the representation: the
/// mantissa digits must fit 64 bits and the resulting decimal exponent must
/// fit 32.
pub open spec fn real_token_val(s: Seq<char>) -> Option<Real> {
    if s.len() >= 2 && s[0] == '0' && s[1] == 'x' {
        match int_token_val(s) {
            Some(v) => if v <= u64::MAX {
                Some(Real { neg: false, mantissa: v as u64, exp10: 0 })
            } else {
                None
            },
            None => None,
        }
    } else {
        match real_token_parts(s) {
            Some((neg, digs, frac, ev)) => if dec_val(digs) <= u64::MAX && frac <= i32::MAX
                && i32::MIN <= ev - frac <= i32::MAX {
                Some(Real { neg, mantissa: dec_val(digs) as u64, exp10: (ev - frac) as i32 })
            } else {
                None
            },
            None => None,
        }
    }
}

/// The value written by a digit run never shrinks as more digits follow.
proof fn lemma_dec_val_prefix(d: Seq<char>, k: int)
    requires
        0 <= k <= d.len(),
    ensures
        dec_val(d.take(k)) <= dec_val(d),
    decreases d.len(),
{
    if k < d.len() {
        lemma_dec_val_prefix(d.drop_last(), k);
        assert(d.take(k) =~= d.drop_last().take(k));
    } else {
        assert(d.take(k) =~= d);
    }
}

proof fn lemma_hex_val_prefix(d: Seq<char>, k: int)
    requires
        0 <= k <= d.len(),
    ensures
        hex_val(d.take(k)) <= hex_val(d),
    decreases d.len(),
{
    if k < d.len() {
        lemma_hex_val_prefix(d.drop_last(), k);
        assert(d.take(k) =~= d.drop_last().take(k));
    } else {
        assert(d.take(k) =~= d);
    }
}

/// The decimal digit a character stands for, if any.
fn dec_digit(c: char) -> (r: Option<u64>)
    ensures
        r == if is_dec_digit(c) {
            Some(dec_digit_val(c) as u64)
        } else {
            None::<u64>
        },
{
    let u = c as u32;
    if ('0' as u32) <= u && u <= ('9' as u32) {
        Some((u - ('0' as u32)) as u64)
    } else {
        None
    }
}

/// The hexadecimal digit a character stands for, if any.
fn hex_digit(c: char) -> (r: Option<u64>)
    ensures
        r == if is_hex_digit(c) {
            Some(hex_digit_val(c) as u64)
        } else {
            None::<u64>
        },
{
    let u = c as u32;
    if ('0' as u32) <= u && u <= ('9' as u32) {
        Some((u - ('0' as u32)) as u64)
    } else if ('a' as u32) <= u && u <= ('f' as u32) {
        Some((u - ('a' as u32) + 10) as u64)
    } else if ('A' as u32) <= u && u <= ('F' as u32) {
        Some((u - ('A' as u32) + 10) as u64)
    } else {
        None
    }
}

/// Reads the tail of `s` from `from` as an unsigned integer in one base,
/// exactly as [`uint_token_val`] defines it.
#[verifier::loop_isolation(false)]
fn parse_uint_from(s: &str, from: usize, hex: bool) -> (r: Result<u64, Error>)
    requires
        from <= s@.len(),
    ensures
        match uint_token_val(s@.subrange(from as int, s@.len() as int), hex) {
            Some(v) => if v <= u64::MAX {
                r == Ok::<u64, Error>(v as u64)
            } else {
                r == Err::<u64, Error>(Error::NumberParse)
            },
            None => r == Err::<u64, Error>(Error::NumberParse),
        },
{
    let ghost t = s@.subrange(from as int, s@.len() as int);
    let n = s.unicode_len();
    let mut i = from;
    if i < n && s.get_char(i) == '+' {
        i = i + 1;
    }
    let ghost d = unsigned_digits(t);
    proof {
        assert(d =~= s@.subrange(i as int, n as int));
    }
    if i == n {
        return Err(Error::NumberParse);
    }
    let base: u64 = if hex {
        16
    } else {
        10
    };
    let mut acc: u64 = 0;
    let ghost start = i as int;
    while i < n
        invariant
            s@.len() == n,
            0 <= start <= i <= n,
            start < n,
            d == s@.subrange(start, n as int),
            base == (if hex { 16u64 } else { 10u64 }),
            if hex {
                all_hex_digits(d.take(i - start)) && acc == hex_val(d.take(i - start))
            } else {
                all_dec_digits(d.take(i - start)) && acc == dec_val(d.take(i - start))
            },
        decreases n - i,
    {
        let c = s.get_char(i);
        proof {
            assert(d[i - start] == c);
        }
        let dv_opt = if hex {
            hex_digit(c)
        } else {
            dec_digit(c)
        };
        let dv = match dv_opt {
            Some(v) => v,
            None => {
                return Err(Error::NumberParse);
            },
        };
        proof {
            assert(d.take(i - start + 1).drop_last() =~= d.take(i - start));
            assert(d.take(i - start + 1).last() == c);
        }
        let stepped = match acc.checked_mul(base) {
            Some(x) => x.checked_add(dv),
            None => None,
        };
        acc = match stepped {
            Some(v) => v,
            None => {
                proof {
                    if hex {
                        if all_hex_digits(d) {
                            lemma_hex_val_prefix(d, i - start + 1);
                        }
                    } else {
                        if all_dec_digits(d) {
                            lemma_dec_val_prefix(d, i - start + 1);
                        }
                    }
                }
                return Err(Error::NumberParse);
            },
        };
        i = i + 1;
    }
    proof {
        assert(d.take(n - start) =~= d);
    }
    Ok(acc)
}

/// Reads a token as an unsigned 64-bit integer: hexadecimal after a `0x`
/// prefix, decimal otherwise.  Malformed or overflowing numerals are
/// [`Error::NumberParse`].
pub fn parse_integer(s: &str) -> (r: Result<u64, Error>)
    ensures
        match int_token_val(s@) {
            Some(v) => if v <= u64::MAX {
                r == Ok::<u64, Error>(v as u64)
            } else {
                r == Err::<u64, Error>(Error::NumberParse)
            },
            None => r == Err::<u64, Error>(Error::NumberParse),
        },
{
    let n = s.unicode_len();
    if n >= 2 && s.get_char(0) == '0' && s.get_char(1) == 'x' {
        parse_uint_from(s, 2, true)
    } else {
        proof {
            assert(s@.subrange(0, s@.len() as int) =~= s@);
        }
        parse_uint_from(s, 0, false)
    }
}

/// Reads a token as a real-or-integer literal, exactly as [`real_token_val`]
/// defines it: a `0x`-prefixed hexadecimal integer, or a finite decimal with
/// an optional sign and at most one point.
pub fn parse_real_or_integer(s: &str) -> (r: Result<Real, Error>)
    ensures
        match real_token_val(s@) {
            Some(v) => r == Ok::<Real, Error>(v),
            None => r == Err::<Real, Error>(Error::NumberParse),
        },
{
    let n = s.unicode_len();
    if n >= 2 && s.get_char(0) == '0' && s.get_char(1) == 'x' {
        match parse_uint_from(s, 2, true) {
            Ok(v) => Ok(Real { neg: false, mantissa: v, exp10: 0 }),
            Err(e) => Err(e),
        }
    } else {
        parse_decimal(s)
    }
}

/// Finds the first exponent mark at or after `from`, as an absolute
/// position; the text's end when none follows.
#[verifier::loop_isolation(false)]
fn find_exp_mark(s: &str, from: usize) -> (xa: usize)
    requires
        from <= s@.len(),
    ensures
        from <= xa <= s@.len(),
        xa - from == exp_mark_pos(s@.subrange(from as int, s@.len() as int), 0),
        xa < s@.len() ==> is_exp_mark(s@[xa as int]),
{
    let ghost b = s@.subrange(from as int, s@.len() as int);
    let n = s.unicode_len();
    let mut xa = from;
    let mut xfound = false;
    while !xfound && xa < n
        invariant
            from <= xa <= n,
            if xfound {
                xa < n && is_exp_mark(s@[xa as int]) && exp_mark_pos(b, 0) == xa - from
            } else {
                exp_mark_pos(b, 0) == exp_mark_pos(b, xa - from)
            },
        decreases n - xa, (if xfound { 0int } else { 1int }),
    {
        let c = s.get_char(xa);
        proof {
            assert(b[xa - from] == c);
        }
        if c == 'e' || c == 'E' {
            xfound = true;
        } else {
            xa = xa + 1;
        }
    }
    xa
}

/// Reads the mantissa text between `from` and `to` exactly as
/// [`mantissa_parts`] decomposes it: the accumulated digits (with an
/// overflow flag once they leave 64 bits) and the count of fraction digits.
#[verifier::rlimit(40)]
#[verifier::loop_isolation(false)]
fn parse_mantissa(s: &str, from: usize, to: usize) -> (r: Result<(u64, bool, usize), Error>)
    requires
        from <= to <= s@.len(),
    ensures
        match mantissa_parts(s@.subrange(from as int, to as int)) {
            None => r == Err::<(u64, bool, usize), Error>(Error::NumberParse),
            Some(pr) => {
                &&& r matches Ok(t3) && t3.2 == pr.1
                &&& (dec_val(pr.0) <= u64::MAX ==> (r matches Ok(t3) && t3.1 == false && t3.0
                    == dec_val(pr.0)))
                &&& (dec_val(pr.0) > u64::MAX ==> (r matches Ok(t3) && t3.1 == true))
            },
        },
{
    let ghost mb = s@.subrange(from as int, to as int);
    let ghost start = from as int;
    let mut acc: u64 = 0;
    let mut j = from;
    let mut overflow = false;
    let mut dotfound = false;
    while !dotfound && j < to
        invariant
            from <= j <= to,
            all_dec_digits(mb.take(j - start)),
            !overflow ==> acc == dec_val(mb.take(j - start)),
            overflow ==> dec_val(mb.take(j - start)) > u64::MAX,
            if dotfound {
                j < to && dot_pos(mb, 0) == j - start
            } else {
                dot_pos(mb, 0) == dot_pos(mb, j - start)
            },
        decreases to - j, (if dotfound { 0int } else { 1int }),
    {
        let c = s.get_char(j);
        proof {
            assert(mb[j - start] == c);
        }
        if c == '.' {
            dotfound = true;
        } else {
            let dv = match dec_digit(c) {
                Some(v) => v,
                None => {
                    // neither a digit nor a point: the mantissa is malformed
                    proof {
                        lemma_dot_pos_bounds(mb, j - start + 1);
                        let k = dot_pos(mb, 0);
                        assert(k == dot_pos(mb, j - start + 1));
                        assert(j - start < k);
                        assert(mb.subrange(0, k)[j - start] == c);
                        assert(!all_dec_digits(mb.subrange(0, k)));
                    }
                    return Err(Error::NumberParse);
                },
            };
            proof {
                assert(mb.take(j - start + 1).drop_last() =~= mb.take(j - start));
                assert(mb.take(j - start + 1).last() == c);
            }
            if !overflow {
                let stepped = match acc.checked_mul(10) {
                    Some(v2) => v2.checked_add(dv),
                    None => None,
                };
                match stepped {
                    Some(v2) => {
                        acc = v2;
                    },
                    None => {
                        overflow = true;
                        proof {
                            assert(dec_val(mb.take(j - start + 1)) > u64::MAX);
                        }
                    },
                }
            } else {
                proof {
                    assert(dec_val(mb.take(j - start)) <= dec_val(mb.take(j - start + 1))) by {
                        assert(dec_val(mb.take(j - start + 1)) == dec_val(mb.take(j - start)) * 10
                            + dec_digit_val(c));
                    }
                }
            }
            j = j + 1;
        }
    }
    let ghost kd = dot_pos(mb, 0);
    if !dotfound {
        // no point: the whole mantissa is its integer part
        proof {
            assert(kd == mb.len());
            assert(mb.subrange(0, kd) =~= mb.take(j - start));
        }
        if j == from {
            return Err(Error::NumberParse);
        }
        proof {
            assert(mantissa_parts(mb) == Some((mb.subrange(0, kd), 0int)));
        }
        return Ok((acc, overflow, 0));
    }
    // fraction digits between the point and the mantissa's end
    let ghost ip = mb.subrange(0, kd);
    let ghost fp = mb.subrange(kd + 1, mb.len() as int);
    let ghost digs2 = ip + fp;
    proof {
        assert(kd == j - start);
        assert(ip =~= mb.take(j - start));
        assert(digs2.take(kd) =~= ip);
    }
    let mut m2 = j + 1;
    while m2 < to
        invariant
            j + 1 <= m2 <= to,
            all_dec_digits(fp.take(m2 - j - 1)),
            !overflow ==> acc == dec_val(digs2.take(m2 - start - 1)),
            overflow ==> dec_val(digs2.take(m2 - start - 1)) > u64::MAX,
        decreases to - m2,
    {
        let c = s.get_char(m2);
        proof {
            assert(fp[m2 - j - 1] == mb[m2 - start]);
            assert(mb[m2 - start] == c);
        }
        let dv = match dec_digit(c) {
            Some(v) => v,
            None => {
                proof {
                    assert(!all_dec_digits(fp));
                }
                return Err(Error::NumberParse);
            },
        };
        proof {
            let pq = m2 - start - 1;
            assert(digs2.len() == mb.len() - 1);
            assert(digs2[pq] == fp[m2 - j - 1]);
            assert(digs2.take(pq + 1).drop_last() =~= digs2.take(pq));
            assert(digs2.take(pq + 1).last() == c);
            assert(fp.take(m2 - j - 1 + 1).drop_last() =~= fp.take(m2 - j - 1));
        }
        if !overflow {
            let stepped = match acc.checked_mul(10) {
                Some(v2) => v2.checked_add(dv),
                None => None,
            };
            match stepped {
                Some(v2) => {
                    acc = v2;
                },
                None => {
                    overflow = true;
                    proof {
                        assert(dec_val(digs2.take(m2 - start - 1 + 1)) > u64::MAX);
                    }
                },
            }
        } else {
            proof {
                let pq = m2 - start - 1;
                assert(dec_val(digs2.take(pq)) <= dec_val(digs2.take(pq + 1))) by {
                    assert(dec_val(digs2.take(pq + 1)) == dec_val(digs2.take(pq)) * 10
                        + dec_digit_val(c));
                }
            }
        }
        m2 = m2 + 1;
    }
    proof {
        assert(fp.take(to - j - 1) =~= fp);
        assert(digs2.take(to - start - 1) =~= digs2);
    }
    if j == from && j + 1 == to {
        // a bare point with no digits on either side
        return Err(Error::NumberParse);
    }
    let frac = to - j - 1;
    proof {
        assert(mantissa_parts(mb) == Some((digs2, frac as int)));
    }
    Ok((acc, overflow, frac))
}

/// Reads the exponent text from `from` to the end exactly as
/// [`exponent_value`] means it: its sign, and its magnitude with an overflow
/// flag once it leaves 64 bits.
#[verifier::loop_isolation(false)]
fn parse_exponent(s: &str, from: usize) -> (r: Result<(bool, u64, bool), Error>)
    requires
        from <= s@.len(),
    ensures
        match exponent_value(s@.subrange(from as int, s@.len() as int)) {
            None => r == Err::<(bool, u64, bool), Error>(Error::NumberParse),
            Some(ev) => {
                &&& r matches Ok(t3) && (t3.2 == false ==> ev == (if t3.0 {
                    0 - (t3.1 as int)
                } else {
                    t3.1 as int
                })) && (t3.2 == true ==> (ev > u64::MAX || ev < 0 - (u64::MAX as int)))
            },
        },
{
    let ghost eb = s@.subrange(from as int, s@.len() as int);
    let n = s.unicode_len();
    let mut p = from;
    let mut eneg = false;
    if p < n {
        let c = s.get_char(p);
        proof {
            assert(eb[0] == c);
        }
        if c == '-' {
            eneg = true;
            p = p + 1;
        } else if c == '+' {
            p = p + 1;
        }
    }
    let ghost ed = if eb.len() > 0 && (eb[0] == '+' || eb[0] == '-') {
        eb.subrange(1, eb.len() as int)
    } else {
        eb
    };
    proof {
        assert(ed =~= s@.subrange(p as int, n as int));
        assert(eneg == (eb.len() > 0 && eb[0] == '-'));
    }
    if p == n {
        // no digits after the mark
        return Err(Error::NumberParse);
    }
    let ghost p0 = p as int;
    let mut eacc: u64 = 0;
    let mut ebig = false;
    while p < n
        invariant
            p0 <= p <= n,
            all_dec_digits(ed.take(p - p0)),
            !ebig ==> eacc == dec_val(ed.take(p - p0)),
            ebig ==> dec_val(ed.take(p - p0)) > u64::MAX,
        decreases n - p,
    {
        let c = s.get_char(p);
        proof {
            assert(ed[p - p0] == c);
        }
        let dv = match dec_digit(c) {
            Some(v) => v,
            None => {
                proof {
                    assert(!all_dec_digits(ed));
                }
                return Err(Error::NumberParse);
            },
        };
        proof {
            assert(ed.take(p - p0 + 1).drop_last() =~= ed.take(p - p0));
            assert(ed.take(p - p0 + 1).last() == c);
        }
        if !ebig {
            let stepped = match eacc.checked_mul(10) {
                Some(v2) => v2.checked_add(dv),
                None => None,
            };
            match stepped {
                Some(v2) => {
                    eacc = v2;
                },
                None => {
                    ebig = true;
                    proof {
                        assert(dec_val(ed.take(p - p0 + 1)) > u64::MAX);
                    }
                },
            }
        } else {
            proof {
                assert(dec_val(ed.take(p - p0)) <= dec_val(ed.take(p - p0 + 1))) by {
                    assert(dec_val(ed.take(p - p0 + 1)) == dec_val(ed.take(p - p0)) * 10
                        + dec_digit_val(c));
                }
            }
        }
        p = p + 1;
    }
    proof {
        assert(ed.take(n - p0) =~= ed);
    }
    Ok((eneg, eacc, ebig))
}

/// Reads a decimal real literal (no `0x` prefix).
#[verifier::rlimit(40)]
#[verifier::loop_isolation(false)]
fn parse_decimal(s: &str) -> (r: Result<Real, Error>)
    requires
        !(s@.len() >= 2 && s@[0] == '0' && s@[1] == 'x'),
    ensures
        match real_token_val(s@) {
            Some(v) => r == Ok::<Real, Error>(v),
            None => r == Err::<Real, Error>(Error::NumberParse),
        },
{
    let n = s.unicode_len();
    let mut i: usize = 0;
    let mut neg = false;
    if n > 0 {
        let c0 = s.get_char(0);
        if c0 == '-' {
            neg = true;
            i = 1;
        } else if c0 == '+' {
            i = 1;
        }
    }
    let ghost b = if s@.len() > 0 && (s@[0] == '-' || s@[0] == '+') {
        s@.subrange(1, s@.len() as int)
    } else {
        s@
    };
    let ghost start = i as int;
    proof {
        assert(b =~= s@.subrange(start, n as int));
        assert(neg == (s@.len() > 0 && s@[0] == '-'));
    }
    let xa = find_exp_mark(s, i);
    let ghost x = exp_mark_pos(b, 0);
    proof {
        assert(b == s@.subrange(start, s@.len() as int));
        assert(x == xa - start);
        assert(b.subrange(0, x) =~= s@.subrange(start, xa as int));
    }
    let t3 = match parse_mantissa(s, i, xa) {
        Ok(t) => t,
        Err(e) => {
            return Err(e);
        },
    };
    let acc = t3.0;
    let overflow = t3.1;
    let frac = t3.2;
    if xa == n {
        // no exponent was written
        proof {
            assert(x == b.len());
        }
        if overflow {
            return Err(Error::NumberParse);
        }
        if frac > (i32::MAX as usize) {
            return Err(Error::NumberParse);
        }
        return Ok(Real { neg, mantissa: acc, exp10: 0 - (frac as i32) });
    }
    proof {
        assert(x < b.len());
        assert(b.subrange(x + 1, b.len() as int) =~= s@.subrange(xa + 1, n as int));
    }
    let e3 = match parse_exponent(s, xa + 1) {
        Ok(t) => t,
        Err(e) => {
            return Err(e);
        },
    };
    let eneg = e3.0;
    let eacc = e3.1;
    let ebig = e3.2;
    if overflow {
        return Err(Error::NumberParse);
    }
    if frac > (i32::MAX as usize) {
        return Err(Error::NumberParse);
    }
    let fr64: u64 = frac as u64;
    if ebig {
        // the exponent's magnitude alone leaves the representable range
        return Err(Error::NumberParse);
    }
    if !eneg {
        if eacc > (i32::MAX as u64) + fr64 {
            return Err(Error::NumberParse);
        }
        let e64: i64 = (eacc as i64) - (fr64 as i64);
        Ok(Real { neg, mantissa: acc, exp10: e64 as i32 })
    } else {
        if eacc > 0x8000_0000u64 - fr64 {
            return Err(Error::NumberParse);
        }
        let e64: i64 = 0 - (eacc as i64) - (fr64 as i64);
        Ok(Real { neg, mantissa: acc, exp10: e64 as i32 })
    }
}

/// `dot_pos` never answers before where it starts, nor past the end.
proof fn lemma_dot_pos_bounds(s: Seq<char>, i: int)
    requires
        0 <= i <= s.len(),
    ensures
        i <= dot_pos(s, i) <= s.len(),
    decreases s.len() - i,
{
    if i < s.len() && s[i] != '.' {
        lemma_dot_pos_bounds(s, i + 1);
    }
}

/// `exp_mark_pos` never answers before where it starts, nor past the end.
proof fn lemma_exp_mark_bounds(s: Seq<char>, i: int)
    requires
        0 <= i <= s.len(),
    ensures
        i <= exp_mark_pos(s, i) <= s.len(),
    decreases s.len() - i,
{
    if i < s.len() && !is_exp_mark(s[i]) {
        lemma_exp_mark_bounds(s, i + 1);
    }
}

/// A point at the scan position is the answer.
proof fn lemma_dot_pos_at(s: Seq<char>, i: int)
    requires
        0 <= i < s.len(),
        s[i] == '.',
    ensures
        dot_pos(s, i) == i,
{
}

} // verus!
