//! Fixed-point price and quantity arithmetic, scale 10^8.
//!
//! All externally visible prices and quantities are unsigned integers
//! equal to the real value times `SCALE`. Rounding is half away from zero
//! (half up, as every value is non-negative), consistently, so that
//! independent runs agree bit for bit.

use vstd::prelude::*;
use crate::receipt::hex_char;

verus! {

/// Scaling factor for fixed-point arithmetic: 10^8, eight decimal places.
pub const SCALE: u64 = 100_000_000;

/// The largest integral value representable after scaling.
pub const MAX_VALUE: u64 = u64::MAX / SCALE;

/// Whether the character is a decimal digit.
pub open spec fn is_digit(c: char) -> bool {
    '0' <= c && c <= '9'
}

/// The value of a decimal digit character.
pub open spec fn digit_val(c: char) -> int {
    c as int - '0' as int
}

/// The value of a digit string read in base 10.
pub open spec fn digits_val(ds: Seq<char>) -> int
    decreases ds.len(),
{
    if ds.len() == 0 {
        0
    } else {
        digits_val(ds.drop_last()) * 10 + digit_val(ds.last())
    }
}

/// Every character of the string is a decimal digit.
pub open spec fn all_digits(ds: Seq<char>) -> bool {
    forall|i: int| 0 <= i < ds.len() ==> is_digit(#[trigger] ds[i])
}

/// The string has a decimal point.
pub open spec fn has_dot(s: Seq<char>) -> bool {
    exists|i: int| 0 <= i < s.len() && s[i] == '.'
}

/// The string splits at position `k` into digits, a point, and digits.
pub open spec fn valid_split(s: Seq<char>, k: int) -> bool {
    &&& 0 <= k < s.len()
    &&& s[k] == '.'
    &&& all_digits(s.take(k))
    &&& all_digits(s.skip(k + 1))
    &&& s.len() > 1
}

/// A non-negative decimal string: digits with at most one point and at
/// least one digit.
pub open spec fn valid_decimal(s: Seq<char>) -> bool {
    if has_dot(s) {
        exists|k: int| valid_split(s, k)
    } else {
        s.len() > 0 && all_digits(s)
    }
}

/// 10 to the `n`.
pub open spec fn pow10(n: int) -> int
    decreases n,
{
    if n <= 0 {
        1
    } else {
        pow10(n - 1) * 10
    }
}

/// The fractional digits scaled to 8 places, rounded half up at the
/// ninth digit.
pub open spec fn frac8(fs: Seq<char>) -> int {
    digits_val(fs.take(if fs.len() < 8 {
        fs.len() as int
    } else {
        8
    })) * pow10(8 - (if fs.len() < 8 {
        fs.len() as int
    } else {
        8
    })) + (if fs.len() > 8 && digit_val(fs[8]) >= 5 {
        1int
    } else {
        0int
    })
}

/// The scaled integer a valid decimal string denotes.
pub open spec fn scaled_value(s: Seq<char>) -> int {
    if has_dot(s) {
        let k = choose|k: int| valid_split(s, k);
        digits_val(s.take(k)) * SCALE + frac8(s.skip(k + 1))
    } else {
        digits_val(s) * SCALE
    }
}

/// What `to_fixed` returns: the scaled value of a valid decimal string
/// that fits in a u64, and None otherwise.
pub open spec fn to_fixed_spec(s: Seq<char>) -> Option<u64> {
    if valid_decimal(s) && 0 <= scaled_value(s) <= u64::MAX {
        Some(scaled_value(s) as u64)
    } else {
        None
    }
}

/// A digit string's value only grows as digits are appended.
proof fn lemma_digits_val_prefix(ds: Seq<char>, j: int)
    requires
        0 <= j <= ds.len(),
        all_digits(ds),
    ensures
        digits_val(ds) >= digits_val(ds.take(j)),
        digits_val(ds) >= 0,
    decreases ds.len(),
{
    if ds.len() == 0 {
    } else {
        assert(forall|i: int| 0 <= i < ds.len() - 1 ==> ds.drop_last()[i] == ds[i]);
        lemma_digits_val_prefix(ds.drop_last(), if j <= ds.len() - 1 {
            j
        } else {
            ds.len() - 1
        });
        assert(ds.last() == ds[ds.len() - 1]);
        assert(digit_val(ds.last()) >= 0);
        if j == ds.len() {
            assert(ds.take(j) =~= ds);
        } else {
            assert(ds.take(j) =~= ds.drop_last().take(j));
        }
    }
}

/// The digits of a nonempty valid fraction are worth less than one whole
/// unit after scaling.
proof fn lemma_frac8_bound(fs: Seq<char>)
    requires
        all_digits(fs),
    ensures
        0 <= frac8(fs) <= 100_000_000,
{
    let w = if fs.len() < 8 {
        fs.len() as int
    } else {
        8
    };
    lemma_digits_val_bound(fs.take(w));
    lemma_pow10_pos(8 - w);
    assert(pow10(w) * pow10(8 - w) == pow10(8)) by {
        lemma_pow10_mul(w, 8 - w);
    }
    assert(digits_val(fs.take(w)) <= pow10(w) - 1);
    assert((pow10(w) - 1) * pow10(8 - w) <= pow10(8) - pow10(8 - w)) by (nonlinear_arith)
        requires
            pow10(w) * pow10(8 - w) == pow10(8),
            pow10(8 - w) >= 1,
    ;
    assert(digits_val(fs.take(w)) * pow10(8 - w) <= (pow10(w) - 1) * pow10(8 - w))
        by (nonlinear_arith)
        requires
            digits_val(fs.take(w)) <= pow10(w) - 1,
            digits_val(fs.take(w)) >= 0,
            pow10(8 - w) >= 1,
    ;
    assert(pow10(8) == 100_000_000) by {
        reveal_with_fuel(pow10, 9);
    }
    lemma_digits_val_prefix(fs.take(w), 0);
    assert(digits_val(fs.take(w)) * pow10(8 - w) >= 0) by (nonlinear_arith)
        requires
            digits_val(fs.take(w)) >= 0,
            pow10(8 - w) >= 1,
    ;
}

/// A digit string of length n is worth less than 10^n.
proof fn lemma_digits_val_bound(ds: Seq<char>)
    requires
        all_digits(ds),
    ensures
        0 <= digits_val(ds) < pow10(ds.len() as int),
    decreases ds.len(),
{
    if ds.len() == 0 {
    } else {
        assert(forall|i: int| 0 <= i < ds.len() - 1 ==> ds.drop_last()[i] == ds[i]);
        lemma_digits_val_bound(ds.drop_last());
        assert(ds.last() == ds[ds.len() - 1]);
        assert(0 <= digit_val(ds.last()) <= 9);
        assert(digits_val(ds.drop_last()) * 10 + digit_val(ds.last()) < pow10(
            ds.len() as int,
        )) by (nonlinear_arith)
            requires
                digits_val(ds.drop_last()) < pow10(ds.len() - 1),
                digit_val(ds.last()) <= 9,
                pow10(ds.len() as int) == pow10(ds.len() - 1) * 10,
        ;
        assert(digits_val(ds.drop_last()) * 10 >= 0) by (nonlinear_arith)
            requires
                digits_val(ds.drop_last()) >= 0,
        ;
    }
}

proof fn lemma_pow10_pos(n: int)
    ensures
        pow10(n) >= 1,
    decreases (if n > 0 {
        n
    } else {
        0
    }),
{
    if n > 0 {
        lemma_pow10_pos(n - 1);
    }
}

proof fn lemma_pow10_mul(a: int, b: int)
    requires
        a >= 0,
        b >= 0,
    ensures
        pow10(a) * pow10(b) == pow10(a + b),
    decreases b,
{
    if b == 0 {
    } else {
        lemma_pow10_mul(a, b - 1);
        assert(pow10(a) * pow10(b) == (pow10(a) * pow10(b - 1)) * 10) by (nonlinear_arith)
            requires
                pow10(b) == pow10(b - 1) * 10,
        ;
    }
}

/// Convert a non-negative decimal string to its fixed-point value.
///
/// Fails on anything but digits with at most one decimal point, and on
/// values whose scaled integer exceeds `u64::MAX`. The ninth fractional
/// digit rounds half up.
#[verifier::rlimit(100)]
#[verifier::spinoff_prover]
#[verifier::loop_isolation(false)]
pub fn to_fixed(s: &str) -> (r: Option<u64>)
    ensures
        r == to_fixed_spec(s@),
{
    let n = s.unicode_len();
    if n == 0 {
        return None;
    }
    let mut i: usize = 0;
    let mut ipart: u64 = 0;
    let mut saw_dot = false;
    // integer part, up to the decimal point
    while i < n
        invariant
            0 <= i <= n,
            n == s@.len(),
            !saw_dot,
            all_digits(s@.take(i as int)),
            ipart == digits_val(s@.take(i as int)),
            ipart <= MAX_VALUE,
        decreases n - i,
    {
        let c = s.get_char(i);
        if c == '.' {
            saw_dot = true;
            break ;
        }
        if !(c >= '0' && c <= '9') {
            proof {
                // an alien character invalidates every reading of the string
                assert(!valid_decimal(s@)) by {
                    assert(s@[i as int] == c);
                    if has_dot(s@) {
                        assert forall|k: int| !valid_split(s@, k) by {
                            if valid_split(s@, k) {
                                if k < i {
                                    assert(s@.skip(k + 1)[i - k - 1] == c);
                                } else if k > i {
                                    assert(s@.take(k)[i as int] == c);
                                }
                            }
                        }
                    }
                }
            }
            return None;
        }
        let d = (c as u32 - 48) as u64;
        proof {
            assert(s@.take(i + 1).drop_last() =~= s@.take(i as int));
            assert(s@.take(i + 1).last() == c);
        }
        if ipart > MAX_VALUE / 10 || ipart * 10 > u64::MAX - d {
            proof {
                // the integer part alone already overflows after scaling
                lemma_overflow_reject(s@, i as int, ipart as int, d as int);
            }
            return None;
        }
        let next = ipart * 10 + d;
        if next > MAX_VALUE {
            proof {
                lemma_overflow_reject2(s@, i as int, next as int);
            }
            return None;
        }
        ipart = next;
        i = i + 1;
    }
    let ghost dot_k: int = i as int;
    let mut facc: u64 = 0;
    let mut fd: usize = 0;
    let mut carry: u64 = 0;
    if saw_dot {
        proof {
            assert(s@[dot_k] == '.');
            assert(valid_split(s@, dot_k) <==> (all_digits(s@.skip(dot_k + 1)) && s@.len() > 1));
        }
        if n == 1 {
            proof {
                assert forall|k: int| !valid_split(s@, k) by {}
            }
            return None;
        }
        let mut j: usize = i + 1;
        // fractional part: the first eight digits count, the ninth rounds
        while j < n
            invariant
                dot_k + 1 <= j <= n,
                saw_dot,
                n == s@.len(),
                n > 1,
                0 <= dot_k < n,
                s@[dot_k] == '.',
                all_digits(s@.take(dot_k)),
                ipart == digits_val(s@.take(dot_k)),
                ipart <= MAX_VALUE,
                all_digits(s@.subrange(dot_k + 1, j as int)),
                fd == (if j - dot_k - 1 < 8 {
                    j - dot_k - 1
                } else {
                    8
                }),
                facc == digits_val(s@.subrange(dot_k + 1, j as int).take(fd as int)),
                facc < 100_000_000,
                carry == (if j - dot_k - 1 > 8 && digit_val(s@[dot_k + 9]) >= 5 {
                    1u64
                } else {
                    0u64
                }),
            decreases n - j,
        {
            let c = s.get_char(j);
            if !(c >= '0' && c <= '9') {
                proof {
                    assert(!valid_decimal(s@)) by {
                        assert(s@[j as int] == c);
                        assert forall|k: int| !valid_split(s@, k) by {
                            if valid_split(s@, k) {
                                if k < j {
                                    assert(s@.skip(k + 1)[j - k - 1] == c);
                                } else if k > j {
                                    assert(s@.take(k)[j as int] == c);
                                } else {
                                    assert(s@.take(k)[dot_k] == '.');
                                }
                            }
                        }
                    }
                }
                return None;
            }
            let d = (c as u32 - 48) as u64;
            proof {
                let fs_new = s@.subrange(dot_k + 1, j + 1);
                assert(fs_new.drop_last() =~= s@.subrange(dot_k + 1, j as int));
                assert(fs_new.last() == c);
                if fd < 8 {
                    assert(fs_new.take(fd + 1).drop_last() =~= s@.subrange(
                        dot_k + 1,
                        j as int,
                    ).take(fd as int));
                    assert(fs_new.take(fd + 1).last() == c);
                } else {
                    assert(fs_new.take(fd as int) =~= s@.subrange(dot_k + 1, j as int).take(
                        fd as int,
                    ));
                }
                lemma_digits_val_bound(s@.subrange(dot_k + 1, j as int).take(fd as int));
            }
            if fd < 8 {
                facc = facc * 10 + d;
                fd = fd + 1;
                proof {
                    lemma_digits_val_bound(s@.subrange(dot_k + 1, j + 1).take(fd as int));
                    assert(pow10(8) == 100_000_000) by {
        reveal_with_fuel(pow10, 9);
    }
                    if fd < 8 {
                        assert(pow10(fd as int) <= pow10(8)) by {
                            lemma_pow10_mono(fd as int, 8);
                        }
                    }
                }
            } else if j == i + 9 {
                if d >= 5 {
                    carry = 1;
                }
            }
            j = j + 1;
        }
        // scale a short fraction up to eight digits
        let mut k2: usize = fd;
        while k2 < 8
            invariant
                fd <= k2 <= 8,
                facc == digits_val(s@.subrange(dot_k + 1, n as int).take(fd as int)) * pow10(
                    k2 - fd,
                ),
                facc <= 100_000_000,
                n == s@.len(),
            decreases 8 - k2,
        {
            proof {
                lemma_frac_scale_bound(s@.subrange(dot_k + 1, n as int), fd as int, k2 as int);
            }
            facc = facc * 10;
            k2 = k2 + 1;
        }
        proof {
            let fs = s@.subrange(dot_k + 1, n as int);
            assert(fs =~= s@.skip(dot_k + 1));
            assert(valid_split(s@, dot_k));
            assert(valid_decimal(s@));
            let ck = choose|k: int| valid_split(s@, k);
            assert(ck == dot_k) by {
                if ck != dot_k {
                    if ck < dot_k {
                        assert(s@.skip(ck + 1)[dot_k - ck - 1] == '.');
                        assert(is_digit('.') == false);
                    } else {
                        assert(s@.take(ck)[dot_k] == '.');
                    }
                }
            }
            assert(fd == (if fs.len() < 8 {
                fs.len() as int
            } else {
                8
            }));
            assert(facc + carry == frac8(fs)) by {
                assert(facc == digits_val(fs.take(fd as int)) * pow10(8 - fd));
                if fs.len() > 8 {
                    assert(s@[dot_k + 9] == fs[8]);
                }
            }
            assert(scaled_value(s@) == ipart * SCALE + facc + carry);
        }
    } else {
        proof {
            assert(s@.take(i as int) =~= s@);
            assert(valid_decimal(s@));
            assert(scaled_value(s@) == ipart * SCALE);
        }
    }
    let scaled: u128 = (ipart as u128) * (SCALE as u128) + (facc as u128) + (carry as u128);
    proof {
        assert((ipart as u128) * (SCALE as u128) <= (MAX_VALUE as u128) * (SCALE as u128))
            by (nonlinear_arith)
            requires
                ipart <= MAX_VALUE,
        ;
        assert((MAX_VALUE as u128) * (SCALE as u128) <= u64::MAX as u128) by (nonlinear_arith);
    }
    if scaled > u64::MAX as u128 {
        return None;
    }
    Some(scaled as u64)
}

/// Rejecting on integer-part overflow is sound: the final value can only
/// be larger.
proof fn lemma_overflow_reject(s: Seq<char>, i: int, ipart: int, d: int)
    requires
        0 <= i < s.len(),
        all_digits(s.take(i)),
        ipart == digits_val(s.take(i)),
        ipart > (u64::MAX / 100_000_000u64) / 10 || ipart * 10 + d > u64::MAX,
        0 <= d <= 9,
        is_digit(s[i]),
        d == digit_val(s[i]),
    ensures
        valid_decimal(s) ==> scaled_value(s) > u64::MAX,
{
    if valid_decimal(s) {
        lemma_scaled_ge_prefix(s, i + 1);
        assert(s.take(i + 1).drop_last() =~= s.take(i));
        assert(s.take(i + 1).last() == s[i]);
        assert(digits_val(s.take(i + 1)) == ipart * 10 + d);
        if ipart > (u64::MAX / 100_000_000u64) / 10 {
            assert(ipart >= 18446744074);
            assert(ipart * 10 + d >= 184467440740);
            assert((ipart * 10 + d) * 100_000_000 >= 184467440740i64 * 100_000_000)
                by (nonlinear_arith)
                requires
                    ipart * 10 + d >= 184467440740,
            ;
        } else {
            assert((ipart * 10 + d) * 100_000_000 > u64::MAX) by (nonlinear_arith)
                requires
                    ipart * 10 + d > u64::MAX,
            ;
        }
    }
}

/// Rejecting when the accumulated integer part exceeds the scaled
/// maximum is sound.
proof fn lemma_overflow_reject2(s: Seq<char>, i: int, next: int)
    requires
        0 <= i < s.len(),
        all_digits(s.take(i)),
        is_digit(s[i]),
        next == digits_val(s.take(i)) * 10 + digit_val(s[i]),
        next > u64::MAX / 100_000_000u64,
    ensures
        valid_decimal(s) ==> scaled_value(s) > u64::MAX,
{
    if valid_decimal(s) {
        lemma_scaled_ge_prefix(s, i + 1);
        assert(s.take(i + 1).drop_last() =~= s.take(i));
        assert(s.take(i + 1).last() == s[i]);
        assert(digits_val(s.take(i + 1)) == next);
        assert(next >= 184467440738);
        assert(next * 100_000_000 >= 184467440738i64 * 100_000_000) by (nonlinear_arith)
            requires
                next >= 184467440738,
        ;
    }
}

/// The scaled value of a valid decimal is at least the scaled value of
/// any prefix of its integer part.
proof fn lemma_scaled_ge_prefix(s: Seq<char>, j: int)
    requires
        valid_decimal(s),
        0 <= j <= s.len(),
        all_digits(s.take(j)),
    ensures
        scaled_value(s) >= digits_val(s.take(j)) * 100_000_000,
{
    if has_dot(s) {
        let k = choose|k: int| valid_split(s, k);
        assert(j <= k) by {
            if j > k {
                assert(s.take(j)[k] == '.');
            }
        }
        assert(s.take(k).take(j) =~= s.take(j));
        lemma_digits_val_prefix(s.take(k), j);
        lemma_frac8_nonneg(s.skip(k + 1));
        assert(digits_val(s.take(k)) * 100_000_000 >= digits_val(s.take(j)) * 100_000_000)
            by (nonlinear_arith)
            requires
                digits_val(s.take(k)) >= digits_val(s.take(j)),
        ;
    } else {
        lemma_digits_val_prefix(s, j);
        assert(digits_val(s) * 100_000_000 >= digits_val(s.take(j)) * 100_000_000)
            by (nonlinear_arith)
            requires
                digits_val(s) >= digits_val(s.take(j)),
        ;
    }
}

proof fn lemma_frac8_nonneg(fs: Seq<char>)
    requires
        all_digits(fs),
    ensures
        frac8(fs) >= 0,
{
    lemma_frac8_bound(fs);
}

proof fn lemma_pow10_mono(a: int, b: int)
    requires
        0 <= a <= b,
    ensures
        pow10(a) <= pow10(b),
    decreases b - a,
{
    if a < b {
        lemma_pow10_mono(a, b - 1);
        lemma_pow10_pos(b - 1);
    }
}

/// Scaling a short fraction stays within one unit.
proof fn lemma_frac_scale_bound(fs: Seq<char>, fd: int, k2: int)
    requires
        all_digits(fs),
        fd == (if fs.len() < 8 {
            fs.len() as int
        } else {
            8
        }),
        fd <= k2 < 8,
    ensures
        digits_val(fs.take(fd)) * pow10(k2 - fd) * 10 == digits_val(fs.take(fd)) * pow10(
            k2 + 1 - fd,
        ),
        digits_val(fs.take(fd)) * pow10(k2 + 1 - fd) <= 100_000_000,
{
    lemma_digits_val_bound(fs.take(fd));
    lemma_pow10_pos(k2 - fd);
    assert(digits_val(fs.take(fd)) * pow10(k2 - fd) * 10 == digits_val(fs.take(fd)) * pow10(
        k2 + 1 - fd,
    )) by (nonlinear_arith)
        requires
            pow10(k2 + 1 - fd) == pow10(k2 - fd) * 10,
    ;
    lemma_pow10_mul(fd, k2 + 1 - fd);
    lemma_pow10_mono(k2 + 1, 8);
    assert(pow10(8) == 100_000_000) by {
        reveal_with_fuel(pow10, 9);
    }
    assert(digits_val(fs.take(fd)) * pow10(k2 + 1 - fd) <= (pow10(fd) - 1) * pow10(k2 + 1 - fd))
        by (nonlinear_arith)
        requires
            digits_val(fs.take(fd)) <= pow10(fd) - 1,
            digits_val(fs.take(fd)) >= 0,
            pow10(k2 + 1 - fd) >= 1,
    ;
    assert((pow10(fd) - 1) * pow10(k2 + 1 - fd) <= pow10(fd + k2 + 1 - fd)) by (nonlinear_arith)
        requires
            pow10(fd) * pow10(k2 + 1 - fd) == pow10(fd + k2 + 1 - fd),
            pow10(k2 + 1 - fd) >= 1,
    ;
    assert(pow10(k2 + 1) <= pow10(8));
}

/// The decimal digit string of a number, most significant digit first.
pub open spec fn spec_dec(n: int) -> Seq<char>
    decreases n,
{
    if n < 10 {
        seq![hex_char((if 0 <= n {
            n
        } else {
            0
        }) as u8)]
    } else {
        spec_dec(n / 10) + seq![hex_char((n % 10) as u8)]
    }
}

/// Eight fractional digit characters for a value below 10^8.
pub open spec fn spec_pad8(n: int) -> Seq<char> {
    seq![
        hex_char(((n / 10_000_000) % 10) as u8),
        hex_char(((n / 1_000_000) % 10) as u8),
        hex_char(((n / 100_000) % 10) as u8),
        hex_char(((n / 10_000) % 10) as u8),
        hex_char(((n / 1_000) % 10) as u8),
        hex_char(((n / 100) % 10) as u8),
        hex_char(((n / 10) % 10) as u8),
        hex_char((n % 10) as u8),
    ]
}

/// The exact text `from_fixed` produces: the integer part, a point, and
/// exactly eight fractional digits.
pub open spec fn from_fixed_spec(value: u64) -> Seq<char> {
    spec_dec(value as int / SCALE as int) + seq!['.'] + spec_pad8(value as int % SCALE as int)
}

/// Append the decimal digits of `n`.
fn push_dec(n: u64, out: &mut String)
    ensures
        final(out)@ == old(out)@ + spec_dec(n as int),
    decreases n,
{
    if n < 10 {
        out.append(dec_str((n % 10) as u8));
    } else {
        push_dec(n / 10, out);
        out.append(dec_str((n % 10) as u8));
        proof {
            assert(out@ =~= old(out)@ + spec_dec(n as int));
        }
    }
}

/// The one-character string for a decimal digit.
fn dec_str(n: u8) -> (r: &'static str)
    requires
        n < 10,
    ensures
        r@ == seq![hex_char(n)],
{
    proof {
        reveal_strlit("0");
        reveal_strlit("1");
        reveal_strlit("2");
        reveal_strlit("3");
        reveal_strlit("4");
        reveal_strlit("5");
        reveal_strlit("6");
        reveal_strlit("7");
        reveal_strlit("8");
        reveal_strlit("9");
    }
    let r = match n {
        0 => "0",
        1 => "1",
        2 => "2",
        3 => "3",
        4 => "4",
        5 => "5",
        6 => "6",
        7 => "7",
        8 => "8",
        _ => "9",
    };
    proof {
        assert(r@ =~= seq![hex_char(n)]);
    }
    r
}

/// The one-character decimal-point string.
fn dot_str() -> (r: &'static str)
    ensures
        r@ == seq!['.'],
{
    proof {
        reveal_strlit(".");
    }
    let r = ".";
    proof {
        assert(r@ =~= seq!['.']);
    }
    r
}

/// Convert a fixed-point value to a string with exactly 8 decimal places.
#[verifier::rlimit(100)]
#[verifier::spinoff_prover]
pub fn from_fixed(value: u64) -> (r: String)
    ensures
        r@ == from_fixed_spec(value),
{
    let mut out = String::new();
    push_dec(value / SCALE, &mut out);
    out.append(dot_str());
    let f = value % SCALE;
    out.append(dec_str(((f / 10_000_000) % 10) as u8));
    out.append(dec_str(((f / 1_000_000) % 10) as u8));
    out.append(dec_str(((f / 100_000) % 10) as u8));
    out.append(dec_str(((f / 10_000) % 10) as u8));
    out.append(dec_str(((f / 1_000) % 10) as u8));
    out.append(dec_str(((f / 100) % 10) as u8));
    out.append(dec_str(((f / 10) % 10) as u8));
    out.append(dec_str((f % 10) as u8));
    proof {
        assert(out@ =~= from_fixed_spec(value));
    }
    out
}

/// The fractional digits with trailing zeros removed: the value and how
/// many digits remain.
pub open spec fn spec_trim(f: int, w: int) -> (int, int)
    decreases w,
{
    if w <= 0 || f % 10 != 0 {
        (f, w)
    } else {
        spec_trim(f / 10, w - 1)
    }
}

/// The fractional digit characters of `f` written with width `w`.
pub open spec fn spec_padk(f: int, w: int) -> Seq<char>
    decreases w,
{
    if w <= 0 {
        Seq::<char>::empty()
    } else {
        spec_padk(f / 10, w - 1) + seq![hex_char((f % 10) as u8)]
    }
}

/// The exact text `from_fixed_trimmed` produces: the integer part, and
/// the fractional digits with trailing zeros removed, if any remain.
pub open spec fn from_fixed_trimmed_spec(value: u64) -> Seq<char> {
    let f = value as int % SCALE as int;
    if f == 0 {
        spec_dec(value as int / SCALE as int)
    } else {
        spec_dec(value as int / SCALE as int) + seq!['.'] + spec_padk(
            spec_trim(f, 8).0,
            spec_trim(f, 8).1,
        )
    }
}

/// Append the last `w` decimal digits of `f`.
fn push_padk(f: u64, w: u8, out: &mut String)
    ensures
        final(out)@ == old(out)@ + spec_padk(f as int, w as int),
    decreases w,
{
    if w == 0 {
        proof {
            assert(out@ =~= old(out)@ + spec_padk(f as int, 0));
        }
    } else {
        push_padk(f / 10, w - 1, out);
        out.append(dec_str((f % 10) as u8));
        proof {
            assert(out@ =~= old(out)@ + spec_padk(f as int, w as int));
        }
    }
}

/// Convert a fixed-point value to a human-readable string with trailing
/// fractional zeros removed.
pub fn from_fixed_trimmed(value: u64) -> (r: String)
    ensures
        r@ == from_fixed_trimmed_spec(value),
{
    let mut out = String::new();
    push_dec(value / SCALE, &mut out);
    let mut f = value % SCALE;
    if f == 0 {
        return out;
    }
    let mut w: u8 = 8;
    while w > 0 && f % 10 == 0
        invariant
            0 <= w <= 8,
            spec_trim(f as int, w as int) == spec_trim(value as int % SCALE as int, 8),
        decreases w,
    {
        proof {
            assert(spec_trim(f as int, w as int) == spec_trim(f as int / 10, w - 1));
        }
        f = f / 10;
        w = w - 1;
    }
    proof {
        assert((f as int, w as int) == spec_trim(value as int % SCALE as int, 8));
    }
    out.append(dot_str());
    push_padk(f, w, &mut out);
    proof {
        assert(out@ =~= from_fixed_trimmed_spec(value));
    }
    out
}

/// Multiply two fixed-point values: `(a*b + SCALE/2) / SCALE`, rounded
/// half up, or None if the result exceeds `u64::MAX`.
pub fn checked_mul(a: u64, b: u64) -> (r: Option<u64>)
    ensures
        r == (if (a * b + 50_000_000) / (100_000_000 as int) <= u64::MAX {
            Some((((a * b + 50_000_000) / (100_000_000 as int)) as u64))
        } else {
            None::<u64>
        }),
{
    proof {
        assert((a as u128) * (b as u128) <= (u64::MAX as u128) * (u64::MAX as u128))
            by (nonlinear_arith)
            requires
                a <= u64::MAX,
                b <= u64::MAX,
        ;
        assert((u64::MAX as u128) * (u64::MAX as u128) + 50_000_000 <= u128::MAX) by (nonlinear_arith);
    }
    let wide: u128 = (a as u128) * (b as u128) + 50_000_000u128;
    let q: u128 = wide / 100_000_000u128;
    if q > u64::MAX as u128 {
        None
    } else {
        Some(q as u64)
    }
}

/// Divide two fixed-point values: `(a*SCALE + b/2) / b`, rounded half up,
/// or None on division by zero or overflow.
pub fn checked_div(a: u64, b: u64) -> (r: Option<u64>)
    ensures
        b == 0 ==> r is None,
        b != 0 ==> r == (if (a * 100_000_000 + b / 2) / (b as int) <= u64::MAX {
            Some((((a * 100_000_000 + b / 2) / (b as int)) as u64))
        } else {
            None::<u64>
        }),
{
    if b == 0 {
        return None;
    }
    proof {
        assert((a as u128) * 100_000_000 <= (u64::MAX as u128) * 100_000_000) by (nonlinear_arith)
            requires
                a <= u64::MAX,
        ;
        assert((u64::MAX as u128) * 100_000_000 + u64::MAX <= u128::MAX) by (nonlinear_arith);
    }
    let wide: u128 = (a as u128) * 100_000_000u128 + (b / 2) as u128;
    let q: u128 = wide / (b as u128);
    if q > u64::MAX as u128 {
        None
    } else {
        Some(q as u64)
    }
}

/// Add two fixed-point values, or None on overflow.
pub fn checked_add(a: u64, b: u64) -> (r: Option<u64>)
    ensures
        a + b <= u64::MAX ==> r == Some((a + b) as u64),
        a + b > u64::MAX ==> r is None,
{
    if a <= u64::MAX - b {
        Some(a + b)
    } else {
        None
    }
}

/// Subtract two fixed-point values, or None on underflow.
pub fn checked_sub(a: u64, b: u64) -> (r: Option<u64>)
    ensures
        a >= b ==> r == Some((a - b) as u64),
        a < b ==> r is None,
{
    if a >= b {
        Some(a - b)
    } else {
        None
    }
}

/// Whether two values differ by at most `tolerance`.
pub fn approx_eq(a: u64, b: u64, tolerance: u64) -> (r: bool)
    ensures
        r == (if a >= b {
            a - b <= tolerance
        } else {
            b - a <= tolerance
        }),
{
    if a >= b {
        a - b <= tolerance
    } else {
        b - a <= tolerance
    }
}

} // verus!
