//! Exact decimal values as fixed-point integers.
//!
//! Every price and quantity in the library is a non-negative decimal with
//! at most eight fractional digits, stored as a `u64` count of units of
//! 10^-8 (so one whole unit is [`UNIT`]).  Addition, comparison and
//! multiplication on such values are exact integer operations; nothing in
//! the library rounds until a caller explicitly divides.
//!
//! [`parse_units`] turns the feed's textual representation (ASCII digits
//! with an optional fraction, such as `"100"` or `"0.00127000"`) into
//! units, rejecting malformed or unrepresentable text.

use vstd::prelude::*;

verus! {

/// Number of units per whole unit: 10^8.
pub const UNIT: u64 = 100_000_000;

/// Greatest number of fractional digits a decimal literal may carry.
pub const MAX_FRAC_DIGITS: u64 = 8;

/// ASCII digit?
pub open spec fn is_digit(b: u8) -> bool {
    0x30 <= b && b <= 0x39
}

/// Numeric value of an ASCII digit.
pub open spec fn digit_val(b: u8) -> int {
    b - 0x30
}

/// Every byte of `s` is an ASCII digit.
pub open spec fn all_digits(s: Seq<u8>) -> bool {
    forall|i: int| 0 <= i < s.len() ==> is_digit(s[i])
}

/// Value of a digit string read in base ten; 0 for the empty string.
pub open spec fn digits_val(s: Seq<u8>) -> int
    decreases s.len(),
{
    if s.len() == 0 {
        0
    } else {
        digits_val(s.drop_last()) * 10 + digit_val(s.last())
    }
}

/// Ten to the `n`.
pub open spec fn pow10(n: nat) -> int
    decreases n,
{
    if n == 0 {
        1
    } else {
        10 * pow10((n - 1) as nat)
    }
}

/// `s` splits at position `k` into a non-empty run of integer digits, an
/// ASCII dot, and one to eight fraction digits.
pub open spec fn dec_split_at(s: Seq<u8>, k: int) -> bool {
    &&& 1 <= k < s.len()
    &&& s[k] == 0x2eu8
    &&& all_digits(s.take(k))
    &&& 1 <= s.len() - k - 1 <= MAX_FRAC_DIGITS
    &&& all_digits(s.skip(k + 1))
}

/// Value in units of a decimal literal split at `k`.
pub open spec fn split_value(s: Seq<u8>, k: int) -> int {
    digits_val(s.take(k)) * UNIT + digits_val(s.skip(k + 1)) * pow10(
        (MAX_FRAC_DIGITS - (s.len() - k - 1)) as nat,
    )
}

/// The value in units that the byte string `s` denotes, or `None` when `s`
/// is not a decimal literal of the accepted grammar.
pub open spec fn dec_value(s: Seq<u8>) -> Option<int> {
    if s.len() > 0 && all_digits(s) {
        Some(digits_val(s) * UNIT)
    } else if exists|k: int| dec_split_at(s, k) {
        Some(split_value(s, choose|k: int| dec_split_at(s, k)))
    } else {
        None
    }
}

/// Why a byte string was not accepted as a decimal value.
#[derive(Clone, Copy, Debug, PartialEq, Eq, Structural)]
pub enum DecError {
    /// Not a decimal literal: empty, a stray character, a misplaced dot,
    /// no digit before the dot, or more than eight fraction digits.
    Malformed,
    /// A well-formed literal whose value exceeds what a `u64` count of
    /// units can hold.
    TooLarge,
}

proof fn lemma_digits_val_nonneg(s: Seq<u8>)
    requires
        all_digits(s),
    ensures
        digits_val(s) >= 0,
    decreases s.len(),
{
    if s.len() > 0 {
        lemma_digits_val_nonneg(s.drop_last());
    }
}

proof fn lemma_pow10_pos(n: nat)
    ensures
        pow10(n) >= 1,
    decreases n,
{
    if n > 0 {
        lemma_pow10_pos((n - 1) as nat);
    }
}

/// A digit string's value is below ten to its length.
proof fn lemma_digits_val_bound(s: Seq<u8>)
    requires
        all_digits(s),
    ensures
        0 <= digits_val(s) < pow10(s.len()),
    decreases s.len(),
{
    if s.len() > 0 {
        lemma_digits_val_bound(s.drop_last());
    }
}

/// Extending a digit string to the right cannot lower its value.
proof fn lemma_digits_val_prefix_le(s: Seq<u8>, j: int)
    requires
        all_digits(s),
        0 <= j <= s.len(),
    ensures
        digits_val(s.take(j)) <= digits_val(s),
    decreases s.len() - j,
{
    if j < s.len() {
        let t = s.take(j + 1);
        assert(t.drop_last() =~= s.take(j));
        lemma_digits_val_nonneg(t.drop_last());
        lemma_digits_val_prefix_le(s, j + 1);
    } else {
        assert(s.take(j) =~= s);
    }
}

/// At most one position can split a decimal literal: the digits before it
/// leave no room for another dot.
proof fn lemma_split_unique(s: Seq<u8>, k: int, k2: int)
    requires
        dec_split_at(s, k),
        dec_split_at(s, k2),
    ensures
        k == k2,
{
    if k < k2 {
        assert(is_digit(s.take(k2)[k]));
    }
    if k2 < k {
        assert(is_digit(s.take(k)[k2]));
    }
}

/// The value of a literal known to split at `k`.
proof fn lemma_dec_value_split(s: Seq<u8>, k: int)
    requires
        dec_split_at(s, k),
    ensures
        dec_value(s) == Some(split_value(s, k)),
{
    assert(!is_digit(s[k]));
    assert(!all_digits(s));
    let kc = choose|k0: int| dec_split_at(s, k0);
    lemma_split_unique(s, k, kc);
}

/// Exact exponentiation for the fraction scale.
fn pow10_u64(e: u64) -> (r: u64)
    requires
        e <= MAX_FRAC_DIGITS,
    ensures
        r == pow10(e as nat),
{
    let mut r: u64 = 1;
    let mut i: u64 = 0;
    while i < e
        invariant
            i <= e <= 8,
            r == pow10(i as nat),
            r <= 100_000_000,
        decreases e - i,
    {
        proof {
            lemma_pow10_pos(i as nat);
            assert(pow10((i + 1) as nat) == 10 * pow10(i as nat));
            lemma_pow10_units();
            if i + 1 <= 8 {
                lemma_pow10_mono((i + 1) as nat, 8nat);
            }
        }
        r = r * 10;
        i = i + 1;
    }
    r
}

/// Ten to the eighth is one whole unit.
proof fn lemma_pow10_units()
    ensures
        pow10(8nat) == UNIT,
{
    reveal_with_fuel(pow10, 9);
}

proof fn lemma_pow10_mono(a: nat, b: nat)
    requires
        a <= b,
    ensures
        pow10(a) <= pow10(b),
    decreases b,
{
    if a < b {
        lemma_pow10_pos((b - 1) as nat);
        lemma_pow10_mono(a, (b - 1) as nat);
    }
}

/// Parse a byte string as a decimal literal and return its value in units
/// of 10^-8.
///
/// The result is `Ok` exactly when the text matches the grammar and its
/// value fits in a `u64`; otherwise the error says which of the two
/// failed.
pub fn parse_units(s: &[u8]) -> (r: Result<u64, DecError>)
    ensures
        dec_value(s@) is None <==> r == Err::<u64, DecError>(DecError::Malformed),
        (dec_value(s@) is Some && dec_value(s@).unwrap() > u64::MAX) <==> r == Err::<
            u64,
            DecError,
        >(DecError::TooLarge),
        r is Ok ==> dec_value(s@) == Some(r.unwrap() as int),
{
    let n = s.len();
    // Syntactic pass: find the dot, if any, and refuse anything that is
    // neither a digit nor a single well-placed dot.
    let mut dot: Option<usize> = None;
    let mut i: usize = 0;
    while i < n
        invariant
            n == s@.len(),
            i <= n,
            match dot {
                Some(d) => {
                    &&& d < i
                    &&& s@[d as int] == 0x2eu8
                    &&& forall|j: int| 0 <= j < i && j != d ==> is_digit(s@[j])
                },
                None => forall|j: int| 0 <= j < i ==> is_digit(s@[j]),
            },
        decreases n - i,
    {
        let b = s[i];
        if 0x30 <= b && b <= 0x39 {
            // digit
        } else if b == 0x2e && dot.is_none() {
            dot = Some(i);
        } else {
            // `s` has a byte no literal admits at this position: whatever
            // position a split chose, either its digit runs would contain a
            // non-digit or its dot would sit on a digit.
            proof {
                assert(!is_digit(s@[i as int]));
                assert(!all_digits(s@));
                assert forall|k: int| !dec_split_at(s@, k) by {
                    if dec_split_at(s@, k) {
                        if k < i {
                            match dot {
                                Some(d) => {
                                    if k != d {
                                        assert(is_digit(s@[k]));
                                    } else {
                                        assert(is_digit(s@.skip(k + 1)[i - k - 1]));
                                    }
                                },
                                None => {
                                    assert(is_digit(s@[k]));
                                },
                            }
                        } else if k == i {
                            match dot {
                                Some(d) => {
                                    assert(is_digit(s@.take(k)[d as int]));
                                },
                                None => {
                                    assert(s@[i as int] == 0x2eu8);
                                },
                            }
                        } else {
                            assert(is_digit(s@.take(k)[i as int]));
                        }
                    }
                }
            }
            return Err(DecError::Malformed);
        }
        i = i + 1;
    }
    // Shape checks: a dot needs digits on its left and one to eight on its
    // right; without a dot the string must be non-empty.
    let int_len: usize;
    match dot {
        Some(d) => {
            let frac_len = n - d - 1;
            if d == 0 || frac_len == 0 || frac_len > 8 {
                proof {
                    assert(!is_digit(s@[dot.unwrap() as int]));
                    assert(!all_digits(s@));
                    let d0 = dot.unwrap() as int;
                    assert forall|k: int| !dec_split_at(s@, k) by {
                        if dec_split_at(s@, k) {
                            if k < d0 {
                                assert(is_digit(s@[k]));
                            } else if k > d0 {
                                assert(is_digit(s@.take(k)[d0]));
                            }
                        }
                    }
                }
                return Err(DecError::Malformed);
            }
            proof {
                assert(dec_split_at(s@, dot.unwrap() as int));
                lemma_dec_value_split(s@, dot.unwrap() as int);
            }
            int_len = d;
        },
        None => {
            if n == 0 {
                proof {
                    assert forall|k: int| !dec_split_at(s@, k) by {}
                }
                return Err(DecError::Malformed);
            }
            int_len = n;
        },
    }
    // Numeric pass: integer part.
    let ghost int_digits: Seq<u8> = s@.take(int_len as int);
    let mut acc: u64 = 0;
    let mut j: usize = 0;
    while j < int_len
        invariant
            n == s@.len(),
            int_len <= n,
            j <= int_len,
            all_digits(int_digits),
            int_digits == s@.take(int_len as int),
            forall|t: int| 0 <= t < int_len ==> is_digit(s@[t]),
            acc == digits_val(int_digits.take(j as int)),
            dot is Some ==> dec_split_at(s@, dot.unwrap() as int) && dec_value(s@) == Some(
                split_value(s@, dot.unwrap() as int),
            ) && int_len == dot.unwrap(),
            dot is None ==> int_len == n && n > 0 && dec_value(s@) == Some(
                digits_val(s@) * UNIT,
            ),
        decreases int_len - j,
    {
        let b = s[j];
        let d: u64 = (b - 0x30) as u64;
        proof {
            assert(int_digits.take(j + 1).drop_last() =~= int_digits.take(j as int));
            assert(int_digits.take(j + 1).last() == s@[j as int]);
        }
        let acc10 = match acc.checked_mul(10) {
            Some(v) => v,
            None => {
                proof {
                    lemma_int_part_too_large(s@, dot, int_len as int, j as int);
                }
                return Err(DecError::TooLarge);
            },
        };
        let acc1 = match acc10.checked_add(d) {
            Some(v) => v,
            None => {
                proof {
                    lemma_int_part_too_large(s@, dot, int_len as int, j as int);
                }
                return Err(DecError::TooLarge);
            },
        };
        acc = acc1;
        j = j + 1;
    }
    proof {
        assert(int_digits.take(int_len as int) =~= int_digits);
    }
    // Scale the integer part to units.
    let scaled: u64 = match acc.checked_mul(UNIT) {
        Some(v) => v,
        None => {
            proof {
                lemma_scaled_too_large(s@, dot, int_len as int);
            }
            return Err(DecError::TooLarge);
        },
    };
    // Fraction part: at most eight digits, so it always fits.
    let mut frac: u64 = 0;
    match dot {
        Some(d) => {
            let ghost frac_digits: Seq<u8> = s@.skip(d + 1);
            let flen = n - d - 1;
            let mut t: usize = 0;
            let mut facc: u64 = 0;
            while t < flen
                invariant
                    n == s@.len(),
                    d < n,
                    flen == n - d - 1 <= 8,
                    t <= flen,
                    frac_digits == s@.skip(d + 1),
                    all_digits(frac_digits),
                    frac_digits.len() == flen,
                    facc == digits_val(frac_digits.take(t as int)),
                    0 <= facc < pow10(t as nat),
                decreases flen - t,
            {
                let b = s[d + 1 + t];
                proof {
                    assert(frac_digits.take(t + 1).drop_last() =~= frac_digits.take(t as int));
                    assert(frac_digits.take(t + 1).last() == frac_digits[t as int]);
                    assert(frac_digits[t as int] == s@[d + 1 + t]);
                    lemma_digits_val_bound(frac_digits.take(t + 1));
                    lemma_pow10_mono((t + 1) as nat, 8nat);
                    lemma_pow10_units();
                }
                facc = facc * 10 + ((b - 0x30) as u64);
                t = t + 1;
            }
            proof {
                assert(frac_digits.take(flen as int) =~= frac_digits);
                lemma_pow10_mono(flen as nat, 8nat);
                lemma_pow10_units();
            }
            let scale = pow10_u64((8 - flen) as u64);
            proof {
                lemma_digits_val_bound(frac_digits);
                lemma_pow10_pos((8 - flen) as nat);
                lemma_pow10_adds(flen as nat, (8 - flen) as nat);
                vstd::arithmetic::mul::lemma_mul_strict_inequality(
                    digits_val(frac_digits),
                    pow10(flen as nat),
                    pow10((8 - flen) as nat),
                );
                lemma_pow10_units();
            }
            frac = facc * scale;
        },
        None => {},
    }
    let total = match scaled.checked_add(frac) {
        Some(v) => v,
        None => {
            proof {
                lemma_total_too_large(s@, dot, int_len as int);
            }
            return Err(DecError::TooLarge);
        },
    };
    proof {
        match dot {
            Some(d) => {
                assert(s@.take(int_len as int) == s@.take(d as int));
            },
            None => {
                assert(int_digits =~= s@);
            },
        }
    }
    Ok(total)
}

/// Multiplying powers of ten adds exponents.
proof fn lemma_pow10_adds(a: nat, b: nat)
    ensures
        pow10(a) * pow10(b) == pow10((a + b) as nat),
    decreases a,
{
    if a == 0 {
    } else {
        lemma_pow10_adds((a - 1) as nat, b);
        assert(pow10(a) * pow10(b) == 10 * (pow10((a - 1) as nat) * pow10(b)))
            by (nonlinear_arith)
            requires
                pow10(a) == 10 * pow10((a - 1) as nat),
        ;
    }
}

/// If accumulating the integer digits overflows a `u64` at digit `j`, the
/// whole literal's value exceeds `u64::MAX`.
proof fn lemma_int_part_too_large(s: Seq<u8>, dot: Option<usize>, int_len: int, j: int)
    requires
        0 <= j < int_len <= s.len(),
        forall|t: int| 0 <= t < int_len ==> is_digit(s[t]),
        digits_val(s.take(int_len).take(j)) * 10 + digit_val(s[j]) > u64::MAX,
        dot is Some ==> dec_split_at(s, dot.unwrap() as int) && dec_value(s) == Some(
            split_value(s, dot.unwrap() as int),
        ) && int_len == dot.unwrap(),
        dot is None ==> int_len == s.len() && s.len() > 0 && dec_value(s) == Some(
            digits_val(s) * UNIT,
        ),
    ensures
        dec_value(s) is Some,
        dec_value(s).unwrap() > u64::MAX,
{
    let ipart = s.take(int_len);
    assert(all_digits(ipart));
    assert(ipart.take(j + 1).drop_last() =~= ipart.take(j));
    assert(ipart.take(j + 1).last() == s[j]);
    assert(digits_val(ipart.take(j + 1)) > u64::MAX);
    lemma_digits_val_prefix_le(ipart, j + 1);
    assert(digits_val(ipart) > u64::MAX);
    lemma_value_at_least_int_part(s, dot, int_len);
}

/// If the integer part alone, scaled to units, overflows, so does the value.
proof fn lemma_scaled_too_large(s: Seq<u8>, dot: Option<usize>, int_len: int)
    requires
        0 <= int_len <= s.len(),
        forall|t: int| 0 <= t < int_len ==> is_digit(s[t]),
        digits_val(s.take(int_len)) * UNIT > u64::MAX,
        dot is Some ==> dec_split_at(s, dot.unwrap() as int) && dec_value(s) == Some(
            split_value(s, dot.unwrap() as int),
        ) && int_len == dot.unwrap(),
        dot is None ==> int_len == s.len() && s.len() > 0 && dec_value(s) == Some(
            digits_val(s) * UNIT,
        ),
    ensures
        dec_value(s) is Some,
        dec_value(s).unwrap() > u64::MAX,
{
    lemma_value_at_least_scaled(s, dot, int_len);
}

/// The value of the literal is at least its integer part.
proof fn lemma_value_at_least_int_part(s: Seq<u8>, dot: Option<usize>, int_len: int)
    requires
        0 <= int_len <= s.len(),
        forall|t: int| 0 <= t < int_len ==> is_digit(s[t]),
        digits_val(s.take(int_len)) > u64::MAX,
        dot is Some ==> dec_split_at(s, dot.unwrap() as int) && dec_value(s) == Some(
            split_value(s, dot.unwrap() as int),
        ) && int_len == dot.unwrap(),
        dot is None ==> int_len == s.len() && s.len() > 0 && dec_value(s) == Some(
            digits_val(s) * UNIT,
        ),
    ensures
        dec_value(s) is Some,
        dec_value(s).unwrap() > u64::MAX,
{
    let iv = digits_val(s.take(int_len));
    assert(iv * UNIT >= iv) by (nonlinear_arith)
        requires
            iv >= 0,
    ;
    lemma_value_at_least_scaled(s, dot, int_len);
}

/// The value of the literal is at least its integer part scaled to units.
proof fn lemma_value_at_least_scaled(s: Seq<u8>, dot: Option<usize>, int_len: int)
    requires
        0 <= int_len <= s.len(),
        forall|t: int| 0 <= t < int_len ==> is_digit(s[t]),
        dot is Some ==> dec_split_at(s, dot.unwrap() as int) && dec_value(s) == Some(
            split_value(s, dot.unwrap() as int),
        ) && int_len == dot.unwrap(),
        dot is None ==> int_len == s.len() && s.len() > 0 && dec_value(s) == Some(
            digits_val(s) * UNIT,
        ),
    ensures
        dec_value(s) is Some,
        dec_value(s).unwrap() >= digits_val(s.take(int_len)) * UNIT,
{
    match dot {
        Some(d) => {
            let frac = s.skip(d as int + 1);
            lemma_digits_val_nonneg(frac);
            lemma_pow10_pos((MAX_FRAC_DIGITS - (s.len() - d - 1)) as nat);
            let fv = digits_val(frac);
            let p = pow10((MAX_FRAC_DIGITS - (s.len() - d - 1)) as nat);
            assert(fv * p >= 0) by (nonlinear_arith)
                requires
                    fv >= 0,
                    p >= 1,
            ;
        },
        None => {
            assert(s.take(int_len) =~= s);
        },
    }
}

/// If integer part plus fraction overflows a `u64`, the value is too large.
proof fn lemma_total_too_large(s: Seq<u8>, dot: Option<usize>, int_len: int)
    requires
        0 <= int_len <= s.len(),
        forall|t: int| 0 <= t < int_len ==> is_digit(s[t]),
        dot is Some ==> dec_split_at(s, dot.unwrap() as int) && dec_value(s) == Some(
            split_value(s, dot.unwrap() as int),
        ) && int_len == dot.unwrap() && digits_val(s.take(int_len)) * UNIT + digits_val(
            s.skip(dot.unwrap() as int + 1),
        ) * pow10((MAX_FRAC_DIGITS - (s.len() - dot.unwrap() - 1)) as nat) > u64::MAX,
        dot is None ==> int_len == s.len() && s.len() > 0 && dec_value(s) == Some(
            digits_val(s) * UNIT,
        ) && digits_val(s.take(int_len)) * UNIT > u64::MAX,
    ensures
        dec_value(s) is Some,
        dec_value(s).unwrap() > u64::MAX,
{
    match dot {
        Some(d) => {},
        None => {
            assert(s.take(int_len) =~= s);
        },
    }
}

} // verus!
