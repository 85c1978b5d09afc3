//! Fixed-point decimal numerals.
//!
//! Quote fields arrive as decimal text (`"100.50"`). The library stores
//! them as unsigned integers scaled by `SCALE`, so one unit equals
//! `SCALE` fixed-point steps. A numeral is an optional run of digits, an
//! optional dot, and an optional run of digits, with at least one digit
//! in all; fractional digits beyond the resolution are truncated.

use vstd::prelude::*;
use vstd::string::*;

verus! {

/// Number of fractional digits kept by the fixed-point representation.
pub const FRAC_DIGITS: u64 = 8;

/// Scaling factor: `10^FRAC_DIGITS`.
pub const SCALE: u64 = 100_000_000;

/// Largest scaled value the library accepts (a billion units).
pub const MAX_SCALED: u64 = 100_000_000_000_000_000;

pub open spec fn is_digit(c: char) -> bool {
    '0' as int <= c as int && c as int <= '9' as int
}

pub open spec fn digit_val(c: char) -> int {
    c as int - '0' as int
}

pub open spec fn all_digits(s: Seq<char>) -> bool {
    forall|i: int| 0 <= i < s.len() ==> is_digit(#[trigger] s[i])
}

/// Value of a digit string, most significant digit first.
pub open spec fn digits_val(s: Seq<char>) -> int
    decreases s.len(),
{
    if s.len() == 0 {
        0
    } else {
        digits_val(s.drop_last()) * 10 + digit_val(s.last())
    }
}

pub open spec fn pow10(n: nat) -> int
    decreases n,
{
    if n == 0 {
        1
    } else {
        10 * pow10((n - 1) as nat)
    }
}

/// Index of the first `'.'` in `s`, or `s.len()` when there is none.
pub open spec fn dot_pos(s: Seq<char>) -> int
    decreases s.len(),
{
    if s.len() == 0 {
        0
    } else if s[0] == '.' {
        0
    } else {
        1 + dot_pos(s.drop_first())
    }
}

pub open spec fn int_part(s: Seq<char>) -> Seq<char> {
    s.take(dot_pos(s))
}

pub open spec fn frac_part(s: Seq<char>) -> Seq<char> {
    if dot_pos(s) < s.len() {
        s.skip(dot_pos(s) + 1)
    } else {
        Seq::empty()
    }
}

pub open spec fn decimal_grammar_ok(s: Seq<char>) -> bool {
    &&& all_digits(int_part(s))
    &&& all_digits(frac_part(s))
    &&& int_part(s).len() + frac_part(s).len() > 0
}

/// Scaled value of the fractional digit string: the first `FRAC_DIGITS`
/// digits, padded with zeros on the right when fewer are given.
pub open spec fn frac_scaled(f: Seq<char>) -> int {
    if f.len() <= FRAC_DIGITS {
        digits_val(f) * pow10((FRAC_DIGITS - f.len()) as nat)
    } else {
        digits_val(f.take(FRAC_DIGITS as int))
    }
}

pub open spec fn scaled_val(s: Seq<char>) -> int {
    digits_val(int_part(s)) * (SCALE as int) + frac_scaled(frac_part(s))
}

/// What a decimal text field denotes: `None` when it is not a decimal
/// numeral or does not fit the fixed-point range.
pub open spec fn spec_parse_scaled(s: Seq<char>) -> Option<u64> {
    if decimal_grammar_ok(s) && 0 <= scaled_val(s) <= MAX_SCALED as int {
        Some(scaled_val(s) as u64)
    } else {
        None
    }
}

pub proof fn lemma_digits_val_bounds(s: Seq<char>)
    requires
        all_digits(s),
    ensures
        0 <= digits_val(s) < pow10(s.len()),
    decreases s.len(),
{
    if s.len() == 0 {
    } else {
        assert(all_digits(s.drop_last())) by {
            assert(forall|i: int|
                0 <= i < s.len() - 1 ==> s.drop_last()[i] == #[trigger] s[i]);
        }
        lemma_digits_val_bounds(s.drop_last());
        assert(is_digit(s.last()));
        assert(pow10(s.len()) == 10 * pow10((s.len() - 1) as nat));
    }
}

pub proof fn lemma_pow10_pos(n: nat)
    ensures
        pow10(n) >= 1,
    decreases n,
{
    if n > 0 {
        lemma_pow10_pos((n - 1) as nat);
    }
}

/// `dot_pos` is the index of the first dot.
pub proof fn lemma_dot_pos(s: Seq<char>)
    ensures
        0 <= dot_pos(s) <= s.len(),
        dot_pos(s) < s.len() ==> s[dot_pos(s)] == '.',
        forall|j: int| 0 <= j < dot_pos(s) ==> s[j] != '.',
    decreases s.len(),
{
    if s.len() == 0 {
    } else if s[0] == '.' {
    } else {
        lemma_dot_pos(s.drop_first());
        if dot_pos(s) < s.len() {
            assert(s.drop_first()[dot_pos(s) - 1] == s[dot_pos(s)]);
        }
        assert forall|j: int| 0 <= j < dot_pos(s) implies s[j] != '.' by {
            if j > 0 {
                assert(s.drop_first()[j - 1] == s[j]);
            }
        }
    }
}

/// A position with no dot before it, holding a dot or at the end,
/// is `dot_pos`.
pub proof fn lemma_dot_pos_unique(s: Seq<char>, i: int)
    requires
        0 <= i <= s.len(),
        forall|j: int| 0 <= j < i ==> s[j] != '.',
        i < s.len() ==> s[i] == '.',
    ensures
        dot_pos(s) == i,
{
    lemma_dot_pos(s);
}

fn digit_of(c: char) -> (r: Option<u64>)
    ensures
        match r {
            Some(d) => is_digit(c) && d == digit_val(c) && d <= 9,
            None => !is_digit(c),
        },
{
    let u = c as u32;
    if '0' as u32 <= u && u <= '9' as u32 {
        Some((u - '0' as u32) as u64)
    } else {
        None
    }
}

fn pow10_exec(n: u64) -> (r: u64)
    requires
        n <= FRAC_DIGITS,
    ensures
        r == pow10(n as nat),
{
    let mut m: u64 = 0;
    let mut r: u64 = 1;
    while m < n
        invariant
            m <= n <= FRAC_DIGITS,
            r == pow10(m as nat),
        decreases n - m,
    {
        proof {
            lemma_pow10_pos(m as nat);
            lemma_pow10_frac_bound(m as nat);
        }
        r = r * 10;
        m = m + 1;
    }
    r
}

proof fn lemma_pow10_scale()
    ensures
        pow10(FRAC_DIGITS as nat) == SCALE as int,
{
    reveal_with_fuel(pow10, 9);
}

proof fn lemma_pow10_frac_bound(n: nat)
    ensures
        n <= FRAC_DIGITS ==> pow10(n) <= SCALE,
    decreases n,
{
    if n > 0 {
        lemma_pow10_frac_bound((n - 1) as nat);
        if n <= FRAC_DIGITS {
            lemma_pow10_scale();
            assert(pow10(FRAC_DIGITS as nat) == 10 * pow10((FRAC_DIGITS - 1) as nat));
            lemma_pow10_monotone((n - 1) as nat, (FRAC_DIGITS - 1) as nat);
        }
    }
}

proof fn lemma_pow10_monotone(a: nat, b: nat)
    requires
        a <= b,
    ensures
        pow10(a) <= pow10(b),
    decreases b,
{
    if a < b {
        lemma_pow10_monotone(a, (b - 1) as nat);
        lemma_pow10_pos((b - 1) as nat);
    }
}

/// Parse a decimal numeral into a scaled fixed-point value.
///
/// Returns `Some` exactly on well-formed numerals whose value fits
/// `MAX_SCALED`; rejection carries no partial result.
pub fn parse_scaled(s: &str) -> (r: Option<u64>)
    ensures
        r == spec_parse_scaled(s@),
{
    let n = s.unicode_len();
    let ghost sv = s@;

    // Integer part: digits up to the first dot or the end. The
    // accumulator is clamped one past MAX_SCALED once the value can no
    // longer fit, which keeps the comparison at the end exact.
    let mut i: usize = 0;
    let mut acc: u64 = 0;
    while i < n
        invariant
            n == sv.len(),
            sv == s@,
            0 <= i <= n,
            forall|j: int| 0 <= j < i ==> sv[j] != '.' && is_digit(#[trigger] sv[j]),
            digits_val(sv.take(i as int)) <= MAX_SCALED as int ==>
                acc == digits_val(sv.take(i as int)),
            digits_val(sv.take(i as int)) > MAX_SCALED as int ==> acc == MAX_SCALED + 1,
            acc <= MAX_SCALED + 1,
        ensures
            i == n || sv[i as int] == '.',
        decreases n - i,
    {
        let c = s.get_char(i);
        if c == '.' {
            break;
        }
        let d = match digit_of(c) {
            Some(d) => d,
            None => {
                proof {
                    lemma_dot_pos(sv);
                    if dot_pos(sv) > i {
                        assert(int_part(sv)[i as int] == sv[i as int]);
                        assert(!all_digits(int_part(sv)));
                    } else {
                        assert(dot_pos(sv) < sv.len() ==> sv[dot_pos(sv)] == '.');
                        assert(dot_pos(sv) == i);
                        assert(sv[i as int] == '.');
                    }
                }
                return None;
            },
        };
        proof {
            let pref = sv.take(i as int);
            let prefd = sv.take(i as int + 1);
            assert(prefd.drop_last() =~= pref);
            assert(prefd.last() == sv[i as int]);
            assert(forall|j: int| 0 <= j < i ==> pref[j] == #[trigger] sv[j]);
            assert(all_digits(pref));
            lemma_digits_val_bounds(pref);
            if digits_val(pref) > MAX_SCALED as int {
                assert(digits_val(prefd) == digits_val(pref) * 10 + digit_val(sv[i as int]));
                assert(digits_val(pref) * 10 + digit_val(sv[i as int]) > MAX_SCALED as int)
                    by (nonlinear_arith)
                    requires
                        digits_val(pref) > MAX_SCALED as int,
                        digit_val(sv[i as int]) >= 0,
                        MAX_SCALED >= 0,
                ;
            }
        }
        if acc > MAX_SCALED {
            acc = MAX_SCALED + 1;
        } else {
            let t = acc * 10 + d;
            acc = if t > MAX_SCALED {
                MAX_SCALED + 1
            } else {
                t
            };
        }
        i = i + 1;
    }

    proof {
        lemma_dot_pos_unique(sv, i as int);
        assert(int_part(sv) =~= sv.take(i as int));
    }

    // Fractional part: digits after the dot; only the first FRAC_DIGITS
    // of them carry value, the rest are validated and truncated.
    let mut facc: u64 = 0;
    let mut k: u64 = 0;
    if i < n {
        let mut j: usize = i + 1;
        while j < n
            invariant
                n == sv.len(),
                sv == s@,
                i < n,
                dot_pos(sv) == i,
                i + 1 <= j <= n,
                k == j - (i + 1),
                forall|j2: int| i + 1 <= j2 < j ==> is_digit(#[trigger] sv[j2]),
                k <= FRAC_DIGITS ==> facc == digits_val(sv.subrange(i + 1, j as int)),
                k > FRAC_DIGITS ==> facc == digits_val(
                    sv.subrange(i + 1, i + 1 + FRAC_DIGITS as int),
                ),
                facc < SCALE,
            decreases n - j,
        {
            let c = s.get_char(j);
            let d = match digit_of(c) {
                Some(d) => d,
                None => {
                    proof {
                        assert(frac_part(sv)[j - (i + 1)] == sv[j as int]);
                        assert(!all_digits(frac_part(sv)));
                    }
                    return None;
                },
            };
            proof {
                let pref = sv.subrange(i + 1, j as int);
                let prefd = sv.subrange(i + 1, j as int + 1);
                assert(prefd.drop_last() =~= pref);
                assert(prefd.last() == sv[j as int]);
                assert(all_digits(pref));
                lemma_digits_val_bounds(pref);
                if k < FRAC_DIGITS {
                    lemma_pow10_frac_bound(pref.len());
                    lemma_pow10_monotone(pref.len() + 1, FRAC_DIGITS as nat);
                    assert(pow10(pref.len() + 1) == 10 * pow10(pref.len()));
                    lemma_pow10_scale();
                }
            }
            if k < FRAC_DIGITS {
                facc = facc * 10 + d;
            }
            k = k + 1;
            j = j + 1;
        }
        proof {
            assert(frac_part(sv) =~= sv.subrange(i + 1, n as int));
            if k > FRAC_DIGITS {
                assert(frac_part(sv).take(FRAC_DIGITS as int) =~= sv.subrange(
                    i + 1,
                    i + 1 + FRAC_DIGITS as int,
                ));
            }
        }
    } else {
        proof {
            assert(frac_part(sv) =~= Seq::<char>::empty());
        }
    }

    // At least one digit somewhere.
    if i == 0 && k == 0 {
        return None;
    }

    // Scale the fractional digits to full resolution.
    let mult: u64 = if k >= FRAC_DIGITS {
        1
    } else {
        pow10_exec(FRAC_DIGITS - k)
    };
    proof {
        if k <= FRAC_DIGITS {
            lemma_pow10_pos((FRAC_DIGITS - k) as nat);
            lemma_pow10_frac_bound((FRAC_DIGITS - k) as nat);
            lemma_digits_val_bounds(frac_part(sv));
            lemma_pow10_frac_bound(frac_part(sv).len());
            assert(digits_val(frac_part(sv)) * mult <= (pow10(frac_part(sv).len()) - 1) * pow10(
                (FRAC_DIGITS - k) as nat,
            )) by (nonlinear_arith)
                requires
                    0 <= digits_val(frac_part(sv)) <= pow10(frac_part(sv).len()) - 1,
                    mult == pow10((FRAC_DIGITS - k) as nat),
                    mult >= 1,
            ;
            assert(pow10(frac_part(sv).len()) * pow10((FRAC_DIGITS - k) as nat) == pow10(
                FRAC_DIGITS as nat,
            )) by {
                lemma_pow10_add(frac_part(sv).len(), (FRAC_DIGITS - k) as nat);
            }
            lemma_pow10_scale();
            assert((pow10(frac_part(sv).len()) - 1) * pow10((FRAC_DIGITS - k) as nat) <= SCALE
                - mult) by (nonlinear_arith)
                requires
                    pow10(frac_part(sv).len()) * pow10((FRAC_DIGITS - k) as nat) == SCALE as int,
                    mult == pow10((FRAC_DIGITS - k) as nat),
            ;
        } else {
            lemma_digits_val_bounds(frac_part(sv).take(FRAC_DIGITS as int));
            lemma_pow10_scale();
        }
        assert(frac_scaled(frac_part(sv)) < SCALE as int);
    }
    let fval: u64 = facc * mult;
    assert(fval == frac_scaled(frac_part(sv)));

    let total: u128 = (acc as u128) * (SCALE as u128) + (fval as u128);
    proof {
        let iv = digits_val(int_part(sv));
        lemma_digits_val_bounds(int_part(sv));
        if iv > MAX_SCALED as int {
            assert(iv * (SCALE as int) + frac_scaled(frac_part(sv)) > MAX_SCALED as int)
                by (nonlinear_arith)
                requires
                    iv > MAX_SCALED as int,
                    SCALE >= 1,
                    frac_scaled(frac_part(sv)) >= 0,
                    MAX_SCALED >= 0,
            ;
            assert((MAX_SCALED + 1) as int * (SCALE as int) > MAX_SCALED as int)
                by (nonlinear_arith);
        }
        assert(decimal_grammar_ok(sv));
    }
    if total <= MAX_SCALED as u128 {
        Some(total as u64)
    } else {
        None
    }
}

proof fn lemma_pow10_add(a: nat, b: nat)
    ensures
        pow10(a) * pow10(b) == pow10((a + b) as nat),
    decreases a,
{
    if a == 0 {
    } else {
        lemma_pow10_add((a - 1) as nat, b);
        assert(pow10(a) * pow10(b) == 10 * (pow10((a - 1) as nat) * pow10(b)))
            by (nonlinear_arith)
            requires
                pow10(a) == 10 * pow10((a - 1) as nat),
        ;
    }
}

} // verus!
