//! Parsing of single tokens and aggregation of token lists.
//!
//! A token is matched against two grammars in turn. The signed-duration
//! grammar is `(-)?<digits><unit>` with `<unit>` one of `w`, `d`, `h`, `m`.
//! The clock-interval grammar is `<start>-<end>`, split on the first `-`,
//! where each side is `H`, `HH`, `H:MM` or `HH:MM` with the hour in
//! `0..=23` and the minute in `0..=59`; the interval's value is
//! `end - start`, in minutes, and a negative span does not match.
//! A token that matches neither grammar is reported verbatim in a
//! [`TimecalcError::ParseError`].

use vstd::prelude::*;

use crate::Duration;
use crate::TimecalcError;
use crate::MINUTES_PER_DAY;
use crate::MINUTES_PER_HOUR;
use crate::MINUTES_PER_WEEK;
use vstd::string::StrSliceExecFns;

verus! {

/// Whether `c` is a decimal digit.
pub open spec fn is_digit_char(c: char) -> bool {
    '0' as int <= c as int <= '9' as int
}

/// The numeric value of a decimal digit.
pub open spec fn digit_val(c: char) -> int {
    c as int - '0' as int
}

/// Whether every character of `s` is a decimal digit.
pub open spec fn all_digits(s: Seq<char>) -> bool {
    forall|i: int| 0 <= i < s.len() ==> is_digit_char(#[trigger] s[i])
}

/// The value of a string of decimal digits, most significant first.
pub open spec fn digits_val(s: Seq<char>) -> int
    decreases s.len(),
{
    if s.len() == 0 {
        0
    } else {
        digits_val(s.drop_last()) * 10 + digit_val(s.last())
    }
}

/// Whether `c` names a duration unit.
pub open spec fn is_unit_char(c: char) -> bool {
    c == 'w' || c == 'd' || c == 'h' || c == 'm'
}

/// How many minutes one unit of `c` spans.
pub open spec fn unit_minutes(c: char) -> int {
    if c == 'w' {
        MINUTES_PER_WEEK as int
    } else if c == 'd' {
        MINUTES_PER_DAY as int
    } else if c == 'h' {
        MINUTES_PER_HOUR as int
    } else {
        1
    }
}

/// Whether `s` is a base-10 integer numeral: one or more digits,
/// optionally preceded by a single `-`.
pub open spec fn is_signed_numeral(s: Seq<char>) -> bool {
    if s.len() > 0 && s[0] == '-' {
        s.len() >= 2 && all_digits(s.subrange(1, s.len() as int))
    } else {
        s.len() >= 1 && all_digits(s)
    }
}

/// The integer a signed numeral denotes.
pub open spec fn signed_numeral_val(s: Seq<char>) -> int {
    if s.len() > 0 && s[0] == '-' {
        -digits_val(s.subrange(1, s.len() as int))
    } else {
        digits_val(s)
    }
}

/// Whether `s` matches the signed-duration grammar `(-)?<digits><unit>`.
pub open spec fn is_duration_token(s: Seq<char>) -> bool {
    s.len() >= 2 && is_unit_char(s.last()) && is_signed_numeral(s.drop_last())
}

/// The minutes a signed-duration token denotes, as a mathematical
/// integer (the numeral times the unit's minutes, sign preserved).
pub open spec fn duration_token_minutes(s: Seq<char>) -> int {
    signed_numeral_val(s.drop_last()) * unit_minutes(s.last())
}

/// Whether a mathematical integer is representable as an `i64`.
pub open spec fn fits_i64(v: int) -> bool {
    i64::MIN <= v <= i64::MAX
}

/// Whether `s` is an hour field: `H` or `HH` with value in `0..=23`.
pub open spec fn is_hour_field(s: Seq<char>) -> bool {
    (s.len() == 1 && all_digits(s)) || (s.len() == 2 && all_digits(s) && digits_val(s) <= 23)
}

/// Whether `s` is a minute field: exactly `MM` with value in `0..=59`.
pub open spec fn is_minute_field(s: Seq<char>) -> bool {
    s.len() == 2 && all_digits(s) && digits_val(s) <= 59
}

/// Whether `s` is one side of an interval: an hour field optionally
/// followed by `:` and a minute field.
pub open spec fn is_time_part(s: Seq<char>) -> bool {
    is_hour_field(s) || (4 <= s.len() <= 5 && s[s.len() - 3] == ':' && is_hour_field(
        s.subrange(0, s.len() - 3),
    ) && is_minute_field(s.subrange(s.len() - 2, s.len() as int)))
}

/// The minutes since midnight a time part denotes.
pub open spec fn time_part_minutes(s: Seq<char>) -> int {
    if is_hour_field(s) {
        digits_val(s) * 60
    } else {
        digits_val(s.subrange(0, s.len() - 3)) * 60 + digits_val(
            s.subrange(s.len() - 2, s.len() as int),
        )
    }
}

/// Whether `p` is the index of the first `-` in `s`.
pub open spec fn is_first_dash(s: Seq<char>, p: int) -> bool {
    0 <= p < s.len() && s[p] == '-' && (forall|i: int| 0 <= i < p ==> (#[trigger] s[i]) != '-')
}

/// Whether splitting `s` at its first `-`, at index `p`, yields two
/// time parts whose span is non-negative.
pub open spec fn is_interval_split(s: Seq<char>, p: int) -> bool {
    &&& is_first_dash(s, p)
    &&& is_time_part(s.subrange(0, p))
    &&& is_time_part(s.subrange(p + 1, s.len() as int))
    &&& time_part_minutes(s.subrange(0, p)) <= time_part_minutes(
        s.subrange(p + 1, s.len() as int),
    )
}

/// Whether `s` matches the clock-interval grammar.
pub open spec fn is_interval_token(s: Seq<char>) -> bool {
    exists|p: int| is_interval_split(s, p)
}

/// The minutes a clock-interval token denotes: end minus start.
pub open spec fn interval_token_minutes(s: Seq<char>) -> int {
    let p = choose|p: int| is_interval_split(s, p);
    time_part_minutes(s.subrange(p + 1, s.len() as int)) - time_part_minutes(s.subrange(0, p))
}

/// What one token denotes: `Some` minutes when it matches a grammar
/// and the value is representable, `None` otherwise. The
/// signed-duration grammar is tried first; an interval whose span
/// would be negative matches neither grammar.
pub open spec fn token_minutes(s: Seq<char>) -> Option<int> {
    if is_duration_token(s) {
        if fits_i64(duration_token_minutes(s)) {
            Some(duration_token_minutes(s))
        } else {
            None
        }
    } else if is_interval_token(s) {
        Some(interval_token_minutes(s))
    } else {
        None
    }
}

/// Folds the tokens left to right, adding each token's minutes to
/// `acc`: the total on success, otherwise the first token that fails
/// to parse or whose addition would leave the `i64` range.
pub open spec fn fold_tokens(tokens: Seq<Seq<char>>, acc: int) -> Result<int, Seq<char>>
    decreases tokens.len(),
{
    if tokens.len() == 0 {
        Ok(acc)
    } else {
        match token_minutes(tokens[0]) {
            Some(v) => if fits_i64(acc + v) {
                fold_tokens(tokens.skip(1), acc + v)
            } else {
                Err(tokens[0])
            },
            None => Err(tokens[0]),
        }
    }
}

/// What a token list denotes: its total in minutes, or the first
/// failing token.
pub open spec fn total_minutes(tokens: Seq<Seq<char>>) -> Result<int, Seq<char>> {
    fold_tokens(tokens, 0)
}

spec fn pow10(n: nat) -> int
    decreases n,
{
    if n == 0 {
        1
    } else {
        10 * pow10((n - 1) as nat)
    }
}

proof fn lemma_pow10_bounds()
    ensures
        pow10(18) == 1_000_000_000_000_000_000,
        pow10(19) == 10_000_000_000_000_000_000,
{
    reveal_with_fuel(pow10, 21);
}

proof fn lemma_pow10_mono(a: nat, b: nat)
    requires
        a <= b,
    ensures
        pow10(a) <= pow10(b),
        pow10(a) >= 1,
    decreases b,
{
    if a == b {
        if b > 0 {
            lemma_pow10_mono((a - 1) as nat, (b - 1) as nat);
        }
    } else {
        lemma_pow10_mono(a, (b - 1) as nat);
    }
}

proof fn lemma_digits_val_bounds(s: Seq<char>)
    requires
        all_digits(s),
    ensures
        0 <= digits_val(s) < pow10(s.len()),
    decreases s.len(),
{
    if s.len() == 0 {
    } else {
        assert(all_digits(s.drop_last()));
        lemma_digits_val_bounds(s.drop_last());
        assert(is_digit_char(s.last()));
    }
}

proof fn lemma_digits_val_lower(s: Seq<char>)
    requires
        all_digits(s),
        s.len() >= 1,
        s[0] != '0',
    ensures
        digits_val(s) >= pow10((s.len() - 1) as nat),
    decreases s.len(),
{
    if s.len() == 1 {
        assert(is_digit_char(s[0]));
        assert(digit_val(s[0]) >= 1);
    } else {
        assert(all_digits(s.drop_last()));
        lemma_digits_val_lower(s.drop_last());
        lemma_digits_val_bounds(s.drop_last());
        assert(is_digit_char(s.last()));
        assert(digit_val(s.last()) >= 0);
        assert(pow10((s.len() - 1) as nat) == 10 * pow10((s.len() - 2) as nat));
        assert(digits_val(s.drop_last()) >= pow10((s.len() - 2) as nat));
    }
}

proof fn lemma_digits_val_all_zeros(s: Seq<char>)
    requires
        forall|i: int| 0 <= i < s.len() ==> (#[trigger] s[i]) == '0',
    ensures
        digits_val(s) == 0,
    decreases s.len(),
{
    if s.len() > 0 {
        lemma_digits_val_all_zeros(s.drop_last());
        assert(s.last() == '0');
        assert(digit_val('0') == 0);
    }
}

proof fn lemma_digits_val_skip_zeros(s: Seq<char>, k: int)
    requires
        0 <= k <= s.len(),
        forall|i: int| 0 <= i < k ==> (#[trigger] s[i]) == '0',
    ensures
        digits_val(s.subrange(k, s.len() as int)) == digits_val(s),
    decreases s.len(),
{
    if k == s.len() {
        lemma_digits_val_all_zeros(s);
        assert(s.subrange(k, s.len() as int) =~= Seq::<char>::empty());
    } else if k == 0 {
        assert(s.subrange(0, s.len() as int) =~= s);
    } else {
        lemma_digits_val_skip_zeros(s.drop_last(), k);
        assert(s.subrange(k, s.len() as int).drop_last() =~= s.drop_last().subrange(
            k,
            s.len() - 1,
        ));
        assert(s.subrange(k, s.len() as int).last() == s.last());
    }
}

/// The numeric value of a digit character, `None` for any other
/// character.
fn digit_value(c: char) -> (r: Option<u8>)
    ensures
        (match r {
            Some(v) => is_digit_char(c) && v == digit_val(c) && v <= 9,
            None => !is_digit_char(c),
        }),
{
    match c {
        '0' => Some(0),
        '1' => Some(1),
        '2' => Some(2),
        '3' => Some(3),
        '4' => Some(4),
        '5' => Some(5),
        '6' => Some(6),
        '7' => Some(7),
        '8' => Some(8),
        '9' => Some(9),
        _ => None,
    }
}

/// The index of the first character in `arg[start..end]` that is not
/// `0`, or `end` when there is none.
#[verifier::loop_isolation(false)]
fn skip_zeros(arg: &str, start: usize, end: usize) -> (z: usize)
    requires
        start <= end <= arg@.len(),
    ensures
        start <= z <= end,
        forall|j: int| start <= j < z ==> (#[trigger] arg@[j]) == '0',
        z < end ==> arg@[z as int] != '0',
{
    let mut z: usize = start;
    while z < end
        invariant
            start <= z <= end <= arg@.len(),
            forall|j: int| start <= j < z ==> (#[trigger] arg@[j]) == '0',
        decreases end - z,
    {
        if arg.get_char(z) != '0' {
            return z;
        }
        z = z + 1;
    }
    z
}

/// Parse a token of the signed-duration grammar `(-)?<digits><unit>`
/// into the duration it denotes. `None` when the token does not match
/// the grammar or its value does not fit a 64-bit count of minutes.
#[verifier::loop_isolation(false)]
pub fn parse_duration_expression(arg: &str) -> (r: Option<Duration>)
    ensures
        (match r {
            Some(d) => is_duration_token(arg@) && fits_i64(duration_token_minutes(arg@)) && d@
                == duration_token_minutes(arg@),
            None => !(is_duration_token(arg@) && fits_i64(duration_token_minutes(arg@))),
        }),
{
    let n = arg.unicode_len();
    if n < 2 {
        return None;
    }
    let unit = arg.get_char(n - 1);
    let mult: u64 = match unit {
        'w' => 10080,
        'd' => 1440,
        'h' => 60,
        'm' => 1,
        _ => {
            proof {
                assert(!is_unit_char(arg@.last()));
            }
            return None;
        },
    };
    proof {
        assert(arg@.last() == unit);
        assert(unit_minutes(arg@.last()) == mult);
    }
    let ghost numeral = arg@.drop_last();
    let neg = arg.get_char(0) == '-';
    let start: usize = if neg { 1 } else { 0 };
    if n - 1 <= start {
        proof {
            assert(!is_signed_numeral(numeral));
        }
        return None;
    }
    // every character of the numeral must be a digit
    let mut i: usize = start;
    while i < n - 1
        invariant
            start <= i <= n - 1 < n == arg@.len(),
            forall|j: int| start <= j < i ==> is_digit_char(#[trigger] arg@[j]),
        decreases n - 1 - i,
    {
        if digit_value(arg.get_char(i)).is_none() {
            proof {
                assert(!is_digit_char(arg@[i as int]));
                if neg {
                    assert(numeral.subrange(1, numeral.len() as int)[i - 1] == arg@[i as int]);
                } else {
                    assert(numeral[i as int] == arg@[i as int]);
                }
                assert(!is_signed_numeral(numeral));
            }
            return None;
        }
        i = i + 1;
    }
    proof {
        if neg {
            assert(numeral.subrange(1, numeral.len() as int) =~= arg@.subrange(1, n - 1));
            assert(all_digits(arg@.subrange(1, n - 1)));
        } else {
            assert(numeral =~= arg@.subrange(0, n - 1));
            assert(all_digits(numeral));
        }
        assert(is_signed_numeral(numeral));
        assert(is_duration_token(arg@));
    }
    let ghost digits = arg@.subrange(start as int, n - 1);
    proof {
        assert(all_digits(digits));
        assert(signed_numeral_val(numeral) == if neg {
            -digits_val(digits)
        } else {
            digits_val(digits)
        });
    }
    // skip leading zeros; too many significant digits cannot fit an i64
    let z = skip_zeros(arg, start, n - 1);
    let ghost sig = arg@.subrange(z as int, n - 1);
    proof {
        assert(sig =~= digits.subrange(z - start, digits.len() as int));
        lemma_digits_val_skip_zeros(digits, z - start);
        assert(digits_val(sig) == digits_val(digits));
    }
    if n - 1 - z > 19 {
        proof {
            assert(sig[0] == arg@[z as int]);
            assert(sig[0] != '0');
            assert(all_digits(sig));
            lemma_digits_val_lower(sig);
            lemma_pow10_bounds();
            lemma_pow10_mono(19, (sig.len() - 1) as nat);
            assert(digits_val(digits) >= 10_000_000_000_000_000_000);
            let v = signed_numeral_val(numeral);
            let u = unit_minutes(arg@.last());
            assert(u >= 1);
            assert(duration_token_minutes(arg@) == v * u);
            if neg {
                assert(v * u <= v * 1) by (nonlinear_arith)
                    requires
                        u >= 1,
                        v <= 0,
                ;
            } else {
                assert(v * u >= v * 1) by (nonlinear_arith)
                    requires
                        u >= 1,
                        v >= 0,
                ;
            }
            assert(!fits_i64(duration_token_minutes(arg@)));
        }
        return None;
    }
    // accumulate the significant digits
    let mut mag: u64 = 0;
    let mut i: usize = z;
    while i < n - 1
        invariant
            z <= i <= n - 1 < n == arg@.len(),
            n - 1 - z <= 19,
            sig == arg@.subrange(z as int, n - 1),
            all_digits(sig),
            forall|j: int| start <= j < n - 1 ==> is_digit_char(#[trigger] arg@[j]),
            start <= z,
            mag == digits_val(arg@.subrange(z as int, i as int)),
            mag < pow10((i - z) as nat),
        decreases n - 1 - i,
    {
        let d = match digit_value(arg.get_char(i)) {
            Some(d) => d,
            None => {
                proof {
                    assert(is_digit_char(arg@[i as int]));
                }
                // a digit was already seen at this index
                return None;
            },
        };
        proof {
            lemma_pow10_mono((i - z) as nat, 18);
            lemma_pow10_bounds();
            assert(mag <= 999_999_999_999_999_999);
            let pre = arg@.subrange(z as int, i as int);
            let cur = arg@.subrange(z as int, i + 1);
            assert(cur.drop_last() =~= pre);
            assert(cur.last() == arg@[i as int]);
            assert(digits_val(cur) == digits_val(pre) * 10 + digit_val(arg@[i as int]));
        }
        mag = mag * 10 + (d as u64);
        i = i + 1;
    }
    proof {
        assert(arg@.subrange(z as int, n - 1) == sig);
        assert(mag == digits_val(digits));
        lemma_digits_val_bounds(digits);
    }
    // apply the unit and the sign, rejecting values outside i64
    let prod: u128 = (mag as u128) * (mult as u128);
    proof {
        assert((mag as u128) * (mult as u128) <= 0xFFFF_FFFF_FFFF_FFFFu128 * 10080u128)
            by (nonlinear_arith)
            requires
                mag as u128 <= 0xFFFF_FFFF_FFFF_FFFFu128,
                mult as u128 <= 10080u128,
        ;
        assert(prod == mag * mult);
        let v = signed_numeral_val(numeral);
        let u = unit_minutes(arg@.last());
        if neg {
            assert(v == -(mag as int));
            assert(v * u == -((mag as int) * (u as int))) by (nonlinear_arith)
                requires
                    v == -(mag as int),
            ;
            assert(duration_token_minutes(arg@) == -(prod as int));
        } else {
            assert(duration_token_minutes(arg@) == prod as int);
        }
    }
    if neg {
        if prod > 9_223_372_036_854_775_808u128 {
            return None;
        }
        let m: i64 = if prod == 9_223_372_036_854_775_808u128 {
            i64::MIN
        } else {
            -(prod as i64)
        };
        Some(Duration::minutes(m))
    } else {
        if prod > 9_223_372_036_854_775_807u128 {
            return None;
        }
        Some(Duration::minutes(prod as i64))
    }
}

/// Parse one side of an interval, `H`, `HH`, `H:MM` or `HH:MM`, into
/// its minutes since midnight.
pub fn parse_interval_part(input: &str) -> (r: Option<Duration>)
    ensures
        (match r {
            Some(d) => is_time_part(input@) && d@ == time_part_minutes(input@) && 0 <= d@ <= 1439,
            None => !is_time_part(input@),
        }),
{
    proof {
        reveal_with_fuel(digits_val, 4);
    }
    let n = input.unicode_len();
    if n == 1 {
        match digit_value(input.get_char(0)) {
            Some(d) => Some(Duration::minutes((d as i64) * 60)),
            None => None,
        }
    } else if n == 2 {
        let d0 = match digit_value(input.get_char(0)) {
            Some(d) => d,
            None => {
                return None;
            },
        };
        let d1 = match digit_value(input.get_char(1)) {
            Some(d) => d,
            None => {
                return None;
            },
        };
        let hour: i64 = (d0 as i64) * 10 + (d1 as i64);
        proof {
            assert(input@.drop_last().drop_last() =~= Seq::<char>::empty());
            assert(digits_val(input@) == hour);
        }
        if hour <= 23 {
            Some(Duration::minutes(hour * 60))
        } else {
            None
        }
    } else if n == 4 {
        if input.get_char(1) != ':' {
            return None;
        }
        let d0 = match digit_value(input.get_char(0)) {
            Some(d) => d,
            None => {
                proof {
                    assert(input@.subrange(0, 1)[0] == input@[0]);
                }
                return None;
            },
        };
        let d2 = match digit_value(input.get_char(2)) {
            Some(d) => d,
            None => {
                proof {
                    assert(input@.subrange(2, 4)[0] == input@[2]);
                }
                return None;
            },
        };
        let d3 = match digit_value(input.get_char(3)) {
            Some(d) => d,
            None => {
                proof {
                    assert(input@.subrange(2, 4)[1] == input@[3]);
                }
                return None;
            },
        };
        let minute: i64 = (d2 as i64) * 10 + (d3 as i64);
        proof {
            let hf = input@.subrange(0, 1);
            assert(hf.drop_last() =~= Seq::<char>::empty());
            assert(digits_val(hf) == d0);
            let mf = input@.subrange(2, 4);
            assert(mf.drop_last().drop_last() =~= Seq::<char>::empty());
            assert(mf.drop_last()[0] == input@[2]);
            assert(digits_val(mf) == minute);
        }
        if minute <= 59 {
            Some(Duration::minutes((d0 as i64) * 60 + minute))
        } else {
            None
        }
    } else if n == 5 {
        if input.get_char(2) != ':' {
            return None;
        }
        let d0 = match digit_value(input.get_char(0)) {
            Some(d) => d,
            None => {
                proof {
                    assert(input@.subrange(0, 2)[0] == input@[0]);
                }
                return None;
            },
        };
        let d1 = match digit_value(input.get_char(1)) {
            Some(d) => d,
            None => {
                proof {
                    assert(input@.subrange(0, 2)[1] == input@[1]);
                }
                return None;
            },
        };
        let d3 = match digit_value(input.get_char(3)) {
            Some(d) => d,
            None => {
                proof {
                    assert(input@.subrange(3, 5)[0] == input@[3]);
                }
                return None;
            },
        };
        let d4 = match digit_value(input.get_char(4)) {
            Some(d) => d,
            None => {
                proof {
                    assert(input@.subrange(3, 5)[1] == input@[4]);
                }
                return None;
            },
        };
        let hour: i64 = (d0 as i64) * 10 + (d1 as i64);
        let minute: i64 = (d3 as i64) * 10 + (d4 as i64);
        proof {
            let hf = input@.subrange(0, 2);
            assert(hf.drop_last().drop_last() =~= Seq::<char>::empty());
            assert(hf.drop_last()[0] == input@[0]);
            assert(digits_val(hf) == hour);
            let mf = input@.subrange(3, 5);
            assert(mf.drop_last().drop_last() =~= Seq::<char>::empty());
            assert(mf.drop_last()[0] == input@[3]);
            assert(digits_val(mf) == minute);
        }
        if hour <= 23 && minute <= 59 {
            Some(Duration::minutes(hour * 60 + minute))
        } else {
            None
        }
    } else {
        None
    }
}

/// The index of the first `-` in `input`, if any.
#[verifier::loop_isolation(false)]
fn find_first_dash(input: &str) -> (r: Option<usize>)
    ensures
        (match r {
            Some(p) => is_first_dash(input@, p as int),
            None => forall|i: int| 0 <= i < input@.len() ==> (#[trigger] input@[i]) != '-',
        }),
{
    let n = input.unicode_len();
    let mut i: usize = 0;
    while i < n
        invariant
            0 <= i <= n,
            forall|j: int| 0 <= j < i ==> (#[trigger] input@[j]) != '-',
        decreases n - i,
    {
        if input.get_char(i) == '-' {
            return Some(i);
        }
        i = i + 1;
    }
    None
}

proof fn lemma_first_dash_unique(s: Seq<char>, p1: int, p2: int)
    requires
        is_first_dash(s, p1),
        is_first_dash(s, p2),
    ensures
        p1 == p2,
{
    if p1 < p2 {
        assert(s[p1] != '-');
    }
    if p2 < p1 {
        assert(s[p2] != '-');
    }
}

/// Parse a token of the clock-interval grammar `start-end` into the
/// span between the two times of day. `None` when the token does not
/// match, including when the span would be negative.
pub fn parse_interval_expression(input: &str) -> (r: Option<Duration>)
    ensures
        (match r {
            Some(d) => is_interval_token(input@) && d@ == interval_token_minutes(input@) && 0 <= d@
                <= 1439,
            None => !is_interval_token(input@),
        }),
{
    let n = input.unicode_len();
    let p = match find_first_dash(input) {
        Some(p) => p,
        None => {
            proof {
                if is_interval_token(input@) {
                    let q = choose|q: int| is_interval_split(input@, q);
                    assert(input@[q] == '-');
                }
            }
            return None;
        },
    };
    let start_str = input.substring_char(0, p);
    let end_str = input.substring_char(p + 1, n);
    let s_part = parse_interval_part(start_str);
    let e_part = parse_interval_part(end_str);
    if let (Some(s_d), Some(e_d)) = (s_part, e_part) {
        let diff = e_d.num_minutes() - s_d.num_minutes();
        if diff >= 0 {
            proof {
                assert(is_interval_split(input@, p as int));
                let q = choose|q: int| is_interval_split(input@, q);
                lemma_first_dash_unique(input@, q, p as int);
            }
            Some(Duration::minutes(diff))
        } else {
            proof {
                if is_interval_token(input@) {
                    let q = choose|q: int| is_interval_split(input@, q);
                    lemma_first_dash_unique(input@, q, p as int);
                }
            }
            None
        }
    } else {
        proof {
            if is_interval_token(input@) {
                let q = choose|q: int| is_interval_split(input@, q);
                lemma_first_dash_unique(input@, q, p as int);
                assert(s_part is Some);
                assert(e_part is Some);
            }
        }
        None
    }
}

proof fn lemma_time_part_last_digit(s: Seq<char>)
    requires
        is_time_part(s),
    ensures
        s.len() >= 1,
        is_digit_char(s.last()),
{
    if is_hour_field(s) {
    } else {
        let mf = s.subrange(s.len() - 2, s.len() as int);
        assert(mf[1] == s.last());
        assert(is_digit_char(mf[1]));
    }
}

proof fn lemma_grammars_disjoint(s: Seq<char>)
    requires
        is_duration_token(s),
    ensures
        !is_interval_token(s),
{
    if is_interval_token(s) {
        let p = choose|p: int| is_interval_split(s, p);
        let end = s.subrange(p + 1, s.len() as int);
        lemma_time_part_last_digit(end);
        assert(end.last() == s.last());
        assert(is_unit_char(s.last()));
    }
}

/// Whether `r` is what parsing the token `s` must return: the token's
/// minutes on a match, otherwise the error carrying `s` verbatim.
pub open spec fn parse_post(s: Seq<char>, r: Result<Duration, TimecalcError>) -> bool {
    match r {
        Ok(d) => token_minutes(s) == Some(d@),
        Err(e) => token_minutes(s) is None && (match e {
            TimecalcError::ParseError(t) => t@ == s,
        }),
    }
}

/// Parse one token: the signed-duration grammar is tried first, then
/// the clock-interval grammar; a token matching neither is returned
/// verbatim inside the error.
pub fn parse_expression(arg: &str) -> (r: Result<Duration, TimecalcError>)
    ensures
        parse_post(arg@, r),
{
    if let Some(d) = parse_duration_expression(arg) {
        return Ok(d);
    }
    if let Some(d) = parse_interval_expression(arg) {
        proof {
            if is_duration_token(arg@) {
                lemma_grammars_disjoint(arg@);
            }
        }
        return Ok(d);
    }
    Err(TimecalcError::ParseError(arg.to_owned()))
}

/// Parse a list of tokens and sum their durations, stopping at the
/// first token that fails to parse or whose addition would leave the
/// range of a 64-bit count of minutes.
#[verifier::loop_isolation(false)]
pub fn parse_expressions(args: &[&str]) -> (r: Result<Duration, TimecalcError>)
    ensures
        (match r {
            Ok(d) => total_minutes(args.deep_view()) == Ok::<int, Seq<char>>(d@),
            Err(e) => (match e {
                TimecalcError::ParseError(t) => total_minutes(args.deep_view()) == Err::<
                    int,
                    Seq<char>,
                >(t@),
            }),
        }),
{
    let ghost toks = args.deep_view();
    proof {
        assert(toks.skip(0) =~= toks);
    }
    let mut total: i64 = 0;
    let n = args.len();
    let mut i: usize = 0;
    while i < n
        invariant
            0 <= i <= n == args@.len(),
            fold_tokens(toks, 0) == fold_tokens(toks.skip(i as int), total as int),
        decreases n - i,
    {
        let arg = args[i];
        proof {
            assert(toks.skip(i as int)[0] == arg@);
        }
        match parse_expression(arg) {
            Ok(d) => {
                let v = d.num_minutes();
                match total.checked_add(v) {
                    Some(t) => {
                        proof {
                            assert(toks.skip(i as int).skip(1) =~= toks.skip(i + 1));
                        }
                        total = t;
                    },
                    None => {
                        return Err(TimecalcError::ParseError(arg.to_owned()));
                    },
                }
            },
            Err(e) => {
                return Err(e);
            },
        }
        i = i + 1;
    }
    proof {
        assert(toks.skip(n as int) =~= Seq::<Seq<char>>::empty());
    }
    Ok(Duration::minutes(total))
}

/// A valid signed-duration token denotes its numeral times its unit's
/// minutes, sign preserved.
pub proof fn lemma_duration_token_value(s: Seq<char>)
    requires
        is_duration_token(s),
        fits_i64(duration_token_minutes(s)),
    ensures
        token_minutes(s) == Some(signed_numeral_val(s.drop_last()) * unit_minutes(s.last())),
{
}

/// A well-formed interval token whose end is no earlier than its
/// start denotes the end's minutes since midnight minus the start's.
pub proof fn lemma_interval_token_value(s: Seq<char>, p: int)
    requires
        is_interval_split(s, p),
    ensures
        token_minutes(s) == Some(
            time_part_minutes(s.subrange(p + 1, s.len() as int)) - time_part_minutes(
                s.subrange(0, p),
            ),
        ),
{
    let end = s.subrange(p + 1, s.len() as int);
    lemma_time_part_last_digit(end);
    assert(end.last() == s.last());
    assert(!is_unit_char(s.last()));
    assert(!is_duration_token(s));
    assert(is_interval_token(s));
    let q = choose|q: int| is_interval_split(s, q);
    lemma_first_dash_unique(s, q, p);
}

/// An empty token list aggregates to a total of zero minutes.
pub proof fn lemma_aggregate_empty()
    ensures
        total_minutes(Seq::<Seq<char>>::empty()) == Ok::<int, Seq<char>>(0),
{
}

/// Aggregation never looks past the first failing token: two lists
/// that agree up to and including a token that parses as nothing
/// aggregate to the same error, whatever follows that token in
/// either list.
pub proof fn lemma_aggregate_stops_at_failure(
    t1: Seq<Seq<char>>,
    t2: Seq<Seq<char>>,
    i: int,
    acc: int,
)
    requires
        0 <= i < t1.len(),
        i < t2.len(),
        forall|j: int| 0 <= j <= i ==> t1[j] == t2[j],
        token_minutes(t1[i]) is None,
    ensures
        fold_tokens(t1, acc) == fold_tokens(t2, acc),
        fold_tokens(t1, acc) is Err,
    decreases i,
{
    assert(t1[0] == t2[0]);
    if i == 0 {
    } else {
        match token_minutes(t1[0]) {
            Some(v) => {
                if fits_i64(acc + v) {
                    assert(forall|j: int|
                        0 <= j <= i - 1 ==> (#[trigger] t1.skip(1)[j]) == t2.skip(1)[j]);
                    assert(t1.skip(1)[i - 1] == t1[i]);
                    lemma_aggregate_stops_at_failure(t1.skip(1), t2.skip(1), i - 1, acc + v);
                }
            },
            None => {
            },
        }
    }
}

/// Parsing is a pure function of the token: any two results that meet
/// the parsing contract for the same token are the same value.
pub proof fn lemma_parse_deterministic(
    s: Seq<char>,
    r1: Result<Duration, TimecalcError>,
    r2: Result<Duration, TimecalcError>,
)
    requires
        parse_post(s, r1),
        parse_post(s, r2),
    ensures
        (match (r1, r2) {
            (Ok(d1), Ok(d2)) => d1@ == d2@,
            (Err(e1), Err(e2)) => (match (e1, e2) {
                (TimecalcError::ParseError(t1), TimecalcError::ParseError(t2)) => t1@ == t2@,
            }),
            _ => false,
        }),
{
}

} // verus!
