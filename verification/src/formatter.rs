//! Rendering of a total duration as a compact string.
//!
//! A total is decomposed into weeks, days, hours and minutes with
//! truncating division, so every component carries the sign of the
//! total. Each non-zero component is rendered as `{value}{unit}` in
//! order `w`, `d`, `h`, `m`, space-separated; a zero total renders as
//! `0m`.

use vstd::prelude::*;

use crate::parser::all_digits;
use crate::parser::digits_val;
use crate::parser::duration_token_minutes;
use crate::parser::fits_i64;
use crate::parser::fold_tokens;
use crate::parser::is_digit_char;
use crate::parser::is_duration_token;
use crate::parser::is_signed_numeral;
use crate::parser::signed_numeral_val;
use crate::parser::token_minutes;
use crate::parser::total_minutes;
use crate::parser::unit_minutes;
use crate::Duration;
use vstd::arithmetic::div_mod::lemma_fundamental_div_mod_converse;
use vstd::string::StringExecFns;

verus! {

/// The digit character for a value in `0..=9`.
pub open spec fn digit_char(n: int) -> char {
    if n == 0 {
        '0'
    } else if n == 1 {
        '1'
    } else if n == 2 {
        '2'
    } else if n == 3 {
        '3'
    } else if n == 4 {
        '4'
    } else if n == 5 {
        '5'
    } else if n == 6 {
        '6'
    } else if n == 7 {
        '7'
    } else if n == 8 {
        '8'
    } else {
        '9'
    }
}

/// The decimal digits of a non-negative integer, most significant
/// first.
pub open spec fn dec_digits(n: int) -> Seq<char>
    decreases n,
{
    if n <= 9 {
        seq![digit_char(n)]
    } else {
        dec_digits(n / 10) + seq![digit_char(n % 10)]
    }
}

/// The decimal rendering of an integer, with a leading `-` when it is
/// negative.
pub open spec fn dec_str(v: int) -> Seq<char> {
    if v < 0 {
        seq!['-'] + dec_digits(-v)
    } else {
        dec_digits(v)
    }
}

/// The absolute value of an integer.
pub open spec fn magnitude(m: int) -> int {
    if m < 0 {
        -m
    } else {
        m
    }
}

/// Gives `c` the sign of `m`, matching truncating division of `m`
/// by a positive unit.
pub open spec fn signed_comp(m: int, c: int) -> int {
    if m < 0 {
        -c
    } else {
        c
    }
}

/// The whole weeks in a total of `m` minutes, truncated toward zero.
pub open spec fn weeks_of(m: int) -> int {
    signed_comp(m, magnitude(m) / 10080)
}

/// The day component of a total of `m` minutes.
pub open spec fn days_of(m: int) -> int {
    signed_comp(m, (magnitude(m) / 1440) % 7)
}

/// The hour component of a total of `m` minutes.
pub open spec fn hours_of(m: int) -> int {
    signed_comp(m, (magnitude(m) / 60) % 24)
}

/// The minute component of a total of `m` minutes.
pub open spec fn mins_of(m: int) -> int {
    signed_comp(m, magnitude(m) % 60)
}

/// One rendered component: the value followed by its unit letter.
pub open spec fn comp_str(v: int, u: char) -> Seq<char> {
    dec_str(v) + seq![u]
}

/// Appends a piece to what is already rendered, with a separating
/// space when something precedes it.
pub open spec fn with_sep(prefix: Seq<char>, piece: Seq<char>) -> Seq<char> {
    if prefix.len() == 0 {
        piece
    } else {
        prefix + seq![' '] + piece
    }
}

/// The compact rendering of a total of `m` minutes: every non-zero
/// component in order week, day, hour, minute, space-separated, and
/// `0m` for a zero total.
pub open spec fn format_minutes(m: int) -> Seq<char> {
    if m == 0 {
        seq!['0', 'm']
    } else {
        let s1 = if weeks_of(m) != 0 {
            comp_str(weeks_of(m), 'w')
        } else {
            Seq::<char>::empty()
        };
        let s2 = if days_of(m) != 0 {
            with_sep(s1, comp_str(days_of(m), 'd'))
        } else {
            s1
        };
        let s3 = if hours_of(m) != 0 {
            with_sep(s2, comp_str(hours_of(m), 'h'))
        } else {
            s2
        };
        if mins_of(m) != 0 {
            with_sep(s3, comp_str(mins_of(m), 'm'))
        } else {
            s3
        }
    }
}

/// Appends one decimal digit.
fn push_digit(out: &mut String, d: u8)
    requires
        d <= 9,
    ensures
        final(out)@ == old(out)@ + seq![digit_char(d as int)],
{
    match d {
        0 => {
            proof {
                reveal_strlit("0");
                assert("0"@ =~= seq![digit_char(0)]);
            }
            out.append("0");
        },
        1 => {
            proof {
                reveal_strlit("1");
                assert("1"@ =~= seq![digit_char(1)]);
            }
            out.append("1");
        },
        2 => {
            proof {
                reveal_strlit("2");
                assert("2"@ =~= seq![digit_char(2)]);
            }
            out.append("2");
        },
        3 => {
            proof {
                reveal_strlit("3");
                assert("3"@ =~= seq![digit_char(3)]);
            }
            out.append("3");
        },
        4 => {
            proof {
                reveal_strlit("4");
                assert("4"@ =~= seq![digit_char(4)]);
            }
            out.append("4");
        },
        5 => {
            proof {
                reveal_strlit("5");
                assert("5"@ =~= seq![digit_char(5)]);
            }
            out.append("5");
        },
        6 => {
            proof {
                reveal_strlit("6");
                assert("6"@ =~= seq![digit_char(6)]);
            }
            out.append("6");
        },
        7 => {
            proof {
                reveal_strlit("7");
                assert("7"@ =~= seq![digit_char(7)]);
            }
            out.append("7");
        },
        8 => {
            proof {
                reveal_strlit("8");
                assert("8"@ =~= seq![digit_char(8)]);
            }
            out.append("8");
        },
        _ => {
            proof {
                assert(d == 9);
                reveal_strlit("9");
                assert("9"@ =~= seq![digit_char(9)]);
            }
            out.append("9");
        },
    }
}

/// Appends the decimal digits of a non-negative value.
fn push_digits(out: &mut String, n: u64)
    ensures
        final(out)@ == old(out)@ + dec_digits(n as int),
    decreases n,
{
    if n >= 10 {
        push_digits(out, n / 10);
        push_digit(out, (n % 10) as u8);
        proof {
            assert(final(out)@ =~= old(out)@ + dec_digits(n as int));
        }
    } else {
        push_digit(out, n as u8);
    }
}

/// Appends the decimal rendering of a signed value.
fn push_signed(out: &mut String, v: i64)
    ensures
        final(out)@ == old(out)@ + dec_str(v as int),
{
    if v < 0 {
        proof {
            reveal_strlit("-");
            assert("-"@ =~= seq!['-']);
        }
        out.append("-");
        let mag: u64 = (-(v as i128)) as u64;
        push_digits(out, mag);
        proof {
            assert(final(out)@ =~= old(out)@ + dec_str(v as int));
        }
    } else {
        push_digits(out, v as u64);
    }
}

/// Render a total duration as a compact string such as `1w 2d 3h 4m`,
/// omitting zero components; a zero total renders as `0m`.
pub fn duration_to_str(duration: Duration) -> (r: String)
    ensures
        r@ == format_minutes(duration@),
{
    let m = duration.num_minutes();
    if m == 0 {
        proof {
            reveal_strlit("0m");
        }
        let r = String::from_str("0m");
        proof {
            assert(r@ =~= seq!['0', 'm']);
        }
        return r;
    }
    let ghost mi = m as int;
    let neg = m < 0;
    let mag: u64 = if m < 0 {
        (-(m as i128)) as u64
    } else {
        m as u64
    };
    proof {
        assert(mag == magnitude(mi));
    }
    let w: u64 = mag / 10080;
    let d: u64 = (mag / 1440) % 7;
    let h: u64 = (mag / 60) % 24;
    let mn: u64 = mag % 60;
    let sw: i64 = if neg {
        -(w as i64)
    } else {
        w as i64
    };
    let sd: i64 = if neg {
        -(d as i64)
    } else {
        d as i64
    };
    let sh: i64 = if neg {
        -(h as i64)
    } else {
        h as i64
    };
    let smn: i64 = if neg {
        -(mn as i64)
    } else {
        mn as i64
    };
    proof {
        assert(sw == weeks_of(mi));
        assert(sd == days_of(mi));
        assert(sh == hours_of(mi));
        assert(smn == mins_of(mi));
    }
    let ghost s1 = if weeks_of(mi) != 0 {
        comp_str(weeks_of(mi), 'w')
    } else {
        Seq::<char>::empty()
    };
    let ghost s2 = if days_of(mi) != 0 {
        with_sep(s1, comp_str(days_of(mi), 'd'))
    } else {
        s1
    };
    let ghost s3 = if hours_of(mi) != 0 {
        with_sep(s2, comp_str(hours_of(mi), 'h'))
    } else {
        s2
    };
    let ghost s4 = if mins_of(mi) != 0 {
        with_sep(s3, comp_str(mins_of(mi), 'm'))
    } else {
        s3
    };
    let mut out = String::new();
    if w != 0 {
        push_signed(&mut out, sw);
        proof {
            reveal_strlit("w");
            assert("w"@ =~= seq!['w']);
        }
        out.append("w");
    }
    proof {
        assert(out@ =~= s1);
    }
    if d != 0 {
        if w != 0 {
            proof {
                reveal_strlit(" ");
                assert(" "@ =~= seq![' ']);
            }
            out.append(" ");
        }
        push_signed(&mut out, sd);
        proof {
            reveal_strlit("d");
            assert("d"@ =~= seq!['d']);
        }
        out.append("d");
    }
    proof {
        assert(out@ =~= s2);
    }
    if h != 0 {
        if w != 0 || d != 0 {
            proof {
                reveal_strlit(" ");
                assert(" "@ =~= seq![' ']);
            }
            out.append(" ");
        }
        push_signed(&mut out, sh);
        proof {
            reveal_strlit("h");
            assert("h"@ =~= seq!['h']);
        }
        out.append("h");
    }
    proof {
        assert(out@ =~= s3);
    }
    if mn != 0 {
        if w != 0 || d != 0 || h != 0 {
            proof {
                reveal_strlit(" ");
                assert(" "@ =~= seq![' ']);
            }
            out.append(" ");
        }
        push_signed(&mut out, smn);
        proof {
            reveal_strlit("m");
            assert("m"@ =~= seq!['m']);
        }
        out.append("m");
    }
    proof {
        assert(out@ =~= s4);
        assert(format_minutes(mi) == s4);
    }
    out
}

proof fn lemma_dec_digits_value(n: int)
    requires
        n >= 0,
    ensures
        all_digits(dec_digits(n)),
        digits_val(dec_digits(n)) == n,
        dec_digits(n).len() >= 1,
    decreases n,
{
    if n <= 9 {
        reveal_with_fuel(digits_val, 3);
        assert(seq![digit_char(n)].drop_last() =~= Seq::<char>::empty());
        assert(is_digit_char(digit_char(n)));
    } else {
        lemma_dec_digits_value(n / 10);
        let a = dec_digits(n / 10);
        let c = digit_char(n % 10);
        assert((a + seq![c]).drop_last() =~= a);
        assert((a + seq![c]).last() == c);
        assert(is_digit_char(c));
        assert(digits_val(a + seq![c]) == digits_val(a) * 10 + (n % 10));
        assert(all_digits(a + seq![c])) by {
            assert(forall|i: int| 0 <= i < a.len() ==> (a + seq![c])[i] == a[i]);
        }
    }
}

/// Round trip for whole weeks: a token `Nw` with a non-zero `N`
/// parses to `N` weeks of minutes, and formatting that total yields
/// the token `Nw` back.
pub proof fn lemma_weeks_round_trip(n: int)
    requires
        n != 0,
        fits_i64(n * 10080),
    ensures
        ({
            let tok = dec_str(n) + seq!['w'];
            &&& token_minutes(tok) == Some(n * 10080)
            &&& total_minutes(seq![tok]) == Ok::<int, Seq<char>>(n * 10080)
            &&& format_minutes(n * 10080) == tok
        }),
{
    let tok = dec_str(n) + seq!['w'];
    let a = magnitude(n);
    lemma_dec_digits_value(a);
    assert(tok.drop_last() =~= dec_str(n));
    assert(tok.last() == 'w');
    if n < 0 {
        assert(dec_str(n)[0] == '-');
        assert(dec_str(n).subrange(1, dec_str(n).len() as int) =~= dec_digits(-n));
        assert(is_signed_numeral(dec_str(n)));
        assert(signed_numeral_val(dec_str(n)) == n);
    } else {
        assert(is_digit_char(dec_str(n)[0]));
        assert(dec_str(n)[0] != '-');
        assert(is_signed_numeral(dec_str(n)));
        assert(signed_numeral_val(dec_str(n)) == n);
    }
    assert(is_duration_token(tok));
    assert(unit_minutes('w') == 10080);
    assert(duration_token_minutes(tok) == n * 10080);
    assert(token_minutes(tok) == Some(n * 10080));
    assert(seq![tok].skip(1) =~= Seq::<Seq<char>>::empty());
    assert(seq![tok][0] == tok);
    assert(total_minutes(seq![tok]) == Ok::<int, Seq<char>>(n * 10080)) by {
        reveal_with_fuel(fold_tokens, 3);
        assert(seq![tok].skip(1) =~= Seq::<Seq<char>>::empty());
        assert(fits_i64(0 + n * 10080));
    }
    let m = n * 10080;
    assert(magnitude(m) == a * 10080);
    lemma_fundamental_div_mod_converse(a * 10080, 10080, a, 0);
    lemma_fundamental_div_mod_converse(a * 10080, 1440, a * 7, 0);
    lemma_fundamental_div_mod_converse(a * 7, 7, a, 0);
    lemma_fundamental_div_mod_converse(a * 10080, 60, a * 168, 0);
    lemma_fundamental_div_mod_converse(a * 168, 24, a * 7, 0);
    assert(weeks_of(m) == n);
    assert(days_of(m) == 0);
    assert(hours_of(m) == 0);
    assert(mins_of(m) == 0);
    assert(format_minutes(m) == comp_str(n, 'w'));
}

} // verus!
