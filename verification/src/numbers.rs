//! Reading decimal integers out of text, as `str::parse` does for `i32`,
//! `i64` and the unsigned types.
use vstd::prelude::*;

verus! {

/// An ASCII decimal digit.
pub open spec fn is_digit_char(c: char) -> bool {
    '0' <= c && c <= '9'
}

/// The value of a decimal digit character.
pub open spec fn digit_value(c: char) -> int {
    (c as int) - 48
}

/// The value of a string of decimal digits.
pub open spec fn dec_value(s: Seq<char>) -> int
    decreases s.len(),
{
    if s.len() == 0 {
        0
    } else {
        dec_value(s.drop_last()) * 10 + digit_value(s.last())
    }
}

/// Every character of `s` is a decimal digit.
pub open spec fn all_digits(s: Seq<char>) -> bool {
    forall|i: int| 0 <= i < s.len() ==> is_digit_char(#[trigger] s[i])
}

/// What `str::parse::<i32>` gives: an optional `+` or `-`, then one or more
/// decimal digits, whose value fits in an `i32`; `None` for anything else.
pub open spec fn parse_i32_spec(s: Seq<char>) -> Option<i32> {
    let neg = s.len() > 0 && s[0] == '-';
    let d = if s.len() > 0 && (s[0] == '-' || s[0] == '+') {
        s.drop_first()
    } else {
        s
    };
    if d.len() == 0 || !all_digits(d) {
        None
    } else {
        let v = if neg {
            -dec_value(d)
        } else {
            dec_value(d)
        };
        if i32::MIN <= v <= i32::MAX {
            Some(v as i32)
        } else {
            None
        }
    }
}

proof fn lemma_dec_value_nonneg(s: Seq<char>)
    requires
        all_digits(s),
    ensures
        dec_value(s) >= 0,
    decreases s.len(),
{
    if s.len() > 0 {
        lemma_dec_value_nonneg(s.drop_last());
    }
}

/// Parse a decimal `i32` as `str::parse::<i32>` does.
pub fn parse_i32(s: &[char]) -> (res: Option<i32>)
    ensures
        res == parse_i32_spec(s@),
{
    let n = s.len();
    let neg = n > 0 && s[0] == '-';
    let start: usize = if n > 0 && (s[0] == '-' || s[0] == '+') {
        1
    } else {
        0
    };
    let ghost d = if s@.len() > 0 && (s@[0] == '-' || s@[0] == '+') {
        s@.drop_first()
    } else {
        s@
    };
    assert(d =~= s@.subrange(start as int, n as int));
    if start == n {
        return None;
    }
    let mut v: u64 = 0;
    let mut big = false;
    let mut i = start;
    while i < n
        invariant
            start <= i <= n,
            n == s@.len(),
            d == s@.subrange(start as int, n as int),
            d == (if s@.len() > 0 && (s@[0] == '-' || s@[0] == '+') {
                s@.drop_first()
            } else {
                s@
            }),
            neg == (s@.len() > 0 && s@[0] == '-'),
            all_digits(s@.subrange(start as int, i as int)),
            big ==> dec_value(s@.subrange(start as int, i as int)) > 0x8000_0000,
            !big ==> v == dec_value(s@.subrange(start as int, i as int)) && v <= 0x8000_0000,
        decreases n - i,
    {
        let c = s[i];
        if !('0' <= c && c <= '9') {
            assert(d[i - start] == c);
            assert(!is_digit_char(d[i - start]));
            assert(!all_digits(d));
            return None;
        }
        let ghost prev = s@.subrange(start as int, i as int);
        assert(s@.subrange(start as int, i + 1).drop_last() =~= prev);
        assert(s@.subrange(start as int, i + 1).last() == c);
        proof {
            lemma_dec_value_nonneg(prev);
        }
        let dv = (c as u32 - 48) as u64;
        if !big {
            v = v * 10 + dv;
            if v > 0x8000_0000 {
                big = true;
            }
        }
        i += 1;
    }
    assert(s@.subrange(start as int, i as int) =~= d);
    if big {
        return None;
    }
    if neg {
        if v <= 0x8000_0000 {
            Some((0 - (v as i64)) as i32)
        } else {
            None
        }
    } else {
        if v <= 0x7fff_ffff {
            Some(v as i32)
        } else {
            None
        }
    }
}


/// What `str::parse::<i64>` gives: an optional `+` or `-`, then one or more
/// decimal digits, whose value fits in an `i32`; `None` for anything else.
pub open spec fn parse_i64_spec(s: Seq<char>) -> Option<i64> {
    let neg = s.len() > 0 && s[0] == '-';
    let d = if s.len() > 0 && (s[0] == '-' || s[0] == '+') {
        s.drop_first()
    } else {
        s
    };
    if d.len() == 0 || !all_digits(d) {
        None
    } else {
        let v = if neg {
            -dec_value(d)
        } else {
            dec_value(d)
        };
        if i64::MIN <= v <= i64::MAX {
            Some(v as i64)
        } else {
            None
        }
    }
}

/// Parse a decimal `i64` as `str::parse::<i64>` does.
pub fn parse_i64(s: &[char]) -> (res: Option<i64>)
    ensures
        res == parse_i64_spec(s@),
{
    let n = s.len();
    let neg = n > 0 && s[0] == '-';
    let start: usize = if n > 0 && (s[0] == '-' || s[0] == '+') {
        1
    } else {
        0
    };
    let ghost d = if s@.len() > 0 && (s@[0] == '-' || s@[0] == '+') {
        s@.drop_first()
    } else {
        s@
    };
    assert(d =~= s@.subrange(start as int, n as int));
    if start == n {
        return None;
    }
    let mut v: u128 = 0;
    let mut big = false;
    let mut i = start;
    while i < n
        invariant
            start <= i <= n,
            n == s@.len(),
            d == s@.subrange(start as int, n as int),
            d == (if s@.len() > 0 && (s@[0] == '-' || s@[0] == '+') {
                s@.drop_first()
            } else {
                s@
            }),
            neg == (s@.len() > 0 && s@[0] == '-'),
            all_digits(s@.subrange(start as int, i as int)),
            big ==> dec_value(s@.subrange(start as int, i as int)) > 0x8000_0000_0000_0000,
            !big ==> v == dec_value(s@.subrange(start as int, i as int)) && v <= 0x8000_0000_0000_0000,
        decreases n - i,
    {
        let c = s[i];
        if !('0' <= c && c <= '9') {
            assert(d[i - start] == c);
            assert(!is_digit_char(d[i - start]));
            assert(!all_digits(d));
            return None;
        }
        let ghost prev = s@.subrange(start as int, i as int);
        assert(s@.subrange(start as int, i + 1).drop_last() =~= prev);
        assert(s@.subrange(start as int, i + 1).last() == c);
        proof {
            lemma_dec_value_nonneg(prev);
        }
        let dv = (c as u32 - 48) as u128;
        if !big {
            v = v * 10 + dv;
            if v > 0x8000_0000_0000_0000 {
                big = true;
            }
        }
        i += 1;
    }
    assert(s@.subrange(start as int, i as int) =~= d);
    if big {
        return None;
    }
    if neg {
        if v <= 0x8000_0000_0000_0000 {
            Some((0 - (v as i128)) as i64)
        } else {
            None
        }
    } else {
        if v <= 0x7fff_ffff_ffff_ffff {
            Some(v as i64)
        } else {
            None
        }
    }
}


/// What `str::parse` gives for an unsigned type whose largest value is
/// `max`: an optional `+`, then one or more decimal digits, whose value is at
/// most `max`; `None` for anything else.
pub open spec fn parse_unsigned_spec(s: Seq<char>, max: int) -> Option<int> {
    let d = if s.len() > 0 && s[0] == '+' {
        s.drop_first()
    } else {
        s
    };
    if d.len() == 0 || !all_digits(d) || dec_value(d) > max {
        None
    } else {
        Some(dec_value(d))
    }
}

/// Parse an unsigned decimal no larger than `max` (at most `u32::MAX`), as
/// `str::parse` does for an unsigned type of that range.
pub fn parse_unsigned(s: &[char], max: u32) -> (res: Option<u32>)
    ensures
        match res {
            Some(v) => parse_unsigned_spec(s@, max as int) == Some(v as int),
            None => parse_unsigned_spec(s@, max as int) is None,
        },
{
    let n = s.len();
    let start: usize = if n > 0 && s[0] == '+' {
        1
    } else {
        0
    };
    let ghost d = if s@.len() > 0 && s@[0] == '+' {
        s@.drop_first()
    } else {
        s@
    };
    assert(d =~= s@.subrange(start as int, n as int));
    if start == n {
        return None;
    }
    let mut v: u64 = 0;
    let mut big = false;
    let mut i = start;
    while i < n
        invariant
            start <= i <= n,
            n == s@.len(),
            d == s@.subrange(start as int, n as int),
            d == (if s@.len() > 0 && s@[0] == '+' {
                s@.drop_first()
            } else {
                s@
            }),
            all_digits(s@.subrange(start as int, i as int)),
            big ==> dec_value(s@.subrange(start as int, i as int)) > max,
            !big ==> v == dec_value(s@.subrange(start as int, i as int)) && v <= max,
        decreases n - i,
    {
        let c = s[i];
        if !('0' <= c && c <= '9') {
            assert(d[i - start] == c);
            assert(!is_digit_char(d[i - start]));
            assert(!all_digits(d));
            return None;
        }
        let ghost prev = s@.subrange(start as int, i as int);
        assert(s@.subrange(start as int, i + 1).drop_last() =~= prev);
        assert(s@.subrange(start as int, i + 1).last() == c);
        proof {
            lemma_dec_value_nonneg(prev);
        }
        let dv = (c as u32 - 48) as u64;
        if !big {
            v = v * 10 + dv;
            if v > max as u64 {
                big = true;
            }
        }
        i += 1;
    }
    assert(s@.subrange(start as int, i as int) =~= d);
    if big {
        return None;
    }
    Some(v as u32)
}


/// Parse an unsigned decimal as `str::parse::<usize>` does.
pub fn parse_usize(s: &[char]) -> (res: Option<usize>)
    ensures
        match res {
            Some(v) => parse_unsigned_spec(s@, usize::MAX as int) == Some(v as int),
            None => parse_unsigned_spec(s@, usize::MAX as int) is None,
        },
{
    let n = s.len();
    let start: usize = if n > 0 && s[0] == '+' {
        1
    } else {
        0
    };
    let ghost d = if s@.len() > 0 && s@[0] == '+' {
        s@.drop_first()
    } else {
        s@
    };
    assert(d =~= s@.subrange(start as int, n as int));
    if start == n {
        return None;
    }
    let max: u128 = usize::MAX as u128;
    let mut v: u128 = 0;
    let mut big = false;
    let mut i = start;
    while i < n
        invariant
            start <= i <= n,
            n == s@.len(),
            max == usize::MAX,
            d == s@.subrange(start as int, n as int),
            d == (if s@.len() > 0 && s@[0] == '+' {
                s@.drop_first()
            } else {
                s@
            }),
            all_digits(s@.subrange(start as int, i as int)),
            big ==> dec_value(s@.subrange(start as int, i as int)) > max,
            !big ==> v == dec_value(s@.subrange(start as int, i as int)) && v <= max,
        decreases n - i,
    {
        let c = s[i];
        if !('0' <= c && c <= '9') {
            assert(d[i - start] == c);
            assert(!is_digit_char(d[i - start]));
            assert(!all_digits(d));
            return None;
        }
        let ghost prev = s@.subrange(start as int, i as int);
        assert(s@.subrange(start as int, i + 1).drop_last() =~= prev);
        assert(s@.subrange(start as int, i + 1).last() == c);
        proof {
            lemma_dec_value_nonneg(prev);
        }
        let dv = (c as u32 - 48) as u128;
        if !big {
            v = v * 10 + dv;
            if v > max {
                big = true;
            }
        }
        i += 1;
    }
    assert(s@.subrange(start as int, i as int) =~= d);
    if big {
        return None;
    }
    Some(v as usize)
}

} // verus!
