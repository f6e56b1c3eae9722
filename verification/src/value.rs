//! The value parser: a single token read as an unsigned 16-bit literal.
//!
//! Grammar: `'c'` yields the code of the character after the opening quote;
//! `0x` followed by hex digits is hexadecimal; a leading `0` with more
//! digits is octal; anything else is decimal. The result must fit in 16
//! bits.

use vstd::prelude::*;
use crate::error::{AsmError, ErrV, res_view};
use crate::text::{chars_of, lower, lower_vec};

verus! {

/// The value of `c` as a digit under `radix`, if it is one. Letters are
/// expected lowercase (the token is lowercased before digits are read).
pub open spec fn digit_val(c: char, radix: u32) -> Option<u32> {
    let u = c as u32;
    if 48 <= u && u <= 57 && u - 48 < radix {
        Some((u - 48) as u32)
    } else if 97 <= u && u <= 122 && u - 87 < radix {
        Some((u - 87) as u32)
    } else {
        None
    }
}

/// Exec mirror of [`digit_val`].
pub fn digit_of(c: char, radix: u32) -> (r: Option<u32>)
    ensures
        r == digit_val(c, radix),
{
    let u = c as u32;
    if 48 <= u && u <= 57 && u - 48 < radix {
        Some(u - 48)
    } else if 97 <= u && u <= 122 && u - 87 < radix {
        Some(u - 87)
    } else {
        None
    }
}

/// Digits of `s` folded left-to-right onto `acc` under `radix`; `None` as
/// soon as a character is no digit.
pub open spec fn radix_fold(s: Seq<char>, radix: u32, acc: nat) -> Option<nat>
    decreases s.len(),
{
    if s.len() == 0 {
        Some(acc)
    } else {
        match digit_val(s[0], radix) {
            Some(d) => radix_fold(s.drop_first(), radix, (acc * radix + d) as nat),
            None => None,
        }
    }
}

/// The numeric value of a non-empty all-digit sequence under `radix`.
pub open spec fn parse_radix(s: Seq<char>, radix: u32) -> Option<nat> {
    if s.len() == 0 {
        None
    } else {
        radix_fold(s, radix, 0)
    }
}

/// A parsed magnitude folded into the 16-bit result space: too large or
/// unreadable is `InvalidNumber`.
pub open spec fn num_result(o: Option<nat>) -> Result<u16, ErrV> {
    match o {
        Some(n) => if n <= 0xffff {
            Ok(n as u16)
        } else {
            Err(ErrV::InvalidNumber)
        },
        None => Err(ErrV::InvalidNumber),
    }
}

/// What [`parse_value`] returns for a token, as a function of its
/// characters.
pub open spec fn spec_parse_value(s: Seq<char>) -> Result<u16, ErrV> {
    if s.len() >= 1 && s[0] == '\'' && s.last() == '\'' {
        if s.len() < 2 {
            Err(ErrV::MalformedCharLiteral)
        } else if (s[1] as u32) > 0xffff {
            Err(ErrV::InvalidNumber)
        } else {
            Ok(s[1] as u16)
        }
    } else {
        let v = lower(s);
        if v.len() > 2 && v[0] == '0' && v[1] == 'x' {
            num_result(parse_radix(v.skip(2), 16))
        } else if v.len() > 1 && v[0] == '0' {
            num_result(parse_radix(v.skip(1), 8))
        } else {
            num_result(parse_radix(v, 10))
        }
    }
}

/// Reads `v[from..]` as digits under `radix`, failing on a non-digit, an
/// empty digit run, or a value over 16 bits.
fn parse_radix_vec(v: &Vec<char>, from: usize, radix: u32) -> (r: Result<u16, AsmError>)
    requires
        2 <= radix <= 16,
        from <= v@.len(),
    ensures
        res_view(r) == num_result(parse_radix(v@.skip(from as int), radix)),
{
    let n = v.len();
    if from == n {
        return Err(AsmError::InvalidNumber);
    }
    let mut acc: u32 = 0;
    let mut ok: bool = true;
    let ghost mut gacc: nat = 0nat;
    let mut i: usize = from;
    while i < n
        invariant
            from <= i <= n,
            n == v@.len(),
            2 <= radix <= 16,
            radix_fold(v@.skip(from as int), radix, 0nat) == radix_fold(
                v@.skip(i as int),
                radix,
                gacc,
            ),
            ok ==> acc == gacc && gacc <= 0xffff,
            !ok ==> gacc > 0xffff,
        decreases n - i,
    {
        let ghost pre = v@.skip(i as int);
        proof {
            assert(pre[0] == v@[i as int]);
            assert(pre.drop_first() =~= v@.skip(i + 1 as int));
        }
        match digit_of(v[i], radix) {
            None => {
                return Err(AsmError::InvalidNumber);
            },
            Some(d) => {
                proof {
                    assert(d < radix);
                    assert(gacc * radix + d >= gacc) by (nonlinear_arith)
                        requires
                            1 <= radix,
                    ;
                    gacc = (gacc * radix + d) as nat;
                }
                if ok {
                    proof {
                        assert(acc * radix <= 0xffff * 16) by (nonlinear_arith)
                            requires
                                acc <= 0xffff,
                                radix <= 16,
                        ;
                    }
                    let next = acc * radix + d;
                    if next > 0xffff {
                        ok = false;
                    } else {
                        acc = next;
                    }
                }
            },
        }
        i = i + 1;
    }
    proof {
        assert(v@.skip(n as int) =~= Seq::<char>::empty());
    }
    if ok {
        Ok(acc as u16)
    } else {
        Err(AsmError::InvalidNumber)
    }
}

/// Parses a token as an unsigned 16-bit value: a quoted character, a `0x`
/// hexadecimal, a `0`-prefixed octal, or a decimal literal.
///
/// Returns exactly [`spec_parse_value`] of the token's characters: `Ok`
/// precisely for well-formed literals whose value fits 16 bits,
/// `MalformedCharLiteral` for a lone quote, and `InvalidNumber` for a bad
/// digit or an out-of-range value.
pub fn parse_value(str_val: &str) -> (r: Result<u16, AsmError>)
    ensures
        res_view(r) == spec_parse_value(str_val@),
{
    let v = chars_of(str_val);
    parse_value_chars(&v)
}

/// [`parse_value`] over a token held as a character vector.
pub fn parse_value_chars(v: &Vec<char>) -> (r: Result<u16, AsmError>)
    ensures
        res_view(r) == spec_parse_value(v@),
{
    let n = v.len();
    if n >= 1 {
        let c0 = v[0];
        let cl = v[n - 1];
        if c0 == '\'' && cl == '\'' {
            if n < 2 {
                return Err(AsmError::MalformedCharLiteral);
            }
            let c1 = v[1];
            let code = c1 as u32;
            if code > 0xffff {
                return Err(AsmError::InvalidNumber);
            }
            return Ok(code as u16);
        }
    }
    let low = lower_vec(v);
    if low.len() > 2 && low[0] == '0' && low[1] == 'x' {
        parse_radix_vec(&low, 2, 16)
    } else if low.len() > 1 && low[0] == '0' {
        parse_radix_vec(&low, 1, 8)
    } else {
        proof {
            assert(low@.skip(0) =~= low@);
        }
        parse_radix_vec(&low, 0, 10)
    }
}

} // verus!

