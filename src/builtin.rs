//! The builtin commands, which run inside the interpreter.
use vstd::prelude::*;
use vstd::string::StrSliceExecFns;
use crate::error::Error;
use crate::text::{chars_of, texts};

verus! {

/// The closed table of builtins.
#[derive(Debug, Clone, Copy, PartialEq, Eq, Structural)]
pub enum Builtin {
    /// `exit [code]`: terminate the interpreter.
    Exit,
}

pub open spec fn builtin_of(name: Seq<char>) -> Option<Builtin> {
    if name == seq!['e', 'x', 'i', 't'] {
        Some(Builtin::Exit)
    } else {
        None
    }
}

/// The builtin that `name` names, if any.
pub fn lookup(name: &str) -> (r: Option<Builtin>)
    ensures
        r == builtin_of(name@),
{
    if name.unicode_len() == 4 && name.get_char(0) == 'e' && name.get_char(1) == 'x'
        && name.get_char(2) == 'i' && name.get_char(3) == 't' {
        assert(name@ =~= seq!['e', 'x', 'i', 't']);
        Some(Builtin::Exit)
    } else {
        assert(name@ != seq!['e', 'x', 'i', 't']) by {
            if name@ == seq!['e', 'x', 'i', 't'] {
                assert(name@[0] == 'e' && name@[1] == 'x' && name@[2] == 'i' && name@[3] == 't');
            }
        }
        None
    }
}

pub open spec fn is_digit(c: char) -> bool {
    '0' <= c && c <= '9'
}

/// A non-empty run of decimal digits.
pub open spec fn all_digits(s: Seq<char>) -> bool {
    s.len() > 0 && forall|i: int| 0 <= i < s.len() ==> is_digit(#[trigger] s[i])
}

/// The value of a run of decimal digits.
pub open spec fn digits_value(s: Seq<char>) -> int
    decreases s.len(),
{
    if s.len() == 0 {
        0
    } else {
        10 * digits_value(s.drop_last()) + (s.last() as int - '0' as int)
    }
}

/// The integer that `s` writes in decimal, after an optional `+` or `-`.
pub open spec fn decimal_of(s: Seq<char>) -> Option<int> {
    if s.len() > 0 && s[0] == '-' && all_digits(s.drop_first()) {
        Some(-digits_value(s.drop_first()))
    } else if s.len() > 0 && s[0] == '+' && all_digits(s.drop_first()) {
        Some(digits_value(s.drop_first()))
    } else if all_digits(s) {
        Some(digits_value(s))
    } else {
        None
    }
}

/// The `i32` that `s` writes in decimal, if it writes one in range.
pub open spec fn code_of(s: Seq<char>) -> Option<i32> {
    match decimal_of(s) {
        Some(v) => if i32::MIN <= v <= i32::MAX {
            Some(v as i32)
        } else {
            None
        },
        None => None,
    }
}

/// Status for `exit` with arguments `args`: 0 with none, else the integer
/// that the first one writes. Any further arguments are ignored.
pub open spec fn exit_code_of(args: Seq<Seq<char>>) -> Result<i32, Error> {
    if args.len() == 0 {
        Ok(0)
    } else {
        match code_of(args[0]) {
            Some(c) => Ok(c),
            None => Err(Error::BuiltinArgumentError),
        }
    }
}

/// Magnitudes above this one fit no `i32`.
const MAGNITUDE_CAP: i64 = 2147483649;

spec fn capped(v: int) -> int {
    if v >= MAGNITUDE_CAP {
        MAGNITUDE_CAP as int
    } else {
        v
    }
}

/// Reads an `i32` written in decimal, with an optional sign.
pub fn parse_code(s: &str) -> (r: Option<i32>)
    ensures
        r == code_of(s@),
{
    let cs = chars_of(s);
    let n = cs.len();
    let ghost t = s@;
    let negative = n > 0 && cs[0] == '-';
    let start: usize = if n > 0 && (cs[0] == '-' || cs[0] == '+') {
        1
    } else {
        0
    };
    if start == n {
        return None;
    }
    let mut m: i64 = 0;
    let mut i: usize = start;
    assert(t.subrange(start as int, start as int) =~= seq![]);
    while i < n
        invariant
            t == s@,
            cs@ == t,
            n == t.len(),
            start < n,
            start <= i <= n,
            start == 1 <==> (t[0] == '-' || t[0] == '+'),
            start <= 1,
            negative == (t[0] == '-'),
            0 <= m,
            forall|k: int| start <= k < i ==> is_digit(#[trigger] t[k]),
            m == capped(digits_value(t.subrange(start as int, i as int))),
        decreases n - i,
    {
        let c = cs[i];
        if !('0' <= c && c <= '9') {
            assert(t.drop_first() =~= t.skip(1));
            assert(!all_digits(t)) by {
                assert(!is_digit(t[i as int]));
            }
            if start == 1 {
                assert(!all_digits(t.drop_first())) by {
                    assert(t.drop_first()[i - 1] == t[i as int]);
                }
            } else {
                assert(!(t[0] == '-' || t[0] == '+'));
            }
            return None;
        }
        let d = (c as u32 - '0' as u32) as i64;
        assert(t.subrange(start as int, i + 1).drop_last() =~= t.subrange(start as int, i as int));
        m = if m >= MAGNITUDE_CAP {
            MAGNITUDE_CAP
        } else {
            let next = 10 * m + d;
            if next >= MAGNITUDE_CAP {
                MAGNITUDE_CAP
            } else {
                next
            }
        };
        i = i + 1;
    }
    let ghost digits = t.subrange(start as int, n as int);
    assert(all_digits(digits)) by {
        assert forall|k: int| 0 <= k < digits.len() implies is_digit(#[trigger] digits[k]) by {
            assert(digits[k] == t[start + k]);
        }
    }
    assert(digits =~= t.skip(start as int));
    assert(t.drop_first() =~= t.skip(1));
    if start == 1 {
        assert(!is_digit(t[0]));
    } else {
        assert(t.skip(0) =~= t);
    }
    if negative {
        if m <= 2147483648 {
            Some((-m) as i32)
        } else {
            None
        }
    } else {
        if m <= 2147483647 {
            Some(m as i32)
        } else {
            None
        }
    }
}

/// The status that `exit` with arguments `args` terminates with: 0 with no
/// argument, else the integer that the first one writes, or
/// `BuiltinArgumentError` where it writes none.
pub fn exit_code(args: &Vec<&str>) -> (r: Result<i32, Error>)
    ensures
        r == exit_code_of(texts(args@)),
{
    if args.len() == 0 {
        Ok(0)
    } else {
        match parse_code(args[0]) {
            Some(c) => Ok(c),
            None => Err(Error::BuiltinArgumentError),
        }
    }
}

} // verus!
