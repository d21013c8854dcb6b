//! Decimal integer tokens, read as `str::parse` reads them for `usize` and `isize`.
use vstd::prelude::*;
use crate::text::chars_of;

verus! {

pub open spec fn is_digit(c: char) -> bool {
    48 <= c as u32 && c as u32 <= 57
}

pub open spec fn digit_value(c: char) -> nat {
    (c as u32 - 48) as nat
}

pub open spec fn all_digits(s: Seq<char>) -> bool {
    forall|i: int| 0 <= i < s.len() ==> is_digit(#[trigger] s[i])
}

/// The number that the decimal digits `s` denote (most significant first).
pub open spec fn decimal_value(s: Seq<char>) -> nat
    decreases s.len(),
{
    if s.len() == 0 {
        0
    } else {
        decimal_value(s.drop_last()) * 10 + digit_value(s.last())
    }
}

/// A non-empty run of digits.
pub open spec fn is_digit_run(d: Seq<char>) -> bool {
    d.len() > 0 && all_digits(d)
}

/// The digits of an unsigned token: one leading `+` is dropped.
pub open spec fn unsigned_digits(s: Seq<char>) -> Seq<char> {
    if s.len() > 0 && s[0] == '+' {
        s.drop_first()
    } else {
        s
    }
}

/// What `s.parse::<usize>()` gives: an optional `+`, then one or more digits,
/// whose value fits.
pub open spec fn parse_usize(s: Seq<char>) -> Option<usize> {
    let d = unsigned_digits(s);
    if is_digit_run(d) && decimal_value(d) <= usize::MAX {
        Some(decimal_value(d) as usize)
    } else {
        None
    }
}

/// What `s.parse::<isize>()` gives: an optional `+` or `-`, then one or more
/// digits, whose signed value fits.
pub open spec fn parse_isize(s: Seq<char>) -> Option<isize> {
    if s.len() > 0 && s[0] == '-' {
        let d = s.drop_first();
        if is_digit_run(d) && decimal_value(d) <= isize::MAX + 1 {
            Some((-decimal_value(d)) as isize)
        } else {
            None
        }
    } else {
        let d = unsigned_digits(s);
        if is_digit_run(d) && decimal_value(d) <= isize::MAX {
            Some(decimal_value(d) as isize)
        } else {
            None
        }
    }
}

/// An integer type that a decimal token can be read into.
pub trait DecimalToken: Sized {
    /// The value that the token `s` denotes, if it denotes one of this type.
    spec fn spec_from_token(s: Seq<char>) -> Option<Self>;

    fn from_token(s: &str) -> (r: Option<Self>)
        ensures
            r == Self::spec_from_token(s@),
    ;
}

/// The value of the digits `cs[from..]`, if they are one or more digits whose
/// value fits in a `usize`.
fn magnitude(cs: &Vec<char>, from: usize) -> (r: Option<usize>)
    requires
        from <= cs@.len(),
    ensures
        ({
            let d = cs@.subrange(from as int, cs@.len() as int);
            r == if is_digit_run(d) && decimal_value(d) <= usize::MAX {
                Some(decimal_value(d) as usize)
            } else {
                None
            }
        }),
{
    let n = cs.len();
    if from == n {
        return None;
    }
    let mut acc: usize = 0;
    let mut over: bool = false;
    let mut i: usize = from;
    while i < n
        invariant
            from <= i <= n,
            n == cs@.len(),
            all_digits(cs@.subrange(from as int, i as int)),
            !over ==> acc == decimal_value(cs@.subrange(from as int, i as int)),
            over ==> decimal_value(cs@.subrange(from as int, i as int)) > usize::MAX,
        decreases n - i,
    {
        let c = cs[i];
        let p = Ghost(cs@.subrange(from as int, i as int));
        let q = Ghost(cs@.subrange(from as int, i + 1));
        assert(q@.drop_last() =~= p@);
        assert(q@.last() == c);
        if !(48 <= c as u32 && c as u32 <= 57) {
            assert(!all_digits(cs@.subrange(from as int, n as int))) by {
                assert(cs@.subrange(from as int, n as int)[i - from] == c);
            }
            return None;
        }
        let dv = (c as u32 - 48) as usize;
        assert(decimal_value(q@) == decimal_value(p@) * 10 + dv);
        if !over {
            match acc.checked_mul(10) {
                Some(m) => match m.checked_add(dv) {
                    Some(a) => {
                        acc = a;
                    },
                    None => {
                        over = true;
                    },
                },
                None => {
                    over = true;
                    assert(decimal_value(p@) * 10 + dv > usize::MAX) by (nonlinear_arith)
                        requires
                            decimal_value(p@) * 10 > usize::MAX,
                    ;
                },
            }
        } else {
            assert(decimal_value(p@) * 10 + dv > usize::MAX) by (nonlinear_arith)
                requires
                    decimal_value(p@) > usize::MAX,
            ;
        }
        assert(all_digits(q@)) by {
            assert forall|k: int| 0 <= k < q@.len() implies is_digit(#[trigger] q@[k]) by {
                if k < p@.len() {
                    assert(q@[k] == p@[k]);
                }
            }
        }
        i = i + 1;
    }
    if over {
        None
    } else {
        Some(acc)
    }
}

impl DecimalToken for usize {
    open spec fn spec_from_token(s: Seq<char>) -> Option<usize> {
        parse_usize(s)
    }

    fn from_token(s: &str) -> (r: Option<usize>) {
        let cs = chars_of(s);
        let from: usize = if cs.len() > 0 && cs[0] == '+' {
            1
        } else {
            0
        };
        assert(cs@.subrange(from as int, cs@.len() as int) =~= unsigned_digits(s@));
        magnitude(&cs, from)
    }
}

impl DecimalToken for isize {
    open spec fn spec_from_token(s: Seq<char>) -> Option<isize> {
        parse_isize(s)
    }

    fn from_token(s: &str) -> (r: Option<isize>) {
        let cs = chars_of(s);
        if cs.len() > 0 && cs[0] == '-' {
            assert(cs@.subrange(1, cs@.len() as int) =~= s@.drop_first());
            match magnitude(&cs, 1) {
                Some(m) => {
                    if m <= isize::MAX as usize {
                        Some(-(m as isize))
                    } else if m == isize::MAX as usize + 1 {
                        Some(isize::MIN)
                    } else {
                        None
                    }
                },
                None => None,
            }
        } else {
            let from: usize = if cs.len() > 0 && cs[0] == '+' {
                1
            } else {
                0
            };
            assert(cs@.subrange(from as int, cs@.len() as int) =~= unsigned_digits(s@));
            match magnitude(&cs, from) {
                Some(m) => {
                    if m <= isize::MAX as usize {
                        Some(m as isize)
                    } else {
                        None
                    }
                },
                None => None,
            }
        }
    }
}

} // verus!
