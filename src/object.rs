use vstd::prelude::*;

use crate::ast::{ParseFailure, ParserError};

verus! {

/// A value produced by evaluation.
#[derive(Debug, PartialEq, Eq, Structural, Clone, Copy)]
pub enum Object {
    IntegerValue(isize),
    NullValue,
}

/// Why a program could not be evaluated: it did not parse.
#[derive(Debug)]
pub enum EvalError {
    ParsingError(ParserError),
}

impl View for EvalError {
    type V = ParseFailure;

    open spec fn view(&self) -> ParseFailure {
        match self {
            EvalError::ParsingError(e) => e@,
        }
    }
}

/// The decimal digits of a natural number, most significant first.
pub open spec fn decimal_digits(n: nat) -> Seq<char>
    decreases n,
{
    let d = seq!['0', '1', '2', '3', '4', '5', '6', '7', '8', '9'][(n % 10) as int];
    if n < 10 {
        seq![d]
    } else {
        decimal_digits(n / 10).push(d)
    }
}

/// The decimal text of an integer, with a leading minus sign when negative.
pub open spec fn decimal_text(n: int) -> Seq<char> {
    if n < 0 {
        seq!['-'] + decimal_digits((-n) as nat)
    } else {
        decimal_digits(n as nat)
    }
}

/// The text that `print` writes for a value.
pub open spec fn object_text(o: Object) -> Seq<char> {
    match o {
        Object::IntegerValue(n) => decimal_text(n as int),
        Object::NullValue => seq!['n', 'u', 'l', 'l'],
    }
}

/// The text of one decimal digit.
fn digit_str(d: u8) -> (r: &'static str)
    requires
        d < 10,
    ensures
        r@ == seq![seq!['0', '1', '2', '3', '4', '5', '6', '7', '8', '9'][d as int]],
{
    match d {
        0 => {
            proof {
                reveal_strlit("0");
            }
            assert("0"@ =~= seq!['0']);
            "0"
        },
        1 => {
            proof {
                reveal_strlit("1");
            }
            assert("1"@ =~= seq!['1']);
            "1"
        },
        2 => {
            proof {
                reveal_strlit("2");
            }
            assert("2"@ =~= seq!['2']);
            "2"
        },
        3 => {
            proof {
                reveal_strlit("3");
            }
            assert("3"@ =~= seq!['3']);
            "3"
        },
        4 => {
            proof {
                reveal_strlit("4");
            }
            assert("4"@ =~= seq!['4']);
            "4"
        },
        5 => {
            proof {
                reveal_strlit("5");
            }
            assert("5"@ =~= seq!['5']);
            "5"
        },
        6 => {
            proof {
                reveal_strlit("6");
            }
            assert("6"@ =~= seq!['6']);
            "6"
        },
        7 => {
            proof {
                reveal_strlit("7");
            }
            assert("7"@ =~= seq!['7']);
            "7"
        },
        8 => {
            proof {
                reveal_strlit("8");
            }
            assert("8"@ =~= seq!['8']);
            "8"
        },
        _ => {
            proof {
                reveal_strlit("9");
            }
            assert("9"@ =~= seq!['9']);
            "9"
        },
    }
}

/// Appends the decimal digits of `m` to `out`.
fn append_digits(out: &mut String, m: u128)
    ensures
        final(out)@ == old(out)@ + decimal_digits(m as nat),
    decreases m,
{
    if m >= 10 {
        append_digits(out, m / 10);
    }
    let d = (m % 10) as u8;
    out.append(digit_str(d));
    proof {
        let t = decimal_digits(m as nat);
        if m >= 10 {
            assert(t == decimal_digits((m / 10) as nat).push(t.last()));
        }
    }
    assert(out@ =~= old(out)@ + decimal_digits(m as nat));
}

/// The decimal text of an integer: its digits, after a minus sign when it
/// is negative.
pub fn isize_text(n: isize) -> (r: String)
    ensures
        r@ == decimal_text(n as int),
{
    let mut r = String::new();
    let m: u128 = if n < 0 {
        r.append("-");
        proof {
            reveal_strlit("-");
        }
        assert(r@ =~= seq!['-']);
        (0i128 - n as i128) as u128
    } else {
        n as u128
    };
    append_digits(&mut r, m);
    assert(r@ =~= decimal_text(n as int));
    r
}

impl Object {
    /// The text of this value: its decimal digits, or `null`.
    pub fn to_string(&self) -> (r: String)
        ensures
            r@ == object_text(*self),
    {
        match self {
            Object::IntegerValue(n) => isize_text(*n),
            Object::NullValue => {
                proof {
                    reveal_strlit("null");
                }
                let r = "null".to_owned();
                assert(r@ =~= seq!['n', 'u', 'l', 'l']);
                r
            },
        }
    }
}

} // verus!
