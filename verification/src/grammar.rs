use vstd::prelude::*;

use crate::float::float_bits_of;
use crate::value::ErrorKind;
use crate::value::SpecValue;

verus! {

/// A parse failure in the model: its class, and the remaining input at the
/// position where matching stopped.
pub struct SpecErr {
    pub kind: ErrorKind,
    pub rest: Seq<char>,
}

/// ASCII whitespace: space, tab, line feed, carriage return.
pub open spec fn is_ws_char(c: char) -> bool {
    c == ' ' || c == '\t' || c == '\n' || c == '\r'
}

/// A decimal digit.
pub open spec fn is_digit(c: char) -> bool {
    '0' <= c && c <= '9'
}

/// A leading sign of a float literal.
pub open spec fn is_sign(c: char) -> bool {
    c == '+' || c == '-'
}

/// The remainder of `s` after its leading ASCII whitespace.
pub open spec fn spec_skip_ws(s: Seq<char>) -> Seq<char>
    decreases s.len(),
{
    if s.len() > 0 && is_ws_char(s[0]) {
        spec_skip_ws(s.skip(1))
    } else {
        s
    }
}

/// The number of decimal digits at the head of `s`.
pub open spec fn digits_len(s: Seq<char>) -> int
    decreases s.len(),
{
    if s.len() > 0 && is_digit(s[0]) {
        1 + digits_len(s.skip(1))
    } else {
        0
    }
}

/// The number of characters other than a double quote at the head of `s`.
pub open spec fn non_quote_len(s: Seq<char>) -> int
    decreases s.len(),
{
    if s.len() > 0 && s[0] != '"' {
        1 + non_quote_len(s.skip(1))
    } else {
        0
    }
}

/// Extends a float lexeme of mantissa length `m` by an exponent part, if one
/// begins at position `m` of `s`. An `e` or `E` commits: digits must follow
/// the optional exponent sign, or the lexeme is malformed.
pub open spec fn float_exp_len(s: Seq<char>, m: int) -> Result<int, ErrorKind> {
    if 0 <= m < s.len() && (s[m] == 'e' || s[m] == 'E') {
        let j = if m + 1 < s.len() && is_sign(s[m + 1]) {
            m + 2
        } else {
            m + 1
        };
        if digits_len(s.skip(j)) > 0 {
            Ok(j + digits_len(s.skip(j)))
        } else {
            Err(ErrorKind::Malformed)
        }
    } else {
        Ok(m)
    }
}

/// The length of the float lexeme at the head of `s`: an optional sign, then
/// either digits with an optional fraction or a dot with digits, then an
/// optional exponent.
pub open spec fn float_lex_len(s: Seq<char>) -> Result<int, ErrorKind> {
    let i0: int = if s.len() > 0 && is_sign(s[0]) {
        1
    } else {
        0
    };
    let d1 = digits_len(s.skip(i0));
    if d1 > 0 {
        let j = i0 + d1;
        if j < s.len() && s[j] == '.' {
            float_exp_len(s, j + 1 + digits_len(s.skip(j + 1)))
        } else {
            float_exp_len(s, j)
        }
    } else if i0 < s.len() && s[i0] == '.' && digits_len(s.skip(i0 + 1)) > 0 {
        float_exp_len(s, i0 + 1 + digits_len(s.skip(i0 + 1)))
    } else {
        Err(ErrorKind::NoMatch)
    }
}

/// `s` is, in full, one float lexeme.
pub open spec fn is_float_lexeme(s: Seq<char>) -> bool {
    float_lex_len(s) == Ok::<int, ErrorKind>(s.len() as int)
}

/// The float form: leading ASCII whitespace is trimmed, then a float lexeme
/// is read and denotes the bits of the IEEE-754 double it names. A failure
/// is reported at the trimmed position.
pub open spec fn spec_parse_float(s: Seq<char>) -> Result<(Seq<char>, u64), SpecErr> {
    let t = spec_skip_ws(s);
    match float_lex_len(t) {
        Ok(n) => Ok((t.skip(n), float_bits_of(t.take(n)))),
        Err(k) => Err(SpecErr { kind: k, rest: t }),
    }
}

/// The boolean form: exactly the token `true` or `false`, case-sensitive,
/// with no whitespace trimming.
pub open spec fn spec_parse_boolean(s: Seq<char>) -> Result<(Seq<char>, bool), SpecErr> {
    if s.len() >= 4 && s[0] == 't' && s[1] == 'r' && s[2] == 'u' && s[3] == 'e' {
        Ok((s.skip(4), true))
    } else if s.len() >= 5 && s[0] == 'f' && s[1] == 'a' && s[2] == 'l' && s[3] == 's'
        && s[4] == 'e' {
        Ok((s.skip(5), false))
    } else {
        Err(SpecErr { kind: ErrorKind::NoMatch, rest: s })
    }
}

/// The character form: a single quote, exactly one scalar value that is not
/// itself a single quote, and a closing single quote. The opening quote
/// commits, so anything else after it is malformed.
pub open spec fn spec_parse_char(s: Seq<char>) -> Result<(Seq<char>, char), SpecErr> {
    if s.len() == 0 || s[0] != '\'' {
        Err(SpecErr { kind: ErrorKind::NoMatch, rest: s })
    } else if s.len() >= 3 && s[1] != '\'' && s[2] == '\'' {
        Ok((s.skip(3), s[1]))
    } else {
        Err(SpecErr { kind: ErrorKind::Malformed, rest: s.skip(1) })
    }
}

/// The string form: leading ASCII whitespace is trimmed, then a double
/// quote, the longest run of characters other than a double quote, and a
/// closing double quote. The opening quote commits: a missing closing quote
/// is malformed, reported at the end of the run.
pub open spec fn spec_parse_string(s: Seq<char>) -> Result<(Seq<char>, Seq<char>), SpecErr> {
    let t = spec_skip_ws(s);
    if t.len() == 0 || t[0] != '"' {
        Err(SpecErr { kind: ErrorKind::NoMatch, rest: t })
    } else {
        let n = non_quote_len(t.skip(1));
        if 1 + n < t.len() {
            Ok((t.skip(2 + n), t.subrange(1, 1 + n)))
        } else {
            Err(SpecErr { kind: ErrorKind::Malformed, rest: t.skip(1 + n) })
        }
    }
}

/// The option form: the literal `None`, or `Some(` followed by a value,
/// optional whitespace and `)`. `Some(` commits: a failing inner value or a
/// missing closing parenthesis is malformed.
pub open spec fn spec_parse_option(s: Seq<char>) -> Result<
    (Seq<char>, Option<Box<SpecValue>>),
    SpecErr,
>
    decreases s.len(), 1int,
{
    if s.len() >= 4 && s[0] == 'N' && s[1] == 'o' && s[2] == 'n' && s[3] == 'e' {
        Ok((s.skip(4), Option::None))
    } else if s.len() >= 5 && s[0] == 'S' && s[1] == 'o' && s[2] == 'm' && s[3] == 'e'
        && s[4] == '(' {
        match spec_parse_value(s.skip(5)) {
            Ok((r, v)) => {
                let t = spec_skip_ws(r);
                if t.len() > 0 && t[0] == ')' {
                    Ok((t.skip(1), Option::Some(Box::new(v))))
                } else {
                    Err(SpecErr { kind: ErrorKind::Malformed, rest: t })
                }
            },
            Err(e) => Err(SpecErr { kind: ErrorKind::Malformed, rest: e.rest }),
        }
    } else {
        Err(SpecErr { kind: ErrorKind::NoMatch, rest: s })
    }
}

/// The list form: `[` commits, then zero or more values separated by `,`,
/// with optional whitespace before each separator and before the closing
/// `]`. Whitespace before the first element is only what that element's own
/// form trims.
pub open spec fn spec_parse_list(s: Seq<char>) -> Result<
    (Seq<char>, Seq<SpecValue>),
    SpecErr,
>
    decreases s.len(), 1int,
{
    if s.len() == 0 || s[0] != '[' {
        Err(SpecErr { kind: ErrorKind::NoMatch, rest: s })
    } else {
        match spec_parse_value(s.skip(1)) {
            Ok((r, v)) => {
                if r.len() < s.len() {
                    spec_list_tail(r, seq![v])
                } else {
                    // Never taken: a parsed value consumes at least one
                    // character (`lemma_parse_consumes`); the branch keeps
                    // the recursion visibly well-founded.
                    Err(SpecErr { kind: ErrorKind::Malformed, rest: r })
                }
            },
            Err(e) => {
                if e.kind == ErrorKind::Malformed {
                    Err(SpecErr { kind: ErrorKind::Malformed, rest: e.rest })
                } else {
                    let t = spec_skip_ws(s.skip(1));
                    if t.len() > 0 && t[0] == ']' {
                        Ok((t.skip(1), Seq::empty()))
                    } else {
                        Err(SpecErr { kind: ErrorKind::Malformed, rest: t })
                    }
                }
            },
        }
    }
}

/// After one list element: optional whitespace, then either `]` closes the
/// list or `,` demands a further value.
pub open spec fn spec_list_tail(s: Seq<char>, acc: Seq<SpecValue>) -> Result<
    (Seq<char>, Seq<SpecValue>),
    SpecErr,
>
    decreases s.len(), 0int,
{
    let t = spec_skip_ws(s);
    if t.len() > s.len() {
        // Never taken: skipping whitespace cannot grow the input
        // (`lemma_skip_ws_len`); the branch keeps the recursion visibly
        // well-founded.
        Err(SpecErr { kind: ErrorKind::Malformed, rest: s })
    } else if t.len() == 0 {
        Err(SpecErr { kind: ErrorKind::Malformed, rest: t })
    } else if t[0] == ']' {
        Ok((t.skip(1), acc))
    } else if t[0] == ',' {
        match spec_parse_value(t.skip(1)) {
            Ok((r, v)) => {
                if r.len() < s.len() {
                    spec_list_tail(r, acc.push(v))
                } else {
                    // Never taken: a parsed value consumes at least one
                    // character (`lemma_parse_consumes`).
                    Err(SpecErr { kind: ErrorKind::Malformed, rest: r })
                }
            },
            Err(e) => Err(SpecErr { kind: ErrorKind::Malformed, rest: e.rest }),
        }
    } else {
        Err(SpecErr { kind: ErrorKind::Malformed, rest: t })
    }
}

/// The dispatcher: the six forms are tried in a fixed order, and the first
/// match wins. A `Malformed` failure of one form is hard and is not hidden
/// by a later alternative; if every form reports `NoMatch`, the whole parse
/// reports `NoMatch` at the start.
pub open spec fn spec_parse_value(s: Seq<char>) -> Result<(Seq<char>, SpecValue), SpecErr>
    decreases s.len(), 2int,
{
    match spec_parse_list(s) {
        Ok((r, l)) => Ok((r, SpecValue::List(l))),
        Err(e1) => {
            if e1.kind == ErrorKind::Malformed {
                Err(e1)
            } else {
                match spec_parse_option(s) {
                    Ok((r, o)) => Ok((r, SpecValue::Opt(o))),
                    Err(e2) => {
                        if e2.kind == ErrorKind::Malformed {
                            Err(e2)
                        } else {
                            match spec_parse_float(s) {
                                Ok((r, bits)) => Ok((r, SpecValue::Float(bits))),
                                Err(e3) => {
                                    if e3.kind == ErrorKind::Malformed {
                                        Err(e3)
                                    } else {
                                        match spec_parse_char(s) {
                                            Ok((r, c)) => Ok((r, SpecValue::Char(c))),
                                            Err(e4) => {
                                                if e4.kind == ErrorKind::Malformed {
                                                    Err(e4)
                                                } else {
                                                    match spec_parse_string(s) {
                                                        Ok((r, q)) => Ok(
                                                            (r, SpecValue::Str(q)),
                                                        ),
                                                        Err(e5) => {
                                                            if e5.kind == ErrorKind::Malformed {
                                                                Err(e5)
                                                            } else {
                                                                match spec_parse_boolean(s) {
                                                                    Ok((r, b)) => Ok(
                                                                        (r, SpecValue::Boolean(b)),
                                                                    ),
                                                                    Err(_) => Err(
                                                                        SpecErr {
                                                                            kind: ErrorKind::NoMatch,
                                                                            rest: s,
                                                                        },
                                                                    ),
                                                                }
                                                            }
                                                        },
                                                    }
                                                }
                                            },
                                        }
                                    }
                                },
                            }
                        }
                    },
                }
            }
        },
    }
}

} // verus!
