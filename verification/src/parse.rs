use vstd::prelude::*;

use crate::float::double_bits;
use crate::grammar::digits_len;
use crate::grammar::float_exp_len;
use crate::grammar::float_lex_len;
use crate::grammar::is_ws_char;
use crate::grammar::non_quote_len;
use crate::grammar::spec_list_tail;
use crate::grammar::spec_parse_boolean;
use crate::grammar::spec_parse_char;
use crate::grammar::spec_parse_float;
use crate::grammar::spec_parse_list;
use crate::grammar::spec_parse_option;
use crate::grammar::spec_parse_string;
use crate::grammar::spec_parse_value;
use crate::grammar::spec_skip_ws;
use crate::grammar::SpecErr;
use crate::lemmas::lemma_parse_consumes;
use crate::lemmas::lemma_skip_ws_len;
use crate::value::opt_view;
use crate::value::lemma_value_view;
use crate::value::lemma_views_of_push;
use crate::value::views_of;
use crate::value::ErrorKind;
use crate::value::ParseError;
use crate::value::SpecValue;
use crate::value::Value;

verus! {

/// Whether `c` is ASCII whitespace.
fn ws_char(c: char) -> (r: bool)
    ensures
        r == is_ws_char(c),
{
    c == ' ' || c == '\t' || c == '\n' || c == '\r'
}

/// The index just past the ASCII whitespace that starts at `from`.
fn skip_ws_from(s: &str, from: usize, n: usize) -> (i: usize)
    requires
        from <= n,
        n == s@.len(),
    ensures
        from <= i <= n,
        s@.skip(i as int) == spec_skip_ws(s@.skip(from as int)),
{
    let mut i = from;
    loop
        invariant
            from <= i <= n,
            n == s@.len(),
            spec_skip_ws(s@.skip(from as int)) == spec_skip_ws(s@.skip(i as int)),
        ensures
            from <= i <= n,
            spec_skip_ws(s@.skip(from as int)) == spec_skip_ws(s@.skip(i as int)),
            i == n || !is_ws_char(s@[i as int]),
        decreases n - i,
    {
        if i >= n {
            break;
        }
        let c = s.get_char(i);
        if !ws_char(c) {
            break;
        }
        proof {
            assert(s@.skip(i as int).skip(1) =~= s@.skip(i as int + 1));
        }
        i = i + 1;
    }
    i
}

/// The index just past the run of decimal digits that starts at `from`.
fn digits_end(s: &str, from: usize, n: usize) -> (i: usize)
    requires
        from <= n,
        n == s@.len(),
    ensures
        from <= i <= n,
        i - from == digits_len(s@.skip(from as int)),
{
    proof {
        crate::lemmas::lemma_digits_len(s@.skip(from as int));
    }
    let mut i = from;
    loop
        invariant
            from <= i <= n,
            n == s@.len(),
            digits_len(s@.skip(from as int)) == i - from + digits_len(s@.skip(i as int)),
            digits_len(s@.skip(i as int)) >= 0,
        ensures
            from <= i <= n,
            digits_len(s@.skip(from as int)) == i - from + digits_len(s@.skip(i as int)),
            digits_len(s@.skip(i as int)) == 0,
        decreases n - i,
    {
        if i >= n {
            break;
        }
        let c = s.get_char(i);
        if !(c >= '0' && c <= '9') {
            break;
        }
        proof {
            assert(s@.skip(i as int).skip(1) =~= s@.skip(i as int + 1));
            crate::lemmas::lemma_digits_len(s@.skip(i as int + 1));
        }
        i = i + 1;
    }
    i
}

/// The index just past the run of characters other than a double quote that
/// starts at `from`.
fn non_quote_end(s: &str, from: usize, n: usize) -> (i: usize)
    requires
        from <= n,
        n == s@.len(),
    ensures
        from <= i <= n,
        i - from == non_quote_len(s@.skip(from as int)),
{
    proof {
        crate::lemmas::lemma_non_quote_len(s@.skip(from as int));
    }
    let mut i = from;
    loop
        invariant
            from <= i <= n,
            n == s@.len(),
            non_quote_len(s@.skip(from as int)) == i - from + non_quote_len(
                s@.skip(i as int),
            ),
            non_quote_len(s@.skip(i as int)) >= 0,
        ensures
            from <= i <= n,
            non_quote_len(s@.skip(from as int)) == i - from + non_quote_len(
                s@.skip(i as int),
            ),
            non_quote_len(s@.skip(i as int)) == 0,
        decreases n - i,
    {
        if i >= n {
            break;
        }
        let c = s.get_char(i);
        if c == '"' {
            break;
        }
        proof {
            assert(s@.skip(i as int).skip(1) =~= s@.skip(i as int + 1));
            crate::lemmas::lemma_non_quote_len(s@.skip(i as int + 1));
        }
        i = i + 1;
    }
    i
}

/// Consumes the leading ASCII whitespace of `input` and returns the
/// consumed span and the remainder; it always succeeds, a zero-width match
/// being valid.
pub fn parse_ws<'a>(input: &'a str) -> (r: Result<(&'a str, &'a str), ParseError<'a>>)
    ensures
        r matches Ok(p) && p.0@ == spec_skip_ws(input@) && p.1@ + p.0@ == input@,
{
    let n = input.unicode_len();
    let i = skip_ws_from(input, 0, n);
    proof {
        assert(input@.skip(0) =~= input@);
        assert(input@.subrange(0, i as int) + input@.skip(i as int) =~= input@);
        assert(input@.subrange(i as int, n as int) =~= input@.skip(i as int));
    }
    Ok((input.substring_char(i, n), input.substring_char(0, i)))
}

/// Parses the boolean form: the literal token `true` or `false`.
pub fn parse_boolean<'a>(input: &'a str) -> (r: Result<(&'a str, bool), ParseError<'a>>)
    ensures
        match r {
            Ok(p) => spec_parse_boolean(input@) == Ok::<(Seq<char>, bool), SpecErr>(
                (p.0@, p.1),
            ),
            Err(e) => spec_parse_boolean(input@) == Err::<(Seq<char>, bool), SpecErr>(
                SpecErr { kind: e.kind, rest: e.at@ },
            ),
        },
{
    let n = input.unicode_len();
    if n >= 4 && input.get_char(0) == 't' && input.get_char(1) == 'r' && input.get_char(2)
        == 'u' && input.get_char(3) == 'e' {
        Ok((input.substring_char(4, n), true))
    } else if n >= 5 && input.get_char(0) == 'f' && input.get_char(1) == 'a'
        && input.get_char(2) == 'l' && input.get_char(3) == 's' && input.get_char(4) == 'e' {
        Ok((input.substring_char(5, n), false))
    } else {
        Err(ParseError { kind: ErrorKind::NoMatch, at: input })
    }
}

/// Parses the character form: a single quote, exactly one scalar value that
/// is not itself a single quote, and a closing single quote.
pub fn parse_char<'a>(input: &'a str) -> (r: Result<(&'a str, char), ParseError<'a>>)
    ensures
        match r {
            Ok(p) => spec_parse_char(input@) == Ok::<(Seq<char>, char), SpecErr>(
                (p.0@, p.1),
            ),
            Err(e) => spec_parse_char(input@) == Err::<(Seq<char>, char), SpecErr>(
                SpecErr { kind: e.kind, rest: e.at@ },
            ),
        },
{
    let n = input.unicode_len();
    if n == 0 || input.get_char(0) != '\'' {
        Err(ParseError { kind: ErrorKind::NoMatch, at: input })
    } else if n >= 3 && input.get_char(1) != '\'' && input.get_char(2) == '\'' {
        Ok((input.substring_char(3, n), input.get_char(1)))
    } else {
        Err(ParseError { kind: ErrorKind::Malformed, at: input.substring_char(1, n) })
    }
}

/// Parses the string form: optional leading whitespace, a double quote, the
/// longest run of characters other than a double quote, and a closing
/// double quote. The parsed span borrows from the input.
pub fn parse_string<'a>(input: &'a str) -> (r: Result<(&'a str, &'a str), ParseError<'a>>)
    ensures
        match r {
            Ok(p) => spec_parse_string(input@) == Ok::<(Seq<char>, Seq<char>), SpecErr>(
                (p.0@, p.1@),
            ),
            Err(e) => spec_parse_string(input@) == Err::<(Seq<char>, Seq<char>), SpecErr>(
                SpecErr { kind: e.kind, rest: e.at@ },
            ),
        },
{
    let n = input.unicode_len();
    let w = skip_ws_from(input, 0, n);
    proof {
        assert(input@.skip(0) =~= input@);
    }
    let ghost t = spec_skip_ws(input@);
    if w == n || input.get_char(w) != '"' {
        proof {
            assert(input@.subrange(w as int, n as int) =~= t);
        }
        Err(ParseError { kind: ErrorKind::NoMatch, at: input.substring_char(w, n) })
    } else {
        let q = non_quote_end(input, w + 1, n);
        proof {
            assert(input@.skip(w as int).skip(1) =~= input@.skip(w as int + 1));
        }
        if q < n {
            proof {
                assert(input@.subrange(q as int + 1, n as int) =~= t.skip(
                    2 + (q - (w + 1)),
                ));
                assert(input@.subrange(w as int + 1, q as int) =~= t.subrange(
                    1,
                    1 + (q - (w + 1)),
                ));
            }
            Ok((input.substring_char(q + 1, n), input.substring_char(w + 1, q)))
        } else {
            proof {
                assert(input@.subrange(q as int, n as int) =~= t.skip(1 + (q - (w + 1))));
            }
            Err(ParseError { kind: ErrorKind::Malformed, at: input.substring_char(q, n) })
        }
    }
}

/// Parses the float form: optional leading whitespace, then a decimal float
/// lexeme, returned as the bits of the IEEE-754 double it denotes.
#[verifier::rlimit(100)]
pub fn parse_double<'a>(input: &'a str) -> (r: Result<(&'a str, u64), ParseError<'a>>)
    ensures
        match r {
            Ok(p) => spec_parse_float(input@) == Ok::<(Seq<char>, u64), SpecErr>(
                (p.0@, p.1),
            ),
            Err(e) => spec_parse_float(input@) == Err::<(Seq<char>, u64), SpecErr>(
                SpecErr { kind: e.kind, rest: e.at@ },
            ),
        },
{
    let n = input.unicode_len();
    let w = skip_ws_from(input, 0, n);
    proof {
        assert(input@.skip(0) =~= input@);
        assert(input@.subrange(w as int, n as int) =~= spec_skip_ws(input@));
    }
    let t = input.substring_char(w, n);
    let m = t.unicode_len();
    // optional sign
    let mut i: usize = 0;
    if 0 < m {
        let c = t.get_char(0);
        if c == '+' || c == '-' {
            i = 1;
        }
    }
    proof {
        assert(t@.skip(0) =~= t@);
    }
    // integer digits, then an optional fraction, or a fraction alone
    let d1 = digits_end(t, i, m);
    let mut e: usize = 0;
    let mut matched = false;
    if d1 > i {
        e = d1;
        if e < m && t.get_char(e) == '.' {
            e = digits_end(t, e + 1, m);
        }
        matched = true;
        proof {
            assert(float_lex_len(t@) == float_exp_len(t@, e as int));
        }
    } else if i < m && t.get_char(i) == '.' {
        let d2 = digits_end(t, i + 1, m);
        if d2 > i + 1 {
            e = d2;
            matched = true;
            proof {
                assert(float_lex_len(t@) == float_exp_len(t@, e as int));
            }
        }
    }
    if !matched {
        proof {
            assert(float_lex_len(t@) == Err::<int, ErrorKind>(ErrorKind::NoMatch));
        }
        return Err(ParseError { kind: ErrorKind::NoMatch, at: t });
    }
    // optional exponent; an `e` or `E` commits
    let mut lex_end = e;
    let mut has_exp = false;
    if e < m {
        let c = t.get_char(e);
        if c == 'e' || c == 'E' {
            has_exp = true;
        }
    }
    if has_exp {
        let mut j = e + 1;
        if j < m {
            let c2 = t.get_char(j);
            if c2 == '+' || c2 == '-' {
                j = j + 1;
            }
        }
        let de = digits_end(t, j, m);
        if de == j {
            proof {
                assert(float_exp_len(t@, e as int) == Err::<int, ErrorKind>(
                    ErrorKind::Malformed,
                ));
            }
            return Err(ParseError { kind: ErrorKind::Malformed, at: t });
        }
        lex_end = de;
        proof {
            assert(float_exp_len(t@, e as int) == Ok::<int, ErrorKind>(lex_end as int));
        }
    } else {
        proof {
            assert(float_exp_len(t@, e as int) == Ok::<int, ErrorKind>(lex_end as int));
        }
    }
    let bits = double_bits(t, lex_end);
    proof {
        assert(t@.subrange(lex_end as int, m as int) =~= t@.skip(lex_end as int));
    }
    Ok((t.substring_char(lex_end, m), bits))
}

/// Parses the option form: the literal `None`, or `Some(` followed by a
/// value, optional whitespace and `)`.
pub fn parse_option<'a>(input: &'a str) -> (r: Result<
    (&'a str, Option<Box<Value<'a>>>),
    ParseError<'a>,
>)
    ensures
        match r {
            Ok(p) => spec_parse_option(input@) == Ok::<
                (Seq<char>, Option<Box<SpecValue>>),
                SpecErr,
            >((p.0@, opt_view(p.1))),
            Err(e) => spec_parse_option(input@) == Err::<
                (Seq<char>, Option<Box<SpecValue>>),
                SpecErr,
            >(SpecErr { kind: e.kind, rest: e.at@ }),
        },
    decreases input@.len(), 1int,
{
    let n = input.unicode_len();
    if n >= 4 && input.get_char(0) == 'N' && input.get_char(1) == 'o' && input.get_char(2)
        == 'n' && input.get_char(3) == 'e' {
        return Ok((input.substring_char(4, n), None));
    }
    if n >= 5 && input.get_char(0) == 'S' && input.get_char(1) == 'o' && input.get_char(2)
        == 'm' && input.get_char(3) == 'e' && input.get_char(4) == '(' {
        let inner = input.substring_char(5, n);
        proof {
            assert(inner@ =~= input@.skip(5));
        }
        match parse_value(inner) {
            Ok((rest1, v)) => {
                let m = rest1.unicode_len();
                let w = skip_ws_from(rest1, 0, m);
                proof {
                    assert(rest1@.skip(0) =~= rest1@);
                }
                if w < m && rest1.get_char(w) == ')' {
                    proof {
                        assert(rest1@.subrange(w as int + 1, m as int) =~= spec_skip_ws(
                            rest1@,
                        ).skip(1));
                    }
                    Ok((rest1.substring_char(w + 1, m), Some(Box::new(v))))
                } else {
                    proof {
                        assert(rest1@.subrange(w as int, m as int) =~= spec_skip_ws(rest1@));
                    }
                    Err(
                        ParseError {
                            kind: ErrorKind::Malformed,
                            at: rest1.substring_char(w, m),
                        },
                    )
                }
            },
            Err(e) => Err(ParseError { kind: ErrorKind::Malformed, at: e.at }),
        }
    } else {
        Err(ParseError { kind: ErrorKind::NoMatch, at: input })
    }
}

/// Parses the list form: `[`, zero or more values separated by `,`, with
/// optional whitespace before each separator and the closing `]`.
pub fn parse_list<'a>(input: &'a str) -> (r: Result<
    (&'a str, Vec<Value<'a>>),
    ParseError<'a>,
>)
    ensures
        match r {
            Ok(p) => spec_parse_list(input@) == Ok::<
                (Seq<char>, Seq<SpecValue>),
                SpecErr,
            >((p.0@, views_of(p.1@))),
            Err(e) => spec_parse_list(input@) == Err::<
                (Seq<char>, Seq<SpecValue>),
                SpecErr,
            >(SpecErr { kind: e.kind, rest: e.at@ }),
        },
    decreases input@.len(), 1int,
{
    let n = input.unicode_len();
    if n == 0 || input.get_char(0) != '[' {
        return Err(ParseError { kind: ErrorKind::NoMatch, at: input });
    }
    let tail0 = input.substring_char(1, n);
    proof {
        assert(tail0@ =~= input@.skip(1));
    }
    match parse_value(tail0) {
        Err(e) => {
            if e.kind == ErrorKind::Malformed {
                Err(ParseError { kind: ErrorKind::Malformed, at: e.at })
            } else {
                let m = tail0.unicode_len();
                let w = skip_ws_from(tail0, 0, m);
                proof {
                    assert(tail0@.skip(0) =~= tail0@);
                }
                if w < m && tail0.get_char(w) == ']' {
                    proof {
                        assert(tail0@.subrange(w as int + 1, m as int) =~= spec_skip_ws(
                            tail0@,
                        ).skip(1));
                        assert(views_of(Seq::<Value>::empty()) =~= Seq::<
                            SpecValue,
                        >::empty());
                    }
                    Ok((tail0.substring_char(w + 1, m), Vec::new()))
                } else {
                    proof {
                        assert(tail0@.subrange(w as int, m as int) =~= spec_skip_ws(tail0@));
                    }
                    Err(
                        ParseError {
                            kind: ErrorKind::Malformed,
                            at: tail0.substring_char(w, m),
                        },
                    )
                }
            }
        },
        Ok((rest1, v0)) => {
            proof {
                lemma_parse_consumes(tail0@);
            }
            let mut acc: Vec<Value> = Vec::new();
            acc.push(v0);
            let mut cur: &str = rest1;
            proof {
                assert(acc@.subrange(1, 1) =~= Seq::<Value>::empty());
                assert(views_of(Seq::<Value>::empty()) =~= Seq::<SpecValue>::empty());
                assert(views_of(acc@) =~= seq![crate::value::value_view(v0)]);
            }
            loop
                invariant
                    cur@.len() < input@.len(),
                    spec_parse_list(input@) == spec_list_tail(cur@, views_of(acc@)),
                decreases cur@.len(),
            {
                let m = cur.unicode_len();
                let w = skip_ws_from(cur, 0, m);
                proof {
                    assert(cur@.skip(0) =~= cur@);
                    lemma_skip_ws_len(cur@);
                }
                if w < m {
                    let c = cur.get_char(w);
                    if c == ']' {
                        proof {
                            assert(cur@.subrange(w as int + 1, m as int) =~= spec_skip_ws(
                                cur@,
                            ).skip(1));
                        }
                        return Ok((cur.substring_char(w + 1, m), acc));
                    } else if c == ',' {
                        let after = cur.substring_char(w + 1, m);
                        proof {
                            assert(after@ =~= spec_skip_ws(cur@).skip(1));
                        }
                        match parse_value(after) {
                            Ok((rest2, v)) => {
                                proof {
                                    lemma_parse_consumes(after@);
                                    lemma_views_of_push(acc@, v);
                                }
                                acc.push(v);
                                cur = rest2;
                            },
                            Err(e) => {
                                return Err(
                                    ParseError { kind: ErrorKind::Malformed, at: e.at },
                                );
                            },
                        }
                    } else {
                        proof {
                            assert(cur@.subrange(w as int, m as int) =~= spec_skip_ws(cur@));
                        }
                        return Err(
                            ParseError {
                                kind: ErrorKind::Malformed,
                                at: cur.substring_char(w, m),
                            },
                        );
                    }
                } else {
                    proof {
                        assert(cur@.subrange(w as int, m as int) =~= spec_skip_ws(cur@));
                    }
                    return Err(
                        ParseError {
                            kind: ErrorKind::Malformed,
                            at: cur.substring_char(w, m),
                        },
                    );
                }
            }
        },
    }
}

/// Parses any value: the six forms are tried in a fixed order — list,
/// option, float, character, string, boolean — and the first match wins. A
/// hard failure after a committing token is not hidden by a later
/// alternative. Trailing unconsumed input is not an error.
pub fn parse_value<'a>(input: &'a str) -> (r: Result<(&'a str, Value<'a>), ParseError<'a>>)
    ensures
        match r {
            Ok(p) => spec_parse_value(input@) == Ok::<(Seq<char>, SpecValue), SpecErr>(
                (p.0@, p.1@),
            ),
            Err(e) => spec_parse_value(input@) == Err::<(Seq<char>, SpecValue), SpecErr>(
                SpecErr { kind: e.kind, rest: e.at@ },
            ),
        },
    decreases input@.len(), 2int,
{
    match parse_list(input) {
        Ok((rest, l)) => {
            proof {
                lemma_value_view(Value::List(l));
            }
            return Ok((rest, Value::List(l)));
        },
        Err(e1) => {
            if e1.kind == ErrorKind::Malformed {
                return Err(e1);
            }
        },
    }
    match parse_option(input) {
        Ok((rest, o)) => {
            proof {
                lemma_value_view(Value::Option(o));
            }
            return Ok((rest, Value::Option(o)));
        },
        Err(e2) => {
            if e2.kind == ErrorKind::Malformed {
                return Err(e2);
            }
        },
    }
    match parse_double(input) {
        Ok((rest, bits)) => {
            proof {
                lemma_value_view(Value::Float(bits));
            }
            return Ok((rest, Value::Float(bits)));
        },
        Err(e3) => {
            if e3.kind == ErrorKind::Malformed {
                return Err(e3);
            }
        },
    }
    match parse_char(input) {
        Ok((rest, c)) => {
            proof {
                lemma_value_view(Value::Char(c));
            }
            return Ok((rest, Value::Char(c)));
        },
        Err(e4) => {
            if e4.kind == ErrorKind::Malformed {
                return Err(e4);
            }
        },
    }
    match parse_string(input) {
        Ok((rest, q)) => {
            proof {
                lemma_value_view(Value::String(q));
            }
            return Ok((rest, Value::String(q)));
        },
        Err(e5) => {
            if e5.kind == ErrorKind::Malformed {
                return Err(e5);
            }
        },
    }
    match parse_boolean(input) {
        Ok((rest, b)) => {
            proof {
                lemma_value_view(Value::Boolean(b));
            }
            Ok((rest, Value::Boolean(b)))
        },
        Err(_) => Err(ParseError { kind: ErrorKind::NoMatch, at: input }),
    }
}

} // verus!
