use vstd::prelude::*;

use crate::float::float_bits_of;
use crate::grammar::digits_len;
use crate::grammar::float_lex_len;
use crate::grammar::is_digit;
use crate::grammar::is_float_lexeme;
use crate::grammar::is_sign;
use crate::grammar::is_ws_char;
use crate::grammar::non_quote_len;
use crate::grammar::spec_list_tail;
use crate::grammar::spec_parse_boolean;
use crate::grammar::spec_parse_char;
use crate::grammar::spec_parse_float;
use crate::grammar::spec_parse_list;
use crate::grammar::spec_parse_option;
use crate::grammar::spec_parse_string;
use crate::grammar::spec_parse_value;
use crate::grammar::spec_skip_ws;
use crate::grammar::SpecErr;
use crate::lemmas::lemma_float_lex_len;
use crate::lemmas::lemma_parse_consumes;
use crate::lemmas::lemma_skip_ws_len;
use crate::value::ErrorKind;
use crate::value::SpecValue;

verus! {

/// Every character of `w` is ASCII whitespace.
pub open spec fn all_ws(w: Seq<char>) -> bool {
    forall|i: int| 0 <= i < w.len() ==> is_ws_char(w[i])
}

/// Law: the whitespace skipper absorbs any amount of leading ASCII
/// whitespace, so what stands after a skip point is read the same however
/// much whitespace is inserted there.
pub proof fn lemma_skip_ws_prepend(w: Seq<char>, s: Seq<char>)
    requires
        all_ws(w),
    ensures
        spec_skip_ws(w + s) == spec_skip_ws(s),
    decreases w.len(),
{
    if w.len() == 0 {
        assert(w + s =~= s);
    } else {
        assert(is_ws_char(w[0]));
        assert((w + s)[0] == w[0]);
        assert((w + s).skip(1) =~= w.skip(1) + s);
        assert(all_ws(w.skip(1))) by {
            assert forall|i: int| 0 <= i < w.skip(1).len() implies is_ws_char(
                w.skip(1)[i],
            ) by {
                assert(w.skip(1)[i] == w[i + 1]);
            }
        }
        lemma_skip_ws_prepend(w.skip(1), s);
    }
}

/// Law: ASCII whitespace inserted before a float literal changes neither
/// the parsed value nor the remainder, the float form trimming its own
/// leading whitespace.
pub proof fn lemma_ws_before_float(w: Seq<char>, s: Seq<char>)
    requires
        all_ws(w),
    ensures
        spec_parse_float(w + s) == spec_parse_float(s),
{
    lemma_skip_ws_prepend(w, s);
}

/// Law: ASCII whitespace inserted before a string literal changes neither
/// the parsed span nor the remainder, the string form trimming its own
/// leading whitespace.
pub proof fn lemma_ws_before_string(w: Seq<char>, s: Seq<char>)
    requires
        all_ws(w),
    ensures
        spec_parse_string(w + s) == spec_parse_string(s),
{
    lemma_skip_ws_prepend(w, s);
}

/// Law: ASCII whitespace inserted after a list element — before the `,`
/// that continues the list or the `]` that closes it — does not change how
/// the rest of the list is read.
pub proof fn lemma_ws_in_list_tail(w: Seq<char>, s: Seq<char>, acc: Seq<SpecValue>)
    requires
        all_ws(w),
    ensures
        spec_list_tail(w + s, acc) == spec_list_tail(s, acc),
{
    lemma_skip_ws_prepend(w, s);
    lemma_skip_ws_len(s);
    let t = spec_skip_ws(s);
    if t.len() > 0 && t[0] != ']' && t[0] == ',' {
        lemma_parse_consumes(t.skip(1));
        match spec_parse_value(t.skip(1)) {
            Ok((r, v)) => {
                assert(r.len() < s.len() && r.len() < (w + s).len());
            },
            Err(_) => {},
        }
    }
}

/// Law: ASCII whitespace inserted before the parenthesis that closes a
/// `Some(...)` does not change the parsed option or the remainder.
pub proof fn lemma_ws_before_option_close(v: SpecValue, w: Seq<char>, u: Seq<char>)
    requires
        renderable(v),
        all_ws(w),
    ensures
        spec_parse_option(seq!['S', 'o', 'm', 'e', '('] + render(v) + w + seq![')'] + u)
            == Ok::<(Seq<char>, Option<Box<SpecValue>>), SpecErr>(
            (u, Option::Some(Box::new(v))),
        ),
{
    let s = seq!['S', 'o', 'm', 'e', '('] + render(v) + w + seq![')'] + u;
    assert(s[0] == 'S' && s[1] == 'o' && s[2] == 'm' && s[3] == 'e' && s[4] == '(');
    assert(s.skip(5) =~= render(v) + (w + (seq![')'] + u)));
    lemma_render_parses(v, w + (seq![')'] + u));
    lemma_skip_ws_prepend(w, seq![')'] + u);
    assert(spec_skip_ws(seq![')'] + u) == seq![')'] + u);
    assert((seq![')'] + u).skip(1) =~= u);
}

/// Law: an input that is, in full, one float lexeme of the decimal grammar
/// parses as a float whose bits are those of the double the lexeme denotes,
/// with nothing left over.
pub proof fn lemma_float_lexeme_parses(s: Seq<char>)
    requires
        is_float_lexeme(s),
    ensures
        spec_parse_value(s) == Ok::<(Seq<char>, SpecValue), SpecErr>(
            (Seq::<char>::empty(), SpecValue::Float(float_bits_of(s))),
        ),
{
    lemma_float_lex_len(s);
    assert(s.len() >= 1);
    // the lexeme starts with a sign, a digit, or a dot
    assert(is_sign(s[0]) || is_digit(s[0]) || s[0] == '.') by {
        assert(s.skip(0) =~= s);
        if !is_sign(s[0]) {
            if digits_len(s) == 0 && s[0] != '.' {
                assert(float_lex_len(s) == Err::<int, ErrorKind>(ErrorKind::NoMatch));
            }
            if digits_len(s) == 0 && !is_digit(s[0]) {
            } else {
                assert(is_digit(s[0]));
            }
        }
    }
    assert(spec_skip_ws(s) == s);
    assert(s.skip(0) =~= s);
    assert(spec_parse_float(s) == Ok::<(Seq<char>, u64), SpecErr>(
        (s.skip(s.len() as int), float_bits_of(s.take(s.len() as int))),
    ));
    assert(s.skip(s.len() as int) =~= Seq::<char>::empty());
    assert(s.take(s.len() as int) =~= s);
}

/// Each alternative of the dispatcher reports `NoMatch` when its leading
/// token is absent.
proof fn lemma_stages_no_match(s: Seq<char>)
    requires
        s.len() > 0,
        !is_ws_char(s[0]),
    ensures
        s[0] != '[' ==> spec_parse_list(s) == Err::<(Seq<char>, Seq<SpecValue>), SpecErr>(
            SpecErr { kind: ErrorKind::NoMatch, rest: s },
        ),
        s[0] != 'N' && s[0] != 'S' ==> spec_parse_option(s) == Err::<
            (Seq<char>, Option<Box<SpecValue>>),
            SpecErr,
        >(SpecErr { kind: ErrorKind::NoMatch, rest: s }),
        !is_sign(s[0]) && !is_digit(s[0]) && s[0] != '.' ==> spec_parse_float(s) == Err::<
            (Seq<char>, u64),
            SpecErr,
        >(SpecErr { kind: ErrorKind::NoMatch, rest: s }),
        s[0] != '\'' ==> spec_parse_char(s) == Err::<(Seq<char>, char), SpecErr>(
            SpecErr { kind: ErrorKind::NoMatch, rest: s },
        ),
        s[0] != '"' ==> spec_parse_string(s) == Err::<(Seq<char>, Seq<char>), SpecErr>(
            SpecErr { kind: ErrorKind::NoMatch, rest: s },
        ),
        s[0] != 't' && s[0] != 'f' ==> spec_parse_boolean(s) == Err::<
            (Seq<char>, bool),
            SpecErr,
        >(SpecErr { kind: ErrorKind::NoMatch, rest: s }),
{
    assert(spec_skip_ws(s) == s);
    assert(s.skip(0) =~= s);
}

/// No alternative matches an input whose first character begins no form.
proof fn lemma_value_no_match(s: Seq<char>)
    requires
        s.len() > 0,
        !is_ws_char(s[0]),
        s[0] != '[' && s[0] != 'N' && s[0] != 'S' && !is_sign(s[0]) && !is_digit(s[0])
            && s[0] != '.' && s[0] != '\'' && s[0] != '"' && s[0] != 't' && s[0] != 'f',
    ensures
        spec_parse_value(s) == Err::<(Seq<char>, SpecValue), SpecErr>(
            SpecErr { kind: ErrorKind::NoMatch, rest: s },
        ),
{
    lemma_stages_no_match(s);
}

/// The renderable fragment of the value model: every tree whose textual
/// form the grammar can read back. Floats are left out — writing one out
/// would need the inverse of the decimal-to-double conversion — as are
/// strings holding a double quote and the single-quote character, which the
/// grammar cannot spell.
pub open spec fn renderable(v: SpecValue) -> bool
    decreases v,
{
    match v {
        SpecValue::Float(_) => false,
        SpecValue::Boolean(_) => true,
        SpecValue::Str(q) => forall|i: int| 0 <= i < q.len() ==> q[i] != '"',
        SpecValue::Char(c) => c != '\'',
        SpecValue::List(l) => forall|i: int|
            0 <= i < l.len() ==> renderable(#[trigger] l[i]),
        SpecValue::Opt(o) => (match o {
            Option::None => true,
            Option::Some(b) => renderable(*b),
        }),
    }
}

/// The textual form of a renderable value tree.
pub open spec fn render(v: SpecValue) -> Seq<char>
    decreases v,
{
    match v {
        SpecValue::Float(_) => Seq::empty(),
        SpecValue::Boolean(b) => (if b {
            seq!['t', 'r', 'u', 'e']
        } else {
            seq!['f', 'a', 'l', 's', 'e']
        }),
        SpecValue::Str(q) => seq!['"'] + q + seq!['"'],
        SpecValue::Char(c) => seq!['\'', c, '\''],
        SpecValue::List(l) => (if l.len() == 0 {
            seq!['[', ']']
        } else {
            seq!['['] + render(l[0]) + render_tail(l.subrange(1, l.len() as int))
        }),
        SpecValue::Opt(o) => (match o {
            Option::None => seq!['N', 'o', 'n', 'e'],
            Option::Some(b) => seq!['S', 'o', 'm', 'e', '('] + render(*b) + seq![')'],
        }),
    }
}

/// The textual form of what follows a first list element: each further
/// element behind its separator, then the closing bracket.
pub open spec fn render_tail(l: Seq<SpecValue>) -> Seq<char>
    decreases l,
{
    if l.len() == 0 {
        seq![']']
    } else {
        seq![','] + render(l[0]) + render_tail(l.subrange(1, l.len() as int))
    }
}

/// A quote-free span followed by a quote is read back whole.
proof fn lemma_non_quote_prepend(q: Seq<char>, r: Seq<char>)
    requires
        forall|i: int| 0 <= i < q.len() ==> q[i] != '"',
        r.len() > 0,
        r[0] == '"',
    ensures
        non_quote_len(q + r) == q.len(),
    decreases q.len(),
{
    if q.len() == 0 {
        assert(q + r =~= r);
    } else {
        assert((q + r)[0] == q[0]);
        assert((q + r).skip(1) =~= q.skip(1) + r);
        assert(forall|i: int| 0 <= i < q.skip(1).len() ==> q.skip(1)[i] == q[i + 1]);
        lemma_non_quote_prepend(q.skip(1), r);
    }
}

/// Law: the textual form of a renderable tree, before any suffix, parses
/// back to exactly that tree, the suffix left as the remainder. Taking the
/// suffix empty: rendering and re-parsing is the identity.
#[verifier::rlimit(100)]
#[verifier::spinoff_prover]
pub proof fn lemma_render_parses(v: SpecValue, u: Seq<char>)
    requires
        renderable(v),
    ensures
        spec_parse_value(render(v) + u) == Ok::<(Seq<char>, SpecValue), SpecErr>((u, v)),
    decreases v,
{
    let s = render(v) + u;
    match v {
        SpecValue::Float(_) => {
            assert(false);
        },
        SpecValue::Boolean(b) => {
            if b {
                assert(render(v) == seq!['t', 'r', 'u', 'e']);
                lemma_stages_no_match(s);
                assert(s.skip(4) =~= u);
                assert(spec_parse_boolean(s) == Ok::<(Seq<char>, bool), SpecErr>(
                    (u, true),
                ));
            } else {
                assert(render(v) == seq!['f', 'a', 'l', 's', 'e']);
                lemma_stages_no_match(s);
                assert(s.skip(5) =~= u);
                assert(spec_parse_boolean(s) == Ok::<(Seq<char>, bool), SpecErr>(
                    (u, false),
                ));
            }
        },
        SpecValue::Char(c) => {
            assert(render(v) == seq!['\'', c, '\'']);
            lemma_stages_no_match(s);
            assert(s.skip(3) =~= u);
            assert(spec_parse_char(s) == Ok::<(Seq<char>, char), SpecErr>((u, c)));
        },
        SpecValue::Str(q) => {
            assert(render(v) == seq!['"'] + q + seq!['"']);
            assert(s[0] == '"');
            lemma_stages_no_match(s);
            assert(spec_skip_ws(s) == s);
            assert(s.skip(1) =~= q + (seq!['"'] + u));
            lemma_non_quote_prepend(q, seq!['"'] + u);
            assert(non_quote_len(s.skip(1)) == q.len());
            assert(1 + q.len() < s.len());
            assert(s.subrange(1, 1 + q.len() as int) =~= q);
            assert(s.skip(2 + q.len() as int) =~= u);
            assert(spec_parse_string(s) == Ok::<(Seq<char>, Seq<char>), SpecErr>((u, q)));
        },
        SpecValue::Opt(o) => {
            match o {
                Option::None => {
                    assert(render(v) == seq!['N', 'o', 'n', 'e']);
                    lemma_stages_no_match(s);
                    assert(s.skip(4) =~= u);
                    assert(spec_parse_option(s) == Ok::<
                        (Seq<char>, Option<Box<SpecValue>>),
                        SpecErr,
                    >((u, Option::None)));
                },
                Option::Some(b) => {
                    let bv = *b;
                    assert(render(v) == seq!['S', 'o', 'm', 'e', '('] + render(bv)
                        + seq![')']);
                    assert(s[0] == 'S');
                    lemma_stages_no_match(s);
                    assert(s.skip(5) =~= render(bv) + (seq![')'] + u));
                    lemma_render_parses(bv, seq![')'] + u);
                    let r = seq![')'] + u;
                    assert(spec_parse_value(s.skip(5)) == Ok::<
                        (Seq<char>, SpecValue),
                        SpecErr,
                    >((r, bv)));
                    assert(spec_skip_ws(r) == r);
                    assert(r.skip(1) =~= u);
                    assert(spec_parse_option(s) == Ok::<
                        (Seq<char>, Option<Box<SpecValue>>),
                        SpecErr,
                    >((u, Option::Some(Box::new(bv)))));
                    assert(Box::new(bv) == b);
                },
            }
        },
        SpecValue::List(l) => {
            if l.len() == 0 {
                assert(render(v) == seq!['[', ']']);
                assert(s[0] == '[');
                let r1 = seq![']'] + u;
                assert(s.skip(1) =~= r1);
                assert(r1[0] == ']');
                lemma_value_no_match(r1);
                assert(spec_skip_ws(r1) == r1);
                assert(r1.skip(1) =~= u);
                assert(l =~= Seq::<SpecValue>::empty());
                assert(spec_parse_list(s) == Ok::<(Seq<char>, Seq<SpecValue>), SpecErr>(
                    (u, l),
                ));
            } else {
                let rest = l.subrange(1, l.len() as int);
                assert(render(v) == seq!['['] + render(l[0]) + render_tail(rest));
                assert(s[0] == '[');
                assert(s.skip(1) =~= render(l[0]) + (render_tail(rest) + u));
                assert(renderable(l[0]));
                lemma_render_parses(l[0], render_tail(rest) + u);
                let r = render_tail(rest) + u;
                assert(spec_parse_value(s.skip(1)) == Ok::<(Seq<char>, SpecValue), SpecErr>(
                    (r, l[0]),
                ));
                assert(r.len() < s.len());
                assert(forall|i: int|
                    0 <= i < rest.len() ==> renderable(#[trigger] rest[i])) by {
                    assert forall|i: int|
                        0 <= i < rest.len() implies renderable(#[trigger] rest[i]) by {
                        assert(rest[i] == l[i + 1]);
                        assert(renderable(l[i + 1]));
                    }
                }
                lemma_render_tail(rest, seq![l[0]], u);
                assert(spec_list_tail(r, seq![l[0]]) == Ok::<
                    (Seq<char>, Seq<SpecValue>),
                    SpecErr,
                >((u, seq![l[0]] + rest)));
                assert(seq![l[0]] + rest =~= l);
                assert(spec_parse_list(s) == Ok::<(Seq<char>, Seq<SpecValue>), SpecErr>(
                    (u, l),
                ));
            }
        },
    }
}

/// Law: the rendered continuation of a list — separators, further
/// renderable elements, the closing bracket — is read back onto the values
/// already gathered, the suffix left as the remainder.
#[verifier::rlimit(100)]
#[verifier::spinoff_prover]
pub proof fn lemma_render_tail(l: Seq<SpecValue>, acc: Seq<SpecValue>, u: Seq<char>)
    requires
        forall|i: int| 0 <= i < l.len() ==> renderable(#[trigger] l[i]),
    ensures
        spec_list_tail(render_tail(l) + u, acc) == Ok::<
            (Seq<char>, Seq<SpecValue>),
            SpecErr,
        >((u, acc + l)),
    decreases l,
{
    let s = render_tail(l) + u;
    if l.len() == 0 {
        assert(render_tail(l) == seq![']']);
        assert(s[0] == ']');
        assert(spec_skip_ws(s) == s);
        assert(s.skip(1) =~= u);
        assert(acc + l =~= acc);
    } else {
        let rest = l.subrange(1, l.len() as int);
        assert(render_tail(l) == seq![','] + render(l[0]) + render_tail(rest));
        assert(s[0] == ',');
        assert(spec_skip_ws(s) == s);
        assert(s.skip(1) =~= render(l[0]) + (render_tail(rest) + u));
        assert(renderable(l[0]));
        lemma_render_parses(l[0], render_tail(rest) + u);
        let r = render_tail(rest) + u;
        assert(spec_parse_value(s.skip(1)) == Ok::<(Seq<char>, SpecValue), SpecErr>(
            (r, l[0]),
        ));
        assert(r.len() < s.len());
        assert(forall|i: int| 0 <= i < rest.len() ==> renderable(#[trigger] rest[i])) by {
            assert forall|i: int|
                0 <= i < rest.len() implies renderable(#[trigger] rest[i]) by {
                assert(rest[i] == l[i + 1]);
                assert(renderable(l[i + 1]));
            }
        }
        lemma_render_tail(rest, acc.push(l[0]), u);
        assert(spec_list_tail(r, acc.push(l[0])) == Ok::<
            (Seq<char>, Seq<SpecValue>),
            SpecErr,
        >((u, acc.push(l[0]) + rest)));
        assert(acc.push(l[0]) + rest =~= acc + l);
    }
}

} // verus!

