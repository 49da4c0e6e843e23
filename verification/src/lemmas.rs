use vstd::prelude::*;

use crate::grammar::digits_len;
use crate::grammar::float_lex_len;
use crate::grammar::is_digit;
use crate::grammar::non_quote_len;
use crate::grammar::spec_list_tail;
use crate::grammar::spec_parse_boolean;
use crate::grammar::spec_parse_char;
use crate::grammar::spec_parse_float;
use crate::grammar::spec_parse_list;
use crate::grammar::spec_parse_option;
use crate::grammar::spec_parse_string;
use crate::grammar::spec_parse_value;
use crate::grammar::spec_skip_ws;
use crate::grammar::is_ws_char;
use crate::value::SpecValue;

verus! {

/// Skipping whitespace yields a suffix: it cannot grow the input, and what
/// is left either is empty or starts with a character that is not
/// whitespace.
pub proof fn lemma_skip_ws_len(s: Seq<char>)
    ensures
        spec_skip_ws(s).len() <= s.len(),
        spec_skip_ws(s).len() > 0 ==> !is_ws_char(spec_skip_ws(s)[0]),
    decreases s.len(),
{
    if s.len() > 0 && is_ws_char(s[0]) {
        lemma_skip_ws_len(s.skip(1));
    }
}

/// The count of leading digits is a length within bounds, every character
/// it covers is a digit, and the character after the run, if any, is not.
pub proof fn lemma_digits_len(s: Seq<char>)
    ensures
        0 <= digits_len(s) <= s.len(),
        forall|i: int| 0 <= i < digits_len(s) ==> is_digit(s[i]),
        digits_len(s) < s.len() ==> !is_digit(s[digits_len(s)]),
    decreases s.len(),
{
    if s.len() > 0 && is_digit(s[0]) {
        lemma_digits_len(s.skip(1));
        assert forall|i: int| 0 <= i < digits_len(s) implies is_digit(s[i]) by {
            if i > 0 {
                assert(is_digit(s.skip(1)[i - 1]));
            }
        }
    }
}

/// The count of leading non-quote characters is a length within bounds,
/// every character it covers differs from a double quote, and the character
/// after the run, if any, is a double quote.
pub proof fn lemma_non_quote_len(s: Seq<char>)
    ensures
        0 <= non_quote_len(s) <= s.len(),
        forall|i: int| 0 <= i < non_quote_len(s) ==> s[i] != '"',
        non_quote_len(s) < s.len() ==> s[non_quote_len(s)] == '"',
    decreases s.len(),
{
    if s.len() > 0 && s[0] != '"' {
        lemma_non_quote_len(s.skip(1));
        assert forall|i: int| 0 <= i < non_quote_len(s) implies s[i] != '"' by {
            if i > 0 {
                assert(s.skip(1)[i - 1] != '"');
            }
        }
    }
}

/// A recognised float lexeme has at least one character and lies within the
/// input.
pub proof fn lemma_float_lex_len(s: Seq<char>)
    ensures
        float_lex_len(s) matches Ok(n) ==> 1 <= n <= s.len(),
{
    let i0: int = if s.len() > 0 && (s[0] == '+' || s[0] == '-') {
        1
    } else {
        0
    };
    lemma_digits_len(s.skip(i0));
    let d1 = digits_len(s.skip(i0));
    if d1 > 0 {
        let j = i0 + d1;
        if j < s.len() && s[j] == '.' {
            lemma_digits_len(s.skip(j + 1));
            lemma_float_exp_len(s, j + 1 + digits_len(s.skip(j + 1)));
        } else {
            lemma_float_exp_len(s, j);
        }
    } else if i0 < s.len() && s[i0] == '.' {
        lemma_digits_len(s.skip(i0 + 1));
        if digits_len(s.skip(i0 + 1)) > 0 {
            lemma_float_exp_len(s, i0 + 1 + digits_len(s.skip(i0 + 1)));
        }
    }
}

/// The exponent part keeps the lexeme within the input.
proof fn lemma_float_exp_len(s: Seq<char>, m: int)
    requires
        0 <= m <= s.len(),
    ensures
        crate::grammar::float_exp_len(s, m) matches Ok(n) ==> m <= n <= s.len(),
{
    if 0 <= m < s.len() && (s[m] == 'e' || s[m] == 'E') {
        let j = if m + 1 < s.len() && (s[m + 1] == '+' || s[m + 1] == '-') {
            m + 2
        } else {
            m + 1
        };
        lemma_digits_len(s.skip(j));
    }
}

/// A successfully parsed value consumes at least one character.
pub proof fn lemma_parse_consumes(s: Seq<char>)
    ensures
        spec_parse_value(s) matches Ok(p) ==> p.0.len() < s.len(),
    decreases s.len(), 3int,
{
    lemma_parse_list_consumes(s);
    lemma_parse_option_consumes(s);
    lemma_parse_float_consumes(s);
    lemma_skip_ws_len(s);
    lemma_non_quote_len(spec_skip_ws(s).skip(1));
}

/// A successfully parsed list consumes at least one character.
pub proof fn lemma_parse_list_consumes(s: Seq<char>)
    ensures
        spec_parse_list(s) matches Ok(p) ==> p.0.len() < s.len(),
    decreases s.len(), 2int,
{
    if s.len() > 0 && s[0] == '[' {
        lemma_parse_consumes(s.skip(1));
        match spec_parse_value(s.skip(1)) {
            Ok((r, v)) => {
                if r.len() < s.len() {
                    lemma_list_tail_consumes(r);
                    assert(spec_parse_list(s) == spec_list_tail(r, seq![v]));
                }
            },
            Err(_) => {
                lemma_skip_ws_len(s.skip(1));
            },
        }
    }
}

/// The rest of a list, from after one element, consumes at least the
/// closing bracket.
pub proof fn lemma_list_tail_consumes(s: Seq<char>)
    ensures
        forall|acc: Seq<SpecValue>| #![trigger spec_list_tail(s, acc)]
            spec_list_tail(s, acc) matches Ok(p) ==> p.0.len() < s.len(),
    decreases s.len(), 0int,
{
    lemma_skip_ws_len(s);
    let t = spec_skip_ws(s);
    if t.len() <= s.len() && t.len() > 0 && t[0] != ']' && t[0] == ',' {
        lemma_parse_consumes(t.skip(1));
        match spec_parse_value(t.skip(1)) {
            Ok((r, _)) => {
                if r.len() < s.len() {
                    lemma_list_tail_consumes(r);
                }
            },
            Err(_) => {},
        }
    }
    assert forall|acc: Seq<SpecValue>| #![trigger spec_list_tail(s, acc)]
        (spec_list_tail(s, acc) matches Ok(p) ==> p.0.len() < s.len()) by {
        if t.len() <= s.len() && t.len() > 0 && t[0] != ']' && t[0] == ',' {
            match spec_parse_value(t.skip(1)) {
                Ok((r, v)) => {
                    if r.len() < s.len() {
                        assert(spec_list_tail(s, acc) == spec_list_tail(r, acc.push(v)));
                    }
                },
                Err(_) => {},
            }
        }
    }
}

/// A successfully parsed option consumes at least one character.
pub proof fn lemma_parse_option_consumes(s: Seq<char>)
    ensures
        spec_parse_option(s) matches Ok(p) ==> p.0.len() < s.len(),
    decreases s.len(), 2int,
{
    if s.len() >= 5 && s[0] == 'S' && s[1] == 'o' && s[2] == 'm' && s[3] == 'e' && s[4] == '(' {
        lemma_parse_consumes(s.skip(5));
        match spec_parse_value(s.skip(5)) {
            Ok((r, _)) => {
                lemma_skip_ws_len(r);
            },
            Err(_) => {},
        }
    }
}

/// A successfully parsed float consumes at least one character.
pub proof fn lemma_parse_float_consumes(s: Seq<char>)
    ensures
        spec_parse_float(s) matches Ok(p) ==> p.0.len() < s.len(),
{
    lemma_skip_ws_len(s);
    lemma_float_lex_len(spec_skip_ws(s));
}

} // verus!
