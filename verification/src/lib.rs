//! A verified recursive-descent parser for a small literal language: floats,
//! booleans, double-quoted strings, single-quoted characters, `None` /
//! `Some(...)` options, and nested comma-separated lists. Each parser is
//! proved equal to a specification-level grammar over sequences of
//! characters; the laws module proves, among others, that rendering a value
//! tree and re-parsing it yields the tree back.

use vstd::prelude::*;

mod float;
mod grammar;
mod laws;
mod lemmas;
mod parse;
mod value;

pub use grammar::digits_len;
pub use grammar::float_lex_len;
pub use grammar::is_digit;
pub use grammar::is_float_lexeme;
pub use grammar::is_sign;
pub use grammar::is_ws_char;
pub use grammar::non_quote_len;
pub use grammar::spec_list_tail;
pub use grammar::spec_parse_boolean;
pub use grammar::spec_parse_char;
pub use grammar::spec_parse_float;
pub use grammar::spec_parse_list;
pub use grammar::spec_parse_option;
pub use grammar::spec_parse_string;
pub use grammar::spec_parse_value;
pub use grammar::spec_skip_ws;
pub use grammar::SpecErr;
pub use laws::all_ws;
pub use laws::lemma_float_lexeme_parses;
pub use laws::lemma_render_parses;
pub use laws::lemma_render_tail;
pub use laws::lemma_skip_ws_prepend;
pub use laws::lemma_ws_before_float;
pub use laws::lemma_ws_before_option_close;
pub use laws::lemma_ws_before_string;
pub use laws::lemma_ws_in_list_tail;
pub use laws::render;
pub use laws::render_tail;
pub use laws::renderable;
pub use float::float_bits_of;
pub use value::opt_view;
pub use value::value_view;
pub use value::views_of;
pub use parse::parse_boolean;
pub use parse::parse_char;
pub use parse::parse_double;
pub use parse::parse_list;
pub use parse::parse_option;
pub use parse::parse_string;
pub use parse::parse_value;
pub use parse::parse_ws;
pub use value::ErrorKind;
pub use value::ParseError;
pub use value::SpecValue;
pub use value::Value;
