use vstd::prelude::*;

use crate::grammar::float_lex_len;
use crate::value::ErrorKind;

verus! {

/// The bit pattern of the IEEE-754 double that a float lexeme denotes. The
/// value is a function of the characters alone; its definition is the
/// standard decimal-to-double conversion, which is left unstated and
/// supplied by the conversion below.
pub uninterp spec fn float_bits_of(s: Seq<char>) -> u64;

/// Relies on nom's `number::complete::double`: when the decimal float
/// grammar matches a prefix of `n` characters of `t`, it consumes exactly
/// that prefix and returns the double that the prefix denotes, a function
/// of those characters alone. The bits of that double are returned.
#[allow(unused_variables)]
#[verifier::external_body]
pub(crate) fn double_bits(t: &str, n: usize) -> (r: u64)
    requires
        float_lex_len(t@) == Ok::<int, ErrorKind>(n as int),
    ensures
        r == float_bits_of(t@.take(n as int)),
{
    let (_, v) = nom::number::complete::double::<&str, nom::error::Error<&str>>(t)
        .unwrap();
    v.to_bits()
}

} // verus!
