//! Appending code points and already-normalized slices to the output string.

use vstd::prelude::*;
use vstd::utf8::is_scalar;
use vstd::string::StringExecFns;

use crate::codepoint::Codepoint;
use crate::codepoint::codes_of;

verus! {

/// Relies on char::from_u32: Some exactly for the values below 0x110000 that
/// are no surrogates, and the character returned has that scalar value.
pub assume_specification[ char::from_u32 ](i: u32) -> (r: Option<char>)
    ensures
        r is Some <==> is_scalar(i),
        r matches Some(c) ==> c as u32 == i,
;

/// Relies on String::push: appends the given character to the end of the
/// string.
#[verifier::external_body]
fn push_char(result: &mut String, c: char)
    ensures
        final(result)@ == old(result)@.push(c),
{
    result.push(c);
}

/// Append the character with scalar value `code` to `result`.
pub fn write_code(result: &mut String, code: u32)
    requires
        is_scalar(code),
    ensures
        final(result)@.len() == old(result)@.len() + 1,
        codes_of(final(result)@) == codes_of(old(result)@).push(code),
{
    match char::from_u32(code) {
        Option::Some(c) => {
            push_char(result, c);
            proof {
                assert(codes_of(result@) =~= codes_of(old(result)@).push(code));
            }
        },
        Option::None => {
            proof {
                assert(false);
            }
        },
    }
}

/// Append the code point `cp` to `result`.
pub fn write(result: &mut String, cp: Codepoint)
    requires
        is_scalar(cp.code),
    ensures
        final(result)@.len() == old(result)@.len() + 1,
        codes_of(final(result)@) == codes_of(old(result)@).push(cp.code),
{
    write_code(result, cp.code);
}

/// Append an already-normalized slice of the input to `result` verbatim.
pub fn write_str(result: &mut String, piece: &str)
    ensures
        final(result)@ == old(result)@ + piece@,
        codes_of(final(result)@) == codes_of(old(result)@) + codes_of(piece@),
{
    result.append(piece);
    proof {
        assert(codes_of(result@) =~= codes_of(old(result)@) + codes_of(piece@));
    }
}

} // verus!
