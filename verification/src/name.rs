//! Names of databases, collections and fields.

use crate::error::EngineError;
use crate::text::chars;
use vstd::prelude::*;

verus! {

/// The most characters that a name may have.
pub const MAX_NAME: usize = 128;

/// Whether `char::is_alphanumeric` holds of a character outside ASCII.
pub uninterp spec fn unicode_alphanumeric(c: char) -> bool;

/// A letter or a digit.
pub open spec fn alphanumeric(c: char) -> bool {
    if c <= '\u{7f}' {
        '0' <= c <= '9' || 'A' <= c <= 'Z' || 'a' <= c <= 'z'
    } else {
        unicode_alphanumeric(c)
    }
}

/// `char::is_alphanumeric`: in ASCII the digits and the letters; elsewhere what Unicode says.
#[verifier::external_body]
fn is_alphanumeric(c: char) -> (res: bool)
    ensures
        c <= '\u{7f}' ==> res == ('0' <= c <= '9' || 'A' <= c <= 'Z' || 'a' <= c <= 'z'),
        c > '\u{7f}' ==> res == unicode_alphanumeric(c),
{
    c.is_alphanumeric()
}

/// A character that a name may hold.
pub open spec fn name_char(c: char) -> bool {
    alphanumeric(c) || c == '_' || c == '-'
}

/// A name: between one and `MAX_NAME` letters, digits, `_` and `-`.
pub open spec fn valid_name(name: Seq<char>) -> bool {
    &&& 1 <= name.len() <= MAX_NAME
    &&& forall|i: int| 0 <= i < name.len() ==> name_char(#[trigger] name[i])
}

/// `e` says that `name` is no name.
pub open spec fn is_invalid_name(e: EngineError, name: Seq<char>) -> bool {
    e matches EngineError::InvalidName(text) && text@ == name
}

/// Accepts a name of a database, a collection or a field.
pub fn validate_name(name: &str) -> (res: Result<(), EngineError>)
    ensures
        match res {
            Ok(()) => valid_name(name@),
            Err(e) => !valid_name(name@) && is_invalid_name(e, name@),
        },
{
    let cs = chars(name);
    if cs.len() == 0 || cs.len() > MAX_NAME {
        return Err(EngineError::InvalidName(name.to_owned()));
    }
    let mut i: usize = 0;
    while i < cs.len()
        invariant
            i <= cs@.len(),
            cs@ == name@,
            forall|k: int| 0 <= k < i ==> name_char(#[trigger] cs@[k]),
        decreases cs@.len() - i,
    {
        let c = cs[i];
        if !(is_alphanumeric(c) || c == '_' || c == '-') {
            assert(!name_char(name@[i as int]));
            return Err(EngineError::InvalidName(name.to_owned()));
        }
        i = i + 1;
    }
    Ok(())
}

} // verus!
