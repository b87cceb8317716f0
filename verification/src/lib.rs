use vstd::prelude::*;

pub mod element;
pub mod text;
pub mod path;
pub mod linkref;
pub mod inline;
pub mod parse;
pub mod fs;
pub mod bind;
pub mod html;
pub mod nav;

verus! {

/// Relies on std's String::push: appends the given character to the end of
/// this string.
#[verifier::external_body]
pub fn string_push(s: &mut String, c: char)
    ensures
        final(s)@ == old(s)@.push(c),
{
    s.push(c)
}

} // verus!
