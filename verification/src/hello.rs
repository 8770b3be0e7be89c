//! A greeting for a name made of letters only.

use vstd::prelude::*;

verus! {

/// Why a name was refused.
#[derive(Debug, PartialEq, Eq)]
pub enum HelloError {
    /// The name could not be read as a name; the text says why.
    ParseError(String),
}

/// Whether `c` is alphabetic in the sense of Unicode, as `char::is_alphabetic`
/// of the standard library decides it.
pub uninterp spec fn is_alphabetic(c: char) -> bool;

/// Every character of `name` is alphabetic.
pub open spec fn all_alphabetic(name: Seq<char>) -> bool {
    forall|i: int| 0 <= i < name.len() ==> is_alphabetic(#[trigger] name[i])
}

/// Calls `char::is_alphabetic`. Trusted: the result is what the standard
/// library answers for `c`, which `is_alphabetic` names.
#[verifier::external_body]
fn char_is_alphabetic(c: char) -> (alphabetic: bool)
    ensures
        alphabetic == is_alphabetic(c),
{
    c.is_alphabetic()
}

/// Whether `name` consists of alphabetic characters only. The empty name does.
pub fn only_alphabetic(name: &str) -> (alphabetic: bool)
    ensures
        alphabetic == all_alphabetic(name@),
{
    for c in letters: name.chars()
        invariant
            letters.seq() == name@,
            forall|i: int| 0 <= i < letters.index() ==> is_alphabetic(#[trigger] name@[i]),
    {
        if !char_is_alphabetic(c) {
            return false;
        }
    }
    true
}

/// The greeting for `name`, given whether the name is alphabetic: `Hello, `,
/// the name and `!` if it is, and a `ParseError` that says what a name may
/// contain if it is not.
pub fn greeting(name: &str, alphabetic: bool) -> (result: Result<String, HelloError>)
    ensures
        alphabetic ==> result is Ok && result->Ok_0@ == "Hello, "@ + name@ + "!"@,
        !alphabetic ==> result is Err && result->Err_0->ParseError_0@
            == "Name should only contain alphabetic characters"@,
{
    if alphabetic {
        let mut message = String::from_str("Hello, ");
        message.append(name);
        message.append("!");
        Ok(message)
    } else {
        Err(
            HelloError::ParseError(
                String::from_str("Name should only contain alphabetic characters"),
            ),
        )
    }
}

/// Greets `name` if it consists of alphabetic characters only, and refuses it
/// with a `ParseError` otherwise.
pub fn greet(name: &str) -> (result: Result<String, HelloError>)
    ensures
        all_alphabetic(name@) ==> result is Ok && result->Ok_0@ == "Hello, "@ + name@ + "!"@,
        !all_alphabetic(name@) ==> result is Err && result->Err_0->ParseError_0@
            == "Name should only contain alphabetic characters"@,
{
    greeting(name, only_alphabetic(name))
}

} // verus!
