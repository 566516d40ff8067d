//! What the program makes of the user's answers at its prompts.

use vstd::prelude::*;
use vstd::string::*;
use crate::text::same_text;

verus! {

/// What `create_password` answers when the two entries differ.
pub const PASSWORDS_DIFFER: &'static str = "Passwords don't match!";

/// The text of an answer without the white space around it.
pub uninterp spec fn trimmed(answer: Seq<char>) -> Seq<char>;

/// The text of an answer in lower case.
pub uninterp spec fn lowercase(answer: Seq<char>) -> Seq<char>;

/// Calls `str::trim`. Trusted: the result is a function of the text, known
/// by name only.
#[verifier::external_body]
fn trim_text(answer: &str) -> (r: String)
    ensures
        r@ == trimmed(answer@),
{
    answer.trim().to_owned()
}

/// Calls `str::to_lowercase`. Trusted: the result is a function of the
/// text, known by name only.
#[verifier::external_body]
fn lowercase_text(answer: &str) -> (r: String)
    ensures
        r@ == lowercase(answer@),
{
    answer.to_lowercase()
}

/// Accepts a new password that was entered twice: the password where both
/// entries are the same, an error message where they differ.
pub fn create_password(first: String, second: String) -> (r: Result<String, String>)
    ensures
        match r {
            Ok(password) => first@ == second@ && password@ == first@,
            Err(message) => first@ != second@ && message@ == PASSWORDS_DIFFER@,
        },
{
    if same_text(first.as_str(), second.as_str()) {
        Ok(first)
    } else {
        Err(PASSWORDS_DIFFER.to_owned())
    }
}

/// What a trimmed, lower-case answer to a yes-or-no question says.
pub open spec fn answer_of(answer: Seq<char>) -> Option<bool> {
    if answer == "y"@ || answer == "yes"@ {
        Some(true)
    } else if answer == "n"@ || answer == "no"@ {
        Some(false)
    } else {
        None
    }
}

/// Reads a trimmed, lower-case answer to a yes-or-no question: "y" and
/// "yes" say yes, "n" and "no" say no, anything else says nothing.
pub fn read_answer(answer: &str) -> (r: Option<bool>)
    ensures
        r == answer_of(answer@),
{
    if same_text(answer, "y") || same_text(answer, "yes") {
        Some(true)
    } else if same_text(answer, "n") || same_text(answer, "no") {
        Some(false)
    } else {
        None
    }
}

/// Reads a line typed in answer to a yes-or-no question, whatever its case
/// and the white space around it. `None` means that the question has to be
/// asked again.
pub fn get_confirmation(line: &str) -> (r: Option<bool>)
    ensures
        r == answer_of(lowercase(trimmed(line@))),
{
    let trimmed_line = trim_text(line);
    let lowered = lowercase_text(trimmed_line.as_str());
    read_answer(lowered.as_str())
}

} // verus!
