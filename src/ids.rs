//! Fresh identifiers for parsed questions.

use vstd::prelude::*;

verus! {

/// Whether `s` has the shape of a question id: a UUID in hyphenated form.
pub open spec fn is_question_id(s: Seq<char>) -> bool {
    s.len() == 36
}

/// Relies on `uuid::Uuid::new_v4`, a random version 4 UUID, and on its
/// `Display` impl, which writes the hyphenated lowercase form of 36
/// characters. Nothing is promised of the value itself.
#[verifier::external_body]
pub(crate) fn fresh_id() -> (r: String)
    ensures
        is_question_id(r@),
{
    uuid::Uuid::new_v4().to_string()
}

} // verus!
