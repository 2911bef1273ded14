//! Request failures: an HTTP status and a message for the user.
use vstd::prelude::*;

verus! {

/// A failed request: the HTTP status and the message shown to the user.
#[derive(Debug)]
pub struct Failure {
    pub status: u16,
    pub message: String,
}

/// A failure with `status` and `message`.
pub fn fail(status: u16, message: &str) -> (r: Failure)
    ensures
        r.status == status,
        r.message@ == message@,
{
    Failure { status, message: message.to_owned() }
}

pub open spec fn conflict_message() -> Seq<char> {
    "This note changed elsewhere. Reopen it or save your draft as a new note."@
}

pub open spec fn unavailable_message() -> Seq<char> {
    "Storage unavailable. Your draft has not been cleared."@
}

/// The failure a storage error becomes: a write conflict (`conflict`) is 409, anything else 503.
pub fn storage_failure(error: &str) -> (r: Failure)
    ensures
        error@ == "conflict"@ ==> r.status == 409 && r.message@ == conflict_message(),
        error@ != "conflict"@ ==> r.status == 503 && r.message@ == unavailable_message(),
{
    let v = crate::text::chars_of(error);
    if crate::text::eq_lit(v.as_slice(), "conflict") {
        fail(409, "This note changed elsewhere. Reopen it or save your draft as a new note.")
    } else {
        fail(503, "Storage unavailable. Your draft has not been cleared.")
    }
}

} // verus!
