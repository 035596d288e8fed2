//! The error of the library: a message for the user.
use vstd::prelude::*;
use vstd::string::*;

verus! {

/// A failure, told in one line of text.
#[derive(Debug, Clone)]
pub struct Error {
    pub text: String,
}

impl View for Error {
    type V = Seq<char>;

    open spec fn view(&self) -> Seq<char> {
        self.text@
    }
}

impl Error {
    /// An error that says `text`.
    pub fn message(text: &str) -> (e: Error)
        ensures
            e@ == text@,
    {
        Error { text: String::from_str(text) }
    }

    /// An error that says `text`.
    pub fn from_text(text: String) -> (e: Error)
        ensures
            e@ == text@,
    {
        Error { text }
    }
}

} // verus!
