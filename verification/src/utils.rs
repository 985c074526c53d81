//! The error type shared by the whole crate and the run mode of a session.

use vstd::prelude::*;
use vstd::string::*;

verus! {

/// `std::io::Error`, the error of a read that failed. It is handed on as it
/// is: nothing in this crate looks inside.
#[verifier::external_type_specification]
#[verifier::external_body]
pub struct ExIoError(std::io::Error);

/// What can go wrong while a model is trained.
#[derive(Debug)]
pub enum W2vError {
    /// The corpus could not be read.
    File(std::io::Error),
    /// The run was asked for something that cannot be done, such as more
    /// shards than the corpus has records.
    RuntimeError,
    /// No word of the corpus reached the minimum count.
    Vocabulary,
}

/// What a session was started for.
#[derive(Clone, Copy, Debug, PartialEq, Eq, Structural)]
pub enum Command {
    Train,
    Test,
}

/// `std::fmt::Display` of `std::io::Error`: what the system says of the
/// failure. Nothing is claimed of the text.
#[verifier::external_body]
fn describe_io_error(err: &std::io::Error) -> (text: String) {
    format!("{}", err)
}

impl W2vError {
    /// The text shown to the user for this error. For a file error it ends
    /// with what the system says of the failure.
    pub fn message(&self) -> (text: String)
        ensures
            *self is RuntimeError ==> text@ == "word2vec runtime error"@,
            *self is Vocabulary ==> text@ == "word2vec vocabulary error"@,
            *self is File ==> text@.len() >= "open file error:"@.len() && text@.take(
                "open file error:"@.len() as int,
            ) == "open file error:"@,
    {
        match self {
            W2vError::File(err) => {
                let described = describe_io_error(err);
                let text = String::from_str("open file error:").concat(described.as_str());
                assert(text@.take("open file error:"@.len() as int) =~= "open file error:"@);
                text
            },
            W2vError::RuntimeError => String::from_str("word2vec runtime error"),
            W2vError::Vocabulary => String::from_str("word2vec vocabulary error"),
        }
    }
}

impl From<std::io::Error> for W2vError {
    fn from(err: std::io::Error) -> (e: W2vError) {
        W2vError::File(err)
    }
}

impl vstd::std_specs::convert::FromSpecImpl<std::io::Error> for W2vError {
    open spec fn obeys_from_spec() -> bool {
        true
    }

    open spec fn from_spec(err: std::io::Error) -> W2vError {
        W2vError::File(err)
    }
}

} // verus!
