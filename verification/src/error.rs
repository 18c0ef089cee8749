//! What can go wrong, and how it is told to a client.

use vstd::prelude::*;
use vstd::string::StringExecFns;

verus! {

/// Why the engine refused or failed.
#[derive(Debug)]
pub enum EngineError {
    /// The text is no name of a database, a collection or a field.
    InvalidName(String),
    /// A document is longer than a document may be.
    TooLarge,
    /// The documents of one batch are together longer than a batch may be.
    BatchTooLarge,
    /// More documents were to be skipped than may be skipped.
    OffsetTooLarge,
    /// A file could not be read or written.
    Io(std::io::Error),
    /// A stored line, or a value, is not JSON.
    Json(serde_json::Error),
}

#[verifier::external_type_specification]
#[verifier::external_body]
pub struct ExIoError(std::io::Error);

/// `Display` of an I/O error. The system words some of these errors as it likes, so that nothing
/// is said of the text.
#[verifier::external_body]
fn io_error_text(e: &std::io::Error) -> (res: String) {
    format!("{}", e)
}

/// `Display` of a `serde_json` error. Such an error may hold an I/O error, so that nothing is said
/// of the text.
#[verifier::external_body]
fn json_error_text(e: &serde_json::Error) -> (res: String) {
    format!("{}", e)
}

/// `std::io::Error::new`: an error of the kind `InvalidData` with the text; nothing is said of it.
#[verifier::external_body]
pub(crate) fn invalid_data(text: &str) -> (res: std::io::Error) {
    std::io::Error::new(std::io::ErrorKind::InvalidData, text)
}

/// The texts joined.
fn joined(a: &str, b: &str, c: &str) -> (res: String)
    ensures
        res@ == a@ + b@ + c@,
{
    let mut out = a.to_owned();
    out.append(b);
    out.append(c);
    out
}

/// An error in words, with the words of its cause.
pub fn with_cause(what: &str, cause: &str) -> (res: String)
    ensures
        res@ == what@ + cause@,
{
    let res = joined(what, cause, "");
    proof {
        reveal_strlit("");
        assert(what@ + cause@ + ""@ =~= what@ + cause@);
    }
    res
}

impl EngineError {
    /// The error in words.
    pub fn message(&self) -> (res: String)
        ensures
            match *self {
                EngineError::InvalidName(name) => res@ == "invalid name '"@ + name@
                    + "': alphanumeric, _ and - only, max 128 chars"@,
                EngineError::TooLarge => res@ == "document exceeds 16 MB limit"@,
                EngineError::BatchTooLarge => res@ == "batch exceeds 128 MB aggregate size limit"@,
                EngineError::OffsetTooLarge => res@ == "offset exceeds maximum of 10000000"@,
                EngineError::Io(_) => "I/O error: "@.is_prefix_of(res@),
                EngineError::Json(_) => "JSON error: "@.is_prefix_of(res@),
            },
    {
        match self {
            EngineError::InvalidName(name) => joined(
                "invalid name '",
                name.as_str(),
                "': alphanumeric, _ and - only, max 128 chars",
            ),
            EngineError::TooLarge => "document exceeds 16 MB limit".to_owned(),
            EngineError::BatchTooLarge => "batch exceeds 128 MB aggregate size limit".to_owned(),
            EngineError::OffsetTooLarge => "offset exceeds maximum of 10000000".to_owned(),
            EngineError::Io(e) => {
                let text = io_error_text(e);
                with_cause("I/O error: ", text.as_str())
            },
            EngineError::Json(e) => {
                let text = json_error_text(e);
                with_cause("JSON error: ", text.as_str())
            },
        }
    }

    /// The HTTP status of the error, and what the client is told. Of an internal error the
    /// client learns nothing more.
    pub fn response(&self) -> (res: (u16, String))
        ensures
            match *self {
                EngineError::InvalidName(name) => res.0 == 400 && res.1@ == "invalid name '"@ + name@
                    + "': alphanumeric, _ and - only, max 128 chars"@,
                EngineError::TooLarge => res.0 == 413 && res.1@ == "document exceeds 16 MB limit"@,
                EngineError::BatchTooLarge => res.0 == 413 && res.1@
                    == "batch exceeds 128 MB aggregate size limit"@,
                EngineError::OffsetTooLarge => res.0 == 400 && res.1@
                    == "offset exceeds maximum of 10000000"@,
                EngineError::Io(_) => res.0 == 500 && res.1@ == "internal server error"@,
                EngineError::Json(_) => res.0 == 500 && res.1@ == "internal server error"@,
            },
    {
        match self {
            EngineError::InvalidName(_) => (400, self.message()),
            EngineError::TooLarge => (413, self.message()),
            EngineError::BatchTooLarge => (413, self.message()),
            EngineError::OffsetTooLarge => (400, self.message()),
            EngineError::Io(_) => (500, "internal server error".to_owned()),
            EngineError::Json(_) => (500, "internal server error".to_owned()),
        }
    }
}

} // verus!
