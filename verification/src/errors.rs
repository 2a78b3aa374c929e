//! The error taxonomy of the crate: every construction-time violation fails
//! the whole construction with one of these values, and nothing partially
//! built is ever handed out.

use vstd::prelude::*;

use crate::text::{dec_digits, u64_to_string};
use vstd::string::StringExecFns;

verus! {

/// Why a dataset, judgment set, or evaluator could not be built.
#[derive(Debug)]
pub enum RankError {
    /// An array-length invariant was violated at dataset construction;
    /// the payload names the buffer whose length was wrong.
    ShapeMismatch { detail: &'static str },
    /// A value was malformed: an unparsable or NaN relevance number in a
    /// judgment line, or a duplicate key where a map was expected. `path`
    /// and `line` locate the offending judgment line (1-based); for errors
    /// with no source file both are empty/zero.
    InvalidValue { path: String, line: usize, detail: &'static str },
    /// A feature name or index, or a query id, was not found.
    NotFound { name: String },
    /// A judgment file could not be read; raised by callers that do the
    /// reading, never by this crate's own logic.
    IOFailure { path: String },
}

impl RankError {
    /// The message of an `InvalidValue` error: `path:line: detail`.
    pub open spec fn invalid_value_message(path: Seq<char>, line: nat, detail: Seq<char>) -> Seq<
        char,
    > {
        path + seq![':'] + dec_digits(line) + seq![':', ' '] + detail
    }

    /// A human-readable account of the error, naming the source path and
    /// 1-based line number where one applies.
    pub fn message(&self) -> (out: String)
        ensures
            match *self {
                RankError::ShapeMismatch { detail } => out@ == detail@,
                RankError::InvalidValue { ref path, line, detail } => out@
                    == RankError::invalid_value_message(path@, line as nat, detail@),
                RankError::NotFound { ref name } => out@ == "not found: "@ + name@,
                RankError::IOFailure { ref path } => out@ == "could not read "@ + path@,
            },
    {
        match self {
            RankError::ShapeMismatch { detail } => (*detail).to_owned(),
            RankError::InvalidValue { path, line, detail } => {
                let mut out = path.clone();
                out.append(":");
                let num = u64_to_string(*line as u64);
                out.append(num.as_str());
                out.append(": ");
                out.append(detail);
                proof {
                    reveal_strlit(":");
                    reveal_strlit(": ");
                    assert(out@ == RankError::invalid_value_message(
                        path@,
                        *line as nat,
                        detail@,
                    ));
                }
                out
            },
            RankError::NotFound { name } => {
                let mut out = String::new();
                out.append("not found: ");
                out.append(name.as_str());
                out
            },
            RankError::IOFailure { path } => {
                let mut out = String::new();
                out.append("could not read ");
                out.append(path.as_str());
                out
            },
        }
    }
}

} // verus!
