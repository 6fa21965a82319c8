//! How results are written: for people, as JSON, or as stable plain text.
use vstd::prelude::*;

verus! {

#[derive(Clone, Copy, Debug, PartialEq, Eq, Structural)]
pub enum OutputMode {
    Human,
    Json,
    Porcelain,
}

/// Both `--json` and `--porcelain` were given.
#[derive(Clone, Copy, Debug, PartialEq, Eq, Structural)]
pub enum OutputError {
    ConflictingFlags,
}

impl OutputError {
    pub fn message(&self) -> (r: String)
        ensures
            r@ == "--json and --porcelain cannot be used together"@,
    {
        String::from_str("--json and --porcelain cannot be used together")
    }
}

impl OutputMode {
    /// The mode the flags choose; the two flags exclude each other.
    pub fn from_flags(json: bool, porcelain: bool) -> (r: Result<OutputMode, OutputError>)
        ensures
            json && porcelain ==> r == Err::<OutputMode, OutputError>(
                OutputError::ConflictingFlags,
            ),
            json && !porcelain ==> r == Ok::<OutputMode, OutputError>(OutputMode::Json),
            !json && porcelain ==> r == Ok::<OutputMode, OutputError>(OutputMode::Porcelain),
            !json && !porcelain ==> r == Ok::<OutputMode, OutputError>(OutputMode::Human),
    {
        if json && porcelain {
            return Err(OutputError::ConflictingFlags);
        }
        if json {
            Ok(OutputMode::Json)
        } else if porcelain {
            Ok(OutputMode::Porcelain)
        } else {
            Ok(OutputMode::Human)
        }
    }
}

} // verus!
