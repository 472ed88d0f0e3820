use vstd::prelude::*;
verus! {
/// Errors of the reader.
#[derive(Debug)]
pub enum Error {
    /// The stream ended before the pattern matched.
    EOF { expected: String, got: String, exit_code: Option<String> },
    /// No match before the configured number of milliseconds elapsed.
    Timeout { expected: String, got: String, timeout: u64 },
}
} // verus!
