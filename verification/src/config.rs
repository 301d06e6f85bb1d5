//! What a caller asks of the generator.

use vstd::prelude::*;

verus! {

/// One request: where the passwords come from, how far to go, and what to
/// hand back.
#[derive(Debug)]
pub struct Config {
    /// The password to generate candidates for.
    pub password: Option<String>,
    /// Whether passwords are read from standard input, one per line.
    pub stdin: bool,
    /// The largest number of edits.
    pub max_distance: usize,
    /// The largest transposition distance.
    pub transposition_distance: usize,
    /// Whether the password itself is put before its candidates.
    pub include_original: bool,
    /// Whether only the number of candidates is wanted.
    pub count: bool,
}

} // verus!
