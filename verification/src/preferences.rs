//! User preferences: the value the application persists beside the
//! library. Reading and writing the file is the application's business;
//! the library only owns the shape and its default.

use vstd::prelude::*;

verus! {

/// What the application remembers between runs.
pub struct Preferences {
    pub recent_searches: Vec<String>,
    pub show_file_extensions: bool,
}

impl Preferences {
    /// The preferences a fresh installation starts with: no recent
    /// searches, extensions hidden.
    pub fn first_run() -> (p: Preferences)
        ensures
            p.recent_searches@.len() == 0,
            !p.show_file_extensions,
    {
        Preferences { recent_searches: Vec::new(), show_file_extensions: false }
    }
}

} // verus!
