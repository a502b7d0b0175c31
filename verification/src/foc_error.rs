//! The closed error taxonomy: one variant per failure kind, each carrying a
//! human-readable description and mapped to a stable numeric code.

use vstd::prelude::*;

verus! {

/// Every failure the library surfaces to a caller.
#[derive(Debug)]
pub enum FocError {
    /// A sniffed content signature maps to nothing supported.
    Classification(String),
    /// A malformed inline payload or an unusable extension request.
    Extension(String),
    /// Thumbnail generation failed: unsupported image subtype, decode or
    /// encode failure.
    Thumbnail(String),
    /// A file or stream could not be read or written.
    Io(String),
    /// The search index refused an operation.
    Index(String),
    /// The metadata store refused an operation.
    Store(String),
}

impl FocError {
    /// The stable numeric code of this error kind, for cross-boundary
    /// serialization.
    pub fn error_code(&self) -> (code: i32)
        ensures
            code == self.spec_error_code(),
    {
        match self {
            FocError::Classification(_) => 0,
            FocError::Extension(_) => 1,
            FocError::Thumbnail(_) => 2,
            FocError::Io(_) => 3,
            FocError::Index(_) => 4,
            FocError::Store(_) => 5,
        }
    }

    /// The code each variant maps to; distinct variants get distinct codes.
    pub open spec fn spec_error_code(&self) -> i32 {
        match self {
            FocError::Classification(_) => 0,
            FocError::Extension(_) => 1,
            FocError::Thumbnail(_) => 2,
            FocError::Io(_) => 3,
            FocError::Index(_) => 4,
            FocError::Store(_) => 5,
        }
    }

    /// The human-readable description carried by this error.
    pub fn description(&self) -> (d: &String)
        ensures
            d@ == self.spec_description(),
    {
        match self {
            FocError::Classification(d) => d,
            FocError::Extension(d) => d,
            FocError::Thumbnail(d) => d,
            FocError::Io(d) => d,
            FocError::Index(d) => d,
            FocError::Store(d) => d,
        }
    }

    /// The description each variant carries.
    pub open spec fn spec_description(&self) -> Seq<char> {
        match self {
            FocError::Classification(d) => d@,
            FocError::Extension(d) => d@,
            FocError::Thumbnail(d) => d@,
            FocError::Io(d) => d@,
            FocError::Index(d) => d@,
            FocError::Store(d) => d@,
        }
    }
}

/// The codes of the taxonomy never collide: two errors of different kinds
/// always carry different codes.
pub proof fn lemma_error_codes_distinct(a: FocError, b: FocError)
    requires
        a.spec_error_code() == b.spec_error_code(),
    ensures
        (a is Classification <==> b is Classification),
        (a is Extension <==> b is Extension),
        (a is Thumbnail <==> b is Thumbnail),
        (a is Io <==> b is Io),
        (a is Index <==> b is Index),
        (a is Store <==> b is Store),
{
}

} // verus!
