//! Options shared by every write operation.

use vstd::prelude::*;
use vstd::std_specs::convert::FromSpecImpl;

verus! {

/// The format version to write.
#[derive(Debug, Copy, Clone, PartialEq, Eq, Hash, Structural)]
pub enum Version {
    V1,
    V2,
}

/// Options of the write operations of this crate.
#[derive(Debug, Copy, Clone, PartialEq, Eq, Hash, Structural)]
pub struct WriteOptions {
    /// Whether to write statistics, including indexes.
    pub write_statistics: bool,
    /// Which format version to use.
    pub version: Version,
}

impl Version {
    /// The number under which the footer records this version.
    pub open spec fn number(self) -> int {
        match self {
            Version::V1 => 1,
            Version::V2 => 2,
        }
    }
}

impl From<Version> for i32 {
    fn from(version: Version) -> (number: i32)
        ensures
            number == version.number(),
    {
        match version {
            Version::V1 => 1,
            Version::V2 => 2,
        }
    }
}

impl FromSpecImpl<Version> for i32 {
    open spec fn obeys_from_spec() -> bool {
        true
    }

    open spec fn from_spec(version: Version) -> i32 {
        match version {
            Version::V1 => 1i32,
            Version::V2 => 2i32,
        }
    }
}

} // verus!
