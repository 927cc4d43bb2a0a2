//! Header rules of the `.bmpaint` package format.
use vstd::prelude::*;

verus! {

broadcast use vstd::string::group_string_axioms;

/// Magic string that opens every `.bmpaint` package.
pub const BMPAINT_MAGIC: &'static str = "BLACKMAMBA_PAINT";

/// Newest package version this library reads and writes.
pub const BMPAINT_VERSION: u32 = 1;

/// Why a package header is rejected.
#[derive(Debug, Clone, PartialEq, Eq)]
pub enum StorageError {
    InvalidMagic(String),
    UnsupportedVersion(u32),
}

/// Accepts a header whose magic is `BMPAINT_MAGIC` and whose version is at
/// most `BMPAINT_VERSION`; the magic is checked first.
pub fn check_package_header(magic: String, version: u32) -> (r: Result<(), StorageError>)
    ensures
        match r {
            Ok(()) => magic@ == BMPAINT_MAGIC@ && version <= BMPAINT_VERSION,
            Err(StorageError::InvalidMagic(m)) => magic@ != BMPAINT_MAGIC@ && m@ == magic@,
            Err(StorageError::UnsupportedVersion(v)) => magic@ == BMPAINT_MAGIC@ && version > BMPAINT_VERSION && v
                == version,
        },
{
    let expected = BMPAINT_MAGIC.to_string();
    if magic != expected {
        return Err(StorageError::InvalidMagic(magic));
    }
    if version > BMPAINT_VERSION {
        return Err(StorageError::UnsupportedVersion(version));
    }
    Ok(())
}

} // verus!
