//! The decisions behind crash-resistant settings files: what a read means,
//! which schema versions are accepted, where the backup lives and when a
//! replacement must not overwrite.
use vstd::prelude::*;
use crate::text::{decimal, push_decimal};

verus! {

/// The newest settings schema this version reads and writes.
pub const SCHEMA_VERSION: u32 = 1;

/// What loading a settings file gave.
#[derive(Debug)]
pub enum LoadOutcome<T> {
    /// There is no file.
    Missing,
    /// The file was read and decoded.
    Loaded(T),
    /// The file could not be read or decoded; the text says why.
    Failed(String),
}

/// Why a file could not be read.
#[derive(Debug, Clone, PartialEq, Eq)]
pub enum ReadError {
    NotFound,
    Other(String),
}

/// The outcome of a load: a file that is not there is missing; one that could
/// not be read, or whose bytes did not decode, failed.
pub fn load_outcome<T>(read: Result<Result<T, String>, ReadError>) -> (r: LoadOutcome<T>)
    ensures
        match read {
            Ok(Ok(value)) => r == LoadOutcome::<T>::Loaded(value),
            Ok(Err(e)) => r == LoadOutcome::<T>::Failed(e),
            Err(ReadError::NotFound) => r is Missing,
            Err(ReadError::Other(e)) => r == LoadOutcome::<T>::Failed(e),
        },
{
    match read {
        Ok(Ok(value)) => LoadOutcome::Loaded(value),
        Ok(Err(e)) => LoadOutcome::Failed(e),
        Err(ReadError::NotFound) => LoadOutcome::Missing,
        Err(ReadError::Other(e)) => LoadOutcome::Failed(e),
    }
}

/// The error text for a file written by a newer version.
pub open spec fn schema_error_text(version: u32) -> Seq<char> {
    "Unsupported schema version "@ + decimal(version as nat)
        + "; this application supports up to 1"@
}

/// The version check applied before a file's fields are decoded: files from a
/// newer schema are refused; unversioned files count as version 0.
pub fn check_schema(version: u32) -> (r: Result<(), String>)
    ensures
        r is Ok <==> version <= SCHEMA_VERSION,
        r matches Err(e) ==> e@ == schema_error_text(version),
{
    if version > SCHEMA_VERSION {
        let mut s = String::from_str("Unsupported schema version ");
        push_decimal(&mut s, version as u64);
        s.append("; this application supports up to 1");
        return Err(s);
    }
    Ok(())
}

/// The backup file of `path`: the same name with `.bak` appended.
pub fn backup_path(path: &str) -> (r: String)
    ensures
        r@ == path@ + ".bak"@,
{
    let mut s = String::from_str(path);
    s.append(".bak");
    s
}

/// How a file is published.
#[derive(Clone, Copy, Debug, PartialEq, Eq, Structural)]
pub enum WriteMode {
    /// Only if no file exists yet.
    CreateNew,
    /// Replacing an existing file.
    Replace,
}

/// The mode a save really uses: when no previous file was read, a file that
/// appears meanwhile must not be overwritten.
pub fn effective_mode(previous_exists: bool, mode: WriteMode) -> (r: WriteMode)
    ensures
        r == if previous_exists {
            mode
        } else {
            WriteMode::CreateNew
        },
{
    if previous_exists {
        mode
    } else {
        WriteMode::CreateNew
    }
}

} // verus!
