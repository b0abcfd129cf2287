//! Checking one side of a mapping: does the partition a reference names still
//! hold the content whose fingerprint was recorded?
use vstd::prelude::*;

use crate::fingerprint::{fingerprint, hash_content, verify_hash};
use crate::partition::{extraction, reference_of, Partition, ParseError, ResolveError, SourceText};

verus! {

/// Why a partition no longer matches its recorded fingerprint.
#[derive(Debug, Clone, PartialEq, Eq)]
pub enum CheckFailure {
    /// The reference string does not parse.
    Parse(ParseError),
    /// The partition cannot be resolved against its file.
    Extract(ResolveError),
    /// The content changed; `actual` is the fingerprint it has now.
    Changed { actual: String },
}

/// Relates the outcome of a check to the reference, the recorded fingerprint
/// and what reading the partition's file gave.
pub open spec fn check_holds(
    r: Result<(), CheckFailure>,
    partition_str: Seq<char>,
    expected_hash: Seq<char>,
    source: SourceText,
) -> bool {
    match reference_of(partition_str) {
        Err(e) => r == Err::<(), CheckFailure>(CheckFailure::Parse(e)),
        Ok(p) => match extraction(p, source) {
            Err(e) => r == Err::<(), CheckFailure>(CheckFailure::Extract(e)),
            Ok(c) => if fingerprint(c) == expected_hash {
                r == Ok::<(), CheckFailure>(())
            } else {
                r matches Err(CheckFailure::Changed { actual }) && actual@ == fingerprint(c)
            },
        },
    }
}

/// Checks a reference against its recorded fingerprint. `source` is what
/// reading the file that the reference names gave.
pub fn test_partition(partition_str: &str, expected_hash: &str, source: &SourceText) -> (r: Result<
    (),
    CheckFailure,
>)
    ensures
        check_holds(r, partition_str@, expected_hash@, *source),
{
    let partition = match Partition::parse(partition_str) {
        Ok(p) => p,
        Err(e) => {
            return Err(CheckFailure::Parse(e));
        },
    };
    let content = match partition.extract_content(source) {
        Ok(c) => c,
        Err(e) => {
            return Err(CheckFailure::Extract(e));
        },
    };
    if !verify_hash(content.as_str(), expected_hash) {
        return Err(CheckFailure::Changed { actual: hash_content(content.as_str()) });
    }
    Ok(())
}

/// Whether a reference still holds the content with the recorded fingerprint.
pub fn test_partition_validity(partition_str: &str, expected_hash: &str, source: &SourceText) -> (r:
    bool)
    ensures
        r == (check_holds(Ok(()), partition_str@, expected_hash@, *source)),
{
    match test_partition(partition_str, expected_hash, source) {
        Ok(()) => true,
        Err(_) => false,
    }
}

/// The content a reference names, when it parses and resolves.
pub fn extract_content_if_possible(partition_str: &str, source: &SourceText) -> (r: Option<String>)
    ensures
        match reference_of(partition_str@) {
            Ok(p) => match extraction(p, *source) {
                Ok(c) => r matches Some(s) && s@ == c,
                Err(_) => r is None,
            },
            Err(_) => r is None,
        },
{
    match Partition::parse(partition_str) {
        Ok(p) => match p.extract_content(source) {
            Ok(c) => Some(c),
            Err(_) => None,
        },
        Err(_) => None,
    }
}

} // verus!
