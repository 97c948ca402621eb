//! Snapshots of an adjacency table as JSON documents: an object that maps
//! each node id to the array of its successors.

use std::collections::HashMap;
use vstd::prelude::*;
use crate::graph::adjacency_of;

verus! {

/// `serde_json::Error`, carried from the JSON calls to the place where it
/// is turned into a `SnapshotError`. Nothing is known of what it holds.
#[verifier::external_type_specification]
#[verifier::external_body]
pub struct ExJsonError(serde_json::Error);

/// Why a snapshot could not be written or read.
#[derive(Debug, Clone, Copy, PartialEq, Eq, Structural)]
pub enum SnapshotError {
    /// The table could not be written as a JSON document. No adjacency
    /// table gives this error: its keys and successors are plain numbers.
    Unwritable,
    /// The text is no JSON document of an adjacency table.
    Malformed,
}

/// The adjacency map that `serde_json::from_str` reads from a document as a
/// `HashMap<u32, Vec<u32>>`, or `None` where it rejects the document.
pub uninterp spec fn snapshot_value(text: Seq<char>) -> Option<Map<u32, Seq<u32>>>;

/// Calls `serde_json::from_str` for a `HashMap<u32, Vec<u32>>`.
///
/// Trusted: the outcome is a function of the text alone, which
/// `snapshot_value` names.
#[verifier::external_body]
fn json_to_table(text: &str) -> (result: Result<HashMap<u32, Vec<u32>>, serde_json::Error>)
    ensures
        match result {
            Ok(table) => snapshot_value(text@) == Some(adjacency_of(table@)),
            Err(_) => snapshot_value(text@) is None,
        },
{
    serde_json::from_str::<HashMap<u32, Vec<u32>>>(text)
}

/// Calls `serde_json::to_string` on a `HashMap<u32, Vec<u32>>`.
///
/// Trusted: a document comes out, since the writer is a byte vector, which
/// takes every write, and integer keys are written as quoted numbers; and
/// the document is one that `serde_json::from_str` reads back as the same
/// keys with the same successor sequences. Nothing is claimed about the
/// order of the keys in the document.
#[verifier::external_body]
fn table_to_json(table: &HashMap<u32, Vec<u32>>) -> (result: Result<String, serde_json::Error>)
    ensures
        result is Ok,
        result matches Ok(text) ==> snapshot_value(text@) == Some(adjacency_of(table@)),
{
    serde_json::to_string(table)
}

/// What reading a snapshot returns, given what the JSON reader made of it.
pub fn decoded(outcome: Result<HashMap<u32, Vec<u32>>, serde_json::Error>) -> (result: Result<
    HashMap<u32, Vec<u32>>,
    SnapshotError,
>)
    ensures
        match outcome {
            Ok(table) => result == Ok::<HashMap<u32, Vec<u32>>, SnapshotError>(table),
            Err(_) => result == Err::<HashMap<u32, Vec<u32>>, SnapshotError>(
                SnapshotError::Malformed,
            ),
        },
{
    match outcome {
        Ok(table) => Ok(table),
        Err(_) => Err(SnapshotError::Malformed),
    }
}

/// Reads an adjacency table from a JSON document.
pub fn read_snapshot(text: &str) -> (result: Result<HashMap<u32, Vec<u32>>, SnapshotError>)
    ensures
        match snapshot_value(text@) {
            Some(adj) => result matches Ok(table) && adjacency_of(table@) == adj,
            None => result == Err::<HashMap<u32, Vec<u32>>, SnapshotError>(
                SnapshotError::Malformed,
            ),
        },
{
    decoded(json_to_table(text))
}

/// Writes an adjacency table as a JSON document: every table has one.
/// Reading the document back gives the same keys with the same successor
/// sequences.
pub fn write_snapshot(table: &HashMap<u32, Vec<u32>>) -> (result: Result<String, SnapshotError>)
    ensures
        result is Ok,
        result matches Ok(text) ==> snapshot_value(text@) == Some(adjacency_of(table@)),
{
    match table_to_json(table) {
        Ok(text) => Ok(text),
        Err(_) => Err(SnapshotError::Unwritable),
    }
}

} // verus!
