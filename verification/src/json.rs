//! Canonical JSON argument text.
//!
//! Step arguments travel through the engine as JSON text. The memoization
//! cache and the binding table key on that text, so equal argument values
//! must have equal key text: the engine reserializes argument text through
//! `serde_json` to a canonical form before keying on it.

use vstd::prelude::*;

use crate::workflow::WorkflowError;

verus! {

/// The canonical form of a JSON text: the result of parsing the text and
/// reserializing the parsed value. With `serde_json`'s default object
/// representation (an ordered map), that form depends on the text alone.
pub uninterp spec fn canon_of(text: Seq<char>) -> Seq<char>;

/// Whether a text parses as JSON. Parsing depends on the text alone, so
/// canonicalization succeeds exactly on these texts.
pub uninterp spec fn json_ok(text: Seq<char>) -> bool;

#[verifier::external_type_specification]
#[verifier::external_body]
pub struct ExSerdeJsonError(serde_json::Error);

/// Relies on `serde_json::from_str` and `serde_json::to_string`: reparsing
/// and reserializing a JSON text yields its canonical form, and succeeds
/// exactly when the text parses — both depend on the text alone.
/// Reserializing a parsed value itself cannot fail: its object keys are
/// strings and its depth is bounded at parse time.
#[verifier::external_body]
fn canonical_json(text: &str) -> (r: Result<String, serde_json::Error>)
    ensures
        r is Ok <==> json_ok(text@),
        r matches Ok(c) ==> c@ == canon_of(text@),
{
    match serde_json::from_str::<serde_json::Value>(text) {
        Ok(value) => serde_json::to_string(&value),
        Err(e) => Err(e),
    }
}

/// Relies on `serde_json::Error`'s display implementation for a readable
/// message; nothing is assumed of the text.
#[verifier::external_body]
fn json_error_message(e: &serde_json::Error) -> String {
    format!("{e}")
}

/// Canonicalizes one argument text, mapping a parse failure to the engine's
/// own error. Succeeds exactly on texts that parse as JSON.
pub fn canonicalize_args(text: &String) -> (r: Result<String, WorkflowError>)
    ensures
        r is Ok <==> json_ok(text@),
        r matches Ok(c) ==> c@ == canon_of(text@),
        r is Err ==> r matches Err(WorkflowError::Serde(_)),
{
    match canonical_json(text.as_str()) {
        Ok(c) => Ok(c),
        Err(e) => Err(WorkflowError::Serde(json_error_message(&e))),
    }
}

} // verus!
