//! The structured-format decoder: reconstructs a [`TreeView`] from a JSON
//! document with the equivalent schema (`current`, `tree`, `detached`, the
//! nodes carrying `id`, `span.name`, `span.is_verbose`, `span.is_long_running`,
//! `elapsed_ns` and `children`).
//!
//! Parsing the document itself is delegated to `serde_json`; only the
//! field-for-field mapping onto the tree model is done here.  A JSON value is
//! opaque to the verifier, so nothing is specified about what tree a given
//! document decodes to; any missing field, type mismatch or out-of-range
//! number surfaces as [`TraceError::MalformedTrace`].
use vstd::prelude::*;

use crate::chars::str_to_chars;
use crate::tree::SpanNodeView;
use crate::tree::SpanView;
use crate::tree::TraceError;
use crate::tree::TreeView;

verus! {

#[verifier::external_type_specification]
#[verifier::external_body]
pub struct ExValue(serde_json::Value);

/// Relies on `serde_json::from_str::<Value>`: parses a JSON document, or
/// fails on malformed input.
#[verifier::external_body]
fn json_parse(s: &str) -> (r: Option<serde_json::Value>)
{
    serde_json::from_str::<serde_json::Value>(s).ok()
}

/// Relies on `serde_json::Value::get`: looks a key up in a JSON object.
#[verifier::external_body]
fn json_get<'a>(v: &'a serde_json::Value, key: &str) -> (r: Option<&'a serde_json::Value>)
{
    v.get(key)
}

/// Relies on `serde_json::Value::as_u64`: the value as an unsigned integer,
/// if it is one in range.
#[verifier::external_body]
fn json_as_u64(v: &serde_json::Value) -> (r: Option<u64>)
{
    v.as_u64()
}

/// Relies on `serde_json::Value::as_str` (and `str::to_owned`): the value as
/// text, if it is a string.
#[verifier::external_body]
fn json_as_string(v: &serde_json::Value) -> (r: Option<String>)
{
    v.as_str().map(|s| s.to_owned())
}

/// Relies on `serde_json::Value::as_bool`: the value as a boolean, if it is
/// one.
#[verifier::external_body]
fn json_as_bool(v: &serde_json::Value) -> (r: Option<bool>)
{
    v.as_bool()
}

/// Relies on `serde_json::Value::as_array`: the value's elements, if it is an
/// array.
#[verifier::external_body]
fn json_as_array<'a>(v: &'a serde_json::Value) -> (r: Option<&'a Vec<serde_json::Value>>)
{
    v.as_array()
}

/// Decodes one span node.  `fuel` bounds the nesting depth (callers pass the
/// document length, which nesting can never reach).
fn node_from_json(v: &serde_json::Value, fuel: usize) -> (r: Result<SpanNodeView, TraceError>)
    decreases fuel,
{
    if fuel == 0 {
        return Err(TraceError::MalformedTrace);
    }
    let id64 = match json_get(v, "id") {
        Some(f) => match json_as_u64(f) {
            Some(x) => x,
            None => {
                return Err(TraceError::MalformedTrace);
            },
        },
        None => {
            return Err(TraceError::MalformedTrace);
        },
    };
    if id64 > usize::MAX as u64 {
        return Err(TraceError::MalformedTrace);
    }
    let span_v = match json_get(v, "span") {
        Some(f) => f,
        None => {
            return Err(TraceError::MalformedTrace);
        },
    };
    let name = match json_get(span_v, "name") {
        Some(f) => match json_as_string(f) {
            Some(s) => str_to_chars(s.as_str()),
            None => {
                return Err(TraceError::MalformedTrace);
            },
        },
        None => {
            return Err(TraceError::MalformedTrace);
        },
    };
    let is_verbose = match json_get(span_v, "is_verbose") {
        Some(f) => match json_as_bool(f) {
            Some(b) => b,
            None => {
                return Err(TraceError::MalformedTrace);
            },
        },
        None => {
            return Err(TraceError::MalformedTrace);
        },
    };
    let is_long_running = match json_get(span_v, "is_long_running") {
        Some(f) => match json_as_bool(f) {
            Some(b) => b,
            None => {
                return Err(TraceError::MalformedTrace);
            },
        },
        None => {
            return Err(TraceError::MalformedTrace);
        },
    };
    let elapsed64 = match json_get(v, "elapsed_ns") {
        Some(f) => match json_as_u64(f) {
            Some(x) => x,
            None => {
                return Err(TraceError::MalformedTrace);
            },
        },
        None => {
            return Err(TraceError::MalformedTrace);
        },
    };
    let child_values = match json_get(v, "children") {
        Some(f) => match json_as_array(f) {
            Some(a) => a,
            None => {
                return Err(TraceError::MalformedTrace);
            },
        },
        None => {
            return Err(TraceError::MalformedTrace);
        },
    };
    let mut children: Vec<SpanNodeView> = Vec::new();
    let mut i: usize = 0;
    while i < child_values.len()
        invariant
            fuel >= 1,
        decreases child_values@.len() - i,
    {
        match node_from_json(&child_values[i], fuel - 1) {
            Ok(c) => {
                children.push(c);
            },
            Err(e) => {
                return Err(e);
            },
        }
        i = i + 1;
    }
    Ok(
        SpanNodeView {
            id: id64 as usize,
            span: SpanView { name, is_verbose, is_long_running },
            elapsed_ns: elapsed64 as u128,
            children,
        },
    )
}

impl TreeView {
    /// Reconstructs a tree from a JSON document of the equivalent schema.
    ///
    /// Decoding is a direct field-for-field mapping; a document that does not
    /// parse or does not match the schema fails with
    /// [`TraceError::MalformedTrace`].  The decoded tree itself cannot be
    /// specified here: the parsed document is opaque to the verifier.
    pub fn from_json(s: &str) -> (r: Result<TreeView, TraceError>) {
        let fuel = s.len();
        let doc = match json_parse(s) {
            Some(v) => v,
            None => {
                return Err(TraceError::MalformedTrace);
            },
        };
        let current64 = match json_get(&doc, "current") {
            Some(f) => match json_as_u64(f) {
                Some(x) => x,
                None => {
                    return Err(TraceError::MalformedTrace);
                },
            },
            None => {
                return Err(TraceError::MalformedTrace);
            },
        };
        if current64 > usize::MAX as u64 {
            return Err(TraceError::MalformedTrace);
        }
        let tree = match json_get(&doc, "tree") {
            Some(f) => match node_from_json(f, fuel) {
                Ok(t) => t,
                Err(e) => {
                    return Err(e);
                },
            },
            None => {
                return Err(TraceError::MalformedTrace);
            },
        };
        let detached_values = match json_get(&doc, "detached") {
            Some(f) => match json_as_array(f) {
                Some(a) => a,
                None => {
                    return Err(TraceError::MalformedTrace);
                },
            },
            None => {
                return Err(TraceError::MalformedTrace);
            },
        };
        let mut detached: Vec<SpanNodeView> = Vec::new();
        let mut i: usize = 0;
        while i < detached_values.len()
            decreases detached_values@.len() - i,
        {
            match node_from_json(&detached_values[i], fuel) {
                Ok(d) => {
                    detached.push(d);
                },
                Err(e) => {
                    return Err(e);
                },
            }
            i = i + 1;
        }
        Ok(TreeView { current: current64 as usize, tree, detached })
    }
}

} // verus!
