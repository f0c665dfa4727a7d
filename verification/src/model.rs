//! The tool index entry shared by the cache, the search and the server.
use vstd::prelude::*;

verus! {

/// `serde_json::Value`, carried through the library unread.
#[verifier::external_type_specification]
#[verifier::external_body]
pub struct ExJsonValue(serde_json::Value);

/// Calls `serde_json::Value::clone`. The contract claims that the copy is the
/// same value: `Value` derives `Clone`, which copies every variant field by
/// field.
#[verifier::external_body]
fn clone_json(v: &serde_json::Value) -> (r: serde_json::Value)
    ensures
        r == *v,
{
    v.clone()
}

/// One upstream tool as the index keeps it.
pub struct ToolInfo {
    pub name: String,
    pub description: Option<String>,
    /// The tool's JSON input schema.
    pub schema: serde_json::Value,
    pub annotations: Option<serde_json::Value>,
}

/// A copy of an optional string.
pub fn clone_opt_string(s: &Option<String>) -> (r: Option<String>)
    ensures
        r == *s,
{
    match s {
        Some(x) => Some(x.clone()),
        None => None,
    }
}

impl ToolInfo {
    /// A copy of this entry.
    pub fn duplicate(&self) -> (r: ToolInfo)
        ensures
            r == *self,
    {
        ToolInfo {
            name: self.name.clone(),
            description: clone_opt_string(&self.description),
            schema: clone_json(&self.schema),
            annotations: match &self.annotations {
                Some(a) => Some(clone_json(a)),
                None => None,
            },
        }
    }
}

impl Clone for ToolInfo {
    fn clone(&self) -> (r: ToolInfo)
        ensures
            r == *self,
    {
        self.duplicate()
    }
}

} // verus!
