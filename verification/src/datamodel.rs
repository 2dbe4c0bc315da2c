//! Types shared by the data models.

use vstd::prelude::*;
use vstd::string::*;
use vstd::utf8::encode_utf8;

verus! {

/// A wrapper for source script code with a unique id for effective identification.
#[derive(Clone)]
pub struct SourceCode {
    pub source: String,
    /// The unique id of the script. Unique only inside the current life-cycle.
    /// Invalid if 0.
    pub source_id: usize,
}

impl SourceCode {
    /// Source code holding a copy of `source`.
    pub fn new(source: &str, source_id: usize) -> (r: SourceCode)
        ensures
            r.source@ == source@,
            r.source_id == source_id,
    {
        SourceCode { source: String::from_str(source), source_id }
    }

    /// Source code holding `source` itself.
    pub fn new_move(source: String, source_id: usize) -> (r: SourceCode)
        ensures
            r.source == source,
            r.source_id == source_id,
    {
        SourceCode { source, source_id }
    }

    /// Whether the source is the empty text.
    pub fn is_empty(&self) -> (r: bool)
        ensures
            r == (self.source@.len() == 0),
    {
        self.source.as_str().is_empty()
    }

    /// The source text.
    pub fn as_str(&self) -> (r: &str)
        ensures
            r@ == self.source@,
    {
        self.source.as_str()
    }

    /// The length of the source in UTF-8 bytes.
    pub fn len(&self) -> (r: usize)
        ensures
            r == encode_utf8(self.source@).len() as usize,
    {
        self.source.as_str().len()
    }
}

} // verus!
