use vstd::prelude::*;

verus! {

/// A named piece of a document's text.
pub struct Field {
    pub name: String,
    pub text: String,
}

/// What an index reads from a document: its reference and its fields.
pub trait Document {
    fn id(&self) -> String;

    fn fields(&self) -> Vec<Field>;
}

} // verus!
