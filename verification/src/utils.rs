use vstd::prelude::*;

verus! {

/// The text of a value that may be missing: the text itself, or the empty
/// string when there is none.
pub fn as_string(obj: Option<&str>) -> (r: String)
    ensures
        r@ == match obj {
            Some(s) => s@,
            None => Seq::<char>::empty(),
        },
{
    match obj {
        Some(s) => s.to_owned(),
        None => String::new(),
    }
}

} // verus!
