use vstd::prelude::*;

verus! {

/// A value that may be absent.
pub enum MyOption<T> {
    MyNone,
    MySome(T),
}

} // verus!
