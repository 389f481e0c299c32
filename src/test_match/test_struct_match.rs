use vstd::prelude::*;

verus! {

/// A record that owns two values and borrows two others for modification.
pub struct Foo<'a, 'b> {
    pub ival: i32,
    pub iref: &'a mut i32,
    pub sval: String,
    pub sref: &'b mut String,
}

impl<'a, 'b> Foo<'a, 'b> {
    pub fn new(ival: i32, iref: &'a mut i32, sval: String, sref: &'b mut String) -> (r: Foo<'a, 'b>)
        ensures
            r.ival == ival,
            *r.iref == *old(iref),
            *final(iref) == *final(r.iref),
            r.sval == sval,
            *r.sref == *old(sref),
            *final(sref) == *final(r.sref),
    {
        Foo { ival, iref, sval, sref }
    }
}

/// A record holding one value.
pub struct Bar<T> {
    pub val: T,
}

impl<T> Bar<T> {
    pub fn new(val: T) -> (r: Self)
        ensures
            r.val == val,
    {
        Bar { val }
    }
}

} // verus!
