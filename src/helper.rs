//! Overflow-checked addition.
use vstd::prelude::*;

verus! {

/// Addition that reports overflow instead of wrapping.
pub trait SafeAdd: Sized {
    /// The sum, or `None` where it does not fit the type.
    spec fn add_spec(&self, n: &Self) -> Option<Self>;

    fn safe_add(&self, n: &Self) -> (r: Option<Self>)
        ensures
            r == self.add_spec(n),
    ;
}

impl SafeAdd for usize {
    open spec fn add_spec(&self, n: &usize) -> Option<usize> {
        if *self + *n <= usize::MAX {
            Some((*self + *n) as usize)
        } else {
            None
        }
    }

    fn safe_add(&self, n: &usize) -> (r: Option<usize>) {
        self.checked_add(*n)
    }
}

/// Adds `src` to `dst`; where the sum does not fit, leaves `dst` as it was
/// and returns the error that `f` builds.
pub fn safe_add<T: SafeAdd, E, F: Fn() -> E>(dst: &mut T, src: &T, f: F) -> (r: Result<(), E>)
    requires
        f.requires(()),
    ensures
        match old(dst).add_spec(src) {
            Some(n) => r is Ok && *final(dst) == n,
            None => r is Err && *final(dst) == *old(dst) && f.ensures((), r->Err_0),
        },
{
    match dst.safe_add(src) {
        Some(n) => {
            *dst = n;
            Ok(())
        },
        None => Err(f()),
    }
}

} // verus!
