//! Overflow-checked addition: the one arithmetic primitive the code
//! generator advances addresses with, so that exhaustion of the addressable
//! range surfaces as a typed error instead of a wrapped address.

use vstd::prelude::*;

verus! {

/// A type whose addition can be tested for overflow before it is performed.
pub trait SafeAdd: Sized {
    /// Whether `self + n` is representable in the type.
    spec fn add_ok(&self, n: &Self) -> bool;

    /// The sum, meaningful when `add_ok` holds.
    spec fn add_val(&self, n: &Self) -> Self;

    /// The sum, or `None` when it cannot be represented.
    fn safe_add(&self, n: &Self) -> (r: Option<Self>)
        ensures
            self.add_ok(n) ==> r == Some(self.add_val(n)),
            !self.add_ok(n) ==> r is None,
    ;
}

impl SafeAdd for usize {
    open spec fn add_ok(&self, n: &Self) -> bool {
        *self + *n <= usize::MAX
    }

    open spec fn add_val(&self, n: &Self) -> Self {
        (*self + *n) as usize
    }

    fn safe_add(&self, n: &Self) -> (r: Option<Self>) {
        self.checked_add(*n)
    }
}

/// Adds `src` into `dst` when the sum is representable; otherwise leaves
/// `dst` unchanged and fails with the error the supplied producer makes.
pub fn safe_add<T: SafeAdd, E, F: Fn() -> E>(dst: &mut T, src: &T, f: F) -> (r: Result<(), E>)
    requires
        call_requires(f, ()),
    ensures
        old(dst).add_ok(src) ==> r is Ok && *final(dst) == old(dst).add_val(src),
        !old(dst).add_ok(src) ==> *final(dst) == *old(dst) && (r matches Err(e) && call_ensures(
            f,
            (),
            e,
        )),
{
    match dst.safe_add(src) {
        Some(v) => {
            *dst = v;
            Ok(())
        },
        None => Err(f()),
    }
}

} // verus!
