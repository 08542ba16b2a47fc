//! Small tools.

use vstd::prelude::*;

verus! {

/// An optional value that falls back on a computation that may fail.
pub trait OrElseRes: Sized {
    type T;

    /// The value that is held, if any.
    spec fn held(&self) -> Option<Self::T>;

    /// The value that is held, or else what `f` gives. `f` is called only
    /// where no value is held.
    fn or_else_res<E, F>(self, f: F) -> (r: Result<Self::T, E>) where F: FnOnce() -> Result<Self::T, E>
        requires
            self.held() is None ==> f.requires(()),
        ensures
            match self.held() {
                Some(v) => r == Ok::<Self::T, E>(v),
                None => f.ensures((), r),
            },
    ;
}

impl<T> OrElseRes for Option<T> {
    type T = T;

    open spec fn held(&self) -> Option<T> {
        *self
    }

    fn or_else_res<E, F>(self, f: F) -> (r: Result<T, E>) where F: FnOnce() -> Result<T, E> {
        match self {
            Some(val) => Ok(val),
            None => f(),
        }
    }
}

/// The first index at which `left` and `right` differ, the length of the
/// shorter where one begins the other, or `None` where they are equal.
pub fn first_difference(left: &[u8], right: &[u8]) -> (r: Option<usize>)
    ensures
        match r {
            Some(i) => i <= left@.len() && i <= right@.len() && left@.subrange(0, i as int) == right@.subrange(
                0,
                i as int,
            ) && (i == left@.len() || i == right@.len() || left@[i as int] != right@[i as int]) && left@
                != right@,
            None => left@ == right@,
        },
{
    let mut i: usize = 0;
    while i < left.len() && i < right.len()
        invariant
            0 <= i <= left@.len(),
            i <= right@.len(),
            left@.subrange(0, i as int) == right@.subrange(0, i as int),
        decreases left@.len() - i,
    {
        if left[i] != right[i] {
            return Some(i);
        }
        assert(left@.subrange(0, i + 1) =~= left@.subrange(0, i as int).push(left@[i as int]));
        assert(right@.subrange(0, i + 1) =~= right@.subrange(0, i as int).push(right@[i as int]));
        i += 1;
    }
    if left.len() == right.len() {
        assert(left@ =~= left@.subrange(0, i as int));
        assert(right@ =~= right@.subrange(0, i as int));
        None
    } else {
        Some(i)
    }
}

} // verus!
