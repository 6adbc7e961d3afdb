//! Packages are the things that versions are selected for.

use vstd::prelude::*;

verus! {

/// A package is any value that can be compared and duplicated. Its view is
/// what identifies it: two values with the same view are the same package.
pub trait Package: View + Sized {
    /// Whether two values name the same package.
    fn same(&self, other: &Self) -> (b: bool)
        ensures
            b == (self@ == other@),
    ;

    /// A second value for the same package.
    fn duplicate(&self) -> (p: Self)
        ensures
            p@ == self@,
    ;
}

impl Package for String {
    fn same(&self, other: &Self) -> (b: bool) {
        self.eq(other)
    }

    fn duplicate(&self) -> (p: Self) {
        self.clone()
    }
}

impl Package for u32 {
    fn same(&self, other: &Self) -> (b: bool) {
        *self == *other
    }

    fn duplicate(&self) -> (p: Self) {
        *self
    }
}

impl Package for u64 {
    fn same(&self, other: &Self) -> (b: bool) {
        *self == *other
    }

    fn duplicate(&self) -> (p: Self) {
        *self
    }
}

impl Package for usize {
    fn same(&self, other: &Self) -> (b: bool) {
        *self == *other
    }

    fn duplicate(&self) -> (p: Self) {
        *self
    }
}

} // verus!
