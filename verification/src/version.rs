//! Versions are totally ordered values with a lowest element and a successor.

use vstd::prelude::*;
use vstd::string::StringExecFns;

verus! {

/// A version is identified by its position in a total order that starts at
/// zero. The view of a version is that position.
pub trait Version: View<V = nat> + Sized + Copy {
    /// Whether a next version can be represented.
    spec fn has_successor(&self) -> bool;

    /// The lowest version.
    fn lowest() -> (v: Self)
        ensures
            v@ == 0,
    ;

    /// Tells whether `bump` may be called.
    fn can_bump(&self) -> (b: bool)
        ensures
            b == self.has_successor(),
    ;

    /// The next version.
    fn bump(&self) -> (v: Self)
        requires
            self.has_successor(),
        ensures
            v@ == self@ + 1,
    ;

    /// Strict order on versions.
    fn lt(&self, other: &Self) -> (b: bool)
        ensures
            b == (self@ < other@),
    ;

    /// Equality of versions.
    fn same(&self, other: &Self) -> (b: bool)
        ensures
            b == (self@ == other@),
    ;

    /// How the version at a position is written.
    spec fn text_at(position: nat) -> Seq<char>;

    /// The version, written out.
    fn to_text(&self) -> (s: String)
        ensures
            s@ == Self::text_at(self@),
    ;

    /// A version that is followed by another one has a successor.
    proof fn followed(a: Self, b: Self)
        requires
            b@ == a@ + 1,
        ensures
            a.has_successor(),
    ;
}

/// How a digit is written.
pub open spec fn digit(d: nat) -> Seq<char> {
    if d == 0 {
        "0"@
    } else if d == 1 {
        "1"@
    } else if d == 2 {
        "2"@
    } else if d == 3 {
        "3"@
    } else if d == 4 {
        "4"@
    } else if d == 5 {
        "5"@
    } else if d == 6 {
        "6"@
    } else if d == 7 {
        "7"@
    } else if d == 8 {
        "8"@
    } else {
        "9"@
    }
}

/// How a number is written in base ten.
pub open spec fn decimal(n: nat) -> Seq<char>
    decreases n,
{
    if n < 10 {
        digit(n)
    } else {
        decimal(n / 10) + digit(n % 10)
    }
}

/// A digit, written out.
fn digit_text(d: u32) -> (s: &'static str)
    requires
        d < 10,
    ensures
        s@ == digit(d as nat),
{
    if d == 0 {
        "0"
    } else if d == 1 {
        "1"
    } else if d == 2 {
        "2"
    } else if d == 3 {
        "3"
    } else if d == 4 {
        "4"
    } else if d == 5 {
        "5"
    } else if d == 6 {
        "6"
    } else if d == 7 {
        "7"
    } else if d == 8 {
        "8"
    } else {
        "9"
    }
}

/// A number, written out in base ten.
pub fn decimal_text(n: u32) -> (s: String)
    ensures
        s@ == decimal(n as nat),
    decreases n,
{
    if n < 10 {
        String::from_str(digit_text(n))
    } else {
        let mut s = decimal_text(n / 10);
        s.append(digit_text(n % 10));
        s
    }
}

/// Simplest versions possible, just a non-negative number.
#[derive(Clone, Copy, Debug, PartialEq, Eq, Hash)]
pub struct NumberVersion(pub u32);

impl View for NumberVersion {
    type V = nat;

    open spec fn view(&self) -> nat {
        self.0 as nat
    }
}

impl Version for NumberVersion {
    open spec fn has_successor(&self) -> bool {
        self.0 < u32::MAX
    }

    fn lowest() -> (v: Self) {
        NumberVersion(0)
    }

    fn can_bump(&self) -> (b: bool) {
        self.0 < u32::MAX
    }

    fn bump(&self) -> (v: Self) {
        NumberVersion(self.0 + 1)
    }

    fn lt(&self, other: &Self) -> (b: bool) {
        self.0 < other.0
    }

    fn same(&self, other: &Self) -> (b: bool) {
        self.0 == other.0
    }

    open spec fn text_at(position: nat) -> Seq<char> {
        decimal(position)
    }

    fn to_text(&self) -> (s: String) {
        decimal_text(self.0)
    }

    proof fn followed(a: Self, b: Self) {
    }
}

} // verus!
