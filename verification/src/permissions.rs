//! Access permissions of sections and segments.

use vstd::prelude::*;

verus! {

/// A read/write/execute triple.
#[derive(Debug, Clone, Copy, PartialEq, Eq, Structural)]
pub struct Permissions {
    pub read: bool,
    pub write: bool,
    pub execute: bool,
}

/// The bitwise OR of two permission triples.
pub open spec fn spec_relax(a: Permissions, b: Permissions) -> Permissions {
    Permissions {
        read: a.read || b.read,
        write: a.write || b.write,
        execute: a.execute || b.execute,
    }
}

/// The bitwise AND of two permission triples.
pub open spec fn spec_restrict(a: Permissions, b: Permissions) -> Permissions {
    Permissions {
        read: a.read && b.read,
        write: a.write && b.write,
        execute: a.execute && b.execute,
    }
}

impl Permissions {
    /// Grow this triple by everything `other` allows.
    pub fn relax(&mut self, other: Self)
        ensures
            *final(self) == spec_relax(*old(self), other),
    {
        self.read = self.read || other.read;
        self.write = self.write || other.write;
        self.execute = self.execute || other.execute;
    }

    /// Shrink this triple to what `other` also allows.
    pub fn restrict(&mut self, other: Self)
        ensures
            *final(self) == spec_restrict(*old(self), other),
    {
        self.read = self.read && other.read;
        self.write = self.write && other.write;
        self.execute = self.execute && other.execute;
    }
}

impl Default for Permissions {
    /// The empty permission triple.
    fn default() -> (r: Self)
        ensures
            r == (Permissions { read: false, write: false, execute: false }),
    {
        Permissions { read: false, write: false, execute: false }
    }
}

} // verus!
