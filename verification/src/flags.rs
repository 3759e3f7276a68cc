//! Capability flags of a mapping.

use vstd::prelude::*;

verus! {

/// A set of access capabilities, one boolean per capability.
///
/// The value has no identity: two flag sets are equal when all six
/// capabilities agree.
#[derive(Clone, Copy, Debug, PartialEq, Eq, Structural)]
#[allow(clippy::struct_excessive_bools)]
pub struct FlagBuilder {
    pub read: bool,
    pub write: bool,
    pub execute: bool,
    pub cow: bool,
    pub private: bool,
    pub shared: bool,
}

impl FlagBuilder {
    /// The flag set with every capability off.
    pub open spec fn empty() -> FlagBuilder {
        FlagBuilder {
            read: false,
            write: false,
            execute: false,
            cow: false,
            private: false,
            shared: false,
        }
    }

    /// Capability-wise union.
    pub open spec fn union(self, other: FlagBuilder) -> FlagBuilder {
        FlagBuilder {
            read: self.read || other.read,
            write: self.write || other.write,
            execute: self.execute || other.execute,
            cow: self.cow || other.cow,
            private: self.private || other.private,
            shared: self.shared || other.shared,
        }
    }

    /// Capability-wise difference: what is on in `self` and off in `other`.
    pub open spec fn difference(self, other: FlagBuilder) -> FlagBuilder {
        FlagBuilder {
            read: self.read && !other.read,
            write: self.write && !other.write,
            execute: self.execute && !other.execute,
            cow: self.cow && !other.cow,
            private: self.private && !other.private,
            shared: self.shared && !other.shared,
        }
    }

    /// Whether a request for `access` is covered by `self`: every capability
    /// that the request names is one that `self` holds.
    pub open spec fn allows(self, access: FlagBuilder) -> bool {
        access.difference(self) == FlagBuilder::empty()
    }

    /// Create a new `FlagBuilder` with all flags toggled off.
    #[must_use]
    pub fn new() -> (r: Self)
        ensures
            r == FlagBuilder::empty(),
    {
        FlagBuilder {
            read: false,
            write: false,
            execute: false,
            cow: false,
            private: false,
            shared: false,
        }
    }

    /// Turn on only the read flag.
    #[must_use]
    pub fn read() -> (r: Self)
        ensures
            r == (FlagBuilder { read: true, ..FlagBuilder::empty() }),
    {
        FlagBuilder { read: true, ..FlagBuilder::new() }
    }

    /// Toggle the read flag.
    #[must_use]
    pub fn toggle_read(self) -> (r: Self)
        ensures
            r == (FlagBuilder { read: !self.read, ..self }),
    {
        FlagBuilder { read: !self.read, ..self }
    }

    /// Turn on only the write flag.
    #[must_use]
    pub fn write() -> (r: Self)
        ensures
            r == (FlagBuilder { write: true, ..FlagBuilder::empty() }),
    {
        FlagBuilder { write: true, ..FlagBuilder::new() }
    }

    /// Toggle the write flag.
    #[must_use]
    pub fn toggle_write(self) -> (r: Self)
        ensures
            r == (FlagBuilder { write: !self.write, ..self }),
    {
        FlagBuilder { write: !self.write, ..self }
    }

    /// Turn on only the execute flag.
    #[must_use]
    pub fn execute() -> (r: Self)
        ensures
            r == (FlagBuilder { execute: true, ..FlagBuilder::empty() }),
    {
        FlagBuilder { execute: true, ..FlagBuilder::new() }
    }

    /// Toggle the execute flag.
    #[must_use]
    pub fn toggle_execute(self) -> (r: Self)
        ensures
            r == (FlagBuilder { execute: !self.execute, ..self }),
    {
        FlagBuilder { execute: !self.execute, ..self }
    }

    /// Turn on only the cow flag.
    #[must_use]
    pub fn cow() -> (r: Self)
        ensures
            r == (FlagBuilder { cow: true, ..FlagBuilder::empty() }),
    {
        FlagBuilder { cow: true, ..FlagBuilder::new() }
    }

    /// Toggle the cow flag.
    #[must_use]
    pub fn toggle_cow(self) -> (r: Self)
        ensures
            r == (FlagBuilder { cow: !self.cow, ..self }),
    {
        FlagBuilder { cow: !self.cow, ..self }
    }

    /// Turn on only the private flag.
    #[must_use]
    pub fn private() -> (r: Self)
        ensures
            r == (FlagBuilder { private: true, ..FlagBuilder::empty() }),
    {
        FlagBuilder { private: true, ..FlagBuilder::new() }
    }

    /// Toggle the private flag.
    #[must_use]
    pub fn toggle_private(self) -> (r: Self)
        ensures
            r == (FlagBuilder { private: !self.private, ..self }),
    {
        FlagBuilder { private: !self.private, ..self }
    }

    /// Turn on only the shared flag.
    #[must_use]
    pub fn shared() -> (r: Self)
        ensures
            r == (FlagBuilder { shared: true, ..FlagBuilder::empty() }),
    {
        FlagBuilder { shared: true, ..FlagBuilder::new() }
    }

    /// Toggle the shared flag.
    #[must_use]
    pub fn toggle_shared(self) -> (r: Self)
        ensures
            r == (FlagBuilder { shared: !self.shared, ..self }),
    {
        FlagBuilder { shared: !self.shared, ..self }
    }

    /// Combine two `FlagBuilder`s by boolean or-ing each of their flags.
    ///
    /// This is, somewhat counter-intuitively, named `and`, so that
    /// `FlagBuilder::read().and(FlagBuilder::execute())` reads as "read and
    /// execute".
    #[must_use]
    pub fn and(self, other: Self) -> (r: Self)
        ensures
            r == self.union(other),
    {
        FlagBuilder {
            read: self.read || other.read,
            write: self.write || other.write,
            execute: self.execute || other.execute,
            cow: self.cow || other.cow,
            private: self.private || other.private,
            shared: self.shared || other.shared,
        }
    }

    /// Turn off all flags in `self` that are on in `other`.
    #[must_use]
    pub fn but_not(self, other: Self) -> (r: Self)
        ensures
            r == self.difference(other),
    {
        FlagBuilder {
            read: self.read && !other.read,
            write: self.write && !other.write,
            execute: self.execute && !other.execute,
            cow: self.cow && !other.cow,
            private: self.private && !other.private,
            shared: self.shared && !other.shared,
        }
    }

    /// Whether a request for `access` is covered by these flags.
    pub fn permits(self, access: Self) -> (r: bool)
        ensures
            r == self.allows(access),
    {
        access.but_not(self) == FlagBuilder::new()
    }
}

impl Default for FlagBuilder {
    fn default() -> (r: Self)
        ensures
            r == FlagBuilder::empty(),
    {
        FlagBuilder::new()
    }
}

} // verus!
