//! Bookkeeping for one virtual address space: which address intervals are
//! mapped, onto which data source, at which offset and with which
//! capabilities, and how an address is translated against that set.

pub mod address_space;
pub mod flags;
pub mod mapping;

pub use address_space::{AddressSpace, VirtualAddress};
pub use flags::FlagBuilder;
pub use mapping::{MapEntry, MapError};
