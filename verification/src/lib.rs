//! A verified open-addressing ("Swiss table") hash-table engine.

mod ctrl;
mod group;
mod probe;
mod layout;
mod binding;
mod inner;
mod map;
pub mod laws;

pub use binding::{EntrySpec, U64Spec};
pub use inner::{InsertSlot, TryReserveError};
pub use layout::{EntryLayout, TableLayout};
pub use map::{RawMap, RawTable2};
