//! An open-addressing hash table mapping 64-bit keys to values, with
//! Robin-Hood-style displacement on insertion, tombstone deletion, a
//! scalar and a block-compare lookup path, and a power-of-two grow and
//! shrink policy.  Every operation carries a contract relating it to a
//! mathematical map view of the table.

pub mod hash;
pub mod probe;
pub mod counting;
pub mod model;
pub mod table;

pub use hash::FxStrategy;
pub use hash::SlotState;
pub use probe::idx_for;
pub use probe::simds_for_cap;
pub use probe::HASH_LANES;
pub use probe::MAX_CAP;
pub use table::HashMap;
pub use table::Iter;
pub use table::Keys;
pub use table::TableError;
pub use table::Values;
