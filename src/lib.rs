//! Hash sets with several collision-resolution strategies, hash functions
//! and probe sequences, each counting the collisions met by its lookups.
//!
//! Four tables share the `HashTable` interface: open addressing
//! (`OpenAddressingTable`), direct chaining (`DirectChainingTable`),
//! separate chaining (`SeparateChainingTable`) and coalesced chaining
//! (`CoalescedTable`). Each can be sized to a byte budget, so that tables of
//! different shapes can be compared at equal memory footprint.
use vstd::prelude::*;

pub mod capacity;
pub mod chainingtable;
pub mod coalescedtable;
pub mod hashing;
pub mod openaddressing;
pub mod probing;
pub mod table;

pub use capacity::{fits, separate_chaining_buckets};
pub use chainingtable::{DirectChainingTable, LinkedList, SeparateChainingTable};
pub use coalescedtable::CoalescedTable;
pub use hashing::{Hasher, ModHash, MulHash, XorShiftHash};
pub use openaddressing::OpenAddressingTable;
pub use probing::{LinearProber, Prober, QuadraticProber, TriangularProber};
pub use table::{
    ConfigurationError, DefaultHashTableBuilder, HashTable, HashTableBuilder, Key, ELEMENT_COUNT,
};

verus! {

} // verus!
