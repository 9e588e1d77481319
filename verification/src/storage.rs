//! Type-erased, column-oriented storage for component cells.

use vstd::prelude::*;

pub mod column;
pub mod table;

verus! {

/// The kind of container a component is stored in.
///
/// Only table-resident storage is fully supported; the other classes are
/// reserved.
#[derive(Clone, Copy, Debug, PartialEq, Eq, Structural, Hash)]
pub enum StorageType {
    Table,
    SparseSet,
    BitSet,
}

} // verus!
