//! Columns: the cells of one component type within one table.

use vstd::prelude::*;

verus! {

/// A growable array of component cells, one per table row.
///
/// A cell that is swap-removed and handed to the caller has been moved, not
/// dropped; a cell that is removed in place is dropped; clearing or dropping
/// the column drops every remaining cell.
#[derive(Debug)]
pub struct Column<V> {
    pub data: Vec<V>,
}

impl<V> Column<V> {
    pub fn new(capacity: usize) -> (r: Self)
        ensures
            r.data@.len() == 0,
    {
        Column { data: Vec::with_capacity(capacity) }
    }

    pub fn reserve(&mut self, additional: usize)
        ensures
            final(self).data@ == old(self).data@,
    {
        self.data.reserve(additional);
    }

    /// Drop every cell.
    pub fn clear(&mut self)
        ensures
            final(self).data@.len() == 0,
    {
        self.data.clear();
    }

    pub fn len(&self) -> (n: usize)
        ensures
            n == self.data@.len(),
    {
        self.data.len()
    }

    pub fn is_empty(&self) -> (b: bool)
        ensures
            b == (self.data@.len() == 0),
    {
        self.data.is_empty()
    }

    pub fn get(&self, index: usize) -> (r: &V)
        requires
            index < self.data@.len(),
        ensures
            *r == self.data@[index as int],
    {
        &self.data[index]
    }

    pub fn get_mut(&mut self, index: usize) -> (r: &mut V)
        requires
            index < old(self).data@.len(),
        ensures
            *r == old(self).data@[index as int],
            final(self).data@ == old(self).data@.update(index as int, *final(r)),
    {
        &mut self.data[index]
    }

    /// Append a cell, taking ownership of it.
    pub fn push(&mut self, value: V)
        ensures
            final(self).data@ == old(self).data@.push(value),
    {
        self.data.push(value);
    }

    /// Swap-remove the cell at `index` and hand it to the caller: the cell
    /// is moved out, not dropped.
    pub fn swap_remove_and_forget(&mut self, index: usize) -> (r: V)
        requires
            index < old(self).data@.len(),
        ensures
            r == old(self).data@[index as int],
            final(self).data@ == old(self).data@.update(
                index as int,
                old(self).data@.last(),
            ).drop_last(),
    {
        self.data.swap_remove(index)
    }

    /// Swap-remove the cell at `index` and drop it.
    pub fn remove_item(&mut self, index: usize)
        requires
            index < old(self).data@.len(),
        ensures
            final(self).data@ == old(self).data@.update(
                index as int,
                old(self).data@.last(),
            ).drop_last(),
    {
        let cell = self.data.swap_remove(index);
        let _ = cell;
    }

    /// Move the cell at `index` into another column: the cell is transferred,
    /// not dropped.
    pub fn move_item(&mut self, index: usize, to_column: &mut Column<V>)
        requires
            index < old(self).data@.len(),
        ensures
            final(self).data@ == old(self).data@.update(
                index as int,
                old(self).data@.last(),
            ).drop_last(),
            final(to_column).data@ == old(to_column).data@.push(old(self).data@[index as int]),
    {
        let cell = self.data.swap_remove(index);
        to_column.data.push(cell);
    }
}

} // verus!
