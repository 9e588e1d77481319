//! Tables: the row/column stores behind archetypes.

use vstd::prelude::*;

use crate::component::{ComponentId, ComponentInfo};
use crate::entity::{ChangedLocation, Entity};
use crate::storage::column::Column;
use crate::util::sparse_map::{
    count_some, key_indexes, lemma_count_some_le, lemma_count_some_push, lemma_count_some_update,
    lemma_key_indexes_bounds, ImmutableSparseMap, SparseMap, SparseMapKey,
};

verus! {

/// Index of a table in the tables collection.
///
/// Id 0 is the empty table; `usize::MAX` is the invalid sentinel.
#[derive(Clone, Copy, Debug, PartialEq, Eq, Structural, Hash)]
pub struct TableId(pub usize);

impl TableId {
    pub open spec fn spec_index(&self) -> int {
        self.0 as int
    }

    pub open spec fn spec_empty() -> Self {
        TableId(0)
    }

    pub open spec fn spec_invalid() -> Self {
        TableId(usize::MAX)
    }

    pub fn empty() -> (r: Self)
        ensures
            r == Self::spec_empty(),
    {
        TableId(0)
    }

    pub fn invalid() -> (r: Self)
        ensures
            r == Self::spec_invalid(),
    {
        TableId(usize::MAX)
    }

    pub fn index(&self) -> (i: usize)
        ensures
            i as int == self.spec_index(),
    {
        self.0
    }

    pub fn from_index(index: usize) -> (r: Self)
        ensures
            r.spec_index() == index as int,
    {
        TableId(index)
    }

    pub fn is_invalid(&self) -> (b: bool)
        ensures
            b == (*self == Self::spec_invalid()),
    {
        self.0 == usize::MAX
    }

    pub fn is_valid(&self) -> (b: bool)
        ensures
            b == (*self != Self::spec_invalid()),
    {
        self.0 != usize::MAX
    }
}

/// Index of an entity's row inside one table.
#[derive(Clone, Copy, Debug, PartialEq, Eq, Structural, Hash)]
pub struct TableRow(pub usize);

impl TableRow {
    pub open spec fn spec_index(&self) -> int {
        self.0 as int
    }

    pub open spec fn spec_invalid() -> Self {
        TableRow(usize::MAX)
    }

    pub fn invalid() -> (r: Self)
        ensures
            r == Self::spec_invalid(),
    {
        TableRow(usize::MAX)
    }

    pub fn index(&self) -> (i: usize)
        ensures
            i as int == self.spec_index(),
    {
        self.0
    }

    pub fn from_index(index: usize) -> (r: Self)
        ensures
            r.spec_index() == index as int,
    {
        TableRow(index)
    }

    pub fn is_invalid(&self) -> (b: bool)
        ensures
            b == (*self == Self::spec_invalid()),
    {
        self.0 == usize::MAX
    }

    pub fn is_valid(&self) -> (b: bool)
        ensures
            b == (*self != Self::spec_invalid()),
    {
        self.0 != usize::MAX
    }
}

/// The cells of one row, paired with their column ids, by ascending id.
pub open spec fn row_cells_of<V>(cols: Seq<Option<Seq<V>>>, row: int) -> Seq<(ComponentId, V)>
    decreases cols.len(),
{
    if cols.len() == 0 {
        Seq::empty()
    } else {
        let prefix = row_cells_of(cols.drop_last(), row);
        if cols.last() is Some {
            prefix.push((ComponentId((cols.len() - 1) as usize), cols.last()->Some_0[row]))
        } else {
            prefix
        }
    }
}

/// The cells hold exactly one value for each occupied column, in any order.
pub open spec fn cells_match_columns<V>(
    cells: Seq<(ComponentId, V)>,
    cols: Seq<Option<Seq<V>>>,
) -> bool {
    &&& forall|n1: int, n2: int|
        0 <= n1 < n2 < cells.len() ==> (#[trigger] cells[n1]).0 != (#[trigger] cells[n2]).0
    &&& forall|n: int|
        0 <= n < cells.len() ==> {
            &&& 0 <= (#[trigger] cells[n]).0.0 < cols.len()
            &&& cols[cells[n].0.0 as int] is Some
        }
    &&& forall|j: int|
        0 <= j < cols.len() && cols[j] is Some ==> exists|n: int|
            0 <= n < cells.len() && (#[trigger] cells[n]).0.0 as int == j
}

/// A column store: one column of cells per component id, and one entity per
/// row.  Every column has exactly one cell per row.
#[derive(Debug)]
pub struct Table<V> {
    pub columns: ImmutableSparseMap<ComponentId, Column<V>>,
    pub entities: Vec<Entity>,
}

impl<V> Table<V> {
    /// The columns as mathematical sequences of cells, slot by slot.
    pub open spec fn spec_columns(&self) -> Seq<Option<Seq<V>>> {
        self.columns.values@.map_values(
            |o: Option<Column<V>>|
                match o {
                    Some(c) => Some(c.data@),
                    None => None,
                },
        )
    }

    pub open spec fn spec_has_column(&self, cid: int) -> bool {
        0 <= cid < self.spec_columns().len() && self.spec_columns()[cid] is Some
    }

    pub open spec fn spec_column(&self, cid: int) -> Seq<V> {
        self.spec_columns()[cid]->Some_0
    }

    /// The component ids of this table's columns, ascending.
    pub open spec fn spec_column_ids(&self) -> Seq<int> {
        key_indexes(self.spec_columns())
    }

    /// The cells of one row, paired with their column ids, ascending.
    pub open spec fn spec_row_cells(&self, row: int) -> Seq<(ComponentId, V)> {
        row_cells_of(self.spec_columns(), row)
    }

    pub open spec fn wf(&self) -> bool {
        &&& self.columns.wf()
        &&& forall|j: int|
            0 <= j < self.spec_columns().len() && self.spec_columns()[j] is Some
                ==> (#[trigger] self.spec_columns()[j])->Some_0.len() == self.entities@.len()
    }

    pub fn get_column(&self, component_id: ComponentId) -> (r: Option<&Column<V>>)
        ensures
            r is Some <==> self.spec_has_column(component_id.0 as int),
            r is Some ==> r->Some_0.data@ == self.spec_column(component_id.0 as int),
    {
        self.columns.get(&component_id)
    }

    pub fn has_column(&self, component_id: ComponentId) -> (b: bool)
        ensures
            b == self.spec_has_column(component_id.0 as int),
    {
        self.columns.contains_key(&component_id)
    }

    pub fn num_entities(&self) -> (n: usize)
        ensures
            n == self.entities@.len(),
    {
        self.entities.len()
    }

    pub fn num_components(&self) -> (n: usize)
        ensures
            n == self.columns.len,
    {
        self.columns.len()
    }

    pub fn is_empty(&self) -> (b: bool)
        ensures
            b == (self.entities@.len() == 0),
    {
        self.entities.is_empty()
    }

    /// Read one cell: present exactly when the column exists.
    pub fn get_component(&self, component_id: ComponentId, table_row: TableRow) -> (r: Option<
        &V,
    >)
        requires
            self.wf(),
            self.spec_has_column(component_id.0 as int) ==> table_row.0 < self.entities@.len(),
        ensures
            r is Some <==> self.spec_has_column(component_id.0 as int),
            r is Some ==> *r->Some_0 == self.spec_column(component_id.0 as int)[
                table_row.0 as int
            ],
    {
        match self.columns.get(&component_id) {
            Some(column) => Some(column.get(table_row.0)),
            None => None,
        }
    }

    /// Read one cell for writing: present exactly when the column exists.
    pub fn get_component_mut(&mut self, component_id: ComponentId, table_row: TableRow) -> (r:
        Option<&mut V>)
        requires
            old(self).wf(),
            old(self).spec_has_column(component_id.0 as int) ==> table_row.0 < old(self).entities@.len(),
        ensures
            r is Some <==> old(self).spec_has_column(component_id.0 as int),
            r is Some ==> {
                &&& *r->Some_0 == old(self).spec_column(component_id.0 as int)[
                    table_row.0 as int
                ]
                &&& final(self).spec_columns() == old(self).spec_columns().update(
                    component_id.0 as int,
                    Some(
                        old(self).spec_column(component_id.0 as int).update(
                            table_row.0 as int,
                            *final(r->Some_0),
                        ),
                    ),
                )
                &&& final(self).entities@ == old(self).entities@
                &&& final(self).wf()
            },
            r is None ==> *final(self) == *old(self),
    {
        match self.columns.get_mut(&component_id) {
            Some(column) => {
                proof {
                    assert(old(self).spec_columns()[component_id.0 as int] is Some);
                }
                Some(column.get_mut(table_row.0))
            }
            None => None,
        }
    }

    /// Swap-remove one row, handing every cell of it to the caller by
    /// ascending column id: the cells are moved, not dropped.
    ///
    /// If another entity's row was swapped up into the vacated slot, the
    /// second result says whose location record must be rewritten.
    #[verifier::spinoff_prover]
    pub fn take_row(&mut self, row: TableRow, entity: Entity) -> (r: (
        Vec<(ComponentId, V)>,
        Option<ChangedLocation<TableRow>>,
    ))
        requires
            old(self).wf(),
            row.0 < old(self).entities@.len(),
            old(self).entities@[row.0 as int] == entity,
        ensures
            final(self).wf(),
            final(self).entities@ == old(self).entities@.update(
                row.0 as int,
                old(self).entities@.last(),
            ).drop_last(),
            final(self).spec_columns().len() == old(self).spec_columns().len(),
            forall|j: int|
                0 <= j < old(self).spec_columns().len() ==> {
                    &&& ((#[trigger] final(self).spec_columns()[j]) is Some <==> old(self).spec_columns()[j] is Some)
                    &&& final(self).spec_columns()[j] is Some ==> final(self).spec_columns()[
                        j
                    ]->Some_0 == old(self).spec_column(j).update(
                        row.0 as int,
                        old(self).spec_column(j).last(),
                    ).drop_last()
                },
            r.0@ == old(self).spec_row_cells(row.0 as int),
            r.1 is Some <==> row.0 as int + 1 < old(self).entities@.len(),
            r.1 is Some ==> r.1->Some_0 == (ChangedLocation {
                entity: old(self).entities@.last(),
                changed_value: row,
            }),
    {
        let index = row.index();
        let was_tail = index == self.entities.len() - 1;
        let _removed = self.entities.swap_remove(index);
        let mut cells: Vec<(ComponentId, V)> = Vec::new();
        let n = self.columns.values.len();
        let mut i: usize = 0;
        while i < n
            invariant
                old(self).wf(),
                n == self.columns.values@.len(),
                n == old(self).columns.values@.len(),
                i <= n,
                row.0 < old(self).entities@.len(),
                self.entities@ == old(self).entities@.update(
                    row.0 as int,
                    old(self).entities@.last(),
                ).drop_last(),
                self.columns.len == old(self).columns.len,
                count_some(self.columns.values@) == count_some(old(self).columns.values@),
                forall|j: int|
                    i as int <= j < n ==> #[trigger] self.columns.values@[j] == old(self).columns.values@[j],
                forall|j: int|
                    0 <= j < i as int ==> {
                        &&& ((#[trigger] self.columns.values@[j]) is Some <==> old(self).columns.values@[j] is Some)
                        &&& self.columns.values@[j] is Some ==> self.columns.values@[
                            j
                        ]->Some_0.data@ == old(self).spec_column(j).update(
                            row.0 as int,
                            old(self).spec_column(j).last(),
                        ).drop_last()
                    },
                cells@ == row_cells_of(old(self).spec_columns().take(i as int), row.0 as int),
            decreases n - i,
        {
            let ghost pre = self.columns.values@;
            proof {
                assert(old(self).spec_columns()[i as int] == old(self).spec_columns().take(
                    i as int + 1,
                ).last());
                assert(old(self).spec_columns().take(i as int + 1).drop_last() =~= old(self).spec_columns().take(i as int));
            }
            match &mut self.columns.values[i] {
                Some(column) => {
                    proof {
                        assert(pre[i as int]->Some_0.data@.len() == old(self).entities@.len());
                    }
                    let cell = column.swap_remove_and_forget(row.0);
                    cells.push((ComponentId(i), cell));
                }
                None => {}
            }
            proof {
                if pre[i as int] is Some {
                    lemma_count_some_update(pre, i as int, self.columns.values@[i as int]);
                    assert(pre.update(i as int, self.columns.values@[i as int])
                        =~= self.columns.values@);
                } else {
                    assert(self.columns.values@ =~= pre);
                }
            }
            i = i + 1;
        }
        proof {
            assert(old(self).spec_columns().take(n as int) =~= old(self).spec_columns());
        }
        let swapped = if !was_tail {
            Some(ChangedLocation { entity: self.entities[index], changed_value: row })
        } else {
            None
        };
        proof {
            if row.0 as int + 1 < old(self).entities@.len() {
                assert(self.entities@[row.0 as int] == old(self).entities@.last());
            }
        }
        (cells, swapped)
    }

    /// Append one row: the entity, and exactly one cell per column, in any
    /// order.  Hands back the new row's index.
    #[verifier::spinoff_prover]
    pub fn push_row(&mut self, entity: Entity, cells: Vec<(ComponentId, V)>) -> (r: TableRow)
        requires
            old(self).wf(),
            cells_match_columns(cells@, old(self).spec_columns()),
        ensures
            final(self).wf(),
            r.0 as int == old(self).entities@.len(),
            final(self).entities@ == old(self).entities@.push(entity),
            final(self).spec_columns().len() == old(self).spec_columns().len(),
            forall|j: int|
                0 <= j < old(self).spec_columns().len() ==> ((#[trigger] final(self).spec_columns()[j]) is Some <==> old(self).spec_columns()[j] is Some),
            forall|n: int|
                0 <= n < cells@.len() ==> #[trigger] final(self).spec_columns()[
                    cells@[n].0.0 as int
                ]->Some_0 == old(self).spec_column(cells@[n].0.0 as int).push(cells@[n].1),
    {
        let row = TableRow(self.entities.len());
        self.entities.push(entity);
        let mut cells = cells;
        let ghost all = cells@;
        proof {
            assert(all.take(all.len() as int) =~= all);
        }
        while cells.len() > 0
            invariant
                old(self).wf(),
                cells_match_columns(all, old(self).spec_columns()),
                cells@.len() <= all.len(),
                cells@ == all.take(cells@.len() as int),
                self.entities@ == old(self).entities@.push(entity),
                self.columns.values@.len() == old(self).columns.values@.len(),
                self.columns.len == old(self).columns.len,
                self.columns.wf(),
                old(self).columns.wf(),
                forall|j: int|
                    0 <= j < self.columns.values@.len() ==> ((#[trigger] self.columns.values@[
                        j
                    ]) is Some <==> old(self).columns.values@[j] is Some),
                forall|n: int|
                    0 <= n < cells@.len() ==> #[trigger] self.columns.values@[
                        all[n].0.0 as int
                    ] == old(self).columns.values@[all[n].0.0 as int],
                forall|n: int|
                    cells@.len() <= n < all.len() ==> (#[trigger] self.columns.values@[
                        all[n].0.0 as int
                    ])->Some_0.data@ == old(self).spec_column(all[n].0.0 as int).push(all[n].1),
            decreases cells@.len(),
        {
            let ghost k = cells@.len() - 1;
            let pair = cells.pop().unwrap();
            proof {
                assert(pair == all[k]);
                assert(cells@ =~= all.take(k));
            }
            let (cid, value) = pair;
            let ghost pre = self.columns.values@;
            let column = self.columns.get_mut(&cid);
            match column {
                Some(column) => {
                    column.push(value);
                }
                None => {
                    proof {
                        assert(old(self).spec_columns()[cid.0 as int] is Some);
                        assert(pre[cid.0 as int] is Some);
                    }
                }
            }
            proof {
                assert forall|n: int| 0 <= n < cells@.len() implies #[trigger] self.columns
                    .values@[all[n].0.0 as int] == old(self).columns.values@[
                    all[n].0.0 as int
                ] by {
                    assert(all[n].0 != all[k].0);
                    assert(self.columns.values@[all[n].0.0 as int] == pre[all[n].0.0 as int]);
                }
                assert forall|n: int|
                    cells@.len() <= n < all.len() implies (#[trigger] self.columns.values@[
                    all[n].0.0 as int
                ])->Some_0.data@ == old(self).spec_column(all[n].0.0 as int).push(all[n].1) by {
                    if n != k {
                        assert(all[n].0 != all[k].0);
                        assert(self.columns.values@[all[n].0.0 as int] == pre[
                            all[n].0.0 as int
                        ]);
                    }
                }
            }
        }
        proof {
            assert forall|j: int|
                0 <= j < self.columns.values@.len() && self.columns.values@[j] is Some implies (
            #[trigger] self.columns.values@[j])->Some_0.data@.len() == self.entities@.len() by {
                let n = choose|n: int| 0 <= n < all.len() && (#[trigger] all[n]).0.0 as int == j;
                assert(self.columns.values@[all[n].0.0 as int]->Some_0.data@ == old(self).spec_column(j).push(all[n].1));
            }
            assert forall|n: int| 0 <= n < all.len() implies #[trigger] self.columns.values@[
                all[n].0.0 as int
            ]->Some_0.data@ == old(self).spec_column(all[n].0.0 as int).push(all[n].1) by {}
        }
        row
    }

    /// Swap-remove one row and drop every cell of it; an invalid row is a
    /// no-op.
    pub fn remove_row(&mut self, row: TableRow) -> (r: Option<ChangedLocation<TableRow>>)
        requires
            old(self).wf(),
            row != TableRow::spec_invalid() ==> row.0 < old(self).entities@.len(),
        ensures
            final(self).wf(),
            row == TableRow::spec_invalid() ==> (*final(self) == *old(self) && r is None),
            row != TableRow::spec_invalid() ==> {
                &&& final(self).entities@ == old(self).entities@.update(
                    row.0 as int,
                    old(self).entities@.last(),
                ).drop_last()
                &&& final(self).spec_columns().len() == old(self).spec_columns().len()
                &&& forall|j: int|
                    0 <= j < old(self).spec_columns().len() ==> {
                        &&& ((#[trigger] final(self).spec_columns()[j]) is Some <==> old(self).spec_columns()[j] is Some)
                        &&& final(self).spec_columns()[j] is Some ==> final(self).spec_columns()[j]->Some_0 == old(self).spec_column(j).update(
                            row.0 as int,
                            old(self).spec_column(j).last(),
                        ).drop_last()
                    }
                &&& (r is Some <==> row.0 as int + 1 < old(self).entities@.len())
                &&& r is Some ==> r->Some_0 == (ChangedLocation {
                    entity: old(self).entities@.last(),
                    changed_value: row,
                })
            },
    {
        if row.is_invalid() {
            return None;
        }
        let entity = self.entities[row.0];
        let (cells, swapped) = self.take_row(row, entity);
        let _ = cells;
        swapped
    }

    /// Drop every row: entities and cells alike.
    pub fn clear(&mut self)
        requires
            old(self).wf(),
        ensures
            final(self).wf(),
            final(self).entities@.len() == 0,
            final(self).spec_columns().len() == old(self).spec_columns().len(),
            forall|j: int|
                0 <= j < old(self).spec_columns().len() ==> {
                    &&& (#[trigger] final(self).spec_columns()[j]) is Some <==> old(self).spec_columns()[j] is Some
                    &&& final(self).spec_columns()[j] is Some ==> final(self).spec_columns()[
                        j
                    ]->Some_0.len() == 0
                },
    {
        self.entities.clear();
        let n = self.columns.values.len();
        let mut i: usize = 0;
        while i < n
            invariant
                n == self.columns.values@.len(),
                i <= n,
                self.entities@.len() == 0,
                self.columns.len == old(self).columns.len,
                count_some(self.columns.values@) == count_some(old(self).columns.values@),
                forall|j: int|
                    0 <= j < n ==> ((#[trigger] self.columns.values@[j]) is Some <==> old(self).columns.values@[j] is Some),
                forall|j: int|
                    0 <= j < i as int && self.columns.values@[j] is Some
                        ==> (#[trigger] self.columns.values@[j])->Some_0.data@.len() == 0,
            decreases n - i,
        {
            let ghost pre = self.columns.values@;
            match &mut self.columns.values[i] {
                Some(column) => {
                    column.clear();
                }
                None => {}
            }
            proof {
                assert forall|j: int|
                    0 <= j < n implies ((#[trigger] self.columns.values@[j]) is Some <==> old(self).columns.values@[j] is Some) by {
                    if j != i as int {
                        assert(self.columns.values@[j] == pre[j]);
                    }
                }
                if self.columns.values@[i as int] is Some {
                    lemma_count_some_update(pre, i as int, self.columns.values@[i as int]);
                    assert(pre.update(i as int, self.columns.values@[i as int])
                        =~= self.columns.values@);
                } else {
                    assert(self.columns.values@ =~= pre);
                }
            }
            i = i + 1;
        }
    }
}

/// The cells whose column id is occupied in `cols`, in order.
pub open spec fn kept_cells<V>(
    cells: Seq<(ComponentId, V)>,
    cols: Seq<Option<Seq<V>>>,
) -> Seq<(ComponentId, V)>
    decreases cells.len(),
{
    if cells.len() == 0 {
        Seq::empty()
    } else {
        let prefix = kept_cells(cells.drop_last(), cols);
        if 0 <= cells.last().0.0 < cols.len() && cols[cells.last().0.0 as int] is Some {
            prefix.push(cells.last())
        } else {
            prefix
        }
    }
}

/// The cells whose column id is not occupied in `cols`, in order.
pub open spec fn leftover_cells<V>(
    cells: Seq<(ComponentId, V)>,
    cols: Seq<Option<Seq<V>>>,
) -> Seq<(ComponentId, V)>
    decreases cells.len(),
{
    if cells.len() == 0 {
        Seq::empty()
    } else {
        let prefix = leftover_cells(cells.drop_last(), cols);
        if 0 <= cells.last().0.0 < cols.len() && cols[cells.last().0.0 as int] is Some {
            prefix
        } else {
            prefix.push(cells.last())
        }
    }
}

/// The columns of `a` restricted to ids occupied in `b`.
pub open spec fn cols_inter<V>(
    a: Seq<Option<Seq<V>>>,
    b: Seq<Option<Seq<V>>>,
) -> Seq<Option<Seq<V>>> {
    Seq::new(
        a.len(),
        |j: int|
            if 0 <= j < b.len() && b[j] is Some {
                a[j]
            } else {
                None
            },
    )
}

/// The columns of `a` with the ids occupied in `b` removed.
pub open spec fn cols_minus<V>(
    a: Seq<Option<Seq<V>>>,
    b: Seq<Option<Seq<V>>>,
) -> Seq<Option<Seq<V>>> {
    Seq::new(
        a.len(),
        |j: int|
            if 0 <= j < b.len() && b[j] is Some {
                None
            } else {
                a[j]
            },
    )
}

/// Each row cell carries its column's id and value; the ids ascend and cover
/// every occupied column.
pub proof fn lemma_row_cells_bounds<V>(cols: Seq<Option<Seq<V>>>, row: int)
    requires
        cols.len() <= usize::MAX,
    ensures
        forall|n: int|
            0 <= n < row_cells_of(cols, row).len() ==> {
                &&& 0 <= (#[trigger] row_cells_of(cols, row)[n]).0.0 < cols.len()
                &&& cols[row_cells_of(cols, row)[n].0.0 as int] is Some
                &&& row_cells_of(cols, row)[n].1 == cols[
                    row_cells_of(cols, row)[n].0.0 as int
                ]->Some_0[row]
            },
        forall|n1: int, n2: int|
            0 <= n1 < n2 < row_cells_of(cols, row).len() ==> (#[trigger] row_cells_of(cols, row)[
                n1
            ]).0.0 < (#[trigger] row_cells_of(cols, row)[n2]).0.0,
        forall|j: int|
            0 <= j < cols.len() && cols[j] is Some ==> exists|n: int|
                0 <= n < row_cells_of(cols, row).len() && (#[trigger] row_cells_of(cols, row)[
                    n
                ]).0.0 as int == j,
    decreases cols.len(),
{
    if cols.len() > 0 {
        lemma_row_cells_bounds(cols.drop_last(), row);
        assert forall|j: int|
            0 <= j < cols.len() && cols[j] is Some implies exists|n: int|
                0 <= n < row_cells_of(cols, row).len() && (#[trigger] row_cells_of(cols, row)[
                    n
                ]).0.0 as int == j by {
            if j == cols.len() - 1 {
                assert(row_cells_of(cols, row).last().0.0 as int == j);
            } else {
                assert(cols.drop_last()[j] is Some);
                let n = choose|n: int|
                    0 <= n < row_cells_of(cols.drop_last(), row).len() && (#[trigger] row_cells_of(
                        cols.drop_last(),
                        row,
                    )[n]).0.0 as int == j;
                assert(row_cells_of(cols, row)[n].0.0 as int == j);
            }
        }
    }
}

/// Splitting a row's cells by another table's column set is the same as
/// reading the row off the restricted column sets.
pub proof fn lemma_split_row_cells<V>(a: Seq<Option<Seq<V>>>, b: Seq<Option<Seq<V>>>, row: int)
    requires
        a.len() <= usize::MAX,
    ensures
        kept_cells(row_cells_of(a, row), b) == row_cells_of(cols_inter(a, b), row),
        leftover_cells(row_cells_of(a, row), b) == row_cells_of(cols_minus(a, b), row),
    decreases a.len(),
{
    if a.len() == 0 {
        assert(cols_inter(a, b) =~= Seq::<Option<Seq<V>>>::empty());
        assert(cols_minus(a, b) =~= Seq::<Option<Seq<V>>>::empty());
    } else {
        lemma_split_row_cells(a.drop_last(), b, row);
        assert(cols_inter(a, b).drop_last() =~= cols_inter(a.drop_last(), b));
        assert(cols_minus(a, b).drop_last() =~= cols_minus(a.drop_last(), b));
        let rc = row_cells_of(a, row);
        if a.last() is Some {
            assert(rc.drop_last() =~= row_cells_of(a.drop_last(), row));
        } else {
            assert(cols_inter(a, b).last() is None);
            assert(cols_minus(a, b).last() == a.last());
        }
    }
}

/// The row of the shared columns, concatenated with cells for the
/// target-only columns, covers the target's column set exactly once.
proof fn lemma_cells_match<V>(
    kept: Seq<(ComponentId, V)>,
    extra: Seq<(ComponentId, V)>,
    combined: Seq<(ComponentId, V)>,
    from_cols: Seq<Option<Seq<V>>>,
    to_cols: Seq<Option<Seq<V>>>,
)
    requires
        forall|n: int|
            0 <= n < kept.len() ==> {
                &&& 0 <= (#[trigger] kept[n]).0.0 < cols_inter(from_cols, to_cols).len()
                &&& cols_inter(from_cols, to_cols)[kept[n].0.0 as int] is Some
            },
        forall|n1: int, n2: int|
            0 <= n1 < n2 < kept.len() ==> (#[trigger] kept[n1]).0.0 < (#[trigger] kept[n2]).0.0,
        forall|j: int|
            0 <= j < cols_inter(from_cols, to_cols).len() && cols_inter(from_cols, to_cols)[j]
                is Some ==> exists|n: int|
                0 <= n < kept.len() && (#[trigger] kept[n]).0.0 as int == j,
        forall|n1: int, n2: int|
            0 <= n1 < n2 < extra.len() ==> (#[trigger] extra[n1]).0 != (#[trigger] extra[n2]).0,
        forall|n: int|
            0 <= n < extra.len() ==> {
                &&& 0 <= (#[trigger] extra[n]).0.0 < to_cols.len()
                &&& to_cols[extra[n].0.0 as int] is Some
                &&& !(0 <= extra[n].0.0 < from_cols.len() && from_cols[extra[n].0.0 as int]
                    is Some)
            },
        forall|j: int|
            0 <= j < to_cols.len() && to_cols[j] is Some ==> ((0 <= j < from_cols.len()
                && from_cols[j] is Some) || exists|n: int|
                0 <= n < extra.len() && (#[trigger] extra[n]).0.0 as int == j),
        combined.len() == kept.len() + extra.len(),
        forall|m: int| 0 <= m < kept.len() ==> #[trigger] combined[m] == kept[m],
        forall|m: int|
            kept.len() <= m < combined.len() ==> #[trigger] combined[m] == extra[
                extra.len() - 1 - (m - kept.len())
            ],
    ensures
        cells_match_columns(combined, to_cols),
{
    assert forall|n1: int, n2: int|
        0 <= n1 < n2 < combined.len() implies (#[trigger] combined[n1]).0 != (
    #[trigger] combined[n2]).0 by {
        if n1 < kept.len() && n2 < kept.len() {
            assert(kept[n1].0.0 < kept[n2].0.0);
        } else if n1 >= kept.len() && n2 >= kept.len() {
            let e1 = extra.len() - 1 - (n1 - kept.len());
            let e2 = extra.len() - 1 - (n2 - kept.len());
            assert(extra[e2].0 != extra[e1].0);
        } else {
            let e2 = extra.len() - 1 - (n2 - kept.len());
            assert(cols_inter(from_cols, to_cols)[kept[n1].0.0 as int] is Some);
            assert(from_cols[kept[n1].0.0 as int] is Some);
            assert(!(from_cols[extra[e2].0.0 as int] is Some) || !(0 <= extra[e2].0.0
                < from_cols.len()));
            if combined[n1].0 == combined[n2].0 {
                assert(kept[n1].0.0 == extra[e2].0.0);
            }
        }
    }
    assert forall|n: int| 0 <= n < combined.len() implies {
        &&& 0 <= (#[trigger] combined[n]).0.0 < to_cols.len()
        &&& to_cols[combined[n].0.0 as int] is Some
    } by {
        if n < kept.len() {
            assert(cols_inter(from_cols, to_cols)[kept[n].0.0 as int] is Some);
        } else {
            let e = extra.len() - 1 - (n - kept.len());
            assert(to_cols[extra[e].0.0 as int] is Some);
        }
    }
    assert forall|j: int| 0 <= j < to_cols.len() && to_cols[j] is Some implies exists|n: int|
        0 <= n < combined.len() && (#[trigger] combined[n]).0.0 as int == j by {
        if 0 <= j < from_cols.len() && from_cols[j] is Some {
            assert(cols_inter(from_cols, to_cols)[j] is Some);
            let n = choose|n: int| 0 <= n < kept.len() && (#[trigger] kept[n]).0.0 as int == j;
            assert(combined[n].0.0 as int == j);
        } else {
            let n = choose|n: int| 0 <= n < extra.len() && (#[trigger] extra[n]).0.0 as int == j;
            let m = kept.len() + (extra.len() - 1 - n);
            assert(combined[m] == extra[extra.len() - 1 - (m - kept.len())]);
            assert(combined[m].0.0 as int == j);
        }
    }
}

/// Builds a table column by column before any rows exist.
#[derive(Debug)]
pub struct TableBuilder<V> {
    pub columns: SparseMap<ComponentId, Column<V>>,
    pub row_capacity: usize,
}

impl<V> TableBuilder<V> {
    pub open spec fn wf(&self) -> bool {
        &&& self.columns.wf()
        &&& forall|j: int|
            0 <= j < self.columns.values@.len() && self.columns.values@[j] is Some
                ==> (#[trigger] self.columns.values@[j])->Some_0.data@.len() == 0
    }

    pub fn new(row_capacity: usize, column_capacity: usize) -> (r: Self)
        ensures
            r.wf(),
            r.columns.values@.len() == 0,
    {
        TableBuilder { columns: SparseMap::with_capacity(column_capacity), row_capacity }
    }

    /// Add an empty column for the component.
    pub fn add_column(&mut self, component_info: &ComponentInfo)
        requires
            old(self).wf(),
        ensures
            final(self).wf(),
            final(self).columns.spec_contains(component_info.id.0 as int),
            forall|j: int|
                0 <= j < final(self).columns.values@.len() && j != component_info.id.0 as int
                    ==> ((#[trigger] final(self).columns.values@[j]) is Some) == old(self).columns.spec_contains(j),
            (component_info.id.0 as int) < old(self).columns.values@.len()
                ==> final(self).columns.values@.len() == old(self).columns.values@.len(),
            (component_info.id.0 as int) >= old(self).columns.values@.len()
                ==> final(self).columns.values@.len() == component_info.id.0 + 1,
    {
        let column = Column::new(self.row_capacity);
        let _replaced = self.columns.insert(&component_info.id, column);
    }

    pub fn reserve_rows(&mut self, additional: usize)
        requires
            old(self).wf(),
            old(self).row_capacity + additional <= usize::MAX,
        ensures
            final(self).wf(),
            final(self).columns.values@.len() == old(self).columns.values@.len(),
            forall|j: int|
                0 <= j < old(self).columns.values@.len() ==> ((#[trigger] final(self).columns.values@[j]) is Some <==> old(self).columns.values@[j] is Some),
    {
        self.row_capacity = self.row_capacity + additional;
    }

    pub fn reserve_columns(&mut self, additional: usize)
        ensures
            final(self).columns.values@ == old(self).columns.values@,
            final(self).columns.len == old(self).columns.len,
    {
        self.columns.reserve(additional);
    }

    /// Finish: a table with the declared columns and no rows.
    pub fn build(self) -> (r: Table<V>)
        requires
            self.wf(),
        ensures
            r.wf(),
            r.entities@.len() == 0,
            r.spec_columns().len() == self.columns.values@.len(),
            forall|j: int|
                0 <= j < self.columns.values@.len() ==> ((#[trigger] r.spec_columns()[j]) is Some
                    <==> self.columns.values@[j] is Some),
    {
        Table {
            columns: ImmutableSparseMap::from_sparse_map(self.columns),
            entities: Vec::with_capacity(self.row_capacity),
        }
    }
}

/// Compare a table's column-id list with a sorted id list.
fn column_ids_match<V>(table: &Table<V>, component_ids: &Vec<ComponentId>) -> (b: bool)
    ensures
        b == (key_indexes(table.spec_columns()) == component_ids@.map_values(
            |k: ComponentId| k.spec_index(),
        )),
{
    proof {
        lemma_key_indexes_same(table.columns.values@, table.spec_columns());
    }
    let keys = table.columns.keys();
    if keys.items.len() != component_ids.len() {
        proof {
            assert(keys.items@.map_values(|k: ComponentId| k.spec_index()).len()
                == keys.items@.len());
            assert(component_ids@.map_values(|k: ComponentId| k.spec_index()).len()
                == component_ids@.len());
        }
        return false;
    }
    let n = keys.items.len();
    let mut i: usize = 0;
    while i < n
        invariant
            n == keys.items@.len(),
            n == component_ids@.len(),
            i <= n,
            key_indexes(table.spec_columns()) == keys.items@.map_values(
                |k: ComponentId| k.spec_index(),
            ),
            forall|m: int|
                0 <= m < i as int ==> (#[trigger] keys.items@[m]).0 == component_ids@[m].0,
        decreases n - i,
    {
        if keys.items[i].0 != component_ids[i].0 {
            proof {
                assert(keys.items@.map_values(|k: ComponentId| k.spec_index())[i as int]
                    != component_ids@.map_values(|k: ComponentId| k.spec_index())[i as int]);
            }
            return false;
        }
        i = i + 1;
    }
    proof {
        assert(keys.items@.map_values(|k: ComponentId| k.spec_index()) =~= component_ids@
            .map_values(|k: ComponentId| k.spec_index()));
    }
    true
}

/// Occupancy-preserving maps leave the occupied-slot index list unchanged.
pub proof fn lemma_key_indexes_same<A, B>(a: Seq<Option<A>>, b: Seq<Option<B>>)
    requires
        a.len() == b.len(),
        forall|j: int| 0 <= j < a.len() ==> ((#[trigger] a[j]) is Some <==> b[j] is Some),
    ensures
        key_indexes(a) == key_indexes(b),
    decreases a.len(),
{
    if a.len() > 0 {
        lemma_key_indexes_same(a.drop_last(), b.drop_last());
    }
}

/// All tables, indexed by table id.  Id 0 is the empty table; tables are
/// uniquely keyed by their component-id set.
#[derive(Debug)]
pub struct Tables<V> {
    pub tables: Vec<Table<V>>,
}

impl<V> Tables<V> {
    pub open spec fn spec_table(&self, i: int) -> Table<V> {
        self.tables@[i]
    }

    pub open spec fn wf(&self) -> bool {
        &&& self.tables@.len() >= 1
        &&& self.tables@[0].spec_columns().len() == 0
        &&& forall|i: int| 0 <= i < self.tables@.len() ==> (#[trigger] self.tables@[i]).wf()
        &&& forall|i: int, j: int|
            0 <= i < j < self.tables@.len() ==> key_indexes(
                (#[trigger] self.tables@[i]).spec_columns(),
            ) != key_indexes((#[trigger] self.tables@[j]).spec_columns())
    }

    pub fn new() -> (r: Self)
        ensures
            r.wf(),
            r.tables@.len() == 1,
            r.tables@[0].entities@.len() == 0,
    {
        let builder: TableBuilder<V> = TableBuilder::new(0, 0);
        let table = builder.build();
        let mut tables: Vec<Table<V>> = Vec::new();
        tables.push(table);
        Tables { tables }
    }

    pub fn len(&self) -> (n: usize)
        ensures
            n == self.tables@.len(),
    {
        self.tables.len()
    }

    pub fn get(&self, table_id: TableId) -> (r: &Table<V>)
        requires
            table_id.0 < self.tables@.len(),
        ensures
            *r == self.tables@[table_id.0 as int],
    {
        &self.tables[table_id.0]
    }

    pub fn get_mut(&mut self, table_id: TableId) -> (r: &mut Table<V>)
        requires
            table_id.0 < old(self).tables@.len(),
        ensures
            *r == old(self).tables@[table_id.0 as int],
            final(self).tables@ == old(self).tables@.update(table_id.0 as int, *final(r)),
    {
        &mut self.tables[table_id.0]
    }

    /// The table whose column-id set is exactly the given sorted id list, if
    /// one exists.
    pub fn get_table_id_by_component_ids(&self, component_ids: &Vec<ComponentId>) -> (r: Option<
        TableId,
    >)
        ensures
            r is Some ==> {
                &&& r->Some_0.0 < self.tables@.len()
                &&& key_indexes(self.tables@[r->Some_0.0 as int].spec_columns())
                    == component_ids@.map_values(|k: ComponentId| k.spec_index())
            },
            r is None ==> forall|t: int|
                0 <= t < self.tables@.len() ==> key_indexes(
                    (#[trigger] self.tables@[t]).spec_columns(),
                ) != component_ids@.map_values(|k: ComponentId| k.spec_index()),
    {
        let n = self.tables.len();
        let mut t: usize = 0;
        while t < n
            invariant
                n == self.tables@.len(),
                t <= n,
                forall|m: int|
                    0 <= m < t as int ==> key_indexes(
                        (#[trigger] self.tables@[m]).spec_columns(),
                    ) != component_ids@.map_values(|k: ComponentId| k.spec_index()),
            decreases n - t,
        {
            if column_ids_match(&self.tables[t], component_ids) {
                return Some(TableId(t));
            }
            t = t + 1;
        }
        None
    }

    /// Add a table whose column set no existing table has; hands back its id.
    pub fn insert(&mut self, table: Table<V>) -> (r: TableId)
        requires
            old(self).wf(),
            table.wf(),
            forall|t: int|
                0 <= t < old(self).tables@.len() ==> key_indexes(
                    (#[trigger] old(self).tables@[t]).spec_columns(),
                ) != key_indexes(table.spec_columns()),
        ensures
            final(self).wf(),
            r.0 as int == old(self).tables@.len(),
            final(self).tables@ == old(self).tables@.push(table),
    {
        let table_id = TableId(self.tables.len());
        self.tables.push(table);
        table_id
    }

    /// Move one entity's row from one table to another.
    ///
    /// Cells whose column both tables share are transferred; cells of columns
    /// only the source has are handed back by ascending column id (the caller
    /// drops or returns them); columns only the target has are filled from
    /// `extra`.  Hands back the new row, the location rewrite of whichever
    /// entity was swapped up in the source, and the leftover cells.
    #[verifier::spinoff_prover]
    pub fn move_row(
        &mut self,
        from: TableId,
        to: TableId,
        from_row: TableRow,
        entity: Entity,
        extra: Vec<(ComponentId, V)>,
    ) -> (r: (TableRow, Option<ChangedLocation<TableRow>>, Vec<(ComponentId, V)>))
        requires
            old(self).wf(),
            from.0 < old(self).tables@.len(),
            to.0 < old(self).tables@.len(),
            from.0 != to.0,
            from_row.0 < old(self).tables@[from.0 as int].entities@.len(),
            old(self).tables@[from.0 as int].entities@[from_row.0 as int] == entity,
            forall|n1: int, n2: int|
                0 <= n1 < n2 < extra@.len() ==> (#[trigger] extra@[n1]).0 != (
                #[trigger] extra@[n2]).0,
            forall|n: int|
                0 <= n < extra@.len() ==> {
                    &&& old(self).tables@[to.0 as int].spec_has_column(
                        (#[trigger] extra@[n]).0.0 as int,
                    )
                    &&& !old(self).tables@[from.0 as int].spec_has_column(extra@[n].0.0 as int)
                },
            forall|j: int|
                old(self).tables@[to.0 as int].spec_has_column(j) ==> (old(self).tables@[
                    from.0 as int
                ].spec_has_column(j) || exists|n: int|
                    0 <= n < extra@.len() && (#[trigger] extra@[n]).0.0 as int == j),
        ensures
            final(self).wf(),
            final(self).tables@.len() == old(self).tables@.len(),
            forall|t: int|
                0 <= t < old(self).tables@.len() && t != from.0 as int && t != to.0 as int
                    ==> #[trigger] final(self).tables@[t] == old(self).tables@[t],
            // the source loses the row everywhere, by one swap-remove
            final(self).tables@[from.0 as int].entities@ == old(self).tables@[
                from.0 as int
            ].entities@.update(
                from_row.0 as int,
                old(self).tables@[from.0 as int].entities@.last(),
            ).drop_last(),
            final(self).tables@[from.0 as int].spec_columns().len() == old(self).tables@[
                from.0 as int
            ].spec_columns().len(),
            forall|j: int|
                0 <= j < old(self).tables@[from.0 as int].spec_columns().len() ==> {
                    &&& ((#[trigger] final(self).tables@[from.0 as int].spec_columns()[j])
                        is Some <==> old(self).tables@[from.0 as int].spec_columns()[j] is Some)
                    &&& final(self).tables@[from.0 as int].spec_columns()[j] is Some ==> final(self).tables@[from.0 as int].spec_columns()[j]->Some_0 == old(self).tables@[
                        from.0 as int
                    ].spec_column(j).update(
                        from_row.0 as int,
                        old(self).tables@[from.0 as int].spec_column(j).last(),
                    ).drop_last()
                },
            // the target gains the row at the end
            r.0.0 as int == old(self).tables@[to.0 as int].entities@.len(),
            final(self).tables@[to.0 as int].entities@ == old(self).tables@[
                to.0 as int
            ].entities@.push(entity),
            final(self).tables@[to.0 as int].spec_columns().len() == old(self).tables@[
                to.0 as int
            ].spec_columns().len(),
            forall|j: int|
                0 <= j < old(self).tables@[to.0 as int].spec_columns().len() ==> ((
                #[trigger] final(self).tables@[to.0 as int].spec_columns()[j]) is Some <==> old(self).tables@[to.0 as int].spec_columns()[j] is Some),
            // shared columns receive the moved cell
            forall|j: int|
                old(self).tables@[to.0 as int].spec_has_column(j) && old(self).tables@[
                    from.0 as int
                ].spec_has_column(j) ==> #[trigger] final(self).tables@[
                    to.0 as int
                ].spec_columns()[j]->Some_0 == old(self).tables@[to.0 as int].spec_column(
                    j,
                ).push(old(self).tables@[from.0 as int].spec_column(j)[from_row.0 as int]),
            // target-only columns receive the supplied cells
            forall|n: int|
                0 <= n < extra@.len() ==> #[trigger] final(self).tables@[
                    to.0 as int
                ].spec_columns()[extra@[n].0.0 as int]->Some_0 == old(self).tables@[
                    to.0 as int
                ].spec_column(extra@[n].0.0 as int).push(extra@[n].1),
            // source-only cells come back, by ascending column id
            r.2@ == row_cells_of(
                cols_minus(
                    old(self).tables@[from.0 as int].spec_columns(),
                    old(self).tables@[to.0 as int].spec_columns(),
                ),
                from_row.0 as int,
            ),
            // whoever was swapped up needs its table row rewritten
            r.1 is Some <==> from_row.0 as int + 1 < old(self).tables@[
                from.0 as int
            ].entities@.len(),
            r.1 is Some ==> r.1->Some_0 == (ChangedLocation {
                entity: old(self).tables@[from.0 as int].entities@.last(),
                changed_value: from_row,
            }),
    {
        let ghost from_cols = old(self).tables@[from.0 as int].spec_columns();
        let ghost to_cols = old(self).tables@[to.0 as int].spec_columns();
        proof {
            assert(old(self).tables@[from.0 as int].wf());
            assert(old(self).tables@[to.0 as int].wf());
            vstd::std_specs::vec::axiom_spec_len(
                &old(self).tables@[from.0 as int].columns.values,
            );
            lemma_row_cells_bounds(from_cols, from_row.0 as int);
            lemma_split_row_cells(from_cols, to_cols, from_row.0 as int);
        }
        let (mut cells, swapped) = {
            let from_table = &mut self.tables[from.0];
            from_table.take_row(from_row, entity)
        };
        let ghost mid_tables = self.tables@;
        let ghost cells_all = cells@;
        let ghost cn = cells@.len() as int;
        proof {
            assert(mid_tables[to.0 as int] == old(self).tables@[to.0 as int]);
            assert(cells_all == row_cells_of(from_cols, from_row.0 as int));
        }
        // reverse the cells so popping yields them by ascending column id
        let mut rev: Vec<(ComponentId, V)> = Vec::new();
        while cells.len() > 0
            invariant
                cells_all.len() == cn,
                cells@.len() + rev@.len() == cn,
                cells@ == cells_all.take(cells@.len() as int),
                forall|m: int| 0 <= m < rev@.len() ==> #[trigger] rev@[m] == cells_all[cn - 1 - m],
            decreases cells@.len(),
        {
            let ghost k = cells@.len() - 1;
            let pair = cells.pop().unwrap();
            proof {
                assert(pair == cells_all[k]);
                assert(cells@ =~= cells_all.take(k));
            }
            rev.push(pair);
        }
        // split into cells the target keeps and cells only the source had
        let mut kept: Vec<(ComponentId, V)> = Vec::new();
        let mut leftover: Vec<(ComponentId, V)> = Vec::new();
        while rev.len() > 0
            invariant
                self.tables@ == mid_tables,
                to.0 < self.tables@.len(),
                cells_all.len() == cn,
                rev@.len() <= cn,
                to_cols == self.tables@[to.0 as int].spec_columns(),
                forall|m: int| 0 <= m < rev@.len() ==> #[trigger] rev@[m] == cells_all[cn - 1 - m],
                kept@ == kept_cells(cells_all.take(cn - rev@.len() as int), to_cols),
                leftover@ == leftover_cells(cells_all.take(cn - rev@.len() as int), to_cols),
            decreases rev@.len(),
        {
            let ghost p = cn - rev@.len();
            let pair = rev.pop().unwrap();
            proof {
                assert(pair == cells_all[p]);
                assert(cells_all.take(p + 1).drop_last() =~= cells_all.take(p));
                assert(cells_all.take(p + 1).last() == cells_all[p]);
            }
            let keep = self.tables[to.0].has_column(pair.0);
            if keep {
                kept.push(pair);
            } else {
                leftover.push(pair);
            }
        }
        proof {
            assert(cells_all.take(cn) =~= cells_all);
        }
        // the target's row: kept cells plus the supplied target-only cells
        let mut combined = kept;
        let ghost kept0 = combined@;
        let mut extra = extra;
        let ghost extra_all = extra@;
        let ghost en = extra@.len() as int;
        while extra.len() > 0
            invariant
                extra_all.len() == en,
                extra@.len() <= en,
                extra@ == extra_all.take(extra@.len() as int),
                combined@.len() == kept0.len() + (en - extra@.len()),
                forall|m: int| 0 <= m < kept0.len() ==> #[trigger] combined@[m] == kept0[m],
                forall|m: int|
                    kept0.len() <= m < combined@.len() ==> #[trigger] combined@[m] == extra_all[
                        en - 1 - (m - kept0.len())
                    ],
            decreases extra@.len(),
        {
            let ghost k = extra@.len() - 1;
            let pair = extra.pop().unwrap();
            proof {
                assert(pair == extra_all[k]);
                assert(extra@ =~= extra_all.take(k));
            }
            combined.push(pair);
        }
        proof {
            lemma_row_cells_bounds(cols_inter(from_cols, to_cols), from_row.0 as int);
            assert(kept0 == row_cells_of(cols_inter(from_cols, to_cols), from_row.0 as int));
            assert forall|j: int| 0 <= j < to_cols.len() && to_cols[j] is Some implies ((0 <= j
                < from_cols.len() && from_cols[j] is Some) || exists|n: int|
                0 <= n < extra_all.len() && (#[trigger] extra_all[n]).0.0 as int == j) by {
                assert(old(self).tables@[to.0 as int].spec_has_column(j));
            }
            lemma_cells_match(kept0, extra_all, combined@, from_cols, to_cols);
        }
        let new_row = {
            let to_table = &mut self.tables[to.0];
            proof {
                assert(*to_table == old(self).tables@[to.0 as int]);
            }
            to_table.push_row(entity, combined)
        };
        proof {
            assert forall|j: int|
                old(self).tables@[to.0 as int].spec_has_column(j) && old(self).tables@[
                    from.0 as int
                ].spec_has_column(j) implies #[trigger] self.tables@[to.0 as int].spec_columns()[
                j
            ]->Some_0 == old(self).tables@[to.0 as int].spec_column(j).push(
                old(self).tables@[from.0 as int].spec_column(j)[from_row.0 as int],
            ) by {
                assert(cols_inter(from_cols, to_cols)[j] is Some);
                let n = choose|n: int|
                    0 <= n < kept0.len() && (#[trigger] kept0[n]).0.0 as int == j;
                assert(combined@[n] == kept0[n]);
                assert(kept0[n].1 == cols_inter(from_cols, to_cols)[j]->Some_0[
                    from_row.0 as int
                ]);
            }
            assert forall|n: int| 0 <= n < extra_all.len() implies #[trigger] self.tables@[
                to.0 as int
            ].spec_columns()[extra_all[n].0.0 as int]->Some_0 == old(self).tables@[
                to.0 as int
            ].spec_column(extra_all[n].0.0 as int).push(extra_all[n].1) by {
                let m = kept0.len() + (en - 1 - n);
                assert(combined@[m] == extra_all[n]);
            }
            assert forall|i: int, j: int|
                0 <= i < j < self.tables@.len() implies key_indexes(
                (#[trigger] self.tables@[i]).spec_columns(),
            ) != key_indexes((#[trigger] self.tables@[j]).spec_columns()) by {
                lemma_key_indexes_same(
                    self.tables@[i].spec_columns(),
                    old(self).tables@[i].spec_columns(),
                );
                lemma_key_indexes_same(
                    self.tables@[j].spec_columns(),
                    old(self).tables@[j].spec_columns(),
                );
            }
        }
        (new_row, swapped, leftover)
    }

    /// Drop every row of every table; the tables and their columns stay.
    pub fn clear(&mut self)
        requires
            old(self).wf(),
        ensures
            final(self).wf(),
            final(self).tables@.len() == old(self).tables@.len(),
            forall|t: int|
                0 <= t < old(self).tables@.len() ==> {
                    &&& (#[trigger] final(self).tables@[t]).entities@.len() == 0
                    &&& final(self).tables@[t].spec_columns().len() == old(self).tables@[t].spec_columns().len()
                    &&& forall|j: int|
                        0 <= j < old(self).tables@[t].spec_columns().len() ==> ((
                        #[trigger] final(self).tables@[t].spec_columns()[j]) is Some <==> old(self).tables@[t].spec_columns()[j] is Some)
                },
    {
        let n = self.tables.len();
        let mut t: usize = 0;
        while t < n
            invariant
                n == self.tables@.len(),
                n == old(self).tables@.len(),
                t <= n,
                old(self).wf(),
                forall|m: int|
                    t as int <= m < n ==> #[trigger] self.tables@[m] == old(self).tables@[m],
                forall|m: int|
                    0 <= m < t as int ==> {
                        &&& (#[trigger] self.tables@[m]).wf()
                        &&& self.tables@[m].entities@.len() == 0
                        &&& self.tables@[m].spec_columns().len() == old(self).tables@[m].spec_columns().len()
                        &&& forall|j: int|
                            0 <= j < old(self).tables@[m].spec_columns().len() ==> ((
                            #[trigger] self.tables@[m].spec_columns()[j]) is Some <==> old(self).tables@[m].spec_columns()[j] is Some)
                    },
            decreases n - t,
        {
            let ghost pre = self.tables@;
            proof {
                assert(self.tables@[t as int] == old(self).tables@[t as int]);
                assert(old(self).tables@[t as int].wf());
            }
            let table = &mut self.tables[t];
            table.clear();
            t = t + 1;
        }
        proof {
            assert forall|i: int, j: int|
                0 <= i < j < self.tables@.len() implies key_indexes(
                (#[trigger] self.tables@[i]).spec_columns(),
            ) != key_indexes((#[trigger] self.tables@[j]).spec_columns()) by {
                lemma_key_indexes_same(
                    self.tables@[i].spec_columns(),
                    old(self).tables@[i].spec_columns(),
                );
                lemma_key_indexes_same(
                    self.tables@[j].spec_columns(),
                    old(self).tables@[j].spec_columns(),
                );
            }
        }
    }
}

} // verus!
