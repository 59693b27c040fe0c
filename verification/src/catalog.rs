//! Column identifiers as used by table catalogs.

use vstd::prelude::*;

verus! {

/// Column id reserved for the implicit row-id column.
pub const ROW_ID_COLUMN_ID: i32 = 0;

/// Unique identifier of a column within one table. Unlike a table id, a
/// column id is not globally unique.
#[derive(Clone, Copy, PartialEq, Eq, Structural, Debug, Hash)]
pub struct ColumnId(i32);

impl ColumnId {
    /// The raw id, for use in specifications.
    pub closed spec fn id(&self) -> i32 {
        self.0
    }

    pub fn new(column_id: i32) -> (r: Self)
        ensures
            r.id() == column_id,
    {
        ColumnId(column_id)
    }

    /// Sometimes the id field is filled in later; this value aids debugging
    /// until then.
    pub fn placeholder() -> (r: Self)
        ensures
            r.id() == i32::MAX - 1,
    {
        ColumnId(i32::MAX - 1)
    }

    pub fn get_id(&self) -> (r: i32)
        ensures
            r == self.id(),
    {
        self.0
    }

    /// Returns the subsequent column id.
    #[must_use]
    pub fn next(self) -> (r: Self)
        requires
            self.id() < i32::MAX,
        ensures
            r.id() == self.id() + 1,
    {
        ColumnId(self.0 + 1)
    }

    /// Shifts the id by `delta` unless this is the row-id column, which keeps
    /// its reserved id.
    pub fn apply_delta_if_not_row_id(&mut self, delta: i32)
        requires
            old(self).id() != ROW_ID_COLUMN_ID ==> i32::MIN <= old(self).id() + delta <= i32::MAX,
        ensures
            old(self).id() == ROW_ID_COLUMN_ID ==> final(self).id() == old(self).id(),
            old(self).id() != ROW_ID_COLUMN_ID ==> final(self).id() == old(self).id() + delta,
    {
        if self.0 != ROW_ID_COLUMN_ID {
            self.0 = self.0 + delta;
        }
    }
}

} // verus!

verus! {

/// A column's description, reduced to what the id helpers read: the
/// catalog's protobuf payloads (type, generated/default expressions) stay
/// with the serialization layer.
pub struct ColumnDesc {
    pub column_id: ColumnId,
    pub name: String,
}

/// A catalog entry: a column description plus its visibility.
pub struct ColumnCatalog {
    pub column_desc: ColumnDesc,
    pub is_hidden: bool,
}

/// The largest column id among the incoming columns, at least the row-id
/// column's reserved id.
pub open spec fn spec_max_incoming_id(columns: Seq<ColumnCatalog>) -> int
    decreases columns.len(),
{
    if columns.len() == 0 {
        ROW_ID_COLUMN_ID as int
    } else {
        let rest = spec_max_incoming_id(columns.drop_last());
        let id = columns.last().column_desc.column_id.id() as int;
        if id > rest {
            id
        } else {
            rest
        }
    }
}

proof fn lemma_max_incoming_push(columns: Seq<ColumnCatalog>, c: ColumnCatalog)
    ensures
        spec_max_incoming_id(columns.push(c)) == (
        if c.column_desc.column_id.id() as int > spec_max_incoming_id(columns) {
            c.column_desc.column_id.id() as int
        } else {
            spec_max_incoming_id(columns)
        }),
        spec_max_incoming_id(columns) >= ROW_ID_COLUMN_ID as int,
    decreases columns.len(),
{
    assert(columns.push(c).drop_last() =~= columns);
    assert(columns.push(c).last() == c);
    if columns.len() > 0 {
        lemma_max_incoming_push(columns.drop_last(), columns.last());
    }
}

proof fn lemma_max_incoming_nonneg(columns: Seq<ColumnCatalog>)
    ensures
        spec_max_incoming_id(columns) >= ROW_ID_COLUMN_ID as int,
    decreases columns.len(),
{
    if columns.len() > 0 {
        lemma_max_incoming_nonneg(columns.drop_last());
    }
}

/// Append `columns` to `preserved_columns`, first shifting every preserved
/// column id (except the reserved row-id column's) past the largest
/// incoming id, so the two ranges cannot collide.
pub fn columns_extend(preserved_columns: &mut Vec<ColumnCatalog>, columns: Vec<ColumnCatalog>)
    requires
        forall|i: int|
            0 <= i < old(preserved_columns)@.len() ==> ((
            #[trigger] old(preserved_columns)@[i]).column_desc.column_id.id() != ROW_ID_COLUMN_ID
                ==> old(preserved_columns)@[i].column_desc.column_id.id()
                + spec_max_incoming_id(columns@) <= i32::MAX),
    ensures
        final(preserved_columns)@.len() == old(preserved_columns)@.len() + columns@.len(),
        forall|i: int|
            0 <= i < old(preserved_columns)@.len() ==> {
                let before = (#[trigger] old(preserved_columns)@[i]);
                let after = final(preserved_columns)@[i];
                &&& after.is_hidden == before.is_hidden
                &&& after.column_desc.name == before.column_desc.name
                &&& after.column_desc.column_id.id() == (
                if before.column_desc.column_id.id() == ROW_ID_COLUMN_ID {
                    before.column_desc.column_id.id() as int
                } else {
                    before.column_desc.column_id.id() + spec_max_incoming_id(columns@)
                })
            },
        forall|i: int|
            0 <= i < columns@.len() ==> final(preserved_columns)@[old(preserved_columns)@.len()
                + i] == (#[trigger] columns@[i]),
    {
        let n_in = columns.len();
        let mut max_incoming_column_id: i32 = ROW_ID_COLUMN_ID;
        let mut i: usize = 0;
        while i < n_in
            invariant
                n_in == columns@.len(),
                0 <= i <= n_in,
                max_incoming_column_id as int == spec_max_incoming_id(
                    columns@.subrange(0, i as int),
                ),
            decreases n_in - i,
        {
            proof {
                lemma_max_incoming_push(columns@.subrange(0, i as int), columns@[i as int]);
                assert(columns@.subrange(0, i + 1) =~= columns@.subrange(0, i as int).push(
                    columns@[i as int],
                ));
            }
            let column_id = columns[i].column_desc.column_id.get_id();
            if column_id > max_incoming_column_id {
                max_incoming_column_id = column_id;
            }
            i = i + 1;
        }
        proof {
            assert(columns@.subrange(0, n_in as int) =~= columns@);
            lemma_max_incoming_nonneg(columns@);
        }
        let n_old = preserved_columns.len();
        let mut j: usize = 0;
        while j < n_old
            invariant
                n_old == old(preserved_columns)@.len(),
                preserved_columns@.len() == n_old,
                0 <= j <= n_old,
                max_incoming_column_id as int == spec_max_incoming_id(columns@),
                max_incoming_column_id >= ROW_ID_COLUMN_ID,
                forall|p: int|
                    0 <= p < old(preserved_columns)@.len() ==> ((
                    #[trigger] old(preserved_columns)@[p]).column_desc.column_id.id()
                        != ROW_ID_COLUMN_ID ==> old(
                        preserved_columns,
                    )@[p].column_desc.column_id.id() + spec_max_incoming_id(columns@)
                        <= i32::MAX),
                forall|p: int|
                    j <= p < n_old ==> (#[trigger] preserved_columns@[p]) == old(
                        preserved_columns,
                    )@[p],
                forall|p: int|
                    0 <= p < j ==> {
                        let before = (#[trigger] old(preserved_columns)@[p]);
                        let after = preserved_columns@[p];
                        &&& after.is_hidden == before.is_hidden
                        &&& after.column_desc.name == before.column_desc.name
                        &&& after.column_desc.column_id.id() == (
                        if before.column_desc.column_id.id() == ROW_ID_COLUMN_ID {
                            before.column_desc.column_id.id() as int
                        } else {
                            before.column_desc.column_id.id() + spec_max_incoming_id(columns@)
                        })
                    },
            decreases n_old - j,
        {
            let ghost pv = preserved_columns@;
            let mut column = preserved_columns.remove(j);
            proof {
                assert(column == old(preserved_columns)@[j as int]);
            }
            column.column_desc.column_id.apply_delta_if_not_row_id(max_incoming_column_id);
            preserved_columns.insert(j, column);
            proof {
                assert(preserved_columns@ =~= pv.update(j as int, preserved_columns@[j as int]));
            }
            j = j + 1;
        }
        let ghost shifted = preserved_columns@;
        let mut columns = columns;
        let ghost cols_v = columns@;
        while columns.len() > 0
            invariant
                shifted.len() == n_old,
                cols_v.len() == n_in,
                preserved_columns@.len() + columns@.len() == n_old + n_in,
                preserved_columns@.len() >= n_old,
                forall|p: int| 0 <= p < n_old ==> (#[trigger] preserved_columns@[p]) == shifted[p],
                forall|p: int|
                    n_old <= p < preserved_columns@.len() ==> (#[trigger] preserved_columns@[p])
                        == cols_v[p - n_old],
                forall|p: int|
                    0 <= p < columns@.len() ==> (#[trigger] columns@[p]) == cols_v[
                        preserved_columns@.len() - n_old + p
                    ],
            decreases columns.len(),
        {
            proof {
                assert(columns@[0] == cols_v[preserved_columns@.len() - n_old]);
            }
            let c = columns.remove(0);
            preserved_columns.push(c);
        }
    }

/// Whether no two catalog entries share a column id.
pub fn is_column_ids_dedup(columns: &Vec<ColumnCatalog>) -> (r: bool)
    ensures
        r == (forall|i: int, j: int|
            0 <= i < j < columns@.len() ==> (#[trigger] columns@[i]).column_desc.column_id.id()
                != (#[trigger] columns@[j]).column_desc.column_id.id()),
{
    let n = columns.len();
    let mut i: usize = 0;
    while i < n
        invariant
            n == columns@.len(),
            0 <= i <= n,
            forall|p: int, q: int|
                0 <= p < q < columns@.len() && q < i ==> (
                #[trigger] columns@[p]).column_desc.column_id.id() != (
                #[trigger] columns@[q]).column_desc.column_id.id(),
        decreases n - i,
    {
        let mut j: usize = 0;
        while j < i
            invariant
                n == columns@.len(),
                0 <= j <= i < n,
                forall|p: int|
                    0 <= p < j ==> (#[trigger] columns@[p]).column_desc.column_id.id() != columns@[
                        i as int
                    ].column_desc.column_id.id(),
            decreases i - j,
        {
            if columns[j].column_desc.column_id.get_id() == columns[i].column_desc.column_id.get_id() {
                return false;
            }
            j = j + 1;
        }
        i = i + 1;
    }
    true
}

} // verus!
