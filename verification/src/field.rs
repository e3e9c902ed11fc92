//! A named column: its type and the identifier its numbering starts from.

use crate::data_type::{as_ints, ColumnId, TableDataType, TypeTree};
use vstd::prelude::*;
use vstd::std_specs::cmp::PartialEqSpecImpl;

verus! {

/// A named column of a table.
///
/// The field's identifier is that of the root of its type; the leaves of the
/// type are numbered from it without gaps, in visiting order.
#[derive(Debug)]
pub struct TableField {
    name: String,
    data_type: TableDataType,
    column_id: ColumnId,
}

/// The mathematical model of a [`TableField`].
pub struct FieldView {
    pub name: Seq<char>,
    pub ty: TypeTree,
    pub column_id: int,
}

impl FieldView {
    /// The identifiers of all nodes of the field's type, in visiting order.
    pub open spec fn node_ids(self) -> Seq<int> {
        self.ty.node_ids(self.column_id)
    }

    /// The identifiers of the leaves of the field's type, in visiting order.
    pub open spec fn leaf_ids(self) -> Seq<int> {
        self.ty.leaf_ids(self.column_id)
    }

    /// The first identifier after those of the field's leaves.
    pub open spec fn end(self) -> int {
        self.column_id + self.ty.leaf_count()
    }

    /// Whether the identifiers of the field can be held in a `ColumnId`.
    pub open spec fn ids_fit(self) -> bool {
        0 <= self.column_id && self.end() <= ColumnId::MAX
    }
}

impl View for TableField {
    type V = FieldView;

    closed spec fn view(&self) -> FieldView {
        FieldView { name: self.name@, ty: self.data_type@, column_id: self.column_id as int }
    }
}

impl TableField {
    /// A field with the identifier 0.
    pub fn new(name: &str, data_type: TableDataType) -> (field: TableField)
        ensures
            field@ == (FieldView { name: name@, ty: data_type@, column_id: 0 }),
    {
        TableField { name: name.to_owned(), data_type, column_id: 0 }
    }

    /// A field with the given identifier.
    pub fn new_from_column_id(name: &str, data_type: TableDataType, column_id: ColumnId) -> (field:
        TableField)
        ensures
            field@ == (FieldView { name: name@, ty: data_type@, column_id: column_id as int }),
    {
        TableField { name: name.to_owned(), data_type, column_id }
    }

    /// The field's name.
    pub fn name(&self) -> (name: &String)
        ensures
            name@ == self@.name,
    {
        &self.name
    }

    /// The field's type.
    pub fn data_type(&self) -> (data_type: &TableDataType)
        ensures
            data_type@ == self@.ty,
    {
        &self.data_type
    }

    /// The field's identifier.
    pub fn column_id(&self) -> (column_id: ColumnId)
        ensures
            column_id == self@.column_id,
    {
        self.column_id
    }

    /// Whether the identifiers of the field can be held in a `ColumnId`.
    pub fn ids_fit(&self) -> (fit: bool)
        ensures
            fit == self@.ids_fit(),
    {
        self.data_type.ids_end(self.column_id).is_some()
    }

    /// This field with its numbering moved to start at `*next`, which is left
    /// behind the last identifier that the field's leaves take.
    pub fn build_column_id(&self, next: &mut ColumnId) -> (field: TableField)
        requires
            *old(next) + self@.ty.leaf_count() <= ColumnId::MAX,
        ensures
            field@ == (FieldView { column_id: *old(next) as int, ..self@ }),
            *final(next) == field@.end(),
    {
        let column_id = *next;
        self.data_type.skip_ids(next);
        TableField { name: self.name.clone(), data_type: self.data_type.clone(), column_id }
    }

    /// The identifiers of all nodes of the field's type, in visiting order.
    pub fn column_ids(&self) -> (ids: Vec<ColumnId>)
        requires
            self@.ids_fit(),
        ensures
            as_ints(ids@) == self@.node_ids(),
    {
        let mut ids: Vec<ColumnId> = Vec::new();
        let mut next = self.column_id;
        self.data_type.append_ids(false, &mut next, &mut ids);
        assert(as_ints(ids@) =~= self@.node_ids());
        ids
    }

    /// The identifiers of the leaves of the field's type, in visiting order.
    pub fn leaf_column_ids(&self) -> (ids: Vec<ColumnId>)
        requires
            self@.ids_fit(),
        ensures
            as_ints(ids@) == self@.leaf_ids(),
    {
        let mut ids: Vec<ColumnId> = Vec::new();
        let mut next = self.column_id;
        self.data_type.append_ids(true, &mut next, &mut ids);
        assert(as_ints(ids@) =~= self@.leaf_ids());
        ids
    }

    /// Whether `column_id` is the identifier of a node of the field's type.
    pub fn contain_column_id(&self, column_id: ColumnId) -> (found: bool)
        requires
            self@.ids_fit(),
        ensures
            found == self@.node_ids().contains(column_id as int),
    {
        let ids = self.column_ids();
        let mut i: usize = 0;
        while i < ids.len()
            invariant
                i <= ids.len(),
                as_ints(ids@) == self@.node_ids(),
                forall|k: int| 0 <= k < i ==> self@.node_ids()[k] != column_id,
            decreases ids.len() - i,
        {
            assert(as_ints(ids@)[i as int] == ids@[i as int]);
            if ids[i] == column_id {
                return true;
            }
            i = i + 1;
        }
        assert(as_ints(ids@).len() == ids@.len());
        false
    }
}

impl Clone for TableField {
    /// A copy with the same name, type and identifier.
    fn clone(&self) -> (res: Self)
        ensures
            res@ == self@,
    {
        TableField {
            name: self.name.clone(),
            data_type: self.data_type.clone(),
            column_id: self.column_id,
        }
    }
}

impl PartialEq for TableField {
    /// Whether both fields have the same name, type and identifier.
    fn eq(&self, other: &Self) -> (res: bool) {
        self.name == other.name && self.data_type == other.data_type && self.column_id
            == other.column_id
    }
}

impl PartialEqSpecImpl for TableField {
    open spec fn obeys_eq_spec() -> bool {
        true
    }

    open spec fn eq_spec(&self, other: &Self) -> bool {
        self@ == other@
    }
}

impl Eq for TableField {

}

} // verus!
