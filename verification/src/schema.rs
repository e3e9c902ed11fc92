//! The schema of a table: its active fields, the counter that hands out
//! column identifiers, and the record of the fields that were dropped.

use crate::data_type::{as_ints, ColumnId, FieldIndex, TableDataType, TypeTree};
use crate::error::SchemaError;
use crate::field::{FieldView, TableField};
use vstd::prelude::*;

verus! {

/// The schema of a table.
///
/// Fields stay in the order in which they were declared or added. A column
/// identifier, once handed out, is never handed out again: a dropped field
/// moves to the tombstones and keeps its identifiers.
#[derive(Debug)]
pub struct TableSchema {
    fields: Vec<TableField>,
    next_column_id: ColumnId,
    tombstones: Vec<TableField>,
}

/// The mathematical model of a [`TableSchema`].
pub struct SchemaView {
    /// The active fields, in order.
    pub fields: Seq<FieldView>,
    /// The identifier that the next new leaf will get.
    pub next_id: int,
    /// The dropped fields, in the order in which they were dropped.
    pub tombstones: Seq<FieldView>,
}

/// A change to a schema: fields to add, or the name of a field to drop.
pub enum Mutation {
    /// Add these fields, each under its name and with its type.
    Add(Seq<FieldView>),
    /// Drop the first active field of this name.
    Drop(Seq<char>),
}

/// The models of the fields of `fields`.
pub open spec fn views_of(fields: Seq<TableField>) -> Seq<FieldView> {
    fields.map_values(|f: TableField| f@)
}

/// Whether the leaves of `a` and of `b` lie in ranges of identifiers that do
/// not overlap.
pub open spec fn apart(a: FieldView, b: FieldView) -> bool {
    a.end() <= b.column_id || b.end() <= a.column_id
}

/// The place of the first field from position `from` on that is called
/// `name`, or the number of fields where there is none.
pub open spec fn search(fields: Seq<FieldView>, name: Seq<char>, from: int) -> int
    decreases fields.len() - from,
{
    if from < 0 || from >= fields.len() {
        fields.len() as int
    } else if fields[from].name == name {
        from
    } else {
        search(fields, name, from + 1)
    }
}

/// The identifiers of all nodes of the first `n` of `fields`, field after field.
pub open spec fn node_ids_among(fields: Seq<FieldView>, n: nat) -> Seq<int>
    decreases n,
{
    if n == 0 || n > fields.len() {
        Seq::empty()
    } else {
        node_ids_among(fields, (n - 1) as nat) + fields[n - 1].node_ids()
    }
}

/// The identifiers of the leaves of the first `n` of `fields`, field after field.
pub open spec fn leaf_ids_among(fields: Seq<FieldView>, n: nat) -> Seq<int>
    decreases n,
{
    if n == 0 || n > fields.len() {
        Seq::empty()
    } else {
        leaf_ids_among(fields, (n - 1) as nat) + fields[n - 1].leaf_ids()
    }
}

/// The nodes of the types of the first `n` of `fields` in visiting order,
/// field after field.
pub open spec fn nodes_among(fields: Seq<FieldView>, n: nat) -> Seq<TypeTree>
    decreases n,
{
    if n == 0 || n > fields.len() {
        Seq::empty()
    } else {
        nodes_among(fields, (n - 1) as nat) + fields[n - 1].ty.preorder()
    }
}

impl SchemaView {
    /// The schema without fields, which has handed out no identifier yet.
    pub open spec fn empty() -> SchemaView {
        SchemaView { fields: Seq::empty(), next_id: 0, tombstones: Seq::empty() }
    }

    /// The place of the first active field called `name`, if there is one.
    pub open spec fn index_of(self, name: Seq<char>) -> Option<int> {
        let i = search(self.fields, name, 0);
        if i < self.fields.len() {
            Some(i)
        } else {
            None
        }
    }

    /// Whether an active field is called `name`.
    pub open spec fn has_field(self, name: Seq<char>) -> bool {
        exists|i: int| 0 <= i < self.fields.len() && #[trigger] self.fields[i].name == name
    }

    /// Whether no two active fields bear the same name. This holds of a
    /// schema that was created from fields of different names, added to and
    /// dropped from; a projection need not have it.
    pub open spec fn has_unique_names(self) -> bool {
        forall|i: int, j: int|
            0 <= i < j < self.fields.len() ==> (#[trigger] self.fields[i]).name != (
            #[trigger] self.fields[j]).name
    }

    /// Whether `new` cannot be added: one of its fields bears the name of an
    /// active field, or two of them bear the same name.
    pub open spec fn clashes_with(self, new: Seq<FieldView>) -> bool {
        ||| exists|i: int| 0 <= i < new.len() && self.has_field(#[trigger] new[i].name)
        ||| exists|i: int, j: int|
            0 <= i < j < new.len() && #[trigger] new[i].name == #[trigger] new[j].name
    }

    /// The schema after a field called `name` of type `ty` was added: its
    /// leaves take the identifiers from `next_id` on, and `next_id` moves
    /// behind them.
    pub open spec fn with_field(self, name: Seq<char>, ty: TypeTree) -> SchemaView {
        SchemaView {
            fields: self.fields.push(FieldView { name, ty, column_id: self.next_id }),
            next_id: self.next_id + ty.leaf_count(),
            tombstones: self.tombstones,
        }
    }

    /// The schema after the first `n` of `new` were added in their order,
    /// each under its name and with its type, numbered afresh.
    pub open spec fn with_fields(self, new: Seq<FieldView>, n: nat) -> SchemaView
        decreases n,
    {
        if n == 0 || n > new.len() {
            self
        } else {
            self.with_fields(new, (n - 1) as nat).with_field(new[n - 1].name, new[n - 1].ty)
        }
    }

    /// The schema after the active field at position `i` was dropped: the
    /// field moves to the tombstones as it is, and nothing else changes.
    pub open spec fn without(self, i: int) -> SchemaView
        recommends
            0 <= i < self.fields.len(),
    {
        SchemaView {
            fields: self.fields.remove(i),
            next_id: self.next_id,
            tombstones: self.tombstones.push(self.fields[i]),
        }
    }

    /// The schema after `change` was asked for: a change that is refused
    /// leaves the schema as it is.
    pub open spec fn after(self, change: Mutation) -> SchemaView {
        match change {
            Mutation::Add(new) => if self.clashes_with(new) {
                self
            } else {
                self.with_fields(new, new.len())
            },
            Mutation::Drop(name) => match self.index_of(name) {
                Some(i) => self.without(i),
                None => self,
            },
        }
    }

    /// The schema after `changes` were asked for, one after the other.
    pub open spec fn after_all(self, changes: Seq<Mutation>) -> SchemaView
        decreases changes.len(),
    {
        if changes.len() == 0 {
            self
        } else {
            self.after_all(changes.drop_last()).after(changes.last())
        }
    }

    /// Whether `field` is an active or a dropped field of the schema.
    pub open spec fn records(self, field: FieldView) -> bool {
        self.fields.contains(field) || self.tombstones.contains(field)
    }

    /// The identifiers of all nodes of the active fields, field after field.
    pub open spec fn node_ids(self) -> Seq<int> {
        node_ids_among(self.fields, self.fields.len())
    }

    /// The identifiers of the leaves of the active fields, field after field.
    pub open spec fn leaf_ids(self) -> Seq<int> {
        leaf_ids_among(self.fields, self.fields.len())
    }

    /// The nodes of the active fields' types in visiting order, field after field.
    pub open spec fn nodes(self) -> Seq<TypeTree> {
        nodes_among(self.fields, self.fields.len())
    }

    /// Whether `id` was handed out and no node of an active field bears it.
    pub open spec fn is_deleted(self, id: int) -> bool {
        0 <= id < self.next_id && !self.node_ids().contains(id)
    }

    /// Whether every field, active or dropped, has its leaves numbered below
    /// `next_id`, which a `ColumnId` can hold.
    pub open spec fn wf(self) -> bool {
        &&& 0 <= self.next_id <= ColumnId::MAX
        &&& forall|i: int|
            0 <= i < self.fields.len() ==> 0 <= (#[trigger] self.fields[i]).column_id
                && self.fields[i].end() <= self.next_id
        &&& forall|i: int|
            0 <= i < self.tombstones.len() ==> 0 <= (#[trigger] self.tombstones[i]).column_id
                && self.tombstones[i].end() <= self.next_id
    }

    /// Whether the identifiers below `next_id` are shared out among the
    /// fields, active and dropped, each being the leaf of exactly one of them,
    /// with the active fields in rising order. This holds of a schema that was
    /// created, added to and dropped from; a projection need not have it.
    pub open spec fn shares_out_ids(self) -> bool {
        &&& self.wf()
        &&& forall|i: int, j: int|
            0 <= i < j < self.fields.len() ==> (#[trigger] self.fields[i]).end() <= (
            #[trigger] self.fields[j]).column_id
        &&& forall|i: int, j: int|
            0 <= i < self.fields.len() && 0 <= j < self.tombstones.len() ==> apart(
                #[trigger] self.fields[i],
                #[trigger] self.tombstones[j],
            )
        &&& forall|i: int, j: int|
            0 <= i < j < self.tombstones.len() ==> apart(
                #[trigger] self.tombstones[i],
                #[trigger] self.tombstones[j],
            )
        &&& forall|id: int| 0 <= id < self.next_id ==> #[trigger] self.owner_exists(id)
    }

    /// Whether `id` is the identifier of a leaf of some field, active or dropped.
    pub open spec fn owner_exists(self, id: int) -> bool {
        ||| exists|i: int|
            0 <= i < self.fields.len() && (#[trigger] self.fields[i]).column_id <= id
                < self.fields[i].end()
        ||| exists|i: int|
            0 <= i < self.tombstones.len() && (#[trigger] self.tombstones[i]).column_id <= id
                < self.tombstones[i].end()
    }
}

impl SchemaView {
    /// Adding fields never lowers `next_id`.
    pub proof fn lemma_with_fields_grows(self, new: Seq<FieldView>, m: nat, n: nat)
        requires
            m <= n <= new.len(),
        ensures
            self.with_fields(new, m).next_id <= self.with_fields(new, n).next_id,
            self.next_id <= self.with_fields(new, n).next_id,
        decreases n,
    {
        if n > 0 {
            if m < n {
                self.lemma_with_fields_grows(new, m, (n - 1) as nat);
            } else {
                self.lemma_with_fields_grows(new, 0, (n - 1) as nat);
            }
        }
    }

    /// Adding a field for whose leaves there is room keeps the schema well formed.
    pub proof fn lemma_with_field_wf(self, name: Seq<char>, ty: TypeTree)
        requires
            self.wf(),
            self.next_id + ty.leaf_count() <= ColumnId::MAX,
        ensures
            self.with_field(name, ty).wf(),
    {
        let after = self.with_field(name, ty);
        assert forall|i: int| 0 <= i < after.fields.len() implies 0 <= (
        #[trigger] after.fields[i]).column_id && after.fields[i].end() <= after.next_id by {
            if i < self.fields.len() {
                assert(after.fields[i] == self.fields[i]);
            }
        }
    }

    /// Adding a field for whose leaves there is room keeps the identifiers
    /// shared out.
    pub proof fn lemma_with_field_shares(self, name: Seq<char>, ty: TypeTree)
        requires
            self.shares_out_ids(),
            self.next_id + ty.leaf_count() <= ColumnId::MAX,
        ensures
            self.with_field(name, ty).shares_out_ids(),
    {
        let after = self.with_field(name, ty);
        let added = FieldView { name, ty, column_id: self.next_id };
        let last = self.fields.len() as int;
        self.lemma_with_field_wf(name, ty);
        assert forall|i: int| 0 <= i < self.fields.len() implies #[trigger] after.fields[i]
            == self.fields[i] by {}
        assert(after.fields[last] == added);
        assert forall|i: int, j: int| 0 <= i < j < after.fields.len() implies (
        #[trigger] after.fields[i]).end() <= (#[trigger] after.fields[j]).column_id by {
            assert(after.fields[i] == self.fields[i]);
            if j < last {
                assert(after.fields[j] == self.fields[j]);
            }
        }
        assert forall|i: int, j: int|
            0 <= i < after.fields.len() && 0 <= j < after.tombstones.len() implies apart(
            #[trigger] after.fields[i],
            #[trigger] after.tombstones[j],
        ) by {
            if i < last {
                assert(after.fields[i] == self.fields[i]);
            }
        }
        assert forall|id: int| 0 <= id < after.next_id implies #[trigger] after.owner_exists(
            id,
        ) by {
            if id < self.next_id {
                assert(self.owner_exists(id));
                if exists|i: int|
                    0 <= i < self.fields.len() && (#[trigger] self.fields[i]).column_id <= id
                        < self.fields[i].end() {
                    let i = choose|i: int|
                        0 <= i < self.fields.len() && (#[trigger] self.fields[i]).column_id <= id
                            < self.fields[i].end();
                    assert(after.fields[i] == self.fields[i]);
                }
            } else {
                assert(after.fields[last].column_id <= id < after.fields[last].end());
            }
        }
    }

    /// Adding fields for whose leaves there is room keeps the schema well
    /// formed, and keeps the identifiers shared out where they were.
    pub proof fn lemma_with_fields_keeps(self, new: Seq<FieldView>, n: nat)
        requires
            self.wf(),
            n <= new.len(),
            self.with_fields(new, n).next_id <= ColumnId::MAX,
        ensures
            self.with_fields(new, n).wf(),
            self.shares_out_ids() ==> self.with_fields(new, n).shares_out_ids(),
        decreases n,
    {
        if n > 0 {
            let before = self.with_fields(new, (n - 1) as nat);
            self.lemma_with_fields_grows(new, (n - 1) as nat, n);
            self.lemma_with_fields_keeps(new, (n - 1) as nat);
            before.lemma_with_field_wf(new[n - 1].name, new[n - 1].ty);
            if self.shares_out_ids() {
                before.lemma_with_field_shares(new[n - 1].name, new[n - 1].ty);
            }
        }
    }

    /// Adding fields keeps the names of the fields that were there and puts
    /// the names of the new ones behind them: the names are different from
    /// one another afterwards exactly if they were before and the new fields
    /// do not clash.
    pub proof fn lemma_with_fields_names(self, new: Seq<FieldView>)
        ensures
            self.with_fields(new, new.len()).fields.len() == self.fields.len() + new.len(),
            forall|j: int|
                0 <= j < self.fields.len() ==> (#[trigger] self.with_fields(
                    new,
                    new.len(),
                ).fields[j]).name == self.fields[j].name,
            forall|k: int|
                0 <= k < new.len() ==> (#[trigger] self.with_fields(new, new.len()).fields[self.fields.len()
                    + k]).name == new[k].name,
            self.with_fields(new, new.len()).has_unique_names() == (self.has_unique_names()
                && !self.clashes_with(new)),
    {
        let after = self.with_fields(new, new.len());
        let old_len = self.fields.len() as int;
        self.lemma_with_fields_names_among(new, new.len());
        if self.has_unique_names() && !self.clashes_with(new) {
            assert forall|a: int, b: int| 0 <= a < b < after.fields.len() implies (
            #[trigger] after.fields[a]).name != (#[trigger] after.fields[b]).name by {
                if b < old_len {
                    assert(self.fields[a].name != self.fields[b].name);
                } else if a < old_len {
                    assert(after.fields[self.fields.len() + (b - old_len)].name == new[b - old_len].name);
                    assert(!self.has_field(new[b - old_len].name));
                    assert(self.fields[a].name == after.fields[a].name);
                } else {
                    assert(after.fields[self.fields.len() + (a - old_len)].name == new[a - old_len].name);
                    assert(after.fields[self.fields.len() + (b - old_len)].name == new[b - old_len].name);
                }
            }
        }
        if after.has_unique_names() {
            assert forall|a: int, b: int| 0 <= a < b < self.fields.len() implies (
            #[trigger] self.fields[a]).name != (#[trigger] self.fields[b]).name by {
                assert(after.fields[a].name != after.fields[b].name);
            }
            if self.clashes_with(new) {
                if exists|i: int| 0 <= i < new.len() && self.has_field(#[trigger] new[i].name) {
                    let i = choose|i: int| 0 <= i < new.len() && self.has_field(#[trigger] new[i].name);
                    let j = choose|j: int|
                        0 <= j < self.fields.len() && #[trigger] self.fields[j].name == new[i].name;
                    assert(after.fields[self.fields.len() + i].name == new[i].name);
                    assert(after.fields[j].name == after.fields[old_len + i].name);
                } else {
                    let (i, j) = choose|i: int, j: int|
                        0 <= i < j < new.len() && #[trigger] new[i].name == #[trigger] new[j].name;
                    assert(after.fields[self.fields.len() + i].name == new[i].name);
                    assert(after.fields[self.fields.len() + j].name == new[j].name);
                    assert(after.fields[old_len + i].name == after.fields[old_len + j].name);
                }
            }
        }
    }

    /// The same of the names, after the first `n` of `new` were added.
    pub proof fn lemma_with_fields_names_among(self, new: Seq<FieldView>, n: nat)
        requires
            n <= new.len(),
        ensures
            self.with_fields(new, n).fields.len() == self.fields.len() + n,
            forall|j: int|
                0 <= j < self.fields.len() ==> (#[trigger] self.with_fields(new, n).fields[j]).name
                    == self.fields[j].name,
            forall|k: int|
                0 <= k < n ==> (#[trigger] self.with_fields(new, n).fields[self.fields.len() + k]).name
                    == new[k].name,
        decreases n,
    {
        if n > 0 {
            self.lemma_with_fields_names_among(new, (n - 1) as nat);
            let before = self.with_fields(new, (n - 1) as nat);
            let after = self.with_fields(new, n);
            assert forall|j: int| 0 <= j < self.fields.len() implies (#[trigger] after.fields[j]).name
                == self.fields[j].name by {
                assert(after.fields[j] == before.fields[j]);
            }
            assert forall|k: int| 0 <= k < n implies (#[trigger] after.fields[self.fields.len()
                + k]).name == new[k].name by {
                if k < n - 1 {
                    assert(after.fields[self.fields.len() + k] == before.fields[self.fields.len() + k]);
                }
            }
        }
    }

    /// Dropping a field leaves the names of the others different from one
    /// another where they were.
    pub proof fn lemma_without_names(self, i: int)
        requires
            0 <= i < self.fields.len(),
            self.has_unique_names(),
        ensures
            self.without(i).has_unique_names(),
    {
        let after = self.without(i);
        assert forall|a: int, b: int| 0 <= a < b < after.fields.len() implies (
        #[trigger] after.fields[a]).name != (#[trigger] after.fields[b]).name by {
            let a0 = if a < i { a } else { a + 1 };
            let b0 = if b < i { b } else { b + 1 };
            assert(self.fields[a0].name != self.fields[b0].name);
        }
    }

    /// Dropping a field keeps the schema well formed, and keeps the
    /// identifiers shared out where they were.
    pub proof fn lemma_without_keeps(self, i: int)
        requires
            self.wf(),
            0 <= i < self.fields.len(),
        ensures
            self.without(i).wf(),
            self.shares_out_ids() ==> self.without(i).shares_out_ids(),
    {
        let after = self.without(i);
        let last = self.tombstones.len() as int;
        assert forall|k: int| 0 <= k < after.fields.len() implies #[trigger] after.fields[k] == (if k
            < i {
            self.fields[k]
        } else {
            self.fields[k + 1]
        }) by {}
        assert forall|k: int| 0 <= k < after.tombstones.len() implies #[trigger] after.tombstones[k]
            == (if k < last {
            self.tombstones[k]
        } else {
            self.fields[i]
        }) by {}
        if self.shares_out_ids() {
            assert forall|a: int, b: int| 0 <= a < b < after.fields.len() implies (
            #[trigger] after.fields[a]).end() <= (#[trigger] after.fields[b]).column_id by {
                let a0 = if a < i { a } else { a + 1 };
                let b0 = if b < i { b } else { b + 1 };
                assert(self.fields[a0].end() <= self.fields[b0].column_id);
            }
            assert forall|a: int, b: int|
                0 <= a < after.fields.len() && 0 <= b < after.tombstones.len() implies apart(
                #[trigger] after.fields[a],
                #[trigger] after.tombstones[b],
            ) by {
                let a0 = if a < i { a } else { a + 1 };
                if b < last {
                    assert(apart(self.fields[a0], self.tombstones[b]));
                } else {
                    if a0 < i {
                        assert(self.fields[a0].end() <= self.fields[i].column_id);
                    } else {
                        assert(self.fields[i].end() <= self.fields[a0].column_id);
                    }
                }
            }
            assert forall|a: int, b: int| 0 <= a < b < after.tombstones.len() implies apart(
                #[trigger] after.tombstones[a],
                #[trigger] after.tombstones[b],
            ) by {
                if b < last {
                    assert(apart(self.tombstones[a], self.tombstones[b]));
                } else {
                    assert(apart(self.fields[i], self.tombstones[a]));
                }
            }
            assert forall|id: int| 0 <= id < after.next_id implies #[trigger] after.owner_exists(
                id,
            ) by {
                assert(self.owner_exists(id));
                if exists|k: int|
                    0 <= k < self.fields.len() && (#[trigger] self.fields[k]).column_id <= id
                        < self.fields[k].end() {
                    let k = choose|k: int|
                        0 <= k < self.fields.len() && (#[trigger] self.fields[k]).column_id <= id
                            < self.fields[k].end();
                    if k < i {
                        assert(after.fields[k] == self.fields[k]);
                    } else if k == i {
                        assert(after.tombstones[last] == self.fields[i]);
                    } else {
                        assert(after.fields[k - 1] == self.fields[k]);
                    }
                } else {
                    let k = choose|k: int|
                        0 <= k < self.tombstones.len() && (#[trigger] self.tombstones[k]).column_id
                            <= id < self.tombstones[k].end();
                    assert(after.tombstones[k] == self.tombstones[k]);
                }
            }
        }
    }
}


/// What `search` finds: the first field of that name from `from` on.
pub proof fn lemma_search_finds(fields: Seq<FieldView>, name: Seq<char>, from: int)
    requires
        0 <= from <= fields.len(),
    ensures
        from <= search(fields, name, from) <= fields.len(),
        search(fields, name, from) < fields.len() ==> fields[search(fields, name, from)].name
            == name,
        forall|k: int| from <= k < search(fields, name, from) ==> (#[trigger] fields[k]).name != name,
    decreases fields.len() - from,
{
    if from < fields.len() && fields[from].name != name {
        lemma_search_finds(fields, name, from + 1);
    }
}

/// An identifier is among those of the first `n` fields exactly if it is
/// among those of one of them.
pub proof fn lemma_node_ids_among_contains(fields: Seq<FieldView>, n: nat, id: int)
    requires
        n <= fields.len(),
    ensures
        node_ids_among(fields, n).contains(id) <==> exists|k: int|
            0 <= k < n && (#[trigger] fields[k]).node_ids().contains(id),
    decreases n,
{
    if n > 0 {
        let head = node_ids_among(fields, (n - 1) as nat);
        let tail = fields[n - 1].node_ids();
        lemma_node_ids_among_contains(fields, (n - 1) as nat, id);
        if (head + tail).contains(id) {
            let at = choose|at: int| 0 <= at < (head + tail).len() && (head + tail)[at] == id;
            if at < head.len() {
                assert(head[at] == id);
            } else {
                assert(tail[at - head.len()] == id);
            }
        }
        if head.contains(id) {
            let at = choose|at: int| 0 <= at < head.len() && head[at] == id;
            assert((head + tail)[at] == id);
        }
        if tail.contains(id) {
            let at = choose|at: int| 0 <= at < tail.len() && tail[at] == id;
            assert((head + tail)[head.len() + at] == id);
        }
    }
}

impl View for TableSchema {
    type V = SchemaView;

    closed spec fn view(&self) -> SchemaView {
        SchemaView {
            fields: views_of(self.fields@),
            next_id: self.next_column_id as int,
            tombstones: views_of(self.tombstones@),
        }
    }
}

/// Copies of the given fields.
pub(crate) fn clone_fields(fields: &Vec<TableField>) -> (copies: Vec<TableField>)
    ensures
        views_of(copies@) == views_of(fields@),
{
    let mut copies: Vec<TableField> = Vec::new();
    let mut i: usize = 0;
    while i < fields.len()
        invariant
            i <= fields.len(),
            copies@.len() == i,
            forall|k: int| 0 <= k < i ==> (#[trigger] copies@[k])@ == fields@[k]@,
        decreases fields.len() - i,
    {
        copies.push(fields[i].clone());
        i = i + 1;
    }
    assert(views_of(copies@) =~= views_of(fields@));
    copies
}

impl Clone for TableSchema {
    /// A copy with the same fields, counter and tombstones.
    fn clone(&self) -> (res: Self)
        ensures
            res@ == self@,
    {
        TableSchema {
            fields: clone_fields(&self.fields),
            next_column_id: self.next_column_id,
            tombstones: clone_fields(&self.tombstones),
        }
    }
}

impl TableSchema {
    /// The schema without fields.
    pub fn empty() -> (schema: TableSchema)
        ensures
            schema@ == SchemaView::empty(),
            schema@.shares_out_ids(),
    {
        let schema = TableSchema { fields: Vec::new(), next_column_id: 0, tombstones: Vec::new() };
        assert(schema@.fields =~= Seq::empty());
        assert(schema@.tombstones =~= Seq::empty());
        schema
    }

    /// A schema made of the given parts.
    pub(crate) fn from_parts(
        fields: Vec<TableField>,
        next_column_id: ColumnId,
        tombstones: Vec<TableField>,
    ) -> (schema: TableSchema)
        ensures
            schema@ == (SchemaView {
                fields: views_of(fields@),
                next_id: next_column_id as int,
                tombstones: views_of(tombstones@),
            }),
    {
        TableSchema { fields, next_column_id, tombstones }
    }

    /// Numbers the given fields afresh from `next_id` on, in their order, and
    /// appends them to the active fields.
    fn append_numbered(&mut self, fields: &[TableField])
        requires
            old(self)@.wf(),
            old(self)@.with_fields(views_of(fields@), fields@.len()).next_id <= ColumnId::MAX,
        ensures
            final(self)@ == old(self)@.with_fields(views_of(fields@), fields@.len()),
    {
        let ghost start = self@;
        let ghost new = views_of(fields@);
        let mut i: usize = 0;
        while i < fields.len()
            invariant
                i <= fields.len(),
                new == views_of(fields@),
                start.wf(),
                start.with_fields(new, fields@.len()).next_id <= ColumnId::MAX,
                self@ == start.with_fields(new, i as nat),
            decreases fields.len() - i,
        {
            proof {
                start.lemma_with_fields_grows(new, (i + 1) as nat, fields@.len());
                assert(new[i as int] == fields@[i as int]@);
            }
            let ghost before = self@;
            let mut next = self.next_column_id;
            let field = fields[i].build_column_id(&mut next);
            self.fields.push(field);
            self.next_column_id = next;
            assert(self@.fields =~= before.fields.push(field@));
            i = i + 1;
        }
    }

    /// The schema whose fields are the given ones in their order, numbered
    /// afresh from 0 on. The identifiers that the given fields bear are ignored.
    pub fn new(fields: Vec<TableField>) -> (schema: TableSchema)
        requires
            SchemaView::empty().with_fields(views_of(fields@), fields@.len()).next_id
                <= ColumnId::MAX,
        ensures
            schema@ == SchemaView::empty().with_fields(views_of(fields@), fields@.len()),
            schema@.shares_out_ids(),
            schema@.has_unique_names() == !SchemaView::empty().clashes_with(views_of(fields@)),
    {
        let mut schema = Self::empty();
        schema.append_numbered(fields.as_slice());
        proof {
            SchemaView::empty().lemma_with_fields_keeps(views_of(fields@), fields@.len());
            SchemaView::empty().lemma_with_fields_names(views_of(fields@));
        }
        schema
    }

    /// The active fields, in order.
    pub fn fields(&self) -> (fields: &Vec<TableField>)
        ensures
            views_of(fields@) == self@.fields,
    {
        &self.fields
    }

    /// The dropped fields, in the order in which they were dropped.
    pub fn tombstones(&self) -> (tombstones: &Vec<TableField>)
        ensures
            views_of(tombstones@) == self@.tombstones,
    {
        &self.tombstones
    }

    /// The identifier that the next new leaf will get.
    pub fn next_column_id(&self) -> (next: ColumnId)
        ensures
            next == self@.next_id,
    {
        self.next_column_id
    }

    /// The place of the first active field called `name`.
    pub fn index_of(&self, name: &str) -> (res: Result<FieldIndex, SchemaError>)
        ensures
            match res {
                Ok(i) => self@.index_of(name@) == Some(i as int),
                Err(e) => e == SchemaError::UnknownColumn && self@.index_of(name@) is None,
            },
    {
        let wanted = name.to_owned();
        let mut i: usize = 0;
        while i < self.fields.len()
            invariant
                i <= self.fields.len(),
                wanted@ == name@,
                search(self@.fields, name@, 0) == search(self@.fields, name@, i as int),
            decreases self.fields.len() - i,
        {
            assert(self@.fields[i as int] == self.fields@[i as int]@);
            if *self.fields[i].name() == wanted {
                return Ok(i);
            }
            i = i + 1;
        }
        Err(SchemaError::UnknownColumn)
    }

    /// The identifier of the first active field called `name`. A dropped
    /// field is not found, nor is it brought back by adding one of its name.
    pub fn column_id_of(&self, name: &str) -> (res: Result<ColumnId, SchemaError>)
        ensures
            match res {
                Ok(id) => self@.index_of(name@) matches Some(i) && id == self@.fields[i].column_id,
                Err(e) => e == SchemaError::UnknownColumn && self@.index_of(name@) is None,
            },
    {
        match self.index_of(name) {
            Ok(i) => {
                assert(self@.fields[i as int] == self.fields@[i as int]@);
                Ok(self.fields[i].column_id())
            },
            Err(e) => Err(e),
        }
    }

    /// Whether `column_id` was handed out and no node of an active field bears it.
    pub fn is_column_deleted(&self, column_id: ColumnId) -> (deleted: bool)
        requires
            self@.wf(),
        ensures
            deleted == self@.is_deleted(column_id as int),
    {
        if column_id >= self.next_column_id {
            return false;
        }
        let mut i: usize = 0;
        while i < self.fields.len()
            invariant
                i <= self.fields.len(),
                self@.wf(),
                !node_ids_among(self@.fields, i as nat).contains(column_id as int),
            decreases self.fields.len() - i,
        {
            assert(self@.fields[i as int] == self.fields@[i as int]@);
            if self.fields[i].contain_column_id(column_id) {
                proof {
                    lemma_node_ids_among_contains(
                        self@.fields,
                        self@.fields.len(),
                        column_id as int,
                    );
                }
                return false;
            }
            proof {
                lemma_node_ids_among_contains(self@.fields, i as nat, column_id as int);
                lemma_node_ids_among_contains(self@.fields, (i + 1) as nat, column_id as int);
            }
            i = i + 1;
        }
        true
    }

    /// Whether there are identifiers left for the leaves of the given
    /// fields: whether `next_id` stays within `ColumnId` when they are added.
    pub fn has_room_for(&self, fields: &[TableField]) -> (room: bool)
        ensures
            room == (self@.with_fields(views_of(fields@), fields@.len()).next_id <= ColumnId::MAX),
    {
        let ghost new = views_of(fields@);
        let mut next = self.next_column_id;
        let mut i: usize = 0;
        while i < fields.len()
            invariant
                i <= fields.len(),
                new == views_of(fields@),
                next == self@.with_fields(new, i as nat).next_id,
            decreases fields.len() - i,
        {
            proof {
                self@.lemma_with_fields_grows(new, (i + 1) as nat, fields@.len());
                assert(new[i as int] == fields@[i as int]@);
            }
            if !fields[i].data_type().try_skip_ids(&mut next) {
                return false;
            }
            i = i + 1;
        }
        true
    }

    /// Whether `fields` cannot be added: one of them bears the name of an
    /// active field, or two of them bear the same name.
    fn clashes_with(&self, fields: &[TableField]) -> (clash: bool)
        ensures
            clash == self@.clashes_with(views_of(fields@)),
    {
        let ghost new = views_of(fields@);
        let mut i: usize = 0;
        while i < fields.len()
            invariant
                i <= fields.len(),
                new == views_of(fields@),
                forall|k: int| 0 <= k < i ==> !self@.has_field(#[trigger] new[k].name),
                forall|k: int, l: int| 0 <= k < l < i ==> #[trigger] new[k].name != #[trigger] new[l].name,
            decreases fields.len() - i,
        {
            assert(new[i as int] == fields@[i as int]@);
            let found = self.index_of(fields[i].name().as_str());
            proof {
                lemma_search_finds(self@.fields, new[i as int].name, 0);
            }
            if found.is_ok() {
                return true;
            }
            let mut j: usize = 0;
            while j < i
                invariant
                    j <= i < fields.len(),
                    new == views_of(fields@),
                    forall|k: int| 0 <= k < j ==> #[trigger] new[k].name != new[i as int].name,
                decreases i - j,
            {
                assert(new[j as int] == fields@[j as int]@);
                assert(new[i as int] == fields@[i as int]@);
                if *fields[j].name() == *fields[i].name() {
                    return true;
                }
                j = j + 1;
            }
            i = i + 1;
        }
        false
    }

    /// Adds the given fields behind the active ones, in their order, each
    /// numbered afresh from `next_id` on; the identifiers that they bear are
    /// ignored. Nothing is added if one of them bears the name of an active
    /// field or of another of them.
    pub fn add_columns(&mut self, fields: &[TableField]) -> (res: Result<(), SchemaError>)
        requires
            old(self)@.wf(),
            !old(self)@.clashes_with(views_of(fields@)) ==> old(self)@.with_fields(
                views_of(fields@),
                fields@.len(),
            ).next_id <= ColumnId::MAX,
        ensures
            match res {
                Ok(()) => !old(self)@.clashes_with(views_of(fields@)) && final(self)@ == old(
                    self,
                )@.with_fields(views_of(fields@), fields@.len()),
                Err(e) => e == SchemaError::DuplicateName && old(self)@.clashes_with(
                    views_of(fields@),
                ) && final(self)@ == old(self)@,
            },
            final(self)@ == old(self)@.after(Mutation::Add(views_of(fields@))),
            final(self)@.wf(),
            final(self)@.next_id >= old(self)@.next_id,
            old(self)@.shares_out_ids() ==> final(self)@.shares_out_ids(),
            old(self)@.has_unique_names() ==> final(self)@.has_unique_names(),
    {
        if self.clashes_with(fields) {
            return Err(SchemaError::DuplicateName);
        }
        proof {
            self@.lemma_with_fields_keeps(views_of(fields@), fields@.len());
            self@.lemma_with_fields_grows(views_of(fields@), 0, fields@.len());
            self@.lemma_with_fields_names(views_of(fields@));
        }
        self.append_numbered(fields);
        Ok(())
    }

    /// Drops the first active field called `name`: the field moves to the
    /// tombstones with its identifiers, which are not handed out again.
    pub fn drop_column(&mut self, name: &str) -> (res: Result<(), SchemaError>)
        requires
            old(self)@.wf(),
        ensures
            match res {
                Ok(()) => old(self)@.index_of(name@) matches Some(i) && final(self)@ == old(
                    self,
                )@.without(i),
                Err(e) => e == SchemaError::UnknownColumn && old(self)@.index_of(name@) is None
                    && final(self)@ == old(self)@,
            },
            final(self)@ == old(self)@.after(Mutation::Drop(name@)),
            final(self)@.wf(),
            final(self)@.next_id == old(self)@.next_id,
            old(self)@.shares_out_ids() ==> final(self)@.shares_out_ids(),
            old(self)@.has_unique_names() ==> final(self)@.has_unique_names(),
    {
        match self.index_of(name) {
            Ok(i) => {
                let ghost before = self@;
                proof {
                    before.lemma_without_keeps(i as int);
                    if before.has_unique_names() {
                        before.lemma_without_names(i as int);
                    }
                }
                let dropped = self.fields.remove(i);
                self.tombstones.push(dropped);
                assert(self@.fields =~= before.fields.remove(i as int));
                assert(self@.tombstones =~= before.tombstones.push(before.fields[i as int]));
                Ok(())
            },
            Err(e) => Err(e),
        }
    }

    /// The identifiers of all nodes of the active fields, field after field.
    /// An identifier stands once for each node that bears it, so the
    /// repetitions show where the types branch.
    pub fn to_column_ids(&self) -> (ids: Vec<ColumnId>)
        requires
            self@.wf(),
        ensures
            as_ints(ids@) == self@.node_ids(),
    {
        let mut ids: Vec<ColumnId> = Vec::new();
        assert(as_ints(ids@) =~= Seq::<int>::empty());
        let mut i: usize = 0;
        while i < self.fields.len()
            invariant
                i <= self.fields.len(),
                self@.wf(),
                as_ints(ids@) == node_ids_among(self@.fields, i as nat),
            decreases self.fields.len() - i,
        {
            assert(self@.fields[i as int] == self.fields@[i as int]@);
            let mut next = self.fields[i].column_id();
            self.fields[i].data_type().append_ids(false, &mut next, &mut ids);
            i = i + 1;
        }
        ids
    }

    /// The identifiers of the leaves of the active fields, field after field:
    /// the columns that are stored.
    pub fn to_leaf_column_ids(&self) -> (ids: Vec<ColumnId>)
        requires
            self@.wf(),
        ensures
            as_ints(ids@) == self@.leaf_ids(),
    {
        let mut ids: Vec<ColumnId> = Vec::new();
        assert(as_ints(ids@) =~= Seq::<int>::empty());
        let mut i: usize = 0;
        while i < self.fields.len()
            invariant
                i <= self.fields.len(),
                self@.wf(),
                as_ints(ids@) == leaf_ids_among(self@.fields, i as nat),
            decreases self.fields.len() - i,
        {
            assert(self@.fields[i as int] == self.fields@[i as int]@);
            let mut next = self.fields[i].column_id();
            self.fields[i].data_type().append_ids(true, &mut next, &mut ids);
            i = i + 1;
        }
        ids
    }

    /// For each active field, the identifiers of all nodes of its type.
    pub fn field_column_ids(&self) -> (ids: Vec<Vec<ColumnId>>)
        requires
            self@.wf(),
        ensures
            ids@.len() == self@.fields.len(),
            forall|i: int|
                0 <= i < ids@.len() ==> as_ints((#[trigger] ids@[i])@) == self@.fields[i].node_ids(),
    {
        let mut ids: Vec<Vec<ColumnId>> = Vec::new();
        let mut i: usize = 0;
        while i < self.fields.len()
            invariant
                i <= self.fields.len(),
                self@.wf(),
                ids@.len() == i,
                forall|k: int|
                    0 <= k < i ==> as_ints((#[trigger] ids@[k])@) == self@.fields[k].node_ids(),
            decreases self.fields.len() - i,
        {
            assert(self@.fields[i as int] == self.fields@[i as int]@);
            ids.push(self.fields[i].column_ids());
            i = i + 1;
        }
        ids
    }

    /// For each active field, the identifiers of the leaves of its type.
    pub fn field_leaf_column_ids(&self) -> (ids: Vec<Vec<ColumnId>>)
        requires
            self@.wf(),
        ensures
            ids@.len() == self@.fields.len(),
            forall|i: int|
                0 <= i < ids@.len() ==> as_ints((#[trigger] ids@[i])@) == self@.fields[i].leaf_ids(),
    {
        let mut ids: Vec<Vec<ColumnId>> = Vec::new();
        let mut i: usize = 0;
        while i < self.fields.len()
            invariant
                i <= self.fields.len(),
                self@.wf(),
                ids@.len() == i,
                forall|k: int|
                    0 <= k < i ==> as_ints((#[trigger] ids@[k])@) == self@.fields[k].leaf_ids(),
            decreases self.fields.len() - i,
        {
            assert(self@.fields[i as int] == self.fields@[i as int]@);
            ids.push(self.fields[i].leaf_column_ids());
            i = i + 1;
        }
        ids
    }
}


} // verus!
