//! Pruned schemas for selective reads: a projection keeps the identifiers
//! that the source schema gave to the nodes it selects.

use crate::data_type::{as_ints, trees_of, ColumnId, FieldIndex, TableDataType, TypeTree};
use crate::error::SchemaError;
use crate::field::{FieldView, TableField};
use crate::ordered::{entries_by_key, rank};
use crate::schema::{
    clone_fields, node_ids_among, nodes_among, views_of, SchemaView, TableSchema,
};
use std::collections::BTreeMap;
use vstd::prelude::*;

verus! {

impl SchemaView {
    /// Whether `path` ends at a node of the schema: its first position must
    /// be that of an active field, and the rest must be a path in the
    /// field's type.
    pub open spec fn has_path(self, path: Seq<FieldIndex>) -> bool {
        &&& path.len() > 0
        &&& path[0] < self.fields.len()
        &&& self.fields[path[0] as int].ty.has_path(path.skip(1))
    }

    /// The node at which `path` ends, as a field of its own: it has the
    /// node's type, the identifier that the node bears in this schema, and
    /// the names met on the way down, joined by colons, for its name.
    pub open spec fn field_at_path(self, path: Seq<FieldIndex>) -> FieldView
        recommends
            self.has_path(path),
    {
        let top = self.fields[path[0] as int];
        let rest = path.skip(1);
        FieldView {
            name: top.ty.name_along(top.name, rest),
            ty: top.ty.descend(rest),
            column_id: top.column_id + top.ty.leaves_before(rest),
        }
    }

    /// The leaves of a node that a path selects are leaves of the field in
    /// which the path starts.
    pub proof fn lemma_field_at_path_within(self, path: Seq<FieldIndex>)
        requires
            self.has_path(path),
        ensures
            self.fields[path[0] as int].column_id <= self.field_at_path(path).column_id,
            self.field_at_path(path).end() <= self.fields[path[0] as int].end(),
    {
        self.fields[path[0] as int].ty.lemma_path_within(path.skip(1));
    }
}

impl TableSchema {
    /// The node at which `path` ends, as a field of its own, if the path ends
    /// at a node of the schema.
    pub fn field_at_path(&self, path: &Vec<FieldIndex>) -> (res: Option<TableField>)
        requires
            self@.wf(),
        ensures
            res is Some <==> self@.has_path(path@),
            res matches Some(field) ==> field@ == self@.field_at_path(path@),
    {
        let fields = self.fields();
        if path.len() == 0 || path[0] >= fields.len() {
            return None;
        }
        let top = &fields[path[0]];
        assert(self@.fields[path@[0] as int] == top@);
        let ghost rest = path@.skip(1);
        let mut ty: &TableDataType = top.data_type();
        let mut name: String = top.name().clone();
        let mut id: ColumnId = top.column_id();
        let mut k: usize = 1;
        assert(path@.skip(1) =~= rest);
        while k < path.len()
            invariant
                1 <= k <= path.len(),
                rest == path@.skip(1),
                path@[0] < self@.fields.len(),
                self@.fields[path@[0] as int] == top@,
                top@.end() <= ColumnId::MAX,
                id + ty@.leaf_count() <= top@.end(),
                top@.ty.has_path(rest) == ty@.has_path(path@.skip(k as int)),
                top@.ty.descend(rest) == ty@.descend(path@.skip(k as int)),
                top@.column_id + top@.ty.leaves_before(rest) == id + ty@.leaves_before(
                    path@.skip(k as int),
                ),
                top@.ty.name_along(top@.name, rest) == ty@.name_along(name@, path@.skip(k as int)),
            decreases path.len() - k,
        {
            let ghost here = path@.skip(k as int);
            assert(here[0] == path@[k as int]);
            assert(here.skip(1) =~= path@.skip(k + 1));
            match ty.enter_child(path[k], &mut id, &mut name) {
                Some(child) => {
                    ty = child;
                },
                None => {
                    assert(!ty@.has_path(here));
                    return None;
                },
            }
            k = k + 1;
        }
        assert(path@.skip(k as int).len() == 0);
        Some(TableField::new_from_column_id(name.as_str(), ty.clone(), id))
    }

    /// The schema whose fields are the nodes at which the given paths end,
    /// by rising key. In a path the first position is that of an active
    /// field and each further one that of a child: the place of a member in
    /// a tuple, and 0 in a nullable, an array or a mapping. Each field keeps
    /// the identifier that its node bears in this schema, and is called by
    /// the names met on the way down, joined by colons. `next_id` and the
    /// tombstones are those of this schema.
    pub fn inner_project(&self, path_indices: &BTreeMap<FieldIndex, Vec<FieldIndex>>) -> (res: Result<
        TableSchema,
        SchemaError,
    >)
        requires
            self@.wf(),
        ensures
            match res {
                Ok(projected) => {
                    &&& forall|key: FieldIndex| #[trigger]
                        path_indices@.contains_key(key) ==> self@.has_path(path_indices@[key]@)
                    &&& projected@.fields.len() == path_indices@.dom().len()
                    &&& forall|key: FieldIndex| #[trigger]
                        path_indices@.contains_key(key) ==> projected@.fields[rank(
                            path_indices@.dom(),
                            key,
                        )] == self@.field_at_path(path_indices@[key]@)
                    &&& projected@.next_id == self@.next_id
                    &&& projected@.tombstones == self@.tombstones
                    &&& projected@.wf()
                },
                Err(e) => e == SchemaError::InvalidPath && exists|key: FieldIndex| #[trigger]
                    path_indices@.contains_key(key) && !self@.has_path(path_indices@[key]@),
            },
    {
        let entries = entries_by_key(path_indices);
        let ghost keys = path_indices@.dom();
        let mut fields: Vec<TableField> = Vec::new();
        let mut i: usize = 0;
        while i < entries.len()
            invariant
                i <= entries.len(),
                self@.wf(),
                keys == path_indices@.dom(),
                entries@.len() == keys.len(),
                forall|key: FieldIndex| #[trigger]
                    path_indices@.contains_key(key) ==> 0 <= rank(keys, key) < entries@.len()
                        && entries@[rank(keys, key)] == (key, &path_indices@[key]),
                forall|k: int|
                    0 <= k < entries@.len() ==> path_indices@.contains_key(
                        (#[trigger] entries@[k]).0,
                    ) && rank(keys, entries@[k].0) == k,
                fields@.len() == i,
                forall|k: int|
                    0 <= k < i ==> self@.has_path(entries@[k].1@) && (#[trigger] fields@[k])@
                        == self@.field_at_path(entries@[k].1@),
            decreases entries.len() - i,
        {
            let ghost key = entries@[i as int].0;
            assert(path_indices@.contains_key(key));
            assert(entries@[i as int] == (key, &path_indices@[key]));
            match self.field_at_path(entries[i].1) {
                Some(field) => {
                    fields.push(field);
                },
                None => {
                    return Err(SchemaError::InvalidPath);
                },
            }
            i = i + 1;
        }
        let tombstones = clone_fields(self.tombstones());
        let projected = TableSchema::from_parts(fields, self.next_column_id(), tombstones);
        proof {
            assert forall|key: FieldIndex| #[trigger] path_indices@.contains_key(key) implies self@.has_path(
                path_indices@[key]@,
            ) && projected@.fields[rank(keys, key)] == self@.field_at_path(path_indices@[key]@) by {
                let k = rank(keys, key);
                assert(entries@[k] == (key, &path_indices@[key]));
                assert(projected@.fields[k] == fields@[k]@);
            }
            assert forall|k: int| 0 <= k < projected@.fields.len() implies 0 <= (
            #[trigger] projected@.fields[k]).column_id && projected@.fields[k].end()
                <= projected@.next_id by {
                assert(projected@.fields[k] == fields@[k]@);
                let path = entries@[k].1@;
                self@.lemma_field_at_path_within(path);
            }
        }
        Ok(projected)
    }
}

/// Of the node at place `at` among the nodes of the first `n` of `fields`:
/// it has an identifier, and where the leaves of every field are numbered
/// from 0 on and below `bound`, so are the leaves of the node.
pub proof fn lemma_schema_node_at(fields: Seq<FieldView>, n: nat, at: int, bound: int)
    requires
        n <= fields.len(),
        0 <= at < nodes_among(fields, n).len(),
        forall|i: int|
            0 <= i < n ==> 0 <= (#[trigger] fields[i]).column_id && fields[i].end() <= bound,
    ensures
        node_ids_among(fields, n).len() == nodes_among(fields, n).len(),
        0 <= node_ids_among(fields, n)[at],
        node_ids_among(fields, n)[at] + nodes_among(fields, n)[at].leaf_count() <= bound,
    decreases n,
{
    lemma_schema_counts(fields, n);
    lemma_schema_counts(fields, (n - 1) as nat);
    let head = nodes_among(fields, (n - 1) as nat);
    let last = fields[n - 1];
    last.ty.lemma_counts(last.column_id);
    if at < head.len() {
        lemma_schema_node_at(fields, (n - 1) as nat, at, bound);
    } else {
        last.ty.lemma_node_at(last.column_id, at - head.len());
    }
}

/// The first `n` of `fields` have as many node identifiers as nodes.
pub proof fn lemma_schema_counts(fields: Seq<FieldView>, n: nat)
    requires
        n <= fields.len(),
    ensures
        node_ids_among(fields, n).len() == nodes_among(fields, n).len(),
    decreases n,
{
    if n > 0 {
        lemma_schema_counts(fields, (n - 1) as nat);
        fields[n - 1].ty.lemma_counts(fields[n - 1].column_id);
    }
}

impl SchemaView {
    /// Whether `position` is the place of a node in the visiting order of
    /// the schema.
    pub open spec fn has_node(self, position: FieldIndex) -> bool {
        position < self.nodes().len()
    }

    /// Whether the type of `field` can be laid over the node at `position`.
    pub open spec fn fits_node(self, position: FieldIndex, field: FieldView) -> bool
        recommends
            self.has_node(position),
    {
        self.nodes()[position as int].covers(field.ty)
    }

    /// `field` with the identifier that the node at `position` bears in this
    /// schema.
    pub open spec fn field_at_node(self, position: FieldIndex, field: FieldView) -> FieldView
        recommends
            self.has_node(position),
    {
        FieldView { column_id: self.node_ids()[position as int], ..field }
    }
}

impl TableSchema {
    /// The nodes of the active fields' types in visiting order, field after
    /// field.
    pub fn nodes_preorder(&self) -> (nodes: Vec<&TableDataType>)
        ensures
            trees_of(nodes@) == self@.nodes(),
    {
        let fields = self.fields();
        let mut nodes: Vec<&TableDataType> = Vec::new();
        assert(trees_of(nodes@) =~= Seq::<TypeTree>::empty());
        let mut i: usize = 0;
        while i < fields.len()
            invariant
                i <= fields.len(),
                views_of(fields@) == self@.fields,
                trees_of(nodes@) == nodes_among(self@.fields, i as nat),
            decreases fields.len() - i,
        {
            assert(self@.fields[i as int] == fields@[i as int]@);
            fields[i].data_type().append_nodes(&mut nodes);
            i = i + 1;
        }
        nodes
    }

    /// The schema whose fields are the given ones, by rising key, each with
    /// the identifier of the node on which it is laid. The key of a field
    /// is the place of that node in the visiting order of this schema (its
    /// place in `to_column_ids`). The field keeps its own name and type; its
    /// type must be one that the node's type covers, so that every node of
    /// it bears the identifier of the node it lies on. `next_id` and the
    /// tombstones are those of this schema.
    pub fn project_by_fields(&self, fields: &BTreeMap<FieldIndex, TableField>) -> (res: Result<
        TableSchema,
        SchemaError,
    >)
        requires
            self@.wf(),
        ensures
            match res {
                Ok(projected) => {
                    &&& forall|key: FieldIndex| #[trigger]
                        fields@.contains_key(key) ==> self@.has_node(key) && self@.fits_node(
                            key,
                            fields@[key]@,
                        )
                    &&& projected@.fields.len() == fields@.dom().len()
                    &&& forall|key: FieldIndex| #[trigger]
                        fields@.contains_key(key) ==> projected@.fields[rank(fields@.dom(), key)]
                            == self@.field_at_node(key, fields@[key]@)
                    &&& projected@.next_id == self@.next_id
                    &&& projected@.tombstones == self@.tombstones
                    &&& projected@.wf()
                },
                Err(e) => {
                    ||| e == SchemaError::InvalidPath && exists|key: FieldIndex| #[trigger]
                        fields@.contains_key(key) && !self@.has_node(key)
                    ||| e == SchemaError::TypeMismatch && (forall|key: FieldIndex| #[trigger]
                        fields@.contains_key(key) ==> self@.has_node(key)) && exists|
                        key: FieldIndex,
                    | #[trigger]
                        fields@.contains_key(key) && !self@.fits_node(key, fields@[key]@)
                },
            },
    {
        let ids = self.to_column_ids();
        let nodes = self.nodes_preorder();
        proof {
            lemma_schema_counts(self@.fields, self@.fields.len());
            assert(as_ints(ids@).len() == ids@.len());
            assert(trees_of(nodes@).len() == nodes@.len());
        }
        let entries = entries_by_key(fields);
        let ghost keys = fields@.dom();
        let mut kept: Vec<TableField> = Vec::new();
        let mut mismatch: bool = false;
        let ghost mut culprit: FieldIndex = 0;
        let mut i: usize = 0;
        while i < entries.len()
            invariant
                i <= entries.len(),
                self@.wf(),
                keys == fields@.dom(),
                as_ints(ids@) == self@.node_ids(),
                trees_of(nodes@) == self@.nodes(),
                ids@.len() == nodes@.len(),
                entries@.len() == keys.len(),
                forall|key: FieldIndex| #[trigger]
                    fields@.contains_key(key) ==> 0 <= rank(keys, key) < entries@.len()
                        && entries@[rank(keys, key)] == (key, &fields@[key]),
                forall|k: int|
                    0 <= k < entries@.len() ==> fields@.contains_key((#[trigger] entries@[k]).0)
                        && rank(keys, entries@[k].0) == k,
                forall|k: int| 0 <= k < i ==> self@.has_node((#[trigger] entries@[k]).0),
                mismatch ==> fields@.contains_key(culprit) && self@.has_node(culprit)
                    && !self@.fits_node(culprit, fields@[culprit]@),
                !mismatch ==> kept@.len() == i,
                !mismatch ==> forall|k: int|
                    0 <= k < i ==> self@.fits_node(entries@[k].0, entries@[k].1@) && (
                    #[trigger] kept@[k])@ == self@.field_at_node(entries@[k].0, entries@[k].1@),
            decreases entries.len() - i,
        {
            let position = entries[i].0;
            let field = entries[i].1;
            assert(fields@.contains_key(position));
            assert(entries@[i as int] == (position, &fields@[position]));
            if position >= nodes.len() {
                return Err(SchemaError::InvalidPath);
            }
            assert(trees_of(nodes@)[position as int] == nodes@[position as int]@);
            assert(as_ints(ids@)[position as int] == ids@[position as int]);
            if !mismatch {
                if nodes[position].covers(field.data_type()) {
                    kept.push(
                        TableField::new_from_column_id(
                            field.name().as_str(),
                            field.data_type().clone(),
                            ids[position],
                        ),
                    );
                } else {
                    mismatch = true;
                    proof {
                        culprit = position;
                    }
                }
            }
            i = i + 1;
        }
        if mismatch {
            proof {
                assert forall|key: FieldIndex| #[trigger] fields@.contains_key(key) implies self@.has_node(
                    key,
                ) by {
                    let k = rank(keys, key);
                    assert(entries@[k] == (key, &fields@[key]));
                }
            }
            return Err(SchemaError::TypeMismatch);
        }
        let tombstones = clone_fields(self.tombstones());
        let projected = TableSchema::from_parts(kept, self.next_column_id(), tombstones);
        proof {
            assert forall|key: FieldIndex| #[trigger] fields@.contains_key(key) implies self@.has_node(
                key,
            ) && self@.fits_node(key, fields@[key]@) && projected@.fields[rank(keys, key)]
                == self@.field_at_node(key, fields@[key]@) by {
                let k = rank(keys, key);
                assert(entries@[k] == (key, &fields@[key]));
                assert(projected@.fields[k] == kept@[k]@);
            }
            assert forall|k: int| 0 <= k < projected@.fields.len() implies 0 <= (
            #[trigger] projected@.fields[k]).column_id && projected@.fields[k].end()
                <= projected@.next_id by {
                assert(projected@.fields[k] == kept@[k]@);
                let position = entries@[k].0;
                let field = entries@[k].1@;
                assert(self@.has_node(position));
                lemma_schema_node_at(
                    self@.fields,
                    self@.fields.len(),
                    position as int,
                    self@.next_id,
                );
                self@.nodes()[position as int].lemma_covered_is_smaller(field.ty);
            }
        }
        Ok(projected)
    }
}


} // verus!
