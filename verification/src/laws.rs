//! What holds of every schema and of every run of changes to it.

use crate::data_type::{ColumnId, FieldIndex, TypeTree};
use crate::field::FieldView;
use crate::numbering::{leaves_ahead, lemma_leaves_ahead_unchanged};
use crate::schema::{
    apart, lemma_node_ids_among_contains, lemma_search_finds, leaf_ids_among, Mutation,
    SchemaView,
};
use vstd::prelude::*;

verus! {

/// Within a field the identifiers of the leaves follow one another without
/// a gap, so they rise strictly and none occurs twice.
pub proof fn lemma_leaf_ids_rise(field: FieldView)
    ensures
        field.leaf_ids().len() == field.ty.leaf_count(),
        forall|a: int|
            0 <= a < field.leaf_ids().len() ==> #[trigger] field.leaf_ids()[a] == field.column_id
                + a,
        forall|a: int, b: int|
            0 <= a < b < field.leaf_ids().len() ==> field.leaf_ids()[a] < field.leaf_ids()[b],
{
    field.ty.lemma_leaf_ids_in_a_row(field.column_id);
}

/// The identifiers of a field's leaves are among those of its nodes.
pub proof fn lemma_leaves_are_nodes(field: FieldView, id: int)
    requires
        field.leaf_ids().contains(id),
    ensures
        field.node_ids().contains(id),
{
    lemma_leaf_among_nodes(field.ty, field.column_id, id);
}

/// The identifier of a leaf of a type is among the identifiers of its nodes.
pub proof fn lemma_leaf_among_nodes(ty: TypeTree, first: int, id: int)
    requires
        ty.leaf_ids(first).contains(id),
    ensures
        ty.node_ids(first).contains(id),
{
    ty.lemma_leaf_ids_in_a_row(first);
    ty.lemma_counts(first);
    let k = choose|k: int| 0 <= k < ty.leaf_ids(first).len() && ty.leaf_ids(first)[k] == id;
    assert(ty.leaf_ids(first)[k] == first + k);
    ty.lemma_id_counts_leaves(first, 0);
    lemma_nth_leaf_is_a_node(ty, k, ty.node_count() as int);
    let at = choose|at: int|
        0 <= at < ty.node_count() && ty.preorder()[at].is_leaf() && leaves_ahead(ty.preorder(), at)
            == k;
    ty.lemma_id_counts_leaves(first, at);
    assert(ty.node_ids(first)[at] == id);
}

/// Where more than `k` leaves stand among the first `n` nodes of a type, one
/// of them is a leaf before which exactly `k` leaves stand.
proof fn lemma_nth_leaf_is_a_node(ty: TypeTree, k: int, n: int)
    requires
        0 <= n <= ty.preorder().len(),
        0 <= k < leaves_ahead(ty.preorder(), n),
    ensures
        exists|at: int|
            0 <= at < n && (#[trigger] ty.preorder()[at]).is_leaf() && leaves_ahead(
                ty.preorder(),
                at,
            ) == k,
    decreases n,
{
    if n > 0 {
        if ty.preorder()[n - 1].is_leaf() && leaves_ahead(ty.preorder(), n - 1) == k {
            assert(ty.preorder()[n - 1].is_leaf());
        } else {
            lemma_nth_leaf_is_a_node(ty, k, n - 1);
        }
    }
}

/// In a schema that shares out its identifiers, every leaf of an active
/// field has an identifier below that of every leaf of a field behind it:
/// no identifier is the leaf of two active fields.
pub proof fn lemma_leaf_ids_apart(schema: SchemaView, i: int, j: int)
    requires
        schema.shares_out_ids(),
        0 <= i < j < schema.fields.len(),
    ensures
        forall|a: int, b: int|
            0 <= a < schema.fields[i].leaf_ids().len() && 0 <= b < schema.fields[j].leaf_ids().len()
                ==> schema.fields[i].leaf_ids()[a] < schema.fields[j].leaf_ids()[b],
{
    lemma_leaf_ids_rise(schema.fields[i]);
    lemma_leaf_ids_rise(schema.fields[j]);
    assert(schema.fields[i].end() <= schema.fields[j].column_id);
}

/// In a schema that shares out its identifiers, the identifiers of the
/// stored columns rise strictly from one to the next.
pub proof fn lemma_schema_leaf_ids_rise(schema: SchemaView)
    requires
        schema.shares_out_ids(),
    ensures
        forall|a: int, b: int|
            0 <= a < b < schema.leaf_ids().len() ==> schema.leaf_ids()[a] < schema.leaf_ids()[b],
{
    lemma_leaf_ids_among_rise(schema, schema.fields.len());
}

/// The same, of the leaves of the first `n` active fields, which all lie
/// below the end of the last of them.
proof fn lemma_leaf_ids_among_rise(schema: SchemaView, n: nat)
    requires
        schema.shares_out_ids(),
        n <= schema.fields.len(),
    ensures
        forall|a: int, b: int|
            0 <= a < b < leaf_ids_among(schema.fields, n).len() ==> leaf_ids_among(
                schema.fields,
                n,
            )[a] < leaf_ids_among(schema.fields, n)[b],
        n > 0 ==> forall|a: int|
            0 <= a < leaf_ids_among(schema.fields, n).len() ==> #[trigger] leaf_ids_among(
                schema.fields,
                n,
            )[a] < schema.fields[n - 1].end(),
    decreases n,
{
    if n > 0 {
        lemma_leaf_ids_among_rise(schema, (n - 1) as nat);
        let head = leaf_ids_among(schema.fields, (n - 1) as nat);
        let all = leaf_ids_among(schema.fields, n);
        let last = schema.fields[n - 1];
        lemma_leaf_ids_rise(last);
        assert forall|a: int| 0 <= a < head.len() implies #[trigger] head[a] < last.column_id by {
            assert(schema.fields[n - 2].end() <= schema.fields[n - 1].column_id);
        }
        assert forall|a: int| 0 <= a < all.len() implies #[trigger] all[a] < last.end() by {
            if a < head.len() {
                assert(all[a] == head[a]);
            } else {
                assert(all[a] == last.leaf_ids()[a - head.len()]);
            }
        }
        assert forall|a: int, b: int| 0 <= a < b < all.len() implies all[a] < all[b] by {
            if b >= head.len() {
                assert(all[b] == last.leaf_ids()[b - head.len()]);
                if a < head.len() {
                    assert(all[a] == head[a]);
                } else {
                    assert(all[a] == last.leaf_ids()[a - head.len()]);
                }
            } else {
                assert(all[a] == head[a]);
                assert(all[b] == head[b]);
            }
        }
    }
}

/// A node bears the identifier of the first leaf at or below it: where no
/// leaf is visited from the node at place `at` up to the leaf at place
/// `leaf_at`, the node and the leaf bear the same identifier. For a node with
/// a leaf below it that leaf is its leftmost leaf descendant, since the nodes
/// below a node are visited directly after it.
pub proof fn lemma_node_bears_first_leaf(ty: TypeTree, first: int, at: int, leaf_at: int)
    requires
        0 <= at <= leaf_at < ty.node_count(),
        ty.preorder()[leaf_at].is_leaf(),
        forall|q: int| at <= q < leaf_at ==> !(#[trigger] ty.preorder()[q]).is_leaf(),
    ensures
        ty.node_ids(first)[at] == ty.node_ids(first)[leaf_at],
        ty.preorder()[at].leaf_count() > 0 ==> leaf_at < at + ty.preorder()[at].node_count(),
{
    ty.lemma_id_counts_leaves(first, at);
    ty.lemma_id_counts_leaves(first, leaf_at);
    lemma_leaves_ahead_unchanged(ty.preorder(), at, leaf_at);
    let node = ty.preorder()[at];
    if node.leaf_count() > 0 && leaf_at >= at + node.node_count() {
        let id = ty.node_ids(first)[at];
        ty.lemma_node_at(first, at);
        node.lemma_id_counts_leaves(id, 0);
        let inside = node.preorder();
        assert forall|q: int| 0 <= q < inside.len() implies !(#[trigger] inside[q]).is_leaf() by {
            assert(ty.preorder().subrange(at, at + node.node_count())[q] == ty.preorder()[at + q]);
        }
        lemma_leaves_ahead_unchanged(inside, 0, inside.len() as int);
        assert(leaves_ahead(inside, 0) == 0);
    }
}

/// A path projection hands out no identifier of its own: the field that a
/// path selects has the type of the node at which the path ends, and its
/// nodes bear the identifiers that those same nodes bear in the source field.
pub proof fn lemma_path_keeps_ids(schema: SchemaView, path: Seq<FieldIndex>)
    requires
        schema.has_path(path),
    ensures
        ({
            let top = schema.fields[path[0] as int];
            let selected = schema.field_at_path(path);
            let at = top.ty.position_of(path.skip(1)) as int;
            &&& at + selected.ty.node_count() <= top.ty.node_count()
            &&& top.ty.preorder()[at] == selected.ty
            &&& selected.node_ids() == top.node_ids().subrange(at, at + selected.ty.node_count())
            &&& forall|id: int| selected.node_ids().contains(id) ==> schema.node_ids().contains(id)
        }),
{
    let top = schema.fields[path[0] as int];
    let selected = schema.field_at_path(path);
    let at = top.ty.position_of(path.skip(1)) as int;
    top.ty.lemma_path_position(top.column_id, path.skip(1));
    top.ty.lemma_node_at(top.column_id, at);
    assert forall|id: int| selected.node_ids().contains(id) implies schema.node_ids().contains(
        id,
    ) by {
        let k = choose|k: int| 0 <= k < selected.node_ids().len() && selected.node_ids()[k] == id;
        assert(top.node_ids()[at + k] == id);
        lemma_node_ids_among_contains(schema.fields, schema.fields.len(), id);
    }
}

/// A covered type keeps the identifiers of the type that covers it: every
/// path in the pruned type is a path in the covering type, ends there at a
/// node that covers the one it ends at in the pruned type, and has as many
/// leaves before it.
pub proof fn lemma_covered_keeps_ids(ty: TypeTree, pruned: TypeTree, path: Seq<FieldIndex>)
    requires
        ty.covers(pruned),
        pruned.has_path(path),
    ensures
        ty.has_path(path),
        ty.descend(path).covers(pruned.descend(path)),
        ty.leaves_before(path) == pruned.leaves_before(path),
    decreases path.len(),
{
    if path.len() > 0 {
        let i = path[0] as int;
        match (ty, pruned) {
            (TypeTree::Tuple(members), TypeTree::Tuple(kept)) => {
                TypeTree::lemma_same_members_same_leaves(members, kept, i as nat);
                if i < kept.len() - 1 {
                    assert(kept[i].1 == members[i].1);
                    lemma_covers_itself(members[i].1);
                }
            },
            _ => {},
        }
        lemma_covered_keeps_ids(ty.child(i), pruned.child(i), path.skip(1));
    }
}

/// Every type covers itself.
pub proof fn lemma_covers_itself(ty: TypeTree)
    ensures
        ty.covers(ty),
    decreases ty,
{
    match ty {
        TypeTree::Nullable(inner) | TypeTree::Array(inner) | TypeTree::Mapping(inner) => {
            lemma_covers_itself(*inner);
        },
        TypeTree::Tuple(members) => {
            if members.len() > 0 {
                lemma_covers_itself(members[members.len() - 1].1);
            }
        },
        _ => {},
    }
}

/// Dropping a field and then adding fields, of the same name or of any
/// other, never hands out an identifier of the dropped field again. The one
/// identifier that a dropped field can share with a later one is `next_id`
/// itself, which a node bears that is visited after all leaves of the dropped
/// field and has no leaf below it; the law is stated without such fields.
pub proof fn lemma_readding_reuses_no_id(
    schema: SchemaView,
    name: Seq<char>,
    new: Seq<FieldView>,
    k: int,
)
    requires
        schema.wf(),
        schema.index_of(name) is Some,
        !schema.fields[schema.index_of(name)->0].node_ids().contains(schema.next_id),
        !schema.after(Mutation::Drop(name)).clashes_with(new),
        0 <= k < new.len(),
    ensures
        ({
            let dropped = schema.fields[schema.index_of(name)->0];
            let after = schema.after(Mutation::Drop(name)).after(Mutation::Add(new));
            let added = after.fields[schema.fields.len() - 1 + k];
            &&& after.fields.len() == schema.fields.len() - 1 + new.len()
            &&& added.name == new[k].name
            &&& added.ty == new[k].ty
            &&& after.tombstones.contains(dropped)
            &&& forall|id: int| dropped.node_ids().contains(id) ==> !added.node_ids().contains(id)
        }),
{
    let i = schema.index_of(name)->0;
    lemma_search_finds(schema.fields, name, 0);
    let dropped = schema.fields[i];
    let between = schema.without(i);
    let after = between.with_fields(new, new.len());
    lemma_with_fields_appends(between, new, new.len(), k);
    let added = after.fields[schema.fields.len() - 1 + k];
    assert(between.tombstones[between.tombstones.len() - 1] == dropped);
    assert forall|id: int| dropped.node_ids().contains(id) implies !added.node_ids().contains(
        id,
    ) by {
        lemma_node_ids_span(dropped.ty, dropped.column_id, id);
        if added.node_ids().contains(id) {
            lemma_node_ids_span(added.ty, added.column_id, id);
        }
    }
}

/// The identifiers of the nodes of a type lie from `first` on and not
/// behind the end of its leaves.
pub proof fn lemma_node_ids_span(ty: TypeTree, first: int, id: int)
    requires
        ty.node_ids(first).contains(id),
    ensures
        first <= id <= first + ty.leaf_count(),
{
    let at = choose|at: int| 0 <= at < ty.node_ids(first).len() && ty.node_ids(first)[at] == id;
    ty.lemma_counts(first);
    ty.lemma_node_at(first, at);
}

/// Adding fields keeps the fields that were there and puts the new ones
/// behind them in their order, each numbered from `next_id` or behind it.
pub proof fn lemma_with_fields_appends(schema: SchemaView, new: Seq<FieldView>, n: nat, k: int)
    requires
        n <= new.len(),
        0 <= k < n,
    ensures
        schema.with_fields(new, n).fields.len() == schema.fields.len() + n,
        schema.with_fields(new, n).tombstones == schema.tombstones,
        forall|j: int|
            0 <= j < schema.fields.len() ==> #[trigger] schema.with_fields(new, n).fields[j]
                == schema.fields[j],
        schema.with_fields(new, n).fields[schema.fields.len() + k].name == new[k].name,
        schema.with_fields(new, n).fields[schema.fields.len() + k].ty == new[k].ty,
        schema.with_fields(new, n).fields[schema.fields.len() + k].column_id >= schema.next_id,
    decreases n,
{
    schema.lemma_with_fields_grows(new, 0, (n - 1) as nat);
    if n > 1 {
        if k < n - 1 {
            lemma_with_fields_appends(schema, new, (n - 1) as nat, k);
        } else {
            lemma_with_fields_appends(schema, new, (n - 1) as nat, 0);
        }
    }
}

/// A change never lowers `next_id`, forgets no field that was ever part of
/// the schema, and numbers what it adds from the old `next_id` on: an
/// identifier that was handed out is not handed out again. The schema goes
/// on sharing out its identifiers, and the names of its active fields stay
/// different from one another.
pub proof fn lemma_change_keeps_ids(schema: SchemaView, change: Mutation)
    requires
        schema.shares_out_ids(),
        schema.after(change).next_id <= ColumnId::MAX,
    ensures
        schema.next_id <= schema.after(change).next_id,
        schema.after(change).shares_out_ids(),
        forall|field: FieldView| schema.records(field) ==> schema.after(change).records(field),
        forall|field: FieldView|
            schema.after(change).records(field) && !schema.records(field) ==> schema.next_id
                <= field.column_id,
        schema.has_unique_names() ==> schema.after(change).has_unique_names(),
{
    let after = schema.after(change);
    match change {
        Mutation::Add(new) => {
            if !schema.clashes_with(new) {
                schema.lemma_with_fields_names(new);
                schema.lemma_with_fields_grows(new, 0, new.len());
                schema.lemma_with_fields_keeps(new, new.len());
                if new.len() > 0 {
                    lemma_with_fields_appends(schema, new, new.len(), 0);
                }
                assert forall|field: FieldView| schema.records(field) implies after.records(
                    field,
                ) by {
                    if schema.fields.contains(field) {
                        let j = choose|j: int| 0 <= j < schema.fields.len() && schema.fields[j] == field;
                        assert(after.fields[j] == field);
                    }
                }
                assert forall|field: FieldView|
                    after.records(field) && !schema.records(field) implies schema.next_id
                    <= field.column_id by {
                    let j = choose|j: int| 0 <= j < after.fields.len() && after.fields[j] == field;
                    if j < schema.fields.len() {
                        assert(schema.fields[j] == field);
                    } else {
                        lemma_with_fields_appends(schema, new, new.len(), j - schema.fields.len());
                    }
                }
            }
        },
        Mutation::Drop(name) => {
            lemma_search_finds(schema.fields, name, 0);
            if let Some(i) = schema.index_of(name) {
                schema.lemma_without_keeps(i);
                if schema.has_unique_names() {
                    schema.lemma_without_names(i);
                }
                assert forall|field: FieldView| schema.records(field) implies after.records(
                    field,
                ) by {
                    if schema.fields.contains(field) {
                        let j = choose|j: int| 0 <= j < schema.fields.len() && schema.fields[j] == field;
                        if j < i {
                            assert(after.fields[j] == field);
                        } else if j == i {
                            assert(after.tombstones[schema.tombstones.len() as int] == field);
                        } else {
                            assert(after.fields[j - 1] == field);
                        }
                    } else {
                        let j = choose|j: int|
                            0 <= j < schema.tombstones.len() && schema.tombstones[j] == field;
                        assert(after.tombstones[j] == field);
                    }
                }
                assert forall|field: FieldView| after.records(field) implies schema.records(
                    field,
                ) by {
                    if after.fields.contains(field) {
                        let j = choose|j: int| 0 <= j < after.fields.len() && after.fields[j] == field;
                        if j < i {
                            assert(schema.fields[j] == field);
                        } else {
                            assert(schema.fields[j + 1] == field);
                        }
                    } else {
                        let j = choose|j: int|
                            0 <= j < after.tombstones.len() && after.tombstones[j] == field;
                        if j < schema.tombstones.len() {
                            assert(schema.tombstones[j] == field);
                        } else {
                            assert(schema.fields[i] == field);
                        }
                    }
                }
            }
        },
    }
}

/// The same of every run of changes: whatever is added to and dropped from
/// a schema, `next_id` never falls, every field that was ever part of the
/// schema stays on record with its identifiers, and what comes new is
/// numbered from the old `next_id` on.
pub proof fn lemma_changes_keep_ids(schema: SchemaView, changes: Seq<Mutation>)
    requires
        schema.shares_out_ids(),
        schema.after_all(changes).next_id <= ColumnId::MAX,
    ensures
        schema.next_id <= schema.after_all(changes).next_id,
        schema.after_all(changes).shares_out_ids(),
        forall|field: FieldView|
            schema.records(field) ==> schema.after_all(changes).records(field),
        forall|field: FieldView|
            schema.after_all(changes).records(field) && !schema.records(field) ==> schema.next_id
                <= field.column_id,
        schema.has_unique_names() ==> schema.after_all(changes).has_unique_names(),
    decreases changes.len(),
{
    if changes.len() > 0 {
        let before = schema.after_all(changes.drop_last());
        lemma_change_never_lowers(before, changes.last());
        lemma_changes_keep_ids(schema, changes.drop_last());
        lemma_change_keeps_ids(before, changes.last());
    }
}

/// A change never lowers `next_id`.
pub proof fn lemma_change_never_lowers(schema: SchemaView, change: Mutation)
    ensures
        schema.next_id <= schema.after(change).next_id,
{
    if let Mutation::Add(new) = change {
        schema.lemma_with_fields_grows(new, 0, new.len());
    }
}

/// In a schema that shares out its identifiers no identifier is the leaf
/// of two fields, be they active or dropped.
pub proof fn lemma_no_leaf_id_twice(schema: SchemaView, a: FieldView, b: FieldView, id: int)
    requires
        schema.shares_out_ids(),
        schema.records(a),
        schema.records(b),
        a != b,
        a.leaf_ids().contains(id),
    ensures
        !b.leaf_ids().contains(id),
{
    lemma_leaf_ids_rise(a);
    lemma_leaf_ids_rise(b);
    lemma_recorded_apart(schema, a, b);
}

/// In a schema that shares out its identifiers the leaves of two different
/// fields on record lie in ranges that do not overlap.
pub proof fn lemma_recorded_apart(schema: SchemaView, a: FieldView, b: FieldView)
    requires
        schema.shares_out_ids(),
        schema.records(a),
        schema.records(b),
        a != b,
    ensures
        apart(a, b),
{
    if schema.fields.contains(a) {
        let i = choose|i: int| 0 <= i < schema.fields.len() && schema.fields[i] == a;
        if schema.fields.contains(b) {
            let j = choose|j: int| 0 <= j < schema.fields.len() && schema.fields[j] == b;
            if i < j {
                assert(schema.fields[i].end() <= schema.fields[j].column_id);
            } else {
                assert(schema.fields[j].end() <= schema.fields[i].column_id);
            }
        } else {
            let j = choose|j: int| 0 <= j < schema.tombstones.len() && schema.tombstones[j] == b;
            assert(apart(schema.fields[i], schema.tombstones[j]));
        }
    } else {
        let i = choose|i: int| 0 <= i < schema.tombstones.len() && schema.tombstones[i] == a;
        if schema.fields.contains(b) {
            let j = choose|j: int| 0 <= j < schema.fields.len() && schema.fields[j] == b;
            assert(apart(schema.fields[j], schema.tombstones[i]));
        } else {
            let j = choose|j: int| 0 <= j < schema.tombstones.len() && schema.tombstones[j] == b;
            if i < j {
                assert(apart(schema.tombstones[i], schema.tombstones[j]));
            } else {
                assert(apart(schema.tombstones[j], schema.tombstones[i]));
            }
        }
    }
}

/// In a schema that shares out its identifiers, an identifier that was
/// handed out is deleted exactly if a node of a dropped field bears it and
/// no node of an active field does.
pub proof fn lemma_deleted_is_on_record(schema: SchemaView, id: int)
    requires
        schema.shares_out_ids(),
        0 <= id < schema.next_id,
    ensures
        schema.is_deleted(id) <==> !schema.node_ids().contains(id) && exists|i: int|
            0 <= i < schema.tombstones.len() && (#[trigger] schema.tombstones[i]).node_ids().contains(
                id,
            ),
{
    if schema.is_deleted(id) {
        assert(schema.owner_exists(id));
        if exists|i: int|
            0 <= i < schema.fields.len() && (#[trigger] schema.fields[i]).column_id <= id
                < schema.fields[i].end() {
            let i = choose|i: int|
                0 <= i < schema.fields.len() && (#[trigger] schema.fields[i]).column_id <= id
                    < schema.fields[i].end();
            lemma_owner_bears(schema.fields[i], id);
            lemma_node_ids_among_contains(schema.fields, schema.fields.len(), id);
        } else {
            let i = choose|i: int|
                0 <= i < schema.tombstones.len() && (#[trigger] schema.tombstones[i]).column_id
                    <= id < schema.tombstones[i].end();
            lemma_owner_bears(schema.tombstones[i], id);
        }
    }
}

/// An identifier in the range of a field's leaves is that of one of its
/// leaves, and so of one of its nodes.
pub proof fn lemma_owner_bears(field: FieldView, id: int)
    requires
        field.column_id <= id < field.end(),
    ensures
        field.leaf_ids().contains(id),
        field.node_ids().contains(id),
{
    lemma_leaf_ids_rise(field);
    assert(field.leaf_ids()[id - field.column_id] == id);
    lemma_leaves_are_nodes(field, id);
}

} // verus!
