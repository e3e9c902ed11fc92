//! The flat list of fields that a schema falls into when tuples are split
//! into their members and arrays are replaced by their elements.

use crate::data_type::{as_ints, ColumnId, TableDataType, TypeTree};
use crate::field::{FieldView, TableField};
use crate::schema::{views_of, SchemaView, TableSchema};
use vstd::prelude::*;
use vstd::string::StringExecFns;

verus! {

impl TypeTree {
    /// The flat fields of a field of this type that is called `name` and
    /// numbered from `first`. A tuple falls into the flat fields of its
    /// members, each under the member's own name; an array into those of its
    /// element, under the array's name followed by `:0`; a field of any other
    /// type stands as it is.
    pub open spec fn flat_fields(self, name: Seq<char>, first: int) -> Seq<FieldView>
        decreases self, 0nat,
    {
        match self {
            TypeTree::Tuple(members) => Self::flat_fields_among(members, members.len(), first),
            TypeTree::Array(inner) => inner.flat_fields(name + seq![':', '0'], first),
            _ => seq![FieldView { name, ty: self, column_id: first }],
        }
    }

    /// The flat fields of the first `n` of `members`, one member after the other.
    pub open spec fn flat_fields_among(
        members: Seq<(Seq<char>, TypeTree)>,
        n: nat,
        first: int,
    ) -> Seq<FieldView>
        decreases members, n,
    {
        if n == 0 || n > members.len() {
            Seq::empty()
        } else {
            Self::flat_fields_among(members, (n - 1) as nat, first) + members[n - 1].1.flat_fields(
                members[n - 1].0,
                first + Self::leaves_among(members, (n - 1) as nat),
            )
        }
    }
}

/// The flat fields of the first `n` of `fields`, field after field.
pub open spec fn flat_fields_among(fields: Seq<FieldView>, n: nat) -> Seq<FieldView>
    decreases n,
{
    if n == 0 || n > fields.len() {
        Seq::empty()
    } else {
        flat_fields_among(fields, (n - 1) as nat) + fields[n - 1].ty.flat_fields(
            fields[n - 1].name,
            fields[n - 1].column_id,
        )
    }
}

/// The identifiers of `fields`.
pub open spec fn column_ids_of(fields: Seq<FieldView>) -> Seq<int> {
    fields.map_values(|f: FieldView| f.column_id)
}

impl SchemaView {
    /// The flat fields of the active fields, field after field.
    pub open spec fn flat_fields(self) -> Seq<FieldView> {
        flat_fields_among(self.fields, self.fields.len())
    }
}

impl TableDataType {
    /// Appends to `out` the flat fields of a field of this type that is called
    /// `name` and numbered from `*next`, and moves `*next` past its leaves.
    fn append_flat_fields(&self, name: &str, next: &mut ColumnId, out: &mut Vec<TableField>)
        requires
            *old(next) + self@.leaf_count() <= ColumnId::MAX,
        ensures
            *final(next) == *old(next) + self@.leaf_count(),
            views_of(final(out)@) == views_of(old(out)@) + self@.flat_fields(
                name@,
                *old(next) as int,
            ),
        decreases self,
    {
        let ghost first = *next as int;
        let ghost before = views_of(out@);
        match self {
            TableDataType::Tuple { fields_name, fields_type } => {
                let ghost members = self@->Tuple_0;
                let count = if fields_name.len() < fields_type.len() {
                    fields_name.len()
                } else {
                    fields_type.len()
                };
                assert(views_of(out@) =~= before + TypeTree::flat_fields_among(members, 0, first));
                let mut i: usize = 0;
                while i < count
                    invariant
                        self matches TableDataType::Tuple { fields_type: own_types, .. }
                            && own_types == fields_type,
                        i <= count,
                        count == members.len(),
                        count <= fields_type.len(),
                        count <= fields_name.len(),
                        self@ == TypeTree::Tuple(members),
                        forall|k: int|
                            0 <= k < count ==> #[trigger] members[k] == (
                                fields_name@[k]@,
                                fields_type@[k]@,
                            ),
                        first + self@.leaf_count() <= ColumnId::MAX,
                        *next == first + TypeTree::leaves_among(members, i as nat),
                        views_of(out@) == before + TypeTree::flat_fields_among(
                            members,
                            i as nat,
                            first,
                        ),
                    decreases count - i,
                {
                    proof {
                        TypeTree::lemma_leaves_among_grows(members, (i + 1) as nat, count as nat);
                    }
                    let ghost so_far = views_of(out@);
                    fields_type[i].append_flat_fields(fields_name[i].as_str(), next, out);
                    assert(views_of(out@) =~= before + TypeTree::flat_fields_among(
                        members,
                        (i + 1) as nat,
                        first,
                    ));
                    i = i + 1;
                }
            },
            TableDataType::Array(inner) => {
                let mut inner_name = name.to_owned();
                inner_name.append(":0");
                proof {
                    reveal_strlit(":0");
                    assert(inner_name@ =~= name@ + seq![':', '0']);
                }
                inner.append_flat_fields(inner_name.as_str(), next, out);
            },
            _ => {
                let column_id = *next;
                self.skip_ids(next);
                let field = TableField::new_from_column_id(name, self.clone(), column_id);
                out.push(field);
                assert(views_of(out@) =~= before + seq![field@]);
            },
        }
    }
}

impl TableSchema {
    /// The flat fields of the active fields, each with its identifier. A
    /// tuple is split into its members, each under its own name; an array is
    /// replaced by its element, under the array's name followed by `:0`;
    /// a field of any other type, a nullable or a mapping too, stands as it is.
    pub fn leaf_fields(&self) -> (res: (Vec<ColumnId>, Vec<TableField>))
        requires
            self@.wf(),
        ensures
            views_of(res.1@) == self@.flat_fields(),
            as_ints(res.0@) == column_ids_of(self@.flat_fields()),
    {
        let fields = self.fields();
        let mut flat: Vec<TableField> = Vec::new();
        assert(views_of(flat@) =~= Seq::<FieldView>::empty());
        let mut i: usize = 0;
        while i < fields.len()
            invariant
                i <= fields.len(),
                self@.wf(),
                views_of(fields@) == self@.fields,
                views_of(flat@) == flat_fields_among(self@.fields, i as nat),
            decreases fields.len() - i,
        {
            assert(self@.fields[i as int] == fields@[i as int]@);
            let mut next = fields[i].column_id();
            fields[i].data_type().append_flat_fields(fields[i].name().as_str(), &mut next, &mut flat);
            i = i + 1;
        }
        let mut ids: Vec<ColumnId> = Vec::new();
        let mut j: usize = 0;
        while j < flat.len()
            invariant
                j <= flat.len(),
                ids@.len() == j,
                forall|k: int| 0 <= k < j ==> (#[trigger] ids@[k]) as int == flat@[k]@.column_id,
            decreases flat.len() - j,
        {
            ids.push(flat[j].column_id());
            j = j + 1;
        }
        assert(as_ints(ids@) =~= column_ids_of(views_of(flat@)));
        (ids, flat)
    }
}

} // verus!
