//! The recursive model of a column's logical type and its traversal order.

use vstd::prelude::*;
use vstd::std_specs::cmp::PartialEqSpecImpl;
use vstd::string::StringExecFns;

verus! {

/// The identifier of a physical column.
pub type ColumnId = u32;

/// A position among fields, among the children of a node, or among the nodes
/// of a schema.
pub type FieldIndex = usize;

/// The kinds of numeric scalar.
#[derive(Clone, Copy, Debug, PartialEq, Eq, Structural)]
pub enum NumberDataType {
    UInt8,
    UInt16,
    UInt32,
    UInt64,
    Int8,
    Int16,
    Int32,
    Int64,
    Float32,
    Float64,
}

/// The logical type of a column.
///
/// `Boolean`, `String` and `Number` are leaves. `Nullable`, `Array` and `Mapping`
/// wrap one inner type; `Tuple` holds named members, the name at a position of
/// `fields_name` belonging to the type at the same position of `fields_type`.
#[derive(Debug)]
pub enum TableDataType {
    Boolean,
    String,
    Number(NumberDataType),
    Nullable(Box<TableDataType>),
    Array(Box<TableDataType>),
    Mapping(Box<TableDataType>),
    Tuple { fields_name: Vec<String>, fields_type: Vec<TableDataType> },
}

/// The mathematical model of a [`TableDataType`]: a finite tree whose tuple
/// nodes hold their members as (name, type) pairs.
pub enum TypeTree {
    Boolean,
    String,
    Number(NumberDataType),
    Nullable(Box<TypeTree>),
    Array(Box<TypeTree>),
    Mapping(Box<TypeTree>),
    Tuple(Seq<(Seq<char>, TypeTree)>),
}

/// The smaller of two lengths.
pub open spec fn shorter(a: nat, b: nat) -> nat {
    if a <= b { a } else { b }
}

impl TableDataType {
    /// The tree that this type stands for. A tuple whose two lists differ in
    /// length stands for the members that both lists hold.
    pub open spec fn tree(&self) -> TypeTree
        decreases self,
    {
        match self {
            TableDataType::Boolean => TypeTree::Boolean,
            TableDataType::String => TypeTree::String,
            TableDataType::Number(kind) => TypeTree::Number(*kind),
            TableDataType::Nullable(inner) => TypeTree::Nullable(Box::new(inner.tree())),
            TableDataType::Array(inner) => TypeTree::Array(Box::new(inner.tree())),
            TableDataType::Mapping(inner) => TypeTree::Mapping(Box::new(inner.tree())),
            TableDataType::Tuple { fields_name, fields_type } => TypeTree::Tuple(
                Seq::new(
                    shorter(fields_name@.len(), fields_type@.len()),
                    |i: int|
                        if 0 <= i < fields_type@.len() {
                            (fields_name@[i]@, fields_type@[i].tree())
                        } else {
                            (Seq::empty(), TypeTree::Boolean)
                        },
                ),
            ),
        }
    }
}

impl View for TableDataType {
    type V = TypeTree;

    open spec fn view(&self) -> TypeTree {
        self.tree()
    }
}

impl TypeTree {
    /// Whether the node has no children.
    pub open spec fn is_leaf(self) -> bool {
        self is Boolean || self is String || self is Number
    }

    /// The number of leaves in the tree.
    pub open spec fn leaf_count(self) -> nat
        decreases self, 0nat,
    {
        match self {
            TypeTree::Boolean | TypeTree::String | TypeTree::Number(_) => 1,
            TypeTree::Nullable(inner) | TypeTree::Array(inner) | TypeTree::Mapping(inner) => inner.leaf_count(),
            TypeTree::Tuple(members) => Self::leaves_among(members, members.len()),
        }
    }

    /// The number of leaves in the first `n` of `members`.
    pub open spec fn leaves_among(members: Seq<(Seq<char>, TypeTree)>, n: nat) -> nat
        decreases members, n,
    {
        if n == 0 || n > members.len() {
            0
        } else {
            Self::leaves_among(members, (n - 1) as nat) + members[n - 1].1.leaf_count()
        }
    }

    /// The number of nodes in the tree.
    pub open spec fn node_count(self) -> nat
        decreases self, 0nat,
    {
        match self {
            TypeTree::Boolean | TypeTree::String | TypeTree::Number(_) => 1,
            TypeTree::Nullable(inner) | TypeTree::Array(inner) | TypeTree::Mapping(inner) => 1 + inner.node_count(),
            TypeTree::Tuple(members) => 1 + Self::nodes_among(members, members.len()),
        }
    }

    /// The number of nodes in the first `n` of `members`.
    pub open spec fn nodes_among(members: Seq<(Seq<char>, TypeTree)>, n: nat) -> nat
        decreases members, n,
    {
        if n == 0 || n > members.len() {
            0
        } else {
            Self::nodes_among(members, (n - 1) as nat) + members[n - 1].1.node_count()
        }
    }

    /// Whether no two of `members` bear the same name.
    pub open spec fn names_differ(members: Seq<(Seq<char>, TypeTree)>) -> bool {
        forall|i: int, j: int|
            0 <= i < j < members.len() ==> (#[trigger] members[i]).0 != (#[trigger] members[j]).0
    }

    /// Whether within every tuple of the tree no two members bear the same
    /// name. Members of different tuples may.
    pub open spec fn has_distinct_names(self) -> bool
        decreases self,
    {
        match self {
            TypeTree::Boolean | TypeTree::String | TypeTree::Number(_) => true,
            TypeTree::Nullable(inner) | TypeTree::Array(inner) | TypeTree::Mapping(inner) => inner.has_distinct_names(),
            TypeTree::Tuple(members) => Self::names_differ(members) && forall|i: int|
                0 <= i < members.len() ==> (#[trigger] members[i]).1.has_distinct_names(),
        }
    }

    /// The number of children of the root.
    pub open spec fn child_count(self) -> nat {
        match self {
            TypeTree::Boolean | TypeTree::String | TypeTree::Number(_) => 0,
            TypeTree::Nullable(_) | TypeTree::Array(_) | TypeTree::Mapping(_) => 1,
            TypeTree::Tuple(members) => members.len(),
        }
    }

    /// The child at position `i`: a member of a tuple, or at position 0 what a
    /// nullable, an array or a mapping wraps.
    pub open spec fn child(self, i: int) -> TypeTree
        recommends
            0 <= i < self.child_count(),
    {
        match self {
            TypeTree::Nullable(inner) | TypeTree::Array(inner) | TypeTree::Mapping(inner) => *inner,
            TypeTree::Tuple(members) => members[i].1,
            _ => self,
        }
    }

    /// The name under which the child at position `i` is known: the member's
    /// name in a tuple, and `0` for what a nullable, an array or a mapping wraps.
    pub open spec fn child_name(self, i: int) -> Seq<char>
        recommends
            0 <= i < self.child_count(),
    {
        match self {
            TypeTree::Tuple(members) => members[i].0,
            _ => seq!['0'],
        }
    }

    /// The number of leaves that are visited before the child at position `i`.
    pub open spec fn leaves_before_child(self, i: int) -> nat
        recommends
            0 <= i < self.child_count(),
    {
        match self {
            TypeTree::Tuple(members) => Self::leaves_among(members, i as nat),
            _ => 0,
        }
    }

    /// The number of nodes that are visited before the child at position `i`,
    /// the root among them.
    pub open spec fn nodes_before_child(self, i: int) -> nat
        recommends
            0 <= i < self.child_count(),
    {
        match self {
            TypeTree::Tuple(members) => 1 + Self::nodes_among(members, i as nat),
            _ => 1,
        }
    }

    /// Whether `path`, a chain of child positions walked from the root, ends
    /// at a node of the tree.
    pub open spec fn has_path(self, path: Seq<FieldIndex>) -> bool
        decreases path.len(),
    {
        path.len() == 0 || (path[0] < self.child_count() && self.child(path[0] as int).has_path(
            path.skip(1),
        ))
    }

    /// The node at which `path` ends, with all that lies below it.
    pub open spec fn descend(self, path: Seq<FieldIndex>) -> TypeTree
        recommends
            self.has_path(path),
        decreases path.len(),
    {
        if path.len() == 0 {
            self
        } else {
            self.child(path[0] as int).descend(path.skip(1))
        }
    }

    /// The number of leaves that are visited before the node at which `path` ends.
    pub open spec fn leaves_before(self, path: Seq<FieldIndex>) -> nat
        recommends
            self.has_path(path),
        decreases path.len(),
    {
        if path.len() == 0 {
            0
        } else {
            self.leaves_before_child(path[0] as int) + self.child(path[0] as int).leaves_before(
                path.skip(1),
            )
        }
    }

    /// The place in visiting order of the node at which `path` ends.
    pub open spec fn position_of(self, path: Seq<FieldIndex>) -> nat
        recommends
            self.has_path(path),
        decreases path.len(),
    {
        if path.len() == 0 {
            0
        } else {
            self.nodes_before_child(path[0] as int) + self.child(path[0] as int).position_of(
                path.skip(1),
            )
        }
    }

    /// The name of the node at which `path` ends, when the root is called
    /// `base`: the names met on the way down, joined by colons.
    pub open spec fn name_along(self, base: Seq<char>, path: Seq<FieldIndex>) -> Seq<char>
        recommends
            self.has_path(path),
        decreases path.len(),
    {
        if path.len() == 0 {
            base
        } else {
            self.child(path[0] as int).name_along(
                base + seq![':'] + self.child_name(path[0] as int),
                path.skip(1),
            )
        }
    }

    /// Whether `pruned` can be laid over this tree so that each of its nodes
    /// lies on a node of the same kind with the same identifier: leaves must
    /// be of the same kind, a wrapper must wrap a type that is covered in
    /// turn, and a tuple may keep a leading run of the members, unchanged but
    /// for the last one it keeps, which must be covered in turn.
    pub open spec fn covers(self, pruned: TypeTree) -> bool
        decreases self,
    {
        match (self, pruned) {
            (TypeTree::Boolean, TypeTree::Boolean) => true,
            (TypeTree::String, TypeTree::String) => true,
            (TypeTree::Number(a), TypeTree::Number(b)) => a == b,
            (TypeTree::Nullable(a), TypeTree::Nullable(b)) => a.covers(*b),
            (TypeTree::Array(a), TypeTree::Array(b)) => a.covers(*b),
            (TypeTree::Mapping(a), TypeTree::Mapping(b)) => a.covers(*b),
            (TypeTree::Tuple(members), TypeTree::Tuple(kept)) => {
                &&& kept.len() <= members.len()
                &&& forall|i: int| 0 <= i < kept.len() ==> (#[trigger] kept[i]).0 == members[i].0
                &&& forall|i: int| 0 <= i < kept.len() - 1 ==> (#[trigger] kept[i]).1 == members[i].1
                &&& kept.len() > 0 ==> members[kept.len() - 1].1.covers(kept[kept.len() - 1].1)
            },
            _ => false,
        }
    }

    /// The identifiers of the nodes in visiting order, when the leaves are
    /// numbered from `first`: a leaf takes the next free identifier, and a
    /// node with children carries the identifier handed to its first child.
    pub open spec fn node_ids(self, first: int) -> Seq<int>
        decreases self, 0nat,
    {
        match self {
            TypeTree::Boolean | TypeTree::String | TypeTree::Number(_) => seq![first],
            TypeTree::Nullable(inner) | TypeTree::Array(inner) | TypeTree::Mapping(inner) => seq![first]
                + inner.node_ids(first),
            TypeTree::Tuple(members) => seq![first] + Self::node_ids_among(
                members,
                members.len(),
                first,
            ),
        }
    }

    /// The identifiers of the nodes of the first `n` of `members`, one member
    /// after the other, each numbered from where the one before it stopped.
    pub open spec fn node_ids_among(members: Seq<(Seq<char>, TypeTree)>, n: nat, first: int) -> Seq<
        int,
    >
        decreases members, n,
    {
        if n == 0 || n > members.len() {
            Seq::empty()
        } else {
            Self::node_ids_among(members, (n - 1) as nat, first) + members[n - 1].1.node_ids(
                first + Self::leaves_among(members, (n - 1) as nat),
            )
        }
    }

    /// The identifiers of the leaves in visiting order, when the leaves are
    /// numbered from `first`.
    pub open spec fn leaf_ids(self, first: int) -> Seq<int>
        decreases self, 0nat,
    {
        match self {
            TypeTree::Boolean | TypeTree::String | TypeTree::Number(_) => seq![first],
            TypeTree::Nullable(inner) | TypeTree::Array(inner) | TypeTree::Mapping(inner) => inner.leaf_ids(
                first,
            ),
            TypeTree::Tuple(members) => Self::leaf_ids_among(members, members.len(), first),
        }
    }

    /// The identifiers of the leaves of the first `n` of `members`.
    pub open spec fn leaf_ids_among(members: Seq<(Seq<char>, TypeTree)>, n: nat, first: int) -> Seq<
        int,
    >
        decreases members, n,
    {
        if n == 0 || n > members.len() {
            Seq::empty()
        } else {
            Self::leaf_ids_among(members, (n - 1) as nat, first) + members[n - 1].1.leaf_ids(
                first + Self::leaves_among(members, (n - 1) as nat),
            )
        }
    }

    /// The nodes of the tree, each with all that lies below it, in visiting
    /// order: a node comes before its children, and children come left to right.
    pub open spec fn preorder(self) -> Seq<TypeTree>
        decreases self, 0nat,
    {
        match self {
            TypeTree::Boolean | TypeTree::String | TypeTree::Number(_) => seq![self],
            TypeTree::Nullable(inner) | TypeTree::Array(inner) | TypeTree::Mapping(inner) => seq![self]
                + inner.preorder(),
            TypeTree::Tuple(members) => seq![self] + Self::preorder_among(members, members.len()),
        }
    }

    /// The nodes of the first `n` of `members` in visiting order.
    pub open spec fn preorder_among(members: Seq<(Seq<char>, TypeTree)>, n: nat) -> Seq<TypeTree>
        decreases members, n,
    {
        if n == 0 || n > members.len() {
            Seq::empty()
        } else {
            Self::preorder_among(members, (n - 1) as nat) + members[n - 1].1.preorder()
        }
    }
}

/// The identifiers of `ids` as mathematical integers.
pub open spec fn as_ints(ids: Seq<ColumnId>) -> Seq<int> {
    ids.map_values(|id: ColumnId| id as int)
}

/// The trees that the types of `types` stand for.
pub open spec fn trees_of(types: Seq<&TableDataType>) -> Seq<TypeTree> {
    types.map_values(|ty: &TableDataType| ty@)
}

impl TableDataType {
    /// Numbers the leaves of this type from `*next` on and appends to `ids`
    /// the identifiers of its leaves, or of all its nodes, in visiting order.
    /// Leaves `*next` behind the last identifier handed out.
    pub(crate) fn append_ids(&self, leaves_only: bool, next: &mut ColumnId, ids: &mut Vec<ColumnId>)
        requires
            *old(next) + self@.leaf_count() <= ColumnId::MAX,
        ensures
            *final(next) == *old(next) + self@.leaf_count(),
            as_ints(final(ids)@) == as_ints(old(ids)@) + (if leaves_only {
                self@.leaf_ids(*old(next) as int)
            } else {
                self@.node_ids(*old(next) as int)
            }),
        decreases self,
    {
        let ghost first = *next as int;
        let ghost before = as_ints(ids@);
        match self {
            TableDataType::Boolean | TableDataType::String | TableDataType::Number(_) => {
                ids.push(*next);
                *next = *next + 1;
                assert(as_ints(ids@) =~= before + seq![first]);
            },
            TableDataType::Nullable(inner) | TableDataType::Array(inner) | TableDataType::Mapping(inner) => {
                if !leaves_only {
                    ids.push(*next);
                    assert(as_ints(ids@) =~= before + seq![first]);
                }
                let ghost mid = as_ints(ids@);
                inner.append_ids(leaves_only, next, ids);
                assert(as_ints(ids@) =~= before + (if leaves_only {
                    self@.leaf_ids(first)
                } else {
                    self@.node_ids(first)
                }));
            },
            TableDataType::Tuple { fields_name, fields_type } => {
                if !leaves_only {
                    ids.push(*next);
                    assert(as_ints(ids@) =~= before + seq![first]);
                }
                let ghost mid = as_ints(ids@);
                let ghost members = self@->Tuple_0;
                let count = if fields_name.len() < fields_type.len() {
                    fields_name.len()
                } else {
                    fields_type.len()
                };
                let mut i: usize = 0;
                while i < count
                    invariant
                        i <= count,
                        count == members.len(),
                        count <= fields_type.len(),
                        self matches TableDataType::Tuple { fields_type: own_types, .. }
                            && own_types == fields_type,
                        self@ == TypeTree::Tuple(members),
                        forall|k: int| 0 <= k < count ==> (#[trigger] members[k]).1 == fields_type@[k]@,
                        first + self@.leaf_count() <= ColumnId::MAX,
                        *next == first + TypeTree::leaves_among(members, i as nat),
                        as_ints(ids@) == mid + (if leaves_only {
                            TypeTree::leaf_ids_among(members, i as nat, first)
                        } else {
                            TypeTree::node_ids_among(members, i as nat, first)
                        }),
                    decreases count - i,
                {
                    proof {
                        TypeTree::lemma_leaves_among_grows(members, (i + 1) as nat, count as nat);
                    }
                    fields_type[i].append_ids(leaves_only, next, ids);
                    i = i + 1;
                }
                assert(as_ints(ids@) =~= before + (if leaves_only {
                    self@.leaf_ids(first)
                } else {
                    self@.node_ids(first)
                }));
            },
        }
    }

    /// The number of members that a tuple with these two lists holds.
    fn member_count(fields_name: &Vec<String>, fields_type: &Vec<TableDataType>) -> (count: usize)
        ensures
            count == shorter(fields_name@.len(), fields_type@.len()),
    {
        if fields_name.len() < fields_type.len() {
            fields_name.len()
        } else {
            fields_type.len()
        }
    }

    /// Whether the type has no children.
    pub fn is_leaf(&self) -> (res: bool)
        ensures
            res == self@.is_leaf(),
    {
        match self {
            TableDataType::Boolean | TableDataType::String | TableDataType::Number(_) => true,
            _ => false,
        }
    }

    /// Whether within every tuple of the type no two members bear the same
    /// name.
    pub fn has_distinct_names(&self) -> (res: bool)
        ensures
            res == self@.has_distinct_names(),
        decreases self,
    {
        match self {
            TableDataType::Boolean | TableDataType::String | TableDataType::Number(_) => true,
            TableDataType::Nullable(inner) | TableDataType::Array(inner) | TableDataType::Mapping(inner) => {
                inner.has_distinct_names()
            },
            TableDataType::Tuple { fields_name, fields_type } => {
                let ghost members = self@->Tuple_0;
                let count = Self::member_count(fields_name, fields_type);
                let mut i: usize = 0;
                while i < count
                    invariant
                        self matches TableDataType::Tuple { fields_type: own_types, .. }
                            && own_types == fields_type,
                        i <= count,
                        count == members.len(),
                        count <= fields_type.len(),
                        count <= fields_name.len(),
                        self@ == TypeTree::Tuple(members),
                        forall|k: int|
                            0 <= k < count ==> #[trigger] members[k] == (
                                fields_name@[k]@,
                                fields_type@[k]@,
                            ),
                        forall|a: int, b: int|
                            0 <= a < b < i ==> (#[trigger] members[a]).0 != (#[trigger] members[b]).0,
                        forall|a: int| 0 <= a < i ==> (#[trigger] members[a]).1.has_distinct_names(),
                    decreases count - i,
                {
                    let mut j: usize = 0;
                    while j < i
                        invariant
                            j <= i < count,
                            count == members.len(),
                            count <= fields_name.len(),
                            count <= fields_type.len(),
                            self@ == TypeTree::Tuple(members),
                            forall|k: int|
                                0 <= k < count ==> #[trigger] members[k] == (
                                    fields_name@[k]@,
                                    fields_type@[k]@,
                                ),
                            forall|a: int| 0 <= a < j ==> (#[trigger] members[a]).0 != members[i as int].0,
                        decreases i - j,
                    {
                        if fields_name[j] == fields_name[i] {
                            assert(members[j as int].0 == members[i as int].0);
                            return false;
                        }
                        j = j + 1;
                    }
                    if !fields_type[i].has_distinct_names() {
                        assert(!members[i as int].1.has_distinct_names());
                        return false;
                    }
                    i = i + 1;
                }
                true
            },
        }
    }

    /// The child at position `index`, if there is one.
    pub fn child_at(&self, index: FieldIndex) -> (res: Option<&TableDataType>)
        ensures
            res is Some <==> index < self@.child_count(),
            res matches Some(child) ==> child@ == self@.child(index as int),
    {
        match self {
            TableDataType::Boolean | TableDataType::String | TableDataType::Number(_) => None,
            TableDataType::Nullable(inner) | TableDataType::Array(inner) | TableDataType::Mapping(inner) => {
                if index == 0 {
                    Some(&**inner)
                } else {
                    None
                }
            },
            TableDataType::Tuple { fields_name, fields_type } => {
                if index < Self::member_count(fields_name, fields_type) {
                    Some(&fields_type[index])
                } else {
                    None
                }
            },
        }
    }

    /// Moves `*next` past the identifiers that the leaves of this type take.
    pub(crate) fn skip_ids(&self, next: &mut ColumnId)
        requires
            *old(next) + self@.leaf_count() <= ColumnId::MAX,
        ensures
            *final(next) == *old(next) + self@.leaf_count(),
    {
        let fits = self.try_skip_ids(next);
        assert(fits);
    }

    /// Moves `*next` past the identifiers that the leaves of this type take,
    /// where a `ColumnId` can hold them all, and says whether it can.
    pub(crate) fn try_skip_ids(&self, next: &mut ColumnId) -> (fits: bool)
        ensures
            fits == (*old(next) + self@.leaf_count() <= ColumnId::MAX),
            fits ==> *final(next) == *old(next) + self@.leaf_count(),
        decreases self,
    {
        let ghost first = *next as int;
        match self {
            TableDataType::Boolean | TableDataType::String | TableDataType::Number(_) => {
                if *next == ColumnId::MAX {
                    false
                } else {
                    *next = *next + 1;
                    true
                }
            },
            TableDataType::Nullable(inner) | TableDataType::Array(inner) | TableDataType::Mapping(inner) => {
                inner.try_skip_ids(next)
            },
            TableDataType::Tuple { fields_name, fields_type } => {
                let ghost members = self@->Tuple_0;
                let count = Self::member_count(fields_name, fields_type);
                let mut i: usize = 0;
                while i < count
                    invariant
                        self matches TableDataType::Tuple { fields_type: own_types, .. }
                            && own_types == fields_type,
                        i <= count,
                        count == members.len(),
                        count <= fields_type.len(),
                        self@ == TypeTree::Tuple(members),
                        forall|k: int| 0 <= k < count ==> (#[trigger] members[k]).1 == fields_type@[k]@,
                        first == *old(next),
                        *next == first + TypeTree::leaves_among(members, i as nat),
                    decreases count - i,
                {
                    proof {
                        TypeTree::lemma_leaves_among_grows(members, (i + 1) as nat, count as nat);
                    }
                    if !fields_type[i].try_skip_ids(next) {
                        assert(TypeTree::leaves_among(members, (i + 1) as nat)
                            == TypeTree::leaves_among(members, i as nat)
                            + members[i as int].1.leaf_count());
                        return false;
                    }
                    i = i + 1;
                }
                true
            },
        }
    }

    /// The first identifier behind those that the leaves of this type take
    /// when they are numbered from `first`, where a `ColumnId` can hold it.
    pub fn ids_end(&self, first: ColumnId) -> (end: Option<ColumnId>)
        ensures
            match end {
                Some(end) => end == first + self@.leaf_count(),
                None => first + self@.leaf_count() > ColumnId::MAX,
            },
    {
        let mut next = first;
        if self.try_skip_ids(&mut next) {
            Some(next)
        } else {
            None
        }
    }

    /// Appends the nodes of this type to `nodes` in visiting order.
    pub(crate) fn append_nodes<'a>(&'a self, nodes: &mut Vec<&'a TableDataType>)
        ensures
            trees_of(final(nodes)@) == trees_of(old(nodes)@) + self@.preorder(),
        decreases self,
    {
        let ghost before = trees_of(nodes@);
        nodes.push(self);
        assert(trees_of(nodes@) =~= before + seq![self@]);
        match self {
            TableDataType::Boolean | TableDataType::String | TableDataType::Number(_) => {},
            TableDataType::Nullable(inner) | TableDataType::Array(inner) | TableDataType::Mapping(inner) => {
                inner.append_nodes(nodes);
                assert(trees_of(nodes@) =~= before + self@.preorder());
            },
            TableDataType::Tuple { fields_name, fields_type } => {
                let ghost members = self@->Tuple_0;
                let count = Self::member_count(fields_name, fields_type);
                let mut i: usize = 0;
                while i < count
                    invariant
                        self matches TableDataType::Tuple { fields_type: own_types, .. }
                            && own_types == fields_type,
                        i <= count,
                        count == members.len(),
                        count <= fields_type.len(),
                        self@ == TypeTree::Tuple(members),
                        forall|k: int| 0 <= k < count ==> (#[trigger] members[k]).1 == fields_type@[k]@,
                        trees_of(nodes@) == before + seq![self@] + TypeTree::preorder_among(
                            members,
                            i as nat,
                        ),
                    decreases count - i,
                {
                    fields_type[i].append_nodes(nodes);
                    i = i + 1;
                }
                assert(trees_of(nodes@) =~= before + self@.preorder());
            },
        }
    }

    /// The nodes of this type in visiting order: a node comes before its
    /// children, and children come left to right.
    pub fn nodes_preorder(&self) -> (nodes: Vec<&TableDataType>)
        ensures
            trees_of(nodes@) == self@.preorder(),
    {
        let mut nodes: Vec<&TableDataType> = Vec::new();
        self.append_nodes(&mut nodes);
        assert(trees_of(nodes@) =~= self@.preorder());
        nodes
    }

    /// Whether `pruned` can be laid over this type so that each of its nodes
    /// keeps the identifier of the node it lies on.
    pub fn covers(&self, pruned: &TableDataType) -> (res: bool)
        ensures
            res == self@.covers(pruned@),
        decreases self,
    {
        match (self, pruned) {
            (TableDataType::Boolean, TableDataType::Boolean) => true,
            (TableDataType::String, TableDataType::String) => true,
            (TableDataType::Number(a), TableDataType::Number(b)) => *a == *b,
            (TableDataType::Nullable(a), TableDataType::Nullable(b)) => a.covers(&**b),
            (TableDataType::Array(a), TableDataType::Array(b)) => a.covers(&**b),
            (TableDataType::Mapping(a), TableDataType::Mapping(b)) => a.covers(&**b),
            (
                TableDataType::Tuple { fields_name, fields_type },
                TableDataType::Tuple { fields_name: kept_name, fields_type: kept_type },
            ) => {
                let ghost members = self@->Tuple_0;
                let ghost kept = pruned@->Tuple_0;
                let count = Self::member_count(fields_name, fields_type);
                let kept_count = Self::member_count(kept_name, kept_type);
                if kept_count > count {
                    return false;
                }
                let mut i: usize = 0;
                while i < kept_count
                    invariant
                        self matches TableDataType::Tuple { fields_type: own_types, .. }
                            && own_types == fields_type,
                        i <= kept_count <= count,
                        self@ == TypeTree::Tuple(members),
                        pruned@ == TypeTree::Tuple(kept),
                        count == members.len(),
                        kept_count == kept.len(),
                        count <= fields_name.len(),
                        count <= fields_type.len(),
                        kept_count <= kept_name.len(),
                        kept_count <= kept_type.len(),
                        forall|k: int|
                            0 <= k < count ==> #[trigger] members[k] == (fields_name@[k]@, fields_type@[k]@),
                        forall|k: int|
                            0 <= k < kept_count ==> #[trigger] kept[k] == (kept_name@[k]@, kept_type@[k]@),
                        forall|k: int| 0 <= k < i ==> (#[trigger] kept[k]).0 == members[k].0,
                        forall|k: int|
                            0 <= k < i && k < kept_count - 1 ==> (#[trigger] kept[k]).1 == members[k].1,
                        i == kept_count && kept_count > 0 ==> members[kept_count - 1].1.covers(
                            kept[kept_count - 1].1,
                        ),
                    decreases kept_count - i,
                {
                    if !(fields_name[i] == kept_name[i]) {
                        assert(kept[i as int].0 != members[i as int].0);
                        return false;
                    }
                    if i + 1 < kept_count {
                        if !(fields_type[i] == kept_type[i]) {
                            assert(kept[i as int].1 != members[i as int].1);
                            return false;
                        }
                    } else {
                        if !fields_type[i].covers(&kept_type[i]) {
                            return false;
                        }
                    }
                    i = i + 1;
                }
                true
            },
            _ => false,
        }
    }

    /// Steps from this type to its child at position `index`, if there is
    /// one: moves `*id` past the leaves that are visited before the child, and
    /// appends a colon and the child's name to `name`.
    pub(crate) fn enter_child<'a>(
        &'a self,
        index: FieldIndex,
        id: &mut ColumnId,
        name: &mut String,
    ) -> (res: Option<&'a TableDataType>)
        requires
            *old(id) + self@.leaf_count() <= ColumnId::MAX,
        ensures
            res is Some <==> index < self@.child_count(),
            res matches Some(child) ==> {
                &&& child@ == self@.child(index as int)
                &&& *final(id) == *old(id) + self@.leaves_before_child(index as int)
                &&& final(name)@ == old(name)@ + seq![':'] + self@.child_name(index as int)
                &&& *final(id) + child@.leaf_count() <= *old(id) + self@.leaf_count()
            },
            res is None ==> *final(id) == *old(id) && final(name)@ == old(name)@,
    {
        let ghost first = *id as int;
        match self {
            TableDataType::Boolean | TableDataType::String | TableDataType::Number(_) => None,
            TableDataType::Nullable(inner) | TableDataType::Array(inner) | TableDataType::Mapping(inner) => {
                if index == 0 {
                    let ghost before = name@;
                    name.append(":0");
                    proof {
                        reveal_strlit(":0");
                        assert(name@ =~= before + seq![':'] + seq!['0']);
                    }
                    Some(&**inner)
                } else {
                    None
                }
            },
            TableDataType::Tuple { fields_name, fields_type } => {
                let ghost members = self@->Tuple_0;
                let count = Self::member_count(fields_name, fields_type);
                if index >= count {
                    return None;
                }
                let mut i: usize = 0;
                while i < index
                    invariant
                        i <= index < count,
                        count == members.len(),
                        count <= fields_type.len(),
                        self@ == TypeTree::Tuple(members),
                        forall|k: int| 0 <= k < count ==> (#[trigger] members[k]).1 == fields_type@[k]@,
                        first + self@.leaf_count() <= ColumnId::MAX,
                        *id == first + TypeTree::leaves_among(members, i as nat),
                    decreases index - i,
                {
                    proof {
                        TypeTree::lemma_leaves_among_grows(members, (i + 1) as nat, count as nat);
                    }
                    fields_type[i].skip_ids(id);
                    i = i + 1;
                }
                proof {
                    TypeTree::lemma_leaves_among_grows(members, (index + 1) as nat, count as nat);
                }
                let ghost before = name@;
                name.append(":");
                name.append(fields_name[index].as_str());
                proof {
                    reveal_strlit(":");
                    assert(":"@ =~= seq![':']);
                }
                Some(&fields_type[index])
            },
        }
    }
}

impl Clone for TableDataType {
    /// A copy that stands for the same tree.
    fn clone(&self) -> (res: Self)
        ensures
            res@ == self@,
        decreases self,
    {
        match self {
            TableDataType::Boolean => TableDataType::Boolean,
            TableDataType::String => TableDataType::String,
            TableDataType::Number(kind) => TableDataType::Number(*kind),
            TableDataType::Nullable(inner) => TableDataType::Nullable(Box::new((**inner).clone())),
            TableDataType::Array(inner) => TableDataType::Array(Box::new((**inner).clone())),
            TableDataType::Mapping(inner) => TableDataType::Mapping(Box::new((**inner).clone())),
            TableDataType::Tuple { fields_name, fields_type } => {
                let mut names: Vec<String> = Vec::new();
                let mut i: usize = 0;
                while i < fields_name.len()
                    invariant
                        i <= fields_name.len(),
                        names@.len() == i,
                        forall|k: int| 0 <= k < i ==> (#[trigger] names@[k])@ == fields_name@[k]@,
                    decreases fields_name.len() - i,
                {
                    names.push(fields_name[i].clone());
                    i = i + 1;
                }
                let mut types: Vec<TableDataType> = Vec::new();
                let mut j: usize = 0;
                while j < fields_type.len()
                    invariant
                        self matches TableDataType::Tuple { fields_type: own_types, .. }
                            && own_types == fields_type,
                        j <= fields_type.len(),
                        types@.len() == j,
                        forall|k: int| 0 <= k < j ==> (#[trigger] types@[k])@ == fields_type@[k]@,
                    decreases fields_type.len() - j,
                {
                    types.push(fields_type[j].clone());
                    j = j + 1;
                }
                let res = TableDataType::Tuple { fields_name: names, fields_type: types };
                assert(res@->Tuple_0 =~= self@->Tuple_0);
                res
            },
        }
    }
}

impl PartialEq for TableDataType {
    /// Whether both types stand for the same tree.
    fn eq(&self, other: &Self) -> (res: bool)
        decreases self,
    {
        match (self, other) {
            (TableDataType::Boolean, TableDataType::Boolean) => true,
            (TableDataType::String, TableDataType::String) => true,
            (TableDataType::Number(a), TableDataType::Number(b)) => *a == *b,
            (TableDataType::Nullable(a), TableDataType::Nullable(b)) => (**a).eq(&**b),
            (TableDataType::Array(a), TableDataType::Array(b)) => (**a).eq(&**b),
            (TableDataType::Mapping(a), TableDataType::Mapping(b)) => (**a).eq(&**b),
            (
                TableDataType::Tuple { fields_name, fields_type },
                TableDataType::Tuple { fields_name: other_name, fields_type: other_type },
            ) => {
                let count = if fields_name.len() < fields_type.len() {
                    fields_name.len()
                } else {
                    fields_type.len()
                };
                let other_count = if other_name.len() < other_type.len() {
                    other_name.len()
                } else {
                    other_type.len()
                };
                let ghost mine = self@->Tuple_0;
                let ghost theirs = other@->Tuple_0;
                if count != other_count {
                    assert(mine.len() != theirs.len());
                    return false;
                }
                let mut i: usize = 0;
                while i < count
                    invariant
                        self matches TableDataType::Tuple { fields_type: own_types, .. }
                            && own_types == fields_type,
                        i <= count,
                        self@ == TypeTree::Tuple(mine),
                        other@ == TypeTree::Tuple(theirs),
                        count == mine.len(),
                        count == theirs.len(),
                        count <= fields_name.len(),
                        count <= fields_type.len(),
                        count <= other_name.len(),
                        count <= other_type.len(),
                        forall|k: int|
                            0 <= k < count ==> #[trigger] mine[k] == (fields_name@[k]@, fields_type@[k]@),
                        forall|k: int|
                            0 <= k < count ==> #[trigger] theirs[k] == (other_name@[k]@, other_type@[k]@),
                        forall|k: int| 0 <= k < i ==> mine[k] == theirs[k],
                    decreases count - i,
                {
                    if !(fields_name[i] == other_name[i]) || !fields_type[i].eq(&other_type[i]) {
                        assert(mine[i as int] != theirs[i as int]);
                        return false;
                    }
                    i = i + 1;
                }
                assert(mine =~= theirs);
                true
            },
            _ => false,
        }
    }
}

impl PartialEqSpecImpl for TableDataType {
    open spec fn obeys_eq_spec() -> bool {
        true
    }

    open spec fn eq_spec(&self, other: &Self) -> bool {
        self@ == other@
    }
}

impl Eq for TableDataType {

}

} // verus!
