//! What holds of the numbering of a type's nodes: how many identifiers there
//! are, that the leaves take them in a row, and that a node with children
//! bears the identifier of the first leaf below it.

use crate::data_type::{FieldIndex, TypeTree};
use vstd::prelude::*;

verus! {

/// The number of leaves among the first `n` of `nodes`.
pub open spec fn leaves_ahead(nodes: Seq<TypeTree>, n: int) -> nat
    decreases n,
{
    if n <= 0 || n > nodes.len() {
        0
    } else {
        leaves_ahead(nodes, n - 1) + if nodes[n - 1].is_leaf() {
            1nat
        } else {
            0nat
        }
    }
}

/// Counting leaves in two sequences, one put behind the other: places in the
/// first count as there, and places in the second come after all of the first.
pub proof fn lemma_leaves_ahead_joined(a: Seq<TypeTree>, b: Seq<TypeTree>, n: int)
    requires
        0 <= n <= a.len() + b.len(),
    ensures
        n <= a.len() ==> leaves_ahead(a + b, n) == leaves_ahead(a, n),
        n >= a.len() ==> leaves_ahead(a + b, n) == leaves_ahead(a, a.len() as int) + leaves_ahead(
            b,
            n - a.len(),
        ),
    decreases n,
{
    if n > 0 {
        lemma_leaves_ahead_joined(a, b, n - 1);
        if n <= a.len() {
            assert((a + b)[n - 1] == a[n - 1]);
        } else {
            assert((a + b)[n - 1] == b[n - 1 - a.len()]);
        }
    }
}

/// Where no leaf stands between two places, as many leaves stand before the
/// one as before the other.
pub proof fn lemma_leaves_ahead_unchanged(nodes: Seq<TypeTree>, from: int, to: int)
    requires
        0 <= from <= to <= nodes.len(),
        forall|q: int| from <= q < to ==> !(#[trigger] nodes[q]).is_leaf(),
    ensures
        leaves_ahead(nodes, to) == leaves_ahead(nodes, from),
    decreases to - from,
{
    if from < to {
        lemma_leaves_ahead_unchanged(nodes, from, to - 1);
    }
}

impl TypeTree {
    /// The leaves of fewer members are no more than those of more members.
    pub proof fn lemma_leaves_among_grows(members: Seq<(Seq<char>, TypeTree)>, m: nat, n: nat)
        requires
            m <= n <= members.len(),
        ensures
            Self::leaves_among(members, m) <= Self::leaves_among(members, n),
        decreases n,
    {
        if m < n {
            Self::lemma_leaves_among_grows(members, m, (n - 1) as nat);
        }
    }

    /// The leaves that are visited before a child and those of the child are
    /// leaves of the parent.
    pub proof fn lemma_child_within(self, i: int)
        requires
            0 <= i < self.child_count(),
        ensures
            self.leaves_before_child(i) + self.child(i).leaf_count() <= self.leaf_count(),
            self.nodes_before_child(i) + self.child(i).node_count() <= self.node_count(),
    {
        if let TypeTree::Tuple(members) = self {
            Self::lemma_leaves_among_grows(members, (i + 1) as nat, members.len());
            Self::lemma_nodes_among_grows(members, (i + 1) as nat, members.len());
        }
    }

    /// The nodes of fewer members are no more than those of more members.
    pub proof fn lemma_nodes_among_grows(members: Seq<(Seq<char>, TypeTree)>, m: nat, n: nat)
        requires
            m <= n <= members.len(),
        ensures
            Self::nodes_among(members, m) <= Self::nodes_among(members, n),
        decreases n,
    {
        if m < n {
            Self::lemma_nodes_among_grows(members, m, (n - 1) as nat);
        }
    }

    /// The leaves that are visited before the node at which a path ends, and
    /// the leaves of that node, are leaves of the tree.
    pub proof fn lemma_path_within(self, path: Seq<FieldIndex>)
        requires
            self.has_path(path),
        ensures
            self.leaves_before(path) + self.descend(path).leaf_count() <= self.leaf_count(),
            self.position_of(path) + self.descend(path).node_count() <= self.node_count(),
        decreases path.len(),
    {
        if path.len() > 0 {
            self.lemma_child_within(path[0] as int);
            self.child(path[0] as int).lemma_path_within(path.skip(1));
        }
    }

    /// There is one node identifier and one entry of the visiting order for
    /// each node, and one leaf identifier for each leaf.
    pub proof fn lemma_counts(self, first: int)
        ensures
            self.node_ids(first).len() == self.node_count(),
            self.preorder().len() == self.node_count(),
            self.leaf_ids(first).len() == self.leaf_count(),
            self.node_count() >= 1,
            self.preorder()[0] == self,
            self.node_ids(first)[0] == first,
        decreases self, 0nat,
    {
        match self {
            TypeTree::Boolean | TypeTree::String | TypeTree::Number(_) => {},
            TypeTree::Nullable(inner) | TypeTree::Array(inner) | TypeTree::Mapping(inner) => {
                inner.lemma_counts(first);
            },
            TypeTree::Tuple(members) => {
                Self::lemma_counts_among(members, members.len(), first);
            },
        }
    }

    /// The same, of the first `n` of `members`.
    pub proof fn lemma_counts_among(members: Seq<(Seq<char>, TypeTree)>, n: nat, first: int)
        requires
            n <= members.len(),
        ensures
            Self::node_ids_among(members, n, first).len() == Self::nodes_among(members, n),
            Self::preorder_among(members, n).len() == Self::nodes_among(members, n),
            Self::leaf_ids_among(members, n, first).len() == Self::leaves_among(members, n),
        decreases members, n,
    {
        if n > 0 {
            Self::lemma_counts_among(members, (n - 1) as nat, first);
            members[n - 1].1.lemma_counts(first + Self::leaves_among(members, (n - 1) as nat));
        }
    }

    /// The leaves take the identifiers from `first` on, one after the other,
    /// so they rise and none occurs twice.
    pub proof fn lemma_leaf_ids_in_a_row(self, first: int)
        ensures
            self.leaf_ids(first).len() == self.leaf_count(),
            forall|k: int| 0 <= k < self.leaf_count() ==> #[trigger] self.leaf_ids(first)[k] == first + k,
        decreases self, 0nat,
    {
        match self {
            TypeTree::Boolean | TypeTree::String | TypeTree::Number(_) => {},
            TypeTree::Nullable(inner) | TypeTree::Array(inner) | TypeTree::Mapping(inner) => {
                inner.lemma_leaf_ids_in_a_row(first);
            },
            TypeTree::Tuple(members) => {
                Self::lemma_leaf_ids_in_a_row_among(members, members.len(), first);
            },
        }
    }

    /// The same, of the first `n` of `members`.
    pub proof fn lemma_leaf_ids_in_a_row_among(
        members: Seq<(Seq<char>, TypeTree)>,
        n: nat,
        first: int,
    )
        requires
            n <= members.len(),
        ensures
            Self::leaf_ids_among(members, n, first).len() == Self::leaves_among(members, n),
            forall|k: int|
                0 <= k < Self::leaves_among(members, n) ==> #[trigger] Self::leaf_ids_among(
                    members,
                    n,
                    first,
                )[k] == first + k,
        decreases members, n,
    {
        if n > 0 {
            Self::lemma_leaf_ids_in_a_row_among(members, (n - 1) as nat, first);
            members[n - 1].1.lemma_leaf_ids_in_a_row(
                first + Self::leaves_among(members, (n - 1) as nat),
            );
        }
    }

    /// Of the node at place `at` in visiting order: its leaves are leaves of
    /// the tree, the nodes below it follow it directly, and it and they bear
    /// the identifiers that they would bear if the node stood alone and its
    /// leaves were numbered from its own identifier.
    pub proof fn lemma_node_at(self, first: int, at: int)
        requires
            0 <= at < self.node_count(),
        ensures
            self.node_ids(first).len() == self.node_count(),
            self.preorder().len() == self.node_count(),
            at + self.preorder()[at].node_count() <= self.node_count(),
            first <= self.node_ids(first)[at],
            self.node_ids(first)[at] + self.preorder()[at].leaf_count() <= first + self.leaf_count(),
            self.preorder().subrange(at, at + self.preorder()[at].node_count())
                == self.preorder()[at].preorder(),
            self.node_ids(first).subrange(at, at + self.preorder()[at].node_count())
                == self.preorder()[at].node_ids(self.node_ids(first)[at]),
        decreases self, 0nat,
    {
        self.lemma_counts(first);
        if at == 0 {
            assert(self.preorder().subrange(0, self.node_count() as int) =~= self.preorder());
            assert(self.node_ids(first).subrange(0, self.node_count() as int) =~= self.node_ids(
                first,
            ));
        } else {
            match self {
                TypeTree::Boolean | TypeTree::String | TypeTree::Number(_) => {},
                TypeTree::Nullable(inner) | TypeTree::Array(inner) | TypeTree::Mapping(inner) => {
                    inner.lemma_node_at(first, at - 1);
                    let sub = inner.preorder()[at - 1];
                    assert(self.preorder()[at] == sub);
                    assert(self.node_ids(first)[at] == inner.node_ids(first)[at - 1]);
                    assert(self.preorder().subrange(at, at + sub.node_count())
                        =~= inner.preorder().subrange(at - 1, at - 1 + sub.node_count()));
                    assert(self.node_ids(first).subrange(at, at + sub.node_count())
                        =~= inner.node_ids(first).subrange(at - 1, at - 1 + sub.node_count()));
                },
                TypeTree::Tuple(members) => {
                    Self::lemma_node_at_among(members, members.len(), first, at - 1);
                    let rest = Self::preorder_among(members, members.len());
                    let rest_ids = Self::node_ids_among(members, members.len(), first);
                    let sub = rest[at - 1];
                    assert(self.preorder()[at] == sub);
                    assert(self.node_ids(first)[at] == rest_ids[at - 1]);
                    assert(self.preorder().subrange(at, at + sub.node_count()) =~= rest.subrange(
                        at - 1,
                        at - 1 + sub.node_count(),
                    ));
                    assert(self.node_ids(first).subrange(at, at + sub.node_count())
                        =~= rest_ids.subrange(at - 1, at - 1 + sub.node_count()));
                },
            }
        }
    }

    /// The same, of the node at place `at` among the nodes of the first `n`
    /// of `members`.
    pub proof fn lemma_node_at_among(
        members: Seq<(Seq<char>, TypeTree)>,
        n: nat,
        first: int,
        at: int,
    )
        requires
            n <= members.len(),
            0 <= at < Self::nodes_among(members, n),
        ensures
            Self::node_ids_among(members, n, first).len() == Self::nodes_among(members, n),
            Self::preorder_among(members, n).len() == Self::nodes_among(members, n),
            at + Self::preorder_among(members, n)[at].node_count() <= Self::nodes_among(members, n),
            first <= Self::node_ids_among(members, n, first)[at],
            Self::node_ids_among(members, n, first)[at] + Self::preorder_among(
                members,
                n,
            )[at].leaf_count() <= first + Self::leaves_among(members, n),
            Self::preorder_among(members, n).subrange(
                at,
                at + Self::preorder_among(members, n)[at].node_count(),
            ) == Self::preorder_among(members, n)[at].preorder(),
            Self::node_ids_among(members, n, first).subrange(
                at,
                at + Self::preorder_among(members, n)[at].node_count(),
            ) == Self::preorder_among(members, n)[at].node_ids(
                Self::node_ids_among(members, n, first)[at],
            ),
        decreases members, n,
    {
        Self::lemma_counts_among(members, n, first);
        Self::lemma_counts_among(members, (n - 1) as nat, first);
        let head = Self::preorder_among(members, (n - 1) as nat);
        let head_ids = Self::node_ids_among(members, (n - 1) as nat, first);
        let last = members[n - 1].1;
        let last_first = first + Self::leaves_among(members, (n - 1) as nat);
        last.lemma_counts(last_first);
        if at < head.len() {
            Self::lemma_node_at_among(members, (n - 1) as nat, first, at);
            let sub = head[at];
            assert(Self::preorder_among(members, n)[at] == sub);
            assert(Self::preorder_among(members, n).subrange(at, at + sub.node_count())
                =~= head.subrange(at, at + sub.node_count()));
            assert(Self::node_ids_among(members, n, first).subrange(at, at + sub.node_count())
                =~= head_ids.subrange(at, at + sub.node_count()));
        } else {
            let inside = at - head.len();
            last.lemma_node_at(last_first, inside);
            let sub = last.preorder()[inside];
            assert(Self::preorder_among(members, n)[at] == sub);
            assert(Self::node_ids_among(members, n, first)[at] == last.node_ids(
                last_first,
            )[inside]);
            assert(Self::preorder_among(members, n).subrange(at, at + sub.node_count())
                =~= last.preorder().subrange(inside, inside + sub.node_count()));
            assert(Self::node_ids_among(members, n, first).subrange(at, at + sub.node_count())
                =~= last.node_ids(last_first).subrange(inside, inside + sub.node_count()));
        }
    }

    /// A node bears `first` and the number of leaves that are visited before
    /// it; a leaf thus takes the next free identifier, and a node with
    /// children the one that the first leaf below it takes.
    pub proof fn lemma_id_counts_leaves(self, first: int, at: int)
        requires
            0 <= at < self.node_count(),
        ensures
            self.node_ids(first).len() == self.node_count(),
            self.preorder().len() == self.node_count(),
            self.node_ids(first)[at] == first + leaves_ahead(self.preorder(), at),
            leaves_ahead(self.preorder(), self.node_count() as int) == self.leaf_count(),
        decreases self, 0nat,
    {
        self.lemma_counts(first);
        let root = seq![self];
        match self {
            TypeTree::Boolean | TypeTree::String | TypeTree::Number(_) => {
                assert(leaves_ahead(self.preorder(), 0) == 0);
            },
            TypeTree::Nullable(inner) | TypeTree::Array(inner) | TypeTree::Mapping(inner) => {
                inner.lemma_counts(first);
                inner.lemma_id_counts_leaves(first, 0);
                assert(leaves_ahead(root, 1) == leaves_ahead(root, 0));
                lemma_leaves_ahead_joined(root, inner.preorder(), self.node_count() as int);
                if at > 0 {
                    inner.lemma_id_counts_leaves(first, at - 1);
                    lemma_leaves_ahead_joined(root, inner.preorder(), at);
                }
            },
            TypeTree::Tuple(members) => {
                let rest = Self::preorder_among(members, members.len());
                Self::lemma_counts_among(members, members.len(), first);
                Self::lemma_id_counts_leaves_among(members, members.len(), first, 0);
                assert(leaves_ahead(root, 1) == leaves_ahead(root, 0));
                lemma_leaves_ahead_joined(root, rest, self.node_count() as int);
                if at > 0 {
                    Self::lemma_id_counts_leaves_among(members, members.len(), first, at - 1);
                    lemma_leaves_ahead_joined(root, rest, at);
                }
            },
        }
    }

    /// The same, of the node at place `at` among the nodes of the first `n`
    /// of `members`; `at` may also be the place behind the last node.
    pub proof fn lemma_id_counts_leaves_among(
        members: Seq<(Seq<char>, TypeTree)>,
        n: nat,
        first: int,
        at: int,
    )
        requires
            n <= members.len(),
            0 <= at <= Self::nodes_among(members, n),
        ensures
            Self::node_ids_among(members, n, first).len() == Self::nodes_among(members, n),
            Self::preorder_among(members, n).len() == Self::nodes_among(members, n),
            at < Self::nodes_among(members, n) ==> Self::node_ids_among(members, n, first)[at]
                == first + leaves_ahead(Self::preorder_among(members, n), at),
            leaves_ahead(Self::preorder_among(members, n), Self::nodes_among(members, n) as int)
                == Self::leaves_among(members, n),
        decreases members, n,
    {
        Self::lemma_counts_among(members, n, first);
        if n > 0 {
            Self::lemma_counts_among(members, (n - 1) as nat, first);
            let head = Self::preorder_among(members, (n - 1) as nat);
            let last = members[n - 1].1;
            let last_first = first + Self::leaves_among(members, (n - 1) as nat);
            last.lemma_counts(last_first);
            Self::lemma_id_counts_leaves_among(members, (n - 1) as nat, first, 0);
            last.lemma_id_counts_leaves(last_first, 0);
            lemma_leaves_ahead_joined(head, last.preorder(), Self::nodes_among(members, n) as int);
            if at < head.len() {
                Self::lemma_id_counts_leaves_among(members, (n - 1) as nat, first, at);
                lemma_leaves_ahead_joined(head, last.preorder(), at);
            } else if at < Self::nodes_among(members, n) {
                last.lemma_id_counts_leaves(last_first, at - head.len());
                lemma_leaves_ahead_joined(head, last.preorder(), at);
            }
        } else {
            assert(leaves_ahead(Self::preorder_among(members, n), 0) == 0);
        }
    }

    /// The node at which a path ends stands in visiting order at the place
    /// that `position_of` gives, and bears `first` and the number of leaves
    /// that `leaves_before` gives.
    pub proof fn lemma_path_position(self, first: int, path: Seq<FieldIndex>)
        requires
            self.has_path(path),
        ensures
            self.position_of(path) < self.node_count(),
            self.node_ids(first).len() == self.node_count(),
            self.preorder().len() == self.node_count(),
            self.preorder()[self.position_of(path) as int] == self.descend(path),
            self.node_ids(first)[self.position_of(path) as int] == first + self.leaves_before(path),
        decreases path.len(),
    {
        self.lemma_counts(first);
        if path.len() > 0 {
            let i = path[0] as int;
            let child = self.child(i);
            let rest = path.skip(1);
            let child_first = first + self.leaves_before_child(i);
            child.lemma_path_position(child_first, rest);
            self.lemma_child_within(i);
            self.lemma_child_position(first, i);
            let start = self.nodes_before_child(i) as int;
            let inside = child.position_of(rest) as int;
            assert(self.preorder().subrange(start, start + child.node_count())[inside]
                == self.preorder()[start + inside]);
            assert(self.node_ids(first).subrange(start, start + child.node_count())[inside]
                == self.node_ids(first)[start + inside]);
        }
    }

    /// The nodes of a child stand in visiting order from the place that
    /// `nodes_before_child` gives, and bear the identifiers that the child
    /// gets when its leaves are numbered behind those visited before it.
    pub proof fn lemma_child_position(self, first: int, i: int)
        requires
            0 <= i < self.child_count(),
        ensures
            self.nodes_before_child(i) + self.child(i).node_count() <= self.node_count(),
            self.node_ids(first).len() == self.node_count(),
            self.preorder().len() == self.node_count(),
            self.preorder().subrange(
                self.nodes_before_child(i) as int,
                (self.nodes_before_child(i) + self.child(i).node_count()) as int,
            ) == self.child(i).preorder(),
            self.node_ids(first).subrange(
                self.nodes_before_child(i) as int,
                (self.nodes_before_child(i) + self.child(i).node_count()) as int,
            ) == self.child(i).node_ids(first + self.leaves_before_child(i)),
    {
        self.lemma_counts(first);
        self.lemma_child_within(i);
        let child = self.child(i);
        child.lemma_counts(first + self.leaves_before_child(i));
        match self {
            TypeTree::Nullable(inner) | TypeTree::Array(inner) | TypeTree::Mapping(inner) => {
                assert(self.preorder().subrange(1, (1 + child.node_count()) as int) =~= child.preorder());
                assert(self.node_ids(first).subrange(1, (1 + child.node_count()) as int) =~= child.node_ids(
                    first,
                ));
            },
            TypeTree::Tuple(members) => {
                Self::lemma_member_position(members, members.len(), first, i);
                let start = Self::nodes_among(members, i as nat) as int;
                let rest = Self::preorder_among(members, members.len());
                let rest_ids = Self::node_ids_among(members, members.len(), first);
                assert(self.preorder().subrange(1 + start, 1 + start + child.node_count())
                    =~= rest.subrange(start, start + child.node_count()));
                assert(self.node_ids(first).subrange(1 + start, 1 + start + child.node_count())
                    =~= rest_ids.subrange(start, start + child.node_count()));
            },
            _ => {},
        }
    }

    /// The same, of the member at position `i` among the first `n` of `members`.
    pub proof fn lemma_member_position(
        members: Seq<(Seq<char>, TypeTree)>,
        n: nat,
        first: int,
        i: int,
    )
        requires
            0 <= i < n <= members.len(),
        ensures
            Self::nodes_among(members, i as nat) + members[i].1.node_count() <= Self::nodes_among(
                members,
                n,
            ),
            Self::preorder_among(members, n).len() == Self::nodes_among(members, n),
            Self::node_ids_among(members, n, first).len() == Self::nodes_among(members, n),
            Self::preorder_among(members, n).subrange(
                Self::nodes_among(members, i as nat) as int,
                (Self::nodes_among(members, i as nat) + members[i].1.node_count()) as int,
            ) == members[i].1.preorder(),
            Self::node_ids_among(members, n, first).subrange(
                Self::nodes_among(members, i as nat) as int,
                (Self::nodes_among(members, i as nat) + members[i].1.node_count()) as int,
            ) == members[i].1.node_ids(first + Self::leaves_among(members, i as nat)),
        decreases n,
    {
        Self::lemma_counts_among(members, n, first);
        Self::lemma_counts_among(members, (n - 1) as nat, first);
        let member = members[i].1;
        let start = Self::nodes_among(members, i as nat) as int;
        let head = Self::preorder_among(members, (n - 1) as nat);
        let head_ids = Self::node_ids_among(members, (n - 1) as nat, first);
        let last = members[n - 1].1;
        let last_first = first + Self::leaves_among(members, (n - 1) as nat);
        last.lemma_counts(last_first);
        if i < n - 1 {
            Self::lemma_member_position(members, (n - 1) as nat, first, i);
            assert(Self::preorder_among(members, n).subrange(start, start + member.node_count())
                =~= head.subrange(start, start + member.node_count()));
            assert(Self::node_ids_among(members, n, first).subrange(
                start,
                start + member.node_count(),
            ) =~= head_ids.subrange(start, start + member.node_count()));
        } else {
            assert(Self::preorder_among(members, n).subrange(start, start + member.node_count())
                =~= last.preorder());
            assert(Self::node_ids_among(members, n, first).subrange(
                start,
                start + member.node_count(),
            ) =~= last.node_ids(last_first));
        }
    }

    /// A pruned type that is covered has no more leaves than the type that
    /// covers it.
    pub proof fn lemma_covered_is_smaller(self, pruned: TypeTree)
        requires
            self.covers(pruned),
        ensures
            pruned.leaf_count() <= self.leaf_count(),
        decreases self,
    {
        match (self, pruned) {
            (TypeTree::Nullable(a), TypeTree::Nullable(b)) => a.lemma_covered_is_smaller(*b),
            (TypeTree::Array(a), TypeTree::Array(b)) => a.lemma_covered_is_smaller(*b),
            (TypeTree::Mapping(a), TypeTree::Mapping(b)) => a.lemma_covered_is_smaller(*b),
            (TypeTree::Tuple(members), TypeTree::Tuple(kept)) => {
                if kept.len() > 0 {
                    let last = (kept.len() - 1) as nat;
                    Self::lemma_same_members_same_leaves(members, kept, last);
                    members[last as int].1.lemma_covered_is_smaller(kept[last as int].1);
                    Self::lemma_leaves_among_grows(members, kept.len(), members.len());
                    assert(Self::leaves_among(kept, kept.len()) == Self::leaves_among(kept, last)
                        + kept[last as int].1.leaf_count());
                    assert(Self::leaves_among(members, kept.len()) == Self::leaves_among(
                        members,
                        last,
                    ) + members[last as int].1.leaf_count());
                } else {
                    assert(Self::leaves_among(kept, 0) == 0);
                }
            },
            _ => {},
        }
    }

    /// Two lists of members that agree in the types of their first `n`
    /// members have as many leaves there.
    pub proof fn lemma_same_members_same_leaves(
        a: Seq<(Seq<char>, TypeTree)>,
        b: Seq<(Seq<char>, TypeTree)>,
        n: nat,
    )
        requires
            n <= a.len(),
            n <= b.len(),
            forall|i: int| 0 <= i < n ==> (#[trigger] b[i]).1 == a[i].1,
        ensures
            Self::leaves_among(a, n) == Self::leaves_among(b, n),
            Self::nodes_among(a, n) == Self::nodes_among(b, n),
        decreases n,
    {
        if n > 0 {
            Self::lemma_same_members_same_leaves(a, b, (n - 1) as nat);
            assert(b[n - 1].1 == a[n - 1].1);
        }
    }
}

} // verus!
