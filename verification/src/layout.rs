//! How a tree lies in the slot table.
//!
//! A handle and the slots it leads to represent a tree when following the
//! child handles from it spells out exactly that tree, and no slot is
//! reached twice.  The functions on handles are proved against the functions
//! on trees through this relation, and the lemmas here say when a change to
//! the table leaves a representation alone.

use crate::arena::{DirectVecIndex, Node, NodePtr};
use crate::tree::Tree;
use vstd::prelude::*;

verus! {

/// The node that a handle names in the slots, if it names one.
pub open spec fn node_at<K, P, V>(slots: Seq<Option<Node<K, P, V>>>, h: NodePtr) -> Option<
    Node<K, P, V>,
> {
    match h {
        Some(i) => if i < slots.len() {
            slots[i as int]
        } else {
            None
        },
        None => None,
    }
}

/// The positions of the slots that hold the nodes of `t` when it is laid
/// out from the handle `h`.
pub open spec fn ids<K: PartialOrd, P: PartialOrd, V>(
    slots: Seq<Option<Node<K, P, V>>>,
    h: NodePtr,
    t: Tree<K, P, V>,
) -> Set<usize>
    decreases t,
{
    match (t, node_at(slots, h)) {
        (Tree::Node { left, right, .. }, Some(n)) => ids(slots, n.left, *left).union(
            ids(slots, n.right, *right),
        ).insert(h.unwrap()),
        _ => Set::empty(),
    }
}

/// The handle `h` leads to the tree `t`: node for node the slots hold its
/// entries, the child handles lead to its subtrees, and every node has a
/// slot of its own.
pub open spec fn repr<K: PartialOrd, P: PartialOrd, V>(
    slots: Seq<Option<Node<K, P, V>>>,
    h: NodePtr,
    t: Tree<K, P, V>,
) -> bool
    decreases t,
{
    match t {
        Tree::Leaf => h is None,
        Tree::Node { left, key, priority, value, right } => match node_at(slots, h) {
            None => false,
            Some(n) => {
                &&& n.key == key
                &&& n.priority == priority
                &&& n.value == value
                &&& repr(slots, n.left, *left)
                &&& repr(slots, n.right, *right)
                &&& !ids(slots, n.left, *left).contains(h.unwrap())
                &&& !ids(slots, n.right, *right).contains(h.unwrap())
                &&& ids(slots, n.left, *left).disjoint(ids(slots, n.right, *right))
            },
        },
    }
}

/// From `before` to `after` no slot was added, and the slots outside
/// `touched` hold what they held.
pub open spec fn same_outside<K, P, V>(
    before: Seq<Option<Node<K, P, V>>>,
    after: Seq<Option<Node<K, P, V>>>,
    touched: Set<usize>,
) -> bool {
    &&& after.len() == before.len()
    &&& forall|i: int|
        0 <= i < before.len() && !touched.contains(i as usize) ==> #[trigger] after[i]
            == before[i]
}

/// From `before` to `after` no slot was added, filled or emptied, and the
/// slots outside `touched` hold what they held.
pub open spec fn modifies<K, P, V>(
    before: Seq<Option<Node<K, P, V>>>,
    after: Seq<Option<Node<K, P, V>>>,
    touched: Set<usize>,
) -> bool {
    &&& same_outside(before, after, touched)
    &&& forall|i: int|
        0 <= i < before.len() ==> ((#[trigger] after[i]) is Some <==> before[i] is Some)
}

/// The slots of a represented tree are occupied, and there is one for each
/// entry.
pub proof fn lemma_ids<K: PartialOrd, P: PartialOrd, V>(
    slots: Seq<Option<Node<K, P, V>>>,
    h: NodePtr,
    t: Tree<K, P, V>,
)
    requires
        repr(slots, h, t),
    ensures
        forall|i: usize| #[trigger]
            ids(slots, h, t).contains(i) ==> i < slots.len() && slots[i as int] is Some,
        ids(slots, h, t).finite(),
        ids(slots, h, t).len() == t.size(),
    decreases t,
{
    match t {
        Tree::Leaf => {},
        Tree::Node { left, right, .. } => {
            let n = node_at(slots, h).unwrap();
            lemma_ids(slots, n.left, *left);
            lemma_ids(slots, n.right, *right);
            let l = ids(slots, n.left, *left);
            let r = ids(slots, n.right, *right);
            vstd::set_lib::lemma_set_disjoint_lens(l, r);
        },
    }
}

/// A representation does not depend on slots outside it.
pub proof fn lemma_frame<K: PartialOrd, P: PartialOrd, V>(
    before: Seq<Option<Node<K, P, V>>>,
    after: Seq<Option<Node<K, P, V>>>,
    h: NodePtr,
    t: Tree<K, P, V>,
)
    requires
        repr(before, h, t),
        forall|i: usize| #[trigger]
            ids(before, h, t).contains(i) ==> i < after.len() && after[i as int]
                == before[i as int],
    ensures
        repr(after, h, t),
        ids(after, h, t) == ids(before, h, t),
    decreases t,
{
    match t {
        Tree::Leaf => {},
        Tree::Node { left, right, .. } => {
            let n = node_at(before, h).unwrap();
            assert(ids(before, h, t).contains(h.unwrap()));
            assert forall|i: usize| #[trigger]
                ids(before, n.left, *left).contains(i) implies i < after.len() && after[i as int]
                == before[i as int] by {
                assert(ids(before, h, t).contains(i));
            }
            assert forall|i: usize| #[trigger]
                ids(before, n.right, *right).contains(i) implies i < after.len()
                && after[i as int] == before[i as int] by {
                assert(ids(before, h, t).contains(i));
            }
            lemma_frame(before, after, n.left, *left);
            lemma_frame(before, after, n.right, *right);
        },
    }
}

/// A representation is untouched by a change to other slots.
pub proof fn lemma_untouched<K: PartialOrd, P: PartialOrd, V>(
    before: Seq<Option<Node<K, P, V>>>,
    after: Seq<Option<Node<K, P, V>>>,
    touched: Set<usize>,
    h: NodePtr,
    t: Tree<K, P, V>,
)
    requires
        repr(before, h, t),
        same_outside(before, after, touched),
        ids(before, h, t).disjoint(touched),
    ensures
        repr(after, h, t),
        ids(after, h, t) == ids(before, h, t),
{
    lemma_ids(before, h, t);
    lemma_frame(before, after, h, t);
}

/// A node without children is the tree of its one entry.
pub proof fn lemma_single<K: PartialOrd, P: PartialOrd, V>(
    slots: Seq<Option<Node<K, P, V>>>,
    h: NodePtr,
)
    requires
        node_at(slots, h) matches Some(n) && n.left is None && n.right is None,
    ensures
        ({
            let n = node_at(slots, h).unwrap();
            let t = Tree::single(n.key, n.priority, n.value);
            repr(slots, h, t) && ids(slots, h, t) == set![h.unwrap()]
        }),
{
    let n = node_at(slots, h).unwrap();
    let t = Tree::single(n.key, n.priority, n.value);
    let leaf = Tree::<K, P, V>::Leaf;
    assert(repr(slots, None, leaf));
    assert(ids(slots, None, leaf) =~= Set::empty());
    assert(ids(slots, h, t) =~= set![h.unwrap()]);
}

/// When the slots below the left child of a node come to hold another tree
/// in the same places, the node holds the tree with that left subtree.
pub proof fn lemma_left_replaced<K: PartialOrd, P: PartialOrd, V>(
    before: Seq<Option<Node<K, P, V>>>,
    after: Seq<Option<Node<K, P, V>>>,
    h: NodePtr,
    t: Tree<K, P, V>,
    u: Tree<K, P, V>,
)
    requires
        repr(before, h, t),
        t is Node,
        repr(after, node_at(before, h).unwrap().left, u),
        ids(after, node_at(before, h).unwrap().left, u) == ids(
            before,
            node_at(before, h).unwrap().left,
            *t->left,
        ),
        modifies(before, after, ids(before, node_at(before, h).unwrap().left, *t->left)),
    ensures
        repr(
            after,
            h,
            Tree::Node {
                left: Box::new(u),
                key: t->key,
                priority: t->priority,
                value: t->value,
                right: t->right,
            },
        ),
        ids(
            after,
            h,
            Tree::Node {
                left: Box::new(u),
                key: t->key,
                priority: t->priority,
                value: t->value,
                right: t->right,
            },
        ) == ids(before, h, t),
        modifies(before, after, ids(before, h, t)),
{
    let n = node_at(before, h).unwrap();
    lemma_ids(before, n.left, *t->left);
    lemma_untouched(before, after, ids(before, n.left, *t->left), n.right, *t->right);
}

/// When the slots below the right child of a node come to hold another tree
/// in the same places, the node holds the tree with that right subtree.
pub proof fn lemma_right_replaced<K: PartialOrd, P: PartialOrd, V>(
    before: Seq<Option<Node<K, P, V>>>,
    after: Seq<Option<Node<K, P, V>>>,
    h: NodePtr,
    t: Tree<K, P, V>,
    u: Tree<K, P, V>,
)
    requires
        repr(before, h, t),
        t is Node,
        repr(after, node_at(before, h).unwrap().right, u),
        ids(after, node_at(before, h).unwrap().right, u) == ids(
            before,
            node_at(before, h).unwrap().right,
            *t->right,
        ),
        modifies(before, after, ids(before, node_at(before, h).unwrap().right, *t->right)),
    ensures
        repr(
            after,
            h,
            Tree::Node {
                left: t->left,
                key: t->key,
                priority: t->priority,
                value: t->value,
                right: Box::new(u),
            },
        ),
        ids(
            after,
            h,
            Tree::Node {
                left: t->left,
                key: t->key,
                priority: t->priority,
                value: t->value,
                right: Box::new(u),
            },
        ) == ids(before, h, t),
        modifies(before, after, ids(before, h, t)),
{
    let n = node_at(before, h).unwrap();
    lemma_ids(before, n.right, *t->right);
    lemma_untouched(before, after, ids(before, n.right, *t->right), n.left, *t->left);
}

/// When the value in the slot of a node changes, the node holds the tree
/// with that value at its root.
pub proof fn lemma_value_replaced<K: PartialOrd, P: PartialOrd, V>(
    before: Seq<Option<Node<K, P, V>>>,
    h: NodePtr,
    t: Tree<K, P, V>,
    m: Node<K, P, V>,
)
    requires
        repr(before, h, t),
        t is Node,
        m.key == t->key,
        m.priority == t->priority,
        m.left == node_at(before, h).unwrap().left,
        m.right == node_at(before, h).unwrap().right,
    ensures
        ({
            let after = before.update(h.unwrap() as int, Some(m));
            let u = Tree::Node {
                left: t->left,
                key: t->key,
                priority: t->priority,
                value: m.value,
                right: t->right,
            };
            &&& repr(after, h, u)
            &&& ids(after, h, u) == ids(before, h, t)
            &&& modifies(before, after, ids(before, h, t))
        }),
{
    let n = node_at(before, h).unwrap();
    let after = before.update(h.unwrap() as int, Some(m));
    lemma_ids(before, n.left, *t->left);
    lemma_ids(before, n.right, *t->right);
    lemma_untouched(before, after, set![h.unwrap()], n.left, *t->left);
    lemma_untouched(before, after, set![h.unwrap()], n.right, *t->right);
}

/// A tree of at most one entry lies in at most one slot: in none when the
/// handle is `None`, else in the slot of the handle, whose node has no
/// children.
pub proof fn lemma_entry<K: PartialOrd, P: PartialOrd, V>(
    slots: Seq<Option<Node<K, P, V>>>,
    h: NodePtr,
    t: Tree<K, P, V>,
)
    requires
        repr(slots, h, t),
        t is Node ==> *t->left is Leaf && *t->right is Leaf,
    ensures
        h is None <==> t is Leaf,
        t is Leaf ==> ids(slots, h, t) == Set::<usize>::empty(),
        t is Node ==> ids(slots, h, t) == set![h.unwrap()] && h.unwrap() < slots.len()
            && slots[h.unwrap() as int] == Some(
            Node { key: t->key, priority: t->priority, value: t->value, left: None, right: None },
        ),
{
    if t is Node {
        let n = node_at(slots, h).unwrap();
        assert(repr(slots, n.left, *t->left));
        assert(repr(slots, n.right, *t->right));
        lemma_single(slots, h);
    }
}

/// A representation stays when a slot outside it is emptied.
pub proof fn lemma_slot_emptied<K: PartialOrd, P: PartialOrd, V>(
    before: Seq<Option<Node<K, P, V>>>,
    e: usize,
    h: NodePtr,
    t: Tree<K, P, V>,
)
    requires
        repr(before, h, t),
        e < before.len(),
        !ids(before, h, t).contains(e),
    ensures
        repr(before.update(e as int, None), h, t),
        ids(before.update(e as int, None), h, t) == ids(before, h, t),
{
    lemma_ids(before, h, t);
    lemma_frame(before, before.update(e as int, None), h, t);
}

/// A representation stays when an empty slot is filled or a slot is added,
/// and that slot is none of its own.
pub proof fn lemma_slot_filled<K: PartialOrd, P: PartialOrd, V>(
    before: Seq<Option<Node<K, P, V>>>,
    after: Seq<Option<Node<K, P, V>>>,
    id: usize,
    node: Node<K, P, V>,
    h: NodePtr,
    t: Tree<K, P, V>,
)
    requires
        repr(before, h, t),
        !(id < before.len() && before[id as int] is Some),
        (id < before.len() && after == before.update(id as int, Some(node))) || after
            == before.push(Some(node)),
    ensures
        repr(after, h, t),
        ids(after, h, t) == ids(before, h, t),
        !ids(before, h, t).contains(id),
{
    lemma_ids(before, h, t);
    lemma_frame(before, after, h, t);
}

/// A table stays well formed, with the same slots occupied, under a change
/// that fills and empties none.
pub proof fn lemma_modifies_wf<K, P, V>(
    before: DirectVecIndex<K, P, V>,
    after: DirectVecIndex<K, P, V>,
    touched: Set<usize>,
)
    requires
        before.wf(),
        after.free() == before.free(),
        modifies(before@, after@, touched),
    ensures
        after.wf(),
        after.live() == before.live(),
{
    assert forall|j: int| 0 <= j < after@.len() && (#[trigger] after@[j]) is None implies after
        .free().contains(j as usize) by {
        assert(before@[j] is None);
    }
    assert(after.live() =~= before.live());
}

/// A handle leads to at most one tree.
pub proof fn lemma_unique<K: PartialOrd, P: PartialOrd, V>(
    slots: Seq<Option<Node<K, P, V>>>,
    h: NodePtr,
    t: Tree<K, P, V>,
    u: Tree<K, P, V>,
)
    requires
        repr(slots, h, t),
        repr(slots, h, u),
    ensures
        t == u,
    decreases t,
{
    match t {
        Tree::Leaf => {},
        Tree::Node { left, right, .. } => {
            let n = node_at(slots, h).unwrap();
            lemma_unique(slots, n.left, *left, *u->left);
            lemma_unique(slots, n.right, *right, *u->right);
        },
    }
}

} // verus!
