//! The mathematical tree that a container stands for.
//!
//! A [`Tree`] is never built at run time.  It is the value that contracts
//! speak of: every operation of the container is specified by a function on
//! trees, and the facts that make the container useful (keys stay ordered,
//! priorities stay heaped, the entries are those of a map) are proved here
//! once, of those functions.

use crate::order::{
    le, lemma_le_transitive, lemma_lt_transitive, lemma_trichotomy, lt, total_order,
};
use vstd::prelude::*;

verus! {

/// A binary tree of entries.
pub enum Tree<K, P, V> {
    Leaf,
    Node { left: Box<Tree<K, P, V>>, key: K, priority: P, value: V, right: Box<Tree<K, P, V>> },
}

impl<K: PartialOrd, P: PartialOrd, V> Tree<K, P, V> {
    /// The tree of one entry.
    pub open spec fn single(key: K, priority: P, value: V) -> Self {
        Tree::Node { left: Box::new(Tree::Leaf), key, priority, value, right: Box::new(Tree::Leaf) }
    }

    /// The number of entries.
    pub open spec fn size(self) -> nat
        decreases self,
    {
        match self {
            Tree::Leaf => 0,
            Tree::Node { left, right, .. } => 1 + left.size() + right.size(),
        }
    }

    /// The number of entries on the longest way down from the root.
    pub open spec fn height(self) -> nat
        decreases self,
    {
        match self {
            Tree::Leaf => 0,
            Tree::Node { left, right, .. } => 1 + if left.height() >= right.height() {
                left.height()
            } else {
                right.height()
            },
        }
    }

    /// The entries as a map from key to priority and value.
    pub open spec fn as_map(self) -> Map<K, (P, V)>
        decreases self,
    {
        match self {
            Tree::Leaf => Map::empty(),
            Tree::Node { left, key, priority, value, right } => left.as_map().union_prefer_right(
                right.as_map(),
            ).insert(key, (priority, value)),
        }
    }

    /// The priorities that occur in the tree.
    pub open spec fn priorities(self) -> Set<P>
        decreases self,
    {
        match self {
            Tree::Leaf => Set::empty(),
            Tree::Node { left, priority, right, .. } => left.priorities().union(
                right.priorities(),
            ).insert(priority),
        }
    }

    /// Whether some entry has this key.
    #[verifier::inline]
    pub open spec fn has(self, key: K) -> bool {
        self.as_map().contains_key(key)
    }

    /// The entries from left to right.
    pub open spec fn in_order(self) -> Seq<(K, P, V)>
        decreases self,
    {
        match self {
            Tree::Leaf => Seq::empty(),
            Tree::Node { left, key, priority, value, right } => left.in_order().push(
                (key, priority, value),
            ) + right.in_order(),
        }
    }

    /// At every node the keys to the left are below the node's key and the
    /// keys to the right are above it.
    pub open spec fn is_bst(self) -> bool
        decreases self,
    {
        match self {
            Tree::Leaf => true,
            Tree::Node { left, key, right, .. } => {
                &&& left.is_bst()
                &&& right.is_bst()
                &&& forall|x: K| #[trigger] left.has(x) ==> lt(x, key)
                &&& forall|x: K| #[trigger] right.has(x) ==> lt(key, x)
            },
        }
    }

    /// The root, if there is one, has a priority of at most `bound`.
    pub open spec fn root_le(self, bound: P) -> bool {
        match self {
            Tree::Leaf => true,
            Tree::Node { priority, .. } => le(priority, bound),
        }
    }

    /// At every node the priority is at least that of either child.
    pub open spec fn is_heap(self) -> bool
        decreases self,
    {
        match self {
            Tree::Leaf => true,
            Tree::Node { left, priority, right, .. } => {
                &&& left.is_heap()
                &&& right.is_heap()
                &&& left.root_le(priority)
                &&& right.root_le(priority)
            },
        }
    }

    /// Ordered by key from left to right and by priority from the root down.
    pub open spec fn is_treap(self) -> bool {
        self.is_bst() && self.is_heap()
    }

    /// Every key of `self` is below every key of `other`.
    pub open spec fn all_below(self, other: Self) -> bool {
        forall|x: K, y: K| #[trigger] self.has(x) && #[trigger] other.has(y) ==> lt(x, y)
    }

    /// The part of the tree whose keys are below `key`, in the shape that
    /// splitting leaves it in.
    pub open spec fn split_lt(self, key: K) -> Self
        decreases self,
    {
        match self {
            Tree::Leaf => Tree::Leaf,
            Tree::Node { left, key: k, priority, value, right } => if k == key {
                *left
            } else if lt(key, k) {
                left.split_lt(key)
            } else {
                Tree::Node { left, key: k, priority, value, right: Box::new(right.split_lt(key)) }
            },
        }
    }

    /// The part of the tree whose keys are above `key`, in the shape that
    /// splitting leaves it in.
    pub open spec fn split_gt(self, key: K) -> Self
        decreases self,
    {
        match self {
            Tree::Leaf => Tree::Leaf,
            Tree::Node { left, key: k, priority, value, right } => if k == key {
                *right
            } else if lt(key, k) {
                Tree::Node { left: Box::new(left.split_gt(key)), key: k, priority, value, right }
            } else {
                right.split_gt(key)
            },
        }
    }

    /// The priority and value stored under `key`, found by descending from
    /// the root.
    pub open spec fn find(self, key: K) -> Option<(P, V)>
        decreases self,
    {
        match self {
            Tree::Leaf => None,
            Tree::Node { left, key: k, priority, value, right } => if k == key {
                Some((priority, value))
            } else if lt(key, k) {
                left.find(key)
            } else {
                right.find(key)
            },
        }
    }

    /// The entry of `key`, if there is one, as a tree of its own.
    pub open spec fn only(self, key: K) -> Self {
        match self.find(key) {
            Some((priority, value)) => Self::single(key, priority, value),
            None => Tree::Leaf,
        }
    }

    /// The two trees joined into one.  Of the two roots the one with the
    /// strictly greater priority becomes the root; when neither is greater,
    /// the root of `other` does.
    pub open spec fn merge(self, other: Self) -> Self
        decreases self, other,
    {
        match (self, other) {
            (Tree::Leaf, _) => other,
            (_, Tree::Leaf) => self,
            (
                Tree::Node { left: ll, key: lk, priority: lp, value: lv, right: lr },
                Tree::Node { left: rl, key: rk, priority: rp, value: rv, right: rr },
            ) => if lt(rp, lp) {
                Tree::Node {
                    left: ll,
                    key: lk,
                    priority: lp,
                    value: lv,
                    right: Box::new(lr.merge(other)),
                }
            } else {
                Tree::Node {
                    left: Box::new(self.merge(*rl)),
                    key: rk,
                    priority: rp,
                    value: rv,
                    right: rr,
                }
            },
        }
    }

    /// The tree after `key` was given this priority and value.
    pub open spec fn insert(self, key: K, priority: P, value: V) -> Self {
        self.split_lt(key).merge(Self::single(key, priority, value)).merge(self.split_gt(key))
    }

    /// The tree after the entry of `key`, if any, was taken out.
    pub open spec fn remove(self, key: K) -> Self {
        self.split_lt(key).merge(self.split_gt(key))
    }

    /// The tree after the entry of `key`, if any, was given a new priority.
    pub open spec fn prioritize(self, key: K, priority: P) -> Self {
        match self.find(key) {
            Some((_, value)) => self.insert(key, priority, value),
            None => self.remove(key),
        }
    }

    /// The tree after its root was taken out.
    pub open spec fn pop(self) -> Self {
        match self {
            Tree::Leaf => Tree::Leaf,
            Tree::Node { left, right, .. } => left.merge(*right),
        }
    }

    /// The entries in the order in which taking the root out again and again
    /// hands them over.
    pub open spec fn pops(self) -> Seq<(K, P, V)>
        decreases self.size(),
    {
        match self {
            Tree::Leaf => Seq::empty(),
            Tree::Node { left, key, priority, value, right } => {
                proof {
                    left.lemma_merge_size(*right);
                }
                seq![(key, priority, value)] + self.pop().pops()
            },
        }
    }

    /// The tree without the subtrees whose root has a priority below
    /// `threshold`.
    pub open spec fn cut(self, threshold: P) -> Self
        decreases self,
    {
        match self {
            Tree::Leaf => Tree::Leaf,
            Tree::Node { left, key, priority, value, right } => if lt(priority, threshold) {
                Tree::Leaf
            } else {
                Tree::Node {
                    left: Box::new(left.cut(threshold)),
                    key,
                    priority,
                    value,
                    right: Box::new(right.cut(threshold)),
                }
            },
        }
    }

    /// The tree with the value under `key`, if any, replaced.
    pub open spec fn with_value(self, key: K, new_value: V) -> Self
        decreases self,
    {
        match self {
            Tree::Leaf => Tree::Leaf,
            Tree::Node { left, key: k, priority, value, right } => if k == key {
                Tree::Node { left, key: k, priority, value: new_value, right }
            } else if lt(key, k) {
                Tree::Node {
                    left: Box::new(left.with_value(key, new_value)),
                    key: k,
                    priority,
                    value,
                    right,
                }
            } else {
                Tree::Node {
                    left,
                    key: k,
                    priority,
                    value,
                    right: Box::new(right.with_value(key, new_value)),
                }
            },
        }
    }

    /// The entries of a node are its own and those of its two subtrees, and
    /// in an ordered tree no key occurs in two of the three.
    pub proof fn lemma_node_map(self)
        requires
            total_order::<K>(),
            self is Node,
            self.is_bst(),
        ensures
            forall|x: K| #[trigger]
                self.has(x) <==> x == self->key || self->left.has(x) || self->right.has(x),
            forall|x: K| #[trigger]
                self->left.has(x) ==> self.has(x) && x != self->key && !self->right.has(x)
                    && self.as_map()[x] == self->left.as_map()[x],
            forall|x: K| #[trigger]
                self->right.has(x) ==> self.has(x) && x != self->key && !self->left.has(x)
                    && self.as_map()[x] == self->right.as_map()[x],
            self.has(self->key),
            self.as_map()[self->key] == (self->priority, self->value),
            !self->left.has(self->key),
            !self->right.has(self->key),
    {
        let key = self->key;
        assert forall|x: K| #[trigger] self->left.has(x) implies x != key && !self->right.has(
            x,
        ) by {
            lemma_trichotomy(x, key);
        }
        assert forall|x: K| #[trigger] self->right.has(x) implies x != key && !self->left.has(
            x,
        ) by {
            lemma_trichotomy(x, key);
        }
    }

    /// The entries are finitely many, and in an ordered tree there is one
    /// for each key.
    pub proof fn lemma_size(self)
        requires
            total_order::<K>(),
            self.is_bst(),
        ensures
            self.as_map().dom().finite(),
            self.as_map().dom().len() == self.size(),
            self.in_order().len() == self.size(),
            self.height() <= self.size(),
        decreases self,
    {
        match self {
            Tree::Leaf => {},
            Tree::Node { left, key, priority, value, right } => {
                left.lemma_size();
                right.lemma_size();
                self.lemma_node_map();
                let l = left.as_map().dom();
                let r = right.as_map().dom();
                assert(l.disjoint(r));
                vstd::set_lib::lemma_set_disjoint_lens(l, r);
                assert(self.as_map().dom() =~= (l + r).insert(key));
            },
        }
    }

    /// A bound on the root stays one when it is raised.
    pub proof fn lemma_root_le(self, a: P, b: P)
        requires
            total_order::<P>(),
            self.root_le(a),
            le(a, b),
        ensures
            self.root_le(b),
    {
        if let Tree::Node { priority, .. } = self {
            lemma_le_transitive(priority, a, b);
        }
    }

    /// Splitting an ordered tree leaves two ordered trees: the entries with a
    /// key below the given one, and those with a key above it.  The entry of
    /// the key itself is the one that `find` gives.
    pub proof fn lemma_split(self, key: K)
        requires
            total_order::<K>(),
            self.is_bst(),
        ensures
            self.split_lt(key).is_bst(),
            self.split_gt(key).is_bst(),
            forall|x: K| #[trigger] self.split_lt(key).has(x) <==> self.has(x) && lt(x, key),
            forall|x: K| #[trigger] self.split_gt(key).has(x) <==> self.has(x) && lt(key, x),
            forall|x: K| #[trigger]
                self.split_lt(key).has(x) ==> self.split_lt(key).as_map()[x] == self.as_map()[x],
            forall|x: K| #[trigger]
                self.split_gt(key).has(x) ==> self.split_gt(key).as_map()[x] == self.as_map()[x],
            self.find(key) == if self.has(key) {
                Some(self.as_map()[key])
            } else {
                None
            },
        decreases self,
    {
        match self {
            Tree::Leaf => {},
            Tree::Node { left, key: k, priority, value, right } => {
                self.lemma_node_map();
                left.lemma_split(key);
                right.lemma_split(key);
                lemma_trichotomy(key, k);
                let lo = self.split_lt(key);
                let hi = self.split_gt(key);
                if k == key {
                    assert forall|x: K| #[trigger] self.has(x) && lt(x, key) implies lo.has(x) by {
                        lemma_trichotomy(x, key);
                    }
                    assert forall|x: K| #[trigger] self.has(x) && lt(key, x) implies hi.has(x) by {
                        lemma_trichotomy(x, key);
                    }
                } else if lt(key, k) {
                    assert(hi.is_bst());
                    hi.lemma_node_map();
                    assert forall|x: K| #[trigger] right.has(x) implies lt(key, x) by {
                        lemma_lt_transitive(key, k, x);
                    }
                    assert forall|x: K| #[trigger] self.has(x) && lt(key, x) implies hi.has(x) by {}
                    assert forall|x: K| #[trigger] self.has(x) && lt(x, key) implies lo.has(x) by {
                        lemma_trichotomy(x, key);
                        if right.has(x) {
                            lemma_lt_transitive(key, k, x);
                        }
                    }
                } else {
                    assert(lo.is_bst());
                    lo.lemma_node_map();
                    assert forall|x: K| #[trigger] left.has(x) implies lt(x, key) by {
                        lemma_lt_transitive(x, k, key);
                    }
                    assert forall|x: K| #[trigger] self.has(x) && lt(x, key) implies lo.has(x) by {}
                    assert forall|x: K| #[trigger] self.has(x) && lt(key, x) implies hi.has(x) by {
                        lemma_trichotomy(x, key);
                        if left.has(x) {
                            lemma_lt_transitive(x, k, key);
                        }
                    }
                }
            },
        }
    }

    /// Splitting a heap leaves two heaps whose roots are no higher than the
    /// root of the whole.
    pub proof fn lemma_split_heap(self, key: K)
        requires
            total_order::<P>(),
            self.is_heap(),
        ensures
            self.split_lt(key).is_heap(),
            self.split_gt(key).is_heap(),
            self is Node ==> self.split_lt(key).root_le(self->priority) && self.split_gt(
                key,
            ).root_le(self->priority),
        decreases self,
    {
        match self {
            Tree::Leaf => {},
            Tree::Node { left, key: k, priority, value, right } => {
                left.lemma_split_heap(key);
                right.lemma_split_heap(key);
                lemma_trichotomy(priority, priority);
                if let Tree::Node { priority: lp, .. } = *left {
                    left.split_lt(key).lemma_root_le(lp, priority);
                    left.split_gt(key).lemma_root_le(lp, priority);
                }
                if let Tree::Node { priority: rp, .. } = *right {
                    right.split_lt(key).lemma_root_le(rp, priority);
                    right.split_gt(key).lemma_root_le(rp, priority);
                }
            },
        }
    }

    /// The root of a merged tree is the root of one of the two.
    pub proof fn lemma_merge_root(self, other: Self, bound: P)
        requires
            self.root_le(bound),
            other.root_le(bound),
        ensures
            self.merge(other).root_le(bound),
    {
    }

    /// Merging two ordered trees, the first below the second, gives an
    /// ordered tree with the entries of both.
    pub proof fn lemma_merge(self, other: Self)
        requires
            total_order::<K>(),
            self.is_bst(),
            other.is_bst(),
            self.all_below(other),
        ensures
            self.merge(other).is_bst(),
            forall|x: K| #[trigger] self.merge(other).has(x) <==> self.has(x) || other.has(x),
            forall|x: K| #[trigger]
                self.has(x) ==> self.merge(other).as_map()[x] == self.as_map()[x],
            forall|x: K| #[trigger]
                other.has(x) ==> self.merge(other).as_map()[x] == other.as_map()[x],
        decreases self, other,
    {
        let m = self.merge(other);
        match (self, other) {
            (Tree::Leaf, _) => {},
            (_, Tree::Leaf) => {},
            (
                Tree::Node { left: ll, key: lk, priority: lp, value: lv, right: lr },
                Tree::Node { left: rl, key: rk, priority: rp, value: rv, right: rr },
            ) => {
                self.lemma_node_map();
                other.lemma_node_map();
                assert(self.has(lk));
                assert(other.has(rk));
                if lt(rp, lp) {
                    assert forall|x: K, y: K| #[trigger]
                        lr.has(x) && #[trigger] other.has(y) implies lt(x, y) by {
                        assert(self.has(x));
                    }
                    lr.lemma_merge(other);
                    assert forall|x: K| #[trigger] lr.merge(other).has(x) implies lt(lk, x) by {
                        if other.has(x) {
                            assert(self.has(lk) && other.has(x));
                        }
                    }
                    m.lemma_node_map();
                } else {
                    assert forall|x: K, y: K| #[trigger]
                        self.has(x) && #[trigger] rl.has(y) implies lt(x, y) by {
                        assert(other.has(y));
                    }
                    self.lemma_merge(*rl);
                    assert forall|x: K| #[trigger] self.merge(*rl).has(x) implies lt(x, rk) by {
                        if self.has(x) {
                            assert(self.has(x) && other.has(rk));
                        }
                    }
                    m.lemma_node_map();
                }
            },
        }
    }

    /// Merging two heaps gives a heap.
    pub proof fn lemma_merge_heap(self, other: Self)
        requires
            total_order::<P>(),
            self.is_heap(),
            other.is_heap(),
        ensures
            self.merge(other).is_heap(),
        decreases self, other,
    {
        match (self, other) {
            (Tree::Leaf, _) => {},
            (_, Tree::Leaf) => {},
            (
                Tree::Node { left: ll, key: lk, priority: lp, value: lv, right: lr },
                Tree::Node { left: rl, key: rk, priority: rp, value: rv, right: rr },
            ) => {
                lemma_trichotomy(lp, rp);
                if lt(rp, lp) {
                    lr.lemma_merge_heap(other);
                    lr.lemma_merge_root(other, lp);
                } else {
                    self.lemma_merge_heap(*rl);
                    self.lemma_merge_root(*rl, rp);
                }
            },
        }
    }

    /// The tree of one entry is ordered and holds that entry alone.
    pub proof fn lemma_single(key: K, priority: P, value: V)
        ensures
            Self::single(key, priority, value).is_treap(),
            Self::single(key, priority, value).as_map() =~= Map::empty().insert(
                key,
                (priority, value),
            ),
    {
        let leaf = Tree::<K, P, V>::Leaf;
        assert(leaf.is_bst() && leaf.is_heap());
        assert(leaf.as_map() =~= Map::empty());
    }

    /// Insertion keeps the tree ordered and changes its entries as insertion
    /// into a map does.
    pub proof fn lemma_insert(self, key: K, priority: P, value: V)
        requires
            total_order::<K>(),
            total_order::<P>(),
            self.is_treap(),
        ensures
            self.insert(key, priority, value).is_treap(),
            self.insert(key, priority, value).as_map() == self.as_map().insert(
                key,
                (priority, value),
            ),
    {
        let lo = self.split_lt(key);
        let hi = self.split_gt(key);
        let one = Self::single(key, priority, value);
        self.lemma_split(key);
        self.lemma_split_heap(key);
        Self::lemma_single(key, priority, value);
        lo.lemma_merge(one);
        lo.lemma_merge_heap(one);
        let mid = lo.merge(one);
        assert forall|x: K, y: K| #[trigger] mid.has(x) && #[trigger] hi.has(y) implies lt(
            x,
            y,
        ) by {
            if lo.has(x) {
                lemma_lt_transitive(x, key, y);
            }
        }
        mid.lemma_merge(hi);
        mid.lemma_merge_heap(hi);
        let res = mid.merge(hi);
        let want = self.as_map().insert(key, (priority, value));
        assert forall|x: K| want.contains_key(x) implies #[trigger] res.has(x) && res.as_map()[x]
            == want[x] by {
            lemma_trichotomy(x, key);
            if x == key {
                assert(one.has(x));
                assert(mid.has(x));
            } else if lt(x, key) {
                assert(lo.has(x));
                assert(mid.has(x));
            } else {
                assert(hi.has(x));
            }
        }
        assert forall|x: K| #[trigger] res.has(x) implies want.contains_key(x) by {
            if mid.has(x) {
                if lo.has(x) {
                } else {
                    assert(one.has(x));
                }
            } else {
                assert(hi.has(x));
            }
        }
        assert(res.as_map() =~= want);
    }

    /// Removal keeps the tree ordered and changes its entries as removal
    /// from a map does.
    pub proof fn lemma_remove(self, key: K)
        requires
            total_order::<K>(),
            total_order::<P>(),
            self.is_treap(),
        ensures
            self.remove(key).is_treap(),
            self.remove(key).as_map() == self.as_map().remove(key),
    {
        let lo = self.split_lt(key);
        let hi = self.split_gt(key);
        self.lemma_split(key);
        self.lemma_split_heap(key);
        assert forall|x: K, y: K| #[trigger] lo.has(x) && #[trigger] hi.has(y) implies lt(
            x,
            y,
        ) by {
            lemma_lt_transitive(x, key, y);
        }
        lo.lemma_merge(hi);
        lo.lemma_merge_heap(hi);
        let res = lo.merge(hi);
        let want = self.as_map().remove(key);
        assert forall|x: K| want.contains_key(x) implies #[trigger] res.has(x) && res.as_map()[x]
            == want[x] by {
            lemma_trichotomy(x, key);
            if lt(x, key) {
                assert(lo.has(x));
            } else {
                assert(hi.has(x));
            }
        }
        assert forall|x: K| #[trigger] res.has(x) implies want.contains_key(x) by {
            lemma_trichotomy(x, key);
            if lo.has(x) {
            } else {
                assert(hi.has(x));
            }
        }
        assert(res.as_map() =~= want);
    }

    /// In a heap no entry has a higher priority than the root.
    pub proof fn lemma_heap_max(self)
        requires
            total_order::<K>(),
            total_order::<P>(),
            self.is_treap(),
            self is Node,
        ensures
            forall|x: K| #[trigger] self.has(x) ==> le(self.as_map()[x].0, self->priority),
        decreases self,
    {
        let top = self->priority;
        self.lemma_node_map();
        lemma_trichotomy(top, top);
        if let Tree::Node { priority: lp, .. } = *self->left {
            self->left.lemma_heap_max();
            assert forall|x: K| #[trigger] self->left.has(x) implies le(
                self.as_map()[x].0,
                top,
            ) by {
                lemma_le_transitive(self->left.as_map()[x].0, lp, top);
            }
        }
        if let Tree::Node { priority: rp, .. } = *self->right {
            self->right.lemma_heap_max();
            assert forall|x: K| #[trigger] self->right.has(x) implies le(
                self.as_map()[x].0,
                top,
            ) by {
                lemma_le_transitive(self->right.as_map()[x].0, rp, top);
            }
        }
    }

    /// Taking the root out keeps the tree ordered and removes the root's
    /// entry from the entries.
    pub proof fn lemma_pop(self)
        requires
            total_order::<K>(),
            total_order::<P>(),
            self.is_treap(),
            self is Node,
        ensures
            self.pop().is_treap(),
            self.pop().as_map() == self.as_map().remove(self->key),
            self.pop().size() + 1 == self.size(),
    {
        let l = *self->left;
        let r = *self->right;
        self.lemma_node_map();
        assert forall|x: K, y: K| #[trigger] l.has(x) && #[trigger] r.has(y) implies lt(x, y) by {
            lemma_lt_transitive(x, self->key, y);
        }
        l.lemma_merge(r);
        l.lemma_merge_heap(r);
        assert(self.pop().as_map() =~= self.as_map().remove(self->key));
        self.lemma_size();
        self.pop().lemma_size();
    }

    /// Giving a key a new priority keeps the tree ordered; the key keeps its
    /// value, and a key that is absent stays absent.
    pub proof fn lemma_prioritize(self, key: K, priority: P)
        requires
            total_order::<K>(),
            total_order::<P>(),
            self.is_treap(),
        ensures
            self.prioritize(key, priority).is_treap(),
            self.prioritize(key, priority).as_map() == if self.has(key) {
                self.as_map().insert(key, (priority, self.as_map()[key].1))
            } else {
                self.as_map()
            },
    {
        self.lemma_split(key);
        match self.find(key) {
            Some((_, value)) => {
                self.lemma_insert(key, priority, value);
            },
            None => {
                self.lemma_remove(key);
                assert(self.as_map().remove(key) =~= self.as_map());
            },
        }
    }

    /// Descending from the root finds the entry of a key exactly when the
    /// tree has one.
    pub proof fn lemma_find(self, key: K)
        requires
            total_order::<K>(),
            self.is_bst(),
        ensures
            self.find(key) == if self.has(key) {
                Some(self.as_map()[key])
            } else {
                None
            },
    {
        self.lemma_split(key);
    }

    /// Replacing the value of a key keeps the shape and the order of the
    /// tree and changes the entries as insertion into a map does.
    pub proof fn lemma_with_value(self, key: K, value: V)
        requires
            total_order::<K>(),
            self.is_treap(),
        ensures
            self.with_value(key, value).is_treap(),
            self.with_value(key, value).height() == self.height(),
            self.with_value(key, value).size() == self.size(),
            self.with_value(key, value) is Node <==> self is Node,
            self is Node ==> self.with_value(key, value)->priority == self->priority
                && self.with_value(key, value)->key == self->key,
            self.with_value(key, value).as_map() == if self.has(key) {
                self.as_map().insert(key, (self.as_map()[key].0, value))
            } else {
                self.as_map()
            },
        decreases self,
    {
        let u = self.with_value(key, value);
        match self {
            Tree::Leaf => {},
            Tree::Node { left, key: k, priority, value: v, right } => {
                self.lemma_node_map();
                left.lemma_with_value(key, value);
                right.lemma_with_value(key, value);
                lemma_trichotomy(key, k);
                assert(u.is_bst());
                u.lemma_node_map();
                if self.has(key) {
                    assert(u.as_map() =~= self.as_map().insert(
                        key,
                        (self.as_map()[key].0, value),
                    ));
                } else {
                    assert(u.as_map() =~= self.as_map());
                }
            },
        }
    }

    /// Cutting an ordered heap keeps it one and leaves exactly the entries
    /// whose priority is not below the threshold.
    pub proof fn lemma_cut(self, threshold: P)
        requires
            total_order::<K>(),
            total_order::<P>(),
            self.is_treap(),
        ensures
            self.cut(threshold).is_treap(),
            forall|x: K| #[trigger]
                self.cut(threshold).has(x) <==> self.has(x) && le(threshold, self.as_map()[x].0),
            forall|x: K| #[trigger]
                self.cut(threshold).has(x) ==> self.cut(threshold).as_map()[x]
                    == self.as_map()[x],
            self is Node ==> self.cut(threshold).root_le(self->priority),
        decreases self,
    {
        let u = self.cut(threshold);
        match self {
            Tree::Leaf => {},
            Tree::Node { left, key, priority, value, right } => {
                self.lemma_node_map();
                lemma_trichotomy(priority, priority);
                if lt(priority, threshold) {
                    self.lemma_heap_max();
                    assert forall|x: K| #[trigger] self.has(x) implies !le(
                        threshold,
                        self.as_map()[x].0,
                    ) by {
                        lemma_trichotomy(priority, threshold);
                        lemma_le_transitive(self.as_map()[x].0, priority, threshold);
                        lemma_trichotomy(self.as_map()[x].0, threshold);
                    }
                } else {
                    left.lemma_cut(threshold);
                    right.lemma_cut(threshold);
                    if let Tree::Node { priority: lp, .. } = *left {
                        left.cut(threshold).lemma_root_le(lp, priority);
                    }
                    if let Tree::Node { priority: rp, .. } = *right {
                        right.cut(threshold).lemma_root_le(rp, priority);
                    }
                    assert(u.is_bst());
                    u.lemma_node_map();
                    assert forall|x: K| #[trigger]
                        self.has(x) && le(threshold, self.as_map()[x].0) implies u.has(x) by {
                        if left.has(x) {
                            assert(left.cut(threshold).has(x));
                        } else if right.has(x) {
                            assert(right.cut(threshold).has(x));
                        }
                    }
                }
            },
        }
    }

    /// Cutting changes the entries as restricting a map to the priorities at
    /// or above the threshold does.
    pub proof fn lemma_cut_map(self, threshold: P)
        requires
            total_order::<K>(),
            total_order::<P>(),
            self.is_treap(),
        ensures
            self.cut(threshold).as_map() == self.as_map().restrict(
                Set::new(|x: K| le(threshold, self.as_map()[x].0)),
            ),
    {
        self.lemma_cut(threshold);
        assert(self.cut(threshold).as_map() =~= self.as_map().restrict(
            Set::new(|x: K| le(threshold, self.as_map()[x].0)),
        ));
    }

    /// In a heap no priority is above that of the root.
    pub proof fn lemma_heap_top(self)
        requires
            total_order::<P>(),
            self.is_heap(),
            self is Node,
        ensures
            forall|q: P| #[trigger] self.priorities().contains(q) ==> le(q, self->priority),
        decreases self,
    {
        let top = self->priority;
        let l = *self->left;
        let r = *self->right;
        lemma_trichotomy(top, top);
        assert forall|q: P| #[trigger] l.priorities().contains(q) implies le(q, top) by {
            l.lemma_heap_top();
            lemma_le_transitive(q, l->priority, top);
        }
        assert forall|q: P| #[trigger] r.priorities().contains(q) implies le(q, top) by {
            r.lemma_heap_top();
            lemma_le_transitive(q, r->priority, top);
        }
        assert(self.priorities() == l.priorities().union(r.priorities()).insert(top));
    }

    /// The priorities of an ordered tree are those of its entries.
    pub proof fn lemma_priorities(self)
        requires
            total_order::<K>(),
            self.is_bst(),
        ensures
            forall|q: P|
                self.priorities().contains(q) <==> exists|x: K| #[trigger]
                    self.has(x) && self.as_map()[x].0 == q,
        decreases self,
    {
        match self {
            Tree::Leaf => {},
            Tree::Node { left, key, priority, value, right } => {
                self.lemma_node_map();
                left.lemma_priorities();
                right.lemma_priorities();
                assert forall|q: P| self.priorities().contains(q) implies exists|x: K| #[trigger]
                    self.has(x) && self.as_map()[x].0 == q by {
                    if q == priority {
                        assert(self.has(key) && self.as_map()[key].0 == q);
                    } else if left.priorities().contains(q) {
                        let x = choose|x: K| #[trigger] left.has(x) && left.as_map()[x].0 == q;
                        assert(self.has(x) && self.as_map()[x].0 == q);
                    } else {
                        assert(right.priorities().contains(q));
                        let x = choose|x: K| #[trigger] right.has(x) && right.as_map()[x].0 == q;
                        assert(self.has(x) && self.as_map()[x].0 == q);
                    }
                }
                assert forall|q: P|
                    (exists|x: K| #[trigger] self.has(x) && self.as_map()[x].0 == q) implies self
                    .priorities().contains(q) by {
                    let x = choose|x: K| #[trigger] self.has(x) && self.as_map()[x].0 == q;
                    if x == key {
                    } else if left.has(x) {
                        assert(left.has(x) && left.as_map()[x].0 == q);
                        assert(left.priorities().contains(q));
                    } else {
                        assert(right.has(x) && right.as_map()[x].0 == q);
                        assert(right.priorities().contains(q));
                    }
                }
            },
        }
    }

    /// Merging loses no entry and makes none.
    pub proof fn lemma_merge_size(self, other: Self)
        ensures
            self.merge(other).size() == self.size() + other.size(),
        decreases self, other,
    {
        match (self, other) {
            (Tree::Leaf, _) => {},
            (_, Tree::Leaf) => {},
            (
                Tree::Node { priority: lp, right: lr, .. },
                Tree::Node { priority: rp, left: rl, .. },
            ) => {
                if lt(rp, lp) {
                    lr.lemma_merge_size(other);
                } else {
                    self.lemma_merge_size(*rl);
                }
            },
        }
    }

    /// Walking an ordered tree from left to right meets its entries with
    /// strictly rising keys, each once.
    pub proof fn lemma_in_order(self)
        requires
            total_order::<K>(),
            self.is_bst(),
        ensures
            self.in_order().len() == self.size(),
            forall|i: int|
                0 <= i < self.in_order().len() ==> self.has((#[trigger] self.in_order()[i]).0)
                    && self.as_map()[self.in_order()[i].0] == (
                    self.in_order()[i].1,
                    self.in_order()[i].2,
                ),
            forall|i: int, j: int|
                #![trigger self.in_order()[i], self.in_order()[j]]
                0 <= i < j < self.in_order().len() ==> lt(
                    self.in_order()[i].0,
                    self.in_order()[j].0,
                ),
        decreases self,
    {
        match self {
            Tree::Leaf => {},
            Tree::Node { left, key, priority, value, right } => {
                self.lemma_node_map();
                left.lemma_in_order();
                right.lemma_in_order();
                let a = left.in_order();
                let b = right.in_order();
                let s = self.in_order();
                assert(s.len() == a.len() + 1 + b.len());
                assert forall|i: int| 0 <= i < s.len() implies self.has((#[trigger] s[i]).0)
                    && self.as_map()[s[i].0] == (s[i].1, s[i].2) && (i < a.len() ==> s[i] == a[i])
                    && (i == a.len() ==> s[i] == (key, priority, value)) && (i > a.len() ==> s[i]
                    == b[i - a.len() - 1]) by {
                    if i < a.len() {
                        assert(s[i] == a[i]);
                    } else if i == a.len() {
                        assert(s[i] == (key, priority, value));
                    } else {
                        assert(s[i] == b[i - a.len() - 1]);
                    }
                }
                assert forall|i: int, j: int|
                    #![trigger s[i], s[j]]
                    0 <= i < j < s.len() implies lt(s[i].0, s[j].0) by {
                    if j < a.len() {
                    } else if j == a.len() {
                        assert(left.has(a[i].0));
                    } else if i < a.len() {
                        assert(left.has(a[i].0));
                        assert(right.has(b[j - a.len() - 1].0));
                        lemma_lt_transitive(s[i].0, key, s[j].0);
                    } else if i == a.len() {
                        assert(right.has(b[j - a.len() - 1].0));
                    } else {
                    }
                }
            },
        }
    }

    /// Taking out a key that was just put in hands back what was put in,
    /// and when the key is a new one it leaves the entries as they were
    /// before.
    pub proof fn lemma_remove_after_insert(self, key: K, priority: P, value: V)
        requires
            total_order::<K>(),
            total_order::<P>(),
            self.is_treap(),
        ensures
            self.insert(key, priority, value).has(key),
            self.insert(key, priority, value).as_map()[key] == (priority, value),
            self.insert(key, priority, value).remove(key).is_treap(),
            !self.has(key) ==> self.insert(key, priority, value).remove(key).as_map()
                == self.as_map(),
            self.insert(key, priority, value).remove(key).as_map().dom()
                == self.as_map().dom().remove(key),
    {
        let put = self.insert(key, priority, value);
        self.lemma_insert(key, priority, value);
        put.lemma_remove(key);
        assert(put.remove(key).as_map().dom() =~= self.as_map().dom().remove(key));
        if !self.has(key) {
            assert(put.remove(key).as_map() =~= self.as_map());
        }
    }

    /// The entry that comes out second has no higher priority than the one
    /// that came out first.
    pub proof fn lemma_pop_order(self)
        requires
            total_order::<K>(),
            total_order::<P>(),
            self.is_treap(),
            self is Node,
            self.pop() is Node,
        ensures
            le(self.pop()->priority, self->priority),
    {
        let next = self.pop();
        self.lemma_pop();
        self.lemma_heap_max();
        next.lemma_node_map();
        assert(self.has(next->key));
    }

    /// Taking the root out again and again hands over every entry once, the
    /// priorities never rising.
    pub proof fn lemma_pops(self)
        requires
            total_order::<K>(),
            total_order::<P>(),
            self.is_treap(),
        ensures
            self.pops().len() == self.size(),
            forall|i: int|
                0 <= i < self.pops().len() ==> self.has((#[trigger] self.pops()[i]).0)
                    && self.as_map()[self.pops()[i].0] == (self.pops()[i].1, self.pops()[i].2),
            forall|x: K| #[trigger]
                self.has(x) ==> exists|i: int|
                    0 <= i < self.pops().len() && (#[trigger] self.pops()[i]).0 == x,
            forall|i: int, j: int|
                #![trigger self.pops()[i], self.pops()[j]]
                0 <= i < j < self.pops().len() ==> le(self.pops()[j].1, self.pops()[i].1)
                    && self.pops()[i].0 != self.pops()[j].0,
        decreases self.size(),
    {
        match self {
            Tree::Leaf => {},
            Tree::Node { left, key, priority, value, right } => {
                let next = self.pop();
                let s = self.pops();
                let rest = next.pops();
                self.lemma_pop();
                self.lemma_node_map();
                self.lemma_heap_max();
                next.lemma_pops();
                assert(s =~= seq![(key, priority, value)] + rest);
                assert forall|i: int| 0 <= i < s.len() implies self.has((#[trigger] s[i]).0)
                    && self.as_map()[s[i].0] == (s[i].1, s[i].2) by {
                    if i > 0 {
                        assert(s[i] == rest[i - 1]);
                        assert(next.has(rest[i - 1].0));
                    }
                }
                assert forall|x: K| #[trigger] self.has(x) implies exists|i: int|
                    0 <= i < s.len() && (#[trigger] s[i]).0 == x by {
                    if x == key {
                        assert(s[0].0 == x);
                    } else {
                        assert(next.has(x));
                        let i = choose|i: int| 0 <= i < rest.len() && (#[trigger] rest[i]).0 == x;
                        assert(s[i + 1] == rest[i]);
                    }
                }
                assert forall|i: int, j: int|
                    #![trigger s[i], s[j]]
                    0 <= i < j < s.len() implies le(s[j].1, s[i].1) && s[i].0 != s[j].0 by {
                    assert(s[j] == rest[j - 1]);
                    assert(next.has(rest[j - 1].0));
                    if i > 0 {
                        assert(s[i] == rest[i - 1]);
                    }
                }
            },
        }
    }
}

} // verus!
