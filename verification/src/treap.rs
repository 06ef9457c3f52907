//! The container: a root handle and the table that owns the nodes.

use crate::arena::{DirectVecIndex, Error, IndexError, Node, NodePtr};
use crate::layout::{
    ids, lemma_entry, lemma_ids, lemma_left_replaced, lemma_modifies_wf, lemma_right_replaced,
    lemma_single, lemma_slot_emptied, lemma_slot_filled, lemma_unique, lemma_untouched,
    lemma_value_replaced, modifies, node_at, repr, same_outside,
};
use crate::order::{le, lemma_operators, lemma_trichotomy, lt, total_order};
use crate::rank::{
    ahead, grown, kid_trees, kids, lemma_nth, lemma_total_add, lemma_total_first,
    lemma_total_kids, lemma_waiting_rest, lemma_walk, lemma_walk_on, search_desc, settled,
    sorted_desc, total, visited, waiting,
};
use crate::tree::Tree;
use std::collections::VecDeque;
use vstd::prelude::*;

verus! {

/// A container taken apart along a key: the handles of the part below the
/// key, of the entry of the key, and of the part above it, with the table
/// they point into.
#[derive(Debug)]
struct Split<K, P, V> {
    left: NodePtr,
    entry: NodePtr,
    right: NodePtr,
    index: DirectVecIndex<K, P, V>,
}

/// A map from keys to values in which every entry also has a priority.  It is
/// a search tree by key and a heap by priority at once.
///
/// In contracts a container stands for the map of its entries (its view,
/// `@`) and, where the shape matters, for the tree that [`Treap::tree`]
/// gives.  Every operation asks for a sound container ([`Treap::wf`]) and
/// leaves one behind; on a sound container no operation fails, so the
/// `Err` results only ever show a table that was damaged.
#[derive(Debug)]
pub struct Treap<K, P, V> {
    root: NodePtr,
    index: DirectVecIndex<K, P, V>,
}

impl<K: PartialOrd, P: PartialOrd, V> View for Treap<K, P, V> {
    type V = Map<K, (P, V)>;

    /// The entries: each key with its priority and value.
    open spec fn view(&self) -> Map<K, (P, V)> {
        self.tree().as_map()
    }
}

impl<K: PartialOrd, P: PartialOrd, V> Split<K, P, V> {
    /// The three handles lead to the three trees, which share no slot and
    /// together fill the occupied slots of the table.
    spec fn holds(&self, lo: Tree<K, P, V>, at: Tree<K, P, V>, hi: Tree<K, P, V>) -> bool {
        let s = self.index@;
        &&& self.index.wf()
        &&& repr(s, self.left, lo)
        &&& repr(s, self.entry, at)
        &&& repr(s, self.right, hi)
        &&& ids(s, self.left, lo).disjoint(ids(s, self.entry, at))
        &&& ids(s, self.left, lo).disjoint(ids(s, self.right, hi))
        &&& ids(s, self.entry, at).disjoint(ids(s, self.right, hi))
        &&& ids(s, self.left, lo).union(ids(s, self.entry, at)).union(ids(s, self.right, hi))
            =~= self.index.live()
    }
}

impl<K: PartialOrd, P: PartialOrd, V> Treap<K, P, V> {
    /// The tree that the container holds: its entries in the shape in which
    /// they are linked.
    pub closed spec fn tree(&self) -> Tree<K, P, V> {
        choose|t: Tree<K, P, V>| repr(self.index@, self.root, t)
    }

    /// The priorities that occur in the container.
    pub open spec fn priorities(&self) -> Set<P> {
        Set::new(|q: P| exists|x: K| #[trigger] self@.contains_key(x) && self@[x].0 == q)
    }

    /// The container is sound: keys and priorities are totally ordered, the
    /// root leads to a tree that is ordered by key and heaped by priority,
    /// and the table holds the nodes of that tree and nothing else.
    pub closed spec fn wf(&self) -> bool {
        &&& total_order::<K>()
        &&& total_order::<P>()
        &&& self.index.wf()
        &&& repr(self.index@, self.root, self.tree())
        &&& ids(self.index@, self.root, self.tree()) =~= self.index.live()
        &&& self.tree().is_treap()
    }

    /// The tree of a container is the one that its root leads to.
    proof fn lemma_tree(&self, t: Tree<K, P, V>)
        requires
            repr(self.index@, self.root, t),
        ensures
            self.tree() == t,
    {
        lemma_unique(self.index@, self.root, self.tree(), t);
    }

    /// A sound container holds an ordered tree: walking it from left to
    /// right meets strictly rising keys, no node has a lower priority than
    /// a child of it, and there is one entry for each key.
    pub proof fn lemma_sound(&self)
        requires
            self.wf(),
        ensures
            total_order::<K>(),
            total_order::<P>(),
            self.tree().is_bst(),
            self.tree().is_heap(),
            self@.dom().finite(),
            self@.len() == self.tree().size(),
            self.tree().in_order().len() == self@.len(),
            forall|i: int, j: int|
                #![trigger self.tree().in_order()[i], self.tree().in_order()[j]]
                0 <= i < j < self.tree().in_order().len() ==> lt(
                    self.tree().in_order()[i].0,
                    self.tree().in_order()[j].0,
                ),
    {
        self.tree().lemma_size();
        self.tree().lemma_in_order();
    }

    /// Putting a new key in and taking it out again hands back what was put
    /// in and leaves the entries as they were.
    pub proof fn lemma_insert_then_remove(
        before: Self,
        between: Self,
        after: Self,
        key: K,
        priority: P,
        value: V,
    )
        requires
            before.wf(),
            !before@.contains_key(key),
            between.tree() == before.tree().insert(key, priority, value),
            after.tree() == between.tree().remove(key),
        ensures
            between@.contains_key(key),
            between@[key] == (priority, value),
            after@ == before@,
            after@.dom() == before@.dom(),
    {
        before.tree().lemma_remove_after_insert(key, priority, value);
    }

    /// Of two entries that are popped one after the other the second has no
    /// higher priority than the first.
    pub proof fn lemma_pop_then_pop(before: Self, between: Self)
        requires
            before.wf(),
            between.tree() == before.tree().pop(),
            before.tree() is Node,
            between.tree() is Node,
        ensures
            le(between.tree()->priority, before.tree()->priority),
    {
        before.tree().lemma_pop_order();
    }

    /// Popping until nothing is left hands out every entry once, in the
    /// order of `pops`: the priorities never rise.
    pub proof fn lemma_pop_all(&self)
        requires
            self.wf(),
        ensures
            self.tree().pops().len() == self@.len(),
            forall|i: int|
                0 <= i < self.tree().pops().len() ==> self@.contains_key(
                    (#[trigger] self.tree().pops()[i]).0,
                ) && self@[self.tree().pops()[i].0] == (
                    self.tree().pops()[i].1,
                    self.tree().pops()[i].2,
                ),
            forall|i: int, j: int|
                #![trigger self.tree().pops()[i], self.tree().pops()[j]]
                0 <= i < j < self.tree().pops().len() ==> le(
                    self.tree().pops()[j].1,
                    self.tree().pops()[i].1,
                ) && self.tree().pops()[i].0 != self.tree().pops()[j].0,
    {
        self.tree().lemma_pops();
        self.tree().lemma_size();
    }

    /// An empty container.
    pub fn new() -> (r: Treap<K, P, V>)
        requires
            total_order::<K>(),
            total_order::<P>(),
        ensures
            r.wf(),
            r.tree() == Tree::<K, P, V>::Leaf,
            r@ == Map::<K, (P, V)>::empty(),
    {
        let r = Treap { root: None, index: DirectVecIndex::new() };
        proof {
            r.lemma_tree(Tree::Leaf);
            assert(r.index.live() =~= Set::empty());
        }
        r
    }

    /// The number of entries.
    pub fn len(&self) -> (n: usize)
        requires
            self.wf(),
        ensures
            n == self@.len(),
            n == self.tree().size(),
    {
        proof {
            lemma_ids(self.index@, self.root, self.tree());
            self.tree().lemma_size();
        }
        self.index.size()
    }

    /// Takes the container apart along `key`.
    fn split(self, key: &K) -> (r: Result<Split<K, P, V>, IndexError>)
        requires
            self.wf(),
        ensures
            r is Ok,
            r.unwrap().holds(
                self.tree().split_lt(*key),
                self.tree().only(*key),
                self.tree().split_gt(*key),
            ),
    {
        let ghost before = self.index;
        let ghost t = self.tree();
        let mut index = self.index;
        let (l, e, r) = split_nodes(&mut index, self.root, key, Ghost(t))?;
        proof {
            lemma_modifies_wf(before, index, ids(before@, self.root, t));
        }
        Ok(Split { left: l, entry: e, right: r, index: index })
    }

    /// Joins the tree at `left` and the tree at `right`, whose keys are all
    /// above those of the first, into one tree and returns its handle.
    fn merge_nodes(
        index: &mut DirectVecIndex<K, P, V>,
        left: NodePtr,
        right: NodePtr,
        Ghost(tl): Ghost<Tree<K, P, V>>,
        Ghost(tr): Ghost<Tree<K, P, V>>,
    ) -> (r: Result<NodePtr, IndexError>)
        requires
            total_order::<P>(),
            repr(old(index)@, left, tl),
            repr(old(index)@, right, tr),
            ids(old(index)@, left, tl).disjoint(ids(old(index)@, right, tr)),
        ensures
            r is Ok,
            final(index).free() == old(index).free(),
            modifies(
                old(index)@,
                final(index)@,
                ids(old(index)@, left, tl).union(ids(old(index)@, right, tr)),
            ),
            repr(final(index)@, r.unwrap(), tl.merge(tr)),
            ids(final(index)@, r.unwrap(), tl.merge(tr)) =~= ids(old(index)@, left, tl).union(
                ids(old(index)@, right, tr),
            ),
        decreases tl, tr,
    {
        if left.is_none() {
            return Ok(right);
        }
        if right.is_none() {
            return Ok(left);
        }
        let ghost s0 = index@;
        let (left_p, left_right) = {
            let entry = index.get(&left)?;
            (&entry.priority, entry.right)
        };
        let (right_p, right_left) = {
            let entry = index.get(&right)?;
            (&entry.priority, entry.left)
        };
        let ghost nl = node_at(s0, left).unwrap();
        let ghost nr = node_at(s0, right).unwrap();
        proof {
            lemma_operators(*left_p, *right_p);
            lemma_ids(s0, left, tl);
            lemma_ids(s0, right, tr);
            lemma_ids(s0, nl.left, *tl->left);
            lemma_ids(s0, nl.right, *tl->right);
            lemma_ids(s0, nr.left, *tr->left);
            lemma_ids(s0, nr.right, *tr->right);
        }
        if left_p > right_p {
            let sub = Treap::merge_nodes(index, left_right, right, Ghost(*tl->right), Ghost(tr))?;
            let ghost s1 = index@;
            index.get_mut(&left)?.right = sub;
            proof {
                let s2 = index@;
                let m = tl->right.merge(tr);
                let touched = ids(s0, nl.right, *tl->right).union(ids(s0, right, tr));
                lemma_ids(s1, sub, m);
                lemma_untouched(s0, s1, touched, nl.left, *tl->left);
                lemma_untouched(s1, s2, set![left.unwrap()], nl.left, *tl->left);
                lemma_untouched(s1, s2, set![left.unwrap()], sub, m);
            }
            Ok(left)
        } else {
            let sub = Treap::merge_nodes(index, left, right_left, Ghost(tl), Ghost(*tr->left))?;
            let ghost s1 = index@;
            index.get_mut(&right)?.left = sub;
            proof {
                let s2 = index@;
                let m = tl.merge(*tr->left);
                let touched = ids(s0, left, tl).union(ids(s0, nr.left, *tr->left));
                lemma_ids(s1, sub, m);
                lemma_untouched(s0, s1, touched, nr.right, *tr->right);
                lemma_untouched(s1, s2, set![right.unwrap()], nr.right, *tr->right);
                lemma_untouched(s1, s2, set![right.unwrap()], sub, m);
            }
            Ok(right)
        }
    }

    /// Gives `key` this priority and value.  Returns the priority and value
    /// that the key had before, if it had any.
    pub fn insert(&mut self, key: K, priority: P, value: V) -> (r: Result<Option<(P, V)>, Error>)
        requires
            old(self).wf(),
        ensures
            final(self).wf(),
            final(self).tree() == old(self).tree().insert(key, priority, value),
            final(self)@ == old(self)@.insert(key, (priority, value)),
            r matches Ok(prev) && prev == (if old(self)@.contains_key(key) {
                Some(old(self)@[key])
            } else {
                None
            }),
    {
        let ghost t = self.tree();
        let ghost lo = t.split_lt(key);
        let ghost at = t.only(key);
        let ghost hi = t.split_gt(key);
        let ghost one = Tree::single(key, priority, value);
        proof {
            t.lemma_split(key);
            t.lemma_insert(key, priority, value);
        }
        let mut tmp = Treap { root: None, index: DirectVecIndex::new() };
        std::mem::swap(&mut tmp, self);
        let spl = tmp.split(&key).map_err(|e: IndexError| Error::Index(e))?;
        let new_node = Node { key: key, priority: priority, value: value, left: None, right: None };
        let mut index = spl.index;
        let left = spl.left;
        let right = spl.right;
        let ghost s1 = index@;
        proof {
            lemma_entry(s1, spl.entry, at);
        }
        let node = index.remove(&spl.entry).ok();
        let ghost s2 = index@;
        proof {
            if spl.entry is Some {
                lemma_slot_emptied(s1, spl.entry.unwrap(), left, lo);
                lemma_slot_emptied(s1, spl.entry.unwrap(), right, hi);
            }
            assert(index.live() =~= ids(s1, left, lo).union(ids(s1, right, hi)));
        }
        let new = index.insert(new_node);
        let ghost s3 = index@;
        proof {
            lemma_slot_filled(s2, s3, new.unwrap(), new_node, left, lo);
            lemma_slot_filled(s2, s3, new.unwrap(), new_node, right, hi);
            lemma_single(s3, new);
            assert(index.live() =~= ids(s1, left, lo).union(ids(s1, right, hi)).insert(
                new.unwrap(),
            ));
        }
        let ghost mid = index;
        let root = Treap::merge_nodes(&mut index, left, new, Ghost(lo), Ghost(one)).map_err(
            |e: IndexError| Error::Index(e),
        )?;
        let ghost s4 = index@;
        proof {
            let touched = ids(s3, left, lo).union(ids(s3, new, one));
            lemma_modifies_wf(mid, index, touched);
            lemma_untouched(s3, s4, touched, right, hi);
        }
        let ghost mid = index;
        let ghost half = root;
        let root = Treap::merge_nodes(&mut index, root, right, Ghost(lo.merge(one)), Ghost(hi))
            .map_err(|e: IndexError| Error::Index(e))?;
        proof {
            let touched = ids(s4, half, lo.merge(one)).union(ids(s4, right, hi));
            lemma_modifies_wf(mid, index, touched);
        }
        *self = Treap { root: root, index: index };
        proof {
            self.lemma_tree(t.insert(key, priority, value));
        }
        Ok(
            match node {
                Some(node) => Some((node.priority, node.value)),
                None => None,
            },
        )
    }

    /// Takes the entry of `key` out.  Returns its priority and value, if
    /// there was one.
    pub fn remove(&mut self, key: &K) -> (r: Result<Option<(P, V)>, Error>)
        requires
            old(self).wf(),
        ensures
            final(self).wf(),
            final(self).tree() == old(self).tree().remove(*key),
            final(self)@ == old(self)@.remove(*key),
            r matches Ok(prev) && prev == (if old(self)@.contains_key(*key) {
                Some(old(self)@[*key])
            } else {
                None
            }),
    {
        let ghost t = self.tree();
        let ghost lo = t.split_lt(*key);
        let ghost at = t.only(*key);
        let ghost hi = t.split_gt(*key);
        proof {
            t.lemma_split(*key);
            t.lemma_remove(*key);
        }
        let mut tmp = Treap { root: None, index: DirectVecIndex::new() };
        std::mem::swap(&mut tmp, self);
        let spl = tmp.split(key).map_err(|e: IndexError| Error::Index(e))?;
        let mut index = spl.index;
        let left = spl.left;
        let right = spl.right;
        let ghost s1 = index@;
        proof {
            lemma_entry(s1, spl.entry, at);
        }
        let node = index.remove(&spl.entry).ok();
        proof {
            if spl.entry is Some {
                lemma_slot_emptied(s1, spl.entry.unwrap(), left, lo);
                lemma_slot_emptied(s1, spl.entry.unwrap(), right, hi);
            }
            assert(index.live() =~= ids(s1, left, lo).union(ids(s1, right, hi)));
        }
        let ghost mid = index;
        let root = Treap::merge_nodes(&mut index, left, right, Ghost(lo), Ghost(hi)).map_err(
            |e: IndexError| Error::Index(e),
        )?;
        proof {
            lemma_modifies_wf(mid, index, ids(mid@, left, lo).union(ids(mid@, right, hi)));
        }
        *self = Treap { root: root, index: index };
        proof {
            self.lemma_tree(t.remove(*key));
        }
        Ok(
            match node {
                Some(node) => Some((node.priority, node.value)),
                None => None,
            },
        )
    }

    /// Gives the entry of `key` a new priority, which may move it to another
    /// place in the tree.  Returns the priority that it had, or `None` if
    /// there is no such entry.
    pub fn prioritize(&mut self, key: &K, new_p: P) -> (r: Result<Option<P>, Error>)
        requires
            old(self).wf(),
        ensures
            final(self).wf(),
            final(self).tree() == old(self).tree().prioritize(*key, new_p),
            final(self)@ == (if old(self)@.contains_key(*key) {
                old(self)@.insert(*key, (new_p, old(self)@[*key].1))
            } else {
                old(self)@
            }),
            r matches Ok(prev) && prev == (if old(self)@.contains_key(*key) {
                Some(old(self)@[*key].0)
            } else {
                None
            }),
    {
        let ghost t = self.tree();
        let ghost lo = t.split_lt(*key);
        let ghost at = t.only(*key);
        let ghost hi = t.split_gt(*key);
        proof {
            t.lemma_split(*key);
            t.lemma_prioritize(*key, new_p);
        }
        let mut tmp = Treap { root: None, index: DirectVecIndex::new() };
        std::mem::swap(&mut tmp, self);
        let spl = tmp.split(key).map_err(|e: IndexError| Error::Index(e))?;
        let mut index = spl.index;
        let left = spl.left;
        let right = spl.right;
        let ghost s1 = index@;
        proof {
            lemma_entry(s1, spl.entry, at);
        }
        let (old_p, new) = match index.remove(&spl.entry).ok() {
            Some(node) => {
                let new_node = Node {
                    key: node.key,
                    priority: new_p,
                    value: node.value,
                    left: None,
                    right: None,
                };
                let ghost s2 = index@;
                proof {
                    lemma_slot_emptied(s1, spl.entry.unwrap(), left, lo);
                    lemma_slot_emptied(s1, spl.entry.unwrap(), right, hi);
                    assert(index.live() =~= ids(s1, left, lo).union(ids(s1, right, hi)));
                }
                let new = index.insert(new_node);
                proof {
                    let s3 = index@;
                    lemma_slot_filled(s2, s3, new.unwrap(), new_node, left, lo);
                    lemma_slot_filled(s2, s3, new.unwrap(), new_node, right, hi);
                    lemma_single(s3, new);
                }
                (Some(node.priority), new)
            },
            None => (None, None),
        };
        let ghost one = match t.find(*key) {
            Some((_, value)) => Tree::single(*key, new_p, value),
            None => Tree::Leaf,
        };
        let ghost s3 = index@;
        proof {
            assert(repr(s3, left, lo));
            assert(repr(s3, right, hi));
            assert(repr(s3, new, one));
            assert(index.live() =~= ids(s3, left, lo).union(ids(s3, right, hi)).union(
                ids(s3, new, one),
            ));
        }
        let ghost mid = index;
        let root = Treap::merge_nodes(&mut index, left, new, Ghost(lo), Ghost(one)).map_err(
            |e: IndexError| Error::Index(e),
        )?;
        let ghost s4 = index@;
        proof {
            let touched = ids(s3, left, lo).union(ids(s3, new, one));
            lemma_modifies_wf(mid, index, touched);
            lemma_untouched(s3, s4, touched, right, hi);
        }
        let ghost mid = index;
        let ghost half = root;
        let root = Treap::merge_nodes(&mut index, root, right, Ghost(lo.merge(one)), Ghost(hi))
            .map_err(|e: IndexError| Error::Index(e))?;
        proof {
            let touched = ids(s4, half, lo.merge(one)).union(ids(s4, right, hi));
            lemma_modifies_wf(mid, index, touched);
        }
        *self = Treap { root: root, index: index };
        proof {
            self.lemma_tree(t.prioritize(*key, new_p));
        }
        Ok(old_p)
    }

    /// Takes out the entry at the root, which has the highest priority of
    /// all, and returns it.  Returns `None` if the container is empty.
    pub fn pop(&mut self) -> (r: Result<Option<(K, P, V)>, Error>)
        requires
            old(self).wf(),
        ensures
            final(self).wf(),
            final(self).tree() == old(self).tree().pop(),
            match old(self).tree() {
                Tree::Leaf => r == Ok::<Option<(K, P, V)>, Error>(None) && final(self)@ == old(
                    self,
                )@,
                Tree::Node { key, priority, value, .. } => {
                    &&& r == Ok::<Option<(K, P, V)>, Error>(Some((key, priority, value)))
                    &&& old(self)@.contains_key(key)
                    &&& old(self)@[key] == (priority, value)
                    &&& final(self)@ == old(self)@.remove(key)
                    &&& forall|x: K| #[trigger]
                        old(self)@.contains_key(x) ==> le(old(self)@[x].0, priority)
                },
            },
    {
        let ghost t = self.tree();
        if self.root.is_none() {
            return Ok(None);
        }
        let ghost s0 = self.index@;
        let ghost n = node_at(s0, self.root).unwrap();
        let ghost e = self.root.unwrap();
        proof {
            t.lemma_node_map();
            t.lemma_heap_max();
            t.lemma_pop();
            lemma_ids(s0, n.left, *t->left);
            lemma_ids(s0, n.right, *t->right);
        }
        let node = self.index.remove(&self.root.take()).map_err(|e: IndexError| Error::Index(e))?;
        proof {
            lemma_slot_emptied(s0, e, node.left, *t->left);
            lemma_slot_emptied(s0, e, node.right, *t->right);
            assert(self.index.live() =~= ids(s0, node.left, *t->left).union(
                ids(s0, node.right, *t->right),
            ));
        }
        let ghost mid = self.index;
        self.root = Treap::merge_nodes(
            &mut self.index,
            node.left,
            node.right,
            Ghost(*t->left),
            Ghost(*t->right),
        ).map_err(|e: IndexError| Error::Index(e))?;
        proof {
            lemma_modifies_wf(
                mid,
                self.index,
                ids(mid@, node.left, *t->left).union(ids(mid@, node.right, *t->right)),
            );
            self.lemma_tree(t.pop());
        }
        Ok(Some((node.key, node.priority, node.value)))
    }

    /// The priority and value of `key`, if it has an entry.
    pub fn get<'t>(&'t self, key: &K) -> (r: Result<Option<(&'t P, &'t V)>, Error>)
        requires
            self.wf(),
        ensures
            r matches Ok(found) && match found {
                Some((p, v)) => self@.contains_key(*key) && self@[*key] == (*p, *v),
                None => !self@.contains_key(*key),
            },
    {
        proof {
            self.tree().lemma_find(*key);
        }
        search_node(&self.index, self.root, key, Ghost(self.tree())).map_err(
            |e: IndexError| Error::Index(e),
        )
    }

    /// The priority of `key` and, to be changed in place, its value, if it
    /// has an entry.
    pub fn get_mut<'t>(&'t mut self, key: &K) -> (r: Result<Option<(&'t P, &'t mut V)>, Error>)
        requires
            old(self).wf(),
        ensures
            final(self).wf(),
            match r {
                Ok(Some((p, v))) => {
                    &&& old(self)@.contains_key(*key)
                    &&& old(self)@[*key] == (*p, *v)
                    &&& final(self).tree() == old(self).tree().with_value(*key, *final(v))
                    &&& final(self)@ == old(self)@.insert(*key, (*p, *final(v)))
                },
                Ok(None) => !old(self)@.contains_key(*key) && final(self).tree() == old(
                    self,
                ).tree(),
                Err(_) => false,
            },
    {
        let ghost t = self.tree();
        let ghost before = *self;
        proof {
            t.lemma_find(*key);
            assert forall|after: Treap<K, P, V>, x: V|
                #![trigger after.wf(), t.with_value(*key, x)]
                after.root == before.root && after.index.free() == before.index.free() && repr(
                    after.index@,
                    after.root,
                    t.with_value(*key, x),
                ) && ids(after.index@, after.root, t.with_value(*key, x)) == ids(
                    before.index@,
                    before.root,
                    t,
                ) && modifies(
                    before.index@,
                    after.index@,
                    ids(before.index@, before.root, t),
                ) implies after.wf() && after.tree() == t.with_value(*key, x) && (t.has(*key)
                ==> after@ == before@.insert(*key, (before@[*key].0, x))) by {
                lemma_modifies_wf(
                    before.index,
                    after.index,
                    ids(before.index@, before.root, t),
                );
                t.lemma_with_value(*key, x);
                after.lemma_tree(t.with_value(*key, x));
            }
        }
        search_node_mut(&mut self.index, self.root, key, Ghost(t)).map_err(
            |e: IndexError| Error::Index(e),
        )
    }

    /// The priority of `key`, if it has an entry.
    pub fn priority<'t>(&'t self, key: &K) -> (r: Result<Option<&'t P>, Error>)
        requires
            self.wf(),
        ensures
            r matches Ok(found) && match found {
                Some(p) => self@.contains_key(*key) && self@[*key].0 == *p,
                None => !self@.contains_key(*key),
            },
    {
        proof {
            self.tree().lemma_find(*key);
        }
        search_priority(&self.index, self.root, key, Ghost(self.tree())).map_err(
            |e: IndexError| Error::Index(e),
        )
    }

    /// Takes out every entry whose priority is below `p`.
    pub fn cut(&mut self, p: &P) -> (r: Result<(), Error>)
        requires
            old(self).wf(),
        ensures
            r is Ok,
            final(self).wf(),
            final(self).tree() == old(self).tree().cut(*p),
            final(self)@ == old(self)@.restrict(Set::new(|x: K| le(*p, old(self)@[x].0))),
    {
        let ghost t = self.tree();
        proof {
            t.lemma_cut(*p);
            t.lemma_cut_map(*p);
        }
        if check_node(&mut self.index, self.root, p, Ghost(t)).map_err(
            |e: IndexError| Error::Index(e),
        )? {
            self.root = None;
        }
        proof {
            self.lemma_tree(t.cut(*p));
        }
        Ok(())
    }

    /// The number of entries on the longest way down from the root; 0 for an
    /// empty container.
    pub fn depth(&self) -> (r: Result<usize, Error>)
        requires
            self.wf(),
        ensures
            r matches Ok(d) && d == self.tree().height(),
    {
        proof {
            lemma_ids(self.index@, self.root, self.tree());
            self.index.lemma_live_len();
            self.tree().lemma_size();
        }
        depth_node(&self.index, self.root, Ghost(self.tree())).map_err(
            |e: IndexError| Error::Index(e),
        )
    }
}

impl<K: PartialOrd, P: Ord, V> Treap<K, P, V> {
    /// The `n`-th highest of the priorities that occur, counting from 1 and
    /// counting equal priorities once.  Returns `None` if fewer than `n`
    /// different priorities occur.
    pub fn nth_priority(&self, n: usize) -> (r: Result<Option<&P>, Error>)
        requires
            self.wf(),
            n >= 1,
        ensures
            r matches Ok(found) && match found {
                Some(q) => self.priorities().contains(*q) && self.priorities().filter(
                    |x: P| lt(*q, x),
                ).len() == n - 1,
                None => self.priorities().finite() && self.priorities().len() < n,
            },
    {
        let ghost t = self.tree();
        let ghost all = t.priorities();
        let ghost slots = self.index@;
        proof {
            t.lemma_priorities();
            assert(self.priorities() =~= all);
        }
        let mut queue = VecDeque::new();
        let mut pri = Vec::new();
        nth_priority_node(&self.index, self.root, n, &mut queue, &mut pri, Ghost(t)).map_err(
            |e: IndexError| Error::Index(e),
        )?;
        let ghost mut trees = grown(slots, self.root, t, Seq::empty(), Seq::empty(), n as nat);
        proof {
            let none = Seq::<NodePtr>::empty();
            lemma_walk(slots, self.root, t, none, Seq::empty(), Seq::empty(), n as nat, all);
            lemma_walk_on(slots, self.root, t, Seq::empty(), Seq::empty(), pri@, n as nat, all);
            assert(none + queue@ =~= queue@);
        }
        loop
            invariant
                total_order::<P>(),
                n >= 1,
                slots == self.index@,
                waiting(slots, queue@, trees, all),
                sorted_desc(pri@),
                forall|i: int| 0 <= i < pri@.len() ==> all.contains(*(#[trigger] pri@[i])),
                forall|q: P| #[trigger]
                    all.contains(q) ==> settled(pri@, n as nat, q) || ahead(trees, q),
            ensures
                trees.len() == 0,
            decreases total(trees),
        {
            let ghost q0 = queue@;
            let node = match queue.pop_front() {
                Some(node) => node,
                None => {
                    break ;
                },
            };
            let ghost q1 = queue@;
            let ghost before = pri@;
            let ghost rest = trees.subrange(1, trees.len() as int);
            let ghost first = trees[0];
            nth_priority_node(&self.index, node, n, &mut queue, &mut pri, Ghost(first)).map_err(
                |e: IndexError| Error::Index(e),
            )?;
            proof {
                let nd = node_at(slots, node).unwrap();
                lemma_waiting_rest(slots, q0, trees, all);
                lemma_total_first(trees);
                lemma_total_kids(nd.left, nd.right, first);
                lemma_total_add(rest, kid_trees(nd.left, nd.right, first));
                assert forall|q: P| #[trigger] all.contains(q) implies settled(
                    before,
                    n as nat,
                    q,
                ) || first.priorities().contains(q) || ahead(rest, q) by {
                    if !settled(before, n as nat, q) {
                        let i = choose|i: int|
                            0 <= i < trees.len() && (#[trigger] trees[i]).priorities().contains(
                                q,
                            );
                        if i > 0 {
                            assert(rest[i - 1] == trees[i]);
                        }
                    }
                }
                lemma_walk(slots, node, first, q1, rest, before, n as nat, all);
                lemma_walk_on(slots, node, first, rest, before, pri@, n as nat, all);
                trees = grown(slots, node, first, rest, before, n as nat);
            }
        }
        proof {
            assert forall|q: P| #[trigger] all.contains(q) implies settled(pri@, n as nat, q) by {
                assert(!ahead(trees, q));
            }
            lemma_nth(pri@, all, n as nat);
        }
        if pri.len() >= n {
            proof {
                assert(all.filter(|x: P| lt(*pri@[n - 1], x)) =~= self.priorities().filter(
                    |x: P| lt(*pri@[n - 1], x),
                ));
            }
            Ok(Some(pri[n - 1]))
        } else {
            Ok(None)
        }
    }
}

/// Takes the tree at `node` apart along `key`.  Returns the handles of the
/// part below the key, of the entry of the key with its children cleared,
/// and of the part above the key.
fn split_nodes<K: PartialOrd, P: PartialOrd, V>(
    index: &mut DirectVecIndex<K, P, V>,
    node: NodePtr,
    key: &K,
    Ghost(t): Ghost<Tree<K, P, V>>,
) -> (r: Result<(NodePtr, NodePtr, NodePtr), IndexError>)
    requires
        total_order::<K>(),
        repr(old(index)@, node, t),
    ensures
        r is Ok,
        final(index).free() == old(index).free(),
        modifies(old(index)@, final(index)@, ids(old(index)@, node, t)),
        ({
            let (lo, at, hi) = r.unwrap();
            let s = final(index)@;
            &&& repr(s, lo, t.split_lt(*key))
            &&& repr(s, at, t.only(*key))
            &&& repr(s, hi, t.split_gt(*key))
            &&& ids(s, lo, t.split_lt(*key)).disjoint(ids(s, at, t.only(*key)))
            &&& ids(s, lo, t.split_lt(*key)).disjoint(ids(s, hi, t.split_gt(*key)))
            &&& ids(s, at, t.only(*key)).disjoint(ids(s, hi, t.split_gt(*key)))
            &&& ids(s, lo, t.split_lt(*key)).union(ids(s, at, t.only(*key))).union(
                ids(s, hi, t.split_gt(*key)),
            ) =~= ids(old(index)@, node, t)
        }),
    decreases t,
{
    if node.is_none() {
        return Ok((None, None, None));
    }
    let ghost s0 = index@;
    let ghost i = node.unwrap();
    let entry = index.get(&node)?;
    let ghost n = *entry;
    proof {
        lemma_operators(entry.key, *key);
        lemma_ids(s0, n.left, *t->left);
        lemma_ids(s0, n.right, *t->right);
    }
    if entry.key == *key {
        let (l, r) = (entry.left, entry.right);
        let v = index.get_mut(&node)?;
        v.left = None;
        v.right = None;
        proof {
            let s1 = index@;
            lemma_untouched(s0, s1, set![i], l, *t->left);
            lemma_untouched(s0, s1, set![i], r, *t->right);
            lemma_single(s1, node);
        }
        Ok((l, node, r))
    } else {
        if entry.key > *key {
            let nxt = entry.left;
            let (l, e, r) = split_nodes(index, nxt, key, Ghost(*t->left))?;
            let ghost s1 = index@;
            index.get_mut(&node)?.left = r;
            proof {
                let s2 = index@;
                let sub = *t->left;
                lemma_ids(s1, l, sub.split_lt(*key));
                lemma_ids(s1, e, sub.only(*key));
                lemma_ids(s1, r, sub.split_gt(*key));
                lemma_untouched(s0, s1, ids(s0, n.left, sub), n.right, *t->right);
                lemma_untouched(s1, s2, set![i], l, sub.split_lt(*key));
                lemma_untouched(s1, s2, set![i], e, sub.only(*key));
                lemma_untouched(s1, s2, set![i], r, sub.split_gt(*key));
                lemma_untouched(s1, s2, set![i], n.right, *t->right);
            }
            Ok((l, e, node))
        } else {
            let nxt = entry.right;
            let (l, e, r) = split_nodes(index, nxt, key, Ghost(*t->right))?;
            let ghost s1 = index@;
            index.get_mut(&node)?.right = l;
            proof {
                let s2 = index@;
                let sub = *t->right;
                lemma_ids(s1, l, sub.split_lt(*key));
                lemma_ids(s1, e, sub.only(*key));
                lemma_ids(s1, r, sub.split_gt(*key));
                lemma_untouched(s0, s1, ids(s0, n.right, sub), n.left, *t->left);
                lemma_untouched(s1, s2, set![i], l, sub.split_lt(*key));
                lemma_untouched(s1, s2, set![i], e, sub.only(*key));
                lemma_untouched(s1, s2, set![i], r, sub.split_gt(*key));
                lemma_untouched(s1, s2, set![i], n.left, *t->left);
            }
            Ok((node, e, r))
        }
    }
}

/// Looks for `key` below `node` and hands out its priority and value.
fn search_node<'t, K: PartialOrd, P: PartialOrd, V>(
    index: &'t DirectVecIndex<K, P, V>,
    node: NodePtr,
    key: &K,
    Ghost(t): Ghost<Tree<K, P, V>>,
) -> (r: Result<Option<(&'t P, &'t V)>, IndexError>)
    requires
        total_order::<K>(),
        repr(index@, node, t),
    ensures
        r matches Ok(found) && match found {
            Some((p, v)) => t.find(*key) == Some((*p, *v)),
            None => t.find(*key) is None,
        },
    decreases t,
{
    if node.is_none() {
        return Ok(None);
    }
    let entry = index.get(&node)?;
    proof {
        lemma_operators(entry.key, *key);
    }
    if entry.key == *key {
        Ok(Some((&entry.priority, &entry.value)))
    } else {
        if entry.key > *key {
            search_node(index, entry.left, key, Ghost(*t->left))
        } else {
            search_node(index, entry.right, key, Ghost(*t->right))
        }
    }
}

/// Where the search for a key goes from a node.
enum Action {
    Found(NodePtr),
    Left(NodePtr),
    Right(NodePtr),
}

/// Looks for `key` below `node` and hands out its priority and, to be
/// changed in place, its value.
fn search_node_mut<'t, K: PartialOrd, P: PartialOrd, V>(
    index: &'t mut DirectVecIndex<K, P, V>,
    node: NodePtr,
    key: &K,
    Ghost(t): Ghost<Tree<K, P, V>>,
) -> (r: Result<Option<(&'t P, &'t mut V)>, IndexError>)
    requires
        total_order::<K>(),
        repr(old(index)@, node, t),
    ensures
        final(index).free() == old(index).free(),
        modifies(old(index)@, final(index)@, ids(old(index)@, node, t)),
        match r {
            Ok(Some((p, v))) => {
                &&& t.find(*key) == Some((*p, *v))
                &&& repr(final(index)@, node, t.with_value(*key, *final(v)))
                &&& ids(final(index)@, node, t.with_value(*key, *final(v))) == ids(
                    old(index)@,
                    node,
                    t,
                )
            },
            Ok(None) => t.find(*key) is None && final(index)@ == old(index)@,
            Err(_) => false,
        },
    decreases t,
{
    if node.is_none() {
        return Ok(None);
    }
    let ghost s0 = index@;
    let ghost i = node.unwrap();
    let action = {
        let entry = index.get(&node)?;
        proof {
            lemma_operators(entry.key, *key);
        }
        if entry.key == *key {
            Action::Found(node)
        } else {
            if entry.key > *key {
                Action::Left(entry.left)
            } else {
                Action::Right(entry.right)
            }
        }
    };
    let ghost n = s0[i as int].unwrap();
    match action {
        Action::Found(node) => {
            proof {
                assert forall|m: Node<K, P, V>|
                    m.key == n.key && m.priority == n.priority && m.left == n.left && m.right
                        == n.right implies repr(
                    #[trigger] s0.update(i as int, Some(m)),
                    node,
                    t.with_value(*key, m.value),
                ) && ids(s0.update(i as int, Some(m)), node, t.with_value(*key, m.value)) == ids(
                    s0,
                    node,
                    t,
                ) && modifies(s0, s0.update(i as int, Some(m)), ids(s0, node, t)) by {
                    lemma_value_replaced(s0, node, t, m);
                }
            }
            let node_ref = index.get_mut(&node)?;
            Ok(Some((&node_ref.priority, &mut node_ref.value)))
        },
        Action::Left(left) => {
            proof {
                assert forall|s1: Seq<Option<Node<K, P, V>>>, u: Tree<K, P, V>|
                    #[trigger] repr(s1, left, u) && ids(s1, left, u) == ids(s0, left, *t->left)
                        && modifies(s0, s1, ids(s0, left, *t->left)) implies repr(
                    s1,
                    node,
                    Tree::Node {
                        left: Box::new(u),
                        key: t->key,
                        priority: t->priority,
                        value: t->value,
                        right: t->right,
                    },
                ) && ids(
                    s1,
                    node,
                    Tree::Node {
                        left: Box::new(u),
                        key: t->key,
                        priority: t->priority,
                        value: t->value,
                        right: t->right,
                    },
                ) == ids(s0, node, t) && modifies(s0, s1, ids(s0, node, t)) by {
                    lemma_left_replaced(s0, s1, node, t, u);
                }
            }
            search_node_mut(index, left, key, Ghost(*t->left))
        },
        Action::Right(right) => {
            proof {
                assert forall|s1: Seq<Option<Node<K, P, V>>>, u: Tree<K, P, V>|
                    #[trigger] repr(s1, right, u) && ids(s1, right, u) == ids(s0, right, *t->right)
                        && modifies(s0, s1, ids(s0, right, *t->right)) implies repr(
                    s1,
                    node,
                    Tree::Node {
                        left: t->left,
                        key: t->key,
                        priority: t->priority,
                        value: t->value,
                        right: Box::new(u),
                    },
                ) && ids(
                    s1,
                    node,
                    Tree::Node {
                        left: t->left,
                        key: t->key,
                        priority: t->priority,
                        value: t->value,
                        right: Box::new(u),
                    },
                ) == ids(s0, node, t) && modifies(s0, s1, ids(s0, node, t)) by {
                    lemma_right_replaced(s0, s1, node, t, u);
                }
            }
            search_node_mut(index, right, key, Ghost(*t->right))
        },
    }
}

/// Looks for `key` below `node` and hands out its priority.
fn search_priority<'t, K: PartialOrd, P: PartialOrd, V>(
    index: &'t DirectVecIndex<K, P, V>,
    node: NodePtr,
    key: &K,
    Ghost(t): Ghost<Tree<K, P, V>>,
) -> (r: Result<Option<&'t P>, IndexError>)
    requires
        total_order::<K>(),
        repr(index@, node, t),
    ensures
        r matches Ok(found) && match found {
            Some(p) => t.find(*key) matches Some(e) && e.0 == *p,
            None => t.find(*key) is None,
        },
    decreases t,
{
    if node.is_none() {
        return Ok(None);
    }
    let entry = index.get(&node)?;
    proof {
        lemma_operators(entry.key, *key);
    }
    if entry.key == *key {
        Ok(Some(&entry.priority))
    } else {
        if entry.key > *key {
            search_priority(index, entry.left, key, Ghost(*t->left))
        } else {
            search_priority(index, entry.right, key, Ghost(*t->right))
        }
    }
}

/// The height of the tree at `node`.
fn depth_node<K: PartialOrd, P: PartialOrd, V>(
    index: &DirectVecIndex<K, P, V>,
    node: NodePtr,
    Ghost(t): Ghost<Tree<K, P, V>>,
) -> (r: Result<usize, IndexError>)
    requires
        repr(index@, node, t),
        t.height() <= usize::MAX,
    ensures
        r matches Ok(d) && d == t.height(),
    decreases t,
{
    if node.is_none() {
        return Ok(0);
    }
    let (l, r) = {
        let entry = index.get(&node)?;
        (entry.left, entry.right)
    };
    Ok(
        1 + usize::max(
            depth_node(index, l, Ghost(*t->left))?,
            depth_node(index, r, Ghost(*t->right))?,
        ),
    )
}

/// Cuts the tree at `node`: takes its nodes out of the table down from every
/// node whose priority is below `p`.  Returns whether nothing is left.
fn check_node<K: PartialOrd, P: PartialOrd, V>(
    index: &mut DirectVecIndex<K, P, V>,
    node: NodePtr,
    p: &P,
    Ghost(t): Ghost<Tree<K, P, V>>,
) -> (r: Result<bool, IndexError>)
    requires
        total_order::<P>(),
        old(index).wf(),
        repr(old(index)@, node, t),
    ensures
        r matches Ok(gone) && gone == (t.cut(*p) is Leaf),
        final(index).wf(),
        same_outside(old(index)@, final(index)@, ids(old(index)@, node, t)),
        t.cut(*p) is Node ==> repr(final(index)@, node, t.cut(*p)),
        ids(final(index)@, node, t.cut(*p)).subset_of(ids(old(index)@, node, t)),
        final(index).live() == old(index).live().difference(ids(old(index)@, node, t)).union(
            ids(final(index)@, node, t.cut(*p)),
        ),
    decreases t,
{
    if node.is_none() {
        proof {
            assert(index.live() =~= index.live().difference(ids(index@, node, t)).union(
                ids(index@, node, t.cut(*p)),
            ));
        }
        return Ok(true);
    }
    let ghost start = *index;
    let ghost s0 = index@;
    let ghost e = node.unwrap();
    let ghost n = node_at(s0, node).unwrap();
    let ghost tl = *t->left;
    let ghost tr = *t->right;
    let ghost all = ids(s0, node, t);
    proof {
        lemma_ids(s0, node, t);
        lemma_ids(s0, n.left, tl);
        lemma_ids(s0, n.right, tr);
    }
    let entry = index.get(&node)?;
    proof {
        lemma_operators(entry.priority, *p);
    }
    match entry.priority < *p {
        true => {
            drop_node(index, node, p, Ghost(t))?;
            proof {
                assert(index.live() =~= start.live().difference(all).union(
                    ids(index@, node, t.cut(*p)),
                ));
            }
            Ok(true)
        },
        false => {
            let (l, r) = (entry.left, entry.right);
            let ghost cl = tl.cut(*p);
            let ghost cr = tr.cut(*p);
            let gone_left = check_node(index, l, p, Ghost(tl))?;
            let ghost s1 = index@;
            let ghost live1 = index.live();
            let ghost mid = *index;
            if gone_left {
                index.get_mut(&node)?.left = None;
            }
            let ghost s2 = index@;
            proof {
                lemma_modifies_wf(mid, *index, set![e]);
                if cl is Node {
                    lemma_ids(s1, l, cl);
                    lemma_untouched(s1, s2, set![e], l, cl);
                }
                lemma_untouched(s0, s1, ids(s0, l, tl), r, tr);
                lemma_untouched(s1, s2, set![e], r, tr);
            }
            let gone_right = check_node(index, r, p, Ghost(tr))?;
            let ghost s3 = index@;
            let ghost live3 = index.live();
            let ghost mid = *index;
            if gone_right {
                index.get_mut(&node)?.right = None;
            }
            proof {
                let s4 = index@;
                let left = if gone_left {
                    None
                } else {
                    l
                };
                let right = if gone_right {
                    None
                } else {
                    r
                };
                lemma_modifies_wf(mid, *index, set![e]);
                if cr is Node {
                    lemma_ids(s3, r, cr);
                    lemma_untouched(s3, s4, set![e], r, cr);
                }
                if cl is Node {
                    lemma_untouched(s2, s3, ids(s2, r, tr), l, cl);
                    lemma_untouched(s3, s4, set![e], l, cl);
                }
                assert(repr(s4, left, cl));
                assert(repr(s4, right, cr));
                assert(ids(s4, left, cl) =~= ids(s1, l, cl));
                assert(ids(s4, right, cr) =~= ids(s3, r, cr));
                assert(repr(s4, node, t.cut(*p)));
                assert(index.live() =~= start.live().difference(all).union(
                    ids(s4, node, t.cut(*p)),
                ));
            }
            Ok(false)
        },
    }
}

/// Takes every node of the tree at `node` out of the table.
fn drop_node<K: PartialOrd, P: PartialOrd, V>(
    index: &mut DirectVecIndex<K, P, V>,
    node: NodePtr,
    p: &P,
    Ghost(t): Ghost<Tree<K, P, V>>,
) -> (r: Result<(), IndexError>)
    requires
        old(index).wf(),
        repr(old(index)@, node, t),
    ensures
        r is Ok,
        final(index).wf(),
        same_outside(old(index)@, final(index)@, ids(old(index)@, node, t)),
        final(index).live() == old(index).live().difference(ids(old(index)@, node, t)),
    decreases t,
{
    if node.is_none() {
        proof {
            assert(index.live() =~= index.live().difference(ids(index@, node, t)));
        }
        return Ok(());
    }
    let ghost start = *index;
    let ghost s0 = index@;
    let ghost e = node.unwrap();
    let ghost tl = *t->left;
    let ghost tr = *t->right;
    let entry = index.remove(&node)?;
    let ghost s1 = index@;
    proof {
        lemma_ids(s0, entry.left, tl);
        lemma_ids(s0, entry.right, tr);
        lemma_slot_emptied(s0, e, entry.left, tl);
        lemma_slot_emptied(s0, e, entry.right, tr);
    }
    drop_node(index, entry.left, p, Ghost(tl))?;
    proof {
        lemma_untouched(s1, index@, ids(s1, entry.left, tl), entry.right, tr);
    }
    let r = drop_node(index, entry.right, p, Ghost(tr));
    proof {
        assert(index.live() =~= start.live().difference(ids(s0, node, t)));
    }
    r
}

/// Visits `node` on the walk for the `n` highest priorities: puts its
/// priority into the list unless `n` higher ones are there already, and in
/// that case leaves its children alone; else puts them on the queue.
fn nth_priority_node<'t, K: PartialOrd, P: PartialOrd, V>(
    index: &'t DirectVecIndex<K, P, V>,
    node: NodePtr,
    n: usize,
    queue: &mut VecDeque<NodePtr>,
    pri: &mut Vec<&'t P>,
    Ghost(t): Ghost<Tree<K, P, V>>,
) -> (r: Result<(), IndexError>)
    requires
        total_order::<P>(),
        n >= 1,
        repr(index@, node, t),
        sorted_desc(old(pri)@),
    ensures
        r is Ok,
        sorted_desc(final(pri)@),
        visited(
            index@,
            node,
            t,
            old(queue)@,
            final(queue)@,
            old(pri)@,
            final(pri)@,
            n as nat,
        ),
{
    if node.is_none() {
        return Ok(());
    }
    let ghost ps = pri@;
    let entry = index.get(&node)?;
    let found = search_desc(pri, &entry.priority);
    proof {
        match found {
            Ok(i) => {
                if n <= ps.len() {
                    lemma_trichotomy(*ps[i as int], *ps[n - 1]);
                }
            },
            Err(i) => {
                if n <= ps.len() {
                    lemma_trichotomy(entry.priority, *ps[n - 1]);
                }
            },
        }
    }
    let (push, check_ch) = match found {
        Ok(i) if i < n => (None, true),
        Err(i) if i < n => (Some(i), true),
        _ => (None, false),
    };
    if let Some(i) = push {
        pri.insert(i, &entry.priority);
        proof {
            assert(*pri@[i as int] == entry.priority);
        }
    }
    if check_ch {
        let ghost q0 = queue@;
        if entry.left.is_some() {
            queue.push_back(entry.left);
        }
        if entry.right.is_some() {
            queue.push_back(entry.right);
        }
        proof {
            assert(queue@ =~= q0 + kids(entry.left, entry.right));
        }
    } else {
        proof {
            assert(queue@ =~= queue@ + Seq::<NodePtr>::empty());
        }
    }
    Ok(())
}

} // verus!
