//! The slot table that owns every node.
//!
//! Nodes live in a flat vector and are named by their position in it.  A
//! removed slot stays in the vector, empty, and its position is put on a
//! stack from which the next insertion takes it again.

use vstd::prelude::*;
use vstd::relations::injective_on;
use vstd::set_lib::*;

verus! {

/// The position of a slot in the table.
pub type Id = usize;

/// A handle: the position of a node, or `None` for "no node".
pub type NodePtr = Option<Id>;

/// Why an operation of the container failed.
#[derive(Debug)]
pub enum Error {
    /// A handle did not resolve to a node.
    Index(IndexError),
}

/// Why a handle did not resolve to a node.
#[derive(Debug)]
pub enum IndexError {
    /// A node was needed and the handle named none.
    NoHandle,
    /// The slot exists but holds no node.
    Empty(Id),
    /// The table has no slot at that position.
    OutOfBounds(Id),
}

/// One entry of the container together with the handles of its two children.
#[derive(Debug, Clone, Copy)]
pub struct Node<K, P, V> {
    pub key: K,
    pub priority: P,
    pub value: V,
    pub left: NodePtr,
    pub right: NodePtr,
}

/// A table of nodes with reuse of freed positions.
#[derive(Debug)]
pub struct DirectVecIndex<K, P, V> {
    reuse: Vec<usize>,
    index: Vec<Option<Node<K, P, V>>>,
}

impl<K, P, V> View for DirectVecIndex<K, P, V> {
    type V = Seq<Option<Node<K, P, V>>>;

    /// The slots in order, `None` where a slot is empty.
    closed spec fn view(&self) -> Seq<Option<Node<K, P, V>>> {
        self.index@
    }
}

impl<K, P, V> DirectVecIndex<K, P, V> {
    /// The freed positions, the one to be reused next at the end.
    pub closed spec fn free(&self) -> Seq<usize> {
        self.reuse@
    }

    /// The freed positions are exactly the empty slots, each listed once.
    pub open spec fn wf(&self) -> bool {
        &&& self.free().no_duplicates()
        &&& forall|i: int|
            0 <= i < self.free().len() ==> (#[trigger] self.free()[i]) < self@.len()
                && self@[self.free()[i] as int] is None
        &&& forall|j: int|
            0 <= j < self@.len() && (#[trigger] self@[j]) is None ==> self.free().contains(
                j as usize,
            )
    }

    /// The positions that hold a node.
    pub open spec fn live(&self) -> Set<usize> {
        Set::new(|i: usize| i < self@.len() && self@[i as int] is Some)
    }

    /// What a handle resolves to: its node, or the reason why it has none.
    pub open spec fn resolve(&self, id: NodePtr) -> Result<Node<K, P, V>, IndexError> {
        match id {
            None => Err(IndexError::NoHandle),
            Some(i) => if i >= self@.len() {
                Err(IndexError::OutOfBounds(i))
            } else {
                match self@[i as int] {
                    None => Err(IndexError::Empty(i)),
                    Some(node) => Ok(node),
                }
            },
        }
    }

    /// The position that the next insertion fills: the one freed last, or a
    /// new one at the end of the table.
    pub open spec fn next_id(&self) -> usize {
        if self.free().len() > 0 {
            self.free().last()
        } else {
            self@.len() as usize
        }
    }

    /// The occupied positions are finite, and they and the freed ones add up
    /// to the table.
    pub proof fn lemma_live_len(&self)
        requires
            self.wf(),
        ensures
            self.live().finite(),
            self.live().len() + self.free().len() == self@.len(),
            self@.len() <= usize::MAX,
    {
        let n = self@.len();
        assert(n == self.index.len());
        let all = Set::new(|i: usize| i < n);
        let ints = set_int_range(0, n as int);
        lemma_int_range(0, n as int);
        let f = |i: int| i as usize;
        assert(all =~= ints.map(f)) by {
            assert forall|u: usize| all.contains(u) implies ints.map(f).contains(u) by {
                assert(ints.contains(u as int));
                assert(f(u as int) == u);
            }
        }
        assert(ints.map(f).len() == ints.len()) by {
            assert(n == self.index.len());
            assert(injective_on(f, ints)) by {
                assert forall|x: int, y: int|
                    ints.contains(x) && ints.contains(y) && #[trigger] f(x) == #[trigger] f(
                        y,
                    ) implies x == y by {}
            }
            lemma_map_size(ints, ints.map(f), f);
        }
        ints.lemma_map_finite(f);
        let freed = self.free().to_set();
        self.free().unique_seq_to_set();
        assert(freed.subset_of(all)) by {
            assert forall|u: usize| freed.contains(u) implies all.contains(u) by {
                let i = choose|i: int| 0 <= i < self.free().len() && self.free()[i] == u;
                assert(self.free()[i] < n);
            }
        }
        assert(self.live() =~= all.difference(freed)) by {
            assert forall|u: usize| all.difference(freed).contains(u) implies self.live().contains(
                u,
            ) by {
                if self@[u as int] is None {
                    assert(self.free().contains(u));
                }
            }
            assert forall|u: usize| self.live().contains(u) implies all.difference(freed).contains(
                u,
            ) by {
                if freed.contains(u) {
                    let i = choose|i: int| 0 <= i < self.free().len() && self.free()[i] == u;
                    assert(self@[self.free()[i] as int] is None);
                }
            }
        }
        lemma_len_difference(all, freed);
        lemma_len_subset(freed, all);
        assert(all.difference(freed).len() == all.len() - freed.len()) by {
            lemma_set_difference_len(all, freed);
            assert(all.intersect(freed) =~= freed);
        }
    }

    /// An empty table.
    pub fn new() -> (r: DirectVecIndex<K, P, V>)
        ensures
            r.wf(),
            r@ == Seq::<Option<Node<K, P, V>>>::empty(),
            r.free() == Seq::<usize>::empty(),
    {
        DirectVecIndex { reuse: Vec::new(), index: Vec::new() }
    }

    /// The number of occupied slots.
    pub fn size(&self) -> (n: usize)
        requires
            self.wf(),
        ensures
            n == self.live().len(),
            n == self@.len() - self.free().len(),
    {
        proof {
            self.lemma_live_len();
        }
        let i = self.index.len();
        let r = self.reuse.len();
        if i > r {
            i - r
        } else {
            0
        }
    }

    /// Stores a node and returns its handle.  The position is the one freed
    /// most recently if there is one, else a new one at the end.
    pub fn insert(&mut self, node: Node<K, P, V>) -> (r: NodePtr)
        requires
            old(self).wf(),
        ensures
            final(self).wf(),
            r == Some(old(self).next_id()),
            old(self).free().len() > 0 ==> final(self)@ == old(self)@.update(
                old(self).next_id() as int,
                Some(node),
            ) && final(self).free() == old(self).free().drop_last(),
            old(self).free().len() == 0 ==> final(self)@ == old(self)@.push(Some(node))
                && final(self).free() == old(self).free(),
            !old(self).live().contains(old(self).next_id()),
            final(self).live() == old(self).live().insert(old(self).next_id()),
    {
        let ghost before = *self;
        proof {
            if self.free().len() > 0 {
                assert(self.free()[self.free().len() - 1] == self.next_id());
            }
        }
        let r = Some(
            match self.reuse.pop() {
                Some(id) => {
                    assert(id == before.free()[before.free().len() - 1]);
                    self.index[id] = Some(node);
                    id
                },
                None => {
                    let id = self.index.len();
                    self.index.push(Some(node));
                    id
                },
            },
        );
        proof {
            let id = r.unwrap();
            assert forall|i: int| 0 <= i < self.free().len() implies (#[trigger] self.free()[i])
                < self@.len() && self@[self.free()[i] as int] is None by {
                assert(self.free()[i] == before.free()[i]);
            }
            assert forall|j: int| 0 <= j < self@.len() && (#[trigger] self@[j]) is None implies self
                .free().contains(j as usize) by {
                assert(self@.len() == self.index.len());
                assert(before@[j] is None);
                assert(before.free().contains(j as usize));
                let k = choose|k: int|
                    0 <= k < before.free().len() && before.free()[k] == j as usize;
                assert(self.free()[k] == j as usize);
            }
            assert(self.live() =~= before.live().insert(id));
        }
        r
    }

    /// Takes the node out of its slot and frees the position.
    pub fn remove(&mut self, id: &NodePtr) -> (r: Result<Node<K, P, V>, IndexError>)
        requires
            old(self).wf(),
        ensures
            final(self).wf(),
            r == old(self).resolve(*id),
            r is Ok ==> final(self)@ == old(self)@.update(id.unwrap() as int, None)
                && final(self).free() == old(self).free().push(id.unwrap()),
            r is Err ==> final(self)@ == old(self)@ && final(self).free() == old(self).free(),
            r is Ok ==> final(self).live() == old(self).live().remove(id.unwrap()),
            r is Err ==> final(self).live() == old(self).live(),
    {
        let ghost before = *self;
        match id {
            None => Err(IndexError::NoHandle),
            Some(id) if *id >= self.index.len() => Err(IndexError::OutOfBounds(*id)),
            Some(id) => match self.index[*id].take() {
                None => {
                    assert(self@ =~= before@);
                    assert(self.live() =~= before.live());
                    Err(IndexError::Empty(*id))
                },
                Some(node) => {
                    self.reuse.push(*id);
                    proof {
                        assert forall|i: int| 0 <= i < before.free().len() implies before.free()[i]
                            != *id by {
                            assert(before@[before.free()[i] as int] is None);
                        }
                        assert forall|i: int| 0 <= i < self.free().len() implies (
                        #[trigger] self.free()[i]) < self@.len() && self@[self.free()[i] as int]
                            is None by {
                            if i < before.free().len() {
                                assert(self.free()[i] == before.free()[i]);
                            }
                        }
                        assert forall|j: int|
                            0 <= j < self@.len() && (#[trigger] self@[j]) is None implies self.free(
                        ).contains(j as usize) by {
                            if j == *id {
                                assert(self.free()[before.free().len() as int] == *id);
                            } else {
                                assert(self@.len() == self.index.len());
                                assert(before@[j] is None);
                                assert(before.free().contains(j as usize));
                                let k = choose|k: int|
                                    0 <= k < before.free().len() && before.free()[k] == j as usize;
                                assert(self.free()[k] == j as usize);
                            }
                        }
                        assert(self.live() =~= before.live().remove(*id));
                    }
                    Ok(node)
                },
            },
        }
    }

    /// The node that a handle names.
    pub fn get(&self, id: &NodePtr) -> (r: Result<&Node<K, P, V>, IndexError>)
        ensures
            match r {
                Ok(node) => self.resolve(*id) == Ok::<Node<K, P, V>, IndexError>(*node),
                Err(e) => self.resolve(*id) == Err::<Node<K, P, V>, IndexError>(e),
            },
    {
        match id {
            None => Err(IndexError::NoHandle),
            Some(id) => match self.index.get(*id) {
                None => Err(IndexError::OutOfBounds(*id)),
                Some(None) => Err(IndexError::Empty(*id)),
                Some(Some(node)) => Ok(node),
            },
        }
    }

    /// The node that a handle names, to be changed in place.
    pub fn get_mut(&mut self, id: &NodePtr) -> (r: Result<&mut Node<K, P, V>, IndexError>)
        ensures
            match r {
                Ok(node) => old(self).resolve(*id) == Ok::<Node<K, P, V>, IndexError>(*node)
                    && final(self)@ == old(self)@.update(id.unwrap() as int, Some(*final(node)))
                    && final(self).free() == old(self).free(),
                Err(e) => old(self).resolve(*id) == Err::<Node<K, P, V>, IndexError>(e)
                    && final(self)@ == old(self)@ && final(self).free() == old(self).free(),
            },
            old(self).wf() ==> final(self).wf(),
            final(self).live() == old(self).live(),
    {
        proof {
            let before = *self;
            assert forall|after: Self, i: int, node: Node<K, P, V>|
                0 <= i < before@.len() && before@[i] is Some && after.free() == before.free()
                    && after@ == #[trigger] before@.update(i, Some(node)) implies (before.wf()
                ==> #[trigger] after.wf()) && after.live() == before.live() by {
                assert(after.live() =~= before.live());
                if before.wf() {
                    assert forall|j: int|
                        0 <= j < after@.len() && (#[trigger] after@[j]) is None implies after.free(
                    ).contains(j as usize) by {
                        assert(before@[j] is None);
                    }
                }
            }
        }
        match id {
            None => Err(IndexError::NoHandle),
            Some(id) if *id >= self.index.len() => Err(IndexError::OutOfBounds(*id)),
            Some(id) => match &mut self.index[*id] {
                None => Err(IndexError::Empty(*id)),
                Some(node) => Ok(node),
            },
        }
    }
}

} // verus!
