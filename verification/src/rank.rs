//! Ranking priorities.
//!
//! The n-th highest priority of a container is found by walking the tree
//! from the root and keeping the priorities met so far in a list, highest
//! first.  A subtree is not entered once its root's priority is known not to
//! be among the n highest.  The definitions and lemmas here say why the n-th
//! element of that list is the answer when the walk is over.

use crate::arena::{Node, NodePtr};
use crate::layout::{node_at, repr};
use crate::order::{
    lemma_le_transitive, lemma_lt_transitive, lemma_operators, lemma_trichotomy, lt, total_order,
};
use crate::tree::Tree;
use vstd::prelude::*;

verus! {

/// Every element is strictly below the ones before it.
pub open spec fn sorted_desc<P: PartialOrd>(s: Seq<&P>) -> bool {
    forall|i: int, j: int| #![trigger s[i], s[j]] 0 <= i < j < s.len() ==> lt(*s[j], *s[i])
}

/// `q` is an element of the list.
pub open spec fn holds<P>(s: Seq<&P>, q: P) -> bool {
    exists|i: int| 0 <= i < s.len() && *(#[trigger] s[i]) == q
}

/// `q` is below the n-th element of the list, so that at least `n` elements
/// are above it.
pub open spec fn pruned<P: PartialOrd>(s: Seq<&P>, n: nat, q: P) -> bool {
    1 <= n <= s.len() && lt(q, *s[n - 1])
}

/// Nothing more needs to be learnt of `q`: it is in the list, or it is not
/// among the `n` highest.
pub open spec fn settled<P: PartialOrd>(s: Seq<&P>, n: nat, q: P) -> bool {
    holds(s, q) || pruned(s, n, q)
}

/// The handles that a visited node puts on the queue: its children, left
/// before right, as far as it has them.
pub open spec fn kids(left: NodePtr, right: NodePtr) -> Seq<NodePtr> {
    (if left is Some {
        seq![left]
    } else {
        Seq::empty()
    }) + (if right is Some {
        seq![right]
    } else {
        Seq::empty()
    })
}

/// The subtrees that stand behind `kids`.
pub open spec fn kid_trees<K, P, V>(
    left: NodePtr,
    right: NodePtr,
    t: Tree<K, P, V>,
) -> Seq<Tree<K, P, V>>
    recommends
        t is Node,
{
    (if left is Some {
        seq![*t->left]
    } else {
        Seq::empty()
    }) + (if right is Some {
        seq![*t->right]
    } else {
        Seq::empty()
    })
}

/// The number of entries in all the trees together.
pub open spec fn total<K: PartialOrd, P: PartialOrd, V>(trees: Seq<Tree<K, P, V>>) -> nat
    decreases trees.len(),
{
    if trees.len() == 0 {
        0
    } else {
        total(trees.drop_last()) + trees.last().size()
    }
}

/// The trees that wait on the queue: each handle leads to its tree, which
/// has an entry and is a heap whose priorities are among `all`.
pub open spec fn waiting<K: PartialOrd, P: PartialOrd, V>(
    slots: Seq<Option<Node<K, P, V>>>,
    handles: Seq<NodePtr>,
    trees: Seq<Tree<K, P, V>>,
    all: Set<P>,
) -> bool {
    &&& handles.len() == trees.len()
    &&& forall|i: int|
        0 <= i < trees.len() ==> {
            &&& repr(slots, handles[i], #[trigger] trees[i])
            &&& trees[i] is Node
            &&& trees[i].is_heap()
            &&& trees[i].priorities().subset_of(all)
        }
}

/// `q` is a priority in one of the trees.
pub open spec fn ahead<K: PartialOrd, P: PartialOrd, V>(trees: Seq<Tree<K, P, V>>, q: P) -> bool {
    exists|i: int| 0 <= i < trees.len() && (#[trigger] trees[i]).priorities().contains(q)
}

/// What a visit to `node`, which leads to `t`, does to the queue and to the
/// list: nothing where there is no node or its priority is not among the
/// `n` highest; else the priority is in the list, at a place among the
/// first `n` if it is new, and the children are on the queue.
pub open spec fn visited<K: PartialOrd, P: PartialOrd, V>(
    slots: Seq<Option<Node<K, P, V>>>,
    node: NodePtr,
    t: Tree<K, P, V>,
    queue_before: Seq<NodePtr>,
    queue_after: Seq<NodePtr>,
    list_before: Seq<&P>,
    list_after: Seq<&P>,
    n: nat,
) -> bool {
    match t {
        Tree::Leaf => list_after == list_before && queue_after == queue_before,
        Tree::Node { priority, .. } => if pruned(list_before, n, priority) {
            list_after == list_before && queue_after == queue_before
        } else {
            let nd = node_at(slots, node).unwrap();
            &&& holds(list_after, priority)
            &&& (list_after == list_before || exists|i: int|
                0 <= i <= list_before.len() && i < n && list_after == #[trigger] list_before.insert(
                    i,
                    &priority,
                ))
            &&& queue_after == queue_before + kids(nd.left, nd.right)
        },
    }
}

/// The trees that are on the queue after a visit to a node whose tree was
/// taken off it.
pub open spec fn grown<K: PartialOrd, P: PartialOrd, V>(
    slots: Seq<Option<Node<K, P, V>>>,
    node: NodePtr,
    t: Tree<K, P, V>,
    rest: Seq<Tree<K, P, V>>,
    list_before: Seq<&P>,
    n: nat,
) -> Seq<Tree<K, P, V>> {
    if t is Node && !pruned(list_before, n, t->priority) {
        let nd = node_at(slots, node).unwrap();
        rest + kid_trees(nd.left, nd.right, t)
    } else {
        rest
    }
}

/// When the first tree leaves the queue, the others still wait on it.
pub proof fn lemma_waiting_rest<K: PartialOrd, P: PartialOrd, V>(
    slots: Seq<Option<Node<K, P, V>>>,
    handles: Seq<NodePtr>,
    trees: Seq<Tree<K, P, V>>,
    all: Set<P>,
)
    requires
        waiting(slots, handles, trees, all),
        trees.len() > 0,
    ensures
        waiting(
            slots,
            handles.subrange(1, handles.len() as int),
            trees.subrange(1, trees.len() as int),
            all,
        ),
{
    let hs = handles.subrange(1, handles.len() as int);
    let ts = trees.subrange(1, trees.len() as int);
    assert forall|i: int| 0 <= i < ts.len() implies {
        &&& repr(slots, hs[i], #[trigger] ts[i])
        &&& ts[i] is Node
        &&& ts[i].is_heap()
        &&& ts[i].priorities().subset_of(all)
    } by {
        assert(ts[i] == trees[i + 1]);
        assert(hs[i] == handles[i + 1]);
    }
}

/// After a visit the queue holds the handles of the trees that `grown`
/// names, in the same order.
pub proof fn lemma_walk<K: PartialOrd, P: PartialOrd, V>(
    slots: Seq<Option<Node<K, P, V>>>,
    node: NodePtr,
    t: Tree<K, P, V>,
    handles: Seq<NodePtr>,
    rest: Seq<Tree<K, P, V>>,
    list_before: Seq<&P>,
    n: nat,
    all: Set<P>,
)
    requires
        repr(slots, node, t),
        t.is_heap(),
        t.priorities().subset_of(all),
        waiting(slots, handles, rest, all),
    ensures
        t is Node && !pruned(list_before, n, t->priority) ==> waiting(
            slots,
            handles + kids(node_at(slots, node).unwrap().left, node_at(slots, node).unwrap().right),
            grown(slots, node, t, rest, list_before, n),
            all,
        ),
{
    if t is Node && !pruned(list_before, n, t->priority) {
        let nd = node_at(slots, node).unwrap();
        let hs = handles + kids(nd.left, nd.right);
        let ts = grown(slots, node, t, rest, list_before, n);
        let l = *t->left;
        let r = *t->right;
        assert(t.priorities() == l.priorities().union(r.priorities()).insert(t->priority));
        assert(repr(slots, nd.left, l));
        assert(repr(slots, nd.right, r));
        assert(nd.left is Some ==> l is Node);
        assert(nd.right is Some ==> r is Node);
        assert(hs.len() == ts.len());
        assert forall|i: int| 0 <= i < ts.len() implies {
            &&& repr(slots, hs[i], #[trigger] ts[i])
            &&& ts[i] is Node
            &&& ts[i].is_heap()
            &&& ts[i].priorities().subset_of(all)
        } by {
            if i < rest.len() {
                assert(ts[i] == rest[i]);
                assert(hs[i] == handles[i]);
            } else if i == rest.len() && nd.left is Some {
                assert(ts[i] == l);
                assert(hs[i] == nd.left);
            } else {
                assert(ts[i] == r);
                assert(hs[i] == nd.right);
            }
        }
    }
}

/// After a visit to the node of a tree every priority that was settled or
/// ahead, in that tree or in the others, is settled or ahead still.
pub proof fn lemma_walk_on<K: PartialOrd, P: PartialOrd, V>(
    slots: Seq<Option<Node<K, P, V>>>,
    node: NodePtr,
    t: Tree<K, P, V>,
    rest: Seq<Tree<K, P, V>>,
    list_before: Seq<&P>,
    list_after: Seq<&P>,
    n: nat,
    all: Set<P>,
)
    requires
        total_order::<P>(),
        n >= 1,
        repr(slots, node, t),
        t.is_heap(),
        t.priorities().subset_of(all),
        sorted_desc(list_before),
        sorted_desc(list_after),
        forall|i: int| 0 <= i < list_before.len() ==> all.contains(*(#[trigger] list_before[i])),
        t is Leaf ==> list_after == list_before,
        t is Node ==> if pruned(list_before, n, t->priority) {
            list_after == list_before
        } else {
            &&& holds(list_after, t->priority)
            &&& (list_after == list_before || exists|i: int|
                0 <= i <= list_before.len() && i < n && list_after == #[trigger] list_before.insert(
                    i,
                    &t->priority,
                ))
        },
        forall|q: P| #[trigger]
            all.contains(q) ==> settled(list_before, n, q) || t.priorities().contains(q) || ahead(
                rest,
                q,
            ),
    ensures
        forall|i: int| 0 <= i < list_after.len() ==> all.contains(*(#[trigger] list_after[i])),
        forall|q: P| #[trigger]
            all.contains(q) ==> settled(list_after, n, q) || ahead(
                grown(slots, node, t, rest, list_before, n),
                q,
            ),
{
    let ts = grown(slots, node, t, rest, list_before, n);
    if t is Node {
        let p = t->priority;
        let l = *t->left;
        let r = *t->right;
        let nd = node_at(slots, node).unwrap();
        assert(t.priorities() == l.priorities().union(r.priorities()).insert(p));
        t.lemma_heap_top();
        if list_after != list_before {
            let i = choose|i: int|
                0 <= i <= list_before.len() && i < n && list_after == #[trigger] list_before.insert(
                    i,
                    &p,
                );
            assert forall|j: int| 0 <= j < list_after.len() implies all.contains(
                *(#[trigger] list_after[j]),
            ) by {
                if j < i {
                    assert(list_after[j] == list_before[j]);
                } else if j > i {
                    assert(list_after[j] == list_before[j - 1]);
                }
            }
            assert forall|q: P| settled(list_before, n, q) implies settled(list_after, n, q) by {
                lemma_settled_grows(list_before, list_after, i, &p, n, q);
            }
        }
        assert forall|q: P| #[trigger] all.contains(q) implies settled(list_after, n, q) || ahead(
            ts,
            q,
        ) by {
            if settled(list_before, n, q) {
            } else if t.priorities().contains(q) {
                if pruned(list_before, n, p) {
                    lemma_trichotomy(p, *list_before[n - 1]);
                    lemma_le_transitive(q, p, *list_before[n - 1]);
                } else if q == p {
                } else if l.priorities().contains(q) {
                    assert(l is Node);
                    assert(repr(slots, nd.left, l));
                    assert(nd.left is Some);
                    assert(ts[rest.len() as int] == l);
                } else {
                    assert(r.priorities().contains(q));
                    assert(r is Node);
                    assert(repr(slots, nd.right, r));
                    assert(nd.right is Some);
                    assert(ts[ts.len() - 1] == r);
                }
            } else {
                let i = choose|i: int|
                    0 <= i < rest.len() && (#[trigger] rest[i]).priorities().contains(q);
                assert(ts[i] == rest[i]);
            }
        }
    } else {
        assert forall|q: P| #[trigger] all.contains(q) implies settled(list_after, n, q) || ahead(
            ts,
            q,
        ) by {
            assert(t.priorities() =~= Set::empty());
        }
    }
}

/// Adding trees adds their entries to the total.
pub proof fn lemma_total_add<K: PartialOrd, P: PartialOrd, V>(
    a: Seq<Tree<K, P, V>>,
    b: Seq<Tree<K, P, V>>,
)
    ensures
        total(a + b) == total(a) + total(b),
    decreases b.len(),
{
    if b.len() == 0 {
        assert(a + b =~= a);
    } else {
        lemma_total_add(a, b.drop_last());
        assert((a + b).drop_last() =~= a + b.drop_last());
    }
}

/// Taking the first tree away takes its entries from the total.
pub proof fn lemma_total_first<K: PartialOrd, P: PartialOrd, V>(a: Seq<Tree<K, P, V>>)
    requires
        a.len() > 0,
    ensures
        total(a) == a[0].size() + total(a.subrange(1, a.len() as int)),
{
    let head = seq![a[0]];
    let rest = a.subrange(1, a.len() as int);
    assert(a =~= head + rest);
    lemma_total_add(head, rest);
    lemma_total_one(a[0]);
}

/// The children of a node hold one entry less than the node's tree.
pub proof fn lemma_total_kids<K: PartialOrd, P: PartialOrd, V>(
    left: NodePtr,
    right: NodePtr,
    t: Tree<K, P, V>,
)
    requires
        t is Node,
    ensures
        total(kid_trees(left, right, t)) < t.size(),
{
    let l = if left is Some {
        seq![*t->left]
    } else {
        Seq::empty()
    };
    let r = if right is Some {
        seq![*t->right]
    } else {
        Seq::empty()
    };
    lemma_total_add(l, r);
    if left is Some {
        lemma_total_one(*t->left);
    }
    if right is Some {
        lemma_total_one(*t->right);
    }
}

/// One tree alone holds its own entries.
pub proof fn lemma_total_one<K: PartialOrd, P: PartialOrd, V>(t: Tree<K, P, V>)
    ensures
        total(seq![t]) == t.size(),
{
    assert(seq![t].drop_last() =~= Seq::empty());
    assert(total(seq![t].drop_last()) == 0);
}

/// What is settled stays settled when an element enters the list among its
/// first `n`.
pub proof fn lemma_settled_grows<P: PartialOrd>(a: Seq<&P>, b: Seq<&P>, i: int, p: &P, n: nat, q: P)
    requires
        total_order::<P>(),
        sorted_desc(a),
        sorted_desc(b),
        0 <= i <= a.len(),
        i < n,
        b == a.insert(i, p),
        settled(a, n, q),
    ensures
        settled(b, n, q),
{
    if holds(a, q) {
        let j = choose|j: int| 0 <= j < a.len() && *(#[trigger] a[j]) == q;
        if j < i {
            assert(*b[j] == q);
        } else {
            assert(*b[j + 1] == q);
        }
    } else {
        assert(b.len() == a.len() + 1);
        if n - 1 == i {
            assert(b[n - 1] == p);
            assert(b[n as int] == a[n - 1]);
            lemma_lt_transitive(q, *b[n as int], *b[n - 1]);
        } else {
            assert(b[n - 1] == a[n - 2]);
            lemma_lt_transitive(q, *a[n - 1], *a[n - 2]);
        }
    }
}

/// When every priority of a set is settled by a list of priorities of the
/// set, the list decides the n-th highest: it is the n-th element if there
/// is one, and else the set has fewer than `n` elements.
pub proof fn lemma_nth<P: PartialOrd>(s: Seq<&P>, all: Set<P>, n: nat)
    requires
        total_order::<P>(),
        sorted_desc(s),
        n >= 1,
        forall|i: int| 0 <= i < s.len() ==> all.contains(*(#[trigger] s[i])),
        forall|q: P| #[trigger] all.contains(q) ==> settled(s, n, q),
    ensures
        n <= s.len() ==> all.filter(|x: P| lt(*s[n - 1], x)).finite() && all.filter(
            |x: P| lt(*s[n - 1], x),
        ).len() == n - 1,
        s.len() < n ==> all.finite() && all.len() == s.len(),
{
    let vals = s.map_values(|r: &P| *r);
    assert forall|i: int, j: int|
        0 <= i < vals.len() && 0 <= j < vals.len() && i != j implies vals[i] != vals[j] by {
        if i < j {
            assert(lt(*s[j], *s[i]));
        } else {
            assert(lt(*s[i], *s[j]));
        }
        lemma_trichotomy(vals[i], vals[j]);
    }
    if n <= s.len() {
        let top = vals.subrange(0, n - 1);
        let above = all.filter(|x: P| lt(*s[n - 1], x));
        assert forall|x: P| above.contains(x) implies top.to_set().contains(x) by {
            lemma_trichotomy(x, *s[n - 1]);
            let j = choose|j: int| 0 <= j < s.len() && *(#[trigger] s[j]) == x;
            if j >= n {
                assert(lt(*s[j], *s[n - 1]));
            }
            assert(top[j] == x);
        }
        assert forall|x: P| top.to_set().contains(x) implies above.contains(x) by {
            let j = choose|j: int| 0 <= j < top.len() && top[j] == x;
            assert(all.contains(*s[j]));
            assert(lt(*s[n - 1], *s[j]));
        }
        assert(above =~= top.to_set());
        top.unique_seq_to_set();
    } else {
        assert forall|x: P| all.contains(x) implies vals.to_set().contains(x) by {
            let j = choose|j: int| 0 <= j < s.len() && *(#[trigger] s[j]) == x;
            assert(vals[j] == x);
        }
        assert forall|x: P| vals.to_set().contains(x) implies all.contains(x) by {
            let j = choose|j: int| 0 <= j < vals.len() && vals[j] == x;
            assert(all.contains(*s[j]));
        }
        assert(all =~= vals.to_set());
        vals.unique_seq_to_set();
    }
}

/// Finds `x` in a list that is sorted from the highest down.  Returns its
/// place if it is there, and else the place where it belongs.
pub fn search_desc<P: PartialOrd>(pri: &Vec<&P>, x: &P) -> (r: Result<usize, usize>)
    requires
        total_order::<P>(),
        sorted_desc(pri@),
    ensures
        match r {
            Ok(i) => i < pri@.len() && *pri@[i as int] == *x,
            Err(i) => {
                &&& i <= pri@.len()
                &&& !holds(pri@, *x)
                &&& forall|j: int| 0 <= j < i ==> lt(*x, *(#[trigger] pri@[j]))
                &&& forall|j: int| i <= j < pri@.len() ==> lt(*(#[trigger] pri@[j]), *x)
            },
        },
{
    let mut lo: usize = 0;
    let mut hi: usize = pri.len();
    while lo < hi
        invariant
            total_order::<P>(),
            sorted_desc(pri@),
            lo <= hi <= pri@.len(),
            forall|j: int| 0 <= j < lo ==> lt(*x, *(#[trigger] pri@[j])),
            forall|j: int| hi <= j < pri@.len() ==> lt(*(#[trigger] pri@[j]), *x),
        decreases hi - lo,
    {
        let mid: usize = lo + (hi - lo) / 2;
        let y: &P = pri[mid];
        proof {
            lemma_operators(*y, *x);
            lemma_trichotomy(*y, *x);
        }
        if *y > *x {
            proof {
                assert forall|j: int| 0 <= j < mid + 1 implies lt(*x, *(#[trigger] pri@[j])) by {
                    if j < mid {
                        lemma_lt_transitive(*x, *pri@[mid as int], *pri@[j]);
                    }
                }
            }
            lo = mid + 1;
        } else if *y < *x {
            proof {
                assert forall|j: int| mid <= j < pri@.len() implies lt(
                    *(#[trigger] pri@[j]),
                    *x,
                ) by {
                    if j > mid {
                        lemma_lt_transitive(*pri@[j], *pri@[mid as int], *x);
                    }
                }
            }
            hi = mid;
        } else {
            return Ok(mid);
        }
    }
    proof {
        assert forall|j: int| 0 <= j < pri@.len() implies *(#[trigger] pri@[j]) != *x by {
            lemma_trichotomy(*pri@[j], *x);
        }
    }
    Err(lo)
}

} // verus!
