//! The arena: a growable store of node records plus its identifier.

use vstd::prelude::*;

use crate::id::{IdGen, NodeId, TreeError};
use crate::node_mut::NodeMut;
use crate::node_ref::NodeRef;

verus! {

/// One stored record: a value and its structural links.
///
/// A record's position in the arena is its permanent identity; the links hold
/// positions of the parent, the neighbouring siblings, and the pair of first
/// and last child.
#[derive(Debug)]
pub struct Node<T> {
    pub parent: Option<usize>,
    pub prev_sibling: Option<usize>,
    pub next_sibling: Option<usize>,
    pub children: Option<(usize, usize)>,
    pub value: T,
}

/// A record holding `value` and no links at all.
pub open spec fn blank_node<T>(value: T) -> Node<T> {
    Node { parent: None, prev_sibling: None, next_sibling: None, children: None, value }
}

/// `n` with its `prev_sibling` link replaced.
pub open spec fn with_prev<T>(n: Node<T>, prev_sibling: Option<usize>) -> Node<T> {
    Node { prev_sibling, ..n }
}

/// `n` with its `next_sibling` link replaced.
pub open spec fn with_next<T>(n: Node<T>, next_sibling: Option<usize>) -> Node<T> {
    Node { next_sibling, ..n }
}

/// `n` with its `children` pair replaced.
pub open spec fn with_children<T>(n: Node<T>, children: Option<(usize, usize)>) -> Node<T> {
    Node { children, ..n }
}

/// `n` with its value replaced.
pub open spec fn with_value<T>(n: Node<T>, value: T) -> Node<T> {
    Node { value, ..n }
}

/// `n` with all three upward and sideways links cleared.
pub open spec fn unlinked<T>(n: Node<T>) -> Node<T> {
    Node { parent: None, prev_sibling: None, next_sibling: None, ..n }
}

/// The first entry of a `children` pair.
pub open spec fn pair_first(pair: Option<(usize, usize)>) -> usize
    recommends
        pair is Some,
{
    match pair {
        Some(q) => q.0,
        None => 0,
    }
}

/// The last entry of a `children` pair.
pub open spec fn pair_last(pair: Option<(usize, usize)>) -> usize
    recommends
        pair is Some,
{
    match pair {
        Some(q) => q.1,
        None => 0,
    }
}

/// The sibling links of the members of one child list `cs` of parent `p`
/// agree with the order of `cs`: each member names `p` as its parent, the
/// `prev_sibling` and `next_sibling` links walk `cs` in order, and no
/// position appears twice.
pub open spec fn child_list_ok<T>(s: Seq<Node<T>>, cs: Seq<usize>, p: int) -> bool {
    &&& (forall|k: int| #![trigger cs[k]] 0 <= k < cs.len() ==> cs[k] < s.len())
    &&& (forall|k: int| #![trigger cs[k]]
        0 <= k < cs.len() ==> s[cs[k] as int].parent == Some(p as usize))
    &&& (forall|k: int| #![trigger cs[k]]
        0 <= k < cs.len() ==> s[cs[k] as int].prev_sibling == (if k == 0 {
            Option::<usize>::None
        } else {
            Some(cs[k - 1])
        }))
    &&& (forall|k: int| #![trigger cs[k]]
        0 <= k < cs.len() ==> s[cs[k] as int].next_sibling == (if k == cs.len() - 1 {
            Option::<usize>::None
        } else {
            Some(cs[k + 1])
        }))
    &&& cs.no_duplicates()
}

/// The record at position `i` agrees with the child lists `m`:
/// a parented node was made after its parent and stands in the parent's list,
/// a parentless node has no siblings, and the `children` pair names exactly
/// the two ends of the node's own list.
pub open spec fn node_ok<T>(s: Seq<Node<T>>, m: Map<int, Seq<usize>>, i: int) -> bool {
    let n = s[i];
    &&& m.contains_key(i)
    &&& match n.parent {
        Some(p) => (p as int) < i && m.contains_key(p as int) && m[p as int].contains(i as usize),
        None => n.prev_sibling is None && n.next_sibling is None,
    }
    &&& n.children == (if m[i].len() == 0 {
        Option::<(usize, usize)>::None
    } else {
        Some((m[i][0], m[i].last()))
    })
}

/// Well-formedness of a whole arena: there is a parentless root at position
/// 0, and every record agrees with the child lists.
pub open spec fn wf_tree<T>(s: Seq<Node<T>>, m: Map<int, Seq<usize>>) -> bool {
    &&& 1 <= s.len()
    &&& s[0].parent is None
    &&& (forall|i: int| 0 <= i < s.len() ==> #[trigger] node_ok(s, m, i))
    &&& (forall|p: int| 0 <= p < s.len() ==> #[trigger] child_list_ok(s, m[p], p))
}

/// An arena of node records.
///
/// Storage only ever grows; a record's position is stable for the arena's
/// whole life.  The ghost `order` carries, for every position, the ordered
/// list of its children's positions: the link fields are its shadow, and
/// well-formedness ties the two together.
pub struct Tree<T> {
    pub id: u64,
    pub vec: Vec<Node<T>>,
    pub order: Ghost<Map<int, Seq<usize>>>,
}

impl<T> View for Tree<T> {
    type V = Seq<Node<T>>;

    open spec fn view(&self) -> Seq<Node<T>> {
        self.vec@
    }
}

impl<T> Tree<T> {
    /// The identifier this arena was made with.
    pub open spec fn spec_id(self) -> u64 {
        self.id
    }

    /// The child lists: for every position, the positions of its children in
    /// order.
    pub open spec fn child_order(self) -> Map<int, Seq<usize>> {
        self.order@
    }

    /// The ordered child list of the node at position `p`.
    pub open spec fn children_of(self, p: int) -> Seq<usize> {
        self.child_order()[p]
    }

    /// The arena's well-formedness: established by the constructors and
    /// preserved by every operation.
    pub open spec fn wf(self) -> bool {
        wf_tree(self@, self.child_order())
    }

    /// Makes an arena holding exactly a root with value `root`, under an
    /// identifier drawn from `gen`.
    pub fn new(root: T, gen: &mut IdGen) -> (r: Tree<T>)
        requires
            old(gen).counter() < u64::MAX,
        ensures
            IdGen::step(*old(gen), *final(gen), r.spec_id()),
            r@ =~= seq![blank_node(root)],
            r.child_order() == Map::<int, Seq<usize>>::empty().insert(0, Seq::<usize>::empty()),
            r.wf(),
    {
        let id = gen.fresh();
        let mut vec: Vec<Node<T>> = Vec::new();
        vec.push(Node {
            parent: None,
            prev_sibling: None,
            next_sibling: None,
            children: None,
            value: root,
        });
        let t = Tree {
            id,
            vec,
            order: Ghost(Map::<int, Seq<usize>>::empty().insert(0, Seq::<usize>::empty())),
        };
        proof {
            assert(t@ =~= seq![blank_node(root)]);
            assert forall|i: int| 0 <= i < t@.len() implies #[trigger] node_ok(
                t@,
                t.child_order(),
                i,
            ) by {
                assert(i == 0);
            }
        }
        t
    }

    /// Like [`Tree::new`], but with room reserved for `capacity` records.
    pub fn with_capacity(root: T, capacity: usize, gen: &mut IdGen) -> (r: Tree<T>)
        requires
            old(gen).counter() < u64::MAX,
        ensures
            IdGen::step(*old(gen), *final(gen), r.spec_id()),
            r@ =~= seq![blank_node(root)],
            r.child_order() == Map::<int, Seq<usize>>::empty().insert(0, Seq::<usize>::empty()),
            r.wf(),
    {
        let id = gen.fresh();
        let mut vec: Vec<Node<T>> = Vec::with_capacity(capacity);
        vec.push(Node {
            parent: None,
            prev_sibling: None,
            next_sibling: None,
            children: None,
            value: root,
        });
        let t = Tree {
            id,
            vec,
            order: Ghost(Map::<int, Seq<usize>>::empty().insert(0, Seq::<usize>::empty())),
        };
        proof {
            assert(t@ =~= seq![blank_node(root)]);
            assert forall|i: int| 0 <= i < t@.len() implies #[trigger] node_ok(
                t@,
                t.child_order(),
                i,
            ) by {
                assert(i == 0);
            }
        }
        t
    }

    /// How many records the arena holds.  This never shrinks.
    pub fn len(&self) -> (r: usize)
        ensures
            r == self@.len(),
    {
        self.vec.len()
    }

    /// A read cursor bound to the root.
    pub fn root<'a>(&'a self) -> (r: NodeRef<'a, T>)
        requires
            1 <= self@.len(),
        ensures
            r.arena() == *self,
            r.pos() == 0,
    {
        NodeRef { tree: self, index: 0 }
    }

    /// A write cursor bound to the root.  The cursor owns the arena; take it
    /// back with [`NodeMut::into_tree`].
    pub fn root_mut(self) -> (r: NodeMut<T>)
        ensures
            r.arena() == self,
            r.pos() == 0,
    {
        NodeMut { tree: self, index: 0 }
    }

    /// Appends a record holding `value` with no links, and returns a write
    /// cursor bound to it.  The new node is reachable through its handle but
    /// not from the root.
    pub fn orphan(self, value: T) -> (r: NodeMut<T>)
        requires
            self.wf(),
        ensures
            r.arena()@ =~= self@.push(blank_node(value)),
            r.arena().spec_id() == self.spec_id(),
            r.arena().child_order() == self.child_order().insert(
                self@.len() as int,
                Seq::<usize>::empty(),
            ),
            r.pos() == self@.len(),
            r.arena().wf(),
    {
        let mut t = self;
        let c = t.vec.len();
        t.vec.push(Node {
            parent: None,
            prev_sibling: None,
            next_sibling: None,
            children: None,
            value,
        });
        t.order = Ghost(t.order@.insert(c as int, Seq::<usize>::empty()));
        proof {
            lemma_grow_wf(self@, self.child_order(), blank_node(value));
        }
        NodeMut { tree: t, index: c }
    }

    /// Redeems a handle for a read cursor.
    ///
    /// Succeeds exactly when the handle was made by this arena and its
    /// position is in range; otherwise the handle belongs to another arena
    /// and is rejected.  (A handle made by this arena is always in range,
    /// because storage never shrinks.)
    pub fn get<'a>(&'a self, id: NodeId) -> (r: Result<NodeRef<'a, T>, TreeError>)
        ensures
            r is Ok <==> (id.spec_tree_id() == self.spec_id() && (id.spec_index() as int)
                < self@.len()),
            r is Ok ==> r->Ok_0.arena() == *self && r->Ok_0.pos() == id.spec_index(),
            r is Err ==> r->Err_0 == TreeError::InvalidHandle,
    {
        if id.tree_id == self.id && id.index < self.vec.len() {
            Ok(NodeRef { tree: self, index: id.index })
        } else {
            Err(TreeError::InvalidHandle)
        }
    }

    /// Redeems a handle for a write cursor, under the same validation as
    /// [`Tree::get`].  On rejection the arena is handed back unchanged.
    pub fn get_mut(self, id: NodeId) -> (r: Result<NodeMut<T>, (Tree<T>, TreeError)>)
        ensures
            r is Ok <==> (id.spec_tree_id() == self.spec_id() && (id.spec_index() as int)
                < self@.len()),
            r is Ok ==> r->Ok_0.arena() == self && r->Ok_0.pos() == id.spec_index(),
            r is Err ==> r->Err_0.0 == self && r->Err_0.1 == TreeError::InvalidHandle,
    {
        if id.tree_id == self.id && id.index < self.vec.len() {
            Ok(NodeMut { tree: self, index: id.index })
        } else {
            Err((self, TreeError::InvalidHandle))
        }
    }

    /// The ordered positions of the children of the node at `p`.
    pub(crate) fn child_positions(&self, p: usize) -> (r: Vec<usize>)
        requires
            self.wf(),
            (p as int) < self@.len(),
        ensures
            r@ == self.children_of(p as int),
    {
        let ghost s = self@;
        let ghost m = self.child_order();
        let ghost cs = self.children_of(p as int);
        let mut out: Vec<usize> = Vec::new();
        proof {
            assert(node_ok(s, m, p as int));
            assert(child_list_ok(s, m[p as int], p as int));
        }
        let mut cur: Option<usize> = match self.vec[p].children {
            Some(pair) => Some(pair.0),
            None => None,
        };
        while cur.is_some()
            invariant
                self.wf(),
                (p as int) < s.len(),
                s == self@,
                m == self.child_order(),
                cs == m[p as int],
                out@.len() <= cs.len(),
                out@ == cs.take(out@.len() as int),
                cur == (if out@.len() == cs.len() {
                    Option::<usize>::None
                } else {
                    Some(cs[out@.len() as int])
                }),
            decreases cs.len() - out@.len(),
        {
            let j = cur.unwrap();
            let ghost k = out@.len() as int;
            proof {
                assert(child_list_ok(s, m[p as int], p as int));
                assert(cs[k] < s.len());
            }
            out.push(j);
            cur = self.vec[j].next_sibling;
            proof {
                assert(out@ =~= cs.take(k + 1));
            }
        }
        proof {
            assert(out@ =~= cs);
        }
        out
    }
}

impl<T: Copy> Tree<T> {
    /// A structural copy of this arena under a fresh identifier.
    ///
    /// The copy holds the same records, links and child lists, so it compares
    /// equal to the original structure for structure and value; but it is a
    /// separate arena, so handles made by the original do not validate
    /// against it, and later mutation of either leaves the other untouched.
    pub fn duplicate(&self, gen: &mut IdGen) -> (r: Tree<T>)
        requires
            old(gen).counter() < u64::MAX,
        ensures
            IdGen::step(*old(gen), *final(gen), r.spec_id()),
            r@ == self@,
            r.child_order() == self.child_order(),
            self.wf() ==> r.wf(),
    {
        let mut vec: Vec<Node<T>> = Vec::with_capacity(self.vec.len());
        let mut i: usize = 0;
        while i < self.vec.len()
            invariant
                i <= self@.len(),
                vec@ == self@.take(i as int),
            decreases self@.len() - i,
        {
            let n = &self.vec[i];
            vec.push(Node {
                parent: n.parent,
                prev_sibling: n.prev_sibling,
                next_sibling: n.next_sibling,
                children: n.children,
                value: n.value,
            });
            proof {
                assert(vec@ =~= self@.take(i + 1));
            }
            i = i + 1;
        }
        proof {
            assert(vec@ =~= self@);
        }
        Tree { id: gen.fresh(), vec, order: Ghost(self.order@) }
    }
}

/// Appending one fresh, fully unlinked record keeps an arena well-formed.
pub proof fn lemma_grow_wf<T>(s: Seq<Node<T>>, m: Map<int, Seq<usize>>, n: Node<T>)
    requires
        wf_tree(s, m),
        n.parent is None,
        n.prev_sibling is None,
        n.next_sibling is None,
        n.children is None,
    ensures
        wf_tree(s.push(n), m.insert(s.len() as int, Seq::<usize>::empty())),
{
    let s1 = s.push(n);
    let m1 = m.insert(s.len() as int, Seq::<usize>::empty());
    let c = s.len() as int;
    assert forall|i: int| 0 <= i < s1.len() implies #[trigger] node_ok(s1, m1, i) by {
        if i < c {
            assert(node_ok(s, m, i));
            assert(s1[i] == s[i]);
            if s[i].parent is Some {
                let p = s[i].parent->0 as int;
                assert(m1[p] == m[p]);
            }
            assert(m1[i] == m[i]);
        } else {
            assert(m1[c].len() == 0);
        }
    }
    assert forall|p: int| 0 <= p < s1.len() implies #[trigger] child_list_ok(s1, m1[p], p) by {
        if p < c {
            assert(child_list_ok(s, m[p], p));
            let cs = m[p];
            assert(m1[p] == cs);
            assert forall|k: int| #![trigger cs[k]] 0 <= k < cs.len() implies s1[cs[k] as int]
                == s[cs[k] as int] by {
                assert(cs[k] < s.len());
            }
        } else {
            assert(m1[p].len() == 0);
        }
    }
}

} // verus!
