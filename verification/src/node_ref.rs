//! The read cursor: a borrowed, read-only view of one node.

use vstd::prelude::*;

use crate::id::NodeId;
use crate::tree::{child_list_ok, node_ok, pair_first, pair_last, wf_tree, Node, Tree};

verus! {

/// A read-only cursor bound to one arena and one position.  Navigation
/// returns further read cursors into the same arena.
pub struct NodeRef<'a, T> {
    pub tree: &'a Tree<T>,
    pub index: usize,
}

impl<'a, T> NodeRef<'a, T> {
    /// The arena this cursor reads.
    pub open spec fn arena(self) -> Tree<T> {
        *self.tree
    }

    /// The position this cursor is bound to.
    pub open spec fn pos(self) -> usize {
        self.index
    }

    /// The weak handle of the node under the cursor.
    pub fn id(&self) -> (r: NodeId)
        ensures
            r.spec_tree_id() == self.arena().spec_id(),
            r.spec_index() == self.pos(),
    {
        NodeId { tree_id: self.tree.id, index: self.index }
    }

    /// The stored value of the node under the cursor.
    pub fn value(&self) -> (r: &T)
        requires
            (self.pos() as int) < self.arena()@.len(),
        ensures
            *r == self.arena()@[self.pos() as int].value,
    {
        &self.tree.vec[self.index].value
    }

    /// The parent of this node, if it has one.
    pub fn parent(&self) -> (r: Option<NodeRef<'a, T>>)
        requires
            (self.pos() as int) < self.arena()@.len(),
        ensures
            r is Some <==> self.arena()@[self.pos() as int].parent is Some,
            r is Some ==> r->0.arena() == self.arena() && Some(r->0.pos()) == self.arena()@[self.pos() as int].parent,
    {
        match self.tree.vec[self.index].parent {
            Some(p) => Some(NodeRef { tree: self.tree, index: p }),
            None => None,
        }
    }

    /// The sibling before this node, if any.
    pub fn prev_sibling(&self) -> (r: Option<NodeRef<'a, T>>)
        requires
            (self.pos() as int) < self.arena()@.len(),
        ensures
            r is Some <==> self.arena()@[self.pos() as int].prev_sibling is Some,
            r is Some ==> r->0.arena() == self.arena() && Some(r->0.pos()) == self.arena()@[self.pos() as int].prev_sibling,
    {
        match self.tree.vec[self.index].prev_sibling {
            Some(q) => Some(NodeRef { tree: self.tree, index: q }),
            None => None,
        }
    }

    /// The sibling after this node, if any.
    pub fn next_sibling(&self) -> (r: Option<NodeRef<'a, T>>)
        requires
            (self.pos() as int) < self.arena()@.len(),
        ensures
            r is Some <==> self.arena()@[self.pos() as int].next_sibling is Some,
            r is Some ==> r->0.arena() == self.arena() && Some(r->0.pos()) == self.arena()@[self.pos() as int].next_sibling,
    {
        match self.tree.vec[self.index].next_sibling {
            Some(q) => Some(NodeRef { tree: self.tree, index: q }),
            None => None,
        }
    }

    /// The first child of this node, if it has children.
    pub fn first_child(&self) -> (r: Option<NodeRef<'a, T>>)
        requires
            (self.pos() as int) < self.arena()@.len(),
        ensures
            r is Some <==> self.arena()@[self.pos() as int].children is Some,
            r is Some ==> r->0.arena() == self.arena() && r->0.pos() == pair_first(
                self.arena()@[self.pos() as int].children,
            ),
    {
        match self.tree.vec[self.index].children {
            Some(pair) => Some(NodeRef { tree: self.tree, index: pair.0 }),
            None => None,
        }
    }

    /// The last child of this node, if it has children.
    pub fn last_child(&self) -> (r: Option<NodeRef<'a, T>>)
        requires
            (self.pos() as int) < self.arena()@.len(),
        ensures
            r is Some <==> self.arena()@[self.pos() as int].children is Some,
            r is Some ==> r->0.arena() == self.arena() && r->0.pos() == pair_last(
                self.arena()@[self.pos() as int].children,
            ),
    {
        match self.tree.vec[self.index].children {
            Some(pair) => Some(NodeRef { tree: self.tree, index: pair.1 }),
            None => None,
        }
    }
}

/// The chain of positions reached by following `parent` links from `i`:
/// the parent first, then its parent, and so on.  Finite because every
/// parent stands at a smaller position than its child.
pub open spec fn ancestor_line<T>(s: Seq<Node<T>>, i: int) -> Seq<int>
    decreases i,
{
    if 0 <= i < s.len() {
        match s[i].parent {
            Some(p) => if (p as int) < i {
                seq![p as int] + ancestor_line(s, p as int)
            } else {
                Seq::empty()
            },
            None => Seq::empty(),
        }
    } else {
        Seq::empty()
    }
}

impl<'a, T> NodeRef<'a, T> {
    /// The ancestors of this node, nearest first.  The root's ancestor
    /// sequence is empty.
    pub fn ancestors(&self) -> (r: Vec<NodeRef<'a, T>>)
        requires
            self.arena().wf(),
            (self.pos() as int) < self.arena()@.len(),
        ensures
            r@.len() == ancestor_line(self.arena()@, self.pos() as int).len(),
            forall|k: int| 0 <= k < r@.len() ==> (#[trigger] r@[k].pos()) as int == ancestor_line(
                self.arena()@,
                self.pos() as int,
            )[k] && r@[k].arena() == self.arena(),
    {
        let ghost s = self.arena()@;
        let ghost target = ancestor_line(s, self.pos() as int);
        let mut out: Vec<NodeRef<'a, T>> = Vec::new();
        let mut cur: usize = self.index;
        let mut lk: Option<usize> = self.tree.vec[self.index].parent;
        while lk.is_some()
            invariant
                self.arena().wf(),
                s == self.arena()@,
                (cur as int) < s.len(),
                lk == s[cur as int].parent,
                out@.len() <= target.len(),
                ancestor_line(s, cur as int) =~= target.skip(out@.len() as int),
                forall|k: int| 0 <= k < out@.len() ==> (#[trigger] out@[k].pos()) as int
                    == target[k] && out@[k].arena() == self.arena(),
            decreases cur,
        {
            let p = lk.unwrap();
            let ghost n = out@.len() as int;
            proof {
                assert(node_ok(s, self.arena().child_order(), cur as int));
                let line_p = ancestor_line(s, p as int);
                assert(ancestor_line(s, cur as int) == seq![p as int] + line_p);
                assert(target.skip(n).len() == 1 + line_p.len());
                assert(n < target.len());
                assert(target.skip(n)[0] == p as int);
                assert(target[n] == p as int);
                assert forall|j: int| 0 <= j < line_p.len() implies line_p[j] == target.skip(
                    n + 1,
                )[j] by {
                    assert(line_p[j] == (seq![p as int] + line_p)[j + 1]);
                    assert(target.skip(n)[j + 1] == target[n + 1 + j]);
                }
                assert(line_p =~= target.skip(n + 1));
            }
            out.push(NodeRef { tree: self.tree, index: p });
            cur = p;
            lk = self.tree.vec[cur].parent;
        }
        proof {
            assert(ancestor_line(s, cur as int).len() == 0);
            assert(out@.len() == target.len());
        }
        out
    }

    /// The children of this node, in the order the arena linked them:
    /// first child first.
    pub fn children(&self) -> (r: Vec<NodeRef<'a, T>>)
        requires
            self.arena().wf(),
            (self.pos() as int) < self.arena()@.len(),
        ensures
            r@.len() == self.arena().children_of(self.pos() as int).len(),
            forall|k: int| 0 <= k < r@.len() ==> (#[trigger] r@[k].pos()) == self.arena()
                .children_of(self.pos() as int)[k] && r@[k].arena() == self.arena(),
    {
        let ghost cs = self.arena().children_of(self.pos() as int);
        let kids = self.tree.child_positions(self.index);
        let mut out: Vec<NodeRef<'a, T>> = Vec::new();
        let mut t: usize = 0;
        while t < kids.len()
            invariant
                kids@ == cs,
                t <= kids@.len(),
                out@.len() == t,
                forall|k: int| 0 <= k < out@.len() ==> (#[trigger] out@[k].pos()) == cs[k]
                    && out@[k].arena() == self.arena(),
            decreases kids@.len() - t,
        {
            out.push(NodeRef { tree: self.tree, index: kids[t] });
            t = t + 1;
        }
        out
    }
}

} // verus!
