//! Library-wide laws, stated and proved once for all arenas.

use vstd::prelude::*;

use crate::id::IdGen;
use crate::tree::{node_ok, wf_tree, Node, Tree};

verus! {

/// Two identifiers drawn one after the other from the same generator are
/// distinct; so two arenas constructed in sequence never share an
/// identifier, whatever their structures hold.
pub proof fn lemma_sequential_ids_distinct(g0: IdGen, g1: IdGen, g2: IdGen, a: u64, b: u64)
    requires
        IdGen::step(g0, g1, a),
        IdGen::step(g1, g2, b),
    ensures
        a != b,
{
}

/// In every well-formed arena the root sits at position 0 and has no parent
/// and no siblings.
pub proof fn lemma_root_parentless<T>(t: Tree<T>)
    requires
        t.wf(),
    ensures
        t@[0].parent is None,
        t@[0].prev_sibling is None,
        t@[0].next_sibling is None,
{
    assert(node_ok(t@, t.child_order(), 0));
}

} // verus!
