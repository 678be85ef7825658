//! The write cursor: an owning, mutating view of one node.

use vstd::prelude::*;

use crate::id::{NodeId, TreeError};
use crate::tree::{
    child_list_ok, node_ok, unlinked, wf_tree, with_children, with_next, with_prev, with_value,
    Node, Tree,
};

verus! {

/// The storage after splicing one fresh record, holding `value`, into the
/// child list `cs` of the node at `p`, at list position `k`.  The new record
/// goes at the end of storage; the neighbours at positions `k - 1` and `k`
/// of `cs` (where present) and the parent's `children` pair are rewired
/// around it.
#[verifier::opaque]
pub open spec fn splice_result<T>(
    s: Seq<Node<T>>,
    cs: Seq<usize>,
    p: int,
    k: int,
    value: T,
) -> Seq<Node<T>>
    recommends
        0 <= k <= cs.len(),
{
    let c = s.len() as usize;
    let prev_lk = if k == 0 {
        Option::<usize>::None
    } else {
        Some(cs[k - 1])
    };
    let next_lk = if k == cs.len() {
        Option::<usize>::None
    } else {
        Some(cs[k])
    };
    let s1 = s.push(
        Node {
            parent: Some(p as usize),
            prev_sibling: prev_lk,
            next_sibling: next_lk,
            children: None,
            value,
        },
    );
    let s2 = if k > 0 {
        s1.update(cs[k - 1] as int, with_next(s1[cs[k - 1] as int], Some(c)))
    } else {
        s1
    };
    let s3 = if k < cs.len() {
        s2.update(cs[k] as int, with_prev(s2[cs[k] as int], Some(c)))
    } else {
        s2
    };
    let cs1 = cs.insert(k, c);
    s3.update(p, with_children(s3[p], Some((cs1[0], cs1.last()))))
}

/// Relates an arena before and after one splice: the storage is rewired as
/// [`splice_result`] says, the child list of `p` gains the new position `c`
/// at list position `k`, the new node has an empty child list of its own,
/// and the arena keeps its identifier.
pub open spec fn spliced<T>(pre: Tree<T>, post: Tree<T>, p: int, k: int, c: usize, value: T) -> bool {
    let cs = pre.children_of(p);
    &&& c == pre@.len()
    &&& post@ == splice_result(pre@, cs, p, k, value)
    &&& post.child_order() == pre.child_order().insert(p, cs.insert(k, c)).insert(
        c as int,
        Seq::<usize>::empty(),
    )
    &&& post.spec_id() == pre.spec_id()
}

/// In a well-formed arena, the node at `p` never stands in its own child
/// list, and no list member reaches the end of storage.
proof fn lemma_list_members<T>(s: Seq<Node<T>>, m: Map<int, Seq<usize>>, p: int)
    requires
        wf_tree(s, m),
        0 <= p < s.len(),
    ensures
        forall|j: int| 0 <= j < m[p].len() ==> (#[trigger] m[p][j]) < s.len() && m[p][j] != p,
{
    let cs = m[p];
    assert(child_list_ok(s, m[p], p));
    assert forall|j: int| 0 <= j < cs.len() implies (#[trigger] cs[j]) < s.len() && cs[j]
        != p by {
        if cs[j] == p {
            assert(s[p].parent == Some(p as usize));
            assert(node_ok(s, m, p));
        }
    }
}

/// Pointwise description of the storage [`splice_result`] yields.
#[verifier::rlimit(100)]
proof fn lemma_splice_pointwise<T>(s: Seq<Node<T>>, m: Map<int, Seq<usize>>, p: int, k: int, value: T)
    requires
        wf_tree(s, m),
        s.len() <= usize::MAX,
        0 <= p < s.len(),
        0 <= k <= m[p].len(),
    ensures
        splice_result(s, m[p], p, k, value).len() == s.len() + 1,
        splice_result(s, m[p], p, k, value)[s.len() as int] == (Node {
            parent: Some(p as usize),
            prev_sibling: if k == 0 {
                Option::<usize>::None
            } else {
                Some(m[p][k - 1])
            },
            next_sibling: if k == m[p].len() {
                Option::<usize>::None
            } else {
                Some(m[p][k])
            },
            children: None,
            value,
        }),
        k > 0 ==> splice_result(s, m[p], p, k, value)[m[p][k - 1] as int] == with_next(
            s[m[p][k - 1] as int],
            Some(s.len() as usize),
        ),
        k < m[p].len() ==> splice_result(s, m[p], p, k, value)[m[p][k] as int] == with_prev(
            s[m[p][k] as int],
            Some(s.len() as usize),
        ),
        splice_result(s, m[p], p, k, value)[p] == with_children(
            s[p],
            Some(
                (
                    m[p].insert(k, s.len() as usize)[0],
                    m[p].insert(k, s.len() as usize).last(),
                ),
            ),
        ),
        forall|i: int|
            0 <= i < s.len() && i != p && (k == 0 || i != m[p][k - 1]) && (k == m[p].len() || i
                != m[p][k]) ==> #[trigger] splice_result(s, m[p], p, k, value)[i] == s[i],
{
    reveal(splice_result);
    let cs = m[p];
    let c = s.len() as usize;
    let cs1 = cs.insert(k, c);
    let s4 = splice_result(s, cs, p, k, value);
    cs.insert_ensures(k, c);
    lemma_list_members(s, m, p);
    assert(child_list_ok(s, cs, p));
    assert(node_ok(s, m, p));
    assert(s4.len() == s.len() + 1);
    if k > 0 {
        assert(s4[cs[k - 1] as int] == with_next(s[cs[k - 1] as int], Some(c)));
    }
    if k < cs.len() {
        assert(s4[cs[k] as int] == with_prev(s[cs[k] as int], Some(c)));
    }
    assert(s4[p] == with_children(s[p], Some((cs1[0], cs1.last()))));
    assert forall|i: int|
        0 <= i < s.len() && i != p && (k == 0 || i != cs[k - 1]) && (k == cs.len() || i
            != cs[k]) implies #[trigger] s4[i] == s[i] by {}
}

/// After a splice, every record agrees with the new child lists.
#[verifier::rlimit(100)]
proof fn lemma_splice_nodes<T>(s: Seq<Node<T>>, m: Map<int, Seq<usize>>, p: int, k: int, value: T)
    requires
        wf_tree(s, m),
        s.len() <= usize::MAX,
        0 <= p < s.len(),
        0 <= k <= m[p].len(),
    ensures
        forall|i: int|
            0 <= i < splice_result(s, m[p], p, k, value).len() ==> #[trigger] node_ok(
                splice_result(s, m[p], p, k, value),
                m.insert(p, m[p].insert(k, s.len() as usize)).insert(
                    s.len() as int,
                    Seq::<usize>::empty(),
                ),
                i,
            ),
{
    lemma_splice_pointwise(s, m, p, k, value);
    assert forall|i: int|
        0 <= i < splice_result(s, m[p], p, k, value).len() implies #[trigger] node_ok(
        splice_result(s, m[p], p, k, value),
        m.insert(p, m[p].insert(k, s.len() as usize)).insert(s.len() as int, Seq::<usize>::empty()),
        i,
    ) by {
        lemma_splice_node_one(s, m, p, k, value, i);
    }
}

/// One record's agreement with the child lists after a splice.
#[verifier::rlimit(100)]
proof fn lemma_splice_node_one<T>(
    s: Seq<Node<T>>,
    m: Map<int, Seq<usize>>,
    p: int,
    k: int,
    value: T,
    i: int,
)
    requires
        wf_tree(s, m),
        s.len() <= usize::MAX,
        0 <= p < s.len(),
        0 <= k <= m[p].len(),
        0 <= i <= s.len(),
    ensures
        node_ok(
            splice_result(s, m[p], p, k, value),
            m.insert(p, m[p].insert(k, s.len() as usize)).insert(
                s.len() as int,
                Seq::<usize>::empty(),
            ),
            i,
        ),
{
    let cs = m[p];
    let c = s.len() as usize;
    let cs1 = cs.insert(k, c);
    let s4 = splice_result(s, cs, p, k, value);
    let m1 = m.insert(p, cs1).insert(c as int, Seq::<usize>::empty());
    cs.insert_ensures(k, c);
    lemma_list_members(s, m, p);
    assert(child_list_ok(s, cs, p));
    assert(node_ok(s, m, p));
    lemma_splice_pointwise(s, m, p, k, value);
    {
        if i == c as int {
            assert(cs1[k] == c);
            assert(cs1.contains(c));
            assert(m1[c as int].len() == 0);
        } else {
            assert(node_ok(s, m, i));
            if i != p {
                assert(m1[i] == m[i]);
            }
            if i == p {
                assert(s4[p] == with_children(s[p], Some((cs1[0], cs1.last()))));
            } else if k > 0 && i == cs[k - 1] as int {
                assert(s4[i] == with_next(s[i], Some(c)));
            } else if k < cs.len() && i == cs[k] as int {
                assert(s4[i] == with_prev(s[i], Some(c)));
            } else {
                assert(s4[i] == s[i]);
            }
            assert(s4[i].parent == s[i].parent);
            assert(s4[i].children == s[i].children || i == p);
            match s[i].parent {
                Some(pp) => {
                    if pp as int == p {
                        assert(cs.contains(i as usize));
                        let j = choose|j: int| 0 <= j < cs.len() && cs[j] == i as usize;
                        assert(0 <= j < cs.len() && cs[j] == i as usize);
                        if j < k {
                            assert(cs1[j] == i as usize);
                        } else {
                            assert(cs1[j + 1] == i as usize);
                        }
                        assert(cs1.contains(i as usize));
                    } else {
                        assert(m1[pp as int] == m[pp as int]);
                    }
                },
                None => {
                    if k > 0 && i == cs[k - 1] {
                        assert(s[cs[k - 1] as int].parent == Some(p as usize));
                    }
                    if k < cs.len() && i == cs[k] {
                        assert(s[cs[k] as int].parent == Some(p as usize));
                    }
                    assert(s4[i].prev_sibling is None);
                    assert(s4[i].next_sibling is None);
                },
            }
            if i == p {
                assert(s4[p].children == Some((cs1[0], cs1.last())));
                assert(m1[p] == cs1);
                assert(cs1.len() > 0);
            } else {
                assert(s4[i].children == s[i].children);
                assert(m1[i] == m[i]);
            }
        }
    }
}

/// After a splice, every child list still walks its sibling links in order.
#[verifier::rlimit(100)]
proof fn lemma_splice_lists<T>(s: Seq<Node<T>>, m: Map<int, Seq<usize>>, p: int, k: int, value: T)
    requires
        wf_tree(s, m),
        s.len() <= usize::MAX,
        0 <= p < s.len(),
        0 <= k <= m[p].len(),
    ensures
        forall|q: int|
            0 <= q < splice_result(s, m[p], p, k, value).len() ==> #[trigger] child_list_ok(
                splice_result(s, m[p], p, k, value),
                m.insert(p, m[p].insert(k, s.len() as usize)).insert(
                    s.len() as int,
                    Seq::<usize>::empty(),
                )[q],
                q,
            ),
{
    lemma_splice_pointwise(s, m, p, k, value);
    assert forall|q: int|
        0 <= q < splice_result(s, m[p], p, k, value).len() implies #[trigger] child_list_ok(
        splice_result(s, m[p], p, k, value),
        m.insert(p, m[p].insert(k, s.len() as usize)).insert(
            s.len() as int,
            Seq::<usize>::empty(),
        )[q],
        q,
    ) by {
        lemma_splice_list_one(s, m, p, k, value, q);
    }
}

/// One child list's agreement with the sibling links after a splice.
#[verifier::rlimit(100)]
proof fn lemma_splice_list_one<T>(
    s: Seq<Node<T>>,
    m: Map<int, Seq<usize>>,
    p: int,
    k: int,
    value: T,
    q: int,
)
    requires
        wf_tree(s, m),
        s.len() <= usize::MAX,
        0 <= p < s.len(),
        0 <= k <= m[p].len(),
        0 <= q <= s.len(),
    ensures
        child_list_ok(
            splice_result(s, m[p], p, k, value),
            m.insert(p, m[p].insert(k, s.len() as usize)).insert(
                s.len() as int,
                Seq::<usize>::empty(),
            )[q],
            q,
        ),
{
    let cs = m[p];
    let c = s.len() as usize;
    let cs1 = cs.insert(k, c);
    let s4 = splice_result(s, cs, p, k, value);
    let m1 = m.insert(p, cs1).insert(c as int, Seq::<usize>::empty());
    cs.insert_ensures(k, c);
    lemma_list_members(s, m, p);
    assert(child_list_ok(s, cs, p));
    assert(node_ok(s, m, p));
    lemma_splice_pointwise(s, m, p, k, value);
    {
        if q == c as int {
            assert(m1[q].len() == 0);
        } else if q == p {
            assert(m1[p] == cs1);
            assert forall|j: int| #![trigger cs1[j]] 0 <= j < cs1.len() implies cs1[j] < s4.len()
                && s4[cs1[j] as int].parent == Some(p as usize) && s4[cs1[j] as int].prev_sibling
                == (if j == 0 {
                Option::<usize>::None
            } else {
                Some(cs1[j - 1])
            }) && s4[cs1[j] as int].next_sibling == (if j == cs1.len() - 1 {
                Option::<usize>::None
            } else {
                Some(cs1[j + 1])
            }) by {
                if j < k {
                    assert(cs1[j] == cs[j]);
                    if j > 0 {
                        assert(cs1[j - 1] == cs[j - 1]);
                    }
                    if j == k - 1 {
                        assert(s4[cs1[j] as int] == with_next(s[cs[j] as int], Some(c)));
                        assert(cs1[j + 1] == c);
                    } else {
                        assert(cs[j] != cs[k - 1] || k == 0);
                        assert(s4[cs1[j] as int].next_sibling == s[cs[j] as int].next_sibling);
                        assert(cs1[j + 1] == cs[j + 1]);
                    }
                } else if j == k {
                    assert(cs1[j] == c);
                    if j > 0 {
                        assert(cs1[j - 1] == cs[j - 1]);
                    }
                    if j < cs1.len() - 1 {
                        assert(cs1[j + 1] == cs[j]);
                    }
                } else {
                    assert(cs1[j] == cs[j - 1]);
                    if j == k + 1 {
                        assert(s4[cs1[j] as int] == with_prev(s[cs[k] as int], Some(c)));
                        assert(cs1[j - 1] == c);
                    } else {
                        assert(s4[cs1[j] as int].prev_sibling == s[cs[j - 1] as int].prev_sibling);
                        assert(cs1[j - 1] == cs[j - 2]);
                    }
                    if j == cs1.len() - 1 {
                        assert(s[cs[j - 1] as int].next_sibling is None);
                    } else {
                        assert(cs1[j + 1] == cs[j]);
                    }
                }
            }
            assert forall|x: int, y: int|
                0 <= x < cs1.len() && 0 <= y < cs1.len() && x != y implies cs1[x] != cs1[y] by {
                if cs1[x] == cs1[y] {
                    assert(x == k || cs1[x] < c);
                    assert(y == k || cs1[y] < c);
                }
            }
            assert(cs1.no_duplicates());
        } else {
            assert(child_list_ok(s, m[q], q));
            assert(m1[q] == m[q]);
            let csq = m[q];
            assert forall|j: int| #![trigger csq[j]] 0 <= j < csq.len() implies s4[csq[j] as int].parent
                == s[csq[j] as int].parent && s4[csq[j] as int].prev_sibling == s[csq[j] as int].prev_sibling
                && s4[csq[j] as int].next_sibling == s[csq[j] as int].next_sibling by {
                let e = csq[j];
                assert(s[e as int].parent == Some(q as usize));
                if k > 0 && e == cs[k - 1] {
                    assert(s[cs[k - 1] as int].parent == Some(p as usize));
                }
                if k < cs.len() && e == cs[k] {
                    assert(s[cs[k] as int].parent == Some(p as usize));
                }
            }
        }
    }
}

/// Splicing one fresh record into a child list keeps the arena well-formed.
pub proof fn lemma_splice_wf<T>(s: Seq<Node<T>>, m: Map<int, Seq<usize>>, p: int, k: int, value: T)
    requires
        wf_tree(s, m),
        s.len() <= usize::MAX,
        0 <= p < s.len(),
        0 <= k <= m[p].len(),
    ensures
        wf_tree(
            splice_result(s, m[p], p, k, value),
            m.insert(p, m[p].insert(k, s.len() as usize)).insert(
                s.len() as int,
                Seq::<usize>::empty(),
            ),
        ),
{
    lemma_splice_pointwise(s, m, p, k, value);
    lemma_splice_nodes(s, m, p, k, value);
    lemma_splice_lists(s, m, p, k, value);
    let s4 = splice_result(s, m[p], p, k, value);
    assert(s4[0].parent == s[0].parent);
}

/// The position of a parented node inside its parent's child list, together
/// with what its sibling links must then hold.
proof fn lemma_position_in_parent<T>(s: Seq<Node<T>>, m: Map<int, Seq<usize>>, i: usize) -> (k: int)
    requires
        wf_tree(s, m),
        (i as int) < s.len(),
        s[i as int].parent is Some,
    ensures
        ({
            let p = s[i as int].parent->0 as int;
            &&& 0 <= k < m[p].len()
            &&& m[p][k] == i
            &&& m[p].index_of(i) == k
            &&& s[i as int].prev_sibling == (if k == 0 {
                Option::<usize>::None
            } else {
                Some(m[p][k - 1])
            })
            &&& s[i as int].next_sibling == (if k == m[p].len() - 1 {
                Option::<usize>::None
            } else {
                Some(m[p][k + 1])
            })
        }),
{
    let p = s[i as int].parent->0 as int;
    assert(node_ok(s, m, i as int));
    assert(m[p].contains(i));
    assert(child_list_ok(s, m[p], p));
    let k = choose|k: int| 0 <= k < m[p].len() && m[p][k] == i;
    let ki = m[p].index_of(i);
    assert(0 <= ki < m[p].len() && m[p][ki] == i);
    assert(ki == k);
    k
}

/// The storage after detaching the member at list position `k` of the child
/// list `cs` of the node at `p`: its two neighbours (where present) are
/// linked to each other, the parent's `children` pair is rewired, and the
/// detached record keeps only its value and its own children.
#[verifier::opaque]
pub open spec fn detach_result<T>(s: Seq<Node<T>>, cs: Seq<usize>, p: int, k: int) -> Seq<Node<T>>
    recommends
        0 <= k < cs.len(),
{
    let i = cs[k];
    let s1 = if k > 0 {
        s.update(
            cs[k - 1] as int,
            with_next(
                s[cs[k - 1] as int],
                if k < cs.len() - 1 {
                    Some(cs[k + 1])
                } else {
                    Option::<usize>::None
                },
            ),
        )
    } else {
        s
    };
    let s2 = if k < cs.len() - 1 {
        s1.update(
            cs[k + 1] as int,
            with_prev(
                s1[cs[k + 1] as int],
                if k > 0 {
                    Some(cs[k - 1])
                } else {
                    Option::<usize>::None
                },
            ),
        )
    } else {
        s1
    };
    let cs1 = cs.remove(k);
    let s3 = s2.update(
        p,
        with_children(
            s2[p],
            if cs1.len() == 0 {
                Option::<(usize, usize)>::None
            } else {
                Some((cs1[0], cs1.last()))
            },
        ),
    );
    s3.update(i as int, unlinked(s3[i as int]))
}

/// Relates an arena before and after one detach: the storage is rewired as
/// [`detach_result`] says, the child list of `p` loses its member at list
/// position `k`, and the arena keeps its identifier.
pub open spec fn unspliced<T>(pre: Tree<T>, post: Tree<T>, p: int, k: int) -> bool {
    &&& post@ == detach_result(pre@, pre.children_of(p), p, k)
    &&& post.child_order() == pre.child_order().insert(p, pre.children_of(p).remove(k))
    &&& post.spec_id() == pre.spec_id()
}

/// Pointwise description of the storage [`detach_result`] yields.
#[verifier::rlimit(100)]
proof fn lemma_detach_pointwise<T>(s: Seq<Node<T>>, m: Map<int, Seq<usize>>, p: int, k: int)
    requires
        wf_tree(s, m),
        s.len() <= usize::MAX,
        0 <= p < s.len(),
        0 <= k < m[p].len(),
    ensures
        detach_result(s, m[p], p, k).len() == s.len(),
        detach_result(s, m[p], p, k)[m[p][k] as int] == unlinked(s[m[p][k] as int]),
        k > 0 ==> detach_result(s, m[p], p, k)[m[p][k - 1] as int] == with_next(
            s[m[p][k - 1] as int],
            if k < m[p].len() - 1 {
                Some(m[p][k + 1])
            } else {
                Option::<usize>::None
            },
        ),
        k < m[p].len() - 1 ==> detach_result(s, m[p], p, k)[m[p][k + 1] as int] == with_prev(
            s[m[p][k + 1] as int],
            if k > 0 {
                Some(m[p][k - 1])
            } else {
                Option::<usize>::None
            },
        ),
        detach_result(s, m[p], p, k)[p] == with_children(
            s[p],
            if m[p].remove(k).len() == 0 {
                Option::<(usize, usize)>::None
            } else {
                Some((m[p].remove(k)[0], m[p].remove(k).last()))
            },
        ),
        forall|j: int|
            0 <= j < s.len() && j != p && j != m[p][k] && (k == 0 || j != m[p][k - 1]) && (k
                == m[p].len() - 1 || j != m[p][k + 1]) ==> #[trigger] detach_result(
                s,
                m[p],
                p,
                k,
            )[j] == s[j],
{
    reveal(detach_result);
    let cs = m[p];
    let sd = detach_result(s, cs, p, k);
    cs.remove_ensures(k);
    lemma_list_members(s, m, p);
    assert(child_list_ok(s, cs, p));
    assert(node_ok(s, m, p));
    assert(sd[cs[k] as int] == unlinked(s[cs[k] as int]));
    if k > 0 {
        assert(sd[cs[k - 1] as int] == with_next(
            s[cs[k - 1] as int],
            if k < cs.len() - 1 {
                Some(cs[k + 1])
            } else {
                Option::<usize>::None
            },
        ));
    }
    assert(sd[p] == with_children(
        s[p],
        if cs.remove(k).len() == 0 {
            Option::<(usize, usize)>::None
        } else {
            Some((cs.remove(k)[0], cs.remove(k).last()))
        },
    ));
    assert forall|j: int|
        0 <= j < s.len() && j != p && j != cs[k] && (k == 0 || j != cs[k - 1]) && (k == cs.len()
            - 1 || j != cs[k + 1]) implies #[trigger] sd[j] == s[j] by {}
}

/// After a detach, every record agrees with the new child lists.
#[verifier::rlimit(100)]
proof fn lemma_detach_nodes<T>(s: Seq<Node<T>>, m: Map<int, Seq<usize>>, p: int, k: int)
    requires
        wf_tree(s, m),
        s.len() <= usize::MAX,
        0 <= p < s.len(),
        0 <= k < m[p].len(),
    ensures
        forall|i: int|
            0 <= i < detach_result(s, m[p], p, k).len() ==> #[trigger] node_ok(
                detach_result(s, m[p], p, k),
                m.insert(p, m[p].remove(k)),
                i,
            ),
{
    lemma_detach_pointwise(s, m, p, k);
    assert forall|i: int| 0 <= i < detach_result(s, m[p], p, k).len() implies #[trigger] node_ok(
        detach_result(s, m[p], p, k),
        m.insert(p, m[p].remove(k)),
        i,
    ) by {
        lemma_detach_node_one(s, m, p, k, i);
    }
}

/// One record's agreement with the child lists after a detach.
#[verifier::rlimit(100)]
proof fn lemma_detach_node_one<T>(s: Seq<Node<T>>, m: Map<int, Seq<usize>>, p: int, k: int, i: int)
    requires
        wf_tree(s, m),
        s.len() <= usize::MAX,
        0 <= p < s.len(),
        0 <= k < m[p].len(),
        0 <= i < s.len(),
    ensures
        node_ok(detach_result(s, m[p], p, k), m.insert(p, m[p].remove(k)), i),
{
    let cs = m[p];
    let cs1 = cs.remove(k);
    let sd = detach_result(s, cs, p, k);
    let m1 = m.insert(p, cs1);
    let d = cs[k];
    cs.remove_ensures(k);
    lemma_list_members(s, m, p);
    assert(child_list_ok(s, cs, p));
    assert(node_ok(s, m, p));
    lemma_detach_pointwise(s, m, p, k);
    assert(node_ok(s, m, d as int));
    {
        assert(node_ok(s, m, i));
        if i != p {
            assert(m1[i] == m[i]);
        }
        if i == d as int {
            assert(sd[i] == unlinked(s[i]));
            assert(sd[i].children == s[i].children);
        } else {
            if i == p {
                assert(sd[p] == with_children(
                    s[p],
                    if cs1.len() == 0 {
                        Option::<(usize, usize)>::None
                    } else {
                        Some((cs1[0], cs1.last()))
                    },
                ));
            } else if k > 0 && i == cs[k - 1] as int {
                assert(sd[i] == with_next(
                    s[i],
                    if k < cs.len() - 1 {
                        Some(cs[k + 1])
                    } else {
                        Option::<usize>::None
                    },
                ));
            } else if k < cs.len() - 1 && i == cs[k + 1] as int {
                assert(sd[i] == with_prev(
                    s[i],
                    if k > 0 {
                        Some(cs[k - 1])
                    } else {
                        Option::<usize>::None
                    },
                ));
            } else {
                assert(sd[i] == s[i]);
            }
            assert(sd[i].parent == s[i].parent);
            assert(sd[i].children == s[i].children || i == p);
            match s[i].parent {
                Some(pp) => {
                    if pp as int == p {
                        assert(cs.contains(i as usize));
                        let j = choose|j: int| 0 <= j < cs.len() && cs[j] == i as usize;
                        assert(0 <= j < cs.len() && cs[j] == i as usize);
                        assert(j != k);
                        if j < k {
                            assert(cs1[j] == i as usize);
                        } else {
                            assert(cs1[j - 1] == i as usize);
                        }
                        assert(cs1.contains(i as usize));
                    } else {
                        assert(m1[pp as int] == m[pp as int]);
                    }
                },
                None => {
                    if k > 0 && i == cs[k - 1] as int {
                        assert(s[cs[k - 1] as int].parent == Some(p as usize));
                    }
                    if k < cs.len() - 1 && i == cs[k + 1] as int {
                        assert(s[cs[k + 1] as int].parent == Some(p as usize));
                    }
                    assert(sd[i].prev_sibling is None);
                    assert(sd[i].next_sibling is None);
                },
            }
            if i == p {
                assert(m1[p] == cs1);
            }
        }
    }
}

/// After a detach, every child list still walks its sibling links in order.
#[verifier::rlimit(100)]
proof fn lemma_detach_lists<T>(s: Seq<Node<T>>, m: Map<int, Seq<usize>>, p: int, k: int)
    requires
        wf_tree(s, m),
        s.len() <= usize::MAX,
        0 <= p < s.len(),
        0 <= k < m[p].len(),
    ensures
        forall|q: int|
            0 <= q < detach_result(s, m[p], p, k).len() ==> #[trigger] child_list_ok(
                detach_result(s, m[p], p, k),
                m.insert(p, m[p].remove(k))[q],
                q,
            ),
{
    let cs = m[p];
    let cs1 = cs.remove(k);
    let sd = detach_result(s, cs, p, k);
    let m1 = m.insert(p, cs1);
    let d = cs[k];
    cs.remove_ensures(k);
    lemma_list_members(s, m, p);
    assert(child_list_ok(s, cs, p));
    assert(node_ok(s, m, p));
    lemma_detach_pointwise(s, m, p, k);
    assert forall|q: int| 0 <= q < sd.len() implies #[trigger] child_list_ok(sd, m1[q], q) by {
        assert(child_list_ok(s, m[q], q));
        if q == p {
            assert(m1[p] == cs1);
            assert forall|j: int| #![trigger cs1[j]] 0 <= j < cs1.len() implies cs1[j] < sd.len()
                && sd[cs1[j] as int].parent == Some(p as usize) && sd[cs1[j] as int].prev_sibling
                == (if j == 0 {
                Option::<usize>::None
            } else {
                Some(cs1[j - 1])
            }) && sd[cs1[j] as int].next_sibling == (if j == cs1.len() - 1 {
                Option::<usize>::None
            } else {
                Some(cs1[j + 1])
            }) by {
                if j < k {
                    assert(cs1[j] == cs[j]);
                    assert(cs[j] != d);
                    if j > 0 {
                        assert(cs1[j - 1] == cs[j - 1]);
                    }
                    if j == k - 1 {
                        if k < cs.len() - 1 {
                            assert(sd[cs1[j] as int] == with_next(s[cs[j] as int], Some(cs[k + 1])));
                            assert(cs1[j + 1] == cs[k + 1]);
                        } else {
                            assert(sd[cs1[j] as int] == with_next(
                                s[cs[j] as int],
                                Option::<usize>::None,
                            ));
                            assert(j == cs1.len() - 1);
                        }
                    } else {
                        assert(cs[j] != cs[k - 1] || k == 0);
                        assert(cs[j] != cs[k + 1] || k == cs.len() - 1);
                        assert(sd[cs1[j] as int].next_sibling == s[cs[j] as int].next_sibling);
                        assert(cs1[j + 1] == cs[j + 1]);
                    }
                } else {
                    assert(cs1[j] == cs[j + 1]);
                    assert(cs[j + 1] != d);
                    if j == k {
                        if k > 0 {
                            assert(sd[cs1[j] as int] == with_prev(s[cs[k + 1] as int], Some(cs[k - 1])));
                            assert(cs1[j - 1] == cs[k - 1]);
                        } else {
                            assert(sd[cs1[j] as int] == with_prev(
                                s[cs[k + 1] as int],
                                Option::<usize>::None,
                            ));
                        }
                    } else {
                        assert(cs[j + 1] != cs[k - 1] || k == 0);
                        assert(cs[j + 1] != cs[k + 1] || k == cs.len() - 1);
                        assert(sd[cs1[j] as int].prev_sibling == s[cs[j + 1] as int].prev_sibling);
                        assert(cs1[j - 1] == cs[j]);
                    }
                    if j == cs1.len() - 1 {
                        assert(s[cs[j + 1] as int].next_sibling is None);
                    } else {
                        assert(sd[cs1[j] as int].next_sibling == s[cs[j + 1] as int].next_sibling);
                        assert(cs1[j + 1] == cs[j + 2]);
                    }
                }
            }
            assert forall|x: int, y: int|
                0 <= x < cs1.len() && 0 <= y < cs1.len() && x != y implies cs1[x] != cs1[y] by {}
            assert(cs1.no_duplicates());
        } else {
            assert(m1[q] == m[q]);
            let csq = m[q];
            assert forall|j: int| #![trigger csq[j]] 0 <= j < csq.len() implies sd[csq[j] as int].parent
                == s[csq[j] as int].parent && sd[csq[j] as int].prev_sibling == s[csq[j] as int].prev_sibling
                && sd[csq[j] as int].next_sibling == s[csq[j] as int].next_sibling by {
                let e = csq[j];
                assert(s[e as int].parent == Some(q as usize));
                if e as int == p {
                    assert(sd[p] == with_children(
                        s[p],
                        if cs1.len() == 0 {
                            Option::<(usize, usize)>::None
                        } else {
                            Some((cs1[0], cs1.last()))
                        },
                    ));
                } else {
                    if e == d {
                        assert(s[d as int].parent == Some(p as usize));
                    }
                    if k > 0 && e == cs[k - 1] {
                        assert(s[cs[k - 1] as int].parent == Some(p as usize));
                    }
                    if k < cs.len() - 1 && e == cs[k + 1] {
                        assert(s[cs[k + 1] as int].parent == Some(p as usize));
                    }
                    assert(sd[e as int] == s[e as int]);
                }
            }
        }
    }
}

/// Detaching one member from a child list keeps the arena well-formed.
pub proof fn lemma_detach_wf<T>(s: Seq<Node<T>>, m: Map<int, Seq<usize>>, p: int, k: int)
    requires
        wf_tree(s, m),
        s.len() <= usize::MAX,
        0 <= p < s.len(),
        0 <= k < m[p].len(),
    ensures
        wf_tree(detach_result(s, m[p], p, k), m.insert(p, m[p].remove(k))),
{
    lemma_detach_pointwise(s, m, p, k);
    lemma_detach_nodes(s, m, p, k);
    lemma_detach_lists(s, m, p, k);
    let sd = detach_result(s, m[p], p, k);
    lemma_list_members(s, m, p);
    assert(m[p][k] != 0) by {
        if m[p][k] == 0 {
            assert(child_list_ok(s, m[p], p));
            assert(s[0].parent == Some(p as usize));
        }
    }
    assert(sd[0].parent == s[0].parent);
}

/// A write cursor bound to one arena and one position.
///
/// The cursor owns the arena while it lives; [`NodeMut::into_tree`] hands the
/// arena back.  Structural mutation rewrites links in place and appends new
/// records; it never removes a record from storage.
pub struct NodeMut<T> {
    pub tree: Tree<T>,
    pub index: usize,
}

impl<T> NodeMut<T> {
    /// The arena this cursor owns.
    pub open spec fn arena(self) -> Tree<T> {
        self.tree
    }

    /// The position this cursor is bound to.
    pub open spec fn pos(self) -> usize {
        self.index
    }

    /// The weak handle of the node under the cursor.
    pub fn id(&self) -> (r: NodeId)
        ensures
            r.spec_tree_id() == self.arena().spec_id(),
            r.spec_index() == self.pos(),
    {
        NodeId { tree_id: self.tree.id, index: self.index }
    }

    /// The stored value of the node under the cursor.
    pub fn value(&self) -> (r: &T)
        requires
            (self.pos() as int) < self.arena()@.len(),
        ensures
            *r == self.arena()@[self.pos() as int].value,
    {
        &self.tree.vec[self.index].value
    }

    /// Replaces the stored value of the node under the cursor.  Links and
    /// all other records are untouched.
    pub fn set_value(&mut self, value: T)
        requires
            (old(self).pos() as int) < old(self).arena()@.len(),
        ensures
            final(self).pos() == old(self).pos(),
            final(self).arena().spec_id() == old(self).arena().spec_id(),
            final(self).arena().child_order() == old(self).arena().child_order(),
            final(self).arena()@ == old(self).arena()@.update(
                old(self).pos() as int,
                with_value(old(self).arena()@[old(self).pos() as int], value),
            ),
    {
        self.tree.vec[self.index].value = value;
        proof {
            assert(self.tree.vec@ =~= old(self).arena()@.update(
                old(self).pos() as int,
                with_value(old(self).arena()@[old(self).pos() as int], value),
            ));
        }
    }

    /// Appends a new node holding `value` as the last child of the node
    /// under the cursor, and returns the new node's handle.
    ///
    /// The new node's parent is this node; it becomes the last entry of this
    /// node's child list, wired after the previous last child if there was
    /// one, and first child as well when there was none.
    pub fn append(&mut self, value: T) -> (r: NodeId)
        requires
            old(self).arena().wf(),
            (old(self).pos() as int) < old(self).arena()@.len(),
        ensures
            final(self).pos() == old(self).pos(),
            final(self).arena().wf(),
            r.spec_tree_id() == old(self).arena().spec_id(),
            r.spec_index() == old(self).arena()@.len(),
            spliced(
                old(self).arena(),
                final(self).arena(),
                old(self).pos() as int,
                old(self).arena().children_of(old(self).pos() as int).len() as int,
                old(self).arena()@.len() as usize,
                value,
            ),
            final(self).arena().children_of(old(self).pos() as int) == old(self).arena()
                .children_of(old(self).pos() as int).push(old(self).arena()@.len() as usize),
    {
        let ghost s = old(self).arena()@;
        let ghost m = old(self).arena().child_order();
        let ghost cs = old(self).arena().children_of(old(self).pos() as int);
        let ghost k = cs.len() as int;
        let p = self.index;
        let c = self.tree.vec.len();
        proof {
            assert(node_ok(s, m, p as int));
            assert(child_list_ok(s, cs, p as int));
            lemma_list_members(s, m, p as int);
            if cs.len() > 0 {
                assert(cs[cs.len() - 1] < s.len());
            }
        }
        let pair = self.tree.vec[p].children;
        let prev_lk: Option<usize> = match pair {
            Some(q) => Some(q.1),
            None => None,
        };
        self.tree.vec.push(Node {
            parent: Some(p),
            prev_sibling: prev_lk,
            next_sibling: None,
            children: None,
            value,
        });
        if let Some(q) = pair {
            self.tree.vec[q.1].next_sibling = Some(c);
        }
        let first = match pair {
            Some(q) => q.0,
            None => c,
        };
        self.tree.vec[p].children = Some((first, c));
        proof {
            cs.insert_ensures(k, c);
            let cs1 = cs.insert(k, c);
            assert(cs1[0] == (if k == 0 { c } else { cs[0] }));
            assert(cs1.last() == c);
            reveal(splice_result);
                    assert(self.tree.vec@ =~= splice_result(s, cs, p as int, k, value));
            lemma_splice_wf(s, m, p as int, k, value);
            assert(cs1 =~= cs.push(c));
        }
        self.tree.order = Ghost(
            m.insert(p as int, cs.insert(k, c)).insert(c as int, Seq::<usize>::empty()),
        );
        NodeId { tree_id: self.tree.id, index: c }
    }

    /// Prepends a new node holding `value` as the first child of the node
    /// under the cursor, and returns the new node's handle.
    pub fn prepend(&mut self, value: T) -> (r: NodeId)
        requires
            old(self).arena().wf(),
            (old(self).pos() as int) < old(self).arena()@.len(),
        ensures
            final(self).pos() == old(self).pos(),
            final(self).arena().wf(),
            r.spec_tree_id() == old(self).arena().spec_id(),
            r.spec_index() == old(self).arena()@.len(),
            spliced(
                old(self).arena(),
                final(self).arena(),
                old(self).pos() as int,
                0,
                old(self).arena()@.len() as usize,
                value,
            ),
    {
        let ghost s = old(self).arena()@;
        let ghost m = old(self).arena().child_order();
        let ghost cs = old(self).arena().children_of(old(self).pos() as int);
        let p = self.index;
        let c = self.tree.vec.len();
        proof {
            assert(node_ok(s, m, p as int));
            assert(child_list_ok(s, cs, p as int));
            lemma_list_members(s, m, p as int);
            if cs.len() > 0 {
                assert(cs[0] < s.len());
            }
        }
        let pair = self.tree.vec[p].children;
        let next_lk: Option<usize> = match pair {
            Some(q) => Some(q.0),
            None => None,
        };
        self.tree.vec.push(Node {
            parent: Some(p),
            prev_sibling: None,
            next_sibling: next_lk,
            children: None,
            value,
        });
        if let Some(q) = pair {
            self.tree.vec[q.0].prev_sibling = Some(c);
        }
        let last = match pair {
            Some(q) => q.1,
            None => c,
        };
        self.tree.vec[p].children = Some((c, last));
        proof {
            cs.insert_ensures(0, c);
            let cs1 = cs.insert(0, c);
            assert(cs1[0] == c);
            assert(cs1.last() == (if cs.len() == 0 {
                c
            } else {
                cs.last()
            }));
            reveal(splice_result);
                    assert(self.tree.vec@ =~= splice_result(s, cs, p as int, 0, value));
            lemma_splice_wf(s, m, p as int, 0, value);
        }
        self.tree.order = Ghost(
            m.insert(p as int, cs.insert(0, c)).insert(c as int, Seq::<usize>::empty()),
        );
        NodeId { tree_id: self.tree.id, index: c }
    }

    /// Inserts a new node holding `value` as the sibling directly before
    /// the node under the cursor.
    ///
    /// Rejected with `RootHasNoSiblings` when this node has no parent: a
    /// sibling chain hangs under a parent, and the root in particular can
    /// never gain a sibling.
    pub fn insert_before(&mut self, value: T) -> (r: Result<NodeId, TreeError>)
        requires
            old(self).arena().wf(),
            (old(self).pos() as int) < old(self).arena()@.len(),
        ensures
            final(self).pos() == old(self).pos(),
            final(self).arena().wf(),
            r is Err <==> old(self).arena()@[old(self).pos() as int].parent is None,
            r is Err ==> r->Err_0 == TreeError::RootHasNoSiblings && final(self).arena()
                == old(self).arena(),
            r is Ok ==> r->Ok_0.spec_tree_id() == old(self).arena().spec_id()
                && r->Ok_0.spec_index() == old(self).arena()@.len() && ({
                let s = old(self).arena()@;
                let p = s[old(self).pos() as int].parent->0 as int;
                let k = old(self).arena().children_of(p).index_of(old(self).pos());
                spliced(old(self).arena(), final(self).arena(), p, k, s.len() as usize, value)
            }),
    {
        let ghost s = old(self).arena()@;
        let ghost m = old(self).arena().child_order();
        let i = self.index;
        let parent_lk = self.tree.vec[i].parent;
        match parent_lk {
            None => Err(TreeError::RootHasNoSiblings),
            Some(p) => {
                let ghost cs = old(self).arena().children_of(p as int);
                let ghost k = lemma_position_in_parent(s, m, i);
                let c = self.tree.vec.len();
                proof {
                    assert(node_ok(s, m, i as int));
                    lemma_list_members(s, m, p as int);
                }
                let prev_lk = self.tree.vec[i].prev_sibling;
                self.tree.vec.push(Node {
                    parent: Some(p),
                    prev_sibling: prev_lk,
                    next_sibling: Some(i),
                    children: None,
                    value,
                });
                if let Some(q) = prev_lk {
                    self.tree.vec[q].next_sibling = Some(c);
                }
                self.tree.vec[i].prev_sibling = Some(c);
                proof {
                    assert(node_ok(s, m, p as int));
                }
                let pair = self.tree.vec[p].children.unwrap();
                let first = match prev_lk {
                    None => c,
                    Some(_) => pair.0,
                };
                self.tree.vec[p].children = Some((first, pair.1));
                proof {
                    cs.insert_ensures(k, c);
                    let cs1 = cs.insert(k, c);
                    assert(cs1[0] == (if k == 0 {
                        c
                    } else {
                        cs[0]
                    }));
                    assert(cs1.last() == cs.last());
                    reveal(splice_result);
                    assert(self.tree.vec@ =~= splice_result(s, cs, p as int, k, value));
                    lemma_splice_wf(s, m, p as int, k, value);
                }
                self.tree.order = Ghost(
                    m.insert(p as int, cs.insert(k, c)).insert(c as int, Seq::<usize>::empty()),
                );
                Ok(NodeId { tree_id: self.tree.id, index: c })
            },
        }
    }

    /// Inserts a new node holding `value` as the sibling directly after
    /// the node under the cursor.
    ///
    /// Rejected with `RootHasNoSiblings` when this node has no parent, as
    /// for [`NodeMut::insert_before`].
    pub fn insert_after(&mut self, value: T) -> (r: Result<NodeId, TreeError>)
        requires
            old(self).arena().wf(),
            (old(self).pos() as int) < old(self).arena()@.len(),
        ensures
            final(self).pos() == old(self).pos(),
            final(self).arena().wf(),
            r is Err <==> old(self).arena()@[old(self).pos() as int].parent is None,
            r is Err ==> r->Err_0 == TreeError::RootHasNoSiblings && final(self).arena()
                == old(self).arena(),
            r is Ok ==> r->Ok_0.spec_tree_id() == old(self).arena().spec_id()
                && r->Ok_0.spec_index() == old(self).arena()@.len() && ({
                let s = old(self).arena()@;
                let p = s[old(self).pos() as int].parent->0 as int;
                let k = old(self).arena().children_of(p).index_of(old(self).pos()) + 1;
                spliced(old(self).arena(), final(self).arena(), p, k, s.len() as usize, value)
            }),
    {
        let ghost s = old(self).arena()@;
        let ghost m = old(self).arena().child_order();
        let i = self.index;
        let parent_lk = self.tree.vec[i].parent;
        match parent_lk {
            None => Err(TreeError::RootHasNoSiblings),
            Some(p) => {
                let ghost cs = old(self).arena().children_of(p as int);
                let ghost k0 = lemma_position_in_parent(s, m, i);
                let ghost k = k0 + 1;
                let c = self.tree.vec.len();
                proof {
                    assert(node_ok(s, m, i as int));
                    lemma_list_members(s, m, p as int);
                }
                let next_lk = self.tree.vec[i].next_sibling;
                self.tree.vec.push(Node {
                    parent: Some(p),
                    prev_sibling: Some(i),
                    next_sibling: next_lk,
                    children: None,
                    value,
                });
                self.tree.vec[i].next_sibling = Some(c);
                if let Some(x) = next_lk {
                    self.tree.vec[x].prev_sibling = Some(c);
                }
                proof {
                    assert(node_ok(s, m, p as int));
                }
                let pair = self.tree.vec[p].children.unwrap();
                let last = match next_lk {
                    None => c,
                    Some(_) => pair.1,
                };
                self.tree.vec[p].children = Some((pair.0, last));
                proof {
                    cs.insert_ensures(k, c);
                    let cs1 = cs.insert(k, c);
                    assert(cs1[0] == cs[0]);
                    assert(cs1.last() == (if k == cs.len() {
                        c
                    } else {
                        cs.last()
                    }));
                    reveal(splice_result);
                    assert(self.tree.vec@ =~= splice_result(s, cs, p as int, k, value));
                    lemma_splice_wf(s, m, p as int, k, value);
                }
                self.tree.order = Ghost(
                    m.insert(p as int, cs.insert(k, c)).insert(c as int, Seq::<usize>::empty()),
                );
                Ok(NodeId { tree_id: self.tree.id, index: c })
            },
        }
    }

    /// Detaches the node under the cursor from its parent's child chain,
    /// clearing its parent and sibling links.  The node keeps its own
    /// children and its storage slot; it stays addressable by handle.
    ///
    /// Rejected with `CannotDetachRoot` on the root.  A no-op on a node
    /// that is already parentless.
    pub fn detach(&mut self) -> (r: Result<(), TreeError>)
        requires
            old(self).arena().wf(),
            (old(self).pos() as int) < old(self).arena()@.len(),
        ensures
            final(self).pos() == old(self).pos(),
            final(self).arena().wf(),
            r is Err <==> old(self).pos() == 0,
            r is Err ==> r->Err_0 == TreeError::CannotDetachRoot && final(self).arena()
                == old(self).arena(),
            old(self).pos() != 0 && old(self).arena()@[old(self).pos() as int].parent is None
                ==> final(self).arena() == old(self).arena(),
            old(self).arena()@[old(self).pos() as int].parent is Some ==> ({
                let s = old(self).arena()@;
                let p = s[old(self).pos() as int].parent->0 as int;
                let k = old(self).arena().children_of(p).index_of(old(self).pos());
                unspliced(old(self).arena(), final(self).arena(), p, k)
            }),
    {
        let ghost s = old(self).arena()@;
        let ghost m = old(self).arena().child_order();
        let i = self.index;
        if i == 0 {
            proof {
                assert(node_ok(s, m, 0));
            }
            return Err(TreeError::CannotDetachRoot);
        }
        let parent_lk = self.tree.vec[i].parent;
        match parent_lk {
            None => Ok(()),
            Some(p) => {
                let ghost cs = old(self).arena().children_of(p as int);
                let ghost k = lemma_position_in_parent(s, m, i);
                proof {
                    assert(node_ok(s, m, i as int));
                    lemma_list_members(s, m, p as int);
                    cs.remove_ensures(k);
                }
                let prev_lk = self.tree.vec[i].prev_sibling;
                let next_lk = self.tree.vec[i].next_sibling;
                if let Some(q) = prev_lk {
                    self.tree.vec[q].next_sibling = next_lk;
                }
                if let Some(x) = next_lk {
                    self.tree.vec[x].prev_sibling = prev_lk;
                }
                proof {
                    assert(node_ok(s, m, p as int));
                }
                let pair = self.tree.vec[p].children.unwrap();
                let new_pair: Option<(usize, usize)> = match (prev_lk, next_lk) {
                    (None, None) => None,
                    (None, Some(x)) => Some((x, pair.1)),
                    (Some(q), None) => Some((pair.0, q)),
                    (Some(_), Some(_)) => Some((pair.0, pair.1)),
                };
                self.tree.vec[p].children = new_pair;
                self.tree.vec[i].parent = None;
                self.tree.vec[i].prev_sibling = None;
                self.tree.vec[i].next_sibling = None;
                proof {
                    let cs1 = cs.remove(k);
                    assert(old(self).tree.vec.len() == s.len());
                    reveal(detach_result);
                    assert(self.tree.vec@ =~= detach_result(s, cs, p as int, k));
                    lemma_detach_wf(s, m, p as int, k);
                }
                self.tree.order = Ghost(m.insert(p as int, cs.remove(k)));
                Ok(())
            },
        }
    }

    /// Moves the cursor to the parent of this node; hands the cursor back
    /// unchanged when there is none.
    pub fn parent(self) -> (r: Result<NodeMut<T>, NodeMut<T>>)
        requires
            (self.pos() as int) < self.arena()@.len(),
        ensures
            r is Ok <==> self.arena()@[self.pos() as int].parent is Some,
            r is Ok ==> r->Ok_0.arena() == self.arena() && Some(r->Ok_0.pos())
                == self.arena()@[self.pos() as int].parent,
            r is Err ==> r->Err_0 == self,
    {
        match self.tree.vec[self.index].parent {
            Some(p) => Ok(NodeMut { tree: self.tree, index: p }),
            None => Err(self),
        }
    }

    /// Moves the cursor to the sibling before this node, if any.
    pub fn prev_sibling(self) -> (r: Result<NodeMut<T>, NodeMut<T>>)
        requires
            (self.pos() as int) < self.arena()@.len(),
        ensures
            r is Ok <==> self.arena()@[self.pos() as int].prev_sibling is Some,
            r is Ok ==> r->Ok_0.arena() == self.arena() && Some(r->Ok_0.pos())
                == self.arena()@[self.pos() as int].prev_sibling,
            r is Err ==> r->Err_0 == self,
    {
        match self.tree.vec[self.index].prev_sibling {
            Some(q) => Ok(NodeMut { tree: self.tree, index: q }),
            None => Err(self),
        }
    }

    /// Moves the cursor to the sibling after this node, if any.
    pub fn next_sibling(self) -> (r: Result<NodeMut<T>, NodeMut<T>>)
        requires
            (self.pos() as int) < self.arena()@.len(),
        ensures
            r is Ok <==> self.arena()@[self.pos() as int].next_sibling is Some,
            r is Ok ==> r->Ok_0.arena() == self.arena() && Some(r->Ok_0.pos())
                == self.arena()@[self.pos() as int].next_sibling,
            r is Err ==> r->Err_0 == self,
    {
        match self.tree.vec[self.index].next_sibling {
            Some(q) => Ok(NodeMut { tree: self.tree, index: q }),
            None => Err(self),
        }
    }

    /// Moves the cursor to the first child of this node, if any.
    pub fn first_child(self) -> (r: Result<NodeMut<T>, NodeMut<T>>)
        requires
            (self.pos() as int) < self.arena()@.len(),
        ensures
            r is Ok <==> self.arena()@[self.pos() as int].children is Some,
            r is Ok ==> r->Ok_0.arena() == self.arena() && r->Ok_0.pos() == crate::tree::pair_first(
                self.arena()@[self.pos() as int].children,
            ),
            r is Err ==> r->Err_0 == self,
    {
        match self.tree.vec[self.index].children {
            Some(pair) => Ok(NodeMut { tree: self.tree, index: pair.0 }),
            None => Err(self),
        }
    }

    /// Moves the cursor to the last child of this node, if any.
    pub fn last_child(self) -> (r: Result<NodeMut<T>, NodeMut<T>>)
        requires
            (self.pos() as int) < self.arena()@.len(),
        ensures
            r is Ok <==> self.arena()@[self.pos() as int].children is Some,
            r is Ok ==> r->Ok_0.arena() == self.arena() && r->Ok_0.pos() == crate::tree::pair_last(
                self.arena()@[self.pos() as int].children,
            ),
            r is Err ==> r->Err_0 == self,
    {
        match self.tree.vec[self.index].children {
            Some(pair) => Ok(NodeMut { tree: self.tree, index: pair.1 }),
            None => Err(self),
        }
    }

    /// Hands the arena back, consuming the cursor.
    pub fn into_tree(self) -> (r: Tree<T>)
        ensures
            r == self.arena(),
    {
        self.tree
    }

    /// A shared borrow of the arena, for reading while the cursor lives.
    pub fn tree(&self) -> (r: &Tree<T>)
        ensures
            *r == self.arena(),
    {
        &self.tree
    }
}

} // verus!
