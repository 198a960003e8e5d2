//! The mathematical model of the parent forest.
//!
//! A parent map is well-founded when it comes with a depth measure that
//! strictly decreases along every non-trivial parent link; following parent
//! links from any element then terminates at a self-loop, its root. The
//! lemmas here show how roots move under the three ways the engine rewrites
//! parent links: halving a path during a lookup, adding a fresh self-loop,
//! and linking one root under another.

use vstd::prelude::*;

verus! {

/// The parent map `m` is total over its own domain and, measured by `d`,
/// every non-trivial parent link strictly descends: the map never contains
/// a cycle other than a root's self-loop.
pub open spec fn parent_inv(m: Map<usize, usize>, d: Map<usize, nat>) -> bool {
    forall|i: usize| #[trigger] m.dom().contains(i)
        ==> m.dom().contains(m[i]) && (m[i] != i ==> d[m[i]] < d[i])
}

/// The canonical root of `i`: the element reached from `i` by following
/// parent links until one points to itself.
pub open spec fn root_in(m: Map<usize, usize>, d: Map<usize, nat>, i: usize) -> usize
    decreases d[i]
        when parent_inv(m, d) && m.dom().contains(i)
{
    if m[i] == i {
        i
    } else {
        root_in(m, d, m[i])
    }
}

/// The root of any element is an element, and is its own parent.
pub proof fn lemma_root_is_root(m: Map<usize, usize>, d: Map<usize, nat>, i: usize)
    requires
        parent_inv(m, d),
        m.dom().contains(i),
    ensures
        m.dom().contains(root_in(m, d, i)),
        m[root_in(m, d, i)] == root_in(m, d, i),
    decreases d[i],
{
    if m[i] != i {
        lemma_root_is_root(m, d, m[i]);
    }
}

/// Rewriting the parent of `k` to `t`, an element strictly closer to the
/// root, keeps the forest well-founded.
pub proof fn lemma_halve_parent_inv(m: Map<usize, usize>, d: Map<usize, nat>, k: usize, t: usize)
    requires
        parent_inv(m, d),
        m.dom().contains(k),
        m.dom().contains(t),
        t != k,
        d[t] < d[k],
    ensures
        parent_inv(m.insert(k, t), d),
{
    let m2 = m.insert(k, t);
    assert forall|i: usize| #[trigger] m2.dom().contains(i)
        implies m2.dom().contains(m2[i]) && (m2[i] != i ==> d[m2[i]] < d[i]) by {
        if i != k {
            assert(m.dom().contains(i));
        }
    };
}

/// Rewriting the parent of `k` to `t` changes no element's root, provided
/// `k` and `t` share a root: the write only shortens a path, it never
/// changes which root a path leads to.
pub proof fn lemma_halve_same_root(
    m: Map<usize, usize>,
    d: Map<usize, nat>,
    k: usize,
    t: usize,
    i: usize,
)
    requires
        parent_inv(m, d),
        m.dom().contains(k),
        m.dom().contains(t),
        m.dom().contains(i),
        t != k,
        d[t] < d[k],
        root_in(m, d, k) == root_in(m, d, t),
    ensures
        root_in(m.insert(k, t), d, i) == root_in(m, d, i),
    decreases d[i],
{
    lemma_halve_parent_inv(m, d, k, t);
    let m2 = m.insert(k, t);
    if i == k {
        lemma_halve_same_root(m, d, k, t, t);
        assert(root_in(m2, d, i) == root_in(m2, d, t));
    } else {
        if m[i] != i {
            lemma_halve_same_root(m, d, k, t, m[i]);
            assert(root_in(m2, d, i) == root_in(m2, d, m[i]));
        }
    }
}

/// Adding a fresh element as its own parent keeps the forest well-founded.
pub proof fn lemma_grow_parent_inv(m: Map<usize, usize>, d: Map<usize, nat>, fresh: usize)
    requires
        parent_inv(m, d),
        !m.dom().contains(fresh),
    ensures
        parent_inv(m.insert(fresh, fresh), d),
{
    let m2 = m.insert(fresh, fresh);
    assert forall|i: usize| #[trigger] m2.dom().contains(i)
        implies m2.dom().contains(m2[i]) && (m2[i] != i ==> d[m2[i]] < d[i]) by {
        if i != fresh {
            assert(m.dom().contains(i));
        }
    };
}

/// Adding a fresh element as its own parent changes no existing element's
/// root.
pub proof fn lemma_grow_same_root(
    m: Map<usize, usize>,
    d: Map<usize, nat>,
    fresh: usize,
    i: usize,
)
    requires
        parent_inv(m, d),
        !m.dom().contains(fresh),
        m.dom().contains(i),
    ensures
        root_in(m.insert(fresh, fresh), d, i) == root_in(m, d, i),
    decreases d[i],
{
    lemma_grow_parent_inv(m, d, fresh);
    let m2 = m.insert(fresh, fresh);
    if m[i] != i {
        lemma_grow_same_root(m, d, fresh, m[i]);
        assert(root_in(m2, d, i) == root_in(m2, d, m[i]));
    }
}

/// The depth measure after linking root `child` under root `parent`: every
/// element of the child's set sinks below the parent root's depth, every
/// other element keeps its measure.
pub open spec fn link_depth(
    m: Map<usize, usize>,
    d: Map<usize, nat>,
    child: usize,
    parent: usize,
) -> Map<usize, nat> {
    Map::new(
        |i: usize| m.dom().contains(i),
        |i: usize|
            if root_in(m, d, i) == child {
                (d[i] + d[parent] + 1) as nat
            } else {
                d[i]
            },
    )
}

/// Linking root `child` under root `parent` keeps the forest well-founded,
/// measured by the adjusted depth.
pub proof fn lemma_link_parent_inv(
    m: Map<usize, usize>,
    d: Map<usize, nat>,
    child: usize,
    parent: usize,
)
    requires
        parent_inv(m, d),
        m.dom().contains(child),
        m.dom().contains(parent),
        m[child] == child,
        m[parent] == parent,
        child != parent,
    ensures
        parent_inv(m.insert(child, parent), link_depth(m, d, child, parent)),
{
    let m2 = m.insert(child, parent);
    let d2 = link_depth(m, d, child, parent);
    assert forall|i: usize| #[trigger] m2.dom().contains(i)
        implies m2.dom().contains(m2[i]) && (m2[i] != i ==> d2[m2[i]] < d2[i]) by {
        if i == child {
            assert(root_in(m, d, child) == child);
            assert(root_in(m, d, parent) == parent);
        } else {
            assert(m.dom().contains(i));
            if m[i] != i {
                assert(root_in(m, d, i) == root_in(m, d, m[i]));
            }
        }
    };
}

/// Linking root `child` under root `parent` redirects exactly the child's
/// set to the parent root and leaves every other element's root unchanged.
pub proof fn lemma_link_same_root(
    m: Map<usize, usize>,
    d: Map<usize, nat>,
    child: usize,
    parent: usize,
    i: usize,
)
    requires
        parent_inv(m, d),
        m.dom().contains(child),
        m.dom().contains(parent),
        m.dom().contains(i),
        m[child] == child,
        m[parent] == parent,
        child != parent,
    ensures
        root_in(m.insert(child, parent), link_depth(m, d, child, parent), i) == (
        if root_in(m, d, i) == child {
            parent
        } else {
            root_in(m, d, i)
        }),
    decreases d[i],
{
    lemma_link_parent_inv(m, d, child, parent);
    let m2 = m.insert(child, parent);
    let d2 = link_depth(m, d, child, parent);
    if i == child {
        assert(root_in(m2, d2, i) == root_in(m2, d2, parent));
        assert(root_in(m2, d2, parent) == parent);
        assert(root_in(m, d, child) == child);
    } else if m[i] == i {
        assert(root_in(m2, d2, i) == i);
        assert(root_in(m, d, i) == i);
    } else {
        lemma_link_same_root(m, d, child, parent, m[i]);
        assert(root_in(m2, d2, i) == root_in(m2, d2, m[i]));
        assert(root_in(m, d, i) == root_in(m, d, m[i]));
    }
}

} // verus!
