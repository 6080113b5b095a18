//! The forest invariant under the arena's moves: detaching a node, and
//! attaching it under a node that is not in its subtree, keep the tree well
//! formed. The key fact is that a chain of ancestors that reaches a root
//! visits each node at most once, so it reaches it within as many steps as
//! there are nodes.
use vstd::prelude::*;
use crate::arena::{
    Tree, NodeEntry, reaches_root, tree_wf, ancestors_f, ancestors, is_ancestor_or_self, detached, appended,
    prepended, depth, height_fuel, pre_f, pre_list, descendants, subtree_removed,
};
use crate::tree::{lemma_reaches_mono, lemma_ancestors_len, lemma_live_fuel, lemma_child_depth};

verus! {

/// A chain that reaches a root has exactly as many nodes as the steps it
/// takes, and reaches it within that many steps.
proof fn lemma_reach_exact(m: Tree, x: usize, k: nat)
    requires
        reaches_root(m, x, k),
    ensures
        reaches_root(m, x, ancestors_f(m, x, k).len()),
        ancestors_f(m, x, ancestors_f(m, x, k).len()) == ancestors_f(m, x, k),
    decreases k,
{
    match m[x].parent {
        None => {
            assert(ancestors_f(m, x, k) == seq![x]);
            assert(ancestors_f(m, x, 1) == seq![x]);
        },
        Some(p) => {
            lemma_reach_exact(m, p, (k - 1) as nat);
            let rest = ancestors_f(m, p, (k - 1) as nat);
            assert(ancestors_f(m, x, k) == seq![x] + rest);
            let l = (rest.len() + 1) as nat;
            assert(ancestors_f(m, x, l) == seq![x] + ancestors_f(m, p, (l - 1) as nat));
        },
    }
}

/// The `i`-th node of a chain that reaches a root has, as its own chain,
/// the rest of the chain.
proof fn lemma_chain_suffix(m: Tree, x: usize, k: nat, i: int)
    requires
        reaches_root(m, x, k),
        0 <= i < ancestors_f(m, x, k).len(),
    ensures
        i <= k,
        reaches_root(m, ancestors_f(m, x, k)[i], (k - i) as nat),
        ancestors_f(m, ancestors_f(m, x, k)[i], (k - i) as nat) == ancestors_f(m, x, k).subrange(
            i,
            ancestors_f(m, x, k).len() as int,
        ),
    decreases i,
{
    let a = ancestors_f(m, x, k);
    lemma_ancestors_len(m, x, k);
    if i == 0 {
        assert(a.subrange(0, a.len() as int) =~= a);
    } else {
        match m[x].parent {
            None => {
                assert(a == seq![x]);
            },
            Some(p) => {
                let rest = ancestors_f(m, p, (k - 1) as nat);
                assert(a == seq![x] + rest);
                lemma_chain_suffix(m, p, (k - 1) as nat, i - 1);
                assert(a[i] == rest[i - 1]);
                assert(rest.subrange(i - 1, rest.len() as int) =~= a.subrange(i, a.len() as int));
            },
        }
    }
}

/// A chain that reaches a root visits no node twice.
proof fn lemma_chain_no_dup(m: Tree, x: usize, k: nat)
    requires
        reaches_root(m, x, k),
    ensures
        ancestors_f(m, x, k).no_duplicates(),
{
    let a = ancestors_f(m, x, k);
    assert forall|i: int, j: int| 0 <= i < a.len() && 0 <= j < a.len() && i != j implies a[i] != a[j] by {
        if a[i] == a[j] {
            let (lo, hi) = if i < j {
                (i, j)
            } else {
                (j, i)
            };
            lemma_chain_suffix(m, x, k, lo);
            lemma_chain_suffix(m, x, k, hi);
            let y = a[lo];
            lemma_reaches_mono(m, y, (k - hi) as nat, (k - lo) as nat);
            assert(a.subrange(lo, a.len() as int).len() != a.subrange(hi, a.len() as int).len());
        }
    }
}

/// In a finite tree, a node that reaches a root reaches it within as many
/// steps as there are nodes.
pub proof fn lemma_reach_bound(m: Tree, x: usize, k: nat)
    requires
        m.dom().finite(),
        reaches_root(m, x, k),
    ensures
        reaches_root(m, x, m.dom().len()),
{
    let a = ancestors_f(m, x, k);
    lemma_chain_no_dup(m, x, k);
    lemma_ancestors_len(m, x, k);
    a.unique_seq_to_set();
    assert(a.to_set().subset_of(m.dom())) by {
        assert forall|y: usize| a.to_set().contains(y) implies m.dom().contains(y) by {
            let j = choose|j: int| 0 <= j < a.len() && a[j] == y;
            assert(m.dom().contains(a[j]));
        }
    }
    vstd::set_lib::lemma_len_subset(a.to_set(), m.dom());
    lemma_reach_exact(m, x, k);
    lemma_reaches_mono(m, x, a.len(), m.dom().len());
}


/// No live node of a well-formed tree is its own parent.
proof fn lemma_not_own_parent(m: Tree, x: usize, k: nat)
    requires
        reaches_root(m, x, k),
    ensures
        m[x].parent != Some(x),
    decreases k,
{
    if m[x].parent == Some(x) {
        lemma_not_own_parent(m, x, (k - 1) as nat);
    }
}

/// Removing a value from a sequence without duplicates leaves a sequence
/// without duplicates holding exactly the other values.
proof fn lemma_remove_value(s: Seq<usize>, v: usize)
    requires
        s.no_duplicates(),
    ensures
        s.remove_value(v).no_duplicates(),
        forall|x: usize| #[trigger] s.remove_value(v).contains(x) <==> (s.contains(x) && x != v),
{
    s.index_of_first_ensures(v);
    match s.index_of_first(v) {
        Some(i) => {
            let r = s.remove(i);
            assert forall|a: int, b: int| 0 <= a < r.len() && 0 <= b < r.len() && a != b implies r[a] != r[b] by {
                let a0 = if a < i { a } else { a + 1 };
                let b0 = if b < i { b } else { b + 1 };
                assert(r[a] == s[a0] && r[b] == s[b0]);
            }
            assert forall|x: usize| #[trigger] r.contains(x) <==> (s.contains(x) && x != v) by {
                if r.contains(x) {
                    let a = choose|a: int| 0 <= a < r.len() && r[a] == x;
                    let a0 = if a < i { a } else { a + 1 };
                    assert(s[a0] == x);
                    assert(a0 != i);
                }
                if s.contains(x) && x != v {
                    let a0 = choose|a0: int| 0 <= a0 < s.len() && s[a0] == x;
                    assert(a0 != i);
                    let a = if a0 < i { a0 } else { a0 - 1 };
                    assert(r[a] == x);
                }
            }
        },
        None => {},
    }
}

/// A chain that avoids `c` is the same in a tree whose parent links agree
/// with the first one everywhere but at `c`.
proof fn lemma_reaches_avoiding(m: Tree, m2: Tree, y: usize, k: nat, c: usize)
    requires
        reaches_root(m, y, k),
        !ancestors_f(m, y, k).contains(c),
        forall|z: usize| #[trigger] m.dom().contains(z) && z != c ==> m2.dom().contains(z) && m2[z].parent == m[z].parent,
    ensures
        reaches_root(m2, y, k),
        ancestors_f(m2, y, k) == ancestors_f(m, y, k),
    decreases k,
{
    assert(ancestors_f(m, y, k)[0] == y);
    match m[y].parent {
        None => {},
        Some(q) => {
            let rest = ancestors_f(m, q, (k - 1) as nat);
            assert(ancestors_f(m, y, k) == seq![y] + rest);
            assert forall|j: int| 0 <= j < rest.len() implies rest[j] != c by {
                assert(ancestors_f(m, y, k)[j + 1] == rest[j]);
            }
            lemma_reaches_avoiding(m, m2, q, (k - 1) as nat, c);
        },
    }
}

/// Detaching a node keeps the tree well formed.
pub proof fn law_detach_keeps_forest(m: Tree, c: usize)
    requires
        tree_wf(m),
    ensures
        tree_wf(detached(m, c)),
{
    let d = detached(m, c);
    if m.dom().contains(c) {
        if let Some(q) = m[c].parent {
            let n = m.dom().len();
            lemma_not_own_parent(m, c, n);
            assert(q != c);
            assert(m.dom().contains(q));
            lemma_remove_value(m[q].children, c);
            assert(d.dom() =~= m.dom());
            assert forall|z: usize| #[trigger] m.dom().contains(z) && z != c implies d.dom().contains(z) && d[z].parent == m[z].parent by {}
            assert forall|i: usize| #[trigger] d.dom().contains(i) implies d[i].children.no_duplicates() by {}
            assert forall|i: usize, j: int|
                #![trigger d[i].children[j]]
                d.dom().contains(i) && 0 <= j < d[i].children.len() implies {
                    &&& d.dom().contains(d[i].children[j])
                    &&& d[d[i].children[j]].parent == Some(i)
                } by {
                let ch = d[i].children[j];
                if i == q {
                    assert(d[i].children.contains(ch));
                    let j0 = choose|j0: int| 0 <= j0 < m[q].children.len() && m[q].children[j0] == ch;
                    assert(m[m[q].children[j0]].parent == Some(q));
                } else if i == c {
                    assert(m[m[c].children[j]].parent == Some(c));
                    lemma_not_own_parent(m, c, n);
                } else {
                    assert(m[m[i].children[j]].parent == Some(i));
                }
            }
            assert forall|i: usize| #[trigger] d.dom().contains(i) && d[i].parent is Some implies {
                &&& d.dom().contains(d[i].parent->0)
                &&& d[d[i].parent->0].children.contains(i)
            } by {
                let y = d[i].parent->0;
                assert(m[i].parent == Some(y));
                assert(m[y].children.contains(i));
            }
            assert forall|x: usize| #[trigger] d.dom().contains(x) implies reaches_root(d, x, d.dom().len()) by {
                lemma_detached_reach(m, c, x, n);
            }
        }
    }
}

/// A node that reaches a root in the tree reaches one, within as many
/// steps, after `c` is detached.
proof fn lemma_detached_reach(m: Tree, c: usize, x: usize, k: nat)
    requires
        tree_wf(m),
        m.dom().contains(c),
        m[c].parent is Some,
        reaches_root(m, x, k),
    ensures
        reaches_root(detached(m, c), x, k),
    decreases k,
{
    let d = detached(m, c);
    let q = m[c].parent->0;
    assert(m.dom().contains(q));
    if x != c {
        match m[x].parent {
            None => {},
            Some(y) => {
                lemma_detached_reach(m, c, y, (k - 1) as nat);
            },
        }
    }
}


/// In a tree whose parent links agree with `d` except that `c`, a root of
/// `d`, now has parent `p`, a node that reached a root of `d` within `k`
/// steps reaches one within `k` more steps than `p` needs.
proof fn lemma_attach_reach(d: Tree, m2: Tree, p: usize, c: usize, x: usize, k: nat, kp: nat)
    requires
        reaches_root(d, x, k),
        reaches_root(m2, p, kp),
        m2.dom().contains(c),
        m2[c].parent == Some(p),
        forall|z: usize| #[trigger] d.dom().contains(z) && z != c ==> m2.dom().contains(z) && m2[z].parent == d[z].parent,
    ensures
        reaches_root(m2, x, k + kp),
    decreases k,
{
    if x == c {
        lemma_reaches_mono(m2, p, kp, (k + kp - 1) as nat);
    } else {
        match d[x].parent {
            None => {},
            Some(y) => {
                lemma_attach_reach(d, m2, p, c, y, (k - 1) as nat, kp);
            },
        }
    }
}

/// Attaching a root `c` of `d` under a node `p` that is not in the subtree
/// of `c` keeps the tree well formed, wherever `c` goes among the children
/// of `p`.
proof fn lemma_attach_wf(d: Tree, p: usize, c: usize, m2: Tree)
    requires
        tree_wf(d),
        d.dom().contains(p),
        d.dom().contains(c),
        p != c,
        d[c].parent is None,
        !ancestors(d, p).contains(c),
        m2.dom() == d.dom(),
        m2[c] == (NodeEntry { parent: Some(p), children: d[c].children, data: d[c].data }),
        m2[p].parent == d[p].parent,
        m2[p].children.no_duplicates(),
        forall|x: usize| #[trigger] m2[p].children.contains(x) <==> (d[p].children.contains(x) || x == c),
        forall|z: usize| #[trigger] d.dom().contains(z) && z != p && z != c ==> m2[z] == d[z],
    ensures
        tree_wf(m2),
{
    let n = d.dom().len();
    assert forall|z: usize| #[trigger] d.dom().contains(z) && z != c implies m2.dom().contains(z) && m2[z].parent == d[z].parent by {}
    assert forall|i: usize| #[trigger] m2.dom().contains(i) implies m2[i].children.no_duplicates() by {}
    assert(!d[p].children.contains(c)) by {
        if d[p].children.contains(c) {
            let j = choose|j: int| 0 <= j < d[p].children.len() && d[p].children[j] == c;
            assert(d[d[p].children[j]].parent == Some(p));
        }
    }
    assert(d[p].parent != Some(c)) by {
        if d[p].parent == Some(c) {
            assert(reaches_root(d, p, n));
            assert(ancestors_f(d, p, n) == seq![p] + ancestors_f(d, c, (n - 1) as nat));
            assert(reaches_root(d, c, (n - 1) as nat));
            assert(ancestors_f(d, c, (n - 1) as nat)[0] == c);
            assert(ancestors(d, p)[1] == c);
        }
    }
    assert forall|i: usize, j: int|
        #![trigger m2[i].children[j]]
        m2.dom().contains(i) && 0 <= j < m2[i].children.len() implies {
            &&& m2.dom().contains(m2[i].children[j])
            &&& m2[m2[i].children[j]].parent == Some(i)
        } by {
        let ch = m2[i].children[j];
        if i == p {
            assert(m2[p].children.contains(ch));
            if ch != c {
                let j0 = choose|j0: int| 0 <= j0 < d[p].children.len() && d[p].children[j0] == ch;
                assert(d[d[p].children[j0]].parent == Some(p));
            }
        } else if i == c {
            assert(d[d[c].children[j]].parent == Some(c));
        } else {
            assert(d[d[i].children[j]].parent == Some(i));
        }
    }
    assert forall|i: usize| #[trigger] m2.dom().contains(i) && m2[i].parent is Some implies {
        &&& m2.dom().contains(m2[i].parent->0)
        &&& m2[m2[i].parent->0].children.contains(i)
    } by {
        if i != c {
            let y = m2[i].parent->0;
            assert(d[i].parent == Some(y));
            assert(d[y].children.contains(i));
            if y == p {
                assert(m2[p].children.contains(i));
            }
        } else {
            assert(m2[p].children.contains(c));
        }
    }
    lemma_reaches_avoiding(d, m2, p, n, c);
    assert forall|x: usize| #[trigger] m2.dom().contains(x) implies reaches_root(m2, x, m2.dom().len()) by {
        lemma_attach_reach(d, m2, p, c, x, n, n);
        lemma_reach_bound(m2, x, n + n);
    }
}

/// Appending a node under a node outside its subtree keeps the tree well
/// formed.
pub proof fn law_append_keeps_forest(m: Tree, p: usize, c: usize)
    requires
        tree_wf(m),
        m.dom().contains(p),
        m.dom().contains(c),
        p != c,
        !is_ancestor_or_self(m, c, p),
    ensures
        tree_wf(appended(m, p, c)),
{
    let d = detached(m, c);
    law_detach_keeps_forest(m, c);
    lemma_detached_same(m, c);
    lemma_reaches_avoiding(m, d, p, m.dom().len(), c);
    let m2 = appended(m, p, c);
    assert(!d[p].children.contains(c)) by {
        if d[p].children.contains(c) {
            let j = choose|j: int| 0 <= j < d[p].children.len() && d[p].children[j] == c;
            assert(d[d[p].children[j]].parent == Some(p));
        }
    }
    assert forall|x: usize| #[trigger] m2[p].children.contains(x) <==> (d[p].children.contains(x) || x == c) by {
        if m2[p].children.contains(x) {
            let j = choose|j: int| 0 <= j < m2[p].children.len() && m2[p].children[j] == x;
            if j < d[p].children.len() {
                assert(d[p].children[j] == x);
            }
        }
        if d[p].children.contains(x) {
            let j = choose|j: int| 0 <= j < d[p].children.len() && d[p].children[j] == x;
            assert(m2[p].children[j] == x);
        }
        if x == c {
            assert(m2[p].children[d[p].children.len() as int] == c);
        }
    }
    assert(m2[p].children.no_duplicates()) by {
        let s = d[p].children;
        let t = m2[p].children;
        assert forall|a: int, b: int| 0 <= a < t.len() && 0 <= b < t.len() && a != b implies t[a] != t[b] by {
            if a < s.len() && b < s.len() {
                assert(t[a] == s[a] && t[b] == s[b]);
            } else if a < s.len() {
                assert(t[a] == s[a] && t[b] == c);
            } else if b < s.len() {
                assert(t[b] == s[b] && t[a] == c);
            }
        }
    }
    assert(m2.dom() =~= d.dom());
    lemma_attach_wf(d, p, c, m2);
}

/// Prepending a node under a node outside its subtree keeps the tree well
/// formed.
pub proof fn law_prepend_keeps_forest(m: Tree, p: usize, c: usize)
    requires
        tree_wf(m),
        m.dom().contains(p),
        m.dom().contains(c),
        p != c,
        !is_ancestor_or_self(m, c, p),
    ensures
        tree_wf(prepended(m, p, c)),
{
    let d = detached(m, c);
    law_detach_keeps_forest(m, c);
    lemma_detached_same(m, c);
    lemma_reaches_avoiding(m, d, p, m.dom().len(), c);
    let m2 = prepended(m, p, c);
    assert(!d[p].children.contains(c)) by {
        if d[p].children.contains(c) {
            let j = choose|j: int| 0 <= j < d[p].children.len() && d[p].children[j] == c;
            assert(d[d[p].children[j]].parent == Some(p));
        }
    }
    assert forall|x: usize| #[trigger] m2[p].children.contains(x) <==> (d[p].children.contains(x) || x == c) by {
        if m2[p].children.contains(x) {
            let j = choose|j: int| 0 <= j < m2[p].children.len() && m2[p].children[j] == x;
            if j > 0 {
                assert(d[p].children[j - 1] == x);
            }
        }
        if d[p].children.contains(x) {
            let j = choose|j: int| 0 <= j < d[p].children.len() && d[p].children[j] == x;
            assert(m2[p].children[j + 1] == x);
        }
        if x == c {
            assert(m2[p].children[0] == c);
        }
    }
    assert(m2[p].children.no_duplicates()) by {
        let s = d[p].children;
        let t = m2[p].children;
        assert forall|a: int, b: int| 0 <= a < t.len() && 0 <= b < t.len() && a != b implies t[a] != t[b] by {
            if a > 0 && b > 0 {
                assert(t[a] == s[a - 1] && t[b] == s[b - 1]);
            } else if a > 0 {
                assert(t[a] == s[a - 1] && t[b] == c);
            } else if b > 0 {
                assert(t[b] == s[b - 1] && t[a] == c);
            }
        }
    }
    assert(m2.dom() =~= d.dom());
    lemma_attach_wf(d, p, c, m2);
}

/// Detaching `c` keeps the live nodes and every parent link but that of
/// `c`, which it removes.
proof fn lemma_detached_same(m: Tree, c: usize)
    requires
        tree_wf(m),
        m.dom().contains(c),
    ensures
        detached(m, c).dom() == m.dom(),
        detached(m, c)[c].parent is None,
        detached(m, c)[c].children == m[c].children,
        detached(m, c)[c].data == m[c].data,
        forall|z: usize| #[trigger] m.dom().contains(z) && z != c ==> detached(m, c).dom().contains(z)
            && detached(m, c)[z].parent == m[z].parent,
{
    if let Some(q) = m[c].parent {
        assert(m.dom().contains(q));
    }
    assert(detached(m, c).dom() =~= m.dom());
}


/// The chain of a node on the chain of `x` is the rest of the chain of `x`.
pub proof fn lemma_ancestor_chain(m: Tree, x: usize, t: int)
    requires
        tree_wf(m),
        m.dom().contains(x),
        0 <= t < ancestors(m, x).len(),
    ensures
        m.dom().contains(ancestors(m, x)[t]),
        ancestors(m, ancestors(m, x)[t]) == ancestors(m, x).subrange(t, ancestors(m, x).len() as int),
        depth(m, ancestors(m, x)[t]) + t == depth(m, x),
{
    let n = m.dom().len();
    lemma_ancestors_len(m, x, n);
    lemma_chain_suffix(m, x, n, t);
    let a = ancestors(m, x)[t];
    lemma_reaches_mono(m, a, (n - t) as nat, n);
}

/// The parent of a node on the chain of `x` is on it too, right after it.
pub proof fn lemma_parent_on_chain(m: Tree, x: usize, t: int)
    requires
        tree_wf(m),
        m.dom().contains(x),
        0 <= t < ancestors(m, x).len(),
        m[ancestors(m, x)[t]].parent is Some,
    ensures
        t + 1 < ancestors(m, x).len(),
        ancestors(m, x)[t + 1] == m[ancestors(m, x)[t]].parent->0,
{
    let n = m.dom().len();
    let a = ancestors(m, x)[t];
    lemma_ancestor_chain(m, x, t);
    lemma_live_fuel(m, a);
    let b = m[a].parent->0;
    assert(reaches_root(m, a, n));
    assert(reaches_root(m, b, (n - 1) as nat));
    lemma_ancestors_len(m, b, (n - 1) as nat);
    assert(ancestors(m, a) == seq![a] + ancestors_f(m, b, (n - 1) as nat));
    assert(ancestors(m, a)[1] == b);
    assert(ancestors(m, x).subrange(t, ancestors(m, x).len() as int)[1] == ancestors(m, x)[t + 1]);
}

/// A node of the pre-orders of `kids` is in the pre-order of one of them.
proof fn lemma_pre_list_contains(m: Tree, kids: Seq<usize>, f: nat, x: usize)
    ensures
        pre_list(m, kids, f).contains(x) <==> exists|j: int| 0 <= j < kids.len() && #[trigger] pre_f(m, kids[j], f).contains(x),
    decreases kids.len(),
{
    if kids.len() > 0 {
        let init = kids.drop_last();
        let last = kids.len() - 1;
        lemma_pre_list_contains(m, init, f, x);
        let a = pre_list(m, init, f);
        let b = pre_f(m, kids[last], f);
        assert(kids.last() == kids[last]);
        assert(pre_list(m, kids, f) == a + b);
        if (a + b).contains(x) {
            let i = choose|i: int| 0 <= i < (a + b).len() && (a + b)[i] == x;
            if i < a.len() {
                assert(a[i] == x);
                assert(a.contains(x));
                let j = choose|j: int| 0 <= j < init.len() && #[trigger] pre_f(m, init[j], f).contains(x);
                assert(init[j] == kids[j]);
                assert(pre_f(m, kids[j], f).contains(x));
            } else {
                assert(b[i - a.len()] == x);
                assert(b.contains(x));
                assert(pre_f(m, kids[last], f).contains(x));
            }
        }
        if exists|j: int| 0 <= j < kids.len() && #[trigger] pre_f(m, kids[j], f).contains(x) {
            let j = choose|j: int| 0 <= j < kids.len() && #[trigger] pre_f(m, kids[j], f).contains(x);
            if j < last {
                assert(init[j] == kids[j]);
                assert(pre_f(m, init[j], f).contains(x));
                assert(a.contains(x));
                let i = choose|i: int| 0 <= i < a.len() && a[i] == x;
                assert((a + b)[i] == x);
            } else {
                assert(b.contains(x));
                let i = choose|i: int| 0 <= i < b.len() && b[i] == x;
                assert((a + b)[a.len() + i] == x);
            }
        }
    }
}

/// The pre-order of a live node `i` with `f` levels holds exactly the live
/// nodes that have `i` on their chain of ancestors, fewer than `f` levels
/// below it.
proof fn lemma_pre_f_contains(m: Tree, i: usize, f: nat, x: usize)
    requires
        tree_wf(m),
        m.dom().contains(i),
    ensures
        pre_f(m, i, f).contains(x) <==> (f > 0 && m.dom().contains(x) && ancestors(m, x).contains(i) && depth(m, x)
            < depth(m, i) + f),
    decreases f,
{
    if f > 0 {
        let kids = m[i].children;
        let rest = pre_list(m, kids, (f - 1) as nat);
        assert(pre_f(m, i, f) == seq![i] + rest);
        lemma_pre_list_contains(m, kids, (f - 1) as nat, x);
        lemma_live_fuel(m, i);
        if pre_f(m, i, f).contains(x) {
            if x != i {
                assert(rest.contains(x)) by {
                    let k = choose|k: int| 0 <= k < (seq![i] + rest).len() && (seq![i] + rest)[k] == x;
                    assert(rest[k - 1] == x);
                }
                let j = choose|j: int| 0 <= j < kids.len() && #[trigger] pre_f(m, kids[j], (f - 1) as nat).contains(x);
                let kid = kids[j];
                assert(m.dom().contains(kid) && m[kid].parent == Some(i));
                lemma_pre_f_contains(m, kid, (f - 1) as nat, x);
                lemma_child_depth(m, i, kid);
                let t = choose|t: int| 0 <= t < ancestors(m, x).len() && ancestors(m, x)[t] == kid;
                lemma_parent_on_chain(m, x, t);
            } else {
                assert(ancestors(m, i)[0] == i);
            }
        }
        if m.dom().contains(x) && ancestors(m, x).contains(i) && depth(m, x) < depth(m, i) + f {
            if x == i {
                assert((seq![i] + rest)[0] == i);
            } else {
                let t = choose|t: int| 0 <= t < ancestors(m, x).len() && ancestors(m, x)[t] == i;
                lemma_live_fuel(m, x);
                assert(t > 0);
                lemma_ancestor_chain(m, x, t - 1);
                let kid = ancestors(m, x)[t - 1];
                lemma_live_fuel(m, kid);
                assert(m[kid].parent == Some(i)) by {
                    let n = m.dom().len();
                    lemma_ancestor_chain(m, x, t);
                    if m[kid].parent is None {
                        assert(ancestors(m, kid) == seq![kid]);
                        assert(ancestors(m, x).subrange(t - 1, ancestors(m, x).len() as int).len() >= 2);
                    } else {
                        lemma_parent_on_chain(m, x, t - 1);
                    }
                }
                lemma_child_depth(m, i, kid);
                assert(m[i].children.contains(kid));
                let j = choose|j: int| 0 <= j < kids.len() && kids[j] == kid;
                assert(ancestors(m, x)[t - 1] == kid);
                lemma_pre_f_contains(m, kid, (f - 1) as nat, x);
                assert(pre_f(m, kids[j], (f - 1) as nat).contains(x));
                assert(rest.contains(x));
                let k = choose|k: int| 0 <= k < rest.len() && rest[k] == x;
                assert((seq![i] + rest)[k + 1] == x);
            }
        }
    }
}

/// The descendants of a live node are exactly the live nodes that have it
/// among their ancestors, the node itself included.
pub proof fn law_descendants_are_below(m: Tree, n: usize, x: usize)
    requires
        tree_wf(m),
        m.dom().contains(n),
    ensures
        descendants(m, n).contains(x) <==> (m.dom().contains(x) && is_ancestor_or_self(m, n, x)),
{
    lemma_live_fuel(m, n);
    lemma_pre_f_contains(m, n, height_fuel(m, n), x);
    if m.dom().contains(x) {
        lemma_live_fuel(m, x);
    }
}


/// The parent of a node outside the subtree of `n` is outside it too.
proof fn lemma_kept_parent(m: Tree, n: usize, i: usize)
    requires
        tree_wf(m),
        m.dom().contains(n),
        m.dom().contains(i),
        !descendants(m, n).contains(i),
        m[i].parent is Some,
    ensures
        m.dom().contains(m[i].parent->0),
        !descendants(m, n).contains(m[i].parent->0),
{
    let y = m[i].parent->0;
    law_descendants_are_below(m, n, i);
    law_descendants_are_below(m, n, y);
    lemma_live_fuel(m, i);
    lemma_parent_on_chain(m, i, 0);
    lemma_ancestor_chain(m, i, 1);
    if ancestors(m, y).contains(n) {
        let t = choose|t: int| 0 <= t < ancestors(m, y).len() && ancestors(m, y)[t] == n;
        assert(ancestors(m, i)[t + 1] == n);
    }
}

/// A child, other than `n`, of a node outside the subtree of `n` is outside
/// it too.
proof fn lemma_kept_child(m: Tree, n: usize, i: usize, ch: usize)
    requires
        tree_wf(m),
        m.dom().contains(n),
        m.dom().contains(i),
        m.dom().contains(ch),
        !descendants(m, n).contains(i),
        m[ch].parent == Some(i),
        ch != n,
    ensures
        !descendants(m, n).contains(ch),
{
    law_descendants_are_below(m, n, i);
    law_descendants_are_below(m, n, ch);
    lemma_live_fuel(m, ch);
    lemma_parent_on_chain(m, ch, 0);
    lemma_ancestor_chain(m, ch, 1);
    if ancestors(m, ch).contains(n) {
        let t = choose|t: int| 0 <= t < ancestors(m, ch).len() && ancestors(m, ch)[t] == n;
        assert(t != 0);
        assert(ancestors(m, i)[t - 1] == n);
    }
}

/// A node outside the subtree of `n` reaches a root, within as many steps,
/// once the subtree is removed.
proof fn lemma_removed_reach(m: Tree, n: usize, x: usize, k: nat)
    requires
        tree_wf(m),
        m.dom().contains(n),
        m.dom().contains(x),
        !descendants(m, n).contains(x),
        reaches_root(m, x, k),
    ensures
        reaches_root(subtree_removed(m, n), x, k),
    decreases k,
{
    let r = subtree_removed(m, n);
    lemma_detached_same(m, n);
    law_descendants_are_below(m, n, n);
    match m[x].parent {
        None => {},
        Some(y) => {
            lemma_kept_parent(m, n, x);
            lemma_removed_reach(m, n, y, (k - 1) as nat);
        },
    }
}

/// Removing the subtree of a node keeps the tree well formed.
pub proof fn law_remove_keeps_forest(m: Tree, n: usize)
    requires
        tree_wf(m),
    ensures
        tree_wf(subtree_removed(m, n)),
{
    if m.dom().contains(n) {
        let d = detached(m, n);
        let r = subtree_removed(m, n);
        let gone = Set::new(|x: usize| descendants(m, n).contains(x));
        law_detach_keeps_forest(m, n);
        lemma_detached_same(m, n);
        law_descendants_are_below(m, n, n);
        assert(r == d.remove_keys(gone));
        assert(r.dom() =~= m.dom().difference(gone));
        assert(r.dom().subset_of(m.dom()));
        vstd::set_lib::lemma_len_subset(r.dom(), m.dom());
        assert forall|i: usize| #[trigger] r.dom().contains(i) implies r[i] == d[i] by {}
        assert forall|i: usize| #[trigger] r.dom().contains(i) implies r[i].children.no_duplicates() by {}
        assert forall|i: usize, j: int|
            #![trigger r[i].children[j]]
            r.dom().contains(i) && 0 <= j < r[i].children.len() implies {
                &&& r.dom().contains(r[i].children[j])
                &&& r[r[i].children[j]].parent == Some(i)
            } by {
            let ch = d[i].children[j];
            assert(d.dom().contains(ch) && d[ch].parent == Some(i));
            assert(ch != n);
            lemma_kept_child(m, n, i, ch);
        }
        assert forall|i: usize| #[trigger] r.dom().contains(i) && r[i].parent is Some implies {
            &&& r.dom().contains(r[i].parent->0)
            &&& r[r[i].parent->0].children.contains(i)
        } by {
            let y = d[i].parent->0;
            assert(d.dom().contains(y) && d[y].children.contains(i));
            lemma_kept_parent(m, n, i);
        }
        assert forall|x: usize| #[trigger] r.dom().contains(x) implies reaches_root(r, x, r.dom().len()) by {
            lemma_removed_reach(m, n, x, m.dom().len());
            lemma_reach_bound(r, x, m.dom().len());
        }
    }
}

} // verus!
