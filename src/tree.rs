//! The document tree: every node by identity, a root, and the parent and
//! ordered children indices that place nodes in a forest.
use vstd::prelude::*;
use std::collections::HashMap;
use crate::ids::{id_of_key, lemma_key_bijective, ObjectId};
use vstd::relations::injective_on;
use vstd::set_lib::{lemma_len_subset, lemma_map_size};
use std::collections::HashSet;
use crate::node::{Node, NodeView};
use crate::order_key::{
    ends_above_zero, fractional_midpoint, key_le, key_less, key_lt, keys_leave_room,
    lemma_key_le_lt_transitive, lemma_key_le_transitive, lemma_key_lt_le_transitive,
    lemma_key_lt_total, lemma_midpoint_between, lemma_room_from_form, midpoint_key, room_between,
};
use crate::properties::{Property, PropertyValue};

verus! {

broadcast use vstd::std_specs::hash::group_hash_axioms;

/// All nodes of a document with their parent links and ordered child lists.
#[derive(Debug)]
pub struct DocumentTree {
    nodes: HashMap<u64, Node>,
    root_id: ObjectId,
    children_map: HashMap<u64, Vec<ObjectId>>,
    parent_map: HashMap<u64, ObjectId>,
}

/// A tree as mathematical maps.
pub struct TreeView {
    pub nodes: Map<ObjectId, NodeView>,
    pub root: ObjectId,
    pub children: Map<ObjectId, Seq<ObjectId>>,
    pub parent: Map<ObjectId, ObjectId>,
}

/// The order key of node `c`.
pub open spec fn okey(v: TreeView, c: ObjectId) -> Seq<char> {
    v.nodes[c].order_key
}

/// The ids of `s` in order-key order (ties allowed).
pub open spec fn sorted_by_key(v: TreeView, s: Seq<ObjectId>) -> bool {
    forall|i: int, j: int|
        0 <= i < j < s.len() ==> key_le(okey(v, #[trigger] s[i]), okey(v, #[trigger] s[j]))
}

/// The children of `p`, empty when it has none.
pub open spec fn children_of(v: TreeView, p: ObjectId) -> Seq<ObjectId> {
    if v.children.contains_key(p) {
        v.children[p]
    } else {
        Seq::empty()
    }
}

/// The tree's invariants: nodes are stored under their own ids; the parent
/// and children indices are mutual inverses that only name stored nodes; each
/// child list holds no id twice and is sorted by order key.
pub open spec fn tree_wf(v: TreeView) -> bool {
    &&& forall|id: ObjectId| #[trigger] v.nodes.contains_key(id) ==> v.nodes[id].id == id
    &&& forall|c: ObjectId|
        #[trigger] v.parent.contains_key(c) ==> {
            &&& v.nodes.contains_key(c)
            &&& v.children.contains_key(v.parent[c])
            &&& v.children[v.parent[c]].contains(c)
        }
    &&& forall|p: ObjectId|
        #[trigger] v.children.contains_key(p) ==> {
            &&& v.nodes.contains_key(p)
            &&& v.children[p].no_duplicates()
            &&& sorted_by_key(v, v.children[p])
        }
    &&& forall|p: ObjectId, i: int|
        v.children.contains_key(p) && 0 <= i < v.children[p].len() ==> {
            &&& v.parent.contains_key(#[trigger] v.children[p][i])
            &&& v.parent[v.children[p][i]] == p
        }
}

/// `new` is `old` with `c` put at the place that its key gives it: after
/// every id whose key is at most its own, before every id whose key is above.
pub open spec fn placed_by_key(v: TreeView, old: Seq<ObjectId>, new: Seq<ObjectId>, c: ObjectId) -> bool {
    exists|k: int|
        0 <= k <= old.len() && new == old.insert(k, c) && (forall|i: int|
            0 <= i < k ==> key_le(okey(v, #[trigger] old[i]), okey(v, c))) && (forall|i: int|
            k <= i < old.len() ==> key_lt(okey(v, c), okey(v, #[trigger] old[i])))
}

/// `v` with `c` taken out of its parent's child list and its parent link dropped.
pub open spec fn detached(v: TreeView, c: ObjectId) -> TreeView {
    if v.parent.contains_key(c) {
        TreeView {
            parent: v.parent.remove(c),
            children: v.children.insert(v.parent[c], v.children[v.parent[c]].remove_value(c)),
            ..v
        }
    } else {
        v
    }
}

/// The node `n` parent links above `x`, if the chain is that long.
pub open spec fn nth_ancestor(v: TreeView, x: ObjectId, n: nat) -> Option<ObjectId>
    decreases n,
{
    if n == 0 {
        Some(x)
    } else {
        match nth_ancestor(v, x, (n - 1) as nat) {
            Some(y) => if v.parent.contains_key(y) {
                Some(v.parent[y])
            } else {
                None
            },
            None => None,
        }
    }
}

/// Making `c` a child of `p` would close a cycle: `c` is `p` or one of the
/// first ancestors of `p`, as many as there are nodes.
pub open spec fn would_cycle(v: TreeView, c: ObjectId, p: ObjectId) -> bool {
    exists|k: nat| k <= v.nodes.len() && #[trigger] nth_ancestor(v, p, k) == Some(c)
}

/// `set_parent(c, p)` acts: both nodes exist, `c` is not the root, and no
/// cycle would be closed.
pub open spec fn can_parent(v: TreeView, c: ObjectId, p: ObjectId) -> bool {
    v.nodes.contains_key(c) && v.nodes.contains_key(p) && c != v.root && !would_cycle(v, c, p)
}

/// The state after `insert(n)`: `n` stored under its id (the first node of an
/// empty tree becoming the root); a node replaced keeps its parent and is
/// placed again by its new key.
pub open spec fn inserted(v: TreeView, w: TreeView, n: NodeView) -> bool {
    &&& w.nodes == v.nodes.insert(n.id, n)
    &&& w.root == if v.nodes == Map::<ObjectId, NodeView>::empty() {
        n.id
    } else {
        v.root
    }
    &&& w.parent == v.parent
    &&& !v.parent.contains_key(n.id) ==> w.children == v.children
    &&& v.parent.contains_key(n.id) ==> {
        let p = v.parent[n.id];
        &&& w.children == detached(v, n.id).children.insert(p, w.children[p])
        &&& placed_by_key(w, children_of(detached(v, n.id), p), w.children[p], n.id)
    }
}

/// The state after `c` is moved under `p`: detached, then placed in `p`'s
/// list by its key.
pub open spec fn reparented(old: TreeView, new: TreeView, c: ObjectId, p: ObjectId) -> bool {
    &&& new.nodes == old.nodes
    &&& new.root == old.root
    &&& new.parent == old.parent.insert(c, p)
    &&& new.children == detached(old, c).children.insert(p, new.children[p])
    &&& placed_by_key(new, children_of(detached(old, c), p), new.children[p], c)
}

proof fn lemma_no_ancestor_beyond(v: TreeView, x: ObjectId, n: nat, m: nat)
    requires
        nth_ancestor(v, x, n) is None,
        n <= m,
    ensures
        nth_ancestor(v, x, m) is None,
    decreases m - n,
{
    if n < m {
        lemma_no_ancestor_beyond(v, x, n, (m - 1) as nat);
    }
}

/// `move_before(node, anchor)` and `move_after(node, anchor)` act: `anchor`
/// has a parent, `node` is another node, and it can be put under that parent.
pub open spec fn can_move(v: TreeView, node: ObjectId, anchor: ObjectId) -> bool {
    v.parent.contains_key(anchor) && node != anchor && can_parent(v, node, v.parent[anchor])
}

/// The siblings among which a moved node is placed: `anchor`'s list without it.
pub open spec fn move_list(v: TreeView, node: ObjectId, anchor: ObjectId) -> Seq<ObjectId> {
    children_of(detached(v, node), v.parent[anchor])
}

pub open spec fn move_anchor_index(v: TreeView, node: ObjectId, anchor: ObjectId) -> int {
    move_list(v, node, anchor).index_of(anchor)
}

/// The key that bounds the first place of a child list from below.
pub open spec fn lower_sentinel() -> Seq<char> {
    seq!['0']
}

/// The key that bounds the last place of a child list from above.
pub open spec fn upper_sentinel() -> Seq<char> {
    seq!['1']
}

/// The key just before `anchor` among the siblings, or the lower sentinel.
pub open spec fn key_before(v: TreeView, node: ObjectId, anchor: ObjectId) -> Seq<char> {
    let l = move_list(v, node, anchor);
    let i = move_anchor_index(v, node, anchor);
    if i > 0 {
        okey(v, l[i - 1])
    } else {
        lower_sentinel()
    }
}

/// The key just after `anchor` among the siblings, or the upper sentinel.
pub open spec fn key_after(v: TreeView, node: ObjectId, anchor: ObjectId) -> Seq<char> {
    let l = move_list(v, node, anchor);
    let i = move_anchor_index(v, node, anchor);
    if i + 1 < l.len() {
        okey(v, l[i + 1])
    } else {
        upper_sentinel()
    }
}

/// The state after `node` got key `m` and was put at position `pos` of
/// `anchor`'s siblings (those other than `node`).
pub open spec fn moved_with_key(
    v: TreeView,
    w: TreeView,
    node: ObjectId,
    anchor: ObjectId,
    m: Seq<char>,
    pos: int,
) -> bool {
    let p = v.parent[anchor];
    &&& w.nodes == v.nodes.insert(node, NodeView { order_key: m, ..v.nodes[node] })
    &&& w.root == v.root
    &&& w.parent == v.parent.insert(node, p)
    &&& w.children == detached(v, node).children.insert(p, move_list(v, node, anchor).insert(pos, node))
}

/// The key `move_before` gives: midway between the anchor's lower neighbour
/// (or `"0"`) and the anchor when they leave room, else the anchor's key.
pub open spec fn before_key(v: TreeView, node: ObjectId, anchor: ObjectId) -> Seq<char> {
    let lo = key_before(v, node, anchor);
    let hi = okey(v, anchor);
    if room_between(lo, hi) {
        midpoint_key(lo, hi)
    } else {
        hi
    }
}

/// The key `move_after` gives: midway between the anchor and its upper
/// neighbour (or `"1"`) when they leave room, else the anchor's key.
pub open spec fn after_key(v: TreeView, node: ObjectId, anchor: ObjectId) -> Seq<char> {
    let lo = okey(v, anchor);
    let hi = key_after(v, node, anchor);
    if room_between(lo, hi) {
        midpoint_key(lo, hi)
    } else {
        lo
    }
}

/// Detaching a node keeps the tree's invariants.
proof fn lemma_detached_wf(v: TreeView, c: ObjectId)
    requires
        tree_wf(v),
    ensures
        tree_wf(detached(v, c)),
        !detached(v, c).parent.contains_key(c),
{
    if v.parent.contains_key(c) {
        let w = detached(v, c);
        let p = v.parent[c];
        let old_list = v.children[p];
        let nl = old_list.remove_value(c);
        assert(old_list.contains(c));
        old_list.index_of_first_ensures(c);
        let ri = old_list.index_of_first(c)->0;
        assert(nl == old_list.remove(ri));
        assert forall|x: ObjectId| nl.contains(x) <==> (old_list.contains(x) && x != c) by {
            if nl.contains(x) {
                let j = choose|j: int| 0 <= j < nl.len() && nl[j] == x;
                if j < ri {
                    assert(old_list[j] == x);
                } else {
                    assert(old_list[j + 1] == x);
                }
            }
            if old_list.contains(x) && x != c {
                let j = choose|j: int| 0 <= j < old_list.len() && old_list[j] == x;
                if j < ri {
                    assert(nl[j] == x);
                } else {
                    assert(nl[j - 1] == x);
                }
            }
        }
        assert forall|a: int, b: int| 0 <= a < b < nl.len() implies key_le(okey(w, #[trigger] nl[a]), okey(w, #[trigger] nl[b])) by {
            let a2 = if a < ri { a } else { a + 1 };
            let b2 = if b < ri { b } else { b + 1 };
            assert(nl[a] == old_list[a2] && nl[b] == old_list[b2]);
        }
        assert(nl.no_duplicates()) by {
            assert forall|a: int, b: int| 0 <= a < nl.len() && 0 <= b < nl.len() && a != b implies nl[a] != nl[b] by {
                let a2 = if a < ri { a } else { a + 1 };
                let b2 = if b < ri { b } else { b + 1 };
                assert(nl[a] == old_list[a2] && nl[b] == old_list[b2]);
            }
        }
        assert forall|q: ObjectId, j: int| w.children.contains_key(q) && 0 <= j < w.children[q].len() implies {
            &&& w.parent.contains_key(#[trigger] w.children[q][j])
            &&& w.parent[w.children[q][j]] == q
        } by {
            if q == p {
                assert(nl.contains(nl[j]));
            } else {
                assert(v.children[q][j] != c) by {
                    if v.children[q][j] == c {
                        assert(v.parent[v.children[q][j]] == q);
                    }
                }
            }
        }
        assert forall|x: ObjectId| #[trigger] w.parent.contains_key(x) implies {
            &&& w.nodes.contains_key(x)
            &&& w.children.contains_key(w.parent[x])
            &&& w.children[w.parent[x]].contains(x)
        } by {
            if v.parent[x] == p {
                assert(old_list.contains(x));
            }
        }
    }
}

/// `s` is a downward path: each id is a child of the one before it.
pub open spec fn is_path(v: TreeView, s: Seq<ObjectId>) -> bool {
    &&& s.len() >= 1
    &&& forall|i: int| 0 <= i < s.len() - 1 ==> children_of(v, #[trigger] s[i]).contains(s[i + 1])
}

/// `x` is `a` or lies below it.
pub open spec fn descends(v: TreeView, a: ObjectId, x: ObjectId) -> bool {
    exists|s: Seq<ObjectId>| is_path(v, s) && s[0] == a && s.last() == x
}

/// The ids of the subtree rooted at `a`.
pub open spec fn subtree(v: TreeView, a: ObjectId) -> Set<ObjectId> {
    Set::new(|x: ObjectId| descends(v, a, x))
}

/// The state after removing `id` with its subtree: detached from its parent,
/// then every id below it (and itself) dropped from all three maps.
pub open spec fn removed(v: TreeView, w: TreeView, id: ObjectId) -> bool {
    let d = detached(v, id);
    &&& w.nodes == d.nodes.remove_keys(subtree(d, id))
    &&& w.parent == d.parent.remove_keys(subtree(d, id))
    &&& w.children == d.children.remove_keys(subtree(d, id))
    &&& w.root == v.root
}

proof fn lemma_path_extend(v: TreeView, s: Seq<ObjectId>, y: ObjectId)
    requires
        is_path(v, s),
        children_of(v, s.last()).contains(y),
    ensures
        is_path(v, s.push(y)),
{
    let t = s.push(y);
    assert forall|i: int| 0 <= i < t.len() - 1 implies children_of(v, #[trigger] t[i]).contains(t[i + 1]) by {
        if i < s.len() - 1 {
            assert(t[i] == s[i] && t[i + 1] == s[i + 1]);
        }
    }
}

/// A path from `id` can be cut to one that never comes back to `id`.
proof fn lemma_path_shortcut(v: TreeView, s: Seq<ObjectId>, id: ObjectId) -> (t: Seq<ObjectId>)
    requires
        is_path(v, s),
        s[0] == id,
    ensures
        is_path(v, t),
        t[0] == id,
        t.last() == s.last(),
        forall|i: int| 1 <= i < t.len() ==> t[i] != id,
    decreases s.len(),
{
    if exists|i: int| 1 <= i < s.len() && s[i] == id {
        let i = choose|i: int| 1 <= i < s.len() && s[i] == id;
        let u = s.subrange(i, s.len() as int);
        assert forall|j: int| 0 <= j < u.len() - 1 implies children_of(v, #[trigger] u[j]).contains(u[j + 1]) by {
            assert(u[j] == s[i + j] && u[j + 1] == s[i + j + 1]);
        }
        lemma_path_shortcut(v, u, id)
    } else {
        s
    }
}

proof fn lemma_remove_value_contains(s: Seq<ObjectId>, c: ObjectId, x: ObjectId)
    requires
        s.contains(x),
        x != c,
    ensures
        s.remove_value(c).contains(x),
{
    s.index_of_first_ensures(c);
    if s.contains(c) {
        let ri = s.index_of_first(c)->0;
        let j = choose|j: int| 0 <= j < s.len() && s[j] == x;
        if j < ri {
            assert(s.remove_value(c)[j] == x);
        } else {
            assert(s.remove_value(c)[j - 1] == x);
        }
    }
}

/// Whatever lies below `id` lies below it once it is detached.
pub proof fn lemma_descends_detached(v: TreeView, id: ObjectId, x: ObjectId)
    requires
        tree_wf(v),
        descends(v, id, x),
    ensures
        descends(detached(v, id), id, x),
{
    let s = choose|s: Seq<ObjectId>| is_path(v, s) && s[0] == id && s.last() == x;
    let t = lemma_path_shortcut(v, s, id);
    let d = detached(v, id);
    assert forall|i: int| 0 <= i < t.len() - 1 implies children_of(d, #[trigger] t[i]).contains(t[i + 1]) by {
        assert(children_of(v, t[i]).contains(t[i + 1]));
        if v.parent.contains_key(id) && t[i] == v.parent[id] {
            lemma_remove_value_contains(v.children[t[i]], id, t[i + 1]);
        }
    }
    assert(is_path(d, t));
}

/// In a well-formed tree, the parent of an id below `a` (other than `a`) is
/// also below `a`.
proof fn lemma_descends_parent(v: TreeView, a: ObjectId, p: ObjectId, y: ObjectId)
    requires
        tree_wf(v),
        !v.parent.contains_key(a),
        children_of(v, p).contains(y),
        descends(v, a, y),
    ensures
        descends(v, a, p),
{
    let s = choose|s: Seq<ObjectId>| is_path(v, s) && s[0] == a && s.last() == y;
    let j = choose|j: int| 0 <= j < children_of(v, p).len() && children_of(v, p)[j] == y;
    assert(v.parent.contains_key(v.children[p][j]));
    if s.len() == 1 {
        assert(y == a);
    } else {
        let q = s[s.len() - 2];
        assert(children_of(v, q).contains(y));
        let k = choose|k: int| 0 <= k < children_of(v, q).len() && children_of(v, q)[k] == y;
        assert(v.parent[v.children[q][k]] == q);
        let u = s.drop_last();
        assert forall|i: int| 0 <= i < u.len() - 1 implies children_of(v, #[trigger] u[i]).contains(u[i + 1]) by {
            assert(u[i] == s[i] && u[i + 1] == s[i + 1]);
        }
        assert(is_path(v, u));
        assert(v.parent[y] == p);
        assert(u.last() == p);
        assert(u[0] == a);
    }
}

/// Every id on a path that starts in a set closed under children is in it.
proof fn lemma_closed_path(v: TreeView, order: Seq<ObjectId>, s: Seq<ObjectId>)
    requires
        is_path(v, s),
        order.contains(s[0]),
        forall|j: int, y: ObjectId| 0 <= j < order.len() && #[trigger] children_of(v, order[j]).contains(y) ==> order.contains(y),
    ensures
        order.contains(s.last()),
    decreases s.len(),
{
    if s.len() > 1 {
        let u = s.drop_last();
        assert forall|i: int| 0 <= i < u.len() - 1 implies children_of(v, #[trigger] u[i]).contains(u[i + 1]) by {
            assert(u[i] == s[i] && u[i + 1] == s[i + 1]);
        }
        lemma_closed_path(v, order, u);
        let j = choose|j: int| 0 <= j < order.len() && order[j] == u.last();
        assert(children_of(v, s[s.len() - 2]).contains(s.last()));
        assert(children_of(v, order[j]).contains(s.last()));
    }
}

proof fn lemma_push_contains(s: Seq<ObjectId>, x: ObjectId)
    ensures
        forall|z: ObjectId| #[trigger] s.push(x).contains(z) <==> s.contains(z) || z == x,
{
    assert forall|z: ObjectId| #[trigger] s.push(x).contains(z) <==> s.contains(z) || z == x by {
        if s.push(x).contains(z) {
            let t = choose|t: int| 0 <= t < s.push(x).len() && s.push(x)[t] == z;
            if t < s.len() {
                assert(s[t] == z);
            }
        }
        if s.contains(z) {
            let t = choose|t: int| 0 <= t < s.len() && s[t] == z;
            assert(s.push(x)[t] == z);
        }
        if z == x {
            assert(s.push(x)[s.len() as int] == z);
        }
    }
}

proof fn lemma_distinct_bound(s: Seq<ObjectId>, dom: Set<ObjectId>)
    requires
        s.no_duplicates(),
        dom.finite(),
        forall|j: int| 0 <= j < s.len() ==> dom.contains(#[trigger] s[j]),
    ensures
        s.len() <= dom.len(),
{
    s.unique_seq_to_set();
    assert(s.to_set().subset_of(dom));
    lemma_len_subset(s.to_set(), dom);
}

/// Dropping a detached node's whole subtree keeps the tree's invariants.
proof fn lemma_removed_wf(d: TreeView, id: ObjectId, w: TreeView)
    requires
        tree_wf(d),
        !d.parent.contains_key(id),
        w.nodes == d.nodes.remove_keys(subtree(d, id)),
        w.parent == d.parent.remove_keys(subtree(d, id)),
        w.children == d.children.remove_keys(subtree(d, id)),
    ensures
        tree_wf(w),
{
    let r = subtree(d, id);
    assert forall|c: ObjectId| #[trigger] w.parent.contains_key(c) implies {
        &&& w.nodes.contains_key(c)
        &&& w.children.contains_key(w.parent[c])
        &&& w.children[w.parent[c]].contains(c)
    } by {
        let p = d.parent[c];
        if r.contains(p) {
            assert(d.children.contains_key(p));
            let s = choose|s: Seq<ObjectId>| is_path(d, s) && s[0] == id && s.last() == p;
            lemma_path_extend(d, s, c);
            assert(s.push(c).last() == c);
            assert(r.contains(c));
        }
    }
    assert forall|p: ObjectId, i: int| w.children.contains_key(p) && 0 <= i < w.children[p].len() implies {
        &&& w.parent.contains_key(#[trigger] w.children[p][i])
        &&& w.parent[w.children[p][i]] == p
    } by {
        let y = d.children[p][i];
        assert(d.parent.contains_key(y));
        assert(children_of(d, p).contains(y));
        if r.contains(y) {
            lemma_descends_parent(d, id, p, y);
        }
    }
    assert forall|p: ObjectId| #[trigger] w.children.contains_key(p) implies {
        &&& w.nodes.contains_key(p)
        &&& w.children[p].no_duplicates()
        &&& sorted_by_key(w, w.children[p])
    } by {
        assert forall|a: int, b: int| 0 <= a < b < w.children[p].len() implies key_le(okey(w, #[trigger] w.children[p][a]), okey(w, #[trigger] w.children[p][b])) by {
            assert(w.parent.contains_key(w.children[p][a]));
            assert(w.parent.contains_key(w.children[p][b]));
            assert(sorted_by_key(d, d.children[p]));
        }
    }
}

/// No node is its own ancestor.
pub open spec fn acyclic(v: TreeView) -> bool {
    forall|x: ObjectId, k: nat| k >= 1 ==> #[trigger] nth_ancestor(v, x, k) != Some(x)
}

proof fn lemma_nth_compose(v: TreeView, x: ObjectId, i: nat, m: nat)
    ensures
        nth_ancestor(v, x, i + m) == match nth_ancestor(v, x, i) {
            Some(y) => nth_ancestor(v, y, m),
            None => None,
        },
    decreases m,
{
    if m > 0 {
        lemma_nth_compose(v, x, i, (m - 1) as nat);
        assert((i + m - 1) as nat == i + (m - 1) as nat);
    }
}

/// Where every parent link of `w` is one of `v`, every chain of `w` is one of `v`.
proof fn lemma_nth_sub(v: TreeView, w: TreeView, x: ObjectId, k: nat)
    requires
        forall|c: ObjectId| #[trigger] w.parent.contains_key(c) ==> v.parent.contains_key(c) && v.parent[c] == w.parent[c],
    ensures
        nth_ancestor(w, x, k) is Some ==> nth_ancestor(v, x, k) == nth_ancestor(w, x, k),
    decreases k,
{
    if k > 0 {
        lemma_nth_sub(v, w, x, (k - 1) as nat);
    }
}

/// Dropping or keeping parent links, and adding none, keeps a tree acyclic.
proof fn lemma_acyclic_sub(v: TreeView, w: TreeView)
    requires
        acyclic(v),
        forall|c: ObjectId| #[trigger] w.parent.contains_key(c) ==> v.parent.contains_key(c) && v.parent[c] == w.parent[c],
    ensures
        acyclic(w),
{
    assert forall|x: ObjectId, k: nat| k >= 1 implies #[trigger] nth_ancestor(w, x, k) != Some(x) by {
        lemma_nth_sub(v, w, x, k);
    }
}

/// A chain of `w` that does not pass `c` before its last step is one of `v`,
/// when `w` differs from `v` only in the link of `c`.
proof fn lemma_nth_avoiding(v: TreeView, w: TreeView, x: ObjectId, k: nat, c: ObjectId, p: ObjectId)
    requires
        w.parent == v.parent.insert(c, p),
        forall|i: nat| i < k ==> #[trigger] nth_ancestor(w, x, i) != Some(c),
    ensures
        nth_ancestor(w, x, k) == nth_ancestor(v, x, k),
    decreases k,
{
    if k > 0 {
        lemma_nth_avoiding(v, w, x, (k - 1) as nat, c, p);
        assert(nth_ancestor(w, x, (k - 1) as nat) != Some(c));
    }
}

proof fn lemma_first_hit(v: TreeView, x: ObjectId, c: ObjectId, m: nat) -> (j: nat)
    requires
        nth_ancestor(v, x, m) == Some(c),
    ensures
        j <= m,
        nth_ancestor(v, x, j) == Some(c),
        forall|i: nat| i < j ==> #[trigger] nth_ancestor(v, x, i) != Some(c),
    decreases m,
{
    if exists|i: nat| i < m && #[trigger] nth_ancestor(v, x, i) == Some(c) {
        let i = choose|i: nat| i < m && #[trigger] nth_ancestor(v, x, i) == Some(c);
        lemma_first_hit(v, x, c, i)
    } else {
        m
    }
}

/// In an acyclic well-formed tree, an ancestor lies within as many links as
/// there are nodes.
proof fn lemma_ancestor_within(v: TreeView, p: ObjectId, c: ObjectId, j: nat)
    requires
        tree_wf(v),
        acyclic(v),
        v.nodes.dom().finite(),
        v.nodes.contains_key(p),
        nth_ancestor(v, p, j) == Some(c),
    ensures
        would_cycle(v, c, p),
{
    let s = Seq::new(j + 1, |i: int| nth_ancestor(v, p, i as nat)->0);
    assert forall|i: int| 0 <= i <= j implies #[trigger] nth_ancestor(v, p, i as nat) is Some && v.nodes.contains_key(nth_ancestor(v, p, i as nat)->0) by {
        if nth_ancestor(v, p, i as nat) is None {
            lemma_no_ancestor_beyond(v, p, i as nat, j);
        }
        lemma_ancestor_is_node(v, p, i as nat);
    }
    assert forall|a: int, b: int| 0 <= a < s.len() && 0 <= b < s.len() && a != b implies s[a] != s[b] by {
        if s[a] == s[b] {
            let (lo, hi) = if a < b { (a, b) } else { (b, a) };
            let y = s[lo];
            lemma_nth_compose(v, p, lo as nat, (hi - lo) as nat);
            assert(nth_ancestor(v, p, hi as nat) == nth_ancestor(v, y, (hi - lo) as nat));
            assert(nth_ancestor(v, y, (hi - lo) as nat) == Some(y));
        }
    }
    assert(s.no_duplicates());
    lemma_distinct_bound(s, v.nodes.dom());
}

proof fn lemma_ancestor_is_node(v: TreeView, p: ObjectId, k: nat)
    requires
        tree_wf(v),
        v.nodes.contains_key(p),
    ensures
        nth_ancestor(v, p, k) matches Some(y) ==> v.nodes.contains_key(y),
    decreases k,
{
    if k > 0 {
        lemma_ancestor_is_node(v, p, (k - 1) as nat);
    }
}

/// Linking `c` under `p` keeps an acyclic tree acyclic when `c` is not among
/// the first ancestors of `p`.
proof fn lemma_acyclic_attach(v: TreeView, w: TreeView, c: ObjectId, p: ObjectId)
    requires
        tree_wf(v),
        acyclic(v),
        v.nodes.dom().finite(),
        v.nodes.contains_key(p),
        !would_cycle(v, c, p),
        w.parent == v.parent.insert(c, p),
    ensures
        acyclic(w),
{
    assert forall|x: ObjectId, k: nat| k >= 1 implies #[trigger] nth_ancestor(w, x, k) != Some(x) by {
        if nth_ancestor(w, x, k) == Some(x) {
            if forall|i: nat| i < k ==> #[trigger] nth_ancestor(w, x, i) != Some(c) {
                lemma_nth_avoiding(v, w, x, k, c, p);
            } else {
                let i = choose|i: nat| i < k && #[trigger] nth_ancestor(w, x, i) == Some(c);
                lemma_nth_compose(w, x, i, k);
                lemma_nth_compose(w, x, k, i);
                assert(i + k == k + i);
                assert(nth_ancestor(w, c, k) == Some(c));
                lemma_nth_compose(w, c, 1, (k - 1) as nat);
                assert(nth_ancestor(w, c, 0) == Some(c));
                assert(nth_ancestor(w, c, 1) == Some(p));
                assert(1 + (k - 1) as nat == k);
                assert(nth_ancestor(w, p, (k - 1) as nat) == Some(c));
                let j = lemma_first_hit(w, p, c, (k - 1) as nat);
                lemma_nth_avoiding(v, w, p, j, c, p);
                lemma_ancestor_within(v, p, c, j);
            }
        }
    }
}

/// Detaching `c` from `v` and linking it under `p` keeps the tree acyclic
/// when `c` is not among the first ancestors of `p` in `v`.
proof fn lemma_reparent_acyclic(v: TreeView, e: TreeView, w: TreeView, c: ObjectId, p: ObjectId)
    requires
        tree_wf(v),
        acyclic(v),
        tree_wf(e),
        v.nodes.dom().finite(),
        e.nodes.dom() == v.nodes.dom(),
        e.parent == detached(v, c).parent,
        v.nodes.contains_key(p),
        !would_cycle(v, c, p),
        w.parent == e.parent.insert(c, p),
    ensures
        acyclic(w),
{
    lemma_acyclic_sub(v, e);
    assert(e.nodes.len() == v.nodes.len());
    assert forall|k: nat| k <= e.nodes.len() implies #[trigger] nth_ancestor(e, p, k) != Some(c) by {
        lemma_nth_sub(v, e, p, k);
    }
    lemma_acyclic_attach(e, w, c, p);
}

impl View for DocumentTree {
    type V = TreeView;

    closed spec fn view(&self) -> TreeView {
        TreeView {
            nodes: Map::new(
                |id: ObjectId| self.nodes@.contains_key(id.key()),
                |id: ObjectId| self.nodes@[id.key()]@,
            ),
            root: self.root_id,
            children: Map::new(
                |id: ObjectId| self.children_map@.contains_key(id.key()),
                |id: ObjectId| self.children_map@[id.key()]@,
            ),
            parent: Map::new(
                |id: ObjectId| self.parent_map@.contains_key(id.key()),
                |id: ObjectId| self.parent_map@[id.key()],
            ),
        }
    }
}

/// Every child list of a well-formed tree is in order-key order. Each
/// operation that changes a tree keeps it well formed, so this holds after
/// any sequence of them.
pub proof fn lemma_children_sorted(t: &DocumentTree, p: ObjectId)
    requires
        t.wf(),
    ensures
        sorted_by_key(t@, children_of(t@, p)),
{
    reveal(DocumentTree::wf);
}

/// No node of a well-formed tree is its own ancestor; each operation keeps
/// this.
pub proof fn lemma_tree_acyclic(t: &DocumentTree, x: ObjectId, k: nat)
    requires
        t.wf(),
        k >= 1,
    ensures
        nth_ancestor(t@, x, k) != Some(x),
{
    reveal(DocumentTree::wf);
}

/// `set_parent` and the moves refuse exactly the links that would close a
/// cycle: `c` above `p` at any depth is found by the bounded walk.
pub proof fn lemma_cycle_check_complete(t: &DocumentTree, c: ObjectId, p: ObjectId, k: nat)
    requires
        t.wf(),
        t@.nodes.contains_key(p),
        nth_ancestor(t@, p, k) == Some(c),
    ensures
        would_cycle(t@, c, p),
{
    reveal(DocumentTree::wf);
    t.lemma_len();
    lemma_ancestor_within(t@, p, c, k);
}

/// After `remove(id)`, no id of the removed subtree is stored, has a parent
/// or children, stands in any child list, or is anyone's parent.
pub proof fn lemma_remove_leaves_no_trace(
    before: TreeView,
    after: TreeView,
    id: ObjectId,
    x: ObjectId,
)
    requires
        tree_wf(before),
        tree_wf(after),
        removed(before, after, id),
        descends(before, id, x),
    ensures
        !after.nodes.contains_key(x),
        !after.parent.contains_key(x),
        !after.children.contains_key(x),
        forall|p: ObjectId| after.children.contains_key(p) ==> !(#[trigger] after.children[p]).contains(x),
        forall|c: ObjectId| after.parent.contains_key(c) ==> #[trigger] after.parent[c] != x,
{
    lemma_descends_detached(before, id, x);
    assert(subtree(detached(before, id), id).contains(x));
    assert forall|p: ObjectId| after.children.contains_key(p) implies !(#[trigger] after.children[p]).contains(x) by {
        if after.children[p].contains(x) {
            let j = choose|j: int| 0 <= j < after.children[p].len() && after.children[p][j] == x;
            assert(after.parent.contains_key(after.children[p][j]));
        }
    }
}

proof fn lemma_no_ancestor_is(v: TreeView, p: ObjectId, r: ObjectId, k: nat)
    requires
        p != r,
        forall|c: ObjectId| #[trigger] v.parent.contains_key(c) ==> v.parent[c] != r,
    ensures
        nth_ancestor(v, p, k) != Some(r),
    decreases k,
{
    if k > 0 {
        lemma_no_ancestor_is(v, p, r, (k - 1) as nat);
    }
}

/// A stored node other than the root that has no children can be put under
/// any other stored node.
pub proof fn lemma_fresh_can_parent(v: TreeView, r: ObjectId, p: ObjectId)
    requires
        tree_wf(v),
        v.nodes.contains_key(r),
        v.nodes.contains_key(p),
        r != p,
        r != v.root,
        !v.children.contains_key(r),
    ensures
        can_parent(v, r, p),
{
    assert forall|c: ObjectId| #[trigger] v.parent.contains_key(c) implies v.parent[c] != r by {}
    assert forall|k: nat| k <= v.nodes.len() implies #[trigger] nth_ancestor(v, p, k) != Some(r) by {
        lemma_no_ancestor_is(v, p, r, k);
    }
}

impl DocumentTree {
    /// The tree's invariants (`tree_wf`), no cycles, and a root without parent.
    pub closed spec fn wf(&self) -> bool {
        tree_wf(self@) && acyclic(self@) && !self@.parent.contains_key(self@.root)
    }

    pub proof fn lemma_wf(&self)
        requires
            self.wf(),
        ensures
            tree_wf(self@),
            acyclic(self@),
            !self@.parent.contains_key(self@.root),
    {
    }

    /// The view's node map has as many entries as the stored one, and is finite.
    proof fn lemma_len(&self)
        ensures
            self@.nodes.dom().finite(),
            self@.nodes.len() == self.nodes@.len(),
            self.nodes@.len() == 0 ==> self.nodes@.dom() == Set::<u64>::empty(),
    {
        let f = |k: u64| id_of_key(k);
        assert forall|a: u64, b: u64| #[trigger] f(a) == #[trigger] f(b) implies a == b by {
            lemma_key_bijective(a, f(a));
            lemma_key_bijective(b, f(b));
        }
        assert(injective_on(f, self.nodes@.dom()));
        assert(self.nodes@.dom().map(f) =~= self@.nodes.dom()) by {
            assert forall|id: ObjectId| self@.nodes.dom().contains(id) implies self.nodes@.dom().map(
                f,
            ).contains(id) by {
                lemma_key_bijective(id.key(), id);
            }
            assert forall|id: ObjectId| self.nodes@.dom().map(f).contains(id) implies self@.nodes.dom().contains(
                id,
            ) by {
                let k = choose|k: u64| self.nodes@.dom().contains(k) && id == f(k);
                lemma_key_bijective(k, id);
            }
        }
        lemma_map_size(self.nodes@.dom(), self@.nodes.dom(), f);
        if self.nodes@.len() == 0 {
            assert(self.nodes@.dom() =~= Set::<u64>::empty());
        }
    }

    fn detach(&mut self, c: ObjectId)
        requires
            tree_wf(old(self)@),
        ensures
            tree_wf(final(self)@),
            final(self)@ == detached(old(self)@, c),
            !final(self)@.parent.contains_key(c),
    {
        let ghost v = self@;
        proof {
            lemma_detached_wf(v, c);
        }
        let ck = c.map_key();
        match self.parent_map.remove(&ck) {
            None => {
                assert(self@.parent =~= v.parent);
                assert(self@.children =~= v.children);
                assert(self@.nodes =~= v.nodes);
            },
            Some(p) => {
                assert(v.parent.contains_key(c));
                assert(v.parent[c] == p);
                assert(v.children.contains_key(p));
                let pk = p.map_key();
                let ghost old_list = v.children[p];
                match self.children_map.remove(&pk) {
                    None => {
                        assert(false);
                    },
                    Some(mut list) => {
                        assert(list@ == old_list);
                        let mut i: usize = 0;
                        while i < list.len() && list[i] != c
                            invariant
                                i <= list@.len(),
                                forall|j: int| 0 <= j < i ==> list@[j] != c,
                            decreases list@.len() - i,
                        {
                            i = i + 1;
                        }
                        proof {
                            old_list.index_of_first_ensures(c);
                        }
                        if i < list.len() {
                            list.remove(i);
                        } else {
                            assert(false);
                        }
                        assert(list@ == old_list.remove_value(c));
                        self.children_map.insert(pk, list);
                    },
                }
                let ghost w = detached(v, c);
                assert(self@.parent =~= w.parent);
                assert(self@.children =~= w.children);
                assert(self@.nodes =~= w.nodes);
            },
        }
    }

    /// The order key of a stored node.
    fn key_of(&self, c: ObjectId) -> (r: &str)
        requires
            self@.nodes.contains_key(c),
        ensures
            r@ == okey(self@, c),
    {
        match self.nodes.get(&c.map_key()) {
            Some(n) => n.order_index(),
            None => {
                assert(false);
                ""
            },
        }
    }

    #[verifier::rlimit(40)]
    fn attach(&mut self, c: ObjectId, p: ObjectId)
        requires
            tree_wf(old(self)@),
            old(self)@.nodes.contains_key(c),
            old(self)@.nodes.contains_key(p),
            !old(self)@.parent.contains_key(c),
        ensures
            tree_wf(final(self)@),
            final(self)@.nodes == old(self)@.nodes,
            final(self)@.root == old(self)@.root,
            final(self)@.parent == old(self)@.parent.insert(c, p),
            final(self)@.children == old(self)@.children.insert(p, final(self)@.children[p]),
            placed_by_key(final(self)@, children_of(old(self)@, p), final(self)@.children[p], c),
    {
        let ghost v = self@;
        let pk = p.map_key();
        let mut list = match self.children_map.remove(&pk) {
            Some(l) => l,
            None => Vec::new(),
        };
        let ghost old_list = children_of(v, p);
        assert(list@ == old_list);
        proof {
            assert(!old_list.contains(c)) by {
                if old_list.contains(c) {
                    let j = choose|j: int| 0 <= j < old_list.len() && old_list[j] == c;
                    assert(v.parent.contains_key(v.children[p][j]));
                }
            }
        }
        let ckey = self.key_of(c);
        let mut k: usize = 0;
        while k < list.len() && !key_less(ckey, self.key_of(list[k]))
            invariant
                k <= list@.len(),
                list@ == old_list,
                ckey@ == okey(v, c),
                self@.nodes == v.nodes,
                forall|j: int| 0 <= j < list@.len() ==> v.nodes.contains_key(#[trigger] list@[j]),
                forall|j: int| 0 <= j < k ==> key_le(okey(v, #[trigger] list@[j]), okey(v, c)),
            decreases list@.len() - k,
        {
            proof {
                lemma_key_lt_total(okey(v, list@[k as int]), okey(v, c));
            }
            k = k + 1;
        }
        proof {
            if k < list@.len() {
                assert forall|j: int| k <= j < old_list.len() implies key_lt(okey(v, c), okey(v, #[trigger] old_list[j])) by {
                    if j > k {
                        lemma_key_lt_le_transitive(okey(v, c), okey(v, old_list[k as int]), okey(v, old_list[j]));
                    }
                }
            }
        }
        list.insert(k, c);
        let ghost nl = list@;
        self.children_map.insert(pk, list);
        self.parent_map.insert(c.map_key(), p);
        let ghost w = self@;
        assert(w.parent =~= v.parent.insert(c, p));
        assert(w.children =~= v.children.insert(p, nl));
        assert(w.nodes =~= v.nodes);
        proof {
            assert(placed_by_key(w, old_list, nl, c)) by {
                assert(nl == old_list.insert(k as int, c));
            }
            assert forall|a: int, b: int| 0 <= a < b < nl.len() implies key_le(okey(w, #[trigger] nl[a]), okey(w, #[trigger] nl[b])) by {
                if a < k && b < k {
                } else if a < k && b == k {
                } else if a < k && b > k {
                    assert(nl[b] == old_list[b - 1]);
                    lemma_key_le_lt_transitive(okey(v, nl[a]), okey(v, c), okey(v, nl[b]));
                } else if a == k {
                    assert(nl[b] == old_list[b - 1]);
                } else {
                    assert(nl[a] == old_list[a - 1] && nl[b] == old_list[b - 1]);
                }
            }
            assert(nl.no_duplicates()) by {
                assert forall|a: int, b: int| 0 <= a < nl.len() && 0 <= b < nl.len() && a != b implies nl[a] != nl[b] by {
                    if a != k && b != k {
                        let a2 = if a < k { a } else { a - 1 };
                        let b2 = if b < k { b } else { b - 1 };
                        assert(nl[a] == old_list[a2] && nl[b] == old_list[b2]);
                    } else if a == k {
                        let b2 = if b < k { b } else { b - 1 };
                        assert(nl[b] == old_list[b2]);
                    } else {
                        let a2 = if a < k { a } else { a - 1 };
                        assert(nl[a] == old_list[a2]);
                    }
                }
            }
            assert forall|q: ObjectId, j: int| w.children.contains_key(q) && 0 <= j < w.children[q].len() implies {
                &&& w.parent.contains_key(#[trigger] w.children[q][j])
                &&& w.parent[w.children[q][j]] == q
            } by {
                if q == p {
                    if j < k {
                        assert(nl[j] == old_list[j]);
                    } else if j > k {
                        assert(nl[j] == old_list[j - 1]);
                    }
                } else {
                    assert(v.children[q][j] != c);
                }
            }
            assert forall|x: ObjectId| #[trigger] w.parent.contains_key(x) implies {
                &&& w.nodes.contains_key(x)
                &&& w.children.contains_key(w.parent[x])
                &&& w.children[w.parent[x]].contains(x)
            } by {
                if x == c {
                    assert(nl[k as int] == c);
                } else if v.parent[x] == p {
                    let j = choose|j: int| 0 <= j < old_list.len() && old_list[j] == x;
                    if j < k {
                        assert(nl[j] == x);
                    } else {
                        assert(nl[j + 1] == x);
                    }
                }
            }
        }
    }

    fn would_cycle(&self, c: ObjectId, p: ObjectId) -> (r: bool)
        requires
            tree_wf(self@),
        ensures
            r == would_cycle(self@, c, p),
    {
        proof {
            self.lemma_len();
        }
        let n = self.nodes.len();
        let mut cur = p;
        let mut steps: usize = 0;
        loop
            invariant
                n == self@.nodes.len(),
                steps <= n,
                nth_ancestor(self@, p, steps as nat) == Some(cur),
                forall|k: nat| k < steps ==> #[trigger] nth_ancestor(self@, p, k) != Some(c),
            decreases n - steps,
        {
            if cur == c {
                return true;
            }
            if steps == n {
                proof {
                    assert forall|k: nat| k <= self@.nodes.len() implies #[trigger] nth_ancestor(self@, p, k) != Some(c) by {
                        if k == steps {
                        }
                    }
                }
                return false;
            }
            match self.parent_map.get(&cur.map_key()) {
                Some(q) => {
                    cur = *q;
                    steps = steps + 1;
                },
                None => {
                    proof {
                        assert(nth_ancestor(self@, p, (steps + 1) as nat) is None);
                        assert forall|k: nat| k <= self@.nodes.len() implies #[trigger] nth_ancestor(self@, p, k) != Some(c) by {
                            if k > steps {
                                lemma_no_ancestor_beyond(self@, p, (steps + 1) as nat, k);
                            }
                        }
                    }
                    return false;
                },
            }
        }
    }

    /// Stores `node`, whose id has no parent, in place of any node of that id.
    fn replace_detached(&mut self, node: Node)
        requires
            tree_wf(old(self)@),
            !old(self)@.parent.contains_key(node@.id),
        ensures
            tree_wf(final(self)@),
            final(self)@ == (TreeView { nodes: old(self)@.nodes.insert(node@.id, node@), ..old(self)@ }),
    {
        let ghost v = self@;
        let ghost c = node@.id;
        self.nodes.insert(node.id().map_key(), node);
        let ghost w = self@;
        assert(w.nodes =~= v.nodes.insert(c, node@));
        assert(w.parent =~= v.parent);
        assert(w.children =~= v.children);
        proof {
            assert forall|p: ObjectId| #[trigger] w.children.contains_key(p) implies sorted_by_key(w, w.children[p]) by {
                assert forall|a: int, b: int| 0 <= a < b < w.children[p].len() implies key_le(okey(w, #[trigger] w.children[p][a]), okey(w, #[trigger] w.children[p][b])) by {
                    assert(v.parent.contains_key(v.children[p][a]));
                    assert(v.parent.contains_key(v.children[p][b]));
                    assert(sorted_by_key(v, v.children[p]));
                }
            }
        }
    }

    /// Makes `child_id` the last child of `parent_id` among those with keys at
    /// most its own. Nothing changes when either node is absent, when
    /// `child_id` is the root, or when the move would close a cycle
    /// (`child_id` is `parent_id` or above it).
    pub fn set_parent(&mut self, child_id: ObjectId, parent_id: ObjectId)
        requires
            old(self).wf(),
        ensures
            final(self).wf(),
            can_parent(old(self)@, child_id, parent_id) ==> reparented(old(self)@, final(self)@, child_id, parent_id),
            !can_parent(old(self)@, child_id, parent_id) ==> final(self)@ == old(self)@,
    {
        if !self.contains(child_id) || !self.contains(parent_id) || child_id == self.root_id
            || self.would_cycle(child_id, parent_id) {
            return;
        }
        let ghost v = self@;
        proof {
            self.lemma_len();
        }
        self.detach(child_id);
        let ghost d = self@;
        self.attach(child_id, parent_id);
        proof {
            assert(self@.parent =~= v.parent.insert(child_id, parent_id));
            lemma_reparent_acyclic(v, d, self@, child_id, parent_id);
        }
    }

    /// Gives the detached node `c` a new order key.
    fn rekey_detached(&mut self, c: ObjectId, key: String)
        requires
            tree_wf(old(self)@),
            old(self)@.nodes.contains_key(c),
            !old(self)@.parent.contains_key(c),
        ensures
            tree_wf(final(self)@),
            final(self)@ == (TreeView {
                nodes: old(self)@.nodes.insert(c, NodeView { order_key: key@, ..old(self)@.nodes[c] }),
                ..old(self)@
            }),
    {
        let ghost v = self@;
        let ck = c.map_key();
        match self.nodes.remove(&ck) {
            Some(mut n) => {
                n.set_order_index(key);
                self.nodes.insert(ck, n);
            },
            None => {
                assert(false);
            },
        }
        let ghost w = self@;
        assert(w.nodes =~= v.nodes.insert(c, NodeView { order_key: key@, ..v.nodes[c] }));
        assert(w.parent =~= v.parent);
        assert(w.children =~= v.children);
        proof {
            assert forall|p: ObjectId| #[trigger] w.children.contains_key(p) implies sorted_by_key(w, w.children[p]) by {
                assert forall|a: int, b: int| 0 <= a < b < w.children[p].len() implies key_le(okey(w, #[trigger] w.children[p][a]), okey(w, #[trigger] w.children[p][b])) by {
                    assert(v.parent.contains_key(v.children[p][a]));
                    assert(v.parent.contains_key(v.children[p][b]));
                    assert(sorted_by_key(v, v.children[p]));
                }
            }
        }
    }

    /// Stores `node`. The first node stored in an empty tree becomes its root.
    /// A node already stored under the same id is replaced, and keeps its
    /// parent, at the place in the child list that its new key gives it.
    pub fn insert(&mut self, node: Node)
        requires
            old(self).wf(),
        ensures
            final(self).wf(),
            inserted(old(self)@, final(self)@, node@),
    {
        let ghost v = self@;
        let id = node.id();
        if self.is_empty() {
            self.root_id = id;
        }
        match self.parent(id) {
            Some(p) => {
                self.detach(id);
                self.replace_detached(node);
                self.attach(id, p);
                assert(self@.parent =~= v.parent);
            },
            None => {
                self.replace_detached(node);
            },
        }
        proof {
            assert(self@.parent =~= v.parent);
            lemma_acyclic_sub(v, self@);
        }
    }

    /// Sets a property of node `id`; nothing changes when it is absent.
    pub fn set_property(&mut self, id: ObjectId, property: Property, value: PropertyValue)
        requires
            old(self).wf(),
        ensures
            final(self).wf(),
            old(self)@.nodes.contains_key(id) ==> final(self)@ == (TreeView {
                nodes: old(self)@.nodes.insert(id, NodeView {
                    properties: old(self)@.nodes[id].properties.insert(property, value@),
                    ..old(self)@.nodes[id]
                }),
                ..old(self)@
            }),
            !old(self)@.nodes.contains_key(id) ==> final(self)@ == old(self)@,
    {
        let ghost v = self@;
        let k = id.map_key();
        match self.nodes.remove(&k) {
            Some(mut n) => {
                n.set_property(property, value);
                self.nodes.insert(k, n);
                let ghost w = self@;
                assert(w.nodes =~= v.nodes.insert(id, NodeView {
                    properties: v.nodes[id].properties.insert(property, value@),
                    ..v.nodes[id]
                }));
                assert(w.parent =~= v.parent);
                assert(w.children =~= v.children);
                assert(forall|x: ObjectId| #[trigger] w.nodes.contains_key(x) ==> okey(w, x) == okey(v, x));
            },
            None => {
                assert(self@.parent =~= v.parent);
                assert(self@.children =~= v.children);
                assert(self@.nodes =~= v.nodes);
            },
        }
        proof {
            assert(self@.parent =~= v.parent);
            lemma_acyclic_sub(v, self@);
        }
    }

    /// Gives node `id` a new order key and moves it to the place that key
    /// gives it among its siblings; nothing changes when it is absent.
    pub fn set_order_index(&mut self, id: ObjectId, index: String)
        requires
            old(self).wf(),
        ensures
            final(self).wf(),
            !old(self)@.nodes.contains_key(id) ==> final(self)@ == old(self)@,
            old(self)@.nodes.contains_key(id) ==> {
                &&& final(self)@.nodes == old(self)@.nodes.insert(id, NodeView { order_key: index@, ..old(self)@.nodes[id] })
                &&& final(self)@.root == old(self)@.root
                &&& final(self)@.parent == old(self)@.parent
            },
            old(self)@.nodes.contains_key(id) && !old(self)@.parent.contains_key(id) ==> final(self)@.children == old(self)@.children,
            old(self)@.nodes.contains_key(id) && old(self)@.parent.contains_key(id) ==> {
                let p = old(self)@.parent[id];
                &&& final(self)@.children == detached(old(self)@, id).children.insert(p, final(self)@.children[p])
                &&& placed_by_key(final(self)@, children_of(detached(old(self)@, id), p), final(self)@.children[p], id)
            },
    {
        let ghost v = self@;
        if !self.contains(id) {
            return;
        }
        match self.parent(id) {
            Some(p) => {
                self.detach(id);
                self.rekey_detached(id, index);
                self.attach(id, p);
                assert(self@.parent =~= v.parent);
            },
            None => {
                self.rekey_detached(id, index);
            },
        }
        proof {
            assert(self@.parent =~= v.parent);
            lemma_acyclic_sub(v, self@);
        }
    }

    /// Puts the detached node `c` at position `k` of `p`'s child list, where
    /// its key keeps the list in order.
    #[verifier::rlimit(40)]
    fn attach_at(&mut self, c: ObjectId, p: ObjectId, k: usize)
        requires
            tree_wf(old(self)@),
            old(self)@.nodes.contains_key(c),
            old(self)@.nodes.contains_key(p),
            !old(self)@.parent.contains_key(c),
            k <= children_of(old(self)@, p).len(),
            forall|i: int|
                0 <= i < k ==> key_le(okey(old(self)@, #[trigger] children_of(old(self)@, p)[i]), okey(old(self)@, c)),
            forall|i: int|
                k <= i < children_of(old(self)@, p).len() ==> key_le(
                    okey(old(self)@, c),
                    okey(old(self)@, #[trigger] children_of(old(self)@, p)[i]),
                ),
        ensures
            tree_wf(final(self)@),
            final(self)@.nodes == old(self)@.nodes,
            final(self)@.root == old(self)@.root,
            final(self)@.parent == old(self)@.parent.insert(c, p),
            final(self)@.children == old(self)@.children.insert(p, children_of(old(self)@, p).insert(k as int, c)),
    {
        let ghost v = self@;
        let pk = p.map_key();
        let mut list = match self.children_map.remove(&pk) {
            Some(l) => l,
            None => Vec::new(),
        };
        let ghost old_list = children_of(v, p);
        assert(list@ == old_list);
        proof {
            assert(!old_list.contains(c)) by {
                if old_list.contains(c) {
                    let j = choose|j: int| 0 <= j < old_list.len() && old_list[j] == c;
                    assert(v.parent.contains_key(v.children[p][j]));
                }
            }
        }
        list.insert(k, c);
        let ghost nl = list@;
        self.children_map.insert(pk, list);
        self.parent_map.insert(c.map_key(), p);
        let ghost w = self@;
        assert(w.parent =~= v.parent.insert(c, p));
        assert(w.children =~= v.children.insert(p, nl));
        assert(w.nodes =~= v.nodes);
        proof {
            assert(nl == old_list.insert(k as int, c));
            assert forall|a: int, b: int| 0 <= a < b < nl.len() implies key_le(okey(w, #[trigger] nl[a]), okey(w, #[trigger] nl[b])) by {
                if a < k && b < k {
                    assert(sorted_by_key(v, v.children[p]));
                } else if a < k && b == k {
                } else if a < k && b > k {
                    assert(nl[b] == old_list[b - 1]);
                    lemma_key_le_transitive(okey(v, nl[a]), okey(v, c), okey(v, nl[b]));
                } else if a == k {
                    assert(nl[b] == old_list[b - 1]);
                } else {
                    assert(nl[a] == old_list[a - 1] && nl[b] == old_list[b - 1]);
                    assert(sorted_by_key(v, v.children[p]));
                }
            }
            assert(nl.no_duplicates()) by {
                assert forall|a: int, b: int| 0 <= a < nl.len() && 0 <= b < nl.len() && a != b implies nl[a] != nl[b] by {
                    if a != k && b != k {
                        let a2 = if a < k { a } else { a - 1 };
                        let b2 = if b < k { b } else { b - 1 };
                        assert(nl[a] == old_list[a2] && nl[b] == old_list[b2]);
                    } else if a == k {
                        let b2 = if b < k { b } else { b - 1 };
                        assert(nl[b] == old_list[b2]);
                    } else {
                        let a2 = if a < k { a } else { a - 1 };
                        assert(nl[a] == old_list[a2]);
                    }
                }
            }
            assert forall|q: ObjectId, j: int| w.children.contains_key(q) && 0 <= j < w.children[q].len() implies {
                &&& w.parent.contains_key(#[trigger] w.children[q][j])
                &&& w.parent[w.children[q][j]] == q
            } by {
                if q == p {
                    if j < k {
                        assert(nl[j] == old_list[j]);
                    } else if j > k {
                        assert(nl[j] == old_list[j - 1]);
                    }
                } else {
                    assert(v.children[q][j] != c);
                }
            }
            assert forall|x: ObjectId| #[trigger] w.parent.contains_key(x) implies {
                &&& w.nodes.contains_key(x)
                &&& w.children.contains_key(w.parent[x])
                &&& w.children[w.parent[x]].contains(x)
            } by {
                if x == c {
                    assert(nl[k as int] == c);
                } else if v.parent[x] == p {
                    let j = choose|j: int| 0 <= j < old_list.len() && old_list[j] == x;
                    if j < k {
                        assert(nl[j] == x);
                    } else {
                        assert(nl[j + 1] == x);
                    }
                }
            }
        }
    }

    /// Moves `node_id` next to `anchor_id`, before it or after it: the node
    /// gets the key `before_key` (or `after_key`) gives and stands right at
    /// the anchor's side.
    fn move_beside(&mut self, node_id: ObjectId, anchor_id: ObjectId, after: bool)
        requires
            old(self).wf(),
        ensures
            final(self).wf(),
            !can_move(old(self)@, node_id, anchor_id) ==> final(self)@ == old(self)@,
            can_move(old(self)@, node_id, anchor_id) && !after ==> moved_with_key(
                old(self)@,
                final(self)@,
                node_id,
                anchor_id,
                before_key(old(self)@, node_id, anchor_id),
                move_anchor_index(old(self)@, node_id, anchor_id),
            ),
            can_move(old(self)@, node_id, anchor_id) && after ==> moved_with_key(
                old(self)@,
                final(self)@,
                node_id,
                anchor_id,
                after_key(old(self)@, node_id, anchor_id),
                move_anchor_index(old(self)@, node_id, anchor_id) + 1,
            ),
    {
        let ghost v = self@;
        let p = match self.parent(anchor_id) {
            Some(p) => p,
            None => {
                return;
            },
        };
        if node_id == anchor_id || !self.contains(node_id) || node_id == self.root_id
            || self.would_cycle(node_id, p) {
            return;
        }
        proof {
            self.lemma_len();
        }
        self.detach(node_id);
        let ghost d = self@;
        let ghost l = move_list(v, node_id, anchor_id);
        assert(d.parent[anchor_id] == p);
        assert(d.children.contains_key(p));
        assert(l == d.children[p]);
        assert(sorted_by_key(d, l));
        let ghost ai = move_anchor_index(v, node_id, anchor_id);
        let (new_key, pos) = match self.children_map.get(&p.map_key()) {
            Some(list) => {
                assert(list@ == l);
                let mut i: usize = 0;
                while i < list.len() && list[i] != anchor_id
                    invariant
                        i <= list@.len(),
                        list@ == l,
                        forall|j: int| 0 <= j < i ==> l[j] != anchor_id,
                    decreases list@.len() - i,
                {
                    i = i + 1;
                }
                proof {
                    assert(l.contains(anchor_id));
                    let j = l.index_of(anchor_id);
                    assert(l[j] == anchor_id);
                    assert(i < l.len());
                    assert(j == i);
                    reveal_strlit("0");
                    reveal_strlit("1");
                }
                let anchor_key = self.key_of(anchor_id);
                assert(anchor_key@ == okey(v, anchor_id));
                if !after {
                    let lo = if i > 0 {
                        self.key_of(list[i - 1])
                    } else {
                        "0"
                    };
                    assert(lo@ == key_before(v, node_id, anchor_id));
                    let k = if keys_leave_room(lo, anchor_key) {
                        fractional_midpoint(lo, anchor_key)
                    } else {
                        String::from_str(anchor_key)
                    };
                    (k, i)
                } else {
                    let hi = if i + 1 < list.len() {
                        self.key_of(list[i + 1])
                    } else {
                        "1"
                    };
                    assert(hi@ == key_after(v, node_id, anchor_id));
                    let k = if keys_leave_room(anchor_key, hi) {
                        fractional_midpoint(anchor_key, hi)
                    } else {
                        String::from_str(anchor_key)
                    };
                    (k, i + 1)
                }
            },
            None => {
                assert(false);
                (String::new(), 0)
            },
        };
        let ghost m = new_key@;
        self.rekey_detached(node_id, new_key);
        let ghost e = self@;
        proof {
            assert(children_of(e, p) == l);
            assert(!l.contains(node_id)) by {
                if l.contains(node_id) {
                    let j = choose|j: int| 0 <= j < l.len() && l[j] == node_id;
                    assert(d.parent.contains_key(d.children[p][j]));
                }
            }
            assert(l[ai] == anchor_id);
            assert(okey(e, node_id) == m);
            if !after {
                let lo = key_before(v, node_id, anchor_id);
                let hi = okey(v, anchor_id);
                assert(m == before_key(v, node_id, anchor_id));
                if room_between(lo, hi) {
                    lemma_midpoint_between(lo, hi);
                }
                assert forall|i: int| 0 <= i < pos implies key_le(okey(e, #[trigger] l[i]), okey(e, node_id)) by {
                    assert(l[i] != node_id);
                    if i < ai - 1 {
                        assert(key_le(okey(d, l[i]), okey(d, l[ai - 1])));
                    }
                    assert(key_le(okey(d, l[ai - 1]), okey(d, l[ai])));
                    lemma_key_le_transitive(okey(v, l[i]), lo, hi);
                    if room_between(lo, hi) {
                        lemma_key_le_lt_transitive(okey(v, l[i]), lo, m);
                    }
                }
                assert forall|i: int| pos <= i < l.len() implies key_le(okey(e, node_id), okey(e, #[trigger] l[i])) by {
                    assert(l[i] != node_id);
                    if i > ai {
                        assert(key_le(okey(d, l[ai]), okey(d, l[i])));
                    }
                    if room_between(lo, hi) {
                        lemma_key_lt_le_transitive(m, hi, okey(v, l[i]));
                    }
                }
            } else {
                let lo = okey(v, anchor_id);
                let hi = key_after(v, node_id, anchor_id);
                assert(m == after_key(v, node_id, anchor_id));
                if room_between(lo, hi) {
                    lemma_midpoint_between(lo, hi);
                }
                assert forall|i: int| 0 <= i < pos implies key_le(okey(e, #[trigger] l[i]), okey(e, node_id)) by {
                    assert(l[i] != node_id);
                    if i < ai {
                        assert(key_le(okey(d, l[i]), okey(d, l[ai])));
                    }
                    if room_between(lo, hi) {
                        lemma_key_le_lt_transitive(okey(v, l[i]), lo, m);
                    }
                }
                assert forall|i: int| pos <= i < l.len() implies key_le(okey(e, node_id), okey(e, #[trigger] l[i])) by {
                    assert(l[i] != node_id);
                    if i > ai + 1 {
                        assert(key_le(okey(d, l[ai + 1]), okey(d, l[i])));
                    }
                    assert(key_le(okey(d, l[ai]), okey(d, l[ai + 1])));
                    if room_between(lo, hi) {
                        lemma_key_lt_le_transitive(m, hi, okey(v, l[i]));
                    } else {
                        lemma_key_le_transitive(lo, hi, okey(v, l[i]));
                    }
                }
            }
        }
        self.attach_at(node_id, p, pos);
        assert(self@.parent =~= v.parent.insert(node_id, p));
        proof {
            assert(e.nodes.dom() =~= v.nodes.dom());
            lemma_reparent_acyclic(v, e, self@, node_id, p);
        }
    }

    /// Moves `node_id` under `before_id`'s parent, immediately before
    /// `before_id`; no other node's key changes. Its new key is midway
    /// between `before_id`'s key and that of the sibling before it (or the
    /// lower sentinel `"0"`) when those keys leave room; otherwise (equal
    /// neighbour keys, for instance) it takes `before_id`'s key, so that the
    /// list stays in key order. Nothing changes when `before_id` has no
    /// parent, the two ids are the same, `node_id` is absent or the root, or
    /// the move would close a cycle. The keys this library makes, and the
    /// sentinel `"1"`, end in a character above `'0'`; below such an anchor
    /// key every smaller neighbour leaves room.
    pub fn move_before(&mut self, node_id: ObjectId, before_id: ObjectId)
        requires
            old(self).wf(),
        ensures
            final(self).wf(),
            !can_move(old(self)@, node_id, before_id) ==> final(self)@ == old(self)@,
            can_move(old(self)@, node_id, before_id) ==> moved_with_key(
                old(self)@,
                final(self)@,
                node_id,
                before_id,
                before_key(old(self)@, node_id, before_id),
                move_anchor_index(old(self)@, node_id, before_id),
            ),
            can_move(old(self)@, node_id, before_id) && room_between(
                key_before(old(self)@, node_id, before_id),
                okey(old(self)@, before_id),
            ) ==> key_lt(key_before(old(self)@, node_id, before_id), okey(final(self)@, node_id)) && key_lt(
                okey(final(self)@, node_id),
                okey(old(self)@, before_id),
            ),
            key_lt(key_before(old(self)@, node_id, before_id), okey(old(self)@, before_id)) && ends_above_zero(
                okey(old(self)@, before_id),
            ) ==> room_between(key_before(old(self)@, node_id, before_id), okey(old(self)@, before_id)),
    {
        let ghost v = self@;
        self.move_beside(node_id, before_id, false);
        proof {
            if key_lt(key_before(v, node_id, before_id), okey(v, before_id)) && ends_above_zero(okey(v, before_id)) {
                lemma_room_from_form(key_before(v, node_id, before_id), okey(v, before_id));
            }
            if can_move(v, node_id, before_id) && room_between(key_before(v, node_id, before_id), okey(v, before_id)) {
                lemma_midpoint_between(key_before(v, node_id, before_id), okey(v, before_id));
            }
        }
    }

    /// Moves `node_id` under `after_id`'s parent, immediately after
    /// `after_id`; no other node's key changes. Its new key is midway between
    /// `after_id`'s key and that of the sibling after it (or the upper
    /// sentinel `"1"`) when those keys leave room, and `after_id`'s key
    /// otherwise. Nothing changes in the cases where `move_before` changes
    /// nothing. When the key after the anchor ends in a character above
    /// `'0'` (as the keys this library makes and the sentinel do), any
    /// smaller anchor key leaves room.
    pub fn move_after(&mut self, node_id: ObjectId, after_id: ObjectId)
        requires
            old(self).wf(),
        ensures
            final(self).wf(),
            !can_move(old(self)@, node_id, after_id) ==> final(self)@ == old(self)@,
            can_move(old(self)@, node_id, after_id) ==> moved_with_key(
                old(self)@,
                final(self)@,
                node_id,
                after_id,
                after_key(old(self)@, node_id, after_id),
                move_anchor_index(old(self)@, node_id, after_id) + 1,
            ),
            can_move(old(self)@, node_id, after_id) && room_between(
                okey(old(self)@, after_id),
                key_after(old(self)@, node_id, after_id),
            ) ==> key_lt(okey(old(self)@, after_id), okey(final(self)@, node_id)) && key_lt(
                okey(final(self)@, node_id),
                key_after(old(self)@, node_id, after_id),
            ),
            key_lt(okey(old(self)@, after_id), key_after(old(self)@, node_id, after_id)) && ends_above_zero(
                key_after(old(self)@, node_id, after_id),
            ) ==> room_between(okey(old(self)@, after_id), key_after(old(self)@, node_id, after_id)),
    {
        let ghost v = self@;
        self.move_beside(node_id, after_id, true);
        proof {
            if key_lt(okey(v, after_id), key_after(v, node_id, after_id)) && ends_above_zero(key_after(v, node_id, after_id)) {
                lemma_room_from_form(okey(v, after_id), key_after(v, node_id, after_id));
            }
            if can_move(v, node_id, after_id) && room_between(okey(v, after_id), key_after(v, node_id, after_id)) {
                lemma_midpoint_between(okey(v, after_id), key_after(v, node_id, after_id));
            }
        }
    }

    /// Removes `id` and every node below it, and takes `id` out of its
    /// parent's child list. Nothing changes when `id` is absent.
    pub fn remove(&mut self, id: ObjectId)
        requires
            old(self).wf(),
        ensures
            final(self).wf(),
            !old(self)@.nodes.contains_key(id) ==> final(self)@ == old(self)@,
            old(self)@.nodes.contains_key(id) ==> removed(old(self)@, final(self)@, id),
    {
        if !self.contains(id) {
            return;
        }
        self.detach(id);
        let ghost d = self@;
        proof {
            self.lemma_len();
            let s = seq![id];
            assert(is_path(d, s) && s[0] == id && s.last() == id);
            assert(descends(d, id, id));
        }
        let ghost n = d.nodes.len();
        let mut order: Vec<ObjectId> = Vec::new();
        order.push(id);
        let mut seen: HashSet<u64> = HashSet::new();
        seen.insert(id.map_key());
        proof {
            assert forall|y: ObjectId| seen@.contains(y.key()) <==> order@.contains(y) by {
                if y == id {
                    assert(order@[0] == y);
                }
                if order@.contains(y) {
                    let t = choose|t: int| 0 <= t < order@.len() && order@[t] == y;
                    assert(t == 0);
                }
            }
        }
        let mut i: usize = 0;
        while i < order.len()
            invariant
                self@ == d,
                tree_wf(d),
                !d.parent.contains_key(id),
                d.nodes.contains_key(id),
                i <= order@.len() <= n,
                n == d.nodes.len(),
                d.nodes.dom().finite(),
                order@.len() >= 1,
                order@[0] == id,
                order@.no_duplicates(),
                forall|y: ObjectId| seen@.contains(y.key()) <==> order@.contains(y),
                forall|j: int|
                    0 <= j < order@.len() ==> d.nodes.contains_key(#[trigger] order@[j]) && descends(
                        d,
                        id,
                        order@[j],
                    ),
                forall|j: int, y: ObjectId|
                    0 <= j < i && #[trigger] children_of(d, order@[j]).contains(y) ==> order@.contains(y),
            decreases n - i,
        {
            let x = order[i];
            let ghost before = order@;
            match self.children_map.get(&x.map_key()) {
                Some(list) => {
                    assert(list@ == children_of(d, x));
                    let mut j: usize = 0;
                    while j < list.len()
                        invariant
                            self@ == d,
                            tree_wf(d),
                            list@ == children_of(d, x),
                            x == order@[i as int],
                            i < order@.len() <= n,
                            n == d.nodes.len(),
                            d.nodes.dom().finite(),
                            j <= list@.len(),
                            order@.len() >= before.len(),
                            forall|t: int| 0 <= t < before.len() ==> order@[t] == before[t],
                            order@.no_duplicates(),
                            forall|y: ObjectId| seen@.contains(y.key()) <==> order@.contains(y),
                            forall|t: int|
                                0 <= t < order@.len() ==> d.nodes.contains_key(#[trigger] order@[t])
                                    && descends(d, id, order@[t]),
                            forall|t: int| 0 <= t < j ==> order@.contains(#[trigger] list@[t]),
                        decreases list@.len() - j,
                    {
                        let y = list[j];
                        if !seen.contains(&y.map_key()) {
                            proof {
                                assert(children_of(d, x).contains(y));
                                assert(d.parent.contains_key(d.children[x][j as int]));
                                let s = choose|s: Seq<ObjectId>| is_path(d, s) && s[0] == id && s.last() == x;
                                lemma_path_extend(d, s, y);
                                assert(s.push(y).last() == y);
                                assert(!order@.contains(y));
                                let o2 = order@.push(y);
                                assert(o2.no_duplicates());
                                assert forall|t: int| 0 <= t < o2.len() implies d.nodes.dom().contains(#[trigger] o2[t]) by {
                                    if t < order@.len() {
                                        assert(d.nodes.contains_key(order@[t]));
                                    }
                                }
                                lemma_distinct_bound(o2, d.nodes.dom());
                            }
                            let ghost o1 = order@;
                            seen.insert(y.map_key());
                            order.push(y);
                            proof {
                                lemma_push_contains(o1, y);
                                assert forall|z: ObjectId| seen@.contains(z.key()) <==> order@.contains(z) by {
                                    lemma_key_bijective(z.key(), z);
                                    lemma_key_bijective(y.key(), y);
                                }
                            }
                        }
                        proof {
                            assert(seen@.contains(y.key()));
                            assert(order@.contains(y));
                            assert forall|t: int| 0 <= t < j + 1 implies order@.contains(#[trigger] list@[t]) by {
                                if t == j {
                                    assert(list@[t] == y);
                                }
                            }
                        }
                        j = j + 1;
                    }
                    proof {
                        assert forall|jj: int, y: ObjectId| 0 <= jj < i + 1 && #[trigger] children_of(d, order@[jj]).contains(y) implies order@.contains(y) by {
                            if jj < i {
                                assert(order@[jj] == before[jj]);
                                assert(before.contains(y));
                                let t = choose|t: int| 0 <= t < before.len() && before[t] == y;
                                assert(order@[t] == y);
                            } else {
                                let t = choose|t: int| 0 <= t < list@.len() && list@[t] == y;
                                assert(order@.contains(list@[t]));
                            }
                        }
                    }
                },
                None => {
                    assert(children_of(d, x) == Seq::<ObjectId>::empty());
                },
            }
            i = i + 1;
        }
        proof {
            assert forall|x: ObjectId| subtree(d, id).contains(x) <==> order@.contains(x) by {
                if descends(d, id, x) {
                    let s = choose|s: Seq<ObjectId>| is_path(d, s) && s[0] == id && s.last() == x;
                    assert(order@.contains(s[0])) by {
                        assert(order@[0] == id);
                    }
                    lemma_closed_path(d, order@, s);
                }
                if order@.contains(x) {
                    let t = choose|t: int| 0 <= t < order@.len() && order@[t] == x;
                    assert(descends(d, id, order@[t]));
                }
            }
        }
        let mut k: usize = 0;
        while k < order.len()
            invariant
                k <= order@.len(),
                forall|x: ObjectId| subtree(d, id).contains(x) <==> order@.contains(x),
                self@.root == d.root,
                forall|z: ObjectId|
                    #[trigger] self@.nodes.contains_key(z) <==> d.nodes.contains_key(z) && !order@.subrange(0, k as int).contains(z),
                forall|z: ObjectId| #[trigger] self@.nodes.contains_key(z) ==> self@.nodes[z] == d.nodes[z],
                forall|z: ObjectId|
                    #[trigger] self@.parent.contains_key(z) <==> d.parent.contains_key(z) && !order@.subrange(0, k as int).contains(z),
                forall|z: ObjectId| #[trigger] self@.parent.contains_key(z) ==> self@.parent[z] == d.parent[z],
                forall|z: ObjectId|
                    #[trigger] self@.children.contains_key(z) <==> d.children.contains_key(z) && !order@.subrange(0, k as int).contains(z),
                forall|z: ObjectId| #[trigger] self@.children.contains_key(z) ==> self@.children[z] == d.children[z],
            decreases order@.len() - k,
        {
            let x = order[k];
            let xk = x.map_key();
            let ghost pre = order@.subrange(0, k as int);
            let ghost prev = self@;
            self.nodes.remove(&xk);
            self.parent_map.remove(&xk);
            self.children_map.remove(&xk);
            proof {
                assert(order@.subrange(0, k + 1) == pre.push(x));
                lemma_push_contains(pre, x);
                assert(self@.nodes =~= prev.nodes.remove(x));
                assert(self@.parent =~= prev.parent.remove(x));
                assert(self@.children =~= prev.children.remove(x));
            }
            k = k + 1;
        }
        proof {
            let r = subtree(d, id);
            assert(order@.subrange(0, order@.len() as int) == order@);
            assert(self@.nodes =~= d.nodes.remove_keys(r));
            assert(self@.parent =~= d.parent.remove_keys(r));
            assert(self@.children =~= d.children.remove_keys(r));
            lemma_removed_wf(d, id, self@);
            lemma_acyclic_sub(old(self)@, self@);
        }
    }

    /// The first child of the root, conventionally the first page.
    pub fn first_page(&self) -> (r: Option<ObjectId>)
        ensures
            r == (if children_of(self@, self@.root).len() > 0 {
                Some(children_of(self@, self@.root)[0])
            } else {
                None
            }),
    {
        let kids = self.children(self.root_id);
        if kids.len() > 0 {
            Some(kids[0])
        } else {
            None
        }
    }

    /// Every stored node once, in no particular order.
    pub fn iter(&self) -> (r: Vec<&Node>)
        requires
            self.wf(),
        ensures
            r@.len() == self@.nodes.len(),
            forall|i: int|
                0 <= i < r@.len() ==> self@.nodes.contains_key(#[trigger] r@[i]@.id) && self@.nodes[r@[i]@.id] == r@[i]@,
            forall|i: int, j: int| 0 <= i < j < r@.len() ==> r@[i]@.id != r@[j]@.id,
    {
        proof {
            self.lemma_len();
        }
        let ghost m = self.nodes@;
        let ghost vals = m.values();
        proof {
            let f = |k: u64| m[k];
            assert forall|k: u64| m.contains_key(k) implies (#[trigger] m[k])@.id == id_of_key(k) by {
                lemma_key_bijective(k, id_of_key(k));
                assert(self@.nodes.contains_key(id_of_key(k)));
            }
            assert forall|a: u64, b: u64| m.dom().contains(a) && m.dom().contains(b) && #[trigger] f(a) == #[trigger] f(b) implies a == b by {
                lemma_key_bijective(a, id_of_key(a));
                lemma_key_bijective(b, id_of_key(b));
            }
            assert(injective_on(f, m.dom()));
            assert(m.dom().map(f) =~= vals);
            lemma_map_size(m.dom(), vals, f);
        }
        let mut out: Vec<&Node> = Vec::new();
        for n in it: self.nodes.values()
            invariant
                out@ == it.seq().take(it.index() as int),
                it.seq().unref().to_set() == vals,
                it.seq().len() == m.dom().len(),
                vals.len() == m.dom().len(),
                vals.finite(),
                m == self.nodes@,
                forall|k: u64| m.contains_key(k) ==> (#[trigger] m[k])@.id == id_of_key(k),
                forall|i: int| 0 <= i < out@.len() ==> vals.contains(*out@[i]),
                forall|i: int, j: int| 0 <= i < j < out@.len() ==> out@[i]@.id != out@[j]@.id,
        {
            proof {
                let u = it.seq().unref();
                let x = it.index() as int;
                assert(u[x] == *it.seq()[x]);
                assert(u.to_set().contains(u[x]));
                u.lemma_no_dup_set_cardinality();
                assert forall|i: int| 0 <= i < x implies out@[i]@.id != u[x]@.id by {
                    assert(*out@[i] == u[i]);
                    let k1 = choose|k: u64| m.contains_key(k) && m[k] == u[i];
                    let k2 = choose|k: u64| m.contains_key(k) && m[k] == u[x];
                    lemma_key_bijective(k1, id_of_key(k1));
                    lemma_key_bijective(k2, id_of_key(k2));
                }
            }
            out.push(n);
        }
        proof {
            assert forall|i: int| 0 <= i < out@.len() implies self@.nodes.contains_key(#[trigger] out@[i]@.id) && self@.nodes[out@[i]@.id] == out@[i]@ by {
                let k = choose|k: u64| self.nodes@.contains_key(k) && self.nodes@[k] == *out@[i];
                let id = id_of_key(k);
                lemma_key_bijective(k, id);
                assert(self@.nodes.contains_key(id));
            }
        }
        out
    }

    /// Rebuilds a tree from a snapshot: stores `nodes` in order (so the first
    /// becomes the root, and a later node replaces an earlier one of the same
    /// id), then replays each child list in order with `set_parent`, so that
    /// siblings with equal keys keep their places.
    pub fn rebuild(nodes: Vec<Node>, links: &Vec<(ObjectId, Vec<ObjectId>)>) -> (r: DocumentTree)
        ensures
            r.wf(),
            r@.nodes.dom() == nodes@.map_values(|n: Node| n@.id).to_set(),
            nodes@.len() > 0 ==> r@.root == nodes@[0]@.id,
    {
        let ghost ns = nodes@;
        let ghost ids = ns.map_values(|n: Node| n@.id);
        let mut tree = DocumentTree::new();
        assert(ids.take(0).to_set() =~= Set::<ObjectId>::empty());
        for n in it: nodes.into_iter()
            invariant
                tree.wf(),
                it.seq() == ns,
                ids == ns.map_values(|n: Node| n@.id),
                tree@.nodes.dom() == ids.take(it.index() as int).to_set(),
                it.index() > 0 ==> tree@.root == ns[0]@.id,
        {
            let ghost k = it.index() as int;
            let ghost before = tree@;
            proof {
                assert(n == ns[k]);
            }
            tree.insert(n);
            proof {
                assert(ids.take(k + 1) == ids.take(k).push(ids[k]));
                ids.take(k).lemma_push_to_set_commute(ids[k]);
                if k == 0 {
                    assert(before.nodes.dom() =~= Set::<ObjectId>::empty());
                    assert(before.nodes =~= Map::<ObjectId, NodeView>::empty());
                } else {
                    assert(before.nodes.dom().contains(ids[0])) by {
                        assert(ids.take(k)[0] == ids[0]);
                    }
                }
            }
        }
        assert(ids.take(ids.len() as int) == ids);
        let ghost dom = tree@.nodes.dom();
        let ghost root = tree@.root;
        let mut i: usize = 0;
        while i < links.len()
            invariant
                tree.wf(),
                tree@.nodes.dom() == dom,
                tree@.root == root,
            decreases links@.len() - i,
        {
            let parent = links[i].0;
            let kids = &links[i].1;
            let mut j: usize = 0;
            while j < kids.len()
                invariant
                    tree.wf(),
                    tree@.nodes.dom() == dom,
                    tree@.root == root,
                decreases kids@.len() - j,
            {
                tree.set_parent(kids[j], parent);
                j = j + 1;
            }
            i = i + 1;
        }
        tree
    }

    /// An empty tree whose root id is drawn at random until a first node is inserted.
    pub fn new() -> (r: DocumentTree)
        ensures
            r.wf(),
            r@.nodes == Map::<ObjectId, NodeView>::empty(),
            r@.children == Map::<ObjectId, Seq<ObjectId>>::empty(),
            r@.parent == Map::<ObjectId, ObjectId>::empty(),
    {
        let r = DocumentTree {
            nodes: HashMap::new(),
            root_id: ObjectId::random(),
            children_map: HashMap::new(),
            parent_map: HashMap::new(),
        };
        assert(r@.nodes =~= Map::<ObjectId, NodeView>::empty());
        assert(r@.children =~= Map::<ObjectId, Seq<ObjectId>>::empty());
        assert(r@.parent =~= Map::<ObjectId, ObjectId>::empty());
        assert forall|x: ObjectId, k: nat| k >= 1 implies #[trigger] nth_ancestor(r@, x, k) != Some(x) by {
            assert(nth_ancestor(r@, x, 0) == Some(x));
            assert(nth_ancestor(r@, x, 1) is None);
            lemma_no_ancestor_beyond(r@, x, 1, k);
        }
        r
    }

    pub fn root_id(&self) -> (r: ObjectId)
        ensures
            r == self@.root,
    {
        self.root_id
    }

    pub fn get(&self, id: ObjectId) -> (r: Option<&Node>)
        ensures
            r is Some <==> self@.nodes.contains_key(id),
            r is Some ==> r->0@ == self@.nodes[id],
    {
        self.nodes.get(&id.map_key())
    }

    pub fn contains(&self, id: ObjectId) -> (r: bool)
        ensures
            r == self@.nodes.contains_key(id),
    {
        self.nodes.contains_key(&id.map_key())
    }

    /// The parent of `child`, or `None` for a root or an absent id.
    pub fn parent(&self, child_id: ObjectId) -> (r: Option<ObjectId>)
        ensures
            r == (if self@.parent.contains_key(child_id) {
                Some(self@.parent[child_id])
            } else {
                None
            }),
    {
        match self.parent_map.get(&child_id.map_key()) {
            Some(p) => Some(*p),
            None => None,
        }
    }

    /// The children of `parent_id` in order, empty when it has none.
    pub fn children(&self, parent_id: ObjectId) -> (r: Vec<ObjectId>)
        ensures
            r@ == children_of(self@, parent_id),
    {
        match self.children_map.get(&parent_id.map_key()) {
            Some(list) => {
                let mut out: Vec<ObjectId> = Vec::new();
                let mut i: usize = 0;
                while i < list.len()
                    invariant
                        i <= list@.len(),
                        out@ == list@.subrange(0, i as int),
                    decreases list@.len() - i,
                {
                    out.push(list[i]);
                    i = i + 1;
                }
                assert(list@.subrange(0, list@.len() as int) == list@);
                out
            },
            None => Vec::new(),
        }
    }

    /// The number of nodes.
    pub fn len(&self) -> (r: usize)
        ensures
            r as nat == self@.nodes.len(),
    {
        proof {
            self.lemma_len();
        }
        self.nodes.len()
    }

    pub fn is_empty(&self) -> (r: bool)
        ensures
            r == (self@.nodes == Map::<ObjectId, NodeView>::empty()),
    {
        proof {
            self.lemma_len();
        }
        let r = self.nodes.is_empty();
        proof {
            if !r {
                assert(self.nodes@.dom().len() > 0);
                assert(self@.nodes.dom().len() > 0);
                assert(self@.nodes.dom() != Map::<ObjectId, NodeView>::empty().dom());
            } else {
                assert(self@.nodes =~= Map::<ObjectId, NodeView>::empty());
            }
        }
        r
    }
}

impl Default for DocumentTree {
    fn default() -> (r: DocumentTree)
        ensures
            r.wf(),
            r@.nodes == Map::<ObjectId, NodeView>::empty(),
            r@.children == Map::<ObjectId, Seq<ObjectId>>::empty(),
            r@.parent == Map::<ObjectId, ObjectId>::empty(),
    {
        DocumentTree::new()
    }
}

} // verus!
