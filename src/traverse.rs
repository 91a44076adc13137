use crate::bikey::{holds_both, holds_primary};
use crate::carriage::{registry_wf, Carriage, Registry};
use crate::conditions::{clause_admits, WhereClause};
use crate::store::{opt_view, tree_view, Skid, TreeView, UnrolledCrate};
use std::collections::BTreeSet;
use vstd::prelude::*;

verus! {

/// The ids of the crates of a registry.
pub open spec fn registry_ids(s: Registry) -> Set<u32> {
    s.map_values(|e: (Seq<char>, u32, crate::store::Crate)| e.1).to_set()
}

/// How many crates of the registry are still to be expanded.
pub open spec fn unvisited(s: Registry, visited: Set<u32>) -> nat {
    registry_ids(s).difference(visited).len()
}

/// Whether a traversal follows an edge: always without a clause, else where
/// the clause admits the edge's requirement.
pub open spec fn follows(pred: Option<WhereClause>, e: Skid) -> bool {
    match pred {
        None => true,
        Some(c) => clause_admits(c, opt_view(e.version)),
    }
}

/// The tree of a crate that is not expanded again.
pub open spec fn stub(name: Seq<char>, id: u32) -> TreeView {
    TreeView { id, name, children: Seq::empty() }
}

/// The position of crate `(name, id)` in the registry.
pub open spec fn position_of(s: Registry, name: Seq<char>, id: u32) -> int {
    choose|j: int| 0 <= j < s.len() && s[j].0 == name && s[j].1 == id
}

/// The tree of the crate at position `i`, and the crates visited afterwards,
/// when the traversal starts with the crates `visited` already seen.
pub open spec fn unroll_node(s: Registry, pred: Option<WhereClause>, visited: Set<u32>, i: int) -> (TreeView, Set<u32>)
    decreases unvisited(s, visited), 1nat, 0nat,
{
    if 0 <= i < s.len() {
        let deps = s[i].2.dependencies@;
        let (kids, vis) = unroll_edges(s, pred, visited, deps, deps.len());
        (TreeView { id: s[i].1, name: s[i].0, children: kids }, vis)
    } else {
        (stub(Seq::empty(), 0), visited)
    }
}

/// The trees of the first `k` edges `deps`, in order: an edge the clause
/// refuses is left out; a crate already visited, or missing from the registry,
/// stands as a stub; any other crate is marked visited and expanded.
pub open spec fn unroll_edges(
    s: Registry,
    pred: Option<WhereClause>,
    visited: Set<u32>,
    deps: Seq<(Seq<char>, u32, Skid)>,
    k: nat,
) -> (Seq<TreeView>, Set<u32>)
    decreases unvisited(s, visited), 0nat, k,
{
    if k == 0 || k > deps.len() {
        (Seq::empty(), visited)
    } else {
        let (kids, vis) = unroll_edges(s, pred, visited, deps, (k - 1) as nat);
        let e = deps[k - 1];
        if !follows(pred, e.2) {
            (kids, vis)
        } else if vis.contains(e.1) || !holds_both(s, e.0, e.1) {
            (kids.push(stub(e.0, e.1)), vis)
        } else if unvisited(s, vis.insert(e.1)) < unvisited(s, visited) {
            let (t, vis2) = unroll_node(s, pred, vis.insert(e.1), position_of(s, e.0, e.1));
            (kids.push(t), vis2)
        } else {
            (kids.push(stub(e.0, e.1)), vis)
        }
    }
}

/// The result tree of a query for the crate named `name`.
pub open spec fn search_spec(s: Registry, pred: Option<WhereClause>, name: Seq<char>) -> Option<TreeView> {
    if holds_primary(s, name) {
        let i = choose|i: int| 0 <= i < s.len() && s[i].0 == name;
        Some(unroll_node(s, pred, set![s[i].1], i).0)
    } else {
        None
    }
}

proof fn lemma_ids_finite(s: Registry)
    ensures
        registry_ids(s).finite(),
        forall|j: int| 0 <= j < s.len() ==> registry_ids(s).contains(#[trigger] s[j].1),
{
    let m = s.map_values(|e: (Seq<char>, u32, crate::store::Crate)| e.1);
    vstd::seq_lib::seq_to_set_is_finite(m);
    assert forall|j: int| 0 <= j < s.len() implies registry_ids(s).contains(#[trigger] s[j].1) by {
        assert(m[j] == s[j].1);
    }
}

/// Visiting one more crate of the registry leaves fewer to visit.
proof fn lemma_unvisited_decreases(s: Registry, start: Set<u32>, vis: Set<u32>, t: u32)
    requires
        start.subset_of(vis),
        registry_ids(s).contains(t),
        !vis.contains(t),
    ensures
        unvisited(s, vis.insert(t)) < unvisited(s, start),
{
    lemma_ids_finite(s);
    let a = registry_ids(s).difference(vis.insert(t));
    let b = registry_ids(s).difference(start);
    assert(a.subset_of(b));
    assert(b.contains(t) && !a.contains(t));
    vstd::set_lib::lemma_len_subset(a, b.remove(t));
    assert(b.remove(t).len() + 1 == b.len());
}

proof fn lemma_unvisited_mono(s: Registry, a: Set<u32>, b: Set<u32>)
    requires
        a.subset_of(b),
    ensures
        unvisited(s, b) <= unvisited(s, a),
{
    lemma_ids_finite(s);
    vstd::set_lib::lemma_len_subset(registry_ids(s).difference(b), registry_ids(s).difference(a));
}

/// The crates, other than the one at position `i`, that its traversal
/// expands, in the order it expands them.
pub open spec fn expansions_node(s: Registry, pred: Option<WhereClause>, visited: Set<u32>, i: int) -> Seq<u32>
    decreases unvisited(s, visited), 1nat, 0nat,
{
    if 0 <= i < s.len() {
        let deps = s[i].2.dependencies@;
        expansions_edges(s, pred, visited, deps, deps.len())
    } else {
        Seq::empty()
    }
}

/// The crates expanded through the first `k` edges `deps`.
pub open spec fn expansions_edges(
    s: Registry,
    pred: Option<WhereClause>,
    visited: Set<u32>,
    deps: Seq<(Seq<char>, u32, Skid)>,
    k: nat,
) -> Seq<u32>
    decreases unvisited(s, visited), 0nat, k,
{
    if k == 0 || k > deps.len() {
        Seq::empty()
    } else {
        let ex = expansions_edges(s, pred, visited, deps, (k - 1) as nat);
        let vis = unroll_edges(s, pred, visited, deps, (k - 1) as nat).1;
        let e = deps[k - 1];
        if !follows(pred, e.2) || vis.contains(e.1) || !holds_both(s, e.0, e.1) {
            ex
        } else if unvisited(s, vis.insert(e.1)) < unvisited(s, visited) {
            ex.push(e.1) + expansions_node(s, pred, vis.insert(e.1), position_of(s, e.0, e.1))
        } else {
            ex
        }
    }
}

proof fn lemma_expansions_node(s: Registry, p: Option<WhereClause>, v: Set<u32>, i: int)
    ensures
        unroll_node(s, p, v, i).1 == v.union(expansions_node(s, p, v, i).to_set()),
        expansions_node(s, p, v, i).no_duplicates(),
        forall|j: int| 0 <= j < expansions_node(s, p, v, i).len() ==> !v.contains(#[trigger] expansions_node(s, p, v, i)[j]),
    decreases unvisited(s, v), 1nat, 0nat,
{
    if 0 <= i < s.len() {
        let deps = s[i].2.dependencies@;
        lemma_expansions_edges(s, p, v, deps, deps.len());
    } else {
        assert(v.union(Seq::<u32>::empty().to_set()) =~= v);
    }
}

proof fn lemma_expansions_edges(s: Registry, p: Option<WhereClause>, v: Set<u32>, deps: Seq<(Seq<char>, u32, Skid)>, k: nat)
    ensures
        unroll_edges(s, p, v, deps, k).1 == v.union(expansions_edges(s, p, v, deps, k).to_set()),
        expansions_edges(s, p, v, deps, k).no_duplicates(),
        forall|j: int| 0 <= j < expansions_edges(s, p, v, deps, k).len()
            ==> !v.contains(#[trigger] expansions_edges(s, p, v, deps, k)[j]),
    decreases unvisited(s, v), 0nat, k,
{
    if k == 0 || k > deps.len() {
        assert(v.union(Seq::<u32>::empty().to_set()) =~= v);
    } else {
        let km = (k - 1) as nat;
        lemma_expansions_edges(s, p, v, deps, km);
        let ex = expansions_edges(s, p, v, deps, km);
        let vis = unroll_edges(s, p, v, deps, km).1;
        let e = deps[k - 1];
        if !follows(p, e.2) || vis.contains(e.1) || !holds_both(s, e.0, e.1) {
        } else if unvisited(s, vis.insert(e.1)) < unvisited(s, v) {
            let t = e.1;
            let w = vis.insert(t);
            let q = position_of(s, e.0, e.1);
            lemma_expansions_node(s, p, w, q);
            let y = expansions_node(s, p, w, q);
            let x = ex.push(t) + y;
            assert(x == expansions_edges(s, p, v, deps, k));
            assert forall|a: int| 0 <= a < ex.len() implies vis.contains(#[trigger] ex[a]) by {
                assert(ex.to_set().contains(ex[a]));
            }
            assert forall|a: int, b: int| 0 <= a < x.len() && 0 <= b < x.len() && a != b implies x[a] != x[b] by {
                if a < ex.len() && b < ex.len() {
                    assert(ex[a] != ex[b]);
                } else if a < ex.len() && b == ex.len() {
                    assert(vis.contains(ex[a]));
                } else if b < ex.len() && a == ex.len() {
                    assert(vis.contains(ex[b]));
                } else if a <= ex.len() && b > ex.len() {
                    assert(x[b] == y[b - ex.len() - 1]);
                    assert(!w.contains(y[b - ex.len() - 1]));
                    if a < ex.len() {
                        assert(vis.contains(ex[a]));
                    }
                } else if b <= ex.len() && a > ex.len() {
                    assert(x[a] == y[a - ex.len() - 1]);
                    assert(!w.contains(y[a - ex.len() - 1]));
                    if b < ex.len() {
                        assert(vis.contains(ex[b]));
                    }
                } else {
                    assert(x[a] == y[a - ex.len() - 1]);
                    assert(x[b] == y[b - ex.len() - 1]);
                }
            }
            assert forall|j: int| 0 <= j < x.len() implies !v.contains(#[trigger] x[j]) by {
                if j < ex.len() {
                } else if j == ex.len() {
                } else {
                    assert(x[j] == y[j - ex.len() - 1]);
                    assert(!w.contains(y[j - ex.len() - 1]));
                }
            }
            assert(unroll_edges(s, p, v, deps, k).1 == unroll_node(s, p, w, q).1);
            assert(w.union(y.to_set()) =~= v.union(x.to_set())) by {
                assert forall|z: u32| x.to_set().contains(z) <==> (ex.to_set().contains(z) || z == t || y.to_set().contains(z)) by {
                    if x.to_set().contains(z) {
                        let j = choose|j: int| 0 <= j < x.len() && x[j] == z;
                        if j < ex.len() {
                            assert(ex[j] == z);
                        } else if j > ex.len() {
                            assert(y[j - ex.len() - 1] == z);
                        }
                    }
                    if ex.to_set().contains(z) {
                        let j = choose|j: int| 0 <= j < ex.len() && ex[j] == z;
                        assert(x[j] == z);
                    }
                    if y.to_set().contains(z) {
                        let j = choose|j: int| 0 <= j < y.len() && y[j] == z;
                        assert(x[j + ex.len() + 1] == z);
                    }
                    assert(x[ex.len() as int] == t);
                }
            }
        } else {
        }
    }
}

/// Every edge of the crate at position `j` that a traversal follows, to a
/// crate of the registry, leads into `f`.
pub open spec fn node_closed(s: Registry, pred: Option<WhereClause>, f: Set<u32>, j: int) -> bool {
    forall|k: int| 0 <= k < s[j].2.dependencies@.len() && follows(pred, s[j].2.dependencies@[k].2)
        && holds_both(s, s[j].2.dependencies@[k].0, s[j].2.dependencies@[k].1)
        ==> f.contains(#[trigger] s[j].2.dependencies@[k].1)
}

/// Every edge of crate `x` that a traversal follows leads into `f`.
pub open spec fn id_closed(s: Registry, pred: Option<WhereClause>, f: Set<u32>, x: u32) -> bool {
    forall|j: int| 0 <= j < s.len() && s[j].1 == x ==> #[trigger] node_closed(s, pred, f, j)
}

proof fn lemma_closed_grows(s: Registry, p: Option<WhereClause>, f: Set<u32>, g: Set<u32>, x: u32)
    requires
        f.subset_of(g),
        id_closed(s, p, f, x),
    ensures
        id_closed(s, p, g, x),
{
    assert forall|j: int| 0 <= j < s.len() && s[j].1 == x implies #[trigger] node_closed(s, p, g, j) by {
        assert(node_closed(s, p, f, j));
    }
}

proof fn lemma_closed_node(s: Registry, p: Option<WhereClause>, v: Set<u32>, i: int)
    requires
        registry_wf(s),
        0 <= i < s.len(),
    ensures
        node_closed(s, p, unroll_node(s, p, v, i).1, i),
        forall|a: int| 0 <= a < expansions_node(s, p, v, i).len()
            ==> id_closed(s, p, unroll_node(s, p, v, i).1, #[trigger] expansions_node(s, p, v, i)[a]),
    decreases unvisited(s, v), 1nat, 0nat,
{
    let deps = s[i].2.dependencies@;
    lemma_closed_edges(s, p, v, deps, deps.len());
    let fin = unroll_node(s, p, v, i).1;
    assert(fin == unroll_edges(s, p, v, deps, deps.len()).1);
    assert(expansions_node(s, p, v, i) == expansions_edges(s, p, v, deps, deps.len()));
    assert forall|k: int| 0 <= k < s[i].2.dependencies@.len() && follows(p, s[i].2.dependencies@[k].2)
        && holds_both(s, s[i].2.dependencies@[k].0, s[i].2.dependencies@[k].1)
        implies fin.contains(#[trigger] s[i].2.dependencies@[k].1) by {
        assert(deps[k] == s[i].2.dependencies@[k]);
    }
}

proof fn lemma_closed_edges(s: Registry, p: Option<WhereClause>, v: Set<u32>, deps: Seq<(Seq<char>, u32, Skid)>, k: nat)
    requires
        registry_wf(s),
        k <= deps.len(),
    ensures
        forall|j: int| 0 <= j < k && follows(p, deps[j].2) && holds_both(s, deps[j].0, deps[j].1)
            ==> unroll_edges(s, p, v, deps, k).1.contains(#[trigger] deps[j].1),
        forall|a: int| 0 <= a < expansions_edges(s, p, v, deps, k).len()
            ==> id_closed(s, p, unroll_edges(s, p, v, deps, k).1, #[trigger] expansions_edges(s, p, v, deps, k)[a]),
    decreases unvisited(s, v), 0nat, k,
{
    if k > 0 {
        let km = (k - 1) as nat;
        lemma_closed_edges(s, p, v, deps, km);
        lemma_expansions_edges(s, p, v, deps, km);
        let ex = expansions_edges(s, p, v, deps, km);
        let vis = unroll_edges(s, p, v, deps, km).1;
        let e = deps[k - 1];
        if !follows(p, e.2) || vis.contains(e.1) || !holds_both(s, e.0, e.1) {
        } else {
            let t = e.1;
            let w = vis.insert(t);
            crate::carriage::lemma_unique_keys(s);
            let q = position_of(s, e.0, e.1);
            lemma_ids_finite(s);
            assert(registry_ids(s).contains(s[q].1));
            assert(v.subset_of(vis));
            lemma_unvisited_decreases(s, v, vis, t);
            lemma_closed_node(s, p, w, q);
            lemma_expansions_node(s, p, w, q);
            let fin = unroll_node(s, p, w, q).1;
            let y = expansions_node(s, p, w, q);
            assert(unroll_edges(s, p, v, deps, k).1 == fin);
            assert(expansions_edges(s, p, v, deps, k) == ex.push(t) + y);
            assert(w.subset_of(fin));
            assert forall|j: int| 0 <= j < k && follows(p, deps[j].2) && holds_both(s, deps[j].0, deps[j].1)
                implies fin.contains(#[trigger] deps[j].1) by {
                if j < k - 1 {
                    assert(vis.contains(deps[j].1));
                }
            }
            let x = ex.push(t) + y;
            assert forall|a: int| 0 <= a < x.len() implies id_closed(s, p, fin, #[trigger] x[a]) by {
                if a < ex.len() {
                    assert(x[a] == ex[a]);
                    lemma_closed_grows(s, p, vis, fin, ex[a]);
                } else if a == ex.len() {
                    assert forall|j: int| 0 <= j < s.len() && s[j].1 == t implies #[trigger] node_closed(s, p, fin, j) by {
                        assert(j == q);
                    }
                } else {
                    assert(x[a] == y[a - ex.len() - 1]);
                }
            }
        }
    }
}

/// The crates a traversal from `root` reaches in at most `n` steps along
/// the edges it follows.
pub open spec fn reach(s: Registry, pred: Option<WhereClause>, root: u32, n: nat) -> Set<u32>
    decreases n,
{
    if n == 0 {
        set![root]
    } else {
        let r = reach(s, pred, root, (n - 1) as nat);
        r.union(Set::new(|y: u32| exists|j: int, k: int| 0 <= j < s.len() && r.contains(s[j].1)
            && 0 <= k < s[j].2.dependencies@.len() && #[trigger] s[j].2.dependencies@[k].1 == y
            && follows(pred, s[j].2.dependencies@[k].2) && holds_both(s, s[j].2.dependencies@[k].0, y)))
    }
}

proof fn lemma_reach_within(s: Registry, p: Option<WhereClause>, root: u32, f: Set<u32>, n: nat)
    requires
        f.contains(root),
        forall|x: u32| f.contains(x) ==> id_closed(s, p, f, x),
    ensures
        reach(s, p, root, n).subset_of(f),
    decreases n,
{
    if n > 0 {
        lemma_reach_within(s, p, root, f, (n - 1) as nat);
        let r = reach(s, p, root, (n - 1) as nat);
        assert forall|y: u32| reach(s, p, root, n).contains(y) implies f.contains(y) by {
            if !r.contains(y) {
                let (j, k) = choose|j: int, k: int| 0 <= j < s.len() && r.contains(s[j].1)
                    && 0 <= k < s[j].2.dependencies@.len() && #[trigger] s[j].2.dependencies@[k].1 == y
                    && follows(p, s[j].2.dependencies@[k].2) && holds_both(s, s[j].2.dependencies@[k].0, y);
                assert(id_closed(s, p, f, s[j].1));
                assert(node_closed(s, p, f, j));
            }
        }
    }
}

/// A traversal from the crate at position `i` expands every crate it
/// reaches exactly once: the starting crate at the root, each other one
/// once in `expansions_node`, which holds no crate twice and not the
/// starting one; the crates it visits are exactly these. A crate is reached
/// in `n` steps or fewer along edges the clause admits, to crates of the
/// registry.
pub proof fn lemma_traversal_expands_each_once(s: Registry, pred: Option<WhereClause>, i: int, n: nat)
    requires
        registry_wf(s),
        0 <= i < s.len(),
    ensures
        ({
            let start = set![s[i].1];
            let visited = unroll_node(s, pred, start, i).1;
            let ex = expansions_node(s, pred, start, i);
            &&& ex.no_duplicates()
            &&& !ex.contains(s[i].1)
            &&& visited == start.union(ex.to_set())
            &&& reach(s, pred, s[i].1, n).subset_of(visited)
        }),
{
    let start = set![s[i].1];
    lemma_expansions_node(s, pred, start, i);
    lemma_closed_node(s, pred, start, i);
    let visited = unroll_node(s, pred, start, i).1;
    let ex = expansions_node(s, pred, start, i);
    crate::carriage::lemma_unique_keys(s);
    assert forall|x: u32| visited.contains(x) implies id_closed(s, pred, visited, x) by {
        if x == s[i].1 {
            assert forall|j: int| 0 <= j < s.len() && s[j].1 == x implies #[trigger] node_closed(s, pred, visited, j) by {
                assert(j == i);
            }
        } else {
            assert(ex.to_set().contains(x));
            let a = choose|a: int| 0 <= a < ex.len() && ex[a] == x;
        }
    }
    if ex.contains(s[i].1) {
        let a = choose|a: int| 0 <= a < ex.len() && ex[a] == s[i].1;
        assert(!start.contains(ex[a]));
    }
    lemma_reach_within(s, pred, s[i].1, visited, n);
}

/// The ids of the nodes of a tree that have children, in preorder.
pub open spec fn branching(t: TreeView) -> Seq<u32>
    decreases t,
{
    if t.children.len() == 0 {
        Seq::empty()
    } else {
        seq![t.id] + branching_seq(t.children)
    }
}

/// The ids of the nodes with children of each tree in turn.
pub open spec fn branching_seq(cs: Seq<TreeView>) -> Seq<u32>
    decreases cs,
{
    if cs.len() == 0 {
        Seq::empty()
    } else {
        branching_seq(cs.drop_last()) + branching(cs.last())
    }
}

/// The position of the crate with id `x`.
pub open spec fn id_position(s: Registry, x: u32) -> int {
    choose|j: int| 0 <= j < s.len() && s[j].1 == x
}

/// Crate `x` has an edge that a traversal follows.
pub open spec fn branches(s: Registry, pred: Option<WhereClause>, x: u32) -> bool {
    let j = id_position(s, x);
    exists|k: int| 0 <= k < s[j].2.dependencies@.len() && follows(pred, #[trigger] s[j].2.dependencies@[k].2)
}

/// The ids among `ids` of crates with an edge a traversal follows, in order.
pub open spec fn branching_ids(s: Registry, pred: Option<WhereClause>, ids: Seq<u32>) -> Seq<u32>
    decreases ids.len(),
{
    if ids.len() == 0 {
        Seq::empty()
    } else {
        branching_ids(s, pred, ids.drop_last()) + if branches(s, pred, ids.last()) {
            seq![ids.last()]
        } else {
            Seq::empty()
        }
    }
}

proof fn lemma_branching_ids_concat(s: Registry, p: Option<WhereClause>, a: Seq<u32>, b: Seq<u32>)
    ensures
        branching_ids(s, p, a + b) == branching_ids(s, p, a) + branching_ids(s, p, b),
    decreases b.len(),
{
    if b.len() == 0 {
        assert(a + b =~= a);
        assert(branching_ids(s, p, a) + branching_ids(s, p, b) =~= branching_ids(s, p, a));
    } else {
        lemma_branching_ids_concat(s, p, a, b.drop_last());
        assert((a + b).drop_last() =~= a + b.drop_last());
        assert((a + b).last() == b.last());
        let tail = if branches(s, p, b.last()) { seq![b.last()] } else { Seq::<u32>::empty() };
        assert(branching_ids(s, p, a + b) =~= branching_ids(s, p, a) + branching_ids(s, p, b.drop_last()) + tail);
        assert(branching_ids(s, p, a) + branching_ids(s, p, b) =~= branching_ids(s, p, a) + branching_ids(s, p, b.drop_last()) + tail);
    }
}

proof fn lemma_branching_ids_members(s: Registry, p: Option<WhereClause>, ids: Seq<u32>)
    ensures
        forall|x: u32| branching_ids(s, p, ids).contains(x) <==> ids.contains(x) && branches(s, p, x),
        ids.no_duplicates() ==> branching_ids(s, p, ids).no_duplicates(),
    decreases ids.len(),
{
    if ids.len() > 0 {
        let d = ids.drop_last();
        let l = ids.last();
        lemma_branching_ids_members(s, p, d);
        let bd = branching_ids(s, p, d);
        let tail = if branches(s, p, l) { seq![l] } else { Seq::<u32>::empty() };
        let r = branching_ids(s, p, ids);
        assert(r == bd + tail);
        assert forall|x: u32| r.contains(x) <==> ids.contains(x) && branches(s, p, x) by {
            if r.contains(x) {
                let j = choose|j: int| 0 <= j < r.len() && r[j] == x;
                if j < bd.len() {
                    assert(bd[j] == x);
                    assert(bd.contains(x));
                    assert(d.contains(x));
                    let q = choose|q: int| 0 <= q < d.len() && d[q] == x;
                    assert(ids[q] == x);
                } else {
                    assert(ids[ids.len() - 1] == x);
                }
            }
            if ids.contains(x) && branches(s, p, x) {
                let j = choose|j: int| 0 <= j < ids.len() && ids[j] == x;
                if j < d.len() {
                    assert(d[j] == x);
                    assert(d.contains(x));
                    let q = choose|q: int| 0 <= q < bd.len() && bd[q] == x;
                    assert(r[q] == x);
                } else {
                    assert(r[bd.len() as int] == x);
                }
            }
        }
        if ids.no_duplicates() {
            assert(d.no_duplicates()) by {
                assert forall|a: int, b: int| 0 <= a < d.len() && 0 <= b < d.len() && a != b implies d[a] != d[b] by {
                    assert(d[a] == ids[a] && d[b] == ids[b]);
                }
            }
            assert(!d.contains(l)) by {
                if d.contains(l) {
                    let q = choose|q: int| 0 <= q < d.len() && d[q] == l;
                    assert(ids[q] == ids[ids.len() - 1]);
                }
            }
            assert forall|a: int, b: int| 0 <= a < r.len() && 0 <= b < r.len() && a != b implies r[a] != r[b] by {
                if a < bd.len() && b < bd.len() {
                } else if a < bd.len() {
                    assert(bd.contains(r[a]));
                } else if b < bd.len() {
                    assert(bd.contains(r[b]));
                }
            }
        }
    }
}

proof fn lemma_branching_node(s: Registry, p: Option<WhereClause>, v: Set<u32>, i: int)
    requires
        registry_wf(s),
        0 <= i < s.len(),
    ensures
        branching(unroll_node(s, p, v, i).0) == branching_ids(s, p, seq![s[i].1] + expansions_node(s, p, v, i)),
    decreases unvisited(s, v), 1nat, 0nat,
{
    let deps = s[i].2.dependencies@;
    lemma_branching_edges(s, p, v, deps, deps.len());
    let kids = unroll_edges(s, p, v, deps, deps.len()).0;
    let x = expansions_node(s, p, v, i);
    let t = unroll_node(s, p, v, i).0;
    assert(t.children == kids);
    crate::carriage::lemma_unique_keys(s);
    assert(id_position(s, s[i].1) == i);
    lemma_branching_ids_concat(s, p, seq![s[i].1], x);
    assert(seq![s[i].1].drop_last() =~= Seq::<u32>::empty());
    assert(seq![s[i].1].last() == s[i].1);
    assert(branching_ids(s, p, Seq::<u32>::empty()) == Seq::<u32>::empty());
    if kids.len() == 0 {
        assert(!branches(s, p, s[i].1)) by {
            if branches(s, p, s[i].1) {
                let k = choose|k: int| 0 <= k < deps.len() && follows(p, #[trigger] deps[k].2);
            }
        }
        assert(branching_ids(s, p, seq![s[i].1]) =~= Seq::<u32>::empty());
        assert(branching_ids(s, p, x) =~= Seq::<u32>::empty());
    } else {
        let k = choose|k: int| 0 <= k < deps.len() && follows(p, #[trigger] deps[k].2);
        assert(branches(s, p, s[i].1));
        assert(branching_ids(s, p, seq![s[i].1]) =~= seq![s[i].1]);
    }
}

proof fn lemma_branching_edges(s: Registry, p: Option<WhereClause>, v: Set<u32>, deps: Seq<(Seq<char>, u32, Skid)>, k: nat)
    requires
        registry_wf(s),
        k <= deps.len(),
    ensures
        branching_seq(unroll_edges(s, p, v, deps, k).0) == branching_ids(s, p, expansions_edges(s, p, v, deps, k)),
        unroll_edges(s, p, v, deps, k).0.len() == 0 <==> forall|j: int| 0 <= j < k ==> !follows(p, #[trigger] deps[j].2),
        unroll_edges(s, p, v, deps, k).0.len() == 0 ==> expansions_edges(s, p, v, deps, k).len() == 0,
    decreases unvisited(s, v), 0nat, k,
{
    if k == 0 {
        assert(branching_ids(s, p, Seq::<u32>::empty()) =~= Seq::<u32>::empty());
    } else {
        let km = (k - 1) as nat;
        lemma_branching_edges(s, p, v, deps, km);
        lemma_expansions_edges(s, p, v, deps, km);
        let prev = unroll_edges(s, p, v, deps, km);
        let ex = expansions_edges(s, p, v, deps, km);
        let vis = prev.1;
        let e = deps[k - 1];
        let cur = unroll_edges(s, p, v, deps, k).0;
        if !follows(p, e.2) {
            assert(cur == prev.0);
            assert((forall|j: int| 0 <= j < k ==> !follows(p, #[trigger] deps[j].2))
                <==> (forall|j: int| 0 <= j < km ==> !follows(p, #[trigger] deps[j].2)));
        } else {
            let leaf = stub(e.0, e.1);
            if vis.contains(e.1) || !holds_both(s, e.0, e.1) || !(unvisited(s, vis.insert(e.1)) < unvisited(s, v)) {
                assert(cur == prev.0.push(leaf));
                assert(cur.drop_last() =~= prev.0);
                assert(branching(leaf) == Seq::<u32>::empty());
                assert(branching_seq(cur) =~= branching_seq(prev.0));
            } else {
                let t = e.1;
                let w = vis.insert(t);
                crate::carriage::lemma_unique_keys(s);
                let q = position_of(s, e.0, e.1);
                lemma_branching_node(s, p, w, q);
                let sub = unroll_node(s, p, w, q).0;
                let y = expansions_node(s, p, w, q);
                assert(cur == prev.0.push(sub));
                assert(cur.drop_last() =~= prev.0);
                assert(s[q].1 == t);
                assert(expansions_edges(s, p, v, deps, k) == ex.push(t) + y);
                assert(ex.push(t) + y =~= ex + (seq![t] + y));
                lemma_branching_ids_concat(s, p, ex, seq![t] + y);
            }
            assert(cur.len() > 0);
        }
    }
}

/// A traversal from the crate at position `i`, seen in its tree: the nodes
/// with children are, in preorder, the starting crate and the crates it
/// expands that have an edge the clause admits, none twice. So a crate that
/// is reached and has such an edge is the id of exactly one node with
/// children; every other node with that id is a stub without children.
pub proof fn lemma_tree_expands_each_once(s: Registry, pred: Option<WhereClause>, i: int, n: nat)
    requires
        registry_wf(s),
        0 <= i < s.len(),
    ensures
        ({
            let t = unroll_node(s, pred, set![s[i].1], i).0;
            let visited = unroll_node(s, pred, set![s[i].1], i).1;
            &&& branching(t).no_duplicates()
            &&& forall|c: u32| branching(t).contains(c) <==> visited.contains(c) && branches(s, pred, c)
            &&& forall|c: u32| reach(s, pred, s[i].1, n).contains(c) && branches(s, pred, c) ==> branching(t).contains(c)
        }),
{
    let start = set![s[i].1];
    lemma_traversal_expands_each_once(s, pred, i, n);
    lemma_branching_node(s, pred, start, i);
    let ex = expansions_node(s, pred, start, i);
    let ids = seq![s[i].1] + ex;
    let visited = unroll_node(s, pred, start, i).1;
    assert(ids.no_duplicates()) by {
        assert forall|a: int, b: int| 0 <= a < ids.len() && 0 <= b < ids.len() && a != b implies ids[a] != ids[b] by {
            if a > 0 && b > 0 {
                assert(ids[a] == ex[a - 1] && ids[b] == ex[b - 1]);
            } else if a == 0 {
                assert(ids[b] == ex[b - 1]);
                assert(ex.contains(ex[b - 1]));
            } else {
                assert(ids[a] == ex[a - 1]);
                assert(ex.contains(ex[a - 1]));
            }
        }
    }
    lemma_branching_ids_members(s, pred, ids);
    assert forall|c: u32| ids.contains(c) <==> visited.contains(c) by {
        if ids.contains(c) {
            let j = choose|j: int| 0 <= j < ids.len() && ids[j] == c;
            if j > 0 {
                assert(ex[j - 1] == c);
                assert(ex.to_set().contains(c));
            }
        }
        if visited.contains(c) {
            if c == s[i].1 {
                assert(ids[0] == c);
            } else {
                assert(ex.to_set().contains(c));
                let j = choose|j: int| 0 <= j < ex.len() && ex[j] == c;
                assert(ids[j + 1] == c);
            }
        }
    }
}

impl Carriage {
    /// Unrolls the crate at position `i`.
    #[verifier::loop_isolation(false)]
    fn unroll_at(&self, pred: Option<&WhereClause>, visited: BTreeSet<u32>, i: usize) -> (r: (UnrolledCrate, BTreeSet<u32>))
        requires
            self.wf(),
            i < self.map@.len(),
        ensures
            (tree_view(r.0), r.1@) == unroll_node(self.map@, opt_clause(pred), visited@, i as int),
            visited@.subset_of(r.1@),
        decreases unvisited(self.map@, visited@), 1nat, 0nat,
    {
        let mut visited = visited;
        let ghost s = self.map@;
        let ghost p = opt_clause(pred);
        let ghost start = visited@;
        let slot = self.map.slot_at(i);
        let node = &slot.value;
        let deps = &node.dependencies;
        let ghost dv = deps@;
        let mut kids: Vec<UnrolledCrate> = Vec::new();
        let mut k: usize = 0;
        while k < deps.len()
            invariant
                self.wf(),
                s == self.map@,
                i < s.len(),
                dv == s[i as int].2.dependencies@,
                dv == deps@,
                k <= dv.len(),
                start.subset_of(visited@),
                (kids@.map_values(|c: UnrolledCrate| tree_view(c)), visited@) == unroll_edges(s, p, start, dv, k as nat),
                unvisited(s, visited@) <= unvisited(s, start),
            decreases dv.len() - k,
        {
            let edge = deps.slot_at(k);
            let ghost before_kids = kids@;
            let ghost vis = visited@;
            let follow = match pred {
                None => true,
                Some(c) => c.admits(&edge.value.version),
            };
            if follow {
                let seen = visited.contains(&edge.secondary);
                let at = if seen { None } else { self.map.position_of_both(edge.primary.as_str(), edge.secondary) };
                match at {
                    None => {
                        let leaf = UnrolledCrate::new(edge.secondary, edge.primary.clone(), Vec::new());
                        assert(tree_view(leaf).children =~= Seq::<TreeView>::empty());
                        assert(tree_view(leaf) == stub(edge.primary@, edge.secondary));
                        kids.push(leaf);
                    }
                    Some(j) => {
                        proof {
                            crate::carriage::lemma_unique_keys(s);
                            lemma_ids_finite(s);
                            assert(s[j as int].1 == edge.secondary);
                            assert(registry_ids(s).contains(edge.secondary));
                            assert(!vis.contains(edge.secondary));
                            lemma_unvisited_decreases(s, start, vis, edge.secondary);
                        }
                        visited.insert(edge.secondary);
                        assert(visited@ == vis.insert(edge.secondary));
                        assert(unvisited(s, visited@) < unvisited(s, start));
                        assert(position_of(s, edge.primary@, edge.secondary) == j);
                        let (t, v) = self.unroll_at(pred, visited, j);
                        proof {
                            lemma_unvisited_mono(s, visited@, v@);
                        }
                        visited = v;
                        kids.push(t);
                    }
                }
            }
            proof {
                let e = dv[k as int];
                let prev = unroll_edges(s, p, start, dv, k as nat);
                assert(e == (edge.primary@, edge.secondary, edge.value));
                assert(follow == follows(p, e.2));
                assert(prev.0 == before_kids.map_values(|c: UnrolledCrate| tree_view(c)));
                assert(prev.1 == vis);
                if follow {
                    let next = unroll_edges(s, p, start, dv, (k + 1) as nat);
                    assert(kids@.map_values(|c: UnrolledCrate| tree_view(c)) =~= before_kids.map_values(|c: UnrolledCrate| tree_view(c)).push(tree_view(kids@.last())));
                }
                assert(kids@.map_values(|c: UnrolledCrate| tree_view(c)) =~= unroll_edges(s, p, start, dv, (k + 1) as nat).0);
            }
            k = k + 1;
        }
        let r = UnrolledCrate::new(slot.secondary, slot.primary.clone(), kids);
        proof {
            assert(tree_view(r).children =~= kids@.map_values(|c: UnrolledCrate| tree_view(c)));
        }
        (r, visited)
    }

    /// The result tree of crate `krate`: the crate, and through its edges
    /// every crate it depends on, directly or not, each expanded the first
    /// time it is met and a stub afterwards; children stand in name order.
    /// `None` where no crate has that name.
    pub fn search(&self, krate: &str, pred: Option<&WhereClause>) -> (r: Option<UnrolledCrate>)
        requires
            self.wf(),
        ensures
            match r {
                Some(t) => search_spec(self.map@, opt_clause(pred), krate@) == Some(tree_view(t)),
                None => search_spec(self.map@, opt_clause(pred), krate@) is None,
            },
    {
        let (found, i) = self.map.search_primary(krate);
        if !found {
            return None;
        }
        proof {
            crate::carriage::lemma_unique_keys(self.map@);
            let c = choose|c: int| 0 <= c < self.map@.len() && self.map@[c].0 == krate@;
            assert(c == i);
        }
        let mut visited: BTreeSet<u32> = BTreeSet::new();
        visited.insert(self.map.slot_at(i).secondary);
        assert(visited@ =~= set![self.map@[i as int].1]);
        let (t, _) = self.unroll_at(pred, visited, i);
        Some(t)
    }
}

pub open spec fn opt_clause(pred: Option<&WhereClause>) -> Option<WhereClause> {
    match pred {
        Some(c) => Some(*c),
        None => None,
    }
}

} // verus!
