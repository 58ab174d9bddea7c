use vstd::prelude::*;

use crate::view::GcView;

verus! {

/// One traversal step: an edge from `a` to `b` whose target is itself a
/// registered handle. Traversal never descends into an unregistered target.
pub open spec fn step(v: GcView, a: u64, b: u64) -> bool {
    v.edges.contains((a, b)) && v.objects.contains(b)
}

/// `obj` can be reached from some root in at most `n` traversal steps.
pub open spec fn reach_n(v: GcView, obj: u64, n: nat) -> bool
    decreases n,
{
    if n == 0 {
        v.roots.contains(obj)
    } else {
        reach_n(v, obj, (n - 1) as nat) || exists|p: u64|
            reach_n(v, p, (n - 1) as nat) && step(v, p, obj)
    }
}

/// `obj` is reachable from the root set through the reference graph.
pub open spec fn reachable(v: GcView, obj: u64) -> bool {
    exists|n: nat| reach_n(v, obj, n)
}

/// Every root is reachable.
pub proof fn lemma_root_reachable(v: GcView, obj: u64)
    requires
        v.roots.contains(obj),
    ensures
        reachable(v, obj),
{
    assert(reach_n(v, obj, 0));
}

/// Reachability extends along one step of the graph.
pub proof fn lemma_step_reachable(v: GcView, p: u64, obj: u64)
    requires
        reachable(v, p),
        step(v, p, obj),
    ensures
        reachable(v, obj),
{
    let n = choose|n: nat| reach_n(v, p, n);
    assert(reach_n(v, obj, n + 1));
}

proof fn lemma_reach_n_in_objects(v: GcView, obj: u64, n: nat)
    requires
        v.wf(),
        reach_n(v, obj, n),
    ensures
        v.objects.contains(obj),
    decreases n,
{
    if n > 0 && reach_n(v, obj, (n - 1) as nat) {
        lemma_reach_n_in_objects(v, obj, (n - 1) as nat);
    }
}

/// In a well-formed state only registered handles are reachable; a dangling
/// target is a leaf of the traversal.
pub proof fn lemma_reachable_in_objects(v: GcView, obj: u64)
    requires
        v.wf(),
        reachable(v, obj),
    ensures
        v.objects.contains(obj),
{
    let n = choose|n: nat| reach_n(v, obj, n);
    lemma_reach_n_in_objects(v, obj, n);
}

proof fn lemma_reach_n_in_closed(v: GcView, m: Set<u64>, obj: u64, n: nat)
    requires
        forall|r: u64| v.roots.contains(r) ==> m.contains(r),
        forall|a: u64, b: u64| m.contains(a) && #[trigger] step(v, a, b) ==> m.contains(b),
        reach_n(v, obj, n),
    ensures
        m.contains(obj),
    decreases n,
{
    if n > 0 {
        if reach_n(v, obj, (n - 1) as nat) {
            lemma_reach_n_in_closed(v, m, obj, (n - 1) as nat);
        } else {
            let p = choose|p: u64| reach_n(v, p, (n - 1) as nat) && step(v, p, obj);
            lemma_reach_n_in_closed(v, m, p, (n - 1) as nat);
        }
    }
}

/// A set that contains every root and is closed under traversal steps
/// contains every reachable handle. This is what makes a worklist traversal
/// complete once its worklist is empty.
pub proof fn lemma_closed_set_covers_reachable(v: GcView, m: Set<u64>)
    requires
        forall|r: u64| v.roots.contains(r) ==> m.contains(r),
        forall|a: u64, b: u64| m.contains(a) && #[trigger] step(v, a, b) ==> m.contains(b),
    ensures
        forall|obj: u64| reachable(v, obj) ==> m.contains(obj),
{
    assert forall|obj: u64| reachable(v, obj) implies m.contains(obj) by {
        let n = choose|n: nat| reach_n(v, obj, n);
        lemma_reach_n_in_closed(v, m, obj, n);
    }
}

proof fn lemma_reach_n_avoids_cluster(v: GcView, cluster: Set<u64>, obj: u64, n: nat)
    requires
        forall|o: u64| cluster.contains(o) ==> !v.roots.contains(o),
        forall|a: u64, b: u64|
            cluster.contains(b) && #[trigger] v.edges.contains((a, b)) && reachable(v, a)
                ==> cluster.contains(a),
        reach_n(v, obj, n),
    ensures
        !cluster.contains(obj),
    decreases n,
{
    if n == 0 {
    } else if reach_n(v, obj, (n - 1) as nat) {
        lemma_reach_n_avoids_cluster(v, cluster, obj, (n - 1) as nat);
    } else {
        let p = choose|p: u64| reach_n(v, p, (n - 1) as nat) && step(v, p, obj);
        assert(reachable(v, p));
        lemma_reach_n_avoids_cluster(v, cluster, p, (n - 1) as nat);
    }
}

/// Law: a cluster of handles none of which is a root, and whose every
/// incoming edge from a reachable handle originates inside the cluster, is
/// unreachable in its entirety — regardless of the cycle shape inside the
/// cluster. Together with the contract of `collect_garbage`, every registered
/// member of such a cluster is removed by a single collection pass.
pub proof fn lemma_unrooted_cluster_unreachable(v: GcView, cluster: Set<u64>)
    requires
        forall|o: u64| cluster.contains(o) ==> !v.roots.contains(o),
        forall|a: u64, b: u64|
            cluster.contains(b) && #[trigger] v.edges.contains((a, b)) && reachable(v, a)
                ==> cluster.contains(a),
    ensures
        forall|o: u64| cluster.contains(o) ==> !reachable(v, o),
{
    assert forall|o: u64| cluster.contains(o) implies !reachable(v, o) by {
        if reachable(v, o) {
            let n = choose|n: nat| reach_n(v, o, n);
            lemma_reach_n_avoids_cluster(v, cluster, o, n);
        }
    }
}

proof fn lemma_reach_n_unaffected_by_dangling(v1: GcView, v2: GcView, obj: u64, n: nat)
    requires
        v1.objects == v2.objects,
        v1.roots == v2.roots,
        forall|e: (u64, u64)|
            #![trigger v1.edges.contains(e)]
            #![trigger v2.edges.contains(e)]
            v1.objects.contains(e.1) ==> (v1.edges.contains(e) <==> v2.edges.contains(e)),
        reach_n(v1, obj, n),
    ensures
        reach_n(v2, obj, n),
    decreases n,
{
    if n > 0 {
        if reach_n(v1, obj, (n - 1) as nat) {
            lemma_reach_n_unaffected_by_dangling(v1, v2, obj, (n - 1) as nat);
        } else {
            let p = choose|p: u64| reach_n(v1, p, (n - 1) as nat) && step(v1, p, obj);
            lemma_reach_n_unaffected_by_dangling(v1, v2, p, (n - 1) as nat);
            assert(step(v2, p, obj));
            assert(reach_n(v2, obj, n));
        }
    }
}

/// Law: two states with the same registered handles and roots whose edge sets
/// agree on every edge with a registered target have the same reachable
/// handles. Edges whose target was never registered are inert: in particular
/// a dangling edge never keeps its own source alive.
pub proof fn lemma_dangling_edges_do_not_affect_reachability(v1: GcView, v2: GcView)
    requires
        v1.objects == v2.objects,
        v1.roots == v2.roots,
        forall|e: (u64, u64)|
            #![trigger v1.edges.contains(e)]
            #![trigger v2.edges.contains(e)]
            v1.objects.contains(e.1) ==> (v1.edges.contains(e) <==> v2.edges.contains(e)),
    ensures
        forall|obj: u64| reachable(v1, obj) <==> reachable(v2, obj),
{
    assert forall|obj: u64| reachable(v1, obj) <==> reachable(v2, obj) by {
        if reachable(v1, obj) {
            let n = choose|n: nat| reach_n(v1, obj, n);
            lemma_reach_n_unaffected_by_dangling(v1, v2, obj, n);
            assert(reach_n(v2, obj, n));
        }
        if reachable(v2, obj) {
            let n = choose|n: nat| reach_n(v2, obj, n);
            lemma_reach_n_unaffected_by_dangling(v2, v1, obj, n);
            assert(reach_n(v1, obj, n));
        }
    }
}

} // verus!
