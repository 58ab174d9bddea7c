use vstd::prelude::*;

use crate::reach::{lemma_closed_set_covers_reachable, lemma_root_reachable, lemma_step_reachable,
    reachable, step};
use crate::view::GcView;

verus! {

broadcast use {vstd::seq_lib::seq_to_set_is_finite, vstd::seq_lib::lemma_seq_contains_after_push};

/// The reachability tracker. Handles are opaque `u64` tokens owned by the
/// external host runtime; the tracker never interprets them, it only records
/// membership, root status and reference edges between them. The value `0` is
/// the null handle and is silently ignored by every mutating operation.
pub struct GarbageCollector {
    objects: Vec<u64>,
    roots: Vec<u64>,
    edges: Vec<(u64, u64)>,
}

impl View for GarbageCollector {
    type V = GcView;

    closed spec fn view(&self) -> GcView {
        GcView {
            objects: self.objects@.to_set(),
            roots: self.roots@.to_set(),
            edges: self.edges@.to_set(),
        }
    }
}

/// Search a vector of handles for one handle.
fn vec_contains(v: &Vec<u64>, x: u64) -> (r: bool)
    ensures
        r == v@.contains(x),
{
    let mut i: usize = 0;
    while i < v.len()
        invariant
            i <= v@.len(),
            forall|k: int| 0 <= k < i ==> v@[k] != x,
        decreases v@.len() - i,
    {
        if v[i] == x {
            return true;
        }
        i = i + 1;
    }
    false
}

/// Search a vector of edges for the edge `(a, b)`.
fn edge_vec_contains(v: &Vec<(u64, u64)>, a: u64, b: u64) -> (r: bool)
    ensures
        r == v@.contains((a, b)),
{
    let mut i: usize = 0;
    while i < v.len()
        invariant
            i <= v@.len(),
            forall|k: int| 0 <= k < i ==> v@[k] != (a, b),
        decreases v@.len() - i,
    {
        if v[i].0 == a && v[i].1 == b {
            return true;
        }
        i = i + 1;
    }
    false
}

/// Copy a vector of handles.
fn copy_handles(v: &Vec<u64>) -> (r: Vec<u64>)
    ensures
        r@ == v@,
{
    let mut r: Vec<u64> = Vec::new();
    let mut i: usize = 0;
    while i < v.len()
        invariant
            i <= v@.len(),
            r@ == v@.subrange(0, i as int),
        decreases v@.len() - i,
    {
        r.push(v[i]);
        proof {
            assert(v@.subrange(0, (i + 1) as int) =~= v@.subrange(0, i as int).push(v@[i as int]));
        }
        i = i + 1;
    }
    proof {
        assert(v@.subrange(0, v@.len() as int) =~= v@);
    }
    r
}

proof fn lemma_drop_last_contains<A>(s: Seq<A>, y: A)
    requires
        s.len() > 0,
        s.contains(y),
    ensures
        s.subrange(0, s.len() - 1).contains(y) || y == s[s.len() - 1],
{
    let kk = s.lemma_contains_to_index(y);
    if kk < s.len() - 1 {
        assert(s.subrange(0, s.len() - 1)[kk] == y);
    }
}

proof fn lemma_push_unique<A>(s: Seq<A>, x: A)
    requires
        s.no_duplicates(),
        !s.contains(x),
    ensures
        s.push(x).no_duplicates(),
        s.push(x).to_set() == s.to_set().insert(x),
{
    assert(s.push(x).to_set() =~= s.to_set().insert(x));
}

proof fn lemma_unique_prefix_absent<A>(s: Seq<A>, i: int)
    requires
        s.no_duplicates(),
        0 <= i < s.len(),
    ensures
        !s.subrange(0, i).contains(s[i]),
{
    if s.subrange(0, i).contains(s[i]) {
        let k = choose|k: int| 0 <= k < i && s.subrange(0, i)[k] == s[i];
        assert(s[k] == s[i]);
    }
}

/// Copy `v`, keeping every handle other than `x`.
fn remove_handle(v: &Vec<u64>, x: u64) -> (r: Vec<u64>)
    requires
        v@.no_duplicates(),
    ensures
        r@.no_duplicates(),
        forall|y: u64| r@.contains(y) <==> v@.contains(y) && y != x,
{
    let mut r: Vec<u64> = Vec::new();
    let mut i: usize = 0;
    while i < v.len()
        invariant
            i <= v@.len(),
            v@.no_duplicates(),
            r@.no_duplicates(),
            forall|y: u64| r@.contains(y) <==> v@.subrange(0, i as int).contains(y) && y != x,
        decreases v@.len() - i,
    {
        let y = v[i];
        if y != x {
            proof {
                lemma_unique_prefix_absent(v@, i as int);
                lemma_push_unique(r@, y);
            }
            r.push(y);
        }
        proof {
            assert(v@.subrange(0, (i + 1) as int) =~= v@.subrange(0, i as int).push(v@[i as int]));
        }
        i = i + 1;
    }
    proof {
        assert(v@.subrange(0, v@.len() as int) =~= v@);
    }
    r
}

/// Copy `v`, keeping every edge that neither leaves nor enters `x`.
fn purge_edges_of(v: &Vec<(u64, u64)>, x: u64) -> (r: Vec<(u64, u64)>)
    requires
        v@.no_duplicates(),
    ensures
        r@.no_duplicates(),
        forall|e: (u64, u64)| r@.contains(e) <==> v@.contains(e) && e.0 != x && e.1 != x,
{
    let mut r: Vec<(u64, u64)> = Vec::new();
    let mut i: usize = 0;
    while i < v.len()
        invariant
            i <= v@.len(),
            v@.no_duplicates(),
            r@.no_duplicates(),
            forall|e: (u64, u64)|
                r@.contains(e) <==> v@.subrange(0, i as int).contains(e) && e.0 != x && e.1 != x,
        decreases v@.len() - i,
    {
        let e = v[i];
        if e.0 != x && e.1 != x {
            proof {
                lemma_unique_prefix_absent(v@, i as int);
                lemma_push_unique(r@, e);
            }
            r.push(e);
        }
        proof {
            assert(v@.subrange(0, (i + 1) as int) =~= v@.subrange(0, i as int).push(v@[i as int]));
        }
        i = i + 1;
    }
    proof {
        assert(v@.subrange(0, v@.len() as int) =~= v@);
    }
    r
}

/// Copy `v`, keeping every edge whose source is not `x`.
fn drop_source_edges(v: &Vec<(u64, u64)>, x: u64) -> (r: Vec<(u64, u64)>)
    requires
        v@.no_duplicates(),
    ensures
        r@.no_duplicates(),
        forall|e: (u64, u64)| r@.contains(e) <==> v@.contains(e) && e.0 != x,
{
    let mut r: Vec<(u64, u64)> = Vec::new();
    let mut i: usize = 0;
    while i < v.len()
        invariant
            i <= v@.len(),
            v@.no_duplicates(),
            r@.no_duplicates(),
            forall|e: (u64, u64)|
                r@.contains(e) <==> v@.subrange(0, i as int).contains(e) && e.0 != x,
        decreases v@.len() - i,
    {
        let e = v[i];
        if e.0 != x {
            proof {
                lemma_unique_prefix_absent(v@, i as int);
                lemma_push_unique(r@, e);
            }
            r.push(e);
        }
        proof {
            assert(v@.subrange(0, (i + 1) as int) =~= v@.subrange(0, i as int).push(v@[i as int]));
        }
        i = i + 1;
    }
    proof {
        assert(v@.subrange(0, v@.len() as int) =~= v@);
    }
    r
}

/// Copy `v`, keeping every edge other than `(a, b)`.
fn remove_edge(v: &Vec<(u64, u64)>, a: u64, b: u64) -> (r: Vec<(u64, u64)>)
    requires
        v@.no_duplicates(),
    ensures
        r@.no_duplicates(),
        forall|e: (u64, u64)| r@.contains(e) <==> v@.contains(e) && e != (a, b),
{
    let mut r: Vec<(u64, u64)> = Vec::new();
    let mut i: usize = 0;
    while i < v.len()
        invariant
            i <= v@.len(),
            v@.no_duplicates(),
            r@.no_duplicates(),
            forall|e: (u64, u64)|
                r@.contains(e) <==> v@.subrange(0, i as int).contains(e) && e != (a, b),
        decreases v@.len() - i,
    {
        let e = v[i];
        if e.0 != a || e.1 != b {
            proof {
                lemma_unique_prefix_absent(v@, i as int);
                lemma_push_unique(r@, e);
            }
            r.push(e);
        }
        proof {
            assert(v@.subrange(0, (i + 1) as int) =~= v@.subrange(0, i as int).push(v@[i as int]));
        }
        i = i + 1;
    }
    proof {
        assert(v@.subrange(0, v@.len() as int) =~= v@);
    }
    r
}

impl GarbageCollector {
    /// Internal representation invariant: each vector is duplicate-free and
    /// the abstract state it denotes is well-formed.
    pub closed spec fn wf(&self) -> bool {
        &&& self.objects@.no_duplicates()
        &&& self.roots@.no_duplicates()
        &&& self.edges@.no_duplicates()
        &&& self@.wf()
    }

    /// A well-formed tracker denotes a well-formed abstract state.
    pub proof fn lemma_wf_view(&self)
        requires
            self.wf(),
        ensures
            self@.wf(),
    {
    }

    /// Creates an empty tracker: no registered handles, no roots, no edges.
    pub fn new() -> (gc: Self)
        ensures
            gc.wf(),
            gc@.objects == Set::<u64>::empty(),
            gc@.roots == Set::<u64>::empty(),
            gc@.edges == Set::<(u64, u64)>::empty(),
    {
        let gc = GarbageCollector { objects: Vec::new(), roots: Vec::new(), edges: Vec::new() };
        proof {
            assert(gc@.objects =~= Set::<u64>::empty());
            assert(gc@.roots =~= Set::<u64>::empty());
            assert(gc@.edges =~= Set::<(u64, u64)>::empty());
        }
        gc
    }

    /// Adds `obj` to the registered set. Registering the null handle, or a
    /// handle that is already registered, changes nothing.
    pub fn register_object(&mut self, obj: u64)
        requires
            old(self).wf(),
        ensures
            final(self).wf(),
            obj != 0 ==> final(self)@.objects == old(self)@.objects.insert(obj),
            obj == 0 ==> final(self)@.objects == old(self)@.objects,
            final(self)@.roots == old(self)@.roots,
            final(self)@.edges == old(self)@.edges,
            old(self)@.objects.contains(obj) ==> final(self)@ == old(self)@,
    {
        if obj != 0 && !vec_contains(&self.objects, obj) {
            proof {
                lemma_push_unique(self.objects@, obj);
            }
            self.objects.push(obj);
        }
        proof {
            if old(self)@.objects.contains(obj) || obj == 0 {
                assert(self@ =~= old(self)@);
            }
        }
    }

    /// Removes `obj` from the registered set and the root set, drops its
    /// outgoing edges, and purges every incoming edge that points at it, so
    /// that no back-reference to `obj` survives. A handle that is not
    /// registered — the null handle included — is ignored entirely.
    pub fn unregister_object(&mut self, obj: u64)
        requires
            old(self).wf(),
        ensures
            final(self).wf(),
            old(self)@.objects.contains(obj) ==> {
                &&& final(self)@.objects == old(self)@.objects.remove(obj)
                &&& final(self)@.roots == old(self)@.roots.remove(obj)
                &&& final(self)@.edges == old(self)@.edges.filter(
                    |e: (u64, u64)| e.0 != obj && e.1 != obj,
                )
            },
            !old(self)@.objects.contains(obj) ==> final(self)@ == old(self)@,
    {
        if vec_contains(&self.objects, obj) {
            self.objects = remove_handle(&self.objects, obj);
            self.roots = remove_handle(&self.roots, obj);
            self.edges = purge_edges_of(&self.edges, obj);
            proof {
                assert(self@.objects =~= old(self)@.objects.remove(obj));
                assert(self@.roots =~= old(self)@.roots.remove(obj));
                assert(self@.edges =~= old(self)@.edges.filter(
                    |e: (u64, u64)| e.0 != obj && e.1 != obj,
                ));
            }
        }
    }

    /// Records the edge `from → to`. The call is honored only when `from` is
    /// a registered handle and `to` is not null; otherwise it is silently
    /// ignored. `to` need not be registered, and re-adding a present edge
    /// changes nothing.
    pub fn add_reference(&mut self, from: u64, to: u64)
        requires
            old(self).wf(),
        ensures
            final(self).wf(),
            final(self)@.objects == old(self)@.objects,
            final(self)@.roots == old(self)@.roots,
            old(self)@.objects.contains(from) && to != 0 ==> final(self)@.edges == old(
                self,
            )@.edges.insert((from, to)),
            !(old(self)@.objects.contains(from) && to != 0) ==> final(self)@.edges == old(
                self,
            )@.edges,
            old(self)@.edges.contains((from, to)) ==> final(self)@ == old(self)@,
    {
        if to != 0 && vec_contains(&self.objects, from) && !edge_vec_contains(
            &self.edges,
            from,
            to,
        ) {
            proof {
                lemma_push_unique(self.edges@, (from, to));
            }
            self.edges.push((from, to));
        }
        proof {
            if old(self)@.objects.contains(from) && to != 0 {
                assert(self@.edges =~= old(self)@.edges.insert((from, to)));
            }
            if old(self)@.edges.contains((from, to)) {
                assert(self@ =~= old(self)@);
            }
        }
    }

    /// Removes the edge `from → to` if it is present; otherwise nothing
    /// changes.
    pub fn remove_reference(&mut self, from: u64, to: u64)
        requires
            old(self).wf(),
        ensures
            final(self).wf(),
            final(self)@.objects == old(self)@.objects,
            final(self)@.roots == old(self)@.roots,
            final(self)@.edges == old(self)@.edges.remove((from, to)),
    {
        self.edges = remove_edge(&self.edges, from, to);
        proof {
            assert(self@.edges =~= old(self)@.edges.remove((from, to)));
        }
    }

    /// Drops every outgoing edge of `obj`. For a handle with no recorded
    /// outgoing edges — an unregistered one in particular — nothing changes.
    pub fn clear_references(&mut self, obj: u64)
        requires
            old(self).wf(),
        ensures
            final(self).wf(),
            final(self)@.objects == old(self)@.objects,
            final(self)@.roots == old(self)@.roots,
            final(self)@.edges == old(self)@.edges.filter(|e: (u64, u64)| e.0 != obj),
            !old(self)@.objects.contains(obj) ==> final(self)@ == old(self)@,
    {
        self.edges = drop_source_edges(&self.edges, obj);
        proof {
            assert(self@.edges =~= old(self)@.edges.filter(|e: (u64, u64)| e.0 != obj));
            if !old(self)@.objects.contains(obj) {
                assert(self@ =~= old(self)@);
            }
        }
    }

    /// Returns the outgoing-edge targets of `obj`, or `None` when `obj` is
    /// not a registered handle. Read-only.
    pub fn get_references(&self, obj: u64) -> (r: Option<Vec<u64>>)
        requires
            self.wf(),
        ensures
            r is Some <==> self@.objects.contains(obj),
            r matches Some(ts) ==> ts@.no_duplicates() && ts@.to_set() == self@.refs_of(obj),
    {
        if !vec_contains(&self.objects, obj) {
            return None;
        }
        let mut ts: Vec<u64> = Vec::new();
        let mut i: usize = 0;
        while i < self.edges.len()
            invariant
                i <= self.edges@.len(),
                self.edges@.no_duplicates(),
                ts@.no_duplicates(),
                forall|t: u64| ts@.contains(t) <==> self.edges@.subrange(0, i as int).contains(
                    (obj, t),
                ),
            decreases self.edges@.len() - i,
        {
            let e = self.edges[i];
            if e.0 == obj {
                proof {
                    lemma_unique_prefix_absent(self.edges@, i as int);
                    assert(!ts@.contains(e.1));
                    lemma_push_unique(ts@, e.1);
                }
                ts.push(e.1);
            }
            proof {
                assert(self.edges@.subrange(0, (i + 1) as int) =~= self.edges@.subrange(
                    0,
                    i as int,
                ).push(self.edges@[i as int]));
            }
            i = i + 1;
        }
        proof {
            assert(self.edges@.subrange(0, self.edges@.len() as int) =~= self.edges@);
            assert(ts@.to_set() =~= self@.refs_of(obj));
        }
        Some(ts)
    }

    /// Marks `obj` as a root. The call is honored only when `obj` is a
    /// registered handle; re-marking a root changes nothing.
    pub fn mark_root(&mut self, obj: u64)
        requires
            old(self).wf(),
        ensures
            final(self).wf(),
            final(self)@.objects == old(self)@.objects,
            final(self)@.edges == old(self)@.edges,
            old(self)@.objects.contains(obj) ==> final(self)@.roots == old(self)@.roots.insert(
                obj,
            ),
            !old(self)@.objects.contains(obj) ==> final(self)@.roots == old(self)@.roots,
            old(self)@.roots.contains(obj) ==> final(self)@ == old(self)@,
    {
        if vec_contains(&self.objects, obj) && !vec_contains(&self.roots, obj) {
            proof {
                lemma_push_unique(self.roots@, obj);
            }
            self.roots.push(obj);
        }
        proof {
            if old(self)@.objects.contains(obj) {
                assert(self@.roots =~= old(self)@.roots.insert(obj));
            }
            if old(self)@.roots.contains(obj) {
                assert(self@ =~= old(self)@);
            }
        }
    }

    /// Removes `obj` from the root set if it is there; otherwise nothing
    /// changes. The handle stays registered either way.
    pub fn unmark_root(&mut self, obj: u64)
        requires
            old(self).wf(),
        ensures
            final(self).wf(),
            final(self)@.objects == old(self)@.objects,
            final(self)@.edges == old(self)@.edges,
            final(self)@.roots == old(self)@.roots.remove(obj),
    {
        self.roots = remove_handle(&self.roots, obj);
        proof {
            assert(self@.roots =~= old(self)@.roots.remove(obj));
        }
    }

    /// Marks every handle in `list` as a root, with the same per-element rule
    /// as `mark_root`; the order of the list has no effect on the end state.
    pub fn add_roots(&mut self, list: &[u64])
        requires
            old(self).wf(),
        ensures
            final(self).wf(),
            final(self)@.objects == old(self)@.objects,
            final(self)@.edges == old(self)@.edges,
            forall|x: u64|
                final(self)@.roots.contains(x) <==> old(self)@.roots.contains(x) || (
                list@.contains(x) && old(self)@.objects.contains(x)),
    {
        let ghost pre = self@;
        let mut i: usize = 0;
        while i < list.len()
            invariant
                i <= list@.len(),
                self.wf(),
                self@.objects == pre.objects,
                self@.edges == pre.edges,
                forall|x: u64|
                    self@.roots.contains(x) <==> pre.roots.contains(x) || (list@.subrange(
                        0,
                        i as int,
                    ).contains(x) && pre.objects.contains(x)),
            decreases list@.len() - i,
        {
            self.mark_root(list[i]);
            proof {
                assert(list@.subrange(0, (i + 1) as int) =~= list@.subrange(0, i as int).push(
                    list@[i as int],
                ));
            }
            i = i + 1;
        }
        proof {
            assert(list@.subrange(0, list@.len() as int) =~= list@);
        }
    }

    /// Removes every handle in `list` from the root set; the order of the
    /// list has no effect on the end state.
    pub fn remove_roots(&mut self, list: &[u64])
        requires
            old(self).wf(),
        ensures
            final(self).wf(),
            final(self)@.objects == old(self)@.objects,
            final(self)@.edges == old(self)@.edges,
            forall|x: u64|
                final(self)@.roots.contains(x) <==> old(self)@.roots.contains(x)
                    && !list@.contains(x),
    {
        let ghost pre = self@;
        let mut i: usize = 0;
        while i < list.len()
            invariant
                i <= list@.len(),
                self.wf(),
                self@.objects == pre.objects,
                self@.edges == pre.edges,
                forall|x: u64|
                    self@.roots.contains(x) <==> pre.roots.contains(x) && !list@.subrange(
                        0,
                        i as int,
                    ).contains(x),
            decreases list@.len() - i,
        {
            let ghost before = self@;
            let ghost j = i as int;
            self.unmark_root(list[i]);
            i = i + 1;
            proof {
                assert(list@.subrange(0, i as int) =~= list@.subrange(0, j).push(list@[j]));
                assert forall|x: u64|
                    (self@.roots.contains(x) <==> pre.roots.contains(x) && !list@.subrange(
                        0,
                        i as int,
                    ).contains(x)) by {
                    assert(self@.roots.contains(x) <==> before.roots.contains(x) && x != list@[j]);
                    assert(list@.subrange(0, i as int).contains(x) <==> list@.subrange(
                        0,
                        j,
                    ).contains(x) || x == list@[j]);
                }
            }
        }
        proof {
            assert(list@.subrange(0, list@.len() as int) =~= list@);
            assert forall|x: u64|
                (self@.roots.contains(x) <==> pre.roots.contains(x) && !list@.contains(x)) by {
                assert(self@.roots.contains(x) <==> pre.roots.contains(x) && !list@.subrange(
                    0,
                    i as int,
                ).contains(x));
            }
        }
    }

    /// Records the edge `from → t` for every `t` in `list`, with the same
    /// per-element rule as `add_reference`; the order of the list has no
    /// effect on the end state.
    pub fn add_references(&mut self, from: u64, list: &[u64])
        requires
            old(self).wf(),
        ensures
            final(self).wf(),
            final(self)@.objects == old(self)@.objects,
            final(self)@.roots == old(self)@.roots,
            old(self)@.objects.contains(from) ==> forall|e: (u64, u64)|
                final(self)@.edges.contains(e) <==> old(self)@.edges.contains(e) || (e.0 == from
                    && e.1 != 0 && list@.contains(e.1)),
            !old(self)@.objects.contains(from) ==> final(self)@.edges == old(self)@.edges,
    {
        let ghost pre = self@;
        let mut i: usize = 0;
        while i < list.len()
            invariant
                i <= list@.len(),
                self.wf(),
                self@.objects == pre.objects,
                self@.roots == pre.roots,
                pre.objects.contains(from) ==> forall|e: (u64, u64)|
                    self@.edges.contains(e) <==> pre.edges.contains(e) || (e.0 == from && e.1 != 0
                        && list@.subrange(0, i as int).contains(e.1)),
                !pre.objects.contains(from) ==> self@.edges == pre.edges,
            decreases list@.len() - i,
        {
            let ghost before = self@;
            let ghost j = i as int;
            self.add_reference(from, list[i]);
            i = i + 1;
            proof {
                assert(list@.subrange(0, i as int) =~= list@.subrange(0, j).push(list@[j]));
                if pre.objects.contains(from) {
                    let t = list@[j];
                    assert forall|e: (u64, u64)|
                        (self@.edges.contains(e) <==> pre.edges.contains(e) || (e.0 == from && e.1
                            != 0 && list@.subrange(0, i as int).contains(e.1))) by {
                        assert(before.edges.contains(e) <==> pre.edges.contains(e) || (e.0 == from
                            && e.1 != 0 && list@.subrange(0, j).contains(e.1)));
                        assert(list@.subrange(0, i as int).contains(e.1) <==> list@.subrange(
                            0,
                            j,
                        ).contains(e.1) || e.1 == t);
                        if t != 0 {
                            assert(self@.edges == before.edges.insert((from, t)));
                        } else {
                            assert(self@.edges == before.edges);
                        }
                    }
                }
            }
        }
        proof {
            assert(list@.subrange(0, list@.len() as int) =~= list@);
            if pre.objects.contains(from) {
                assert forall|e: (u64, u64)|
                    (self@.edges.contains(e) <==> pre.edges.contains(e) || (e.0 == from && e.1 != 0
                        && list@.contains(e.1))) by {
                    assert(self@.edges.contains(e) <==> pre.edges.contains(e) || (e.0 == from
                        && e.1 != 0 && list@.subrange(0, i as int).contains(e.1)));
                }
            }
        }
    }

    /// Removes the edge `from → t` for every `t` in `list`; the order of the
    /// list has no effect on the end state.
    pub fn remove_references(&mut self, from: u64, list: &[u64])
        requires
            old(self).wf(),
        ensures
            final(self).wf(),
            final(self)@.objects == old(self)@.objects,
            final(self)@.roots == old(self)@.roots,
            forall|e: (u64, u64)|
                final(self)@.edges.contains(e) <==> old(self)@.edges.contains(e) && !(e.0 == from
                    && list@.contains(e.1)),
    {
        let ghost pre = self@;
        let mut i: usize = 0;
        while i < list.len()
            invariant
                i <= list@.len(),
                self.wf(),
                self@.objects == pre.objects,
                self@.roots == pre.roots,
                forall|e: (u64, u64)|
                    self@.edges.contains(e) <==> pre.edges.contains(e) && !(e.0 == from
                        && list@.subrange(0, i as int).contains(e.1)),
            decreases list@.len() - i,
        {
            self.remove_reference(from, list[i]);
            proof {
                assert(list@.subrange(0, (i + 1) as int) =~= list@.subrange(0, i as int).push(
                    list@[i as int],
                ));
            }
            i = i + 1;
        }
        proof {
            assert(list@.subrange(0, list@.len() as int) =~= list@);
            assert forall|e: (u64, u64)|
                (self@.edges.contains(e) <==> old(self)@.edges.contains(e) && !(e.0 == from
                    && list@.contains(e.1))) by {
                assert(self@.edges.contains(e) <==> pre.edges.contains(e) && !(e.0 == from
                    && list@.subrange(0, i as int).contains(e.1)));
                assert(list@.contains(e.1) <==> list@.subrange(0, i as int).contains(e.1));
            }
        }
    }

    /// Empties the root set; registered handles and edges are untouched.
    pub fn clear_roots(&mut self)
        requires
            old(self).wf(),
        ensures
            final(self).wf(),
            final(self)@.objects == old(self)@.objects,
            final(self)@.edges == old(self)@.edges,
            final(self)@.roots == Set::<u64>::empty(),
    {
        self.roots = Vec::new();
        proof {
            assert(self@.roots =~= Set::<u64>::empty());
        }
    }

    /// Returns the number of roots. Read-only.
    pub fn get_root_count(&self) -> (n: usize)
        requires
            self.wf(),
        ensures
            n == self@.roots.len(),
    {
        proof {
            self.roots@.unique_seq_to_set();
        }
        self.roots.len()
    }

    /// The mark phase: a worklist traversal from the root set that visits
    /// every registered handle at most once, never descends into an
    /// unregistered target, and terminates on any graph, cycles included.
    /// Returns exactly the reachable handles.
    fn mark_reachable(&self) -> (marked: Vec<u64>)
        requires
            self.wf(),
        ensures
            marked@.no_duplicates(),
            forall|o: u64| marked@.contains(o) <==> reachable(self@, o),
    {
        let mut marked: Vec<u64> = Vec::new();
        let mut pending: Vec<u64> = copy_handles(&self.roots);
        while pending.len() > 0
            invariant
                self.wf(),
                marked@.no_duplicates(),
                marked@.len() <= self.objects@.len(),
                forall|o: u64| #[trigger]
                    marked@.contains(o) ==> self.objects@.contains(o) && reachable(self@, o),
                forall|x: u64| #[trigger]
                    pending@.contains(x) ==> self@.roots.contains(x) || exists|m: u64|
                        marked@.contains(m) && self@.edges.contains((m, x)),
                forall|r: u64| self@.roots.contains(r) ==> marked@.contains(r)
                    || pending@.contains(r),
                forall|m: u64, t: u64|
                    marked@.contains(m) && #[trigger] self@.edges.contains((m, t))
                        && self@.objects.contains(t) ==> marked@.contains(t)
                        || pending@.contains(t),
            decreases self.objects@.len() - marked@.len(), pending@.len(),
        {
            let ghost pending_before = pending@;
            let ghost marked0 = marked@;
            let x = pending.pop().unwrap();
            proof {
                assert(pending_before[pending_before.len() - 1] == x);
                assert(pending_before.contains(x));
            }
            if !vec_contains(&marked, x) && vec_contains(&self.objects, x) {
                proof {
                    // x is reachable: it is a root, or a successor of a
                    // marked handle, which is itself reachable.
                    if self@.roots.contains(x) {
                        lemma_root_reachable(self@, x);
                    } else {
                        let m = choose|m: u64|
                            marked@.contains(m) && self@.edges.contains((m, x));
                        assert(step(self@, m, x));
                        lemma_step_reachable(self@, m, x);
                    }
                    lemma_push_unique(marked@, x);
                }
                marked.push(x);
                proof {
                    // a duplicate-free vector of registered handles is no
                    // longer than the registered set
                    marked@.unique_seq_to_set();
                    assert(marked@.to_set().subset_of(self.objects@.to_set()));
                    vstd::set_lib::lemma_len_subset(marked@.to_set(), self.objects@.to_set());
                    self.objects@.unique_seq_to_set();
                    // every still-pending handle keeps its origin: a root, or
                    // an edge out of a marked handle
                    assert forall|y: u64| #[trigger]
                        pending@.contains(y) implies (self@.roots.contains(y) || exists|m: u64|
                        marked@.contains(m) && self@.edges.contains((m, y))) by {
                        let kk = pending@.lemma_contains_to_index(y);
                        assert(pending_before[kk] == y);
                        assert(pending_before.contains(y));
                        if !self@.roots.contains(y) {
                            let m = choose|m: u64|
                                marked0.contains(m) && self@.edges.contains((m, y));
                            assert(marked@.contains(m) && self@.edges.contains((m, y)));
                        }
                    }
                }
                let ghost pending_start = pending@;
                let mut k: usize = 0;
                while k < self.edges.len()
                    invariant
                        self.wf(),
                        k <= self.edges@.len(),
                        marked@.contains(x),
                        forall|y: u64| pending_start.contains(y) ==> pending@.contains(y),
                        forall|y: u64| #[trigger]
                            pending@.contains(y) ==> self@.roots.contains(y) || exists|m: u64|
                                marked@.contains(m) && self@.edges.contains((m, y)),
                        forall|kk: int|
                            0 <= kk < k && self.edges@[kk].0 == x ==> marked@.contains(
                                self.edges@[kk].1,
                            ) || pending@.contains(self.edges@[kk].1),
                    decreases self.edges@.len() - k,
                {
                    let e = self.edges[k];
                    if e.0 == x {
                        proof {
                            assert(self@.edges.contains((x, e.1)));
                        }
                        pending.push(e.1);
                    }
                    k = k + 1;
                }
                proof {
                    // every successor of x is now marked or pending, and the
                    // closure property of every other marked handle survived
                    // the pop: its pending witness either still is pending or
                    // was x itself, which is now marked
                    assert forall|m: u64, t: u64|
                        (marked@.contains(m) && self@.edges.contains((m, t))
                            && self@.objects.contains(t)) implies (marked@.contains(t)
                        || pending@.contains(t)) by {
                        if m == x {
                            let kk = self.edges@.lemma_contains_to_index((x, t));
                        } else {
                            assert(marked0.contains(m));
                            assert(marked0.contains(t) || pending_before.contains(t));
                            if !marked0.contains(t) {
                                lemma_drop_last_contains(pending_before, t);
                                if t != x {
                                    assert(pending_start.contains(t));
                                    assert(pending@.contains(t));
                                }
                            }
                        }
                    }
                    // every root is still marked or pending
                    assert forall|r: u64|
                        self@.roots.contains(r) implies (marked@.contains(r)
                        || pending@.contains(r)) by {
                        if !marked0.contains(r) && r != x {
                            assert(pending_before.contains(r));
                            lemma_drop_last_contains(pending_before, r);
                            assert(pending_start.contains(r));
                            assert(pending@.contains(r));
                        }
                    }
                }
            } else {
                proof {
                    // the popped handle was already marked or is not
                    // registered; only the pop has to be accounted for
                    assert forall|y: u64| #[trigger]
                        pending@.contains(y) implies (self@.roots.contains(y) || exists|m: u64|
                        marked@.contains(m) && self@.edges.contains((m, y))) by {
                        let kk = pending@.lemma_contains_to_index(y);
                        assert(pending_before[kk] == y);
                        assert(pending_before.contains(y));
                    }
                    assert forall|r: u64|
                        self@.roots.contains(r) implies (marked@.contains(r)
                        || pending@.contains(r)) by {
                        if !marked@.contains(r) {
                            assert(pending_before.contains(r));
                            lemma_drop_last_contains(pending_before, r);
                            if r == x {
                                // a root is registered, so x was already marked
                                assert(self@.objects.contains(r));
                                assert(marked@.contains(x));
                            }
                        }
                    }
                    assert forall|m: u64, t: u64|
                        (marked@.contains(m) && self@.edges.contains((m, t))
                            && self@.objects.contains(t)) implies (marked@.contains(t)
                        || pending@.contains(t)) by {
                        if !marked@.contains(t) {
                            assert(pending_before.contains(t));
                            lemma_drop_last_contains(pending_before, t);
                            if t == x {
                                // t is registered, so x was already marked
                                assert(marked@.contains(x));
                            }
                        }
                    }
                }
            }
        }
        proof {
            // the worklist is empty: the marked set contains every root and
            // is closed under traversal steps, so it covers everything
            // reachable; the soundness invariant gives the converse.
            lemma_closed_set_covers_reachable(self@, marked@.to_set());
        }
        marked
    }

    /// One full mark-and-sweep pass. Afterward exactly the handles that were
    /// reachable from the root set remain registered; every unreachable
    /// handle is removed from the registered set and purged from the graph,
    /// both as a source and as a target. Edges to targets that were never
    /// registered survive as long as their source does. Returns how many
    /// handles were removed; the root set itself is untouched.
    pub fn collect_garbage(&mut self) -> (removed: usize)
        requires
            old(self).wf(),
        ensures
            final(self).wf(),
            final(self)@.roots == old(self)@.roots,
            final(self)@.objects == old(self)@.objects.filter(
                |o: u64| reachable(old(self)@, o),
            ),
            final(self)@.edges == old(self)@.edges.filter(
                |e: (u64, u64)|
                    reachable(old(self)@, e.0) && (!old(self)@.objects.contains(e.1) || reachable(
                        old(self)@,
                        e.1,
                    )),
            ),
            removed as int == old(self)@.objects.len() - final(self)@.objects.len(),
    {
        if self.objects.len() == 0 {
            proof {
                self.objects@.unique_seq_to_set();
                assert(self@.objects =~= old(self)@.objects.filter(
                    |o: u64| reachable(old(self)@, o),
                ));
                assert(self@.edges =~= old(self)@.edges.filter(
                    |e: (u64, u64)|
                        reachable(old(self)@, e.0) && (!old(self)@.objects.contains(e.1)
                            || reachable(old(self)@, e.1)),
                ));
            }
            return 0;
        }
        let marked = self.mark_reachable();
        let mut kept_objects: Vec<u64> = Vec::new();
        let mut i: usize = 0;
        while i < self.objects.len()
            invariant
                i <= self.objects@.len(),
                self.objects@.no_duplicates(),
                kept_objects@.no_duplicates(),
                kept_objects@.len() <= i,
                forall|y: u64|
                    kept_objects@.contains(y) <==> self.objects@.subrange(0, i as int).contains(y)
                        && marked@.contains(y),
            decreases self.objects@.len() - i,
        {
            let y = self.objects[i];
            if vec_contains(&marked, y) {
                proof {
                    lemma_unique_prefix_absent(self.objects@, i as int);
                    lemma_push_unique(kept_objects@, y);
                }
                kept_objects.push(y);
            }
            proof {
                assert(self.objects@.subrange(0, (i + 1) as int) =~= self.objects@.subrange(
                    0,
                    i as int,
                ).push(self.objects@[i as int]));
            }
            i = i + 1;
        }
        let mut kept_edges: Vec<(u64, u64)> = Vec::new();
        let mut k: usize = 0;
        while k < self.edges.len()
            invariant
                k <= self.edges@.len(),
                self.edges@.no_duplicates(),
                kept_edges@.no_duplicates(),
                forall|e: (u64, u64)|
                    kept_edges@.contains(e) <==> self.edges@.subrange(0, k as int).contains(e) && (
                    marked@.contains(e.0) && (marked@.contains(e.1) || !self.objects@.contains(
                        e.1,
                    ))),
            decreases self.edges@.len() - k,
        {
            let e = self.edges[k];
            if vec_contains(&marked, e.0) && (vec_contains(&marked, e.1) || !vec_contains(
                &self.objects,
                e.1,
            )) {
                proof {
                    lemma_unique_prefix_absent(self.edges@, k as int);
                    lemma_push_unique(kept_edges@, e);
                }
                kept_edges.push(e);
            }
            proof {
                assert(self.edges@.subrange(0, (k + 1) as int) =~= self.edges@.subrange(
                    0,
                    k as int,
                ).push(self.edges@[k as int]));
            }
            k = k + 1;
        }
        proof {
            assert(self.objects@.subrange(0, self.objects@.len() as int) =~= self.objects@);
            assert(self.edges@.subrange(0, self.edges@.len() as int) =~= self.edges@);
        }
        let removed = self.objects.len() - kept_objects.len();
        self.objects = kept_objects;
        self.edges = kept_edges;
        proof {
            assert(self@.objects =~= old(self)@.objects.filter(
                |o: u64| reachable(old(self)@, o),
            ));
            assert(self@.edges =~= old(self)@.edges.filter(
                |e: (u64, u64)|
                    reachable(old(self)@, e.0) && (!old(self)@.objects.contains(e.1) || reachable(
                        old(self)@,
                        e.1,
                    )),
            ));
            // every root survives: roots are reachable, hence marked
            assert forall|r: u64| self@.roots.contains(r) implies self@.objects.contains(r) by {
                lemma_root_reachable(old(self)@, r);
            }
            old(self).objects@.unique_seq_to_set();
            self.objects@.unique_seq_to_set();
        }
        removed
    }
}

} // verus!
