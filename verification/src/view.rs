use vstd::prelude::*;

verus! {

/// The abstract state of a reachability tracker: the registered handles, the
/// subset of them that are roots, and the directed reference edges. A pair
/// `(a, b)` in `edges` records that handle `a` references handle `b`.
#[verifier::ext_equal]
pub struct GcView {
    pub objects: Set<u64>,
    pub roots: Set<u64>,
    pub edges: Set<(u64, u64)>,
}

impl GcView {
    /// The outgoing-edge targets recorded for the source handle `obj`.
    pub open spec fn refs_of(self, obj: u64) -> Set<u64> {
        Set::new(|t: u64| self.edges.contains((obj, t)))
    }

    /// Well-formedness: the state is finite, every root is a registered
    /// handle, every edge leaves a registered handle, and the null handle is
    /// never stored anywhere.
    pub open spec fn wf(self) -> bool {
        &&& self.objects.finite()
        &&& self.roots.finite()
        &&& self.edges.finite()
        &&& !self.objects.contains(0)
        &&& forall|r: u64| self.roots.contains(r) ==> self.objects.contains(r)
        &&& forall|e: (u64, u64)| #[trigger]
            self.edges.contains(e) ==> self.objects.contains(e.0) && e.1 != 0
    }
}

} // verus!
