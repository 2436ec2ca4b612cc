//! `Gc` smart handle and the heap header it points at.
use crate::scan::Context;
use crate::scan::Scan;
use vstd::prelude::*;

verus! {

/// External handle to a heap object owned by a `Collector`: the index of
/// the object's slot in the collector's arena. A handle counts as a root
/// of its object while the collector's bookkeeping says so; handles are
/// rooted by `Collector::alloc` and `Collector::root_ptr` and unrooted by
/// `Collector::unroot_ptr` or by transfer into the heap graph during
/// `alloc`.
#[derive(Debug, Clone, Copy, PartialEq, Eq, Structural)]
pub struct Gc {
    ix: usize,
}

impl Gc {
    /// The slot index this handle points at.
    pub closed spec fn id(self) -> int {
        self.ix as int
    }

    pub(crate) fn from_inner(ix: usize) -> (gc: Gc)
        ensures
            gc.id() == ix,
    {
        Gc { ix }
    }

    pub(crate) fn inner(self) -> (ix: usize)
        ensures
            ix == self.id(),
    {
        self.ix
    }
}

impl Scan for Gc {
    /// A handle contains exactly itself.
    open spec fn gc_ptrs(&self) -> Seq<Gc> {
        seq![*self]
    }

    fn scan(&self, ctx: &mut Context) {
        ctx.mark(*self);
        proof {
            assert(final(ctx).gray@ =~= old(ctx).gray@ + self.gc_ptrs());
        }
    }
}

/// Tri-color marking state of a heap object.
#[derive(Debug, Clone, Copy, PartialEq, Eq, Structural)]
pub enum GcColor {
    /// Condemned: will be collected if still white at sweep.
    White,
    /// Reachable from a root; contained pointers not yet visited.
    Gray,
    /// Reachable from a root; contained pointers have been marked gray.
    Black,
}

/// The header wrapping every heap allocation: the count of outstanding
/// external root handles, the tri-color mark, the link in the collector's
/// intrusive object list (a slot index), and the payload.
pub struct GcBox<T> {
    pub root: u32,
    pub color: GcColor,
    pub next: Option<usize>,
    pub value: T,
}

impl<T> GcBox<T> {
    pub fn new(root: u32, color: GcColor, next: Option<usize>, value: T) -> (gc_box: GcBox<T>)
        ensures
            gc_box.root == root,
            gc_box.color == color,
            gc_box.next == next,
            gc_box.value == value,
    {
        GcBox { root, color, next, value }
    }

    /// Decrement the root count, saturating at zero: a decrement may come
    /// both from the drop of an outer handle and from the transfer of an
    /// inner handle into the graph.
    pub fn dec(&mut self)
        ensures
            final(self).root == if old(self).root > 0 {
                (old(self).root - 1) as u32
            } else {
                0u32
            },
            final(self).color == old(self).color,
            final(self).next == old(self).next,
            final(self).value == old(self).value,
    {
        if self.root > 0 {
            self.root = self.root - 1;
        }
    }

    /// Increment the root count.
    pub fn incr(&mut self)
        requires
            old(self).root < u32::MAX,
        ensures
            final(self).root == old(self).root + 1,
            final(self).color == old(self).color,
            final(self).next == old(self).next,
            final(self).value == old(self).value,
    {
        self.root = self.root + 1;
    }

    pub fn value(&self) -> (value: &T)
        ensures
            value == self.value,
    {
        &self.value
    }

    /// Whether the object counts as part of the external root set.
    #[inline(always)]
    pub fn is_root(&self) -> (r: bool)
        ensures
            r == (self.root > 0),
    {
        self.root > 0
    }
}

} // verus!
