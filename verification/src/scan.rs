//! Trait for a value that can live in the garbage collector.
use crate::gc::Gc;
use vstd::prelude::*;

verus! {

/// Ephemeral context used during a scan: a value reports the managed
/// pointers it contains by pushing them here.
pub struct Context {
    /// Queue of reported pointers, in the order they were reported.
    pub gray: Vec<Gc>,
}

impl Context {
    pub fn new() -> (ctx: Context)
        ensures
            ctx.gray@ == Seq::<Gc>::empty(),
    {
        Context { gray: Vec::new() }
    }

    /// Report one contained managed pointer.
    pub fn mark(&mut self, ptr: Gc)
        ensures
            final(self).gray@ == old(self).gray@.push(ptr),
    {
        self.gray.push(ptr);
    }
}

/// The capability of a heap-eligible value: enumerating the managed
/// pointers it contains.
///
/// Soundness rests on `scan` reporting exactly the contained pointers,
/// which is what its contract demands: missing an edge would cause
/// premature collection, and a duplicate is harmless (promotion to gray is
/// idempotent). The collector derives rooting and unrooting from the same
/// enumeration: transferring a value into or out of the heap graph adjusts
/// the root count of each pointer that `scan` reports.
pub trait Scan {
    /// The managed pointers contained in this value, in scan order.
    /// Every implementation in this crate spells it out; left to its
    /// default, a value reports no pointers.
    open spec fn gc_ptrs(&self) -> Seq<Gc> {
        Seq::empty()
    }

    /// Push exactly the contained managed pointers into the context.
    fn scan(&self, ctx: &mut Context)
        ensures
            final(ctx).gray@ == old(ctx).gray@ + self.gc_ptrs(),
    ;
}

} // verus!
