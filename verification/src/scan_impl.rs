//! `Scan` implementations for plain values and simple containers.
use crate::gc::Gc;
use crate::scan::Context;
use crate::scan::Scan;
use vstd::prelude::*;

verus! {

impl Scan for () {
    open spec fn gc_ptrs(&self) -> Seq<Gc> {
        Seq::empty()
    }

    fn scan(&self, ctx: &mut Context) {
        proof {
            assert(final(ctx).gray@ =~= old(ctx).gray@ + self.gc_ptrs());
        }
    }
}

impl Scan for bool {
    open spec fn gc_ptrs(&self) -> Seq<Gc> {
        Seq::empty()
    }

    fn scan(&self, ctx: &mut Context) {
        proof {
            assert(final(ctx).gray@ =~= old(ctx).gray@ + self.gc_ptrs());
        }
    }
}

impl Scan for u8 {
    open spec fn gc_ptrs(&self) -> Seq<Gc> {
        Seq::empty()
    }

    fn scan(&self, ctx: &mut Context) {
        proof {
            assert(final(ctx).gray@ =~= old(ctx).gray@ + self.gc_ptrs());
        }
    }
}

impl Scan for u16 {
    open spec fn gc_ptrs(&self) -> Seq<Gc> {
        Seq::empty()
    }

    fn scan(&self, ctx: &mut Context) {
        proof {
            assert(final(ctx).gray@ =~= old(ctx).gray@ + self.gc_ptrs());
        }
    }
}

impl Scan for u32 {
    open spec fn gc_ptrs(&self) -> Seq<Gc> {
        Seq::empty()
    }

    fn scan(&self, ctx: &mut Context) {
        proof {
            assert(final(ctx).gray@ =~= old(ctx).gray@ + self.gc_ptrs());
        }
    }
}

impl Scan for u64 {
    open spec fn gc_ptrs(&self) -> Seq<Gc> {
        Seq::empty()
    }

    fn scan(&self, ctx: &mut Context) {
        proof {
            assert(final(ctx).gray@ =~= old(ctx).gray@ + self.gc_ptrs());
        }
    }
}

impl Scan for u128 {
    open spec fn gc_ptrs(&self) -> Seq<Gc> {
        Seq::empty()
    }

    fn scan(&self, ctx: &mut Context) {
        proof {
            assert(final(ctx).gray@ =~= old(ctx).gray@ + self.gc_ptrs());
        }
    }
}

impl Scan for i8 {
    open spec fn gc_ptrs(&self) -> Seq<Gc> {
        Seq::empty()
    }

    fn scan(&self, ctx: &mut Context) {
        proof {
            assert(final(ctx).gray@ =~= old(ctx).gray@ + self.gc_ptrs());
        }
    }
}

impl Scan for i16 {
    open spec fn gc_ptrs(&self) -> Seq<Gc> {
        Seq::empty()
    }

    fn scan(&self, ctx: &mut Context) {
        proof {
            assert(final(ctx).gray@ =~= old(ctx).gray@ + self.gc_ptrs());
        }
    }
}

impl Scan for i32 {
    open spec fn gc_ptrs(&self) -> Seq<Gc> {
        Seq::empty()
    }

    fn scan(&self, ctx: &mut Context) {
        proof {
            assert(final(ctx).gray@ =~= old(ctx).gray@ + self.gc_ptrs());
        }
    }
}

impl Scan for i64 {
    open spec fn gc_ptrs(&self) -> Seq<Gc> {
        Seq::empty()
    }

    fn scan(&self, ctx: &mut Context) {
        proof {
            assert(final(ctx).gray@ =~= old(ctx).gray@ + self.gc_ptrs());
        }
    }
}

impl Scan for i128 {
    open spec fn gc_ptrs(&self) -> Seq<Gc> {
        Seq::empty()
    }

    fn scan(&self, ctx: &mut Context) {
        proof {
            assert(final(ctx).gray@ =~= old(ctx).gray@ + self.gc_ptrs());
        }
    }
}

impl Scan for String {
    open spec fn gc_ptrs(&self) -> Seq<Gc> {
        Seq::empty()
    }

    fn scan(&self, ctx: &mut Context) {
        proof {
            assert(final(ctx).gray@ =~= old(ctx).gray@ + self.gc_ptrs());
        }
    }
}

impl<T: Scan> Scan for Option<T> {
    /// An optional value contains what its payload contains, if any.
    open spec fn gc_ptrs(&self) -> Seq<Gc> {
        match self {
            Some(value) => value.gc_ptrs(),
            None => Seq::empty(),
        }
    }

    fn scan(&self, ctx: &mut Context) {
        match self {
            Some(value) => {
                value.scan(ctx);
            }
            None => {
                proof {
                    assert(final(ctx).gray@ =~= old(ctx).gray@ + self.gc_ptrs());
                }
            }
        }
    }
}

/// The managed pointers of a sequence of values, in order.
pub open spec fn seq_gc_ptrs<T: Scan>(items: Seq<T>) -> Seq<Gc>
    decreases items.len(),
{
    if items.len() == 0 {
        Seq::empty()
    } else {
        seq_gc_ptrs(items.drop_last()) + items.last().gc_ptrs()
    }
}

impl<T: Scan> Scan for Vec<T> {
    /// A vector contains what its items contain, in order.
    open spec fn gc_ptrs(&self) -> Seq<Gc> {
        seq_gc_ptrs(self@)
    }

    fn scan(&self, ctx: &mut Context) {
        let mut k: usize = 0;
        while k < self.len()
            invariant
                k <= self@.len(),
                ctx.gray@ == old(ctx).gray@ + seq_gc_ptrs(self@.take(k as int)),
            decreases self@.len() - k,
        {
            self[k].scan(ctx);
            proof {
                assert(self@.take(k as int + 1).drop_last() =~= self@.take(k as int));
                assert(self@.take(k as int + 1).last() == self@[k as int]);
                assert(ctx.gray@ =~= old(ctx).gray@ + seq_gc_ptrs(self@.take(k as int + 1)));
            }
            k = k + 1;
        }
        proof {
            assert(self@.take(self@.len() as int) =~= self@);
        }
    }
}

} // verus!
