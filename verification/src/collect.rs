//! The collector: owner of all managed heap objects.
//!
//! Objects live in an arena of slots; a `Gc` handle is the index of a
//! slot. The collector threads the live objects onto an intrusive list
//! through their headers (`head` and the per-header `next` index, most
//! recently allocated first), runs the Wake -> Mark -> Sweep -> Sleep
//! state machine over them, and reclaims the objects that are neither
//! externally rooted nor reachable from a rooted object through `Scan`.
use crate::gc::Gc;
use crate::gc::GcBox;
use crate::gc::GcColor;
use crate::scan::Context;
use crate::scan::Scan;
use vstd::prelude::*;
use vstd::seq_lib::*;
use vstd::set_lib::*;

verus! {

/// The collector's phase: exactly one is active at a time.
#[derive(Debug, Clone, Copy, PartialEq, Eq, Structural)]
pub enum CollectState {
    /// Walking the object list, graying every externally rooted object.
    Wake,
    /// Draining the gray queue, scanning each object and blackening it.
    Mark,
    /// Walking the object list, freeing white objects and recoloring
    /// black ones white.
    Sweep,
    /// At rest between collection cycles.
    Sleep,
}

/// The heap owner: allocates, enumerates and reclaims managed objects.
pub struct Collector<T> {
    /// The arena: a `Gc` handle indexes this vector. A `None` slot is
    /// free for reuse.
    slots: Vec<Option<GcBox<T>>>,
    /// Indices of every free slot.
    free: Vec<usize>,
    /// Head of the intrusive object list: the most recent allocation.
    head: Option<usize>,
    state: CollectState,
    /// Cursor of the wake phase.
    wake: Option<usize>,
    /// Queue of gray objects that still need to be scanned.
    gray: Vec<Gc>,
    /// Cursor of the sweep phase.
    sweep: Option<usize>,
    /// The surviving list node just before the sweep cursor, used to
    /// unlink a white node in place.
    sweep_prev: Option<usize>,
    /// The object list as a sequence of slot indices, head first.
    order: Ghost<Seq<usize>>,
    /// Position of the wake or sweep cursor within `order`.
    pos: Ghost<int>,
}

impl<T: Scan> Collector<T> {
    /// Number of arena slots, free ones included.
    pub closed spec fn n_slots(self) -> int {
        self.slots@.len() as int
    }

    /// Whether slot `i` holds a live object.
    pub closed spec fn valid(self, i: int) -> bool {
        0 <= i < self.slots@.len() && self.slots@[i] is Some
    }

    /// The header of the object in slot `i`.
    pub closed spec fn box_of(self, i: int) -> GcBox<T> {
        self.slots@[i]->0
    }

    /// The external root count of the object in slot `i`.
    pub open spec fn root_of(self, i: int) -> u32 {
        self.box_of(i).root
    }

    /// The color of the object in slot `i`.
    pub open spec fn color_of(self, i: int) -> GcColor {
        self.box_of(i).color
    }

    /// The payload of the object in slot `i`.
    pub open spec fn value_of(self, i: int) -> T {
        self.box_of(i).value
    }

    /// The list link of the object in slot `i`.
    pub open spec fn next_of(self, i: int) -> Option<usize> {
        self.box_of(i).next
    }

    /// The managed pointers contained in the object in slot `i`.
    pub open spec fn edges(self, i: int) -> Seq<Gc> {
        self.value_of(i).gc_ptrs()
    }

    /// The collector's current phase.
    pub closed spec fn phase(self) -> CollectState {
        self.state
    }

    /// The object list, head (most recent allocation) first.
    pub closed spec fn order_view(self) -> Seq<usize> {
        self.order@
    }

    /// Number of live objects.
    pub open spec fn live_count(self) -> int {
        self.order_view().len() as int
    }

    /// Whether object `i` contains an edge to object `j`.
    pub open spec fn has_edge(self, i: int, j: int) -> bool {
        exists|k: int| 0 <= k < self.edges(i).len() && self.edges(i)[k].id() == j
    }

    /// A path through the heap graph: it starts at an externally rooted
    /// object and follows `Scan` edges.
    pub open spec fn is_gc_path(self, path: Seq<int>) -> bool {
        &&& path.len() > 0
        &&& self.valid(path[0])
        &&& self.root_of(path[0]) > 0
        &&& forall|k: int|
            0 <= k < path.len() - 1 ==> self.valid(#[trigger] path[k]) && self.valid(
                path[k + 1],
            ) && self.has_edge(path[k], path[k + 1])
    }

    /// Whether the object in slot `i` is reachable from some externally
    /// rooted object via `Scan` edges.
    pub open spec fn reachable(self, i: int) -> bool {
        reachable_in(self, i)
    }

    /// Every edge of object `i` points at a live object.
    pub open spec fn edges_valid_at(self, i: int) -> bool {
        forall|k: int|
            0 <= k < self.edges(i).len() ==> self.valid(#[trigger] self.edges(i)[k].id())
    }

    /// Objects that are certain to survive the current collection cycle:
    /// while sweeping, those the cursor has passed and those marked
    /// black; in every other phase, every live object (nothing is freed
    /// outside the sweep phase).
    pub open spec fn committed(self, i: int) -> bool {
        match self.phase() {
            CollectState::Sweep => self.valid(i) && ((exists|j: int|
                0 <= j < self.spec_pos() && self.order_view()[j] == i as usize) || self.color_of(
                i,
            ) is Black),
            _ => self.valid(i),
        }
    }

    /// Position of the wake or sweep cursor within the object list.
    pub closed spec fn spec_pos(self) -> int {
        self.pos@
    }



    /// The raw free-slot list.
    pub closed spec fn free_list(self) -> Seq<usize> {
        self.free@
    }

    /// The raw head of the object list.
    pub closed spec fn head_field(self) -> Option<usize> {
        self.head
    }

    /// The raw sweep cursor field.
    pub closed spec fn sweep_cursor_field(self) -> Option<usize> {
        self.sweep
    }

    /// The raw previous-survivor field of the sweep.
    pub closed spec fn sweep_prev_field(self) -> Option<usize> {
        self.sweep_prev
    }

    /// The raw gray queue contents.
    pub closed spec fn gray_field(self) -> Seq<Gc> {
        self.gray@
    }

    /// The raw wake cursor field.
    pub closed spec fn wake_field(self) -> Option<usize> {
        self.wake
    }

    /// The list node at a position, or `None` past the end.
    pub closed spec fn cursor_at(self, k: int) -> Option<usize> {
        if 0 <= k < self.order@.len() {
            Some(self.order@[k])
        } else {
            None
        }
    }

    /// The object list is exactly the live slots, linked in order and
    /// without repetition, and the free list is exactly the free slots.
    pub closed spec fn list_wf(self) -> bool {
        let ord = self.order@;
        &&& ord.no_duplicates()
        &&& forall|k: int| 0 <= k < ord.len() ==> self.valid(#[trigger] ord[k] as int)
        &&& self.head == self.cursor_at(0)
        &&& forall|k: int|
            0 <= k < ord.len() ==> #[trigger] self.next_of(ord[k] as int) == self.cursor_at(
                k + 1,
            )
        &&& forall|i: int| self.valid(i) ==> ord.contains(i as usize)
        &&& self.free@.no_duplicates()
        &&& forall|k: int|
            0 <= k < self.free@.len() ==> (#[trigger] self.free@[k] as int) < self.n_slots()
                && !self.valid(self.free@[k] as int)
        &&& forall|i: int|
            0 <= i < self.n_slots() && !self.valid(i) ==> self.free@.contains(i as usize)
    }

    /// The gray queue holds exactly the gray objects, each once.
    pub closed spec fn gray_wf(self) -> bool {
        &&& self.gray@.map_values(|ptr: Gc| ptr.id()).no_duplicates()
        &&& forall|k: int|
            0 <= k < self.gray@.len() ==> self.valid(#[trigger] self.gray@[k].id())
                && self.color_of(self.gray@[k].id()) is Gray
        &&& forall|i: int|
            self.valid(i) && self.color_of(i) is Gray ==> self.gray@.map_values(
                |ptr: Gc| ptr.id(),
            ).contains(i)
    }

    /// At rest: no cursors, no gray queue, every object white, every edge
    /// live.
    pub closed spec fn sleep_inv(self) -> bool {
        &&& self.gray@.len() == 0
        &&& self.wake is None
        &&& self.sweep is None
        &&& self.sweep_prev is None
        &&& forall|i: int| self.valid(i) ==> #[trigger] self.color_of(i) is White
        &&& forall|i: int| self.valid(i) ==> #[trigger] self.edges_valid_at(i)
    }

    /// Waking: the cursor has grayed the rooted objects behind it; no
    /// object is black yet.
    pub closed spec fn wake_inv(self) -> bool {
        let ord = self.order@;
        &&& self.sweep is None
        &&& self.sweep_prev is None
        &&& 0 <= self.pos@ <= ord.len()
        &&& self.wake == self.cursor_at(self.pos@)
        &&& self.gray_wf()
        &&& forall|j: int|
            0 <= j < self.pos@ && self.root_of(#[trigger] ord[j] as int) > 0 ==> self.color_of(
                ord[j] as int,
            ) is Gray
        &&& forall|j: int|
            self.pos@ <= j < ord.len() ==> self.color_of(#[trigger] ord[j] as int) is White
        &&& forall|i: int| self.valid(i) ==> !(#[trigger] self.color_of(i) is Black)
        &&& forall|i: int|
            self.valid(i) && #[trigger] self.color_of(i) is Gray ==> self.root_of(i) > 0
        &&& forall|i: int| self.valid(i) ==> #[trigger] self.edges_valid_at(i)
    }

    /// Marking: rooted objects are discovered, black objects only point
    /// at discovered objects, and every discovered object is reachable.
    pub closed spec fn mark_inv(self) -> bool {
        &&& self.wake is None
        &&& self.sweep is None
        &&& self.sweep_prev is None
        &&& self.gray_wf()
        &&& forall|i: int|
            self.valid(i) && #[trigger] self.root_of(i) > 0 ==> !(self.color_of(i) is White)
        &&& forall|i: int|
            self.valid(i) && #[trigger] self.color_of(i) is Black ==> self.black_edges_ok(i)
        &&& forall|i: int|
            self.valid(i) && !(#[trigger] self.color_of(i) is White) ==> self.reachable(i)
        &&& forall|i: int| self.valid(i) ==> #[trigger] self.edges_valid_at(i)
    }

    /// Every edge of a black object points at a discovered (non-white)
    /// object.
    pub open spec fn black_edges_ok(self, i: int) -> bool {
        forall|k: int|
            0 <= k < self.edges(i).len() ==> !(self.color_of(
                #[trigger] self.edges(i)[k].id(),
            ) is White)
    }

    /// Sweeping: the cursor has recolored the survivors behind it white
    /// and freed the condemned; ahead of it everything is white or black,
    /// the survivors-to-be point only at survivors-to-be, white objects
    /// ahead are unreachable and survivors are reachable.
    pub closed spec fn sweep_inv(self) -> bool {
        let ord = self.order@;
        &&& self.wake is None
        &&& self.gray@.len() == 0
        &&& 0 <= self.pos@ <= ord.len()
        &&& self.sweep == self.cursor_at(self.pos@)
        &&& self.sweep_prev == (if self.pos@ == 0 {
            None
        } else {
            Some(ord[self.pos@ - 1])
        })
        &&& forall|j: int|
            0 <= j < self.pos@ ==> self.color_of(#[trigger] ord[j] as int) is White
        &&& forall|j: int|
            self.pos@ <= j < ord.len() ==> !(self.color_of(#[trigger] ord[j] as int) is Gray)
        &&& forall|j: int|
            self.pos@ <= j < ord.len() && self.root_of(#[trigger] ord[j] as int) > 0
                ==> self.color_of(ord[j] as int) is Black
        &&& forall|i: int| self.committed(i) ==> #[trigger] self.committed_edges_ok(i)
        &&& forall|j: int|
            self.pos@ <= j < ord.len() && self.color_of(#[trigger] ord[j] as int) is White
                ==> !self.reachable(ord[j] as int)
        &&& forall|i: int| #[trigger] self.committed(i) ==> self.reachable(i)
    }

    /// Every edge of a surviving object points at a surviving object.
    pub open spec fn committed_edges_ok(self, i: int) -> bool {
        forall|k: int|
            0 <= k < self.edges(i).len() ==> self.committed(#[trigger] self.edges(i)[k].id())
    }

    /// The collector's full invariant, whatever the phase.
    pub closed spec fn inv(self) -> bool {
        &&& self.list_wf()
        &&& match self.state {
            CollectState::Sleep => self.sleep_inv(),
            CollectState::Wake => self.wake_inv(),
            CollectState::Mark => self.mark_inv(),
            CollectState::Sweep => self.sweep_inv(),
        }
    }

    pub fn new() -> (collector: Collector<T>)
        ensures
            collector.inv(),
            collector.phase() is Sleep,
            collector.live_count() == 0,
            forall|i: int| !collector.valid(i),
    {
        let collector = Collector {
            slots: Vec::new(),
            free: Vec::new(),
            head: None,
            state: CollectState::Sleep,
            wake: None,
            gray: Vec::new(),
            sweep: None,
            sweep_prev: None,
            order: Ghost(Seq::empty()),
            pos: Ghost(0),
        };
        collector
    }


    /// Box a value into the heap: the object is prepended to the object
    /// list, colored white, and handed out behind a handle that is its
    /// one external root. Managed pointers inside the value are
    /// transferred out of the external root set and into the graph,
    /// since a graph node now owns them. Allocation is legal while the
    /// collector sleeps or while it sweeps; a node allocated during a
    /// sweep goes in front of the sweep cursor, so it is never reclaimed
    /// in that cycle.
    #[verifier::rlimit(100)]
    pub fn allocate(&mut self, value: T) -> (ptr: Gc)
        requires
            old(self).inv(),
            old(self).phase() is Sleep || old(self).phase() is Sweep,
            forall|k: int|
                0 <= k < value.gc_ptrs().len() ==> old(self).committed(
                    (#[trigger] value.gc_ptrs()[k]).id(),
                ),
        ensures
            final(self).inv(),
            final(self).phase() == old(self).phase(),
            !old(self).valid(ptr.id()),
            final(self).valid(ptr.id()),
            final(self).value_of(ptr.id()) == value,
            final(self).root_of(ptr.id()) == 1,
            final(self).color_of(ptr.id()) is White,
            final(self).committed(ptr.id()),
            forall|i: int| i != ptr.id() ==> (final(self).valid(i) <==> old(self).valid(i)),
            forall|i: int|
                old(self).valid(i) ==> #[trigger] final(self).value_of(i) == old(self).value_of(
                    i,
                ),
            forall|i: int|
                old(self).valid(i) ==> #[trigger] final(self).color_of(i) == old(self).color_of(
                    i,
                ),
            forall|i: int|
                old(self).valid(i) ==> #[trigger] final(self).root_of(i) == sat_sub(
                    old(self).root_of(i),
                    count_in(value.gc_ptrs(), i),
                ),
            forall|i: int| old(self).committed(i) ==> final(self).committed(i),
            final(self).live_count() == old(self).live_count() + 1,
            final(self).order_view()[0] == ptr.id(),
            final(self).order_view().skip(1) == old(self).order_view(),
    {
        let ghost ptrs = value.gc_ptrs();

        // Enumerate the managed pointers contained in the value.
        let mut ctx = Context::new();
        value.scan(&mut ctx);
        proof {
            assert(ctx.gray@ =~= ptrs);
            assert forall|j: int| 0 <= j < ptrs.len() implies old(self).valid(
                (#[trigger] ptrs[j]).id(),
            ) by {
                assert(old(self).committed(ptrs[j].id()));
            };
        }

        // Transfer each contained pointer into the graph: the value is
        // about to be owned by a graph node, so its handles stop being
        // external roots.
        let mut k: usize = 0;
        while k < ctx.gray.len()
            invariant
                k <= ctx.gray@.len(),
                ctx.gray@ == ptrs,
                forall|j: int| 0 <= j < ptrs.len() ==> old(self).valid((#[trigger] ptrs[j]).id()),
                self.slots@.len() == old(self).slots@.len(),
                forall|i: int| self.valid(i) <==> old(self).valid(i),
                forall|i: int|
                    old(self).valid(i) ==> #[trigger] self.value_of(i) == old(self).value_of(i),
                forall|i: int|
                    old(self).valid(i) ==> #[trigger] self.color_of(i) == old(self).color_of(i),
                forall|i: int|
                    old(self).valid(i) ==> #[trigger] self.next_of(i) == old(self).next_of(i),
                forall|i: int|
                    old(self).valid(i) ==> #[trigger] self.root_of(i) == sat_sub(
                        old(self).root_of(i),
                        count_in(ptrs.take(k as int), i),
                    ),
                self.free@ == old(self).free@,
                self.head == old(self).head,
                self.state == old(self).state,
                self.gray@ == old(self).gray@,
                self.sweep == old(self).sweep,
                self.sweep_prev == old(self).sweep_prev,
                self.wake == old(self).wake,
                self.order@ == old(self).order@,
                self.pos@ == old(self).pos@,
            decreases ctx.gray@.len() - k,
        {
            let p = ctx.gray[k];
            proof {
                assert(ptrs[k as int] == p);
                assert(self.valid(p.id()));
            }
            let ghost mid = *self;
            let ix = p.inner();
            match &mut self.slots[ix] {
                Some(gc_box) => gc_box.dec(),
                None => {
                    proof {
                        assert(false);
                    }
                }
            }
            proof {
                assert forall|i: int| old(self).valid(i) implies #[trigger] self.value_of(i)
                    == old(self).value_of(i) by {
                    if i != p.id() {
                        assert(self.box_of(i) == mid.box_of(i));
                    }
                    assert(mid.value_of(i) == old(self).value_of(i));
                };
                assert forall|i: int| old(self).valid(i) implies #[trigger] self.color_of(i)
                    == old(self).color_of(i) by {
                    if i != p.id() {
                        assert(self.box_of(i) == mid.box_of(i));
                    }
                    assert(mid.color_of(i) == old(self).color_of(i));
                };
                assert forall|i: int| old(self).valid(i) implies #[trigger] self.next_of(i)
                    == old(self).next_of(i) by {
                    if i != p.id() {
                        assert(self.box_of(i) == mid.box_of(i));
                    }
                    assert(mid.next_of(i) == old(self).next_of(i));
                };
                assert forall|i: int| old(self).valid(i) implies #[trigger] self.root_of(i)
                    == sat_sub(old(self).root_of(i), count_in(ptrs.take(k as int + 1), i)) by {
                    lemma_count_in_take_succ(ptrs, i, k as int);
                    assert(mid.root_of(i) == sat_sub(
                        old(self).root_of(i),
                        count_in(ptrs.take(k as int), i),
                    ));
                    if i != p.id() {
                        assert(self.box_of(i) == mid.box_of(i));
                    } else {
                        assert(self.root_of(i) == if mid.root_of(i) > 0 {
                            (mid.root_of(i) - 1) as u32
                        } else {
                            0u32
                        });
                    }
                };
            }
            k = k + 1;
        }
        proof {
            assert(ptrs.take(ptrs.len() as int) =~= ptrs);
        }
        let ghost unrooted = *self;

        // Box the value and prepend it to the object list, reusing a
        // free slot when one exists.
        let gc_box = GcBox::new(1, GcColor::White, self.head, value);
        let ghost mut reused: bool = false;
        let ix: usize = match self.free.pop() {
            Some(ix) => {
                self.slots.set(ix, Some(gc_box));
                proof {
                    reused = true;
                }
                ix
            }
            None => {
                let ix = self.slots.len();
                self.slots.push(Some(gc_box));
                ix
            }
        };
        proof {
            if reused {
                assert(unrooted.free@.len() > 0);
                assert(ix == unrooted.free@.last());
                assert(self.free@ == unrooted.free@.drop_last());
            } else {
                assert(self.free@ == unrooted.free@);
                assert(ix as int == unrooted.n_slots());
            }
        }
        self.head = Some(ix);
        proof {
            self.order@ = seq![ix] + unrooted.order@;
        }

        // An allocation while the sweep looks at the head of the list:
        // the new node becomes the anchor for a later unlink of its
        // successor.
        if matches!(self.state, CollectState::Sweep) {
            if self.sweep_prev.is_none() {
                self.sweep_prev = Some(ix);
            }
            proof {
                self.pos@ = self.pos@ + 1;
            }
        }

        let ptr = Gc::from_inner(ix);
        proof {
            broadcast use vstd::std_specs::vec::axiom_spec_len;

            assert(self.slots.len() == self.slots@.len());
            assert(old(self).slots.len() == old(self).slots@.len());
            let pre = *old(self);
            let post = *self;
            let ord = pre.order@;
            let ordp = post.order@;

            assert(!pre.valid(ix as int));
            assert(!unrooted.valid(ix as int));
            assert(!ord.contains(ix));
            assert(post.valid(ix as int));
            assert(post.box_of(ix as int) == GcBox::<T> {
                root: 1u32,
                color: GcColor::White,
                next: pre.head,
                value,
            });
            assert(forall|i: int| i != ix as int ==> (post.valid(i) <==> pre.valid(i)));
            assert forall|i: int| pre.valid(i) implies #[trigger] post.box_of(i)
                == unrooted.box_of(i) by {};

            // The object list is well formed again.
            assert(ordp == seq![ix] + ord);
            assert(ordp.no_duplicates()) by {
                assert forall|a: int, b: int| 0 <= a < b < ordp.len() implies ordp[a]
                    != ordp[b] by {
                    if a == 0 {
                        assert(ordp[b] == ord[b - 1]);
                        assert(ord.contains(ord[b - 1]));
                    } else {
                        assert(ordp[a] == ord[a - 1]);
                        assert(ordp[b] == ord[b - 1]);
                    }
                };
            };
            assert forall|q: int| 0 <= q < ordp.len() implies post.valid(
                #[trigger] ordp[q] as int,
            ) by {
                if q > 0 {
                    assert(ordp[q] == ord[q - 1]);
                    assert(pre.valid(ord[q - 1] as int));
                }
            };
            assert(post.head == post.cursor_at(0));
            assert forall|q: int| 0 <= q < ordp.len() implies post.next_of(
                #[trigger] ordp[q] as int,
            ) == post.cursor_at(q + 1) by {
                if q == 0 {
                    assert(post.next_of(ix as int) == pre.head);
                } else {
                    let j = q - 1;
                    assert(ordp[q] == ord[j]);
                    let i = ord[j] as int;
                    assert(pre.valid(i));
                    assert(pre.next_of(i) == pre.cursor_at(j + 1));
                    assert(post.box_of(i) == unrooted.box_of(i));
                    assert(unrooted.next_of(i) == pre.next_of(i));
                }
            };
            assert forall|i: int| post.valid(i) implies ordp.contains(i as usize) by {
                if i == ix as int {
                    assert(ordp[0] == ix);
                } else {
                    assert(pre.valid(i));
                    let q = choose|q: int| 0 <= q < ord.len() && ord[q] == i as usize;
                    assert(ordp[q + 1] == i as usize);
                }
            };
            // The free list is well formed again.
            assert(post.free@.no_duplicates());
            assert(pre.free@ == unrooted.free@);
            assert forall|q: int| 0 <= q < post.free@.len() implies (
            #[trigger] post.free@[q] as int) < post.n_slots() && !post.valid(
                post.free@[q] as int,
            ) by {
                if reused {
                    assert(post.free@[q] == pre.free@[q]);
                    assert(pre.free@[q] != pre.free@[pre.free@.len() - 1]);
                } else {
                    assert(post.free@[q] == pre.free@[q]);
                    assert((pre.free@[q] as int) < pre.n_slots());
                }
            };
            assert forall|i: int|
                0 <= i < post.n_slots() && !post.valid(i) implies post.free@.contains(
                i as usize,
            ) by {
                assert(i != ix as int);
                if i < pre.n_slots() {
                    assert(!pre.valid(i));
                    assert(pre.free@.contains(i as usize));
                    let q = choose|q: int| 0 <= q < pre.free@.len() && pre.free@[q] == i as usize;
                    if reused {
                        assert(pre.free@[pre.free@.len() - 1] == ix);
                        assert(q != pre.free@.len() - 1);
                        assert(post.free@[q] == i as usize);
                    } else {
                        assert(post.free@[q] == i as usize);
                    }
                }
            };
            assert(post.list_wf());

            // Reachability before allocation carries over.
            assert forall|i: int| pre.valid(i) implies #[trigger] post.edges(i) == pre.edges(
                i,
            ) by {
                assert(post.box_of(i) == unrooted.box_of(i));
                assert(unrooted.value_of(i) == pre.value_of(i));
            };
            assert forall|i: int| pre.valid(i) implies #[trigger] post.root_of(i) == sat_sub(
                pre.root_of(i),
                count_in(ptrs, i),
            ) by {
                assert(post.box_of(i) == unrooted.box_of(i));
                assert(unrooted.root_of(i) == sat_sub(pre.root_of(i), count_in(ptrs, i)));
            };
            assert forall|i: int| pre.valid(i) implies #[trigger] post.value_of(i)
                == pre.value_of(i) by {
                assert(post.box_of(i) == unrooted.box_of(i));
                assert(unrooted.value_of(i) == pre.value_of(i));
            };
            assert forall|i: int| pre.valid(i) implies #[trigger] post.color_of(i)
                == pre.color_of(i) by {
                assert(post.box_of(i) == unrooted.box_of(i));
                assert(unrooted.color_of(i) == pre.color_of(i));
            };
            Self::lemma_alloc_preserves_reachable(pre, post, ix as int, ptrs);
            let unit_path = seq![ix as int];
            assert(post.is_gc_path(unit_path) && unit_path.last() == ix as int);
            assert(post.reachable(ix as int)) by {
                reveal(reachable_in);
            }

            if pre.state is Sleep {
                assert forall|i: int| post.valid(i) implies #[trigger] post.color_of(
                    i,
                ) is White by {
                    if i != ix as int {
                        assert(pre.color_of(i) is White);
                    }
                };
                assert forall|i: int| post.valid(i) implies #[trigger] post.edges_valid_at(
                    i,
                ) by {
                    if i == ix as int {
                        assert forall|e: int| 0 <= e < post.edges(i).len() implies post.valid(
                            (#[trigger] post.edges(i)[e]).id(),
                        ) by {
                            assert(pre.valid(ptrs[e].id()));
                        };
                    } else {
                        assert(pre.edges_valid_at(i));
                        assert forall|e: int| 0 <= e < post.edges(i).len() implies post.valid(
                            (#[trigger] post.edges(i)[e]).id(),
                        ) by {
                            assert(pre.valid(pre.edges(i)[e].id()));
                        };
                    }
                };
                assert(post.sleep_inv());
                assert(post.inv());
            } else {
                // Sweeping: the new node joins the processed region.
                Self::lemma_alloc_sweep_reestablish(pre, post, ix, ptrs);
                assert(post.inv());
            }
            assert(post.order_view().skip(1) =~= pre.order_view());
        }
        ptr
    }


    /// Rank of the phase in a cycle's progress order: a cycle runs
    /// Wake, Mark, Sweep, Sleep.
    pub open spec fn phase_rank(self) -> int {
        match self.phase() {
            CollectState::Wake => 3,
            CollectState::Mark => 2,
            CollectState::Sweep => 1,
            CollectState::Sleep => 0,
        }
    }

    /// The condemned objects: live and white.
    pub closed spec fn white_set(self) -> Set<int> {
        Set::new(|i: int| self.valid(i) && self.color_of(i) is White)
    }

    pub closed spec fn white_count(self) -> int {
        self.white_set().len() as int
    }

    /// Progress within a phase: list nodes left to visit, or objects
    /// left to discover.
    pub closed spec fn measure1(self) -> int {
        match self.state {
            CollectState::Wake => self.order@.len() - self.pos@,
            CollectState::Mark => self.white_count(),
            CollectState::Sweep => self.order@.len() - self.pos@,
            CollectState::Sleep => 0,
        }
    }

    /// Secondary progress: the gray queue drains during marking.
    pub closed spec fn measure2(self) -> int {
        match self.state {
            CollectState::Mark => self.gray@.len() as int,
            _ => 0,
        }
    }

    /// The set of condemned objects is finite and no larger than the
    /// arena.
    proof fn lemma_white_set_finite(self)
        ensures
            self.white_set().finite(),
            self.white_set().len() <= self.n_slots(),
    {
        lemma_int_range(0, self.n_slots());
        assert(self.white_set().subset_of(set_int_range(0, self.n_slots())));
        lemma_len_subset(self.white_set(), set_int_range(0, self.n_slots()));
    }

    /// Whatever is reachable is live.
    proof fn lemma_reachable_valid(self, i: int)
        requires
            self.reachable(i),
        ensures
            self.valid(i),
    {
        reveal(reachable_in);
        let path = choose|path: Seq<int>| self.is_gc_path(path) && path.last() == i;
        self.lemma_path_nodes_valid(path);
        assert(path[path.len() - 1] == i);
    }

    /// One more edge extends reachability.
    proof fn lemma_reachable_step(self, a: int, b: int)
        requires
            self.reachable(a),
            self.valid(b),
            self.has_edge(a, b),
        ensures
            self.reachable(b),
    {
        reveal(reachable_in);
        let path = choose|path: Seq<int>| self.is_gc_path(path) && path.last() == a;
        self.lemma_path_nodes_valid(path);
        let path2 = path.push(b);
        assert forall|k: int|
            0 <= k < path2.len() - 1 implies self.valid(#[trigger] path2[k]) && self.valid(
            path2[k + 1],
        ) && self.has_edge(path2[k], path2[k + 1]) by {
            if k < path.len() - 1 {
                assert(path2[k] == path[k]);
                assert(path2[k + 1] == path[k + 1]);
            } else {
                assert(path2[k] == path[k]);
                assert(path2[k] == a);
                assert(path2[k + 1] == b);
            }
        };
        assert(path2[0] == path[0]);
        assert(path2.len() > 0);
        assert(self.is_gc_path(path2) && path2.last() == b);
        assert(self.reachable(b));
    }

    /// The collector's current phase.
    pub fn current_phase(&self) -> (phase: CollectState)
        ensures
            phase == self.phase(),
    {
        self.state
    }

    /// Whether the collector is at rest between cycles.
    pub fn is_asleep(&self) -> (r: bool)
        ensures
            r == (self.phase() is Sleep),
    {
        matches!(self.state, CollectState::Sleep)
    }

    /// Color a white object gray and queue it; any other color is left
    /// untouched. Only the object's color and the gray queue change.
    fn promote(&mut self, ptr: Gc)
        requires
            old(self).valid(ptr.id()),
        ensures
            forall|i: int| final(self).valid(i) <==> old(self).valid(i),
            forall|i: int|
                old(self).valid(i) && i != ptr.id() ==> #[trigger] final(self).box_of(i) == old(
                    self,
                ).box_of(i),
            final(self).value_of(ptr.id()) == old(self).value_of(ptr.id()),
            final(self).root_of(ptr.id()) == old(self).root_of(ptr.id()),
            final(self).next_of(ptr.id()) == old(self).next_of(ptr.id()),
            old(self).color_of(ptr.id()) is White ==> final(self).color_of(ptr.id()) is Gray
                && final(self).gray_field() == old(self).gray_field().push(ptr),
            !(old(self).color_of(ptr.id()) is White) ==> *final(self) == *old(self),
            final(self).order_view() == old(self).order_view(),
            final(self).spec_pos() == old(self).spec_pos(),
            final(self).phase() == old(self).phase(),
            final(self).free_list() == old(self).free_list(),
            final(self).head_field() == old(self).head_field(),
            final(self).wake_field() == old(self).wake_field(),
            final(self).sweep_cursor_field() == old(self).sweep_cursor_field(),
            final(self).sweep_prev_field() == old(self).sweep_prev_field(),
            final(self).n_slots() == old(self).n_slots(),
    {
        let ix = ptr.inner();
        let white = match &self.slots[ix] {
            Some(gc_box) => matches!(gc_box.color, GcColor::White),
            None => {
                proof {
                    assert(false);
                }
                false
            }
        };
        if white {
            match &mut self.slots[ix] {
                Some(gc_box) => gc_box.color = GcColor::Gray,
                None => {
                    proof {
                        assert(false);
                    }
                }
            }
            self.gray.push(ptr);
        }
    }


    /// Promote one pointer during marking: a white object becomes gray
    /// and enters the mark queue; a gray or black one is left exactly as
    /// it is, so promotion is idempotent and marking terminates even on
    /// cyclic graphs.
    pub fn scan_ptr(&mut self, ptr: Gc)
        requires
            old(self).inv(),
            old(self).phase() is Mark,
            old(self).valid(ptr.id()),
            old(self).reachable(ptr.id()),
        ensures
            final(self).inv(),
            final(self).phase() is Mark,
            !(final(self).color_of(ptr.id()) is White),
            old(self).color_of(ptr.id()) is White ==> final(self).color_of(ptr.id()) is Gray,
            !(old(self).color_of(ptr.id()) is White) ==> *final(self) == *old(self),
            forall|i: int| final(self).valid(i) <==> old(self).valid(i),
            forall|i: int|
                old(self).valid(i) ==> #[trigger] final(self).value_of(i) == old(self).value_of(
                    i,
                ),
            forall|i: int|
                old(self).valid(i) ==> #[trigger] final(self).root_of(i) == old(self).root_of(i),
            forall|i: int| final(self).reachable(i) <==> old(self).reachable(i),
    {
        let ghost pre = *old(self);
        self.promote(ptr);
        proof {
            if pre.color_of(ptr.id()) is White {
                Self::lemma_scan_ptr_white(pre, *self, ptr);
            }
        }
    }

    /// After promoting a white, reachable object during marking, the
    /// mark invariant holds again and reachability is untouched.
    #[verifier::rlimit(50)]
    proof fn lemma_scan_ptr_white(pre: Self, post: Self, ptr: Gc)
        requires
            pre.inv(),
            pre.phase() is Mark,
            pre.valid(ptr.id()),
            pre.reachable(ptr.id()),
            pre.color_of(ptr.id()) is White,
            post.phase() is Mark,
            forall|i: int| post.valid(i) <==> pre.valid(i),
            forall|i: int|
                pre.valid(i) && i != ptr.id() ==> #[trigger] post.box_of(i) == pre.box_of(i),
            post.value_of(ptr.id()) == pre.value_of(ptr.id()),
            post.root_of(ptr.id()) == pre.root_of(ptr.id()),
            post.next_of(ptr.id()) == pre.next_of(ptr.id()),
            post.color_of(ptr.id()) is Gray,
            post.gray_field() == pre.gray_field().push(ptr),
            post.order_view() == pre.order_view(),
            post.spec_pos() == pre.spec_pos(),
            post.free_list() == pre.free_list(),
            post.head_field() == pre.head_field(),
            post.wake_field() == pre.wake_field(),
            post.sweep_cursor_field() == pre.sweep_cursor_field(),
            post.sweep_prev_field() == pre.sweep_prev_field(),
            post.n_slots() == pre.n_slots(),
        ensures
            post.inv(),
            forall|i: int| pre.valid(i) ==> #[trigger] post.value_of(i) == pre.value_of(i),
            forall|i: int| pre.valid(i) ==> #[trigger] post.root_of(i) == pre.root_of(i),
            forall|i: int| post.reachable(i) <==> pre.reachable(i),
    {
        Self::lemma_boxes_preserved(pre, post, ptr.id());
        Self::lemma_list_wf_preserved(pre, post);
        Self::lemma_gray_wf_after_push(pre, post, ptr);
        assert forall|i: int|
            post.valid(i) && #[trigger] post.root_of(i) > 0 implies !(post.color_of(
            i,
        ) is White) by {
            assert(pre.root_of(i) > 0);
            if i != ptr.id() {
                assert(post.box_of(i) == pre.box_of(i));
            }
        };
        assert forall|i: int|
            post.valid(i) && #[trigger] post.color_of(i) is Black implies post.black_edges_ok(
            i,
        ) by {
            assert(post.box_of(i) == pre.box_of(i));
            assert(pre.color_of(i) is Black);
            assert(pre.black_edges_ok(i));
            assert forall|e: int|
                0 <= e < post.edges(i).len() implies !(post.color_of(
                (#[trigger] post.edges(i)[e]).id(),
            ) is White) by {
                assert(!(pre.color_of(pre.edges(i)[e].id()) is White));
                assert(pre.edges_valid_at(i));
                assert(pre.valid(pre.edges(i)[e].id()));
                if pre.edges(i)[e].id() != ptr.id() {
                    assert(post.box_of(pre.edges(i)[e].id()) == pre.box_of(
                        pre.edges(i)[e].id(),
                    ));
                }
            };
        };
        assert forall|i: int| post.valid(i) implies #[trigger] post.edges_valid_at(i) by {
            assert(pre.edges_valid_at(i));
            assert(post.edges(i) == pre.edges(i));
            assert forall|e: int| 0 <= e < post.edges(i).len() implies post.valid(
                (#[trigger] post.edges(i)[e]).id(),
            ) by {
                assert(pre.valid(pre.edges(i)[e].id()));
            };
        };
        assert forall|i: int|
            post.valid(i) && !(#[trigger] post.color_of(i) is White) implies post.reachable(
            i,
        ) by {
            if i == ptr.id() {
                assert(pre.reachable(i));
            } else {
                assert(post.box_of(i) == pre.box_of(i));
                assert(!(pre.color_of(i) is White));
                assert(pre.reachable(i));
            }
        };
        assert(post.mark_inv());
    }


    /// Begin a collection cycle: enter the wake phase with the cursor at
    /// the head of the object list.
    fn wake_entry(&mut self)
        requires
            old(self).inv(),
            old(self).phase() is Sleep,
        ensures
            final(self).inv(),
            final(self).phase() is Wake,
            forall|i: int| final(self).valid(i) <==> old(self).valid(i),
            forall|i: int|
                old(self).valid(i) ==> #[trigger] final(self).value_of(i) == old(self).value_of(
                    i,
                ),
            forall|i: int|
                old(self).valid(i) ==> #[trigger] final(self).root_of(i) == old(self).root_of(i),
            forall|i: int| final(self).reachable(i) <==> old(self).reachable(i),
    {
        self.state = CollectState::Wake;
        self.wake = self.head;
        proof {
            self.pos@ = 0;
            Self::lemma_boxes_preserved(*old(self), *self, -1);
            Self::lemma_list_wf_preserved(*old(self), *self);
            assert forall|i: int| self.valid(i) implies !(#[trigger] self.color_of(
                i,
            ) is Black) by {
                assert(old(self).color_of(i) is White);
            };
            assert(self.gray@.map_values(|q: Gc| q.id()) =~= Seq::<int>::empty());
            Self::lemma_edges_valid_all(*old(self), *self);
            assert(self.wake_inv());
        }
    }

    /// One step of the wake phase: gray the object at the cursor when it
    /// is externally rooted, and advance; when the cursor is exhausted,
    /// enter the mark phase.
    fn wake_step(&mut self)
        requires
            old(self).inv(),
            old(self).phase() is Wake,
        ensures
            final(self).inv(),
            final(self).phase() is Wake || final(self).phase() is Mark,
            forall|i: int| final(self).valid(i) <==> old(self).valid(i),
            forall|i: int|
                old(self).valid(i) ==> #[trigger] final(self).value_of(i) == old(self).value_of(
                    i,
                ),
            forall|i: int|
                old(self).valid(i) ==> #[trigger] final(self).root_of(i) == old(self).root_of(i),
            forall|i: int| final(self).reachable(i) <==> old(self).reachable(i),
            final(self).phase() is Wake ==> final(self).measure1() < old(self).measure1(),
    {
        proof {
            broadcast use vstd::std_specs::vec::axiom_spec_len;

            assert(self.slots.len() == self.slots@.len());
            self.lemma_order_len_bounded();
        }
        let cursor = self.wake;
        match cursor {
            None => {
                self.state = CollectState::Mark;
                proof {
                    let post = *self;
                    let ord = post.order_view();
                    assert(post.spec_pos() == ord.len());
                    Self::lemma_boxes_preserved(*old(self), post, -1);
                    Self::lemma_list_wf_preserved(*old(self), post);
                    assert forall|i: int|
                        post.valid(i) && #[trigger] post.root_of(i) > 0 implies !(post.color_of(
                        i,
                    ) is White) by {
                        assert(ord.contains(i as usize));
                        let q = choose|q: int| 0 <= q < ord.len() && ord[q] == i as usize;
                        assert(i == ord[q] as int);
                        assert(post.root_of(ord[q] as int) > 0);
                        assert(post.color_of(ord[q] as int) is Gray);
                    };
                    assert forall|i: int|
                        post.valid(i) && !(#[trigger] post.color_of(i) is White) implies post.reachable(
                        i,
                    ) by {
                        assert(post.color_of(i) is Gray);
                        assert(post.root_of(i) > 0);
                        let path = seq![i];
                        assert(post.is_gc_path(path) && path.last() == i);
                        assert(post.reachable(i)) by {
                            reveal(reachable_in);
                        }
                    };
                    Self::lemma_edges_valid_all(*old(self), post);
                    assert(post.mark_inv());
                }
            }
            Some(ix) => {
                proof {
                    assert(old(self).cursor_at(old(self).spec_pos()) == Some(ix));
                    assert(self.valid(ix as int));
                }
                let rooted = match &self.slots[ix] {
                    Some(gc_box) => gc_box.is_root(),
                    None => {
                        proof {
                            assert(false);
                        }
                        false
                    }
                };
                let ghost before = *self;
                let ptr = Gc::from_inner(ix);
                if rooted {
                    proof {
                        // the node at the cursor has not been visited, so
                        // it is still white
                        assert(before.color_of(ix as int) is White);
                    }
                    self.promote(ptr);
                }
                let ghost mid = *self;
                let next = match &self.slots[ix] {
                    Some(gc_box) => gc_box.next,
                    None => {
                        proof {
                            assert(false);
                        }
                        None
                    }
                };
                self.wake = next;
                proof {
                    self.pos@ = self.pos@ + 1;
                    let pre = *old(self);
                    let post = *self;
                    let ord = pre.order_view();
                    let pos = pre.spec_pos();
                    assert forall|i: int|
                        pre.valid(i) && i != ix as int implies #[trigger] post.box_of(i)
                        == pre.box_of(i) by {
                        assert(mid.box_of(i) == pre.box_of(i));
                        assert(post.box_of(i) == mid.box_of(i));
                    };
                    assert(post.box_of(ix as int) == mid.box_of(ix as int));
                    assert(mid.value_of(ix as int) == pre.value_of(ix as int));
                    assert(mid.root_of(ix as int) == pre.root_of(ix as int));
                    assert(mid.next_of(ix as int) == pre.next_of(ix as int));
                    if rooted {
                        assert(mid.color_of(ix as int) is Gray);
                        assert(mid.gray_field() == pre.gray_field().push(ptr));
                    } else {
                        assert(mid.box_of(ix as int) == pre.box_of(ix as int));
                    }
                    assert(post.gray_field() == mid.gray_field());
                    Self::lemma_boxes_preserved(pre, post, ix as int);
                    Self::lemma_list_wf_preserved(pre, post);
                    assert(post.next_of(ix as int) == post.cursor_at(pos + 1));
                    assert(post.wake_field() == post.cursor_at(post.spec_pos()));
                    if rooted {
                        Self::lemma_gray_wf_after_push(pre, post, ptr);
                    } else {
                        assert(post.gray_field() == pre.gray_field());
                        assert forall|q: int| 0 <= q < post.gray_field().len() implies post.valid(
                            (#[trigger] post.gray_field()[q]).id(),
                        ) && post.color_of(post.gray_field()[q].id()) is Gray by {
                            assert(pre.valid(pre.gray_field()[q].id()));
                            assert(pre.color_of(pre.gray_field()[q].id()) is Gray);
                            assert(pre.gray_field()[q].id() != ix as int);
                            assert(post.box_of(pre.gray_field()[q].id()) == pre.box_of(
                                pre.gray_field()[q].id(),
                            ));
                        };
                        assert forall|i: int|
                            post.valid(i) && post.color_of(i) is Gray implies post.gray_field().map_values(
                            |q: Gc| q.id(),
                        ).contains(i) by {
                            if i != ix as int {
                                assert(post.box_of(i) == pre.box_of(i));
                            }
                            assert(pre.color_of(i) is Gray);
                        };
                        assert(post.gray_wf());
                    }
                    assert forall|j: int|
                        0 <= j < post.spec_pos() && post.root_of(
                            #[trigger] post.order_view()[j] as int,
                        ) > 0 implies post.color_of(post.order_view()[j] as int) is Gray by {
                        let node = ord[j] as int;
                        if j < pos {
                            if node != ix as int {
                                assert(post.box_of(node) == pre.box_of(node));
                                assert(pre.root_of(node) > 0);
                                assert(pre.color_of(node) is Gray);
                            } else {
                                assert(pre.color_of(node) is White);
                                assert(false);
                            }
                        } else {
                            assert(j == pos);
                            assert(node == ix as int);
                            assert(pre.root_of(node) == post.root_of(node));
                            assert(rooted);
                        }
                    };
                    assert forall|i: int| post.valid(i) implies !(#[trigger] post.color_of(
                        i,
                    ) is Black) by {
                        if i != ix as int {
                            assert(post.box_of(i) == pre.box_of(i));
                        }
                        assert(!(pre.color_of(i) is Black));
                    };
                    assert forall|j: int|
                        post.spec_pos() <= j < post.order_view().len() implies post.color_of(
                        #[trigger] post.order_view()[j] as int,
                    ) is White by {
                        let node = ord[j] as int;
                        assert(pre.color_of(node) is White);
                        assert(node != ix as int);
                        assert(post.box_of(node) == pre.box_of(node));
                    };
                    assert forall|i: int|
                        post.valid(i) && #[trigger] post.color_of(i) is Gray implies post.root_of(
                        i,
                    ) > 0 by {
                        if i != ix as int {
                            assert(post.box_of(i) == pre.box_of(i));
                            assert(pre.color_of(i) is Gray);
                        }
                    };
                    Self::lemma_edges_valid_all(pre, post);
                    assert(post.wake_inv());
                }
            }
        }
    }


    /// One step of the mark phase: take one object off the gray queue,
    /// scan it, promoting each contained pointer that is still white,
    /// and blacken it; when the queue is empty, enter the sweep phase.
    #[verifier::rlimit(100)]
    fn mark_step(&mut self)
        requires
            old(self).inv(),
            old(self).phase() is Mark,
        ensures
            final(self).inv(),
            final(self).phase() is Mark || final(self).phase() is Sweep,
            forall|i: int| final(self).valid(i) <==> old(self).valid(i),
            forall|i: int|
                old(self).valid(i) ==> #[trigger] final(self).value_of(i) == old(self).value_of(
                    i,
                ),
            forall|i: int|
                old(self).valid(i) ==> #[trigger] final(self).root_of(i) == old(self).root_of(i),
            forall|i: int| final(self).reachable(i) <==> old(self).reachable(i),
            final(self).phase() is Mark ==> final(self).measure1() < old(self).measure1() || (
            final(self).measure1() == old(self).measure1() && final(self).measure2() < old(
                self,
            ).measure2()),
    {
        let popped_opt = self.gray.pop();
        match popped_opt {
            None => {
                self.state = CollectState::Sweep;
                self.sweep = self.head;
                self.sweep_prev = None;
                proof {
                    self.pos@ = 0;
                    let pre = *old(self);
                    let post = *self;
                    let ord = post.order_view();
                    Self::lemma_boxes_preserved(pre, post, -1);
                    Self::lemma_list_wf_preserved(pre, post);
                    Self::lemma_edges_valid_all(pre, post);
                    // the queue is empty, so no object is gray
                    assert forall|i: int| post.valid(i) implies !(#[trigger] post.color_of(
                        i,
                    ) is Gray) by {
                        assert(pre.color_of(i) == post.color_of(i));
                        if pre.color_of(i) is Gray {
                            assert(pre.gray_field().map_values(|q: Gc| q.id()).contains(i));
                        }
                    };
                    assert forall|j: int|
                        post.spec_pos() <= j < ord.len() && post.root_of(
                            #[trigger] ord[j] as int,
                        ) > 0 implies post.color_of(ord[j] as int) is Black by {
                        let node = ord[j] as int;
                        assert(post.valid(node));
                        assert(pre.root_of(node) > 0);
                        assert(!(pre.color_of(node) is White));
                        assert(!(post.color_of(node) is Gray));
                    };
                    // survivors-to-be point only at survivors-to-be
                    assert forall|i: int| post.committed(i) implies #[trigger] post.committed_edges_ok(
                        i,
                    ) by {
                        assert(post.color_of(i) is Black);
                        assert(pre.color_of(i) is Black);
                        assert(pre.black_edges_ok(i));
                        assert(pre.edges_valid_at(i));
                        assert forall|e: int| 0 <= e < post.edges(i).len() implies post.committed(
                            (#[trigger] post.edges(i)[e]).id(),
                        ) by {
                            let t = pre.edges(i)[e].id();
                            assert(!(pre.color_of(t) is White));
                            assert(pre.valid(t));
                            assert(!(post.color_of(t) is Gray));
                            assert(post.color_of(t) is Black);
                        };
                    };
                    // whites are unreachable: the non-white objects
                    // contain every root and are closed under edges
                    let cl = |i: int| post.valid(i) && post.color_of(i) is Black;
                    assert forall|i: int|
                        post.valid(i) && #[trigger] post.root_of(i) > 0 implies cl(i) by {
                        assert(pre.root_of(i) > 0);
                        assert(!(pre.color_of(i) is White));
                        assert(!(post.color_of(i) is Gray));
                    };
                    assert forall|i: int, e: int|
                        #![trigger cl(i), post.edges(i)[e]]
                        cl(i) && post.valid(i) && 0 <= e < post.edges(i).len() implies cl(
                        post.edges(i)[e].id(),
                    ) by {
                        assert(pre.black_edges_ok(i));
                        assert(pre.edges_valid_at(i));
                        let t = pre.edges(i)[e].id();
                        assert(!(pre.color_of(t) is White));
                        assert(!(post.color_of(t) is Gray));
                    };
                    post.lemma_reachable_in_closed(cl);
                    assert forall|j: int|
                        post.spec_pos() <= j < ord.len() && post.color_of(
                            #[trigger] ord[j] as int,
                        ) is White implies !post.reachable(ord[j] as int) by {
                        let node = ord[j] as int;
                        if post.reachable(node) {
                            assert(cl(node));
                        }
                    };
                    // survivors-to-be are reachable
                    assert forall|i: int| #[trigger] post.committed(i) implies post.reachable(
                        i,
                    ) by {
                        assert(post.color_of(i) is Black);
                        assert(!(pre.color_of(i) is White));
                        assert(pre.reachable(i));
                    };
                    assert(post.sweep_inv());
                }
            }
            Some(popped) => {
                proof {
                    let pre = *old(self);
                    let mapped = pre.gray_field().map_values(|q: Gc| q.id());
                    assert(pre.gray_field()[pre.gray_field().len() - 1] == popped);
                    assert(pre.valid(popped.id()));
                    assert(pre.color_of(popped.id()) is Gray);
                    assert(mapped[mapped.len() - 1] == popped.id());
                    assert(!self.gray@.map_values(|q: Gc| q.id()).contains(popped.id())) by {
                        let m2 = self.gray@.map_values(|q: Gc| q.id());
                        assert(m2 =~= mapped.drop_last());
                        if m2.contains(popped.id()) {
                            let q = choose|q: int| 0 <= q < m2.len() && m2[q] == popped.id();
                            assert(mapped[q] == popped.id());
                        }
                    };
                }
                let ix = popped.inner();
                let mut ctx = Context::new();
                match &self.slots[ix] {
                    Some(gc_box) => gc_box.value.scan(&mut ctx),
                    None => {
                        proof {
                            assert(false);
                        }
                    }
                }
                proof {
                    assert(ctx.gray@ =~= old(self).edges(popped.id()));
                }
                let ghost base = *self;
                let ghost pre = *old(self);
                proof {
                    let m_pre = pre.gray_field().map_values(|q: Gc| q.id());
                    let m_cur = self.gray@.map_values(|q: Gc| q.id());
                    assert(self.gray@ == pre.gray_field().drop_last());
                    assert(m_cur =~= m_pre.drop_last());
                    assert(m_cur.no_duplicates()) by {
                        assert forall|a: int, b: int| 0 <= a < b < m_cur.len() implies m_cur[a]
                            != m_cur[b] by {
                            assert(m_pre[a] == m_cur[a]);
                            assert(m_pre[b] == m_cur[b]);
                        };
                    };
                    assert forall|i: int|
                        self.valid(i) && self.color_of(i) is Gray && i != popped.id() implies m_cur.contains(
                        i,
                    ) by {
                        assert(pre.valid(i));
                        assert(pre.box_of(i) == self.box_of(i));
                        assert(pre.color_of(i) is Gray);
                        assert(m_pre.contains(i));
                        let q = choose|q: int| 0 <= q < m_pre.len() && m_pre[q] == i;
                        assert(m_pre[m_pre.len() - 1] == popped.id());
                        assert(q != m_pre.len() - 1);
                        assert(m_cur[q] == i);
                    };
                    assert forall|q: int| 0 <= q < self.gray@.len() implies self.valid(
                        (#[trigger] self.gray@[q]).id(),
                    ) && self.color_of(self.gray@[q].id()) is Gray by {
                        assert(pre.gray_field()[q] == self.gray@[q]);
                        assert(pre.valid(pre.gray_field()[q].id()));
                        assert(pre.color_of(pre.gray_field()[q].id()) is Gray);
                    };
                    // the colors and headers are untouched by the pop
                    assert forall|i: int|
                        self.valid(i) && #[trigger] self.root_of(i) > 0 implies !(self.color_of(
                        i,
                    ) is White) by {
                        assert(pre.box_of(i) == self.box_of(i));
                        assert(pre.root_of(i) > 0);
                    };
                    assert forall|i: int|
                        self.valid(i) && #[trigger] self.color_of(i) is Black implies self.black_edges_ok(
                        i,
                    ) by {
                        assert(pre.box_of(i) == self.box_of(i));
                        assert(pre.color_of(i) is Black);
                        assert(pre.black_edges_ok(i));
                        assert(pre.edges_valid_at(i));
                        assert forall|e: int|
                            0 <= e < self.edges(i).len() implies !(self.color_of(
                            (#[trigger] self.edges(i)[e]).id(),
                        ) is White) by {
                            let t = pre.edges(i)[e].id();
                            assert(!(pre.color_of(t) is White));
                            assert(pre.valid(t));
                            assert(self.box_of(t) == pre.box_of(t));
                        };
                    };
                    assert forall|i: int|
                        self.valid(i) && !(#[trigger] self.color_of(i) is White) implies self.reachable(
                        i,
                    ) by {
                        assert(pre.box_of(i) == self.box_of(i));
                        assert(!(pre.color_of(i) is White));
                        assert(pre.reachable(i));
                        Self::lemma_boxes_preserved(pre, *self, -1);
                    };
                    assert forall|i: int| self.valid(i) implies #[trigger] self.edges_valid_at(
                        i,
                    ) by {
                        assert(pre.box_of(i) == self.box_of(i));
                        assert(pre.edges_valid_at(i));
                        assert forall|e: int| 0 <= e < self.edges(i).len() implies self.valid(
                            (#[trigger] self.edges(i)[e]).id(),
                        ) by {
                            assert(pre.valid(pre.edges(i)[e].id()));
                        };
                    };
                    Self::lemma_boxes_preserved(pre, *self, -1);
                    Self::lemma_list_wf_preserved(pre, *self);
                    assert(self.white_set() =~= base.white_set());
                    assert(self.color_of(popped.id()) is Gray) by {
                        assert(pre.box_of(popped.id()) == self.box_of(popped.id()));
                    };
                }
                let mut k: usize = 0;
                while k < ctx.gray.len()
                    invariant
                        pre.inv(),
                        pre.phase() is Mark,
                        base.phase() is Mark,
                        k <= ctx.gray@.len(),
                        ctx.gray@ == pre.edges(popped.id()),
                        pre.valid(popped.id()),
                        pre.edges_valid_at(popped.id()),
                        self.phase() is Mark,
                        self.wake_field() is None,
                        self.sweep_cursor_field() is None,
                        self.sweep_prev_field() is None,
                        self.order_view() == pre.order_view(),
                        self.spec_pos() == pre.spec_pos(),
                        self.free_list() == pre.free_list(),
                        self.head_field() == pre.head_field(),
                        self.n_slots() == pre.n_slots(),
                        forall|i: int| self.valid(i) <==> pre.valid(i),
                        forall|i: int|
                            pre.valid(i) ==> #[trigger] self.value_of(i) == pre.value_of(i),
                        forall|i: int|
                            pre.valid(i) ==> #[trigger] self.root_of(i) == pre.root_of(i),
                        forall|i: int|
                            pre.valid(i) ==> #[trigger] self.next_of(i) == pre.next_of(i),
                        forall|i: int|
                            pre.valid(i) ==> #[trigger] self.edges(i) == pre.edges(i),
                        forall|i: int|
                            pre.valid(i) ==> (#[trigger] self.color_of(i) == pre.color_of(i) || (
                            pre.color_of(i) is White && self.color_of(i) is Gray)),
                        self.valid(popped.id()),
                        self.color_of(popped.id()) is Gray,
                        self.gray@.map_values(|q: Gc| q.id()).no_duplicates(),
                        !self.gray@.map_values(|q: Gc| q.id()).contains(popped.id()),
                        forall|q: int|
                            0 <= q < self.gray@.len() ==> self.valid(
                                (#[trigger] self.gray@[q]).id(),
                            ) && self.color_of(self.gray@[q].id()) is Gray,
                        forall|i: int|
                            self.valid(i) && self.color_of(i) is Gray && i != popped.id()
                                ==> self.gray@.map_values(|q: Gc| q.id()).contains(i),
                        forall|i: int|
                            self.valid(i) && #[trigger] self.root_of(i) > 0 ==> !(self.color_of(
                                i,
                            ) is White),
                        forall|i: int|
                            self.valid(i) && #[trigger] self.color_of(i) is Black
                                ==> self.black_edges_ok(i),
                        forall|i: int|
                            self.valid(i) && !(#[trigger] self.color_of(i) is White)
                                ==> self.reachable(i),
                        forall|i: int| self.valid(i) ==> #[trigger] self.edges_valid_at(i),
                        forall|e: int|
                            0 <= e < k ==> !(self.color_of(
                                (#[trigger] ctx.gray@[e]).id(),
                            ) is White),
                        self.white_count() + self.gray@.len() == base.white_count()
                            + base.gray@.len(),
                        forall|i: int| self.white_set().contains(i) ==> base.white_set().contains(i),
                        self.list_wf(),
                    decreases ctx.gray@.len() - k,
                {
                    let target = ctx.gray[k];
                    proof {
                        assert(ctx.gray@[k as int] == target);
                        assert(pre.edges_valid_at(popped.id()));
                        assert(pre.valid(pre.edges(popped.id())[k as int].id()));
                        assert(self.valid(target.id()));
                    }
                    let ghost snap = *self;
                    self.promote(target);
                    proof {
                        let cur = *self;
                        assert forall|i: int|
                            pre.valid(i) && i != target.id() implies #[trigger] cur.box_of(i)
                            == snap.box_of(i) by {};
                        if snap.color_of(target.id()) is White {
                            // the target turns gray and joins the queue
                            snap.lemma_white_set_finite();
                            assert(cur.white_set() =~= snap.white_set().remove(target.id()));
                            assert(snap.white_set().contains(target.id()));
                            assert(cur.white_set().len() == snap.white_set().len() - 1);
                            let m_snap = snap.gray@.map_values(|q: Gc| q.id());
                            let m_cur = cur.gray@.map_values(|q: Gc| q.id());
                            assert(m_cur =~= m_snap.push(target.id()));
                            assert(!m_snap.contains(target.id())) by {
                                if m_snap.contains(target.id()) {
                                    let q = choose|q: int|
                                        0 <= q < m_snap.len() && m_snap[q] == target.id();
                                    assert(snap.color_of(snap.gray@[q].id()) is Gray);
                                }
                            };
                            assert(m_cur.no_duplicates());
                            assert(target.id() != popped.id());
                            assert(!m_cur.contains(popped.id())) by {
                                if m_cur.contains(popped.id()) {
                                    let q = choose|q: int|
                                        0 <= q < m_cur.len() && m_cur[q] == popped.id();
                                    if q < m_snap.len() {
                                        assert(m_snap[q] == popped.id());
                                    }
                                }
                            };
                            // the fresh gray object is reachable: the
                            // scanned object reaches it in one edge
                            assert(snap.reachable(popped.id()));
                            assert(snap.has_edge(popped.id(), target.id())) by {
                                assert(snap.edges(popped.id())[k as int].id() == target.id());
                            };
                            snap.lemma_reachable_step(popped.id(), target.id());
                            Self::lemma_boxes_preserved(snap, cur, target.id());
                            assert forall|q: int| 0 <= q < cur.gray@.len() implies cur.valid(
                                (#[trigger] cur.gray@[q]).id(),
                            ) && cur.color_of(cur.gray@[q].id()) is Gray by {
                                if q < snap.gray@.len() {
                                    assert(snap.gray@[q] == cur.gray@[q]);
                                    assert(snap.valid(snap.gray@[q].id()));
                                    assert(snap.color_of(snap.gray@[q].id()) is Gray);
                                    assert(snap.gray@[q].id() != target.id());
                                    assert(cur.box_of(snap.gray@[q].id()) == snap.box_of(
                                        snap.gray@[q].id(),
                                    ));
                                } else {
                                    assert(cur.gray@[q] == target);
                                }
                            };
                            assert forall|i: int|
                                cur.valid(i) && cur.color_of(i) is Gray && i != popped.id()
                                    implies m_cur.contains(i) by {
                                if i == target.id() {
                                    assert(m_cur[m_cur.len() - 1] == target.id());
                                } else {
                                    assert(cur.box_of(i) == snap.box_of(i));
                                    assert(snap.color_of(i) is Gray);
                                    assert(m_snap.contains(i));
                                    let q = choose|q: int|
                                        0 <= q < m_snap.len() && m_snap[q] == i;
                                    assert(m_cur[q] == i);
                                }
                            };
                            assert(cur.color_of(popped.id()) is Gray) by {
                                assert(cur.box_of(popped.id()) == snap.box_of(popped.id()));
                            };
                            assert forall|i: int|
                                cur.valid(i) && !(#[trigger] cur.color_of(i) is White) implies cur.reachable(
                                i,
                            ) by {
                                if i != target.id() {
                                    assert(cur.box_of(i) == snap.box_of(i));
                                    assert(snap.reachable(i));
                                } else {
                                    assert(snap.reachable(i));
                                }
                            };
                            assert forall|i: int|
                                cur.valid(i) && #[trigger] cur.color_of(i) is Black implies cur.black_edges_ok(
                                i,
                            ) by {
                                assert(cur.box_of(i) == snap.box_of(i));
                                assert(snap.color_of(i) is Black);
                                assert(snap.black_edges_ok(i));
                                assert(snap.edges_valid_at(i));
                                assert forall|e: int|
                                    0 <= e < cur.edges(i).len() implies !(cur.color_of(
                                    (#[trigger] cur.edges(i)[e]).id(),
                                ) is White) by {
                                    let t = snap.edges(i)[e].id();
                                    assert(!(snap.color_of(t) is White));
                                    assert(snap.valid(t));
                                    if t != target.id() {
                                        assert(cur.box_of(t) == snap.box_of(t));
                                    }
                                };
                            };
                            Self::lemma_edges_valid_all(snap, cur);
                            Self::lemma_list_wf_preserved(snap, cur);
                        }
                    }
                    k = k + 1;
                }
                // every contained pointer is discovered: the object is
                // fully scanned and turns black
                let ghost scanned = *self;
                match &mut self.slots[ix] {
                    Some(gc_box) => gc_box.color = GcColor::Black,
                    None => {
                        proof {
                            assert(false);
                        }
                    }
                }
                proof {
                    let post = *self;
                    let pre2 = *old(self);
                    assert forall|i: int|
                        scanned.valid(i) && i != popped.id() implies #[trigger] post.box_of(i)
                        == scanned.box_of(i) by {};
                    assert(post.value_of(popped.id()) == scanned.value_of(popped.id()));
                    assert(post.root_of(popped.id()) == scanned.root_of(popped.id()));
                    assert(post.next_of(popped.id()) == scanned.next_of(popped.id()));
                    assert(post.color_of(popped.id()) is Black);
                    Self::lemma_boxes_preserved(scanned, post, popped.id());
                    assert forall|i: int| pre2.valid(i) implies #[trigger] post.value_of(i)
                        == pre2.value_of(i) && #[trigger] post.root_of(i) == pre2.root_of(i)
                        && #[trigger] post.edges(i) == pre2.edges(i) by {
                        assert(scanned.value_of(i) == pre2.value_of(i));
                        assert(scanned.root_of(i) == pre2.root_of(i));
                        assert(scanned.edges(i) == pre2.edges(i));
                    };
                    Self::lemma_reachable_preserved(pre2, post);
                    Self::lemma_list_wf_preserved(scanned, post);
                    Self::lemma_edges_valid_all(scanned, post);
                    // the gray queue is exact again
                    assert(post.gray_field() == scanned.gray_field());
                    assert forall|q: int| 0 <= q < post.gray_field().len() implies post.valid(
                        (#[trigger] post.gray_field()[q]).id(),
                    ) && post.color_of(post.gray_field()[q].id()) is Gray by {
                        assert(scanned.valid(scanned.gray@[q].id()));
                        assert(scanned.color_of(scanned.gray@[q].id()) is Gray);
                        let m_s = scanned.gray@.map_values(|g: Gc| g.id());
                        assert(m_s[q] == scanned.gray@[q].id());
                        assert(scanned.gray@[q].id() != popped.id());
                        assert(post.box_of(scanned.gray@[q].id()) == scanned.box_of(
                            scanned.gray@[q].id(),
                        ));
                    };
                    assert forall|i: int|
                        post.valid(i) && post.color_of(i) is Gray implies post.gray_field().map_values(
                        |q: Gc| q.id(),
                    ).contains(i) by {
                        assert(i != popped.id());
                        assert(post.box_of(i) == scanned.box_of(i));
                        assert(scanned.color_of(i) is Gray);
                    };
                    assert(post.gray_wf());
                    assert forall|i: int|
                        post.valid(i) && #[trigger] post.root_of(i) > 0 implies !(post.color_of(
                        i,
                    ) is White) by {
                        if i != popped.id() {
                            assert(post.box_of(i) == scanned.box_of(i));
                            assert(scanned.root_of(i) > 0);
                        }
                    };
                    assert forall|i: int|
                        post.valid(i) && #[trigger] post.color_of(i) is Black implies post.black_edges_ok(
                        i,
                    ) by {
                        if i != popped.id() {
                            assert(post.box_of(i) == scanned.box_of(i));
                            assert(scanned.color_of(i) is Black);
                            assert(scanned.black_edges_ok(i));
                        }
                        assert(scanned.edges_valid_at(i));
                        assert forall|e: int|
                            0 <= e < post.edges(i).len() implies !(post.color_of(
                            (#[trigger] post.edges(i)[e]).id(),
                        ) is White) by {
                            let t = scanned.edges(i)[e].id();
                            assert(scanned.valid(t));
                            if i == popped.id() {
                                assert(scanned.edges(i) == pre2.edges(i));
                                assert(ctx.gray@[e] == scanned.edges(i)[e]);
                                assert(!(scanned.color_of(t) is White));
                            } else {
                                assert(!(scanned.color_of(t) is White));
                            }
                            if t != popped.id() {
                                assert(post.box_of(t) == scanned.box_of(t));
                            }
                        };
                    };
                    assert forall|i: int|
                        post.valid(i) && !(#[trigger] post.color_of(i) is White) implies post.reachable(
                        i,
                    ) by {
                        if i != popped.id() {
                            assert(post.box_of(i) == scanned.box_of(i));
                            assert(!(scanned.color_of(i) is White));
                        }
                        assert(scanned.reachable(i));
                    };
                    assert(post.mark_inv());
                    // progress: a white object was discovered, or the
                    // queue got shorter
                    assert(post.white_set() =~= scanned.white_set());
                    assert(pre2.white_set() =~= base.white_set());
                    assert(pre2.gray@.len() == base.gray@.len() + 1);
                    scanned.lemma_white_set_finite();
                    pre2.lemma_white_set_finite();
                    assert forall|i: int|
                        scanned.white_set().contains(i) implies pre2.white_set().contains(
                        i,
                    ) by {};
                    lemma_len_subset(scanned.white_set(), pre2.white_set());
                    assert(post.white_count() <= pre2.white_count());
                    assert(post.white_count() + post.gray@.len() == pre2.white_count()
                        + pre2.gray@.len() - 1);
                }
            }
        }
    }


    /// One step of the sweep phase: reclaim a white object at the
    /// cursor, unlinking it in place, or recolor a black survivor white;
    /// when the cursor is exhausted, go to sleep.
    #[verifier::rlimit(100)]
    fn sweep_step(&mut self)
        requires
            old(self).inv(),
            old(self).phase() is Sweep,
        ensures
            final(self).inv(),
            final(self).phase() is Sweep || final(self).phase() is Sleep,
            forall|i: int| final(self).valid(i) ==> old(self).valid(i),
            forall|i: int|
                final(self).valid(i) ==> #[trigger] final(self).value_of(i) == old(
                    self,
                ).value_of(i),
            forall|i: int|
                final(self).valid(i) ==> #[trigger] final(self).root_of(i) == old(self).root_of(
                    i,
                ),
            forall|i: int|
                old(self).valid(i) && !final(self).valid(i) ==> !old(self).reachable(i),
            forall|i: int| final(self).reachable(i) <==> old(self).reachable(i),
            forall|i: int| old(self).committed(i) ==> #[trigger] final(self).committed(i),
            final(self).phase() is Sweep ==> final(self).measure1() < old(self).measure1(),
            final(self).phase() is Sleep ==> (forall|i: int|
                final(self).valid(i) ==> final(self).reachable(i) && final(self).color_of(
                    i,
                ) is White),
    {
        let cursor = self.sweep;
        match cursor {
            None => {
                self.sweep_prev = None;
                self.state = CollectState::Sleep;
                proof {
                    broadcast use vstd::std_specs::vec::axiom_spec_len;

                    assert(self.slots.len() == self.slots@.len());
                    let pre = *old(self);
                    let post = *self;
                    let ord = post.order_view();
                    assert(pre.spec_pos() == ord.len());
                    Self::lemma_boxes_preserved(pre, post, -1);
                    Self::lemma_list_wf_preserved(pre, post);
                    assert forall|i: int| post.valid(i) implies #[trigger] post.color_of(
                        i,
                    ) is White && post.reachable(i) by {
                        assert(pre.valid(i));
                        assert(ord.contains(i as usize));
                        let q = choose|q: int| 0 <= q < ord.len() && ord[q] == i as usize;
                        assert(pre.order_view()[q] == i as usize);
                        assert(pre.color_of(ord[q] as int) is White);
                        assert(pre.committed(i));
                        assert(pre.reachable(i));
                    };
                    assert forall|i: int| post.valid(i) implies #[trigger] post.edges_valid_at(
                        i,
                    ) by {
                        assert(pre.committed(i));
                        assert(pre.committed_edges_ok(i));
                        assert(post.edges(i) == pre.edges(i));
                        assert forall|e: int| 0 <= e < post.edges(i).len() implies post.valid(
                            (#[trigger] post.edges(i)[e]).id(),
                        ) by {
                            assert(pre.committed(pre.edges(i)[e].id()));
                        };
                    };
                    assert(post.sleep_inv());
                    assert forall|i: int| pre.committed(i) implies #[trigger] post.committed(
                        i,
                    ) by {};
                }
            }
            Some(ix) => {
                proof {
                    broadcast use vstd::std_specs::vec::axiom_spec_len;

                    assert(self.slots.len() == self.slots@.len());
                    assert(old(self).slots.len() == old(self).slots@.len());
                    assert(old(self).cursor_at(old(self).spec_pos()) == Some(ix));
                    assert(self.valid(ix as int));
                }
                let color = match &self.slots[ix] {
                    Some(gc_box) => gc_box.color,
                    None => {
                        proof {
                            assert(false);
                        }
                        GcColor::White
                    }
                };
                let next = match &self.slots[ix] {
                    Some(gc_box) => gc_box.next,
                    None => {
                        proof {
                            assert(false);
                        }
                        None
                    }
                };
                self.sweep = next;
                match color {
                    GcColor::White => {
                        // condemned: unlink in place and reclaim
                        let prev = self.sweep_prev;
                        match prev {
                            Some(prev_ix) => {
                                proof {
                                    let pre = *old(self);
                                    assert(pre.spec_pos() >= 1);
                                    assert(prev_ix == pre.order_view()[pre.spec_pos() - 1]);
                                    assert(self.valid(prev_ix as int));
                                    assert(prev_ix != ix);
                                }
                                match &mut self.slots[prev_ix] {
                                    Some(gc_box) => gc_box.next = next,
                                    None => {
                                        proof {
                                            assert(false);
                                        }
                                    }
                                }
                            }
                            None => {
                                self.head = next;
                            }
                        }
                        let ghost relinked = *self;
                        self.slots.set(ix, None);
                        self.free.push(ix);
                        proof {
                            self.order@ = self.order@.remove(self.pos@);
                            Self::lemma_sweep_free_reestablish(
                                *old(self),
                                relinked,
                                *self,
                                ix,
                            );
                        }
                    }
                    GcColor::Black => {
                        // a survivor: recolor white for the next cycle
                        match &mut self.slots[ix] {
                            Some(gc_box) => gc_box.color = GcColor::White,
                            None => {
                                proof {
                                    assert(false);
                                }
                            }
                        }
                        self.sweep_prev = Some(ix);
                        proof {
                            self.pos@ = self.pos@ + 1;
                            Self::lemma_sweep_keep_reestablish(*old(self), *self, ix);
                        }
                    }
                    GcColor::Gray => {
                        proof {
                            assert(!(old(self).color_of(ix as int) is Gray));
                            assert(false);
                        }
                    }
                }
            }
        }
    }


    /// Drive the collector's state machine by one step: from sleep it
    /// begins a cycle; waking visits one list node; marking scans one
    /// gray object; sweeping inspects one list node. Objects only
    /// disappear when they are unreachable, survivors keep their payload
    /// and root count, reachability is untouched, and an object that is
    /// safe for the current cycle stays safe: in particular, one
    /// allocated during a sweep is never reclaimed in that cycle.
    pub fn step(&mut self)
        requires
            old(self).inv(),
        ensures
            final(self).inv(),
            old(self).phase() is Sleep ==> final(self).phase() is Wake,
            forall|i: int| final(self).valid(i) ==> old(self).valid(i),
            forall|i: int|
                final(self).valid(i) ==> #[trigger] final(self).value_of(i) == old(
                    self,
                ).value_of(i),
            forall|i: int|
                final(self).valid(i) ==> #[trigger] final(self).root_of(i) == old(self).root_of(
                    i,
                ),
            forall|i: int|
                old(self).valid(i) && !final(self).valid(i) ==> !old(self).reachable(i),
            forall|i: int| final(self).reachable(i) <==> old(self).reachable(i),
            old(self).phase() is Sweep ==> (forall|i: int|
                old(self).committed(i) ==> #[trigger] final(self).committed(i)),
            final(self).phase() is Sleep && !(old(self).phase() is Sleep) ==> (forall|i: int|
                final(self).valid(i) ==> final(self).reachable(i) && final(self).color_of(
                    i,
                ) is White),
            !(old(self).phase() is Sleep) ==> final(self).phase_rank() < old(self).phase_rank()
                || (final(self).phase_rank() == old(self).phase_rank() && (final(self).measure1()
                < old(self).measure1() || (final(self).measure1() == old(self).measure1()
                && final(self).measure2() < old(self).measure2()))),
    {
        let phase = self.current_phase();
        match phase {
            CollectState::Sleep => {
                self.wake_entry();
            }
            CollectState::Wake => {
                self.wake_step();
            }
            CollectState::Mark => {
                self.mark_step();
            }
            CollectState::Sweep => {
                self.sweep_step();
            }
        }
    }

    /// Run a complete garbage collection cycle and return once the
    /// collector sleeps again. Exactly the objects that were reachable
    /// from an externally rooted object survive; each keeps its payload
    /// and root count and is white again, ready for the next cycle.
    pub fn collect(&mut self)
        requires
            old(self).inv(),
            old(self).phase() is Sleep,
        ensures
            final(self).inv(),
            final(self).phase() is Sleep,
            forall|i: int| final(self).valid(i) <==> old(self).reachable(i),
            forall|i: int|
                final(self).valid(i) ==> #[trigger] final(self).value_of(i) == old(
                    self,
                ).value_of(i),
            forall|i: int|
                final(self).valid(i) ==> #[trigger] final(self).root_of(i) == old(self).root_of(
                    i,
                ),
            forall|i: int|
                final(self).valid(i) ==> #[trigger] final(self).color_of(i) is White,
            forall|i: int| final(self).reachable(i) <==> old(self).reachable(i),
            cycle_result(*old(self), *final(self)),
    {
        self.step();
        while !self.is_asleep()
            invariant
                self.inv(),
                forall|i: int| self.valid(i) ==> old(self).valid(i),
                forall|i: int|
                    self.valid(i) ==> #[trigger] self.value_of(i) == old(self).value_of(i),
                forall|i: int|
                    self.valid(i) ==> #[trigger] self.root_of(i) == old(self).root_of(i),
                forall|i: int|
                    old(self).valid(i) && !self.valid(i) ==> !old(self).reachable(i),
                forall|i: int| self.reachable(i) <==> old(self).reachable(i),
                self.phase() is Sleep ==> (forall|i: int|
                    self.valid(i) ==> self.reachable(i) && #[trigger] self.color_of(
                        i,
                    ) is White),
            decreases self.phase_rank(), self.measure1(), self.measure2(),
        {
            self.step();
        }
        proof {
            assert forall|i: int| final(self).valid(i) implies old(self).reachable(i) by {
                let color = final(self).color_of(i);
                assert(final(self).reachable(i));
            };
            assert forall|i: int| old(self).reachable(i) implies final(self).valid(i) by {
                old(self).lemma_reachable_valid(i);
                if !final(self).valid(i) {
                    assert(!old(self).reachable(i));
                }
            };
        }
    }

    /// Borrow the payload of a live object.
    pub fn get(&self, ptr: Gc) -> (value: &T)
        requires
            self.valid(ptr.id()),
        ensures
            value == self.value_of(ptr.id()),
    {
        let ix = ptr.inner();
        match &self.slots[ix] {
            Some(gc_box) => gc_box.value(),
            None => {
                proof {
                    assert(false);
                }
                unreached()
            }
        }
    }

    /// Count outstanding external roots for the object: the handle moves
    /// back out of the heap graph, or a new handle to the same object
    /// comes into being.
    pub fn root_ptr(&mut self, ptr: Gc)
        requires
            old(self).inv(),
            old(self).phase() is Sleep,
            old(self).valid(ptr.id()),
            old(self).root_of(ptr.id()) < u32::MAX,
        ensures
            final(self).inv(),
            final(self).phase() is Sleep,
            final(self).root_of(ptr.id()) == old(self).root_of(ptr.id()) + 1,
            forall|i: int| final(self).valid(i) <==> old(self).valid(i),
            forall|i: int|
                old(self).valid(i) && i != ptr.id() ==> final(self).box_of(i) == old(
                    self,
                ).box_of(i),
            final(self).value_of(ptr.id()) == old(self).value_of(ptr.id()),
            final(self).color_of(ptr.id()) == old(self).color_of(ptr.id()),
            final(self).next_of(ptr.id()) == old(self).next_of(ptr.id()),
            final(self).order_view() == old(self).order_view(),
    {
        let ix = ptr.inner();
        match &mut self.slots[ix] {
            Some(gc_box) => gc_box.incr(),
            None => {
                proof {
                    assert(false);
                }
            }
        }
        proof {
            assert(forall|i: int| final(self).valid(i) <==> old(self).valid(i));
            assert(forall|i: int|
                old(self).valid(i) && i != ptr.id() ==> final(self).box_of(i) == old(
                    self,
                ).box_of(i));
            assert(final(self).color_of(ptr.id()) == old(self).color_of(ptr.id()));
            assert(final(self).value_of(ptr.id()) == old(self).value_of(ptr.id()));
            assert(final(self).next_of(ptr.id()) == old(self).next_of(ptr.id()));
            assert forall|i: int| final(self).valid(i) implies final(self).edges_valid_at(
                i,
            ) by {
                assert(old(self).edges_valid_at(i));
                assert(final(self).edges(i) == old(self).edges(i));
            };
            assert forall|i: int| final(self).valid(i) implies #[trigger] final(self).color_of(i) is White by {
                assert(old(self).color_of(i) is White);
                if i != ptr.id() {
                    assert(final(self).box_of(i) == old(self).box_of(i));
                }
            };
            assert forall|i: int| old(self).valid(i) implies #[trigger] final(self).next_of(
                i,
            ) == old(self).next_of(i) by {
                if i != ptr.id() {
                    assert(final(self).box_of(i) == old(self).box_of(i));
                }
            };
            Self::lemma_list_wf_preserved(*old(self), *final(self));
            assert(final(self).sleep_inv());
        }
    }

    /// Discount one outstanding external root for the object, never
    /// underflowing: a handle was dropped, or was transferred into the
    /// heap graph.
    pub fn unroot_ptr(&mut self, ptr: Gc)
        requires
            old(self).inv(),
            old(self).phase() is Sleep,
            old(self).valid(ptr.id()),
        ensures
            final(self).inv(),
            final(self).phase() is Sleep,
            final(self).root_of(ptr.id()) == (if old(self).root_of(ptr.id()) > 0 {
                old(self).root_of(ptr.id()) - 1
            } else {
                0
            }),
            forall|i: int| final(self).valid(i) <==> old(self).valid(i),
            forall|i: int|
                old(self).valid(i) && i != ptr.id() ==> final(self).box_of(i) == old(
                    self,
                ).box_of(i),
            final(self).value_of(ptr.id()) == old(self).value_of(ptr.id()),
            final(self).color_of(ptr.id()) == old(self).color_of(ptr.id()),
            final(self).next_of(ptr.id()) == old(self).next_of(ptr.id()),
            final(self).order_view() == old(self).order_view(),
    {
        let ix = ptr.inner();
        match &mut self.slots[ix] {
            Some(gc_box) => gc_box.dec(),
            None => {
                proof {
                    assert(false);
                }
            }
        }
        proof {
            assert(forall|i: int| final(self).valid(i) <==> old(self).valid(i));
            assert(forall|i: int|
                old(self).valid(i) && i != ptr.id() ==> final(self).box_of(i) == old(
                    self,
                ).box_of(i));
            assert(final(self).color_of(ptr.id()) == old(self).color_of(ptr.id()));
            assert(final(self).value_of(ptr.id()) == old(self).value_of(ptr.id()));
            assert(final(self).next_of(ptr.id()) == old(self).next_of(ptr.id()));
            assert forall|i: int| final(self).valid(i) implies final(self).edges_valid_at(
                i,
            ) by {
                assert(old(self).edges_valid_at(i));
                assert(final(self).edges(i) == old(self).edges(i));
            };
            assert forall|i: int| final(self).valid(i) implies #[trigger] final(self).color_of(i) is White by {
                assert(old(self).color_of(i) is White);
                if i != ptr.id() {
                    assert(final(self).box_of(i) == old(self).box_of(i));
                }
            };
            assert forall|i: int| old(self).valid(i) implies #[trigger] final(self).next_of(
                i,
            ) == old(self).next_of(i) by {
                if i != ptr.id() {
                    assert(final(self).box_of(i) == old(self).box_of(i));
                }
            };
            Self::lemma_list_wf_preserved(*old(self), *final(self));
            assert(final(self).sleep_inv());
        }
    }

    /// Returns the number of objects that are currently allocated, by
    /// walking the object list.
    pub fn len(&self) -> (count: usize)
        requires
            self.inv(),
        ensures
            count == self.live_count(),
    {
        proof {
            self.lemma_order_len_bounded();
        }
        let mut cursor: Option<usize> = self.head;
        let mut count: usize = 0;
        while cursor.is_some()
            invariant
                self.inv(),
                0 <= count <= self.order_view().len(),
                cursor == self.cursor_at(count as int),
                self.order_view().len() <= usize::MAX,
            decreases self.order_view().len() - count,
        {
            let ix = match cursor {
                Some(ix) => ix,
                None => {
                    proof {
                        assert(false);
                    }
                    unreached()
                }
            };
            proof {
                assert(self.valid(ix as int));
                assert(self.next_of(ix as int) == self.cursor_at(count as int + 1));
            }
            count = count + 1;
            cursor = match &self.slots[ix] {
                Some(gc_box) => gc_box.next,
                None => {
                    proof {
                        assert(false);
                    }
                    unreached()
                }
            };
        }
        count
    }

    #[inline(always)]
    pub fn is_empty(&self) -> (r: bool)
        requires
            self.inv(),
        ensures
            r == (self.live_count() == 0),
    {
        self.len() == 0
    }

    /// Whether the collector could be torn down right now. Nothing
    /// prevents it: dropping the arena frees every remaining object.
    pub fn can_drop(&self) -> (r: bool)
        ensures
            r,
    {
        true
    }
}

impl<T: Scan> Default for Collector<T> {
    fn default() -> (collector: Collector<T>)
        ensures
            collector.inv(),
            collector.phase() is Sleep,
            collector.live_count() == 0,
            forall|i: int| !collector.valid(i),
    {
        Collector::new()
    }
}

impl<T: Scan> Collector<T> {

    /// The object list is no longer than the arena, and so fits in
    /// `usize`.
    proof fn lemma_order_len_bounded(&self)
        requires
            self.list_wf(),
        ensures
            self.order@.len() <= self.n_slots(),
            self.order@.len() <= usize::MAX,
    {
        broadcast use vstd::std_specs::vec::axiom_spec_len;

        assert forall|k: int| 0 <= k < self.order@.len() implies (
        #[trigger] self.order@[k] as int) < self.n_slots() by {
            assert(self.valid(self.order@[k] as int));
        };
        lemma_distinct_indices_bounded(self.order@, self.n_slots());
        assert(self.slots.len() == self.slots@.len());
    }

    /// Every node on a path is itself reachable (through the path's
    /// prefix ending there).
    proof fn lemma_path_nodes_reachable(self, path: Seq<int>)
        requires
            self.is_gc_path(path),
        ensures
            forall|k: int| 0 <= k < path.len() ==> self.reachable(#[trigger] path[k]),
    {
        reveal(reachable_in);
        assert forall|k: int| 0 <= k < path.len() implies self.reachable(#[trigger] path[k]) by {
            let prefix = path.take(k + 1);
            assert(self.is_gc_path(prefix));
            assert(prefix.last() == path[k]);
        };
    }

    /// Walking a path stays inside any class of objects that contains
    /// the rooted objects and is closed under edges.
    proof fn lemma_path_in_closed(self, cl: spec_fn(int) -> bool, path: Seq<int>)
        requires
            self.is_gc_path(path),
            forall|i: int| self.valid(i) && #[trigger] self.root_of(i) > 0 ==> cl(i),
            forall|i: int, k: int|
                #![trigger cl(i), self.edges(i)[k]]
                cl(i) && self.valid(i) && 0 <= k < self.edges(i).len() ==> cl(
                    self.edges(i)[k].id(),
                ),
        ensures
            cl(path.last()),
        decreases path.len(),
    {
        if path.len() == 1 {
            assert(cl(path[0]));
        } else {
            let prefix = path.drop_last();
            assert(self.is_gc_path(prefix));
            self.lemma_path_in_closed(cl, prefix);
            let prev = path[path.len() - 2];
            assert(self.has_edge(prev, path.last()));
            let k = choose|k: int|
                0 <= k < self.edges(prev).len() && self.edges(prev)[k].id() == path.last();
            assert(cl(self.edges(prev)[k].id()));
        }
    }


    /// Two states that agree on an object's edges agree on its outgoing
    /// edge relation.
    proof fn lemma_has_edge_same(pre: Self, post: Self, a: int, b: int)
        requires
            post.edges(a) == pre.edges(a),
            pre.has_edge(a, b),
        ensures
            post.has_edge(a, b),
    {
        let e = choose|e: int| 0 <= e < pre.edges(a).len() && pre.edges(a)[e].id() == b;
        assert(post.edges(a)[e].id() == b);
    }

    /// Every node on a well-formed path is live.
    proof fn lemma_path_nodes_valid(self, path: Seq<int>)
        requires
            self.is_gc_path(path),
        ensures
            forall|k: int| 0 <= k < path.len() ==> self.valid(#[trigger] path[k]),
    {
        assert forall|k: int| 0 <= k < path.len() implies self.valid(#[trigger] path[k]) by {
            if k > 0 {
                let j = k - 1;
                assert(0 <= j < path.len() - 1);
                assert(self.valid(path[j]) && self.valid(path[j + 1]) && self.has_edge(
                    path[j],
                    path[j + 1],
                ));
                assert(path[j + 1] == path[k]);
            }
        };
    }

    /// Allocation loses no reachability: every object reachable before
    /// stays reachable after, because a transferred handle's root moves
    /// onto the new rooted node, which points straight at its object.
    proof fn lemma_alloc_preserves_reachable(pre: Self, post: Self, ix: int, ptrs: Seq<Gc>)
        requires
            !pre.valid(ix),
            post.valid(ix),
            post.root_of(ix) > 0,
            post.edges(ix) == ptrs,
            forall|i: int| i != ix ==> (post.valid(i) <==> pre.valid(i)),
            forall|i: int| pre.valid(i) ==> #[trigger] post.edges(i) == pre.edges(i),
            forall|i: int|
                pre.valid(i) ==> #[trigger] post.root_of(i) == sat_sub(
                    pre.root_of(i),
                    count_in(ptrs, i),
                ),
        ensures
            forall|i: int| pre.reachable(i) ==> post.reachable(i),
    {
        reveal(reachable_in);
        assert forall|i: int| pre.reachable(i) implies post.reachable(i) by {
            let path = choose|path: Seq<int>| pre.is_gc_path(path) && path.last() == i;
            pre.lemma_path_nodes_valid(path);
            if post.root_of(path[0]) > 0 {
                assert forall|k: int|
                    0 <= k < path.len() - 1 implies post.valid(#[trigger] path[k]) && post.valid(
                    path[k + 1],
                ) && post.has_edge(path[k], path[k + 1]) by {
                    Self::lemma_has_edge_same(pre, post, path[k], path[k + 1]);
                };
                assert(post.is_gc_path(path));
                assert(post.reachable(i));
            } else {
                assert(post.root_of(path[0]) == sat_sub(pre.root_of(path[0]), count_in(
                    ptrs,
                    path[0],
                )));
                assert(count_in(ptrs, path[0]) > 0);
                lemma_count_in_pos(ptrs, path[0]);
                let e = choose|k: int| 0 <= k < ptrs.len() && (#[trigger] ptrs[k]).id() == path[0];
                let path2 = seq![ix] + path;
                assert(path2.last() == i);
                assert(post.edges(ix)[e].id() == path[0]);
                assert(post.has_edge(ix, path[0]));
                assert forall|k: int|
                    0 <= k < path2.len() - 1 implies post.valid(#[trigger] path2[k]) && post.valid(
                    path2[k + 1],
                ) && post.has_edge(path2[k], path2[k + 1]) by {
                    if k == 0 {
                        assert(path2[0] == ix);
                        assert(path2[1] == path[0]);
                    } else {
                        assert(path2[k] == path[k - 1]);
                        assert(path2[k + 1] == path[k]);
                        Self::lemma_has_edge_same(pre, post, path[k - 1], path[k]);
                    }
                };
                assert(path2[0] == ix);
                assert(post.is_gc_path(path2));
                assert(post.reachable(i));
            }
        };
    }


    /// After an allocation during a sweep, the sweep invariant holds
    /// again: the new node sits in the processed region in front of the
    /// cursor, and the survivor set has gained exactly that node.
    #[verifier::rlimit(100)]
    proof fn lemma_alloc_sweep_reestablish(pre: Self, post: Self, ix: usize, ptrs: Seq<Gc>)
        requires
            pre.n_slots() <= usize::MAX,
            pre.list_wf(),
            pre.phase() is Sweep,
            pre.sweep_inv(),
            post.phase() is Sweep,
            post.list_wf(),
            post.order_view() == seq![ix] + pre.order_view(),
            post.spec_pos() == pre.spec_pos() + 1,
            post.sweep_cursor_field() == pre.sweep_cursor_field(),
            pre.spec_pos() == 0 ==> post.sweep_prev_field() == Some(ix),
            pre.spec_pos() != 0 ==> post.sweep_prev_field() == pre.sweep_prev_field(),
            post.gray_field() == pre.gray_field(),
            post.wake_field() == pre.wake_field(),
            !pre.valid(ix as int),
            post.valid(ix as int),
            post.root_of(ix as int) == 1,
            post.color_of(ix as int) is White,
            post.edges(ix as int) == ptrs,
            forall|i: int| i != ix as int ==> (post.valid(i) <==> pre.valid(i)),
            forall|i: int|
                pre.valid(i) ==> #[trigger] post.value_of(i) == pre.value_of(i),
            forall|i: int|
                pre.valid(i) ==> #[trigger] post.color_of(i) == pre.color_of(i),
            forall|i: int| pre.valid(i) ==> #[trigger] post.edges(i) == pre.edges(i),
            forall|i: int|
                pre.valid(i) ==> #[trigger] post.root_of(i) == sat_sub(
                    pre.root_of(i),
                    count_in(ptrs, i),
                ),
            forall|e: int|
                0 <= e < ptrs.len() ==> pre.committed((#[trigger] ptrs[e]).id()),
            forall|i: int| pre.reachable(i) ==> post.reachable(i),
            post.reachable(ix as int),
        ensures
            post.sweep_inv(),
            post.committed(ix as int),
            forall|i: int| pre.committed(i) ==> #[trigger] post.committed(i),
    {
        let ord = pre.order_view();
        let ordp = post.order_view();
        assert(pre.sweep_inv());
        assert(post.spec_pos() == pre.spec_pos() + 1);
        assert(post.sweep == pre.sweep);
        assert forall|j: int| 0 <= j < post.spec_pos() implies #[trigger] post.color_of(
            ordp[j] as int,
        ) is White by {
            if j > 0 {
                let q = j - 1;
                assert(ordp[j] == ord[q]);
                assert(pre.color_of(ord[q] as int) is White);
            }
        };
        assert forall|j: int|
            post.spec_pos() <= j < ordp.len() implies !(#[trigger] post.color_of(
            ordp[j] as int,
        ) is Gray) && (post.root_of(ordp[j] as int) > 0 ==> post.color_of(
            ordp[j] as int,
        ) is Black) by {
            let q = j - 1;
            assert(ordp[j] == ord[q]);
            assert(pre.valid(ord[q] as int));
            assert(!(pre.color_of(ord[q] as int) is Gray));
            assert(post.root_of(ord[q] as int) <= pre.root_of(ord[q] as int));
            if pre.root_of(ord[q] as int) > 0 {
                assert(pre.color_of(ord[q] as int) is Black);
            }
        };
        // Cursor bookkeeping.
        assert(post.sweep == post.cursor_at(post.spec_pos())) by {
            if 0 <= pre.spec_pos() < ord.len() {
                assert(ordp[pre.spec_pos() + 1] == ord[pre.spec_pos()]);
            }
        };
        assert(post.sweep_prev == Some(ordp[post.spec_pos() - 1])) by {
            if pre.spec_pos() == 0 {
                assert(post.sweep_prev == Some(ix));
                assert(ordp[0] == ix);
            } else {
                assert(pre.sweep_prev == Some(ord[pre.spec_pos() - 1]));
                assert(ordp[pre.spec_pos()] == ord[pre.spec_pos() - 1]);
            }
        };
        // Membership in the survivor set is preserved and gained
        // by the new node.
        assert(post.committed(ix as int)) by {
            assert(post.order_view()[0] == ix);
            assert(post.spec_pos() >= 1);
        };
        assert forall|i: int| pre.committed(i) implies #[trigger] post.committed(i) by {
            if pre.color_of(i) is Black {
                assert(post.color_of(i) == pre.color_of(i));
            } else {
                let j = choose|j: int|
                    0 <= j < pre.spec_pos() && pre.order_view()[j] == i as usize;
                assert(ordp[j + 1] == i as usize);
            }
        };
        assert forall|i: int| post.committed(i) && i != ix as int implies pre.committed(
            i,
        ) by {
            assert(pre.valid(i));
            if post.color_of(i) is Black {
                assert(pre.color_of(i) is Black);
            } else {
                let j = choose|j: int|
                    0 <= j < post.spec_pos() && post.order_view()[j] == i as usize;
                assert(j != 0);
                let m = j - 1;
                assert(pre.order_view()[m] == i as usize);
                assert(0 <= m < pre.spec_pos());
            }
        };
        // Survivors still point only at survivors.
        assert forall|i: int| post.committed(i) implies #[trigger] post.committed_edges_ok(
            i,
        ) by {
            assert forall|e: int| 0 <= e < post.edges(i).len() implies post.committed(
                (#[trigger] post.edges(i)[e]).id(),
            ) by {
                if i == ix as int {
                    assert(pre.committed(ptrs[e].id()));
                } else {
                    assert(pre.committed(i));
                    assert(pre.committed_edges_ok(i));
                    assert(pre.committed(pre.edges(i)[e].id()));
                }
            };
        };
        // Condemned objects ahead of the cursor stay unreachable.
        let cl = |i: int| i == ix as int || pre.committed(i);
        assert forall|i: int| post.valid(i) && #[trigger] post.root_of(i) > 0 implies cl(
            i,
        ) by {
            if i != ix as int {
                assert(pre.root_of(i) > 0);
                assert(pre.valid(i));
                let q = choose|q: int| 0 <= q < ord.len() && ord[q] == i as usize;
                if q >= pre.spec_pos() {
                    assert(pre.color_of(i) is Black);
                }
            }
        };
        assert forall|i: int, e: int|
            #![trigger cl(i), post.edges(i)[e]]
            cl(i) && post.valid(i) && 0 <= e < post.edges(i).len() implies cl(
            post.edges(i)[e].id(),
        ) by {
            if i == ix as int {
                assert(pre.committed(ptrs[e].id()));
            } else {
                assert(pre.committed_edges_ok(i));
                assert(pre.committed(pre.edges(i)[e].id()));
            }
        };
        post.lemma_reachable_in_closed(cl);
        assert forall|j: int|
            post.spec_pos() <= j < ordp.len() && #[trigger] post.color_of(
            ordp[j] as int,
        ) is White implies !post.reachable(ordp[j] as int) by {
            let q = j - 1;
            assert(ordp[j] == ord[q]);
            let i = ord[q] as int;
            assert(!pre.reachable(i));
            if post.reachable(i) {
                assert(cl(i));
                assert(i != ix as int);
                assert(pre.committed(i));
                if pre.color_of(i) is Black {
                    assert(false);
                } else {
                    let m = choose|m: int|
                        0 <= m < pre.spec_pos() && pre.order_view()[m] == i as usize;
                    assert(ord[m] == ord[q]);
                    assert(m != q);
                    assert(false);
                }
            }
        };
        // Survivors are reachable.
        assert forall|i: int| #[trigger] post.committed(i) implies post.reachable(i) by {
            if i != ix as int {
                assert(pre.committed(i));
                assert(pre.reachable(i));
            }
        };

        assert(post.sweep_inv());
    }


    /// Reachability depends only on which objects are live, their root
    /// counts and their edges.
    proof fn lemma_reachable_preserved(a: Self, b: Self)
        requires
            forall|i: int| a.valid(i) <==> b.valid(i),
            forall|i: int| a.valid(i) ==> #[trigger] a.root_of(i) == b.root_of(i),
            forall|i: int| a.valid(i) ==> #[trigger] a.edges(i) == b.edges(i),
        ensures
            forall|i: int| a.reachable(i) <==> b.reachable(i),
    {
        reveal(reachable_in);
        assert forall|i: int| a.reachable(i) implies b.reachable(i) by {
            let path = choose|path: Seq<int>| a.is_gc_path(path) && path.last() == i;
            a.lemma_path_nodes_valid(path);
            assert forall|k: int|
                0 <= k < path.len() - 1 implies b.valid(#[trigger] path[k]) && b.valid(
                path[k + 1],
            ) && b.has_edge(path[k], path[k + 1]) by {
                Self::lemma_has_edge_same(a, b, path[k], path[k + 1]);
            };
            assert(b.is_gc_path(path) && path.last() == i);
            assert(b.reachable(i));
        };
        assert forall|i: int| b.reachable(i) implies a.reachable(i) by {
            let path = choose|path: Seq<int>| b.is_gc_path(path) && path.last() == i;
            b.lemma_path_nodes_valid(path);
            assert forall|k: int|
                0 <= k < path.len() - 1 implies a.valid(#[trigger] path[k]) && a.valid(
                path[k + 1],
            ) && a.has_edge(path[k], path[k + 1]) by {
                Self::lemma_has_edge_same(b, a, path[k], path[k + 1]);
            };
            assert(a.is_gc_path(path) && path.last() == i);
            assert(a.reachable(i));
        };
    }

    /// Freeing an unreachable object changes no other object's
    /// reachability: no path from a root runs through it.
    proof fn lemma_reachable_after_free(a: Self, b: Self, w: int)
        requires
            a.valid(w),
            !a.reachable(w),
            !b.valid(w),
            forall|i: int| i != w ==> (a.valid(i) <==> b.valid(i)),
            forall|i: int| a.valid(i) && i != w ==> #[trigger] a.root_of(i) == b.root_of(i),
            forall|i: int| a.valid(i) && i != w ==> #[trigger] a.edges(i) == b.edges(i),
        ensures
            forall|i: int| i != w ==> (a.reachable(i) <==> b.reachable(i)),
            !b.reachable(w),
    {
        reveal(reachable_in);
        assert forall|i: int| a.reachable(i) && i != w implies b.reachable(i) by {
            let path = choose|path: Seq<int>| a.is_gc_path(path) && path.last() == i;
            a.lemma_path_nodes_valid(path);
            a.lemma_path_nodes_reachable(path);
            assert forall|k: int| 0 <= k < path.len() implies #[trigger] path[k] != w by {
                assert(a.reachable(path[k]));
            };
            assert forall|k: int|
                0 <= k < path.len() - 1 implies b.valid(#[trigger] path[k]) && b.valid(
                path[k + 1],
            ) && b.has_edge(path[k], path[k + 1]) by {
                Self::lemma_has_edge_same(a, b, path[k], path[k + 1]);
            };
            assert(b.is_gc_path(path) && path.last() == i);
            assert(b.reachable(i));
        };
        assert forall|i: int| b.reachable(i) implies a.reachable(i) && i != w by {
            let path = choose|path: Seq<int>| b.is_gc_path(path) && path.last() == i;
            b.lemma_path_nodes_valid(path);
            assert forall|k: int| 0 <= k < path.len() implies #[trigger] path[k] != w by {
                assert(b.valid(path[k]));
            };
            assert forall|k: int|
                0 <= k < path.len() - 1 implies a.valid(#[trigger] path[k]) && a.valid(
                path[k + 1],
            ) && a.has_edge(path[k], path[k + 1]) by {
                Self::lemma_has_edge_same(b, a, path[k], path[k + 1]);
            };
            assert(a.is_gc_path(path) && path.last() == i);
            assert(a.reachable(i));
        };
    }


    /// Pointwise header preservation gives pointwise field preservation.
    proof fn lemma_boxes_preserved(pre: Self, post: Self, except: int)
        requires
            forall|i: int| post.valid(i) <==> pre.valid(i),
            forall|i: int|
                pre.valid(i) && i != except ==> #[trigger] post.box_of(i) == pre.box_of(i),
            pre.valid(except) ==> post.value_of(except) == pre.value_of(except)
                && post.root_of(except) == pre.root_of(except) && post.next_of(except)
                == pre.next_of(except),
        ensures
            forall|i: int| pre.valid(i) ==> #[trigger] post.value_of(i) == pre.value_of(i),
            forall|i: int| pre.valid(i) ==> #[trigger] post.root_of(i) == pre.root_of(i),
            forall|i: int| pre.valid(i) ==> #[trigger] post.next_of(i) == pre.next_of(i),
            forall|i: int| pre.valid(i) ==> #[trigger] post.edges(i) == pre.edges(i),
            forall|i: int|
                pre.valid(i) && i != except ==> #[trigger] post.color_of(i) == pre.color_of(i),
            forall|i: int| post.reachable(i) <==> pre.reachable(i),
    {
        assert forall|i: int| pre.valid(i) implies #[trigger] post.value_of(i) == pre.value_of(
            i,
        ) by {
            if i != except {
                assert(post.box_of(i) == pre.box_of(i));
            }
        };
        assert forall|i: int| pre.valid(i) implies #[trigger] post.root_of(i) == pre.root_of(
            i,
        ) by {
            if i != except {
                assert(post.box_of(i) == pre.box_of(i));
            }
        };
        assert forall|i: int| pre.valid(i) implies #[trigger] post.next_of(i) == pre.next_of(
            i,
        ) by {
            if i != except {
                assert(post.box_of(i) == pre.box_of(i));
            }
        };
        assert forall|i: int| pre.valid(i) implies #[trigger] post.edges(i) == pre.edges(i) by {
            if i != except {
                assert(post.box_of(i) == pre.box_of(i));
            }
        };
        assert forall|i: int|
            pre.valid(i) && i != except implies #[trigger] post.color_of(i) == pre.color_of(
            i,
        ) by {
            assert(post.box_of(i) == pre.box_of(i));
        };
        Self::lemma_reachable_preserved(pre, post);
    }

    /// List well-formedness only reads the list fields and each
    /// object's link.
    proof fn lemma_list_wf_preserved(pre: Self, post: Self)
        requires
            pre.list_wf(),
            forall|i: int| post.valid(i) <==> pre.valid(i),
            forall|i: int| pre.valid(i) ==> #[trigger] post.next_of(i) == pre.next_of(i),
            post.order_view() == pre.order_view(),
            post.free_list() == pre.free_list(),
            post.head_field() == pre.head_field(),
            post.n_slots() == pre.n_slots(),
        ensures
            post.list_wf(),
    {
        let ord = post.order_view();
        assert forall|k: int| 0 <= k < ord.len() implies post.next_of(
            #[trigger] ord[k] as int,
        ) == post.cursor_at(k + 1) by {
            assert(pre.valid(ord[k] as int));
            assert(pre.next_of(ord[k] as int) == pre.cursor_at(k + 1));
            assert(post.cursor_at(k + 1) == pre.cursor_at(k + 1));
        };
    }

    /// The gray queue stays exact when a white object is pushed onto it
    /// while turning gray.
    proof fn lemma_gray_wf_after_push(pre: Self, post: Self, ptr: Gc)
        requires
            pre.gray_wf(),
            pre.valid(ptr.id()),
            pre.color_of(ptr.id()) is White,
            post.color_of(ptr.id()) is Gray,
            post.gray_field() == pre.gray_field().push(ptr),
            forall|i: int| post.valid(i) <==> pre.valid(i),
            forall|i: int|
                pre.valid(i) && i != ptr.id() ==> #[trigger] post.color_of(i) == pre.color_of(
                    i,
                ),
        ensures
            post.gray_wf(),
    {
        let mapped_pre = pre.gray_field().map_values(|q: Gc| q.id());
        let mapped_post = post.gray_field().map_values(|q: Gc| q.id());
        assert(mapped_post =~= mapped_pre.push(ptr.id()));
        assert(!mapped_pre.contains(ptr.id())) by {
            if mapped_pre.contains(ptr.id()) {
                let q = choose|q: int| 0 <= q < mapped_pre.len() && mapped_pre[q] == ptr.id();
                assert(pre.color_of(pre.gray_field()[q].id()) is Gray);
            }
        }
        assert(mapped_post.no_duplicates());
        assert forall|q: int| 0 <= q < post.gray_field().len() implies post.valid(
            (#[trigger] post.gray_field()[q]).id(),
        ) && post.color_of(post.gray_field()[q].id()) is Gray by {
            if q < pre.gray_field().len() {
                assert(pre.valid(pre.gray_field()[q].id()));
                assert(pre.color_of(pre.gray_field()[q].id()) is Gray);
                assert(pre.gray_field()[q].id() != ptr.id());
            }
        };
        assert forall|i: int|
            post.valid(i) && post.color_of(i) is Gray implies mapped_post.contains(i) by {
            if i == ptr.id() {
                assert(mapped_post[mapped_post.len() - 1] == ptr.id());
            } else {
                assert(pre.color_of(i) is Gray);
                assert(mapped_pre.contains(i));
                let q = choose|q: int| 0 <= q < mapped_pre.len() && mapped_pre[q] == i;
                assert(mapped_post[q] == i);
            }
        };
    }


    /// Edge liveness carries over between states that agree on liveness
    /// and edges.
    proof fn lemma_edges_valid_all(pre: Self, post: Self)
        requires
            forall|i: int| post.valid(i) <==> pre.valid(i),
            forall|i: int| pre.valid(i) ==> #[trigger] post.edges(i) == pre.edges(i),
            forall|i: int| pre.valid(i) ==> #[trigger] pre.edges_valid_at(i),
        ensures
            forall|i: int| post.valid(i) ==> #[trigger] post.edges_valid_at(i),
    {
        assert forall|i: int| post.valid(i) implies #[trigger] post.edges_valid_at(i) by {
            assert(pre.edges_valid_at(i));
            assert(post.edges(i) == pre.edges(i));
            assert forall|e: int| 0 <= e < post.edges(i).len() implies post.valid(
                (#[trigger] post.edges(i)[e]).id(),
            ) by {
                assert(pre.valid(pre.edges(i)[e].id()));
            };
        };
    }


    /// After a sweep step that recolors a black survivor white, the
    /// sweep invariant holds with the cursor advanced past it.
    #[verifier::rlimit(100)]
    proof fn lemma_sweep_keep_reestablish(pre: Self, post: Self, ix: usize)
        requires
            pre.n_slots() <= usize::MAX,
            pre.inv(),
            pre.phase() is Sweep,
            0 <= pre.spec_pos() < pre.order_view().len(),
            ix == pre.order_view()[pre.spec_pos()],
            pre.color_of(ix as int) is Black,
            post.phase() is Sweep,
            post.order_view() == pre.order_view(),
            post.spec_pos() == pre.spec_pos() + 1,
            post.free_list() == pre.free_list(),
            post.head_field() == pre.head_field(),
            post.wake_field() == pre.wake_field(),
            post.gray_field() == pre.gray_field(),
            post.sweep_cursor_field() == pre.cursor_at(pre.spec_pos() + 1),
            post.sweep_prev_field() == Some(ix),
            post.n_slots() == pre.n_slots(),
            forall|i: int| post.valid(i) <==> pre.valid(i),
            forall|i: int|
                pre.valid(i) && i != ix as int ==> #[trigger] post.box_of(i) == pre.box_of(i),
            post.value_of(ix as int) == pre.value_of(ix as int),
            post.root_of(ix as int) == pre.root_of(ix as int),
            post.next_of(ix as int) == pre.next_of(ix as int),
            post.color_of(ix as int) is White,
        ensures
            post.inv(),
            forall|i: int|
                pre.valid(i) ==> #[trigger] post.value_of(i) == pre.value_of(i),
            forall|i: int| pre.valid(i) ==> #[trigger] post.root_of(i) == pre.root_of(i),
            forall|i: int| post.reachable(i) <==> pre.reachable(i),
            forall|i: int| pre.committed(i) ==> #[trigger] post.committed(i),
    {
        let ord = pre.order_view();
        let pos = pre.spec_pos();
        Self::lemma_boxes_preserved(pre, post, ix as int);
        Self::lemma_list_wf_preserved(pre, post);
        assert(post.sweep_cursor_field() == post.cursor_at(post.spec_pos()));
        assert(post.sweep_prev_field() == Some(ord[post.spec_pos() - 1]));
        assert forall|j: int| 0 <= j < post.spec_pos() implies #[trigger] post.color_of(
            ord[j] as int,
        ) is White by {
            if j < pos {
                assert(ord[j] != ix);
                assert(post.box_of(ord[j] as int) == pre.box_of(ord[j] as int));
                assert(pre.color_of(ord[j] as int) is White);
            }
        };
        assert forall|j: int|
            post.spec_pos() <= j < ord.len() implies !(#[trigger] post.color_of(
            ord[j] as int,
        ) is Gray) && (post.root_of(ord[j] as int) > 0 ==> post.color_of(
            ord[j] as int,
        ) is Black) by {
            assert(ord[j] != ix);
            assert(post.box_of(ord[j] as int) == pre.box_of(ord[j] as int));
            assert(!(pre.color_of(ord[j] as int) is Gray));
            if pre.root_of(ord[j] as int) > 0 {
                assert(pre.color_of(ord[j] as int) is Black);
            }
        };
        assert forall|i: int| pre.committed(i) implies #[trigger] post.committed(i) by {
            if pre.color_of(i) is Black {
                if i == ix as int {
                    assert(post.order_view()[pos] == i as usize);
                } else {
                    assert(post.box_of(i) == pre.box_of(i));
                    assert(post.color_of(i) is Black);
                }
            } else {
                let j = choose|j: int| 0 <= j < pos && pre.order_view()[j] == i as usize;
                assert(post.order_view()[j] == i as usize);
            }
        };
        assert forall|i: int| post.committed(i) implies pre.committed(i) by {
            assert(pre.valid(i));
            if post.color_of(i) is Black {
                assert(i != ix as int);
                assert(post.box_of(i) == pre.box_of(i));
                assert(pre.color_of(i) is Black);
            } else {
                let j = choose|j: int|
                    0 <= j < post.spec_pos() && post.order_view()[j] == i as usize;
                if j < pos {
                    assert(pre.order_view()[j] == i as usize);
                } else {
                    assert(i == ix as int);
                    assert(pre.color_of(i) is Black);
                }
            }
        };
        assert forall|i: int| post.committed(i) implies #[trigger] post.committed_edges_ok(
            i,
        ) by {
            assert(pre.committed(i));
            assert(pre.committed_edges_ok(i));
            assert(post.edges(i) == pre.edges(i));
            assert forall|e: int| 0 <= e < post.edges(i).len() implies post.committed(
                (#[trigger] post.edges(i)[e]).id(),
            ) by {
                assert(pre.committed(pre.edges(i)[e].id()));
            };
        };
        assert forall|j: int|
            post.spec_pos() <= j < ord.len() && #[trigger] post.color_of(
            ord[j] as int,
        ) is White implies !post.reachable(ord[j] as int) by {
            assert(ord[j] != ix);
            assert(post.box_of(ord[j] as int) == pre.box_of(ord[j] as int));
            assert(pre.color_of(ord[j] as int) is White);
            assert(!pre.reachable(ord[j] as int));
        };
        assert forall|i: int| #[trigger] post.committed(i) implies post.reachable(i) by {
            assert(pre.committed(i));
            assert(pre.reachable(i));
        };
        assert(post.sweep_inv());
    }

    /// After a sweep step that unlinks and reclaims a white object, the
    /// sweep invariant holds over the shortened list.
    #[verifier::rlimit(100)]
    proof fn lemma_sweep_free_reestablish(pre: Self, relinked: Self, post: Self, ix: usize)
        requires
            pre.n_slots() <= usize::MAX,
            pre.inv(),
            pre.phase() is Sweep,
            0 <= pre.spec_pos() < pre.order_view().len(),
            ix == pre.order_view()[pre.spec_pos()],
            pre.color_of(ix as int) is White,
            // unlinking rewrote one link or the head
            relinked.order_view() == pre.order_view(),
            relinked.spec_pos() == pre.spec_pos(),
            relinked.n_slots() == pre.n_slots(),
            relinked.free_list() == pre.free_list(),
            forall|i: int| relinked.valid(i) <==> pre.valid(i),
            pre.spec_pos() == 0 ==> relinked.head_field() == pre.cursor_at(1) && (forall|i: int|
                pre.valid(i) ==> #[trigger] relinked.box_of(i) == pre.box_of(i)),
            pre.spec_pos() > 0 ==> relinked.head_field() == pre.head_field() && (forall|i: int|
                pre.valid(i) && i != pre.order_view()[pre.spec_pos() - 1] as int
                    ==> #[trigger] relinked.box_of(i) == pre.box_of(i)) && relinked.value_of(
                pre.order_view()[pre.spec_pos() - 1] as int,
            ) == pre.value_of(pre.order_view()[pre.spec_pos() - 1] as int) && relinked.root_of(
                pre.order_view()[pre.spec_pos() - 1] as int,
            ) == pre.root_of(pre.order_view()[pre.spec_pos() - 1] as int) && relinked.color_of(
                pre.order_view()[pre.spec_pos() - 1] as int,
            ) == pre.color_of(pre.order_view()[pre.spec_pos() - 1] as int)
                && relinked.next_of(pre.order_view()[pre.spec_pos() - 1] as int)
                == pre.cursor_at(pre.spec_pos() + 1),
            // then the slot was cleared and put on the free list
            post.phase() is Sweep,
            post.order_view() == pre.order_view().remove(pre.spec_pos()),
            post.spec_pos() == pre.spec_pos(),
            post.n_slots() == pre.n_slots(),
            post.free_list() == pre.free_list().push(ix),
            post.head_field() == relinked.head_field(),
            post.wake_field() == pre.wake_field(),
            post.gray_field() == pre.gray_field(),
            post.sweep_cursor_field() == pre.cursor_at(pre.spec_pos() + 1),
            post.sweep_prev_field() == pre.sweep_prev_field(),
            !post.valid(ix as int),
            forall|i: int| i != ix as int ==> (post.valid(i) <==> pre.valid(i)),
            forall|i: int|
                relinked.valid(i) && i != ix as int ==> #[trigger] post.box_of(i)
                    == relinked.box_of(i),
        ensures
            post.inv(),
            forall|i: int| post.valid(i) ==> pre.valid(i),
            forall|i: int|
                post.valid(i) ==> #[trigger] post.value_of(i) == pre.value_of(i),
            forall|i: int| post.valid(i) ==> #[trigger] post.root_of(i) == pre.root_of(i),
            !pre.reachable(ix as int),
            forall|i: int| post.reachable(i) <==> pre.reachable(i),
            forall|i: int| pre.committed(i) ==> #[trigger] post.committed(i),
    {
        let ord = pre.order_view();
        let ordp = post.order_view();
        let pos = pre.spec_pos();
        let prev = if pos == 0 {
            -1
        } else {
            ord[pos - 1] as int
        };
        assert(!pre.committed(ix as int)) by {
            if exists|j: int| 0 <= j < pos && ord[j] == ix {
                let j = choose|j: int| 0 <= j < pos && ord[j] == ix;
                assert(j != pos);
                assert(false);
            }
        };
        assert(!pre.reachable(ix as int));

        // field preservation from pre through the relink and the clear
        assert forall|i: int| post.valid(i) implies #[trigger] post.value_of(i)
            == pre.value_of(i) && #[trigger] post.root_of(i) == pre.root_of(i)
            && #[trigger] post.color_of(i) == pre.color_of(i) && #[trigger] post.edges(i)
            == pre.edges(i) by {
            assert(post.box_of(i) == relinked.box_of(i));
            if i != prev {
                assert(relinked.box_of(i) == pre.box_of(i));
            }
        };

        // reachability: the relink touches no roots or edges, and the
        // cleared object was unreachable
        assert forall|i: int| pre.valid(i) implies #[trigger] relinked.edges(i) == pre.edges(
            i,
        ) && #[trigger] relinked.root_of(i) == pre.root_of(i) by {
            if i != prev {
                assert(relinked.box_of(i) == pre.box_of(i));
            }
        };
        Self::lemma_reachable_preserved(pre, relinked);
        assert forall|i: int|
            relinked.valid(i) && i != ix as int implies #[trigger] post.root_of(i)
            == relinked.root_of(i) && #[trigger] post.edges(i) == relinked.edges(i) by {
            assert(post.box_of(i) == relinked.box_of(i));
        };
        Self::lemma_reachable_after_free(relinked, post, ix as int);
        assert forall|i: int| post.reachable(i) <==> pre.reachable(i) by {
            if i == ix as int {
                if post.reachable(i) {
                    post.lemma_reachable_valid(i);
                }
            }
        };

        // the object list is whole again
        assert(ordp.no_duplicates()) by {
            assert forall|a: int, b: int| 0 <= a < b < ordp.len() implies ordp[a]
                != ordp[b] by {
                let aa = if a < pos {
                    a
                } else {
                    a + 1
                };
                let bb = if b < pos {
                    b
                } else {
                    b + 1
                };
                assert(ordp[a] == ord[aa]);
                assert(ordp[b] == ord[bb]);
            };
        };
        assert forall|q: int| 0 <= q < ordp.len() implies post.valid(
            #[trigger] ordp[q] as int,
        ) by {
            let qq = if q < pos {
                q
            } else {
                q + 1
            };
            assert(ordp[q] == ord[qq]);
            assert(qq != pos);
            assert(ord[qq] != ix);
            assert(pre.valid(ord[qq] as int));
        };
        assert(post.head_field() == post.cursor_at(0)) by {
            if pos == 0 {
                if ord.len() > 1 {
                    assert(ordp[0] == ord[1]);
                }
            } else {
                assert(ordp[0] == ord[0]);
            }
        };
        assert forall|q: int| 0 <= q < ordp.len() implies #[trigger] post.next_of(
            ordp[q] as int,
        ) == post.cursor_at(q + 1) by {
            let node = ordp[q] as int;
            if q < pos - 1 {
                assert(ordp[q] == ord[q]);
                assert(node != prev && node != ix as int);
                assert(post.box_of(node) == relinked.box_of(node));
                assert(relinked.box_of(node) == pre.box_of(node));
                assert(pre.next_of(node) == pre.cursor_at(q + 1));
                assert(ordp[q + 1] == ord[q + 1]);
            } else if q == pos - 1 {
                assert(ordp[q] == ord[q]);
                assert(node == prev);
                assert(post.box_of(node) == relinked.box_of(node));
                assert(relinked.next_of(node) == pre.cursor_at(pos + 1));
                if pos + 1 < ord.len() {
                    assert(ordp[pos] == ord[pos + 1]);
                }
            } else {
                assert(ordp[q] == ord[q + 1]);
                assert(node != prev && node != ix as int);
                assert(post.box_of(node) == relinked.box_of(node));
                assert(relinked.box_of(node) == pre.box_of(node));
                assert(pre.next_of(node) == pre.cursor_at(q + 2));
                if q + 2 < ord.len() {
                    assert(ordp[q + 1] == ord[q + 2]);
                }
            }
        };
        assert forall|i: int| post.valid(i) implies ordp.contains(i as usize) by {
            assert(pre.valid(i));
            assert(ord.contains(i as usize));
            let q = choose|q: int| 0 <= q < ord.len() && ord[q] == i as usize;
            assert(q != pos);
            if q < pos {
                assert(ordp[q] == i as usize);
            } else {
                assert(ordp[q - 1] == i as usize);
            }
        };
        // the free list is whole again
        assert(post.free_list().no_duplicates()) by {
            assert forall|a: int, b: int|
                0 <= a < b < post.free_list().len() implies post.free_list()[a]
                != post.free_list()[b] by {
                if b == post.free_list().len() - 1 {
                    assert(post.free_list()[b] == ix);
                    assert(pre.free_list()[a] != ix);
                }
            };
        };
        assert forall|q: int| 0 <= q < post.free_list().len() implies (
        #[trigger] post.free_list()[q] as int) < post.n_slots() && !post.valid(
            post.free_list()[q] as int,
        ) by {
            if q < pre.free_list().len() {
                assert(pre.free_list()[q] == post.free_list()[q]);
                assert(!pre.valid(pre.free_list()[q] as int));
                assert(pre.free_list()[q] != ix);
            } else {
                assert(post.free_list()[q] == ix);
            }
        };
        assert forall|i: int|
            0 <= i < post.n_slots() && !post.valid(i) implies post.free_list().contains(
            i as usize,
        ) by {
            if i == ix as int {
                assert(post.free_list()[post.free_list().len() - 1] == ix);
            } else {
                assert(!pre.valid(i));
                assert(pre.free_list().contains(i as usize));
                let q = choose|q: int|
                    0 <= q < pre.free_list().len() && pre.free_list()[q] == i as usize;
                assert(post.free_list()[q] == i as usize);
            }
        };
        assert(post.list_wf());

        // the sweep invariant holds over the shortened list
        assert(post.sweep_cursor_field() == post.cursor_at(post.spec_pos())) by {
            if pos + 1 < ord.len() {
                assert(ordp[pos] == ord[pos + 1]);
            }
        };
        assert(post.sweep_prev_field() == (if post.spec_pos() == 0 {
            None
        } else {
            Some(ordp[post.spec_pos() - 1])
        })) by {
            if pos > 0 {
                assert(ordp[pos - 1] == ord[pos - 1]);
            }
        };
        assert forall|j: int| 0 <= j < post.spec_pos() implies #[trigger] post.color_of(
            ordp[j] as int,
        ) is White by {
            assert(ordp[j] == ord[j]);
            assert(pre.color_of(ord[j] as int) is White);
        };
        assert forall|j: int|
            post.spec_pos() <= j < ordp.len() implies !(#[trigger] post.color_of(
            ordp[j] as int,
        ) is Gray) && (post.root_of(ordp[j] as int) > 0 ==> post.color_of(
            ordp[j] as int,
        ) is Black) by {
            assert(ordp[j] == ord[j + 1]);
            let node = ord[j + 1] as int;
            assert(post.color_of(node) == pre.color_of(node));
            assert(post.root_of(node) == pre.root_of(node));
            assert(!(pre.color_of(node) is Gray));
            if pre.root_of(node) > 0 {
                assert(pre.color_of(node) is Black);
            }
        };
        assert forall|i: int| pre.committed(i) implies #[trigger] post.committed(i) by {
            assert(i != ix as int);
            if pre.color_of(i) is Black {
                assert(post.color_of(i) is Black);
            } else {
                let j = choose|j: int| 0 <= j < pos && ord[j] == i as usize;
                assert(ordp[j] == i as usize);
            }
        };
        assert forall|i: int| post.committed(i) implies pre.committed(i) by {
            assert(pre.valid(i));
            if post.color_of(i) is Black {
                assert(pre.color_of(i) is Black);
            } else {
                let j = choose|j: int|
                    0 <= j < post.spec_pos() && ordp[j] == i as usize;
                assert(ord[j] == i as usize);
            }
        };
        assert forall|i: int| post.committed(i) implies #[trigger] post.committed_edges_ok(
            i,
        ) by {
            assert(pre.committed(i));
            assert(pre.committed_edges_ok(i));
            assert(post.edges(i) == pre.edges(i));
            assert forall|e: int| 0 <= e < post.edges(i).len() implies post.committed(
                (#[trigger] post.edges(i)[e]).id(),
            ) by {
                assert(pre.committed(pre.edges(i)[e].id()));
            };
        };
        assert forall|j: int|
            post.spec_pos() <= j < ordp.len() && #[trigger] post.color_of(
            ordp[j] as int,
        ) is White implies !post.reachable(ordp[j] as int) by {
            assert(ordp[j] == ord[j + 1]);
            let node = ord[j + 1] as int;
            assert(pre.color_of(node) is White);
            assert(!pre.reachable(node));
        };
        assert forall|i: int| #[trigger] post.committed(i) implies post.reachable(i) by {
            assert(pre.committed(i));
            assert(pre.reachable(i));
        };
        assert(post.sweep_inv());
    }


    /// The set of live slots.
    pub open spec fn live_set(self) -> Set<int> {
        Set::new(|i: int| self.valid(i))
    }

    /// The length of the object list counts exactly the live slots.
    pub proof fn lemma_live_count_is_live_set(self)
        requires
            self.inv(),
        ensures
            self.live_set().finite(),
            self.live_count() == self.live_set().len(),
    {
        broadcast use vstd::std_specs::vec::axiom_spec_len;

        assert(self.slots.len() == self.slots@.len());
        let ord = self.order_view();
        let to_int = |u: usize| u as int;
        assert(vstd::relations::injective(to_int)) by {
            assert forall|x: usize, y: usize| #[trigger] to_int(x) == #[trigger] to_int(
                y,
            ) implies x == y by {}
        }
        ord.lemma_no_duplicates_injective(to_int);
        let mapped = ord.map_values(to_int);
        mapped.unique_seq_to_set();
        assert(mapped.to_set() =~= self.live_set()) by {
            assert forall|x: int| mapped.to_set().contains(x) implies self.live_set().contains(
                x,
            ) by {
                assert(mapped.contains(x));
                let k = choose|k: int| 0 <= k < mapped.len() && mapped[k] == x;
                assert(mapped[k] == to_int(ord[k]));
                assert(self.valid(ord[k] as int));
            };
            assert forall|x: int| self.live_set().contains(x) implies mapped.to_set().contains(
                x,
            ) by {
                assert(self.valid(x));
                assert(ord.contains(x as usize));
                let k = choose|k: int| 0 <= k < ord.len() && ord[k] == x as usize;
                assert(mapped[k] == to_int(ord[k]));
                assert(mapped.contains(x));
            };
        };
        broadcast use vstd::seq_lib::seq_to_set_is_finite;

        assert(mapped.to_set().finite());
    }

    /// Everything reachable lies inside any class of objects that
    /// contains the rooted objects and is closed under edges.
    proof fn lemma_reachable_in_closed(self, cl: spec_fn(int) -> bool)
        requires
            forall|i: int| self.valid(i) && #[trigger] self.root_of(i) > 0 ==> cl(i),
            forall|i: int, k: int|
                #![trigger cl(i), self.edges(i)[k]]
                cl(i) && self.valid(i) && 0 <= k < self.edges(i).len() ==> cl(
                    self.edges(i)[k].id(),
                ),
        ensures
            forall|i: int| self.reachable(i) ==> cl(i),
    {
        reveal(reachable_in);
        assert forall|i: int| self.reachable(i) implies cl(i) by {
            let path = choose|path: Seq<int>| self.is_gc_path(path) && path.last() == i;
            self.lemma_path_in_closed(cl, path);
        };
    }
}

impl Gc {
    /// Indicates that this handle is considered part of the root set of
    /// its collector.
    pub fn is_root<T: Scan>(gc: &Gc, collector: &Collector<T>) -> (r: bool)
        requires
            collector.valid(gc.id()),
        ensures
            r == (collector.root_of(gc.id()) > 0),
    {
        collector.box_is_root(*gc)
    }

    /// Returns the size in bytes of the data being pointed to: the
    /// payload plus the header metadata used by the mark-and-sweep
    /// algorithm.
    pub fn inner_size<T: Scan>(gc: &Gc, collector: &Collector<T>) -> (size: usize)
        requires
            collector.valid(gc.id()),
        ensures
            size as nat == vstd::layout::size_of::<GcBox<T>>(),
    {
        core::mem::size_of::<GcBox<T>>()
    }
}

impl<T: Scan> Collector<T> {
    /// Whether the object behind a handle has outstanding external roots.
    pub fn box_is_root(&self, ptr: Gc) -> (r: bool)
        requires
            self.valid(ptr.id()),
        ensures
            r == (self.root_of(ptr.id()) > 0),
    {
        let ix = ptr.inner();
        match &self.slots[ix] {
            Some(gc_box) => gc_box.is_root(),
            None => {
                proof {
                    assert(false);
                }
                unreached()
            }
        }
    }
}

/// A sequence of distinct indices below `n` is no longer than `n`.
proof fn lemma_distinct_indices_bounded(ord: Seq<usize>, n: int)
    requires
        ord.no_duplicates(),
        n >= 0,
        forall|k: int| 0 <= k < ord.len() ==> (#[trigger] ord[k] as int) < n,
    ensures
        ord.len() <= n,
{
    broadcast use vstd::seq_lib::seq_to_set_is_finite;

    let to_int = |u: usize| u as int;
    assert(vstd::relations::injective(to_int)) by {
        assert forall|x: usize, y: usize| #[trigger] to_int(x) == #[trigger] to_int(
            y,
        ) implies x == y by {}
    }
    ord.lemma_no_duplicates_injective(to_int);
    let mapped = ord.map_values(to_int);
    mapped.unique_seq_to_set();
    assert forall|x: int| mapped.to_set().contains(x) implies set_int_range(0, n).contains(
        x,
    ) by {
        assert(mapped.contains(x));
        let k = choose|k: int| 0 <= k < mapped.len() && mapped[k] == x;
        assert(mapped[k] == to_int(ord[k]));
    };
    lemma_int_range(0, n);
    lemma_len_subset(mapped.to_set(), set_int_range(0, n));
}

/// There is a path to `i` through the heap graph from some externally
/// rooted object. Opaque: the underlying existential is only unfolded
/// where a proof explicitly reveals it; elsewhere reachability facts are
/// passed around whole.
#[verifier::opaque]
pub open spec fn reachable_in<T: Scan>(collector: Collector<T>, i: int) -> bool {
    exists|path: Seq<int>| collector.is_gc_path(path) && path.last() == i
}

/// How many of the given pointers point at slot `i`.
pub open spec fn count_in(ptrs: Seq<Gc>, i: int) -> nat
    decreases ptrs.len(),
{
    if ptrs.len() == 0 {
        0
    } else {
        count_in(ptrs.drop_last(), i) + (if ptrs.last().id() == i {
            1nat
        } else {
            0nat
        })
    }
}

/// Subtraction of root counts, saturating at zero.
pub open spec fn sat_sub(root: u32, k: nat) -> u32 {
    if k >= root {
        0u32
    } else {
        (root - k) as u32
    }
}

/// Counting over one more element of a prefix adds that element's
/// contribution.
proof fn lemma_count_in_take_succ(ptrs: Seq<Gc>, i: int, k: int)
    requires
        0 <= k < ptrs.len(),
    ensures
        count_in(ptrs.take(k + 1), i) == count_in(ptrs.take(k), i) + (if ptrs[k].id() == i {
            1nat
        } else {
            0nat
        }),
{
    assert(ptrs.take(k + 1).drop_last() =~= ptrs.take(k));
    assert(ptrs.take(k + 1).last() == ptrs[k]);
}

/// A positive count means some pointer in the sequence points at `i`.
proof fn lemma_count_in_pos(ptrs: Seq<Gc>, i: int)
    requires
        count_in(ptrs, i) > 0,
    ensures
        exists|k: int| 0 <= k < ptrs.len() && (#[trigger] ptrs[k]).id() == i,
    decreases ptrs.len(),
{
    if ptrs.last().id() == i {
        assert(ptrs[ptrs.len() - 1].id() == i);
    } else {
        lemma_count_in_pos(ptrs.drop_last(), i);
        let k = choose|k: int|
            0 <= k < ptrs.drop_last().len() && (#[trigger] ptrs.drop_last()[k]).id() == i;
        assert(ptrs[k].id() == i);
    }
}

/// The observable effect of one full collection cycle: exactly the
/// objects that were reachable from an externally rooted object survive,
/// each keeping its payload and root count, recolored white; and what is
/// reachable is unchanged.
pub open spec fn cycle_result<T: Scan>(pre: Collector<T>, post: Collector<T>) -> bool {
    &&& post.phase() is Sleep
    &&& forall|i: int| post.valid(i) <==> pre.reachable(i)
    &&& forall|i: int| post.valid(i) ==> #[trigger] post.value_of(i) == pre.value_of(i)
    &&& forall|i: int| post.valid(i) ==> #[trigger] post.root_of(i) == pre.root_of(i)
    &&& forall|i: int| post.valid(i) ==> #[trigger] post.color_of(i) is White
    &&& forall|i: int| post.reachable(i) <==> pre.reachable(i)
}

/// Collection is idempotent: two sequential collection cycles with no
/// intervening allocation or handle change produce identical live sets
/// and identical color state. The first cycle recolors every survivor
/// white; the second finds them all white, blackens exactly the same
/// reachable objects again, and recolors them white in its sweep.
pub proof fn lemma_collect_idempotent<T: Scan>(
    s0: Collector<T>,
    s1: Collector<T>,
    s2: Collector<T>,
)
    requires
        s1.inv(),
        s2.inv(),
        cycle_result(s0, s1),
        cycle_result(s1, s2),
    ensures
        forall|i: int| s2.valid(i) <==> s1.valid(i),
        s2.live_count() == s1.live_count(),
        forall|i: int| s1.valid(i) ==> #[trigger] s1.color_of(i) is White,
        forall|i: int| s2.valid(i) ==> #[trigger] s2.color_of(i) is White,
{
    assert forall|i: int| s2.valid(i) <==> s1.valid(i) by {
        assert(s2.valid(i) <==> s1.reachable(i));
        assert(s1.reachable(i) <==> s0.reachable(i));
        assert(s1.valid(i) <==> s0.reachable(i));
    };
    s1.lemma_live_count_is_live_set();
    s2.lemma_live_count_is_live_set();
    assert(s1.live_set() =~= s2.live_set());
}

} // verus!
