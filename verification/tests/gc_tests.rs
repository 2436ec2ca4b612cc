//! Tests for the collector, its handles and the scan capability.
use rlox::collect::CollectState;
use rlox::collect::Collector;
use rlox::gc::Gc;
use rlox::gc::GcBox;
use rlox::gc::GcColor;
use rlox::scan::Context;
use rlox::scan::Scan;
use std::cell::Cell;

#[derive(Debug)]
struct Bar {
    value: u32,
    other: Option<Gc>,
}

#[derive(Debug)]
struct Foo {
    value: u32,
    other: Gc,
    items: Vec<Bar>,
}

#[derive(Debug)]
enum Obj {
    FooObj(Foo),
    BarObj(Bar),
    Cyclic(Cell<Option<Gc>>),
}

impl Scan for Obj {
    fn scan(&self, ctx: &mut Context) {
        match self {
            Obj::FooObj(foo) => {
                foo.other.scan(ctx);
                for item in &foo.items {
                    if let Some(ptr) = &item.other {
                        ptr.scan(ctx);
                    }
                }
            }
            Obj::BarObj(bar) => {
                if let Some(ptr) = &bar.other {
                    ptr.scan(ctx);
                }
            }
            Obj::Cyclic(cell) => {
                if let Some(ptr) = cell.get() {
                    ptr.scan(ctx);
                }
            }
        }
    }
}

/// Test for rooting and unrooting rules.
#[test]
fn test_gc_rooting() {
    let mut gc: Collector<Obj> = Collector::new();

    let bar = Bar { value: 1000, other: None };
    let bar_gc = gc.allocate(Obj::BarObj(bar));
    gc.root_ptr(bar_gc);  // the handle copy held inside foo_2
    let foo_2 = Foo { value: 20000, other: bar_gc, items: vec![] };
    gc.root_ptr(bar_gc);  // the handle copy held inside foo
    let foo_2_gc = gc.allocate(Obj::FooObj(foo_2));
    let foo = Foo {
        value: 10000,
        other: bar_gc,
        items: vec![
            Bar { value: 2000, other: None },
            Bar { value: 3000, other: Some(foo_2_gc) },
        ],
    };
    gc.unroot_ptr(bar_gc);  // the original handle is dropped
    println!("Gc len {}", gc.len());  //> 2

    // By moving foo into the heap, it becomes a root, and its contents
    // are no longer considered roots.
    println!("Alloc foo");
    let foo_gc = gc.allocate(Obj::FooObj(foo));
    println!("Gc len {}", gc.len());  //> 3

    assert!(Gc::is_root(&foo_gc, &gc), "GC pointer outside of arena must be a root.");
    println!("{:#?}", foo_gc);

    gc.collect();
    println!("Gc len {}", gc.len());  //> 3

    let foo_3 = {
        let bar = gc.allocate(Obj::BarObj(Bar { value: 4000, other: None }));
        gc.allocate(Obj::FooObj(Foo { value: 30000, other: bar, items: vec![] }))
    };

    // Foo is no longer reachable.
    gc.unroot_ptr(foo_gc);
    println!("Gc len {}", gc.len());  //> 5
    assert_eq!(gc.len(), 5);

    gc.collect();
    println!("Gc len {}", gc.len());  //> 2
    assert_eq!(gc.len(), 2);

    gc.unroot_ptr(foo_3);
}

#[test]
fn test_gcbox_size() {
    println!("size of Gc<()> {}", std::mem::size_of::<Gc>());
    println!("size of GcBox<()> {}", std::mem::size_of::<GcBox<()>>());
    println!("size of Foo {}", std::mem::size_of::<Foo>());

    let mut gc: Collector<u32> = Collector::new();
    let handle = gc.allocate(5);
    assert_eq!(Gc::inner_size(&handle, &gc), std::mem::size_of::<GcBox<u32>>());
    let _ = Collector::<u32>::default();
}

#[test]
fn test_gcbox_color_pack() {
    for color in &[GcColor::White, GcColor::Gray, GcColor::Black] {
        let gcbox = GcBox::new(1, *color, None, ());

        assert_eq!(gcbox.color, *color);
    }
}

#[test]
fn test_basic_derive() {
    struct DeriveFoo {
        a: u32,
        b: u64,
        c: u128,
        d: i32,
        e: i64,
        f: i128,
        g: String,
    }

    // field-wise recursion, as scan generation produces it
    impl Scan for DeriveFoo {
        fn scan(&self, ctx: &mut Context) {
            self.a.scan(ctx);
            self.b.scan(ctx);
            self.c.scan(ctx);
            self.d.scan(ctx);
            self.e.scan(ctx);
            self.f.scan(ctx);
            self.g.scan(ctx);
        }
    }

    struct DeriveBar(u16, u32, u128, i32, i64, i128, String);

    impl Scan for DeriveBar {
        fn scan(&self, ctx: &mut Context) {
            self.0.scan(ctx);
            self.1.scan(ctx);
            self.2.scan(ctx);
            self.3.scan(ctx);
            self.4.scan(ctx);
            self.5.scan(ctx);
            self.6.scan(ctx);
        }
    }

    // Zero sized
    struct DeriveBaz;

    impl Scan for DeriveBaz {
        fn scan(&self, _: &mut Context) {}
    }

    let mut ctx = Context::new();
    let foo = DeriveFoo { a: 1, b: 2, c: 3, d: 4, e: 5, f: 6, g: String::new() };
    foo.scan(&mut ctx);
    DeriveBar(1, 2, 3, 4, 5, 6, String::new()).scan(&mut ctx);
    DeriveBaz.scan(&mut ctx);
    assert_eq!(ctx.gray.len(), 0);
}

// GC reachability: a foo holding a managed bar; dropping the outer foo
// handle reclaims both; if the bar is also externally rooted, only the
// foo is reclaimed.
#[test]
fn test_gc_reachability() {
    let mut gc: Collector<Obj> = Collector::new();
    let bar = gc.allocate(Obj::BarObj(Bar { value: 1, other: None }));
    let foo = gc.allocate(Obj::BarObj(Bar { value: 2, other: Some(bar) }));
    gc.unroot_ptr(foo);
    gc.collect();
    assert_eq!(gc.len(), 0);

    let bar = gc.allocate(Obj::BarObj(Bar { value: 3, other: None }));
    gc.root_ptr(bar);  // an extra external root outlives the foo
    let foo = gc.allocate(Obj::BarObj(Bar { value: 4, other: Some(bar) }));
    gc.unroot_ptr(foo);
    gc.collect();
    assert_eq!(gc.len(), 1);
    gc.unroot_ptr(bar);
    gc.collect();
    assert_eq!(gc.len(), 0);
}

// A cycle: two objects reference each other, both externally unrooted;
// a single collection reclaims both.
#[test]
fn test_gc_cycle() {
    let mut gc: Collector<Obj> = Collector::new();
    let first = gc.allocate(Obj::Cyclic(Cell::new(None)));
    let second = gc.allocate(Obj::Cyclic(Cell::new(Some(first))));
    gc.unroot_ptr(first);  // the handle moved into the second object
    if let Obj::Cyclic(cell) = gc.get(first) {
        cell.set(Some(second));
    }
    gc.unroot_ptr(second);  // the handle moved into the first object
    assert_eq!(gc.len(), 2);
    gc.collect();
    assert_eq!(gc.len(), 0);
}

// Two sequential collections with no intervening changes produce
// identical lengths.
#[test]
fn test_collect_idempotent() {
    let mut gc: Collector<Obj> = Collector::new();
    let kept = gc.allocate(Obj::BarObj(Bar { value: 7, other: None }));
    let dropped = gc.allocate(Obj::BarObj(Bar { value: 8, other: None }));
    gc.unroot_ptr(dropped);
    gc.collect();
    let after_first = gc.len();
    gc.collect();
    assert_eq!(gc.len(), after_first);
    assert_eq!(after_first, 1);
    gc.unroot_ptr(kept);
}

// Promotion during marking is idempotent: scanning the same pointer
// twice leaves the collector exactly as one scan does.
#[test]
fn test_scan_ptr_idempotent() {
    let mut gc: Collector<Obj> = Collector::new();
    let kept = gc.allocate(Obj::BarObj(Bar { value: 9, other: None }));
    gc.step();  // sleep -> wake
    while !matches!(gc.current_phase(), CollectState::Mark) {
        gc.step();
    }
    gc.scan_ptr(kept);
    gc.scan_ptr(kept);
    while !gc.is_asleep() {
        gc.step();
    }
    assert_eq!(gc.len(), 1);
}

// Allocation during sweep: the new object is placed in front of the
// sweep cursor, survives the cycle, and the head points at it after.
#[test]
fn test_alloc_during_sweep() {
    let mut gc: Collector<Obj> = Collector::new();
    let kept = gc.allocate(Obj::BarObj(Bar { value: 10, other: None }));
    let garbage = gc.allocate(Obj::BarObj(Bar { value: 11, other: None }));
    gc.unroot_ptr(garbage);

    gc.step();  // sleep -> wake
    while !matches!(gc.current_phase(), CollectState::Sweep) {
        gc.step();
    }
    gc.step();  // the first sweep step
    let young = gc.allocate(Obj::BarObj(Bar { value: 12, other: None }));
    while !gc.is_asleep() {
        gc.step();
    }
    assert_eq!(gc.len(), 2);
    if let Obj::BarObj(bar) = gc.get(young) {
        assert_eq!(bar.value, 12);
    } else {
        panic!("young object lost its payload");
    }
    if let Obj::BarObj(bar) = gc.get(kept) {
        assert_eq!(bar.value, 10);
    } else {
        panic!("kept object lost its payload");
    }
}

#[test]
fn test_collector_basics() {
    let mut gc: Collector<u64> = Collector::new();
    assert!(gc.is_empty());
    assert!(gc.can_drop());
    let one = gc.allocate(41);
    assert_eq!(*gc.get(one), 41);
    assert_eq!(gc.len(), 1);
    assert!(!gc.is_empty());
    assert!(gc.box_is_root(one));
    gc.unroot_ptr(one);
    assert!(!gc.box_is_root(one));
    gc.root_ptr(one);
    assert!(Gc::is_root(&one, &gc));
    gc.collect();
    assert_eq!(gc.len(), 1);
}
