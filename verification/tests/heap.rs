use ruju::abi::{rj_alloc_garbage, rj_demo_add, rj_heap_used, rj_init, rj_interp_sum_to, rj_nothing, rj_typeof};
use ruju::access;
use ruju::gc;
use ruju::gc::{Frame, Rooted};
use ruju::id;
use ruju::object;
use ruju::object::type_of;
use ruju::region;
use ruju::state::{Runtime, Value};
use ruju::structs;
use ruju::symbol;
use ruju::types;
use ruju::value;
use ruju::value::{box_int, unbox_int};

fn started() -> Runtime {
    let mut rt = Runtime::new();
    rj_init(&mut rt).unwrap();
    rt
}

fn define(rt: &mut Runtime, name: &str, fields: &[(&str, u32)], mutabl: bool) -> u32 {
    let any = access::builtin(rt, id::ANY);
    let list: Vec<(Vec<u8>, u32)> =
        fields.iter().map(|f| (f.0.as_bytes().to_vec(), f.1)).collect();
    structs::define_struct(rt, &name.as_bytes().to_vec(), any, &list, mutabl)
}

#[test]
fn demo_add_round_trips_and_balances_roots() {
    let mut rt = started();
    assert_eq!(rj_demo_add(&mut rt, 2, 3), 5);
    assert_eq!(rj_demo_add(&mut rt, i64::MAX, 1), i64::MIN); // wrapping intrinsic
    assert_eq!(gc::root_count(&rt), 0, "roots must be released after the call");
    assert!(rj_heap_used(&rt) > 0);
}

#[test]
fn object_model_tags_values_with_their_datatype() {
    let mut rt = started();
    let v = box_int(&mut rt, 7);
    assert_eq!(type_of(&rt, v), access::builtin(&rt, id::INT64));
    // DataType is its own type; the bootstrap cycle is closed.
    let dt = access::builtin(&rt, id::DATATYPE);
    assert_eq!(rj_typeof(&rt, dt), dt);
    // `nothing` is an instance of Nothing.
    assert_eq!(rj_typeof(&rt, rj_nothing(&rt)), access::builtin(&rt, id::NOTHING));
}

#[test]
fn composite_struct_layout_records_pointer_fields() {
    let mut rt = started();
    let any = access::builtin(&rt, id::ANY);

    // A struct with two reference fields at byte offsets 0 and 4.
    let pair = define(&mut rt, "IntPair", &[("a", any), ("b", any)], true);
    assert_eq!(access::layout_npointers(&rt, pair), 2);
    assert_eq!(access::layout_ptr_offset(&rt, pair, 0), 0);
    assert_eq!(access::layout_ptr_offset(&rt, pair, 1), 4);

    // Instantiate it and populate the reference fields with boxed integers.
    let v = box_int(&mut rt, 10);
    let a = Rooted::new(&mut rt, v);
    let v = box_int(&mut rt, 20);
    let b = Rooted::new(&mut rt, v);
    let v = object::alloc_object(&mut rt, pair, 8);
    let p = Rooted::new(&mut rt, v);
    let (pv, av, bv) = (p.get(&rt), a.get(&rt), b.get(&rt));
    object::set_ref(&mut rt, pv, 0, av);
    object::set_ref(&mut rt, pv, 4, bv);

    let first = object::get_ref(&rt, pv, 0);
    assert_eq!(type_of(&rt, first), access::builtin(&rt, id::INT64));
    assert_eq!(unbox_int(&rt, first), 10);
    assert_eq!(unbox_int(&rt, object::get_ref(&rt, pv, 4)), 20);
}

#[test]
fn collector_reclaims_garbage_and_keeps_roots() {
    let mut rt = started();
    gc::collect_full(&mut rt); // clear any bootstrap/cache-growth garbage first

    // A rooted survivor, plus the pinned builtin types, are the live set.
    let v = box_int(&mut rt, 12345);
    let survivor = Rooted::new(&mut rt, v);
    let live = gc::live_objects(&rt);

    // Allocate unrooted garbage.
    for i in 0..50 {
        let _ = box_int(&mut rt, i);
    }
    assert_eq!(gc::live_objects(&rt), live + 50);

    // Collection reclaims exactly the garbage; the survivor and the
    // bootstrapped types remain.
    assert_eq!(gc::collect(&mut rt), 50);
    assert_eq!(gc::live_objects(&rt), live);

    // Non-moving: the survivor's offset and payload are intact.
    assert_eq!(unbox_int(&rt, survivor.get(&rt)), 12345);
    // And it is still a valid, correctly-typed object.
    assert_eq!(type_of(&rt, survivor.get(&rt)), access::builtin(&rt, id::INT64));
}

#[test]
fn pooled_allocation_reuses_pages_under_churn() {
    let mut rt = started();
    let base = region::used(&rt);
    // Allocate and collect repeatedly; the region high-water mark must
    // stabilize because freed slots are reused from the pool's free list and
    // pages are not endlessly re-carved.
    for _ in 0..5 {
        for i in 0..500 {
            let _ = box_int(&mut rt, i);
        }
        gc::collect(&mut rt);
    }
    let grew = region::used(&rt) - base;
    assert!(grew < 64 * 1024, "pooled pages should be reused, not re-carved (grew {grew})");
}

#[test]
fn generational_promotes_survivors_to_old() {
    let mut rt = started();
    let v = box_int(&mut rt, 99);
    let s = Rooted::new(&mut rt, v);
    assert!(!gc::is_old(&rt, s.get(&rt)), "new objects start young");
    gc::collect(&mut rt); // minor
    assert!(gc::is_old(&rt, s.get(&rt)), "a survivor is promoted to the old generation");
    assert_eq!(unbox_int(&rt, s.get(&rt)), 99, "promotion is non-moving");
}

#[test]
fn full_collection_reclaims_old_garbage_that_minor_keeps() {
    let mut rt = started();
    gc::collect_full(&mut rt); // promote the bootstrap objects to old
    let live0 = gc::live_objects(&rt);
    {
        let f = Frame::new(&mut rt, 100);
        for i in 0..100 {
            let v = box_int(&mut rt, i as i64);
            f.set(&mut rt, i, v);
        }
        gc::collect(&mut rt); // promote the 100 survivors to old
        assert!(gc::is_old(&rt, f.get(&rt, 0)) && gc::is_old(&rt, f.get(&rt, 99)));
        assert_eq!(gc::live_objects(&rt), live0 + 100);
        f.release(&mut rt);
    } // the frame is released: the 100 old objects are now unreachable garbage
    gc::collect(&mut rt); // minor: old garbage is retained
    assert_eq!(gc::live_objects(&rt), live0 + 100, "a minor collection keeps old garbage");
    gc::collect_full(&mut rt); // full: old garbage reclaimed
    assert_eq!(gc::live_objects(&rt), live0, "a full collection reclaims old garbage");
}

#[test]
fn generational_write_barrier_preserves_old_to_young_edges() {
    let mut rt = started();
    let any = access::builtin(&rt, id::ANY);
    // An old mutable cell with two reference fields.
    let cty = define(&mut rt, "Cell2", &[("a", any), ("b", any)], true);
    let v = object::alloc_object(&mut rt, cty, 8);
    let cell = Rooted::new(&mut rt, v);
    let cv = cell.get(&rt);
    let nothing = Value(access::nothing_instance(&rt));
    object::set_ref(&mut rt, cv, 0, nothing);
    object::set_ref(&mut rt, cv, 4, nothing);
    gc::collect(&mut rt); // promote the cell (and its type) to old
    assert!(gc::is_old(&rt, cell.get(&rt)));

    // Store a freshly allocated YOUNG object into the OLD cell. The barrier
    // in set_ref records this old->young edge; without it the next minor
    // collection would not trace the old cell and would free the child.
    let child = box_int(&mut rt, 777);
    assert!(!gc::is_old(&rt, child));
    object::set_ref(&mut rt, cv, 0, child);

    gc::collect(&mut rt); // minor
    assert_eq!(
        unbox_int(&rt, object::get_ref(&rt, cell.get(&rt), 0)),
        777,
        "the write barrier kept the old->young reference alive",
    );
}

#[test]
fn freed_chunks_are_reused() {
    let mut rt = started();
    gc::collect_full(&mut rt); // clear bootstrap/cache-growth garbage first

    // Fill, collect, then refill with same-size objects: the region's
    // high-water mark must not grow, proving the free list is reused.
    for _ in 0..40 {
        let _ = box_int(&mut rt, 7);
    }
    let high_water = region::used(&rt);
    assert_eq!(gc::collect(&mut rt), 40);
    for _ in 0..40 {
        let _ = box_int(&mut rt, 8);
    }
    assert_eq!(region::used(&rt), high_water, "same-size allocations should reuse freed chunks");
}

#[test]
fn collection_preserves_the_type_graph() {
    let mut rt = started();
    // Collecting with only garbage present must not disturb the bootstrapped
    // types: typeof/subtyping/sizes still hold afterwards.
    for i in 0..100 {
        let _ = box_int(&mut rt, i);
    }
    gc::collect(&mut rt);
    let dt = access::builtin(&rt, id::DATATYPE);
    assert_eq!(rj_typeof(&rt, dt), dt);
    let (a, b) = (access::builtin(&rt, id::INT64), access::builtin(&rt, id::NUMBER));
    assert!(types::issubtype(&mut rt, a, b));
    assert_eq!(access::size_of(&rt, access::builtin(&rt, id::FLOAT64)), 8);
    assert_eq!(symbol::len(&rt, access::type_sym(&rt, a)), 5);
}

#[test]
fn auto_collection_keeps_the_runtime_bounded() {
    let mut rt = started();
    // Far more allocation than the ~1 MiB region holds. Without
    // auto-collection this would exhaust the region; with precise rooting, a
    // collection triggered mid-evaluation must not disturb the interpreter's
    // working set, so the result stays correct.
    assert_eq!(rj_interp_sum_to(&mut rt, 50_000), 1_250_025_000);
    // Raw garbage far beyond region capacity is reclaimed continuously.
    rj_alloc_garbage(&mut rt, 300_000);
    assert!(gc::live_objects(&rt) < 100_000, "auto-collection should keep the heap bounded");
}

// The exact generational state machine: the promotion-completion scan, the
// OLD_MARKED-only barrier with its refire guard, and the full-sweep demotion lag.
#[test]
fn gc_exact_state_machine() {
    let mut rt = started();
    let any = access::builtin(&rt, id::ANY);
    let cell = define(&mut rt, "GCCell", &[("v", any)], true);
    const CLEAN: u32 = 0;
    const MARKED: u32 = 1;
    const OLD: u32 = 2;
    const OLD_MARKED: u32 = 3;
    fn fresh(rt: &mut Runtime, cell: u32) -> Value {
        let nothing = value::nothing(rt);
        structs::new_struct(rt, cell, &vec![nothing]).unwrap()
    }

    let v = fresh(&mut rt, cell);
    let c = Rooted::new(&mut rt, v);
    let cv = c.get(&rt);
    assert_eq!(object::gc_bits(&rt, cv), CLEAN);
    gc::collect(&mut rt);
    assert_eq!(object::gc_bits(&rt, cv), OLD, "young survivor promotes");

    // A store into a merely-OLD parent does not fire the barrier — its
    // promotion-completion scan at the next mark covers the child.
    let x = fresh(&mut rt, cell); // young
    structs::set_nth_field(&mut rt, cv, 0, x).unwrap();
    assert_eq!(gc::remset_len(&rt), 0, "no barrier for an OLD(2) parent");
    // The promotion scan (2 → 3 + trace) keeps x alive and, having seen
    // young x, pushes c for the next cycle. The post-quick-sweep pass then puts
    // c back in the *queued* state, MARKED, so the barrier won't refire on it.
    gc::collect(&mut rt);
    assert_eq!(object::gc_bits(&rt, cv), MARKED, "remset entry re-queued post-sweep");
    let x_now = structs::get_nth_field(&mut rt, cv, 0).unwrap();
    assert_eq!(object::gc_bits(&rt, x_now), OLD, "child survived the minor and promoted");
    assert_eq!(gc::remset_len(&rt), 1, "scan rebuilt the remset conservatively");

    // Stores into a queued (MARKED) parent are barrier-silent — its
    // remset entry already covers it.
    let y = fresh(&mut rt, cell);
    structs::set_nth_field(&mut rt, cv, 0, y).unwrap();
    assert_eq!(gc::remset_len(&rt), 1, "no barrier while queued");
    let z = fresh(&mut rt, cell);
    structs::set_nth_field(&mut rt, cv, 0, z).unwrap();
    assert_eq!(gc::remset_len(&rt), 1);

    // The minor collection restores the entry to OLD_MARKED, traces it
    // (keeping z, reachable only through c), re-pushes it (z young at
    // scan), and re-queues it post-sweep.
    gc::collect(&mut rt);
    assert_eq!(object::gc_bits(&rt, cv), MARKED, "re-queued: z was young at scan");
    assert_eq!(gc::remset_len(&rt), 1);
    let z_now = structs::get_nth_field(&mut rt, cv, 0).unwrap();
    assert_eq!(object::gc_bits(&rt, z_now), OLD);
    // Next cycle the child is old at scan time: the entry drops, and c —
    // restored to 3 and no longer re-queued — keeps OLD_MARKED.
    gc::collect(&mut rt);
    assert_eq!(gc::remset_len(&rt), 0, "entry dropped once the child is old");
    assert_eq!(object::gc_bits(&rt, cv), OLD_MARKED);

    // NOW the barrier: a store into an OLD_MARKED parent fires exactly
    // once — queueing re-tags 3 → 1, which is itself the refire guard.
    let w = fresh(&mut rt, cell);
    structs::set_nth_field(&mut rt, cv, 0, w).unwrap();
    assert_eq!(gc::remset_len(&rt), 1, "barrier fired on the OLD_MARKED parent");
    assert_eq!(object::gc_bits(&rt, cv), MARKED, "queueing cleared the OLD bit");
    let w2 = fresh(&mut rt, cell);
    structs::set_nth_field(&mut rt, cv, 0, w2).unwrap();
    assert_eq!(gc::remset_len(&rt), 1, "barrier must not refire while queued");

    // A full sweep clears the remset outright: its old objects are demoted to
    // OLD and rescanned at the next mark anyway.
    gc::collect_full(&mut rt);
    assert_eq!(gc::remset_len(&rt), 0, "full sweep clears the remset");
    assert_eq!(object::gc_bits(&rt, cv), OLD, "full sweep demoted c");
    let w2_now = structs::get_nth_field(&mut rt, cv, 0).unwrap();
    assert_eq!(object::gc_bits(&rt, w2_now), OLD, "child reached via the restored entry");

    // Old garbage at OLD_MARKED: quick sweeps never touch it; the first
    // full cycle demotes it (3 → 2, kept); the second frees it — a one-cycle
    // lag. Re-prove c to OLD_MARKED via one more quick mark first.
    gc::collect(&mut rt);
    assert_eq!(object::gc_bits(&rt, cv), OLD_MARKED, "promotion scan re-proved c");
    c.release(&mut rt);
    let live0 = gc::live_objects(&rt);
    gc::collect(&mut rt);
    assert_eq!(gc::live_objects(&rt), live0, "quick sweep keeps OLD_MARKED garbage");
    gc::collect_full(&mut rt); // demotes the unreached 3 to 2 (kept); frees unreached 2s
    let live1 = gc::live_objects(&rt);
    gc::collect_full(&mut rt); // the demoted 2 is unmarked now: freed
    assert!(gc::live_objects(&rt) < live1, "second full cycle frees demoted old garbage");

    assert_eq!(gc::root_count(&rt), 0, "roots balanced");
}

// The big-object path: allocation past the largest size class, the young and
// oldest generations, block recycling, and the full-sweep demote-and-merge.
#[test]
fn gc_big_objects() {
    let mut rt = started();
    let blob_t = access::builtin(&rt, id::SYMBOL); // layout-free blob, GC-safe

    // Unrooted big garbage dies at the next collection; its block recycles
    // into the next big allocation instead of carving fresh region space.
    let g = object::alloc_object(&mut rt, blob_t, 2400); // total 2408 > 2032: big path
    assert!(!g.is_null());
    gc::collect(&mut rt);
    let used1 = region::used(&rt);
    let g2 = object::alloc_object(&mut rt, blob_t, 2400);
    assert!(!g2.is_null());
    assert_eq!(region::used(&rt), used1, "freed big block was recycled");

    // A rooted big object walks the generational lists: promote, settle
    // on the oldest list (quick sweeps skip it), demote-and-merge on a
    // full sweep, die once dropped.
    let v = object::alloc_object(&mut rt, blob_t, 4096);
    let b = Rooted::new(&mut rt, v);
    gc::collect(&mut rt); // young-marked: promotes, stays on the young list
    assert_eq!(object::gc_bits(&rt, b.get(&rt)), 2, "promoted at sweep");
    gc::collect(&mut rt); // promotion scan 2→3; quick sweep parks it on oldest
    assert_eq!(object::gc_bits(&rt, b.get(&rt)), 3);
    gc::collect(&mut rt); // oldest list untouched by quick sweeps
    assert_eq!(object::gc_bits(&rt, b.get(&rt)), 3, "settled bigval skipped");
    gc::collect_full(&mut rt); // demoted to OLD, merged back to the young list
    assert_eq!(object::gc_bits(&rt, b.get(&rt)), 2, "full sweep demotes and merges");
    let live0 = gc::live_objects(&rt);
    b.release(&mut rt);
    gc::collect_full(&mut rt); // unmarked OLD on the young list: freed
    assert!(gc::live_objects(&rt) < live0, "dropped bigval freed");
    assert_eq!(gc::root_count(&rt), 0, "roots balanced");
}

// The page protocol: whole-page release, page reuse across size classes, and
// the quick-sweep skip of settled all-old pages.
#[test]
fn gc_page_protocol() {
    let mut rt = started();
    // Burn through more than a page of one size class as pure garbage.
    for i in 0..2_000 {
        let _ = box_int(&mut rt, i); // 16-byte class; a 16 KiB page holds 1024
    }
    gc::collect_full(&mut rt);
    assert!(gc::free_page_count(&rt) > 0, "fully-dead pages were released whole");

    // Pages holding young cells are walked; a settled all-old heap is
    // skipped entirely — quick sweeps touch zero pages.
    for i in 0..100 {
        let _ = box_int(&mut rt, i); // young garbage on some page
    }
    gc::collect(&mut rt);
    assert!(gc::pages_walked_last(&rt) > 0, "young pages must be walked");
    gc::collect(&mut rt);
    assert_eq!(
        gc::pages_walked_last(&rt),
        0,
        "a settled all-old heap is skipped page-for-page"
    );
    assert!(gc::live_objects(&rt) > 0, "the skipped pages hold the live heap");
    assert_eq!(gc::root_count(&rt), 0, "roots balanced");
}

// The collection policy: a proactive heap-target trigger at allocation, and
// overallocation-based target growth.
#[test]
fn gc_collection_policy() {
    let mut rt = started();
    // The target starts at the floor (a fraction of the region).
    assert_eq!(gc::heap_target(&rt), region::capacity() as u64 / 8);
    // Allocating past the target collects proactively: garbage dies with
    // no manual collect call and the heap never nears exhaustion.
    let live_before = gc::live_objects(&rt);
    for i in 0..20_000 {
        let _ = box_int(&mut rt, i as i64); // ~320 KiB of garbage vs a 128 KiB target
    }
    assert!(
        gc::live_objects(&rt) < live_before + 10_000,
        "proactive trigger collected the garbage"
    );
    assert!(
        gc::heap_size(&rt) < region::capacity() as u64 / 2,
        "heap stayed bounded without reaching exhaustion"
    );
    // Post-collection the target tracks the live size plus permitted growth.
    assert!(gc::heap_target(&rt) >= gc::heap_size(&rt));
    assert_eq!(gc::root_count(&rt), 0, "roots balanced");
}
