//! Rooting and the generational, precise, non-moving mark-and-sweep collector.
//!
//! Objects live in size-classed pages carved from the region. A young object
//! that survives a collection is promoted; a quick collection skips settled old
//! pages; a full collection re-proves every old object. Two bits per object
//! encode its state: neither bit is a young object, `marked` alone a young object
//! reached this cycle (or an old one queued in the remembered set), `old` alone
//! a promoted object not yet rescanned, and both bits an old object that has been
//! scanned.

use vstd::prelude::*;
use crate::access;
use crate::region::{alloc_bytes, NULL, REGION_SIZE};
use crate::state::{ObjV, Page, PageV, Pool, PoolV, Runtime, State, Stats, Value};

verus! {

/// Page size in bytes.
pub const PAGE_SIZE: u32 = 0x4000;

/// Bytes between an object's header and its payload.
pub const HEADER_SIZE: u32 = 8;

/// The smallest collection target.
pub const COLLECT_FLOOR: u64 = 0x2_0000;

// --- size classes -----------------------------------------------------------

/// The pool size classes in ascending order.
pub open spec fn size_classes() -> Seq<u32> {
    seq![
        4, 8,
        16, 24, 32, 40, 48, 56, 64, 72, 80, 88, 96, 104, 112, 120, 128, 136,
        144, 160, 176, 192, 208, 224, 240, 256,
        272, 288, 304, 336, 368, 400, 448, 496,
        544, 576, 624, 672, 736, 816, 896, 1008,
        1088, 1168, 1248, 1360, 1488, 1632, 1808, 2032,
    ]
}

/// The first size class from position `i` on that holds `total` bytes.
pub open spec fn first_class(total: int, i: int) -> Option<u32>
    decreases size_classes().len() - i,
{
    if i < 0 || i >= size_classes().len() {
        None
    } else if total <= size_classes()[i] {
        Some(size_classes()[i])
    } else {
        first_class(total, i + 1)
    }
}

/// The slot size for an allocation of `total` bytes: the smallest size class that
/// holds it, or `total` rounded up to a multiple of sixteen.
pub open spec fn size_class(total: int) -> int {
    match first_class(total, 0) {
        Some(c) => c as int,
        None => (total + 15) / 16 * 16,
    }
}

/// Computes the slot size for an allocation of `total` bytes.
fn size_class_of(total: u64) -> (r: u64)
    requires
        total <= 0xffff_ffff_ffff_0000,
    ensures
        r == size_class(total as int),
{
    let table: [u32; 50] = [
        4, 8,
        16, 24, 32, 40, 48, 56, 64, 72, 80, 88, 96, 104, 112, 120, 128, 136,
        144, 160, 176, 192, 208, 224, 240, 256,
        272, 288, 304, 336, 368, 400, 448, 496,
        544, 576, 624, 672, 736, 816, 896, 1008,
        1088, 1168, 1248, 1360, 1488, 1632, 1808, 2032,
    ];
    assert(table@ =~= size_classes());
    let mut i: usize = 0;
    while i < 50
        invariant
            i <= 50,
            table@ == size_classes(),
            table@.len() == 50,
            first_class(total as int, 0) == first_class(total as int, i as int),
        decreases 50 - i,
    {
        if total <= table[i] as u64 {
            return table[i] as u64;
        }
        i = i + 1;
    }
    (total + 15) / 16 * 16
}

proof fn lemma_first_class(total: int, i: int)
    requires
        0 <= i,
    ensures
        match first_class(total, i) {
            Some(c) => total <= c && size_classes().contains(c) && forall|k: int|
                i <= k < 50 && total <= #[trigger] size_classes()[k] ==> c <= size_classes()[k],
            None => forall|k: int| i <= k < 50 ==> #[trigger] size_classes()[k] < total,
        },
    decreases 50 - i,
{
    assert(size_classes().len() == 50);
    assert forall|a: int, b: int| 0 <= a <= b < 50 implies #[trigger] size_classes()[a]
        <= #[trigger] size_classes()[b] by {
        lemma_classes_sorted(a, b);
    }
    if i < 50 && total > size_classes()[i] {
        lemma_first_class(total, i + 1);
    }
}

proof fn lemma_classes_sorted(a: int, b: int)
    requires
        0 <= a <= b < 50,
    ensures
        size_classes()[a] <= size_classes()[b],
    decreases b - a,
{
    if a < b {
        lemma_classes_sorted(a, b - 1);
        assert(size_classes()[b - 1] <= size_classes()[b]);
    }
}

/// The slot size holds the allocation, is the smallest class that does, and is
/// its own slot size.
pub proof fn law_size_class(total: int)
    requires
        0 <= total,
    ensures
        total <= size_class(total),
        size_class(size_class(total)) == size_class(total),
        forall|k: int|
            0 <= k < 50 && total <= #[trigger] size_classes()[k] ==> size_class(total)
                <= size_classes()[k],
{
    lemma_first_class(total, 0);
    lemma_first_class(size_class(total), 0);
    assert(size_classes().len() == 50);
    assert(size_classes()[49] == 2032);
}

// --- allocation -------------------------------------------------------------

/// The first pool from position `i` on with slot size `osize`.
pub open spec fn pool_index(pools: Seq<PoolV>, osize: u32, i: int) -> Option<int>
    decreases pools.len() - i,
{
    if i < 0 || i >= pools.len() {
        None
    } else if pools[i].osize == osize {
        Some(i)
    } else {
        pool_index(pools, osize, i + 1)
    }
}

/// `q` without trailing pages that have no free slot.
pub open spec fn trim_queue(pages: Seq<PageV>, q: Seq<usize>) -> Seq<usize>
    decreases q.len(),
{
    if q.len() == 0 {
        q
    } else if q.last() < pages.len() && pages[q.last() as int].free.len() > 0 {
        q
    } else {
        trim_queue(pages, q.drop_last())
    }
}

/// The slots of a page from byte position `pos` on, the lowest last.
pub open spec fn fresh_slots(start: u32, osize: u32, pos: int) -> Seq<u32>
    decreases PAGE_SIZE - pos,
{
    if osize == 0 || pos < 0 || pos + osize > PAGE_SIZE {
        Seq::empty()
    } else {
        fresh_slots(start, osize, pos + osize).push((start + pos) as u32)
    }
}

/// A page of class `osize` with every slot free.
pub open spec fn fresh_page(start: u32, osize: u32) -> PageV {
    PageV {
        start,
        osize,
        free: fresh_slots(start, osize, 0),
        live_n: 0,
        has_marked: false,
        has_young: false,
        nold: 0,
        prev_nold: 0,
        in_use: true,
    }
}

/// `a + 1`, wrapping.
pub open spec fn inc32(a: u32) -> u32 {
    if a == u32::MAX {
        0
    } else {
        (a + 1) as u32
    }
}

/// `a + b`, wrapping.
pub open spec fn wrap64(a: u64, b: u64) -> u64 {
    if a + b > u64::MAX {
        (a + b - u64::MAX - 1) as u64
    } else {
        (a + b) as u64
    }
}

/// The offset just past an object header.
pub open spec fn past_header(h: u32) -> u32 {
    if h > u32::MAX - 8 {
        0
    } else {
        (h + 8) as u32
    }
}

impl State {
    /// The pool for slots of `osize` bytes, created on first use.
    pub open spec fn pool_for(self, osize: u32) -> (State, int) {
        match pool_index(self.pools, osize, 0) {
            Some(i) => (self, i),
            None => (
                State {
                    pools: self.pools.push(PoolV { osize, page_q: Seq::empty() }),
                    ..self
                },
                self.pools.len() as int,
            ),
        }
    }

    /// The state with the page queue of pool `pi` replaced.
    pub open spec fn with_queue(self, pi: int, q: Seq<usize>) -> State {
        if 0 <= pi < self.pools.len() {
            State { pools: self.pools.update(pi, PoolV { page_q: q, ..self.pools[pi] }), ..self }
        } else {
            self
        }
    }

    /// A page with a free slot for pool `pi`: one from the pool's queue, else a
    /// released page, else a fresh one; `None` when the region is exhausted.
    pub open spec fn find_page(self, pi: int, osize: u32) -> (State, Option<int>) {
        let q = trim_queue(self.pages, self.pools[pi].page_q);
        let s = self.with_queue(pi, q);
        if q.len() > 0 {
            (s, Some(q.last() as int))
        } else if s.free_pages.len() > 0 {
            let idx = s.free_pages.last();
            let s1 = State { free_pages: s.free_pages.drop_last(), ..s };
            if idx < s1.pages.len() {
                (
                    State {
                        pages: s1.pages.update(
                            idx as int,
                            fresh_page(s1.pages[idx as int].start, osize),
                        ),
                        ..s1
                    }.with_queue(pi, q.push(idx)),
                    Some(idx as int),
                )
            } else {
                (s1, None)
            }
        } else {
            let (s1, start) = s.region_alloc(PAGE_SIZE as int);
            if start == NULL {
                (s1, None)
            } else {
                (
                    State { pages: s1.pages.push(fresh_page(start, osize)), ..s1 }.with_queue(
                        pi,
                        q.push(s1.pages.len() as usize),
                    ),
                    Some(s1.pages.len() as int),
                )
            }
        }
    }

    /// Takes the first free slot of page `idx`.
    pub open spec fn take_slot(self, idx: int) -> (State, u32) {
        let pg = self.pages[idx];
        if 0 <= idx < self.pages.len() && pg.free.len() > 0 {
            (
                State {
                    pages: self.pages.update(
                        idx,
                        PageV {
                            free: pg.free.drop_last(),
                            live_n: inc32(pg.live_n),
                            has_young: true,
                            ..pg
                        },
                    ),
                    stats: Stats {
                        live: wrap64(self.stats.live, 1),
                        heap_size: wrap64(self.stats.heap_size, pg.osize as u64),
                        ..self.stats
                    },
                    ..self
                },
                pg.free.last(),
            )
        } else {
            (self, NULL)
        }
    }

    /// A slot of at least `total` bytes, or null when no page can serve it.
    #[verifier::opaque]
    pub open spec fn alloc_chunk(self, total: int) -> (State, u32) {
        let osize = size_class(total);
        if osize > PAGE_SIZE {
            (self, NULL)
        } else {
            let (s1, pi) = self.pool_for(osize as u32);
            let (s2, page) = s1.find_page(pi, osize as u32);
            match page {
                Some(idx) => s2.take_slot(idx),
                None => (s2, NULL),
            }
        }
    }
}

/// Index of the pool serving `osize`, creating it on first use.
fn pool_for(rt: &mut Runtime, osize: u32) -> (r: usize)
    ensures
        (final(rt)@, r as int) == old(rt)@.pool_for(osize),
        r < final(rt)@.pools.len(),
{
    let n: usize = rt.pools.len();
    let mut i: usize = 0;
    while i < n
        invariant
            i <= n,
            n == rt.pools.len(),
            pool_index(rt@.pools, osize, 0) == pool_index(rt@.pools, osize, i as int),
            *rt == *old(rt),
        decreases n - i,
    {
        if rt.pools[i].osize == osize {
            return i;
        }
        i = i + 1;
    }
    rt.pools.push(Pool { osize, page_q: Vec::new() });
    n
}

/// Lists the slots of a page from byte position `pos` on, the lowest last.
fn list_slots(start: u32, osize: u32, pos: u32) -> (r: Vec<u32>)
    ensures
        r@ == fresh_slots(start, osize, pos as int),
    decreases PAGE_SIZE - pos,
{
    if osize == 0 || pos > PAGE_SIZE || osize > PAGE_SIZE - pos {
        return Vec::new();
    }
    let mut r: Vec<u32> = list_slots(start, osize, pos + osize);
    r.push((start as u64 + pos as u64) as u32);
    r
}

/// A page of class `osize` with every slot free.
fn new_page(start: u32, osize: u32) -> (r: Page)
    ensures
        r@ == fresh_page(start, osize),
{
    Page {
        start,
        osize,
        free: list_slots(start, osize, 0),
        live_n: 0,
        has_marked: false,
        has_young: false,
        nold: 0,
        prev_nold: 0,
        in_use: true,
    }
}

/// Drops trailing pages without a free slot from the queue of pool `pi`.
fn trim(rt: &mut Runtime, pi: usize)
    requires
        pi < old(rt)@.pools.len(),
    ensures
        final(rt)@ == old(rt)@.with_queue(
            pi as int,
            trim_queue(old(rt)@.pages, old(rt)@.pools[pi as int].page_q),
        ),
{
    let ghost want = trim_queue(rt@.pages, rt@.pools[pi as int].page_q);
    loop
        invariant
            pi < rt@.pools.len(),
            rt@ == old(rt)@.with_queue(pi as int, rt@.pools[pi as int].page_q),
            want == trim_queue(rt@.pages, rt@.pools[pi as int].page_q),
            want == trim_queue(old(rt)@.pages, old(rt)@.pools[pi as int].page_q),
        decreases rt@.pools[pi as int].page_q.len(),
    {
        let n: usize = rt.pools[pi].page_q.len();
        if n == 0 {
            return;
        }
        let last: usize = rt.pools[pi].page_q[n - 1];
        if last < rt.pages.len() {
            assert(rt@.pages[last as int] == rt.pages@[last as int]@);
            if rt.pages[last].free.len() > 0 {
                return;
            }
        }
        let ghost before = rt@;
        rt.pools[pi].page_q.pop();
        assert(rt@.pools =~= before.pools.update(pi as int, rt@.pools[pi as int]));
        assert(rt@.pools[pi as int].page_q =~= before.pools[pi as int].page_q.drop_last());
        assert(rt@ =~= old(rt)@.with_queue(pi as int, rt@.pools[pi as int].page_q));
    }
}

/// A page with a free slot for pool `pi`.
fn find_page(rt: &mut Runtime, pi: usize, osize: u32) -> (r: Option<usize>)
    requires
        pi < old(rt)@.pools.len(),
    ensures
        final(rt)@ == old(rt)@.find_page(pi as int, osize).0,
        match r {
            Some(i) => old(rt)@.find_page(pi as int, osize).1 == Some(i as int),
            None => old(rt)@.find_page(pi as int, osize).1 is None,
        },
{
    trim(rt, pi);
    let n: usize = rt.pools[pi].page_q.len();
    if n > 0 {
        return Some(rt.pools[pi].page_q[n - 1]);
    }
    match rt.free_pages.pop() {
        Some(idx) => {
            if idx < rt.pages.len() {
                let start: u32 = rt.pages[idx].start;
                rt.pages.set(idx, new_page(start, osize));
                rt.pools[pi].page_q.push(idx);
                Some(idx)
            } else {
                None
            }
        },
        None => {
            let start: u32 = alloc_bytes(rt, PAGE_SIZE as usize);
            if start == NULL {
                return None;
            }
            let idx: usize = rt.pages.len();
            rt.pages.push(new_page(start, osize));
            rt.pools[pi].page_q.push(idx);
            Some(idx)
        },
    }
}

/// Takes the first free slot of page `idx`.
fn take_slot(rt: &mut Runtime, idx: usize) -> (r: u32)
    ensures
        (final(rt)@, r) == old(rt)@.take_slot(idx as int),
{
    if idx >= rt.pages.len() {
        return NULL;
    }
    let pg: &mut Page = &mut rt.pages[idx];
    match pg.free.pop() {
        Some(head) => {
            pg.live_n = pg.live_n.wrapping_add(1);
            pg.has_young = true;
            let osize: u64 = pg.osize as u64;
            rt.stats.live = rt.stats.live.wrapping_add(1);
            rt.stats.heap_size = rt.stats.heap_size.wrapping_add(osize);
            head
        },
        None => NULL,
    }
}

/// Obtains a slot of at least `total` bytes: the offset of its header, or null
/// when no page can serve it.
pub fn alloc_chunk(rt: &mut Runtime, total: u64) -> (r: u32)
    requires
        total <= 0xffff_ffff_ffff_0000,
    ensures
        (final(rt)@, r) == old(rt)@.alloc_chunk(total as int),
{
    proof {
        reveal(State::alloc_chunk);
    }
    let osize: u64 = size_class_of(total);
    if osize > PAGE_SIZE as u64 {
        return NULL;
    }
    let pi: usize = pool_for(rt, osize as u32);
    match find_page(rt, pi, osize as u32) {
        Some(idx) => take_slot(rt, idx),
        None => NULL,
    }
}

// --- shadow stack -----------------------------------------------------------

/// A root: one shadow-stack slot. Roots are released in the reverse order of
/// their creation.
pub struct Rooted {
    pub index: usize,
}

impl Rooted {
    /// Roots `v` in a fresh slot.
    pub fn new(rt: &mut Runtime, v: Value) -> (r: Rooted)
        ensures
            final(rt)@ == old(rt)@.push_root(v.0),
            r.index == old(rt)@.roots.len(),
    {
        let index: usize = rt.roots.len();
        rt.push_root(v.0);
        Rooted { index }
    }

    /// The rooted value.
    pub fn get(&self, rt: &Runtime) -> (r: Value)
        requires
            self.index < rt@.roots.len(),
        ensures
            r.0 == rt@.roots[self.index as int],
    {
        Value(rt.roots[self.index])
    }

    /// Replaces the rooted value.
    pub fn set(&self, rt: &mut Runtime, v: Value)
        requires
            self.index < old(rt)@.roots.len(),
        ensures
            final(rt)@ == old(rt)@.with_root(self.index as int, v.0),
    {
        rt.set_root(self.index, v.0);
    }

    /// Releases the root, which must be the topmost one.
    pub fn release(self, rt: &mut Runtime)
        requires
            self.index + 1 == old(rt)@.roots.len(),
        ensures
            final(rt)@ == old(rt)@.pop_roots(1),
    {
        rt.pop_roots(1);
    }
}

/// The number of live roots.
pub fn root_count(rt: &Runtime) -> (r: usize)
    ensures
        r == rt@.roots.len(),
{
    rt.roots.len()
}

impl State {
    /// The state with `n` null slots pushed onto the shadow stack.
    pub open spec fn push_frame(self, n: nat) -> State {
        State { roots: self.roots + Seq::new(n, |i: int| NULL), ..self }
    }
}

/// A contiguous block of roots, released in the reverse order of creation.
pub struct Frame {
    pub base: usize,
    pub len: usize,
}

impl Frame {
    /// Pushes a frame of `n` null slots.
    pub fn new(rt: &mut Runtime, n: usize) -> (r: Frame)
        ensures
            final(rt)@ == old(rt)@.push_frame(n as nat),
            r.base == old(rt)@.roots.len(),
            r.len == n,
    {
        let base: usize = rt.roots.len();
        let mut i: usize = 0;
        while i < n
            invariant
                i <= n,
                rt@ == old(rt)@.push_frame(i as nat),
            decreases n - i,
        {
            rt.roots.push(NULL);
            i = i + 1;
            assert(rt@ =~= old(rt)@.push_frame(i as nat));
        }
        assert(old(rt)@ =~= old(rt)@.push_frame(0));
        Frame { base, len: n }
    }

    /// Reads slot `i`.
    pub fn get(&self, rt: &Runtime, i: usize) -> (r: Value)
        requires
            self.base + self.len <= rt@.roots.len(),
            i < self.len,
        ensures
            r.0 == rt@.roots[self.base + i],
    {
        assert(self.base + i < rt.roots.len());
        Value(rt.roots[self.base + i])
    }

    /// Writes slot `i`.
    pub fn set(&self, rt: &mut Runtime, i: usize, v: Value)
        requires
            self.base + self.len <= old(rt)@.roots.len(),
            i < self.len,
        ensures
            final(rt)@ == old(rt)@.with_root(self.base + i, v.0),
    {
        assert(self.base + i < rt.roots.len());
        rt.set_root(self.base + i, v.0);
    }

    /// Releases the frame, which must be the topmost one.
    pub fn release(self, rt: &mut Runtime)
        requires
            self.base + self.len == old(rt)@.roots.len(),
        ensures
            final(rt)@ == old(rt)@.pop_roots(self.len as int),
    {
        rt.pop_roots(self.len);
    }
}

/// Pushing a root and releasing it leaves the state as it was.
pub proof fn law_roots_balance(s: State, v: u32, n: nat)
    ensures
        s.push_root(v).pop_roots(1) == s,
        s.push_frame(n).pop_roots(n as int) == s,
{
    assert(s.push_root(v).pop_roots(1) =~= s);
    assert(s.push_frame(n).pop_roots(n as int) =~= s);
}

// --- marking ----------------------------------------------------------------

/// The blocks whose mark bit is clear.
pub open spec fn unmarked(objs: Seq<Option<ObjV>>) -> nat
    decreases objs.len(),
{
    if objs.len() == 0 {
        0
    } else {
        unmarked(objs.drop_last()) + match objs.last() {
            Some(o) => if o.marked {
                0nat
            } else {
                1nat
            },
            None => 0nat,
        }
    }
}

proof fn lemma_unmarked_update(objs: Seq<Option<ObjV>>, i: int, o: ObjV)
    requires
        0 <= i < objs.len(),
        objs[i] is Some,
        !objs[i]->Some_0.marked,
        o.marked,
    ensures
        unmarked(objs.update(i, Some(o))) + 1 == unmarked(objs),
    decreases objs.len(),
{
    let u = objs.update(i, Some(o));
    if i == objs.len() - 1 {
        assert(u.drop_last() =~= objs.drop_last());
    } else {
        assert(u.drop_last() =~= objs.drop_last().update(i, Some(o)));
        lemma_unmarked_update(objs.drop_last(), i, o);
        assert(u.last() == objs.last());
    }
}

/// The first page from `lo` up to `hi` that ends past `off`, by bisection.
pub open spec fn page_search(pages: Seq<PageV>, off: u32, lo: int, hi: int) -> int
    decreases hi - lo,
{
    if lo < hi {
        let mid = (lo + hi) / 2;
        if pages[mid].start + PAGE_SIZE <= off {
            page_search(pages, off, mid + 1, hi)
        } else {
            page_search(pages, off, lo, mid)
        }
    } else {
        lo
    }
}

/// The page in use that holds the header offset `off`.
pub open spec fn page_of(pages: Seq<PageV>, off: u32) -> Option<int> {
    let i = page_search(pages, off, 0, pages.len() as int);
    if 0 <= i < pages.len() && pages[i].start <= off && pages[i].in_use {
        Some(i)
    } else {
        None
    }
}

/// Pages lie in ascending order and do not overlap.
pub open spec fn pages_sorted(pages: Seq<PageV>) -> bool {
    forall|i: int, j: int|
        0 <= i < j < pages.len() ==> #[trigger] pages[i].start + PAGE_SIZE
            <= #[trigger] pages[j].start
}

proof fn lemma_page_search(pages: Seq<PageV>, off: u32, lo: int, hi: int, i: int)
    requires
        pages_sorted(pages),
        0 <= lo <= i < hi <= pages.len(),
        pages[i].start <= off < pages[i].start + PAGE_SIZE,
    ensures
        page_search(pages, off, lo, hi) == i,
    decreases hi - lo,
{
    let mid = (lo + hi) / 2;
    if pages[mid].start + PAGE_SIZE <= off {
        if i < mid {
            assert(pages[i].start + PAGE_SIZE <= pages[mid].start);
        }
        assert(i != mid);
        lemma_page_search(pages, off, mid + 1, hi, i);
    } else if i < mid {
        lemma_page_search(pages, off, lo, mid, i);
    } else {
        if mid < i {
            assert(pages[mid].start + PAGE_SIZE <= pages[i].start);
        }
        assert(i == mid);
        lemma_page_search_below(pages, off, lo, mid);
    }
}

proof fn lemma_page_search_below(pages: Seq<PageV>, off: u32, lo: int, hi: int)
    requires
        pages_sorted(pages),
        0 <= lo <= hi < pages.len(),
        pages[hi].start <= off,
    ensures
        page_search(pages, off, lo, hi) == hi,
    decreases hi - lo,
{
    if lo < hi {
        let mid = (lo + hi) / 2;
        assert(pages[mid].start + PAGE_SIZE <= pages[hi].start);
        lemma_page_search_below(pages, off, mid + 1, hi);
    }
}

/// On sorted pages the search finds exactly the page in use whose bytes hold the
/// offset.
pub proof fn law_page_of(pages: Seq<PageV>, off: u32, i: int)
    requires
        pages_sorted(pages),
        0 <= i < pages.len(),
    ensures
        page_of(pages, off) == Some(i) <==> pages[i].in_use && pages[i].start <= off < pages[i].start
            + PAGE_SIZE,
{
    if pages[i].start <= off < pages[i].start + PAGE_SIZE {
        lemma_page_search(pages, off, 0, pages.len() as int, i);
    }
    lemma_page_search_end(pages, off, 0, pages.len() as int);
}

proof fn lemma_page_search_end(pages: Seq<PageV>, off: u32, lo: int, hi: int)
    requires
        0 <= lo <= hi <= pages.len(),
        hi == pages.len() || off < pages[hi].start + PAGE_SIZE,
    ensures
        lo <= page_search(pages, off, lo, hi) <= hi,
        page_search(pages, off, lo, hi) < pages.len() ==> off < pages[page_search(
            pages,
            off,
            lo,
            hi,
        )].start + PAGE_SIZE,
    decreases hi - lo,
{
    if lo < hi {
        let mid = (lo + hi) / 2;
        if pages[mid].start + PAGE_SIZE <= off {
            lemma_page_search_end(pages, off, mid + 1, hi);
        } else {
            lemma_page_search_end(pages, off, lo, mid);
        }
    }
}

impl State {
    /// The references embedded in the block at `v`: its type, then its vector
    /// elements, its buffer elements, or the references its layout lists.
    #[verifier::opaque]
    pub open spec fn refs_of(self, v: u32) -> Seq<u32> {
        let t = self.tag(v);
        let head = if t != NULL {
            seq![t]
        } else {
            Seq::empty()
        };
        if self.is_svec(t) {
            head + Seq::new(self.svec_len(v) as nat, |i: int| self.svec_ref(v, i))
        } else if self.is_memory_type(t) {
            head + self.element_refs(v)
        } else {
            head + Seq::new(
                self.layout_npointers(t) as nat,
                |i: int| self.word(v, self.layout_ptr_offset(t, i) as int),
            )
        }
    }

    /// The element references of the buffer at `v`: none unless elements are boxed.
    pub open spec fn element_refs(self, v: u32) -> Seq<u32> {
        let elem = self.svec_ref(self.parameters(self.tag(v)), 0);
        if self.elem_boxed(elem) {
            Seq::new(self.word(v, 0) as nat, |i: int| self.word(v, 8 + 4 * i))
        } else {
            Seq::empty()
        }
    }

    /// Whether the block at `v` references a young object.
    pub open spec fn has_young_ref(self, v: u32) -> bool {
        exists|i: int|
            0 <= i < self.refs_of(v).len() && #[trigger] self.refs_of(v)[i] != NULL
                && !self.is_old(self.refs_of(v)[i])
    }

    /// The state with `v` added to the remembered set.
    pub open spec fn remember(self, v: u32) -> State {
        State { remembered: self.remembered.push(v), ..self }
    }

    /// The page bookkeeping for a mark of the object at `v`.
    pub open spec fn on_marked(self, v: u32, was_old: bool) -> State {
        let h = if v >= 8 {
            (v - 8) as u32
        } else {
            0
        };
        match page_of(self.pages, h) {
            Some(i) => State {
                pages: self.pages.update(
                    i,
                    PageV {
                        has_marked: true,
                        has_young: self.pages[i].has_young || !was_old,
                        nold: if was_old {
                            inc32(self.pages[i].nold)
                        } else {
                            self.pages[i].nold
                        },
                        ..self.pages[i]
                    },
                ),
                ..self
            },
            None => self,
        }
    }

    /// Marks the unmarked object at `v`; an old one that references a young object
    /// is remembered.
    pub open spec fn mark_one(self, v: u32) -> State {
        let was_old = self.is_old(v);
        let s = self.with_bits(v, true, was_old).on_marked(v, was_old);
        if was_old && s.has_young_ref(v) {
            s.remember(v)
        } else {
            s
        }
    }

    /// Marks everything reachable from the work list through unmarked objects.
    pub open spec fn mark_loop(self, work: Seq<u32>) -> State
        decreases unmarked(self.objs), work.len(),
    {
        if work.len() == 0 {
            self
        } else {
            let v = work.last();
            let rest = work.drop_last();
            if self.obj(v) is None || self.is_marked(v) {
                self.mark_loop(rest)
            } else {
                proof {
                    lemma_mark_one(self, v);
                }
                self.mark_one(v).mark_loop(rest + self.mark_one(v).refs_of(v))
            }
        }
    }

    /// Restores the remembered objects from position `i` on to the scanned state
    /// and traces them; those that still reference a young object are remembered.
    pub open spec fn trace_remembered(self, rem: Seq<u32>, i: int, work: Seq<u32>) -> (
        State,
        Seq<u32>,
    )
        decreases rem.len() - i,
    {
        if i < 0 || i >= rem.len() {
            (self, work)
        } else {
            let s = self.with_bits(rem[i], true, true);
            let s1 = if s.has_young_ref(rem[i]) {
                s.remember(rem[i])
            } else {
                s
            };
            s1.trace_remembered(rem, i + 1, work + s.refs_of(rem[i]))
        }
    }

    /// The roots of a collection.
    #[verifier::opaque]
    pub open spec fn root_list(self) -> Seq<u32> {
        self.roots + match self.builtins {
            Some(b) => b.types + seq![
                b.true_instance,
                b.false_instance,
                b.tuple_typename,
                b.box_typename,
                b.pair_typename,
                b.type_typename,
                b.memory_typename,
                b.array_typename,
            ],
            None => Seq::empty(),
        } + self.syms.map_values(|x: crate::state::SymV| x.off) + self.methods.map_values(
            |e: crate::ir::Entry| e.sig,
        ) + self.functions.map_values(|f: (u32, crate::ir::FnKind)| f.0)
            + self.structs.map_values(|p: (u32, u32)| p.1) + self.exc + seq![self.main]
    }

    /// The marking phase.
    #[verifier::opaque]
    pub open spec fn mark(self) -> State {
        let (s, work) = State { remembered: Seq::empty(), ..self }.trace_remembered(
            self.remembered,
            0,
            self.root_list(),
        );
        s.mark_loop(work)
    }
}

/// Marking an unmarked object leaves one fewer of them.
pub proof fn lemma_mark_one(s: State, v: u32)
    requires
        s.obj(v) is Some,
        !s.is_marked(v),
    ensures
        unmarked(s.mark_one(v).objs) + 1 == unmarked(s.objs),
{
    let o = s.obj(v)->Some_0;
    lemma_unmarked_update(s.objs, (v / 8) as int, ObjV { marked: true, ..o });
}

/// Whether `v` is in the old generation.
pub fn is_old(rt: &Runtime, v: Value) -> (r: bool)
    ensures
        r == rt@.is_old(v.0),
{
    match rt.obj(v.0) {
        Some(o) => o.old,
        None => false,
    }
}

/// Whether the mark bit of `v` is set.
fn is_marked(rt: &Runtime, v: u32) -> (r: bool)
    ensures
        r == rt@.is_marked(v),
{
    match rt.obj(v) {
        Some(o) => o.marked,
        None => false,
    }
}

/// The element references of the buffer at `v`.
pub fn each_element_ref(rt: &Runtime, v: Value) -> (r: Vec<u32>)
    ensures
        r@ == rt@.element_refs(v.0),
{
    let mut r: Vec<u32> = Vec::new();
    let t: u32 = access::tag_of(rt, v.0);
    let elem: u32 = access::svec_ref(rt, access::parameters_of(rt, t), 0);
    if access::elem_boxed(rt, elem) {
        let n: u32 = rt.word(v.0, 0);
        let mut i: u32 = 0;
        while i < n
            invariant
                i <= n,
                n == rt@.word(v.0, 0),
                r.len() == i,
                forall|k: int| 0 <= k < i ==> r@[k] == rt@.word(v.0, 8 + 4 * k),
            decreases n - i,
        {
            r.push(rt.word(v.0, 8 + 4 * (i as u64)));
            i = i + 1;
        }
    }
    assert(r@ =~= rt@.element_refs(v.0));
    r
}

/// The references embedded in the object at `v`.
fn each_ref(rt: &Runtime, v: u32) -> (r: Vec<u32>)
    ensures
        r@ == rt@.refs_of(v),
{
    proof {
        reveal(State::refs_of);
    }
    let t: u32 = access::tag_of(rt, v);
    let mut r: Vec<u32> = Vec::new();
    if t != NULL {
        r.push(t);
    }
    let ghost head = r@;
    if access::is_svec(rt, t) {
        let n: u32 = access::svec_len(rt, v);
        let mut i: u32 = 0;
        while i < n
            invariant
                i <= n,
                r@ == head + Seq::new(i as nat, |k: int| rt@.svec_ref(v, k)),
            decreases n - i,
        {
            r.push(access::svec_ref(rt, v, i));
            i = i + 1;
            assert(r@ =~= head + Seq::new(i as nat, |k: int| rt@.svec_ref(v, k)));
        }
    } else if access::is_memory_type(rt, t) {
        let mut more: Vec<u32> = each_element_ref(rt, Value(v));
        r.append(&mut more);
    } else {
        let n: u32 = access::layout_npointers(rt, t);
        let mut i: u32 = 0;
        while i < n
            invariant
                i <= n,
                r@ == head + Seq::new(
                    i as nat,
                    |k: int| rt@.word(v, rt@.layout_ptr_offset(t, k) as int),
                ),
            decreases n - i,
        {
            r.push(rt.word(v, access::layout_ptr_offset(rt, t, i) as u64));
            i = i + 1;
            assert(r@ =~= head + Seq::new(
                i as nat,
                |k: int| rt@.word(v, rt@.layout_ptr_offset(t, k) as int),
            ));
        }
    }
    assert(r@ =~= rt@.refs_of(v));
    r
}

/// Whether `v` references any young object.
fn has_young_ref(rt: &Runtime, v: u32) -> (r: bool)
    ensures
        r == rt@.has_young_ref(v),
{
    let refs: Vec<u32> = each_ref(rt, v);
    let mut i: usize = 0;
    while i < refs.len()
        invariant
            i <= refs.len(),
            refs@ == rt@.refs_of(v),
            forall|k: int|
                0 <= k < i ==> !(#[trigger] rt@.refs_of(v)[k] != NULL && !rt@.is_old(
                    rt@.refs_of(v)[k],
                )),
        decreases refs.len() - i,
    {
        if refs[i] != NULL && !is_old(rt, Value(refs[i])) {
            assert(rt@.refs_of(v)[i as int] != NULL);
            return true;
        }
        i = i + 1;
    }
    false
}

/// The page in use that holds the header offset `off`.
fn find_page_of(rt: &Runtime, off: u32) -> (r: Option<usize>)
    ensures
        match r {
            Some(i) => page_of(rt@.pages, off) == Some(i as int) && i < rt.pages.len(),
            None => page_of(rt@.pages, off) is None,
        },
{
    let mut lo: usize = 0;
    let mut hi: usize = rt.pages.len();
    while lo < hi
        invariant
            lo <= hi <= rt.pages.len(),
            page_search(rt@.pages, off, 0, rt@.pages.len() as int) == page_search(
                rt@.pages,
                off,
                lo as int,
                hi as int,
            ),
        decreases hi - lo,
    {
        let mid: usize = lo + (hi - lo) / 2;
        assert(mid == (lo + hi) / 2);
        if rt.pages[mid].start as u64 + PAGE_SIZE as u64 <= off as u64 {
            lo = mid + 1;
        } else {
            hi = mid;
        }
    }
    if lo < rt.pages.len() && rt.pages[lo].start <= off && rt.pages[lo].in_use {
        Some(lo)
    } else {
        None
    }
}

/// Page bookkeeping for a mark.
fn on_marked(rt: &mut Runtime, v: u32, was_old: bool)
    ensures
        final(rt)@ == old(rt)@.on_marked(v, was_old),
{
    let h: u32 = if v >= 8 {
        v - 8
    } else {
        0
    };
    match find_page_of(rt, h) {
        Some(i) => {
            let pg: &mut Page = &mut rt.pages[i];
            pg.has_marked = true;
            if was_old {
                pg.nold = pg.nold.wrapping_add(1);
            } else {
                pg.has_young = true;
            }
        },
        None => {},
    }
}

/// Marks the unmarked object at `v`.
fn mark_one(rt: &mut Runtime, v: u32)
    ensures
        final(rt)@ == old(rt)@.mark_one(v),
{
    let was_old: bool = is_old(rt, Value(v));
    rt.set_bits(v, true, was_old);
    on_marked(rt, v, was_old);
    if was_old && has_young_ref(rt, v) {
        rt.remembered.push(v);
    }
}

/// Lists the roots of a collection.
fn list_roots(rt: &Runtime) -> (r: Vec<u32>)
    ensures
        r@ == rt@.root_list(),
{
    proof {
        reveal(State::root_list);
    }
    let mut r: Vec<u32> = copy_words(&rt.roots);
    match &rt.builtins {
        Some(b) => {
            let mut t: Vec<u32> = copy_words(&b.types);
            r.append(&mut t);
            r.push(b.true_instance);
            r.push(b.false_instance);
            r.push(b.tuple_typename);
            r.push(b.box_typename);
            r.push(b.pair_typename);
            r.push(b.type_typename);
            r.push(b.memory_typename);
            r.push(b.array_typename);
        },
        None => {},
    }
    let mut syms: Vec<u32> = crate::symbol::each_interned(rt);
    r.append(&mut syms);
    let mut sigs: Vec<u32> = crate::dispatch::each_sig(rt);
    r.append(&mut sigs);
    let mut functions: Vec<u32> = crate::dispatch::each_function(rt);
    r.append(&mut functions);
    let mut structs: Vec<u32> = crate::structs::each_registered_struct(rt);
    r.append(&mut structs);
    let mut exc: Vec<u32> = copy_words(&rt.exc);
    r.append(&mut exc);
    r.push(rt.main);
    assert(r@ =~= rt@.root_list());
    r
}

/// A copy of a vector of offsets.
pub fn copy_words(v: &Vec<u32>) -> (r: Vec<u32>)
    ensures
        r@ == v@,
{
    let mut r: Vec<u32> = Vec::new();
    let mut i: usize = 0;
    while i < v.len()
        invariant
            i <= v.len(),
            r@ == v@.take(i as int),
        decreases v.len() - i,
    {
        r.push(v[i]);
        i = i + 1;
        assert(r@ =~= v@.take(i as int));
    }
    assert(v@.take(v.len() as int) =~= v@);
    r
}

/// Marks every object reachable from the roots and the remembered set.
fn mark(rt: &mut Runtime)
    ensures
        final(rt)@ == old(rt)@.mark(),
{
    proof {
        reveal(State::mark);
    }
    let mut work: Vec<u32> = list_roots(rt);
    let rem: Vec<u32> = copy_words(&rt.remembered);
    rt.remembered.clear();
    let ghost s0 = rt@;
    let ghost roots = work@;
    let mut i: usize = 0;
    while i < rem.len()
        invariant
            i <= rem.len(),
            s0.trace_remembered(rem@, 0, roots) == rt@.trace_remembered(rem@, i as int, work@),
        decreases rem.len() - i,
    {
        let p: u32 = rem[i];
        rt.set_bits(p, true, true);
        let mut refs: Vec<u32> = each_ref(rt, p);
        work.append(&mut refs);
        if has_young_ref(rt, p) {
            rt.remembered.push(p);
        }
        i = i + 1;
    }
    let ghost goal = rt@.mark_loop(work@);
    while work.len() > 0
        invariant
            goal == rt@.mark_loop(work@),
        decreases unmarked(rt@.objs), work.len(),
    {
        let ghost s = rt@;
        let ghost w = work@;
        match work.pop() {
            Some(v) => {
                if rt.obj(v).is_some() && !is_marked(rt, v) {
                    proof {
                        lemma_mark_one(s, v);
                    }
                    mark_one(rt, v);
                    let mut refs: Vec<u32> = each_ref(rt, v);
                    work.append(&mut refs);
                }
            },
            None => {},
        }
    }
}

// --- write barrier ----------------------------------------------------------

impl State {
    /// The effect of the write barrier for a store of `child` into `parent`: a
    /// scanned old parent that gains an unmarked child is queued once.
    pub open spec fn write_barrier(self, parent: u32, child: u32) -> State {
        if child != NULL && self.is_marked(parent) && self.is_old(parent) && !self.is_marked(
            child,
        ) {
            self.with_bits(parent, true, false).remember(parent)
        } else {
            self
        }
    }
}

/// Records a store of `child` into `parent`. It acts only when the parent is old
/// and already scanned and the child's mark bit is clear: the parent is put in
/// the queued state, which keeps the barrier from acting on it again, and
/// remembered.
pub fn write_barrier(rt: &mut Runtime, parent: Value, child: Value)
    ensures
        final(rt)@ == old(rt)@.write_barrier(parent.0, child.0),
{
    if child.0 != NULL && is_marked(rt, parent.0) && is_old(rt, parent) && !is_marked(
        rt,
        child.0,
    ) {
        rt.set_bits(parent.0, true, false);
        rt.remembered.push(parent.0);
    }
}

/// The barrier remembers a parent at most once: a second store into a queued
/// parent changes nothing.
pub proof fn law_barrier_fires_once(s: State, parent: u32, a: u32, b: u32)
    requires
        s.write_barrier(parent, a) != s,
    ensures
        s.write_barrier(parent, a).write_barrier(parent, b) == s.write_barrier(parent, a),
        s.write_barrier(parent, a).remembered == s.remembered.push(parent),
{
}

/// Number of remembered objects.
pub fn remset_len(rt: &Runtime) -> (r: usize)
    ensures
        r == rt@.remembered.len(),
{
    rt.remembered.len()
}

/// Number of released pages awaiting reuse.
pub fn free_page_count(rt: &Runtime) -> (r: usize)
    ensures
        r == rt@.free_pages.len(),
{
    rt.free_pages.len()
}

/// Pages walked by the most recent sweep.
pub fn pages_walked_last(rt: &Runtime) -> (r: u64)
    ensures
        r == rt@.stats.pages_walked,
{
    rt.stats.pages_walked
}

/// Number of live objects.
pub fn live_objects(rt: &Runtime) -> (r: u64)
    ensures
        r == rt@.stats.live,
{
    rt.stats.live
}

/// Live and freshly allocated bytes.
pub fn heap_size(rt: &Runtime) -> (r: u64)
    ensures
        r == rt@.stats.heap_size,
{
    rt.stats.heap_size
}

/// The collection target.
pub fn heap_target(rt: &Runtime) -> (r: u64)
    ensures
        r == rt@.stats.heap_target,
{
    rt.stats.heap_target
}

// --- sweeping ---------------------------------------------------------------

/// `q` without the page `x`.
pub open spec fn without(q: Seq<usize>, x: usize) -> Seq<usize>
    decreases q.len(),
{
    if q.len() == 0 {
        q
    } else if q.last() == x {
        without(q.drop_last(), x)
    } else {
        without(q.drop_last(), x).push(q.last())
    }
}

/// What the walk of a page gathers.
#[verifier::ext_equal]
pub struct PageWalk {
    pub free: Seq<u32>,
    pub live_n: u32,
    pub promoted: u64,
}

/// What a sweep gathers.
#[derive(Clone, Copy)]
pub struct Sweep {
    pub survivors: u64,
    pub live_bytes: u64,
    pub promoted: u64,
    pub walked: u64,
}

/// The total size of `n` slots of `osize` bytes.
pub open spec fn bytes_of(n: u32, osize: u32) -> u64 {
    (n * osize) as u64
}

/// Computes the total size of `n` slots of `osize` bytes.
fn slot_bytes(n: u32, osize: u32) -> (r: u64)
    ensures
        r == bytes_of(n, osize),
{
    assert(n * osize <= 0xffff_ffff * 0xffff_ffff) by (nonlinear_arith)
        requires
            n <= 0xffff_ffff,
            osize <= 0xffff_ffff,
    ;
    assert(0 <= n * osize) by (nonlinear_arith);
    (n as u64) * (osize as u64)
}

impl State {
    /// Walks the slots of a page from byte position `pos` on: a marked object
    /// survives, promoted if it was young and unscanned again if the sweep is
    /// full; any other slot becomes free.
    pub open spec fn sweep_slots(
        self,
        start: u32,
        osize: u32,
        pos: int,
        full: bool,
        w: PageWalk,
    ) -> (State, PageWalk)
        decreases PAGE_SIZE - pos,
    {
        if osize == 0 || pos < 0 || pos + osize > PAGE_SIZE {
            (self, w)
        } else {
            let slot = (start + pos) as u32;
            let v = past_header(slot);
            if self.is_marked(v) {
                if !self.is_old(v) {
                    self.with_bits(v, false, true).sweep_slots(
                        start,
                        osize,
                        pos + osize,
                        full,
                        PageWalk {
                            live_n: inc32(w.live_n),
                            promoted: wrap64(w.promoted, osize as u64),
                            ..w
                        },
                    )
                } else {
                    (if full {
                        self.with_bits(v, false, true)
                    } else {
                        self
                    }).sweep_slots(
                        start,
                        osize,
                        pos + osize,
                        full,
                        PageWalk { live_n: inc32(w.live_n), ..w },
                    )
                }
            } else {
                self.put(v, None).sweep_slots(
                    start,
                    osize,
                    pos + osize,
                    full,
                    PageWalk { free: w.free.push(slot), ..w },
                )
            }
        }
    }

    /// Drops every block of a page from byte position `pos` on.
    pub open spec fn drop_slots(self, start: u32, osize: u32, pos: int) -> State
        decreases PAGE_SIZE - pos,
    {
        if osize == 0 || pos < 0 || pos + osize > PAGE_SIZE {
            self
        } else {
            self.put(past_header((start + pos) as u32), None).drop_slots(start, osize, pos + osize)
        }
    }

    /// Releases the page `idx` whole, for reuse by any pool.
    pub open spec fn release_page(self, idx: int) -> State {
        let pg = self.pages[idx];
        let s = self.drop_slots(pg.start, pg.osize, 0);
        let s1 = State {
            pages: s.pages.update(idx, PageV { in_use: false, live_n: 0, ..pg }),
            free_pages: s.free_pages.push(idx as usize),
            ..s
        };
        match pool_index(s1.pools, pg.osize, 0) {
            Some(pi) => s1.with_queue(pi, without(s1.pools[pi].page_q, idx as usize)),
            None => s1,
        }
    }

    /// Walks the page `idx`, rebuilding its free list.
    pub open spec fn walk_page(self, idx: int, full: bool) -> (State, PageWalk) {
        let pg = self.pages[idx];
        let (s, w) = self.sweep_slots(
            pg.start,
            pg.osize,
            0,
            full,
            PageWalk { free: Seq::empty(), live_n: 0, promoted: 0 },
        );
        let s1 = State {
            pages: s.pages.update(
                idx,
                PageV {
                    free: w.free,
                    live_n: w.live_n,
                    has_marked: w.live_n > 0,
                    has_young: false,
                    prev_nold: if full {
                        w.live_n
                    } else {
                        pg.prev_nold
                    },
                    nold: if full {
                        0
                    } else {
                        pg.nold
                    },
                    ..pg
                },
            ),
            ..s
        };
        if w.free.len() > 0 {
            let (s2, pi) = s1.pool_for(pg.osize);
            if s2.pools[pi].page_q.contains(idx as usize) {
                (s2, w)
            } else {
                (s2.with_queue(pi, s2.pools[pi].page_q.push(idx as usize)), w)
            }
        } else {
            (s1, w)
        }
    }

    /// Whether a quick sweep leaves the page as it stands: no young object, and a
    /// settled count of old ones.
    pub open spec fn page_settled(self, pg: PageV, full: bool) -> bool {
        !full && !pg.has_young && (!self.stats.prev_full || pg.prev_nold == pg.nold)
    }

    /// Sweeps the pages from `idx` up to `n`.
    pub open spec fn sweep_pages(self, idx: int, n: int, full: bool, acc: Sweep) -> (State, Sweep)
        decreases n - idx,
    {
        if idx < 0 || idx >= n || idx >= self.pages.len() {
            (self, acc)
        } else {
            let pg = self.pages[idx];
            if !pg.in_use {
                self.sweep_pages(idx + 1, n, full, acc)
            } else if !pg.has_marked {
                self.release_page(idx).sweep_pages(idx + 1, n, full, acc)
            } else if self.page_settled(pg, full) {
                self.sweep_pages(
                    idx + 1,
                    n,
                    full,
                    Sweep {
                        survivors: wrap64(acc.survivors, pg.live_n as u64),
                        live_bytes: wrap64(acc.live_bytes, bytes_of(pg.live_n, pg.osize)),
                        ..acc
                    },
                )
            } else {
                let (s, w) = self.walk_page(idx, full);
                s.sweep_pages(
                    idx + 1,
                    n,
                    full,
                    Sweep {
                        survivors: wrap64(acc.survivors, w.live_n as u64),
                        live_bytes: wrap64(acc.live_bytes, bytes_of(w.live_n, pg.osize)),
                        promoted: wrap64(acc.promoted, w.promoted),
                        walked: wrap64(acc.walked, 1),
                    },
                )
            }
        }
    }

    /// The sweeping phase.
    #[verifier::opaque]
    pub open spec fn sweep(self, full: bool) -> (State, Sweep) {
        let (s, acc) = self.sweep_pages(
            0,
            self.pages.len() as int,
            full,
            Sweep { survivors: 0, live_bytes: 0, promoted: 0, walked: 0 },
        );
        (
            State {
                stats: Stats { prev_full: full, pages_walked: acc.walked, ..s.stats },
                ..s
            },
            acc,
        )
    }
}

/// Walks the slots of a page.
fn sweep_slots(rt: &mut Runtime, start: u32, osize: u32, full: bool) -> (r: (Vec<u32>, u32, u64))
    ensures
        (final(rt)@, (PageWalk { free: r.0@, live_n: r.1, promoted: r.2 })) == old(
            rt,
        )@.sweep_slots(
            start,
            osize,
            0,
            full,
            (PageWalk { free: Seq::empty(), live_n: 0, promoted: 0 }),
        ),
{
    let mut free: Vec<u32> = Vec::new();
    let mut live_n: u32 = 0;
    let mut promoted: u64 = 0;
    let mut pos: u32 = 0;
    assert(free@ =~= Seq::<u32>::empty());
    let ghost want = rt@.sweep_slots(
        start,
        osize,
        0,
        full,
        (PageWalk { free: Seq::empty(), live_n: 0, promoted: 0 }),
    );
    while osize > 0 && pos <= PAGE_SIZE && osize <= PAGE_SIZE - pos
        invariant
            pos <= PAGE_SIZE,
            want == rt@.sweep_slots(
                start,
                osize,
                pos as int,
                full,
                (PageWalk { free: free@, live_n, promoted }),
            ),
        decreases PAGE_SIZE - pos,
    {
        let slot: u32 = (start as u64 + pos as u64) as u32;
        let v: u32 = if slot > 0xffff_fff7 {
            0
        } else {
            slot + 8
        };
        if is_marked(rt, v) {
            if !is_old(rt, Value(v)) {
                rt.set_bits(v, false, true);
                promoted = promoted.wrapping_add(osize as u64);
            } else if full {
                rt.set_bits(v, false, true);
            }
            live_n = live_n.wrapping_add(1);
        } else {
            rt.put(v, None);
            free.push(slot);
        }
        pos = pos + osize;
    }
    (free, live_n, promoted)
}

/// Drops every block of a page.
fn drop_slots(rt: &mut Runtime, start: u32, osize: u32)
    ensures
        final(rt)@ == old(rt)@.drop_slots(start, osize, 0),
{
    let mut pos: u32 = 0;
    while osize > 0 && pos <= PAGE_SIZE && osize <= PAGE_SIZE - pos
        invariant
            pos <= PAGE_SIZE,
            old(rt)@.drop_slots(start, osize, 0) == rt@.drop_slots(start, osize, pos as int),
        decreases PAGE_SIZE - pos,
    {
        let slot: u32 = (start as u64 + pos as u64) as u32;
        let v: u32 = if slot > 0xffff_fff7 {
            0
        } else {
            slot + 8
        };
        rt.put(v, None);
        pos = pos + osize;
    }
}

/// A copy of a queue without the page `x`.
fn queue_without(q: &Vec<usize>, x: usize) -> (r: Vec<usize>)
    ensures
        r@ == without(q@, x),
{
    let mut r: Vec<usize> = Vec::new();
    let mut i: usize = 0;
    assert(q@.take(0) =~= Seq::<usize>::empty());
    assert(r@ =~= without(q@.take(0), x));
    while i < q.len()
        invariant
            i <= q.len(),
            r@ == without(q@.take(i as int), x),
        decreases q.len() - i,
    {
        assert(q@.take(i + 1).drop_last() =~= q@.take(i as int));
        assert(q@.take(i + 1).last() == q@[i as int]);
        if q[i] != x {
            r.push(q[i]);
        }
        i = i + 1;
    }
    assert(q@.take(q.len() as int) =~= q@);
    r
}

/// The first pool with slot size `osize`.
fn find_pool(rt: &Runtime, osize: u32) -> (r: Option<usize>)
    ensures
        match r {
            Some(i) => pool_index(rt@.pools, osize, 0) == Some(i as int) && i < rt.pools.len(),
            None => pool_index(rt@.pools, osize, 0) is None,
        },
{
    let n: usize = rt.pools.len();
    let mut i: usize = 0;
    while i < n
        invariant
            i <= n,
            n == rt.pools.len(),
            pool_index(rt@.pools, osize, 0) == pool_index(rt@.pools, osize, i as int),
        decreases n - i,
    {
        if rt.pools[i].osize == osize {
            return Some(i);
        }
        i = i + 1;
    }
    None
}

/// Releases the page `idx` whole.
fn release_page(rt: &mut Runtime, idx: usize)
    requires
        idx < old(rt)@.pages.len(),
    ensures
        final(rt)@ == old(rt)@.release_page(idx as int),
        final(rt)@.pages.len() == old(rt)@.pages.len(),
{
    let start: u32 = rt.pages[idx].start;
    let osize: u32 = rt.pages[idx].osize;
    let ghost s0 = rt@;
    drop_slots(rt, start, osize);
    proof {
        lemma_drop_slots_pages(s0, start, osize, 0);
    }
    let pg: &mut Page = &mut rt.pages[idx];
    pg.in_use = false;
    pg.live_n = 0;
    rt.free_pages.push(idx);
    match find_pool(rt, osize) {
        Some(pi) => {
            let q: Vec<usize> = queue_without(&rt.pools[pi].page_q, idx);
            rt.pools[pi].page_q = q;
        },
        None => {},
    }
}

pub proof fn lemma_drop_slots_pages(s: State, start: u32, osize: u32, pos: int)
    ensures
        s.drop_slots(start, osize, pos) == (State {
            objs: s.drop_slots(start, osize, pos).objs,
            ..s
        }),
        s.drop_slots(start, osize, pos).objs.len() == s.objs.len(),
    decreases PAGE_SIZE - pos,
{
    if !(osize == 0 || pos < 0 || pos + osize > PAGE_SIZE) {
        lemma_drop_slots_pages(
            s.put(past_header((start + pos) as u32), None),
            start,
            osize,
            pos + osize,
        );
    }
}

pub proof fn lemma_sweep_slots_pages(
    s: State,
    start: u32,
    osize: u32,
    pos: int,
    full: bool,
    w: PageWalk,
)
    ensures
        s.sweep_slots(start, osize, pos, full, w).0 == (State {
            objs: s.sweep_slots(start, osize, pos, full, w).0.objs,
            ..s
        }),
        s.sweep_slots(start, osize, pos, full, w).0.objs.len() == s.objs.len(),
    decreases PAGE_SIZE - pos,
{
    if !(osize == 0 || pos < 0 || pos + osize > PAGE_SIZE) {
        let slot = (start + pos) as u32;
        let v = past_header(slot);
        if s.is_marked(v) {
            if !s.is_old(v) {
                lemma_sweep_slots_pages(
                    s.with_bits(v, false, true),
                    start,
                    osize,
                    pos + osize,
                    full,
                    PageWalk {
                        live_n: inc32(w.live_n),
                        promoted: wrap64(w.promoted, osize as u64),
                        ..w
                    },
                );
            } else {
                lemma_sweep_slots_pages(
                    if full {
                        s.with_bits(v, false, true)
                    } else {
                        s
                    },
                    start,
                    osize,
                    pos + osize,
                    full,
                    PageWalk { live_n: inc32(w.live_n), ..w },
                );
            }
        } else {
            lemma_sweep_slots_pages(
                s.put(v, None),
                start,
                osize,
                pos + osize,
                full,
                PageWalk { free: w.free.push(slot), ..w },
            );
        }
    }
}

/// Whether a queue holds the page `x`.
fn queue_holds(q: &Vec<usize>, x: usize) -> (r: bool)
    ensures
        r == q@.contains(x),
{
    let mut i: usize = 0;
    while i < q.len()
        invariant
            i <= q.len(),
            forall|k: int| 0 <= k < i ==> q@[k] != x,
        decreases q.len() - i,
    {
        if q[i] == x {
            return true;
        }
        i = i + 1;
    }
    false
}

/// Walks the page `idx`: the number of its survivors and the bytes it promoted.
fn walk_page(rt: &mut Runtime, idx: usize, full: bool) -> (r: (u32, u64))
    requires
        idx < old(rt)@.pages.len(),
    ensures
        final(rt)@ == old(rt)@.walk_page(idx as int, full).0,
        r.0 == old(rt)@.walk_page(idx as int, full).1.live_n,
        r.1 == old(rt)@.walk_page(idx as int, full).1.promoted,
        final(rt)@.pages.len() == old(rt)@.pages.len(),
{
    let start: u32 = rt.pages[idx].start;
    let osize: u32 = rt.pages[idx].osize;
    let ghost s0 = rt@;
    let (free, live_n, promoted) = sweep_slots(rt, start, osize, full);
    proof {
        lemma_sweep_slots_pages(
            s0,
            start,
            osize,
            0,
            full,
            PageWalk { free: Seq::empty(), live_n: 0, promoted: 0 },
        );
    }
    let nfree: usize = free.len();
    let pg: &mut Page = &mut rt.pages[idx];
    pg.free = free;
    pg.live_n = live_n;
    pg.has_marked = live_n > 0;
    pg.has_young = false;
    if full {
        pg.prev_nold = live_n;
        pg.nold = 0;
    }
    if nfree > 0 {
        let pi: usize = pool_for(rt, osize);
        assert(rt@.pools[pi as int] == rt.pools@[pi as int]@);
        if !queue_holds(&rt.pools[pi].page_q, idx) {
            rt.pools[pi].page_q.push(idx);
        }
    }
    (live_n, promoted)
}

/// Sweeps every page.
fn sweep(rt: &mut Runtime, full: bool) -> (r: Sweep)
    ensures
        (final(rt)@, r) == old(rt)@.sweep(full),
{
    proof {
        reveal(State::sweep);
    }
    let mut acc: Sweep = Sweep { survivors: 0, live_bytes: 0, promoted: 0, walked: 0 };
    let n: usize = rt.pages.len();
    let ghost want = rt@.sweep_pages(0, n as int, full, acc);
    let mut idx: usize = 0;
    while idx < n
        invariant
            idx <= n,
            n == rt@.pages.len(),
            want == rt@.sweep_pages(idx as int, n as int, full, acc),
        decreases n - idx,
    {
        let ghost pgv = rt@.pages[idx as int];
        assert(pgv == rt.pages@[idx as int]@);
        let in_use: bool = rt.pages[idx].in_use;
        let has_marked: bool = rt.pages[idx].has_marked;
        let has_young: bool = rt.pages[idx].has_young;
        let settled: bool = !full && !has_young && (!rt.stats.prev_full || rt.pages[idx].prev_nold
            == rt.pages[idx].nold);
        if in_use {
            if !has_marked {
                release_page(rt, idx);
            } else if settled {
                let live_n: u32 = rt.pages[idx].live_n;
                let osize: u32 = rt.pages[idx].osize;
                acc.survivors = acc.survivors.wrapping_add(live_n as u64);
                acc.live_bytes = acc.live_bytes.wrapping_add(slot_bytes(live_n, osize));
            } else {
                let osize: u32 = rt.pages[idx].osize;
                let (live_n, promoted) = walk_page(rt, idx, full);
                acc.survivors = acc.survivors.wrapping_add(live_n as u64);
                acc.live_bytes = acc.live_bytes.wrapping_add(slot_bytes(live_n, osize));
                acc.promoted = acc.promoted.wrapping_add(promoted);
                acc.walked = acc.walked.wrapping_add(1);
            }
        }
        idx = idx + 1;
    }
    rt.stats.prev_full = full;
    rt.stats.pages_walked = acc.walked;
    acc
}

// --- collection -------------------------------------------------------------

/// The number of bits needed to write `n`.
pub open spec fn bit_length(n: nat) -> nat
    decreases n,
{
    if n == 0 {
        0
    } else {
        1 + bit_length(n / 2)
    }
}

/// Computes the number of bits needed to write `n`.
fn bit_len(n: u64) -> (r: u64)
    ensures
        r == bit_length(n as nat),
        r <= 64,
{
    let mut m: u64 = n;
    let mut k: u64 = 0;
    proof {
        vstd::arithmetic::power2::lemma2_to64();
        lemma_bit_length_bound(n as nat, 64);
    }
    while m > 0
        invariant
            k + bit_length(m as nat) == bit_length(n as nat),
            bit_length(n as nat) <= 64,
        decreases m,
    {
        m = m / 2;
        k = k + 1;
    }
    k
}

proof fn lemma_bit_length_bound(n: nat, k: nat)
    requires
        n < vstd::arithmetic::power2::pow2(k),
    ensures
        bit_length(n) <= k,
    decreases k,
{
    if n > 0 {
        if k == 0 {
            vstd::arithmetic::power2::lemma2_to64();
        } else {
            vstd::arithmetic::power2::lemma_pow2_unfold(k);
            lemma_bit_length_bound(n / 2, (k - 1) as nat);
        }
    }
}

/// The permitted growth before the next full collection: `4 * n^(7/8) + n/8`,
/// capped at a twentieth of `max_val` once it would exceed it.
pub open spec fn overallocation(old_val: nat, val: nat, max_val: nat) -> nat {
    if old_val == 0 {
        COLLECT_FLOOR as nat
    } else {
        let inc = vstd::arithmetic::power2::pow2(bit_length(old_val) * 7 / 8) * 4 + old_val / 8;
        if inc + val > max_val && inc > max_val / 20 {
            max_val / 20
        } else {
            inc
        }
    }
}

/// Computes the permitted growth.
fn growth(old_val: u64, val: u64, max_val: u64) -> (r: u64)
    ensures
        r == overallocation(old_val as nat, val as nat, max_val as nat),
{
    if old_val == 0 {
        return COLLECT_FLOOR;
    }
    let e: u64 = bit_len(old_val) * 7 / 8;
    let mut p: u64 = 1;
    let mut k: u64 = 0;
    proof {
        vstd::arithmetic::power2::lemma2_to64();
        vstd::arithmetic::power2::lemma2_to64_rest();
    }
    while k < e
        invariant
            k <= e <= 56,
            p == vstd::arithmetic::power2::pow2(k as nat),
            p <= 0x100_0000_0000_0000,
            vstd::arithmetic::power2::pow2(56) == 0x100_0000_0000_0000,
        decreases e - k,
    {
        proof {
            vstd::arithmetic::power2::lemma_pow2_unfold((k + 1) as nat);
            if k + 1 < 56 {
                vstd::arithmetic::power2::lemma_pow2_strictly_increases((k + 1) as nat, 56);
            }
        }
        p = p * 2;
        k = k + 1;
    }
    let inc: u64 = p * 4 + old_val / 8;
    if inc as u128 + val as u128 > max_val as u128 && inc > max_val / 20 {
        max_val / 20
    } else {
        inc
    }
}

impl State {
    /// Puts the remembered objects from position `i` on back in the queued state.
    pub open spec fn requeue(self, i: int) -> State
        decreases self.remembered.len() - i,
    {
        if i < 0 || i >= self.remembered.len() {
            self
        } else {
            self.with_bits(self.remembered[i], true, false).requeue(i + 1)
        }
    }

    /// The policy update after a sweep: whether the next collection is full, and
    /// the next target.
    pub open spec fn policy(self, full: bool, acc: Sweep) -> State {
        let promoted = if full {
            0u64
        } else {
            wrap64(self.stats.promoted, acc.promoted)
        };
        let baseline = if full {
            acc.live_bytes
        } else {
            self.stats.size_after_full
        };
        let size = acc.live_bytes;
        let expected = baseline + overallocation(baseline as nat, 0, REGION_SIZE as nat);
        let target = size + overallocation(size as nat, 0, REGION_SIZE as nat);
        State {
            stats: Stats {
                live: acc.survivors,
                heap_size: acc.live_bytes,
                promoted,
                size_after_full: baseline,
                next_full: (size > 0 && promoted * 100 > size * 15) || size > expected,
                heap_target: if target < COLLECT_FLOOR {
                    COLLECT_FLOOR
                } else {
                    target as u64
                },
                ..self.stats
            },
            ..self
        }
    }

    /// A collection.
    #[verifier::opaque]
    pub open spec fn collect(self, full: bool) -> State {
        let (s, acc) = self.mark().sweep(full);
        let s1 = if full {
            State { remembered: Seq::empty(), ..s }
        } else {
            s.requeue(0)
        };
        s1.policy(full, acc)
    }

    /// The number of objects that a collection reclaims.
    #[verifier::opaque]
    pub open spec fn reclaimed(self, full: bool) -> u64 {
        let before = self.mark().stats.live;
        let after = self.mark().sweep(full).1.survivors;
        if before >= after {
            (before - after) as u64
        } else {
            0
        }
    }

    /// A collection if the heap has reached its target.
    #[verifier::opaque]
    pub open spec fn maybe_collect(self) -> State {
        if self.builtins is Some && self.stats.heap_size >= self.stats.heap_target {
            self.collect(self.stats.next_full)
        } else {
            self
        }
    }
}

/// Runs a collection: the number of objects reclaimed.
fn collect_inner(rt: &mut Runtime, full: bool) -> (r: u64)
    ensures
        final(rt)@ == old(rt)@.collect(full),
        r == old(rt)@.reclaimed(full),
{
    proof {
        reveal(State::collect);
        reveal(State::reclaimed);
    }
    mark(rt);
    let before: u64 = rt.stats.live;
    let acc: Sweep = sweep(rt, full);
    if full {
        rt.remembered.clear();
    } else {
        let ghost s0 = rt@;
        let mut i: usize = 0;
        while i < rt.remembered.len()
            invariant
                i <= rt.remembered.len(),
                s0.requeue(0) == rt@.requeue(i as int),
            decreases rt.remembered.len() - i,
        {
            let p: u32 = rt.remembered[i];
            rt.set_bits(p, true, false);
            i = i + 1;
        }
    }
    let ghost s1 = rt@;
    rt.stats.live = acc.survivors;
    rt.stats.heap_size = acc.live_bytes;
    if full {
        rt.stats.promoted = 0;
        rt.stats.size_after_full = acc.live_bytes;
    } else {
        rt.stats.promoted = rt.stats.promoted.wrapping_add(acc.promoted);
    }
    let size: u64 = acc.live_bytes;
    let baseline: u64 = rt.stats.size_after_full;
    let expected: u128 = baseline as u128 + growth(baseline, 0, REGION_SIZE as u64) as u128;
    rt.stats.next_full = (size > 0 && rt.stats.promoted as u128 * 100 > size as u128 * 15)
        || size as u128 > expected;
    let target: u128 = size as u128 + growth(size, 0, REGION_SIZE as u64) as u128;
    rt.stats.heap_target = if target < COLLECT_FLOOR as u128 {
        COLLECT_FLOOR
    } else {
        target as u64
    };
    assert(rt@ == s1.policy(full, acc));
    if before >= acc.survivors {
        before - acc.survivors
    } else {
        0
    }
}

/// Runs a quick collection: the number of objects reclaimed.
pub fn collect(rt: &mut Runtime) -> (r: u64)
    ensures
        final(rt)@ == old(rt)@.collect(false),
        r == old(rt)@.reclaimed(false),
{
    collect_inner(rt, false)
}

/// Runs a full collection: the number of objects reclaimed.
pub fn collect_full(rt: &mut Runtime) -> (r: u64)
    ensures
        final(rt)@ == old(rt)@.collect(true),
        r == old(rt)@.reclaimed(true),
{
    collect_inner(rt, true)
}

/// Collects if the heap has reached its target.
pub fn maybe_collect(rt: &mut Runtime)
    ensures
        final(rt)@ == old(rt)@.maybe_collect(),
{
    proof {
        reveal(State::maybe_collect);
    }
    if rt.builtins.is_some() && rt.stats.heap_size >= rt.stats.heap_target {
        let full: bool = rt.stats.next_full;
        collect_inner(rt, full);
    }
}

impl State {
    /// The state with all heap bookkeeping, every block and every layout cleared.
    pub open spec fn reset_heap(self) -> State {
        State {
            objs: Seq::new(self.objs.len(), |i: int| None::<ObjV>),
            layouts: Seq::new(self.layouts.len(), |i: int| None::<Seq<u32>>),
            pools: Seq::empty(),
            pages: Seq::empty(),
            free_pages: Seq::empty(),
            remembered: Seq::empty(),
            stats: Stats {
                prev_full: false,
                live: 0,
                heap_size: 0,
                heap_target: COLLECT_FLOOR,
                promoted: 0,
                size_after_full: 0,
                next_full: false,
                pages_walked: self.stats.pages_walked,
            },
            ..self
        }
    }
}

/// Clears all heap bookkeeping, every block and every layout.
pub fn reset_heap(rt: &mut Runtime)
    ensures
        final(rt)@ == old(rt)@.reset_heap(),
{
    let n: usize = rt.objs.len();
    let mut i: usize = 0;
    while i < n
        invariant
            i <= n,
            n == rt.objs.len(),
            n == old(rt).objs.len(),
            *rt == (Runtime { objs: rt.objs, ..*old(rt) }),
            forall|k: int| 0 <= k < i ==> rt.objs@[k] is None,
        decreases n - i,
    {
        rt.objs.set(i, None);
        i = i + 1;
    }
    let n: usize = rt.layouts.len();
    let mut i: usize = 0;
    while i < n
        invariant
            i <= n,
            n == rt.layouts.len(),
            n == old(rt).layouts.len(),
            rt.objs.len() == old(rt).objs.len(),
            forall|k: int| 0 <= k < rt.objs.len() ==> rt.objs@[k] is None,
            *rt == (Runtime { objs: rt.objs, layouts: rt.layouts, ..*old(rt) }),
            forall|k: int| 0 <= k < i ==> rt.layouts@[k] is None,
        decreases n - i,
    {
        rt.layouts.set(i, None);
        i = i + 1;
    }
    rt.pools.clear();
    rt.pages.clear();
    rt.free_pages.clear();
    rt.remembered.clear();
    let walked: u64 = rt.stats.pages_walked;
    rt.stats = Stats {
        prev_full: false,
        live: 0,
        heap_size: 0,
        heap_target: COLLECT_FLOOR,
        promoted: 0,
        size_after_full: 0,
        next_full: false,
        pages_walked: walked,
    };
    assert(rt@.objs =~= Seq::new(old(rt)@.objs.len(), |i: int| None::<ObjV>));
    assert(rt@.layouts =~= Seq::new(old(rt)@.layouts.len(), |i: int| None::<Seq<u32>>));
}

} // verus!
