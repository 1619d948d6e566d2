//! Where objects lie: every object fills a slot of a page in use, free slots are
//! listed once, and no slot is handed out twice.

use vstd::prelude::*;
use crate::gc::{fresh_page, fresh_slots, past_header, pages_sorted, pool_index, size_class, trim_queue};
use crate::gc::PAGE_SIZE;
use crate::region::{NULL, REGION_SIZE};
use crate::state::{PageV, PoolV, State};

verus! {

/// Whether the offset `v` lies on the page `pg`.
pub open spec fn on_page(pg: PageV, v: u32) -> bool {
    pg.start + 8 <= v < pg.start + PAGE_SIZE + 8
}

/// Whether the payload of a slot of the page `pg` begins at `v`.
pub open spec fn is_slot(pg: PageV, v: u32) -> bool {
    &&& pg.osize > 0
    &&& pg.start + 8 <= v
    &&& (v - 8 - pg.start) % (pg.osize as int) == 0
    &&& v - 8 - pg.start + pg.osize <= PAGE_SIZE
}

impl State {
    /// Whether `v` is a slot of the page `i`, and that page is in use.
    pub open spec fn holds(self, i: int, v: u32) -> bool {
        0 <= i < self.pages.len() && self.pages[i].in_use && is_slot(self.pages[i], v)
    }

    /// Pages lie one after the other in the used part of the region.
    pub open spec fn pages_placed(self) -> bool {
        &&& pages_sorted(self.pages)
        &&& 8 <= self.region.top <= REGION_SIZE
        &&& forall|i: int|
            0 <= i < self.pages.len() ==> {
                &&& 8 + i * PAGE_SIZE <= (#[trigger] self.pages[i]).start
                &&& self.pages[i].start + PAGE_SIZE <= self.region.top
                &&& self.pages[i].in_use ==> self.pages[i].osize > 0
            }
    }

    /// Every object fills a slot of a page in use.
    pub open spec fn objects_placed(self) -> bool {
        forall|v: u32|
            #![trigger self.obj(v)]
            self.obj(v) is Some ==> exists|i: int| self.holds(i, v)
    }

    /// Whether the free list of the page `i` names empty slots of that page, each once.
    pub open spec fn free_list_ok(self, i: int) -> bool {
        let pg = self.pages[i];
        &&& pg.free.no_duplicates()
        &&& forall|k: int|
            #![trigger pg.free[k]]
            0 <= k < pg.free.len() ==> is_slot(pg, past_header(pg.free[k])) && pg.free[k]
                >= pg.start && self.obj(past_header(pg.free[k])) is None
    }

    /// No two pools serve one size, and their queues name pages in use of that size.
    pub open spec fn pools_ok(self) -> bool {
        &&& forall|a: int, b: int|
            0 <= a < b < self.pools.len() ==> (#[trigger] self.pools[a]).osize != (
            #[trigger] self.pools[b]).osize
        &&& forall|a: int, k: int|
            #![trigger self.pools[a].page_q[k]]
            0 <= a < self.pools.len() && 0 <= k < self.pools[a].page_q.len() ==> {
                let i = self.pools[a].page_q[k] as int;
                i < self.pages.len() && self.pages[i].in_use && self.pages[i].osize
                    == self.pools[a].osize
            }
    }

    /// The released pages are listed once, and none of them is in use.
    pub open spec fn free_pages_ok(self) -> bool {
        &&& self.free_pages.no_duplicates()
        &&& forall|k: int|
            0 <= k < self.free_pages.len() ==> (#[trigger] self.free_pages[k]) < self.pages.len()
                && !self.pages[self.free_pages[k] as int].in_use
    }

    /// Pages lie in the region in ascending order, and a page in use that holds a
    /// marked object says so.
    pub open spec fn pages_tell(self) -> bool {
        &&& crate::gc::pages_sorted(self.pages)
        &&& forall|i: int|
            0 <= i < self.pages.len() ==> (#[trigger] self.pages[i]).start + PAGE_SIZE
                <= REGION_SIZE
        &&& forall|i: int, v: u32|
            #![trigger on_page(self.pages[i], v)]
            0 <= i < self.pages.len() && self.pages[i].in_use && on_page(self.pages[i], v)
                && self.is_marked(v) ==> self.pages[i].has_marked
    }

    /// The allocator's invariant.
    pub open spec fn slots_ok(self) -> bool {
        &&& self.pages_placed()
        &&& self.objects_placed()
        &&& forall|i: int|
            #![trigger self.pages[i]]
            0 <= i < self.pages.len() && self.pages[i].in_use ==> self.free_list_ok(i)
        &&& self.pools_ok()
        &&& self.free_pages_ok()
    }
}

/// Objects never lie on the null reference, nor on a page that is not in use.
pub proof fn lemma_empty_places(s: State, i: int, v: u32)
    requires
        s.pages_placed(),
        s.objects_placed(),
    ensures
        s.obj(NULL) is None,
        0 <= i < s.pages.len() && !s.pages[i].in_use && on_page(s.pages[i], v) ==> s.obj(v) is None,
        v >= s.region.top + 8 ==> s.obj(v) is None,
{
    if s.obj(NULL) is Some {
        let j = choose|j: int| s.holds(j, NULL);
        assert(s.pages[j].start >= 8);
    }
    if s.obj(v) is Some {
        let j = choose|j: int| s.holds(j, v);
        assert(s.pages[j].start + PAGE_SIZE <= s.region.top);
        if 0 <= i < s.pages.len() && i < j {
            assert(s.pages[i].start + PAGE_SIZE <= s.pages[j].start);
        } else if 0 <= i < s.pages.len() && j < i {
            assert(s.pages[j].start + PAGE_SIZE <= s.pages[i].start);
        }
    }
}

/// Distinct slots do not overlap.
pub proof fn law_slots_do_not_overlap(s: State, i: int, j: int, u: u32, v: u32)
    requires
        s.pages_placed(),
        s.holds(i, u),
        s.holds(j, v),
        u < v,
    ensures
        u + s.pages[i].osize <= v,
{
    if i == j {
        let pg = s.pages[i];
        let o = pg.osize as int;
        let a = u - 8 - pg.start;
        let b = v - 8 - pg.start;
        vstd::arithmetic::div_mod::lemma_fundamental_div_mod(a, o);
        vstd::arithmetic::div_mod::lemma_fundamental_div_mod(b, o);
        assert(a / o < b / o) by (nonlinear_arith)
            requires
                a == o * (a / o),
                b == o * (b / o),
                a < b,
                o > 0,
        ;
        assert(o * (a / o) + o <= o * (b / o)) by (nonlinear_arith)
            requires
                a / o < b / o,
                o > 0,
        ;
    } else if i < j {
        assert(s.pages[i].start + PAGE_SIZE <= s.pages[j].start);
    } else {
        assert(s.pages[j].start + PAGE_SIZE <= s.pages[i].start);
    }
}

proof fn lemma_fresh_slots(start: u32, osize: u32, pos: int)
    requires
        start + PAGE_SIZE <= REGION_SIZE,
        0 <= pos,
        osize > 0,
        pos % (osize as int) == 0,
    ensures
        ({
            let f = fresh_slots(start, osize, pos);
            &&& f.no_duplicates()
            &&& forall|k: int|
                0 <= k < f.len() ==> {
                    &&& start + pos <= #[trigger] f[k]
                    &&& (f[k] - start) % (osize as int) == 0
                    &&& f[k] - start + osize <= PAGE_SIZE
                }
        }),
    decreases PAGE_SIZE - pos,
{
    if pos + osize <= PAGE_SIZE {
        vstd::arithmetic::div_mod::lemma_mod_add_multiples_vanish(pos, osize as int);
        lemma_fresh_slots(start, osize, pos + osize);
    }
}

proof fn lemma_trim(pages: Seq<PageV>, q: Seq<usize>)
    ensures
        trim_queue(pages, q).len() <= q.len(),
        forall|k: int| 0 <= k < trim_queue(pages, q).len() ==> #[trigger] trim_queue(pages, q)[k] == q[k],
        trim_queue(pages, q).len() > 0 ==> trim_queue(pages, q).last() < pages.len()
            && pages[trim_queue(pages, q).last() as int].free.len() > 0,
    decreases q.len(),
{
    if q.len() > 0 && !(q.last() < pages.len() && pages[q.last() as int].free.len() > 0) {
        lemma_trim(pages, q.drop_last());
    }
}

pub proof fn lemma_pool_index(pools: Seq<PoolV>, osize: u32, i: int)
    requires
        0 <= i,
    ensures
        match pool_index(pools, osize, i) {
            Some(j) => i <= j < pools.len() && pools[j].osize == osize,
            None => forall|j: int| i <= j < pools.len() ==> (#[trigger] pools[j]).osize != osize,
        },
    decreases pools.len() - i,
{
    if i < pools.len() && pools[i].osize != osize {
        lemma_pool_index(pools, osize, i + 1);
    }
}

/// The pool for a size is there, and nothing else changed.
pub proof fn lemma_pool_for(s: State, osize: u32)
    requires
        s.slots_ok(),
    ensures
        ({
            let (e, pi) = s.pool_for(osize);
            &&& e.slots_ok()
            &&& e == (State { pools: e.pools, ..s })
            &&& 0 <= pi < e.pools.len()
            &&& e.pools[pi].osize == osize
        }),
{
    lemma_pool_index(s.pools, osize, 0);
    let (e, pi) = s.pool_for(osize);
    assert(forall|v: u32| #[trigger] e.obj(v) == s.obj(v));
    lemma_same_pages(s, e);
}

/// What the pages say of objects depends on the pages and the objects alone.
pub proof fn lemma_same_pages(s: State, e: State)
    requires
        s.slots_ok(),
        e.pages == s.pages,
        e.region == s.region,
        forall|v: u32| #[trigger] e.obj(v) is Some ==> s.obj(v) is Some,
        e.pools_ok(),
        e.free_pages_ok(),
    ensures
        e.slots_ok(),
{
    assert forall|v: u32| #[trigger] e.obj(v) is Some implies exists|i: int| e.holds(i, v) by {
        let i = choose|i: int| s.holds(i, v);
        assert(e.holds(i, v));
    }
    assert forall|i: int|
        #![trigger e.pages[i]]
        0 <= i < e.pages.len() && e.pages[i].in_use implies e.free_list_ok(i) by {
        assert(s.free_list_ok(i));
        let pg = e.pages[i];
        assert forall|k: int| #![trigger pg.free[k]] 0 <= k < pg.free.len() implies is_slot(
            pg,
            past_header(pg.free[k]),
        ) && pg.free[k] >= pg.start && e.obj(past_header(pg.free[k])) is None by {
            assert(s.pages[i].free[k] == pg.free[k]);
        }
    }
}

/// Replacing a pool's queue by one that names pages in use of the pool's size.
pub proof fn lemma_with_queue(s: State, pi: int, q: Seq<usize>)
    requires
        s.slots_ok(),
        0 <= pi < s.pools.len(),
        forall|k: int|
            0 <= k < q.len() ==> (#[trigger] q[k]) < s.pages.len() && s.pages[q[k] as int].in_use
                && s.pages[q[k] as int].osize == s.pools[pi].osize,
    ensures
        s.with_queue(pi, q).slots_ok(),
{
    let e = s.with_queue(pi, q);
    assert(forall|v: u32| #[trigger] e.obj(v) == s.obj(v));
    assert forall|a: int, k: int|
        #![trigger e.pools[a].page_q[k]]
        0 <= a < e.pools.len() && 0 <= k < e.pools[a].page_q.len() implies ({
        let i = e.pools[a].page_q[k] as int;
        i < e.pages.len() && e.pages[i].in_use && e.pages[i].osize == e.pools[a].osize
    }) by {
        if a == pi {
            assert(q[k] == e.pools[a].page_q[k]);
        } else {
            assert(s.pools[a].page_q[k] == e.pools[a].page_q[k]);
        }
    }
    lemma_same_pages(s, e);
}

/// A page put in use afresh, at a place that holds no object.
proof fn lemma_fresh_page_ok(s: State, i: int)
    requires
        0 <= i < s.pages.len(),
        s.pages[i] == fresh_page(s.pages[i].start, s.pages[i].osize),
        s.pages[i].osize > 0,
        s.pages[i].start + PAGE_SIZE <= REGION_SIZE,
        forall|v: u32| on_page(s.pages[i], v) ==> #[trigger] s.obj(v) is None,
    ensures
        s.free_list_ok(i),
        s.pages[i].osize <= PAGE_SIZE ==> s.pages[i].free.len() > 0,
{
    let pg = s.pages[i];
    lemma_fresh_slots(pg.start, pg.osize, 0);
    assert forall|k: int| #![trigger pg.free[k]] 0 <= k < pg.free.len() implies is_slot(
        pg,
        past_header(pg.free[k]),
    ) && pg.free[k] >= pg.start && s.obj(past_header(pg.free[k])) is None by {
        assert(on_page(pg, past_header(pg.free[k])));
    }
}

/// The page found for a pool is in use, has the pool's size and a free slot.
proof fn lemma_find_page(s: State, pi: int, osize: u32)
    requires
        s.slots_ok(),
        s.pages_tell(),
        0 <= pi < s.pools.len(),
        s.pools[pi].osize == osize,
        0 < osize <= PAGE_SIZE,
    ensures
        ({
            let (e, page) = s.find_page(pi, osize);
            &&& e.slots_ok()
            &&& e.pages_tell()
            &&& e == (State {
                region: e.region,
                pools: e.pools,
                pages: e.pages,
                free_pages: e.free_pages,
                ..s
            })
            &&& match page {
                Some(i) => 0 <= i < e.pages.len() && e.pages[i].in_use && e.pages[i].osize == osize
                    && e.pages[i].free.len() > 0,
                None => true,
            }
        }),
{
    let q = trim_queue(s.pages, s.pools[pi].page_q);
    lemma_trim(s.pages, s.pools[pi].page_q);
    let t = s.with_queue(pi, q);
    assert forall|k: int| 0 <= k < q.len() implies (#[trigger] q[k]) < s.pages.len()
        && s.pages[q[k] as int].in_use && s.pages[q[k] as int].osize == s.pools[pi].osize by {
        assert(s.pools[pi].page_q[k] == q[k]);
    }
    lemma_with_queue(s, pi, q);
    assert(forall|v: u32| #[trigger] t.obj(v) == s.obj(v));
    assert(t.pages_tell()) by {
        lemma_same_tell(s, t);
    }
    let (e, page) = s.find_page(pi, osize);
    if q.len() > 0 {
        assert(q[q.len() - 1] == q.last());
    } else if t.free_pages.len() > 0 {
        let idx = t.free_pages.last();
        assert(t.free_pages[t.free_pages.len() - 1] == idx);
        let a = State { free_pages: t.free_pages.drop_last(), ..t };
        let b = State {
            pages: a.pages.update(idx as int, fresh_page(a.pages[idx as int].start, osize)),
            ..a
        };
        assert(e == b.with_queue(pi, q.push(idx)));
        assert(forall|v: u32| #[trigger] b.obj(v) == s.obj(v));
        assert forall|v: u32| on_page(b.pages[idx as int], v) implies #[trigger] b.obj(v) is None by {
            lemma_empty_places(s, idx as int, v);
        }
        lemma_put_page(t, b, idx as int);
        lemma_with_queue(b, pi, q.push(idx));
        lemma_same_tell(b, e);
    } else {
        let (a, start) = t.region_alloc(PAGE_SIZE as int);
        if start != NULL {
            let n = s.pages.len() as int;
            let b = State { pages: a.pages.push(fresh_page(start, osize)), ..a };
            assert(n <= 64) by {
                if n > 0 {
                    assert(8 + (n - 1) * PAGE_SIZE <= s.pages[n - 1].start);
                    assert(s.pages[n - 1].start + PAGE_SIZE <= s.region.top);
                }
            }
            assert(b.pages.len() == n + 1);
            assert(e == b.with_queue(pi, q.push(n as usize)));
            assert(forall|v: u32| #[trigger] b.obj(v) == s.obj(v));
            assert forall|v: u32| on_page(b.pages[n], v) implies #[trigger] b.obj(v) is None by {
                lemma_empty_places(s, n, v);
            }
            lemma_put_page(t, b, n);
            lemma_with_queue(b, pi, q.push(n as usize));
            lemma_same_tell(b, e);
        } else {
            assert(a == t);
        }
    }
}

/// Putting a fresh page in use in place of the page `i`, or after the last page.
proof fn lemma_put_page(s: State, e: State, i: int)
    requires
        s.slots_ok(),
        s.pages_tell(),
        0 <= i < e.pages.len(),
        s.pages.len() <= e.pages.len() <= s.pages.len() + 1,
        forall|j: int| 0 <= j < s.pages.len() && j != i ==> #[trigger] e.pages[j] == s.pages[j],
        i < s.pages.len() ==> e.pages.len() == s.pages.len() && e.pages[i].start == s.pages[i].start
            && !s.pages[i].in_use && e.region == s.region && e.free_pages.no_duplicates() && !e.free_pages.contains(
            i as usize,
        ) && forall|k: int|
            0 <= k < e.free_pages.len() ==> s.free_pages.contains(#[trigger] e.free_pages[k]),
        i == s.pages.len() ==> e.pages[i].start == s.region.top && s.region.top + PAGE_SIZE
            <= e.region.top <= REGION_SIZE && e.free_pages == s.free_pages,
        e.pages[i] == fresh_page(e.pages[i].start, e.pages[i].osize),
        0 < e.pages[i].osize <= PAGE_SIZE,
        e.pools == s.pools,
        forall|v: u32| #[trigger] e.obj(v) == s.obj(v),
        forall|v: u32| on_page(e.pages[i], v) ==> #[trigger] e.obj(v) is None,
    ensures
        e.slots_ok(),
        e.pages_tell(),
        e.pages[i].free.len() > 0,
{
    let n = s.pages.len() as int;
    if i == n && n > 0 {
        assert(8 + (n - 1) * PAGE_SIZE <= s.pages[n - 1].start);
        assert(s.pages[n - 1].start + PAGE_SIZE <= s.region.top);
    }
    assert(e.pages_placed()) by {
        assert forall|a: int, b: int| 0 <= a < b < e.pages.len() implies #[trigger] e.pages[a].start
            + PAGE_SIZE <= #[trigger] e.pages[b].start by {
            if b < n {
                assert(s.pages[a].start + PAGE_SIZE <= s.pages[b].start);
            } else {
                assert(s.pages[a].start + PAGE_SIZE <= s.region.top);
            }
        }
        assert forall|j: int| 0 <= j < e.pages.len() implies 8 + j * PAGE_SIZE <= (
        #[trigger] e.pages[j]).start && e.pages[j].start + PAGE_SIZE <= e.region.top && (
        e.pages[j].in_use ==> e.pages[j].osize > 0) by {
            if j < n {
                assert(8 + j * PAGE_SIZE <= s.pages[j].start);
            }
        }
    }
    assert forall|v: u32| #[trigger] e.obj(v) is Some implies exists|j: int| e.holds(j, v) by {
        assert(s.obj(v) is Some);
        let j = choose|j: int| s.holds(j, v);
        assert(j != i);
        assert(e.holds(j, v));
    }
    lemma_fresh_page_ok(e, i);
    assert forall|j: int|
        #![trigger e.pages[j]]
        0 <= j < e.pages.len() && e.pages[j].in_use implies e.free_list_ok(j) by {
        if j != i {
            assert(s.free_list_ok(j));
            let pg = e.pages[j];
            assert forall|k: int| #![trigger pg.free[k]] 0 <= k < pg.free.len() implies is_slot(
                pg,
                past_header(pg.free[k]),
            ) && pg.free[k] >= pg.start && e.obj(past_header(pg.free[k])) is None by {
                assert(s.pages[j].free[k] == pg.free[k]);
            }
        }
    }
    assert forall|a: int, k: int|
        #![trigger e.pools[a].page_q[k]]
        0 <= a < e.pools.len() && 0 <= k < e.pools[a].page_q.len() implies ({
        let j = e.pools[a].page_q[k] as int;
        j < e.pages.len() && e.pages[j].in_use && e.pages[j].osize == e.pools[a].osize
    }) by {
        let j = s.pools[a].page_q[k] as int;
        assert(j != i);
    }
    assert(e.free_pages_ok()) by {
        assert forall|k: int| 0 <= k < e.free_pages.len() implies (#[trigger] e.free_pages[k])
            < e.pages.len() && !e.pages[e.free_pages[k] as int].in_use by {
            let x = e.free_pages[k];
            if i < n {
                assert(s.free_pages.contains(x));
                let m = choose|m: int| 0 <= m < s.free_pages.len() && s.free_pages[m] == x;
                assert(e.free_pages.contains(x));
                assert(x != i);
            } else {
                assert(s.free_pages[k] == x);
            }
        }
    }
    assert forall|j: int, v: u32|
        #![trigger on_page(e.pages[j], v)]
        0 <= j < e.pages.len() && e.pages[j].in_use && on_page(e.pages[j], v) && e.is_marked(
            v,
        ) implies e.pages[j].has_marked by {
        if j != i {
            assert(on_page(s.pages[j], v));
            assert(s.is_marked(v));
        } else {
            assert(e.obj(v) is None);
        }
    }
}

/// What the pages say of marks depends on the pages and the marks alone.
pub proof fn lemma_same_tell(s: State, e: State)
    requires
        s.pages_tell(),
        e.pages == s.pages,
        forall|v: u32| #[trigger] e.is_marked(v) ==> s.is_marked(v),
    ensures
        e.pages_tell(),
{
    assert forall|j: int, v: u32|
        #![trigger on_page(e.pages[j], v)]
        0 <= j < e.pages.len() && e.pages[j].in_use && on_page(e.pages[j], v) && e.is_marked(
            v,
        ) implies e.pages[j].has_marked by {
        assert(on_page(s.pages[j], v));
    }
}

/// An allocation hands out a slot that is large enough and holds no object, takes
/// it off the free lists, and changes no object.
pub proof fn law_alloc_chunk(s: State, total: int)
    requires
        s.slots_ok(),
        s.pages_tell(),
        0 < total,
    ensures
        ({
            let (e, h) = s.alloc_chunk(total);
            &&& e.slots_ok()
            &&& e.pages_tell()
            &&& e.objs == s.objs
            &&& e.remembered == s.remembered
            &&& e.builtins == s.builtins
            &&& e.layouts == s.layouts
            &&& s.region.top <= e.region.top
            &&& h != NULL ==> s.obj(past_header(h)) is None && exists|i: int| #[trigger]
                e.holds(i, past_header(h)) && e.pages[i].osize >= total
            &&& h != NULL ==> forall|i: int, k: int|
                #![trigger e.pages[i].free[k]]
                0 <= i < e.pages.len() && e.pages[i].in_use && 0 <= k < e.pages[i].free.len()
                    ==> e.pages[i].free[k] != h
        }),
{
    reveal(State::alloc_chunk);
    crate::gc::law_size_class(total);
    let osize = size_class(total);
    if osize <= PAGE_SIZE {
        let (a, pi) = s.pool_for(osize as u32);
        lemma_pool_for(s, osize as u32);
        lemma_same_tell(s, a);
        lemma_find_page(a, pi, osize as u32);
        let (b, page) = a.find_page(pi, osize as u32);
        if let Some(idx) = page {
            let (e, h) = b.take_slot(idx);
            let pg = b.pages[idx];
            assert(b.free_list_ok(idx));
            assert(pg.free[pg.free.len() - 1] == h);
            assert(e.pages[idx].free =~= pg.free.drop_last());
            assert(forall|v: u32| #[trigger] e.obj(v) == b.obj(v));
            lemma_take_slot(b, idx);
            assert(is_slot(e.pages[idx], past_header(h)));
            assert(e.holds(idx, past_header(h)));
        }
    }
}

proof fn lemma_take_slot(s: State, idx: int)
    requires
        s.slots_ok(),
        s.pages_tell(),
        0 <= idx < s.pages.len(),
        s.pages[idx].in_use,
        s.pages[idx].free.len() > 0,
    ensures
        ({
            let (e, h) = s.take_slot(idx);
            &&& e.slots_ok()
            &&& e.pages_tell()
            &&& forall|i: int, k: int|
                #![trigger e.pages[i].free[k]]
                0 <= i < e.pages.len() && e.pages[i].in_use && 0 <= k < e.pages[i].free.len()
                    ==> e.pages[i].free[k] != h
        }),
{
    let (e, h) = s.take_slot(idx);
    assert(s.free_list_ok(idx));
    let old_pg = s.pages[idx];
    assert(old_pg.free[old_pg.free.len() - 1] == h);
    assert(forall|v: u32| #[trigger] e.obj(v) == s.obj(v));
    assert(e.pages.len() == s.pages.len());
    assert(forall|j: int| 0 <= j < s.pages.len() && j != idx ==> #[trigger] e.pages[j] == s.pages[j]);
    let pg1 = e.pages[idx];
    assert(pg1.start == old_pg.start && pg1.osize == old_pg.osize && pg1.in_use);
    assert(e.pages_placed()) by {
        assert forall|a: int, b: int| 0 <= a < b < e.pages.len() implies #[trigger] e.pages[a].start
            + PAGE_SIZE <= #[trigger] e.pages[b].start by {
            assert(s.pages[a].start + PAGE_SIZE <= s.pages[b].start);
        }
        assert forall|j: int| 0 <= j < e.pages.len() implies 8 + j * PAGE_SIZE <= (
        #[trigger] e.pages[j]).start && e.pages[j].start + PAGE_SIZE <= e.region.top && (
        e.pages[j].in_use ==> e.pages[j].osize > 0) by {
            assert(8 + j * PAGE_SIZE <= s.pages[j].start);
        }
    }
    assert forall|v: u32| #[trigger] e.obj(v) is Some implies exists|j: int| e.holds(j, v) by {
        assert(s.obj(v) is Some);
        let j = choose|j: int| s.holds(j, v);
        assert(e.holds(j, v));
    }
    assert forall|j: int|
        #![trigger e.pages[j]]
        0 <= j < e.pages.len() && e.pages[j].in_use implies e.free_list_ok(j) by {
        assert(s.free_list_ok(j));
        let pg = e.pages[j];
        assert forall|k: int| #![trigger pg.free[k]] 0 <= k < pg.free.len() implies is_slot(
            pg,
            past_header(pg.free[k]),
        ) && pg.free[k] >= pg.start && e.obj(past_header(pg.free[k])) is None by {
            assert(s.pages[j].free[k] == pg.free[k]);
        }
        assert(pg.free.no_duplicates()) by {
            assert forall|x: int, y: int| 0 <= x < pg.free.len() && 0 <= y < pg.free.len() && x != y implies pg.free[x]
                != pg.free[y] by {
                assert(s.pages[j].free[x] == pg.free[x]);
                assert(s.pages[j].free[y] == pg.free[y]);
            }
        }
    }
    assert forall|a: int, k: int|
        #![trigger e.pools[a].page_q[k]]
        0 <= a < e.pools.len() && 0 <= k < e.pools[a].page_q.len() implies ({
        let j = e.pools[a].page_q[k] as int;
        j < e.pages.len() && e.pages[j].in_use && e.pages[j].osize == e.pools[a].osize
    }) by {
        let j = s.pools[a].page_q[k] as int;
        assert(s.pages[j].in_use);
    }
    assert forall|k: int| 0 <= k < e.free_pages.len() implies (#[trigger] e.free_pages[k])
        < e.pages.len() && !e.pages[e.free_pages[k] as int].in_use by {
        assert(s.free_pages[k] == e.free_pages[k]);
    }
    assert forall|j: int, v: u32|
        #![trigger on_page(e.pages[j], v)]
        0 <= j < e.pages.len() && e.pages[j].in_use && on_page(e.pages[j], v) && e.is_marked(
            v,
        ) implies e.pages[j].has_marked by {
        assert(on_page(s.pages[j], v));
        assert(s.is_marked(v));
    }
    assert forall|i: int, k: int|
        #![trigger e.pages[i].free[k]]
        0 <= i < e.pages.len() && e.pages[i].in_use && 0 <= k < e.pages[i].free.len() implies e.pages[i].free[k]
        != h by {
        if i == idx {
            assert(pg1.free[k] == old_pg.free[k]);
        } else {
            assert(s.free_list_ok(i));
            assert(s.pages[i].free[k] == e.pages[i].free[k]);
            if s.pages[i].free[k] == h {
                lemma_one_page(s, i, idx, past_header(h));
            }
        }
    }
}

/// An offset is a slot of one page only.
pub proof fn lemma_one_page(s: State, i: int, j: int, v: u32)
    requires
        s.pages_placed(),
        0 <= i < s.pages.len(),
        0 <= j < s.pages.len(),
        on_page(s.pages[i], v),
        on_page(s.pages[j], v),
    ensures
        i == j,
{
    if i < j {
        assert(s.pages[i].start + PAGE_SIZE <= s.pages[j].start);
    } else if j < i {
        assert(s.pages[j].start + PAGE_SIZE <= s.pages[i].start);
    }
}

} // verus!
