//! Page allocation over a pager: a free list kept as a chain of free-list
//! pages, each listing released page ids, mirrored in memory.
use vstd::prelude::*;
use crate::codec::{free_list_bytes, encode_free_list, FLAG_FREE_LIST_PAGE, FREE_LIST_HEADER_SIZE};
use crate::config::{Config, BATCH_GROW_PAGES, MAX_CONSECUTIVE_EMPTY_FREE_LIST};
use crate::error::StreamDbError;
use crate::pager::{Pager, Page, page_read, chunk_capacity, ok_bytes, CacheStats};

verus! {

/// One page of the free-list chain and the ids it lists.
pub struct FreeListPage {
    pub page_id: i64,
    pub ids: Vec<i64>,
}

/// Whether page `p` is listed as free.
pub open spec fn is_free(fl: Seq<FreeListPage>, p: int) -> bool {
    exists|j: int, t: int|
        0 <= j < fl.len() && 0 <= t < fl[j].ids@.len() && #[trigger] fl[j].ids@[t] == p
}

/// Whether page `p` is a page of the free-list chain.
pub open spec fn is_chain_page(fl: Seq<FreeListPage>, p: int) -> bool {
    exists|j: int| 0 <= j < fl.len() && #[trigger] fl[j].page_id == p
}

/// The page after entry `j` of the chain, -1 after the last.
pub open spec fn next_of(fl: Seq<FreeListPage>, j: int) -> i64 {
    if j + 1 < fl.len() {
        fl[j + 1].page_id
    } else {
        -1i64
    }
}

/// Number of ids listed on the free list.
pub open spec fn free_count(fl: Seq<FreeListPage>) -> int
    decreases fl.len(),
{
    if fl.len() == 0 {
        0
    } else {
        free_count(fl.drop_last()) + fl.last().ids@.len()
    }
}

/// A count clamped to what a `u64` holds.
pub open spec fn saturated(n: int) -> u64 {
    if n > u64::MAX {
        u64::MAX
    } else {
        n as u64
    }
}

proof fn lemma_free_count_nonneg(fl: Seq<FreeListPage>)
    ensures
        free_count(fl) >= 0,
    decreases fl.len(),
{
    if fl.len() > 0 {
        lemma_free_count_nonneg(fl.drop_last());
    }
}

/// Changing one free-list page changes the count by the difference.
pub proof fn lemma_free_count_update(fl: Seq<FreeListPage>, j: int, x: FreeListPage)
    requires
        0 <= j < fl.len(),
    ensures
        free_count(fl.update(j, x)) == free_count(fl) - fl[j].ids@.len() + x.ids@.len(),
    decreases fl.len(),
{
    let u = fl.update(j, x);
    if j == fl.len() - 1 {
        assert(u.drop_last() =~= fl.drop_last());
    } else {
        lemma_free_count_update(fl.drop_last(), j, x);
        assert(u.drop_last() =~= fl.drop_last().update(j, x));
    }
}

pub proof fn lemma_free_count_push(fl: Seq<FreeListPage>, x: FreeListPage)
    ensures
        free_count(fl.push(x)) == free_count(fl) + x.ids@.len(),
{
    assert(fl.push(x).drop_last() =~= fl);
}

/// The free list lists some id exactly when its count is positive.
pub proof fn lemma_free_count_pos(fl: Seq<FreeListPage>)
    ensures
        free_count(fl) >= 0,
        free_count(fl) > 0 <==> exists|j: int| 0 <= j < fl.len() && (#[trigger] fl[j]).ids@.len() > 0,
    decreases fl.len(),
{
    if fl.len() > 0 {
        let init = fl.drop_last();
        lemma_free_count_pos(init);
        if exists|j: int| 0 <= j < init.len() && (#[trigger] init[j]).ids@.len() > 0 {
            let j = choose|j: int| 0 <= j < init.len() && (#[trigger] init[j]).ids@.len() > 0;
            assert(fl[j] == init[j]);
        }
        if exists|j: int| 0 <= j < fl.len() && (#[trigger] fl[j]).ids@.len() > 0 {
            let j = choose|j: int| 0 <= j < fl.len() && (#[trigger] fl[j]).ids@.len() > 0;
            if j < init.len() {
                assert(init[j] == fl[j]);
            }
        }
    }
}

/// The page ids listed free.
pub open spec fn free_set(fl: Seq<FreeListPage>) -> Set<int> {
    Set::new(|p: int| is_free(fl, p))
}

/// Ids listed on all pages of a chain are pairwise distinct.
pub open spec fn ids_distinct(fl: Seq<FreeListPage>) -> bool {
    forall|j1: int, t1: int, j2: int, t2: int|
        0 <= j1 < fl.len() && 0 <= t1 < fl[j1].ids@.len() && 0 <= j2 < fl.len() && 0 <= t2
            < fl[j2].ids@.len() && (j1 != j2 || t1 != t2) ==> #[trigger] fl[j1].ids@[t1]
            != #[trigger] fl[j2].ids@[t2]
}

/// With distinct ids, the count is the number of distinct free pages.
proof fn lemma_free_set_len(fl: Seq<FreeListPage>)
    requires
        ids_distinct(fl),
    ensures
        free_set(fl).finite(),
        free_set(fl).len() == free_count(fl),
    decreases fl.len(),
{
    if fl.len() == 0 {
        assert(free_set(fl) =~= Set::<int>::empty());
    } else {
        let init = fl.drop_last();
        let last = fl.last();
        assert(ids_distinct(init)) by {
            assert forall|j1: int, t1: int, j2: int, t2: int|
                0 <= j1 < init.len() && 0 <= t1 < init[j1].ids@.len() && 0 <= j2 < init.len() && 0 <= t2
                    < init[j2].ids@.len() && (j1 != j2 || t1 != t2) implies #[trigger] init[j1].ids@[t1]
                    != #[trigger] init[j2].ids@[t2] by {
                assert(init[j1] == fl[j1]);
                assert(init[j2] == fl[j2]);
            }
        }
        lemma_free_set_len(init);
        let n = fl.len() - 1;
        let s = last.ids@.map_values(|x: i64| x as int);
        assert(s.no_duplicates()) by {
            assert forall|a: int, b: int| 0 <= a < s.len() && 0 <= b < s.len() && a != b implies s[a] != s[b] by {
                assert(fl[n].ids@[a] != fl[n].ids@[b]);
            }
        }
        s.unique_seq_to_set();
        let ls = s.to_set();
        assert forall|p: int| #[trigger] ls.contains(p) <==> exists|t: int| 0 <= t < last.ids@.len() && last.ids@[t] == p by {
            if ls.contains(p) {
                let t = choose|t: int| 0 <= t < s.len() && s[t] == p;
                assert(last.ids@[t] == p);
            }
            if exists|t: int| 0 <= t < last.ids@.len() && last.ids@[t] == p {
                let t = choose|t: int| 0 <= t < last.ids@.len() && last.ids@[t] == p;
                assert(s[t] == p);
            }
        }
        assert(free_set(fl) =~= free_set(init) + ls) by {
            assert forall|p: int| free_set(fl).contains(p) <==> (free_set(init) + ls).contains(p) by {
                if is_free(fl, p) {
                    let (j, t) = choose|j: int, t: int| 0 <= j < fl.len() && 0 <= t < fl[j].ids@.len() && #[trigger] fl[j].ids@[t] == p;
                    if j < n {
                        assert(init[j] == fl[j]);
                        assert(is_free(init, p));
                    } else {
                        assert(last.ids@[t] == p);
                    }
                }
                if is_free(init, p) {
                    let (j, t) = choose|j: int, t: int| 0 <= j < init.len() && 0 <= t < init[j].ids@.len() && #[trigger] init[j].ids@[t] == p;
                    assert(fl[j] == init[j]);
                    assert(fl[j].ids@[t] == p);
                }
                if ls.contains(p) {
                    let t = choose|t: int| 0 <= t < last.ids@.len() && last.ids@[t] == p;
                    assert(fl[n].ids@[t] == p);
                }
            }
        }
        assert(free_set(init).disjoint(ls)) by {
            assert forall|p: int| free_set(init).contains(p) implies !ls.contains(p) by {
                let (j, t) = choose|j: int, t: int| 0 <= j < init.len() && 0 <= t < init[j].ids@.len() && #[trigger] init[j].ids@[t] == p;
                assert(fl[j] == init[j]);
                if ls.contains(p) {
                    let u = choose|u: int| 0 <= u < last.ids@.len() && last.ids@[u] == p;
                    assert(fl[j].ids@[t] != fl[n].ids@[u]);
                }
            }
        }
        vstd::set_lib::lemma_set_disjoint_lens(free_set(init), ls);
    }
}

/// A free-list page holds at least a batch of ids and its count fits an `i32`.
pub proof fn lemma_fl_capacity(cfg: Config)
    requires
        cfg.wf(),
    ensures
        BATCH_GROW_PAGES <= fl_capacity(cfg) <= 0x200_0000,
        fl_capacity(cfg) * 8 + FREE_LIST_HEADER_SIZE <= chunk_capacity(cfg),
        chunk_capacity(cfg) <= cfg.capacity(),
{
    let c = cfg.capacity();
    assert(224 <= c <= 0x1000_0000);
    if cfg.use_compression {
        assert(164 <= (c - 32) * 6 / 7 <= c) by (nonlinear_arith)
            requires
                224 <= c,
        ;
    }
}

/// The database header written for a free list: no index roots, the free
/// list rooted at its first page.
pub open spec fn header_of(fl: Seq<FreeListPage>) -> crate::codec::DatabaseHeader {
    crate::codec::DatabaseHeader {
        index_root: crate::codec::VersionedLink { page_id: -1i64, version: 0i32 },
        path_lookup_root: crate::codec::VersionedLink { page_id: -1i64, version: 0i32 },
        free_list_root: crate::codec::VersionedLink {
            page_id: if fl.len() > 0 { fl[0].page_id } else { -1i64 },
            version: 1i32,
        },
    }
}

/// Page `p` is back with the store: listed free or serving the free list.
pub open spec fn is_released(s: Store, p: int) -> bool {
    0 < p < s.total() && !s.in_use(p)
}

/// A well-formed store has well-formed settings.
pub proof fn lemma_store_cfg(s: Store)
    requires
        s.wf(),
    ensures
        s.cfg().wf(),
        s.total() >= 1,
{
    s.pager.lemma_wf();
}

/// Ids one free-list page can hold, so that its payload always fits a page.
pub open spec fn fl_capacity(cfg: Config) -> int {
    (chunk_capacity(cfg) - FREE_LIST_HEADER_SIZE) / 8
}

/// The pager with its free list.
pub struct Store {
    pager: Pager,
    free: Vec<FreeListPage>,
    empty_visits: u64,
}

impl Store {
    /// Everything but the on-disk copy of the free-list pages.
    pub closed spec fn wf_core(&self) -> bool {
        let fl = self.free@;
        let n = self.pager@.len();
        &&& self.pager.wf()
        &&& forall|j: int| 0 <= j < fl.len() ==> 0 < #[trigger] fl[j].page_id < n
        &&& forall|j: int| 0 <= j < fl.len() ==> #[trigger] fl[j].ids@.len() <= fl_capacity(self.pager.cfg())
        &&& forall|j: int, t: int|
            0 <= j < fl.len() && 0 <= t < fl[j].ids@.len() ==> 0 < #[trigger] fl[j].ids@[t] < n
        &&& forall|j1: int, j2: int|
            0 <= j1 < fl.len() && 0 <= j2 < fl.len() && j1 != j2 ==> #[trigger] fl[j1].page_id
                != #[trigger] fl[j2].page_id
        &&& forall|j1: int, t1: int, j2: int, t2: int|
            0 <= j1 < fl.len() && 0 <= t1 < fl[j1].ids@.len() && 0 <= j2 < fl.len() && 0 <= t2
                < fl[j2].ids@.len() && (j1 != j2 || t1 != t2) ==> #[trigger] fl[j1].ids@[t1]
                != #[trigger] fl[j2].ids@[t2]
        &&& forall|j: int, t: int|
            0 <= j < fl.len() && 0 <= t < fl[j].ids@.len() ==> !is_chain_page(
                fl,
                #[trigger] fl[j].ids@[t] as int,
            )
    }

    /// Free-list page `j` holds on disk what the chain says.
    pub closed spec fn persisted(&self, j: int) -> bool {
        let fl = self.free@;
        &&& page_read(self.pager.cfg(), self.pager@[fl[j].page_id as int], false) == ok_bytes(
            free_list_bytes(next_of(fl, j), fl[j].ids@),
        )
        &&& self.pager@[fl[j].page_id as int].header.flags == FLAG_FREE_LIST_PAGE
    }

    pub closed spec fn wf(&self) -> bool {
        &&& self.wf_core()
        &&& forall|j: int| 0 <= j < self.free@.len() ==> #[trigger] self.persisted(j)
    }

    pub closed spec fn cfg(&self) -> Config {
        self.pager.cfg()
    }

    /// The pages of the file.
    pub closed spec fn pages(&self) -> Seq<Page> {
        self.pager@
    }

    pub open spec fn total(&self) -> int {
        self.pages().len() as int
    }

    pub closed spec fn chain(&self) -> Seq<FreeListPage> {
        self.free@
    }

    /// Page `p` is neither page 0, free, nor part of the free list: its owner
    /// is whoever allocated it.
    pub open spec fn in_use(&self, p: int) -> bool {
        0 < p < self.total() && !is_free(self.chain(), p) && !is_chain_page(self.chain(), p)
    }

    pub closed spec fn stats_view(&self) -> CacheStats {
        self.pager.stats_view()
    }

    /// Pages that can still be handed out: ids on the free list plus the
    /// pages the file may still grow by.
    pub open spec fn capacity(&self) -> int {
        free_count(self.chain()) + self.cfg().max_total() - self.total()
    }

    pub proof fn lemma_capacity(&self)
        requires
            self.wf(),
        ensures
            self.cfg().wf(),
            self.capacity() >= 0,
            free_count(self.chain()) >= 0,
            self.total() <= self.cfg().max_total(),
    {
        self.pager.lemma_wf();
        self.cfg().lemma_fits(self.total());
        lemma_free_count_pos(self.chain());
    }

    /// A store over a one-page file with an empty free list.
    pub fn new(config: Config) -> (r: Store)
        requires
            config.wf(),
        ensures
            r.wf(),
            r.cfg() == config,
            r.total() == 1,
            r.chain().len() == 0,
    {
        Store { pager: Pager::new(config, 1), free: Vec::new(), empty_visits: 0 }
    }

    pub fn page_count(&self) -> (r: usize)
        ensures
            r == self.total(),
    {
        self.pager.page_count()
    }

    pub fn config(&self) -> (r: Config)
        ensures
            r == self.cfg(),
    {
        self.pager.config()
    }

    pub fn cache_stats(&self) -> (r: CacheStats)
        ensures
            r == self.stats_view(),
    {
        self.pager.cache_stats()
    }

    /// Ids on the free list, counted by walking it.
    pub fn count_free_pages(&self) -> (r: u64)
        requires
            self.wf(),
        ensures
            r == saturated(free_count(self.chain())),
    {
        let mut total: u64 = 0;
        let mut j: usize = 0;
        proof {
            lemma_free_count_nonneg(self.free@.subrange(0, 0));
        }
        while j < self.free.len()
            invariant
                self.wf(),
                j <= self.free@.len(),
                total == saturated(free_count(self.free@.subrange(0, j as int))),
                free_count(self.free@.subrange(0, j as int)) >= 0,
            decreases self.free@.len() - j,
        {
            proof {
                assert(self.free@.subrange(0, j + 1).drop_last() =~= self.free@.subrange(0, j as int));
            }
            total = total.saturating_add(self.free[j].ids.len() as u64);
            j = j + 1;
        }
        assert(self.free@.subrange(0, self.free@.len() as int) =~= self.free@);
        total
    }

    /// Rewrites free-list page `j` from the in-memory chain.
    fn persist(&mut self, j: usize, skip: usize)
        requires
            old(self).wf_core(),
            j < old(self).free@.len(),
            forall|i: int|
                0 <= i < old(self).free@.len() && i != j && i != skip ==> #[trigger] old(
                    self,
                ).persisted(i),
        ensures
            final(self).wf_core(),
            forall|i: int|
                0 <= i < final(self).free@.len() && i != skip ==> #[trigger] final(self).persisted(i),
            skip >= final(self).free@.len() ==> final(self).wf(),
            final(self).stats_view() == old(self).stats_view(),
            final(self).free@ == old(self).free@,
            final(self).pager.cfg() == old(self).pager.cfg(),
            final(self).pager@.len() == old(self).pager@.len(),
            final(self).empty_visits == old(self).empty_visits,
            forall|p: int|
                0 <= p < old(self).pager@.len() && p != old(self).free@[j as int].page_id ==> #[trigger] final(self).pager@[p]
                    == old(self).pager@[p],
    {
        let ghost fl = self.free@;
        proof {
            self.pager.lemma_wf();
            lemma_fl_capacity(self.pager.cfg());
        }
        let next: i64 = if j < self.free.len() - 1 {
            self.free[j + 1].page_id
        } else {
            -1
        };
        let bytes = encode_free_list(next, &self.free[j].ids);
        proof {
            crate::codec::lemma_free_list_round_trip(next, fl[j as int].ids@);
            assert(fl[j as int].ids@.len() <= fl_capacity(self.pager.cfg()));
            assert(bytes@.len() <= chunk_capacity(self.pager.cfg())) by (nonlinear_arith)
                requires
                    bytes@.len() == 12 + 8 * fl[j as int].ids@.len(),
                    fl[j as int].ids@.len() <= (chunk_capacity(self.pager.cfg()) - 12) / 8,
            ;
        }
        let pid = self.free[j].page_id;
        let r = self.pager.write_page(pid, bytes.as_slice(), 1, FLAG_FREE_LIST_PAGE, -1, next);
        proof {
            assert(r is Ok);
            assert(page_read(self.pager.cfg(), self.pager@[pid as int], false) == ok_bytes(bytes@));
            assert forall|i: int| 0 <= i < self.free@.len() && i != skip implies #[trigger] self.persisted(i) by {
                if i != j {
                    assert(old(self).persisted(i));
                    assert(fl[i].page_id != fl[j as int].page_id);
                }
            }
        }
    }

    /// Hands out a page: the last id of the first free-list page that lists
    /// any; when none does, a page added at the end of the file, by a batch of
    /// pages after repeated empty walks (the rest of the batch goes on the free
    /// list), else by one page.
    pub fn allocate(&mut self) -> (r: Result<i64, StreamDbError>)
        requires
            old(self).wf(),
        ensures
            final(self).wf(),
            final(self).cfg() == old(self).cfg(),
            final(self).total() >= old(self).total(),
            final(self).stats_view() == old(self).stats_view(),
            forall|q: int| #[trigger]
                old(self).in_use(q) ==> final(self).in_use(q) && final(self).pages()[q] == old(
                    self,
                ).pages()[q],
            (exists|q: int| is_free(old(self).chain(), q)) ==> r is Ok,
            r matches Ok(p) ==> {
                &&& !old(self).in_use(p as int)
                &&& final(self).in_use(p as int)
                &&& forall|q: int| #[trigger]
                    final(self).in_use(q) ==> old(self).in_use(q) || q == p
            },
            r is Err ==> (r matches Err(StreamDbError::InvalidInput)) && final(self).chain() == old(
                self,
            ).chain() && final(self).total() == old(self).total() && final(self).pages() == old(
                self,
            ).pages(),
            r is Err ==> forall|q: int| #[trigger] final(self).in_use(q) == old(self).in_use(q),
            final(self).chain().len() == old(self).chain().len(),
            r is Err <==> old(self).capacity() == 0,
            r is Ok ==> final(self).capacity() == old(self).capacity() - 1,
            forall|j: int|
                0 <= j < old(self).chain().len() && (#[trigger] old(self).chain()[j]).ids@.len() > 0 && (forall|i: int|
                    0 <= i < j ==> (#[trigger] old(self).chain()[i]).ids@.len() == 0) ==> (r matches Ok(p)
                    && p == old(self).chain()[j].ids@.last()),
    {
        let ghost fl0 = self.free@;
        proof {
            self.lemma_capacity();
            self.cfg().lemma_fits(self.total() + 1);
            self.cfg().lemma_fits(self.total() + 16);
        }
        proof {
            self.pager.lemma_wf();
            lemma_fl_capacity(self.pager.cfg());
        }
        let mut visits: u64 = self.empty_visits;
        let mut j: usize = 0;
        while j < self.free.len()
            invariant
                self.wf(),
                self.free@ == fl0,
                *self == *old(self),
                j <= fl0.len(),
                forall|i: int| 0 <= i < j ==> #[trigger] fl0[i].ids@.len() == 0,
            decreases fl0.len() - j,
        {
            if self.free[j].ids.len() > 0 {
                let pid = self.free[j].page_id;
                let mut ids = self.free[j].ids.clone();
                proof {
                    assert(ids@ =~= fl0[j as int].ids@);
                }
                let p = ids.pop().unwrap();
                let ghost t = ids@.len() as int;
                self.free.set(j, FreeListPage { page_id: pid, ids });
                proof {
                    lemma_free_count_pos(fl0);
                    assert(fl0[j as int].ids@.len() > 0);
                    old(self).lemma_capacity();
                    lemma_free_count_update(fl0, j as int, self.free@[j as int]);
                    assert(self.free@ == fl0.update(j as int, self.free@[j as int]));
                }
                self.empty_visits = 0;
                proof {
                    let fl = self.free@;
                    assert(p == fl0[j as int].ids@[t]);
                    assert forall|i: int| 0 <= i < fl.len() implies #[trigger] fl[i].page_id == fl0[i].page_id by {}
                    assert forall|i: int, u: int| 0 <= i < fl.len() && 0 <= u < fl[i].ids@.len() implies #[trigger] fl[i].ids@[u] == fl0[i].ids@[u] && 0 <= u < fl0[i].ids@.len() by {}
                    assert forall|q: int| #[trigger] is_chain_page(fl, q) == is_chain_page(fl0, q) by {
                        if is_chain_page(fl0, q) {
                            let i = choose|i: int| 0 <= i < fl0.len() && #[trigger] fl0[i].page_id == q;
                            assert(fl[i].page_id == q);
                        }
                    }
                    assert forall|q: int| #[trigger] is_free(fl, q) == (is_free(fl0, q) && q != p) by {
                        if is_free(fl0, q) && q != p {
                            let (i, u) = choose|i: int, u: int| 0 <= i < fl0.len() && 0 <= u < fl0[i].ids@.len() && #[trigger] fl0[i].ids@[u] == q;
                            if i == j {
                                assert(u != t);
                                assert(u < t);
                            }
                            assert(fl[i].ids@[u] == q);
                        }
                        if is_free(fl, q) {
                            let (i, u) = choose|i: int, u: int| 0 <= i < fl.len() && 0 <= u < fl[i].ids@.len() && #[trigger] fl[i].ids@[u] == q;
                            assert(fl0[i].ids@[u] == q);
                            if q == p {
                                assert(fl0[j as int].ids@[t] == p);
                            }
                        }
                    }
                    assert(self.wf_core());
                    assert forall|i: int| 0 <= i < fl.len() && i != j implies #[trigger] self.persisted(i) by {
                        assert(old(self).persisted(i));
                        assert(fl[i] == fl0[i]);
                        assert(next_of(fl, i) == next_of(fl0, i));
                    }
                }
                let n = self.free.len();
                self.persist(j, n);
                proof {
                    assert forall|q: int| #[trigger] old(self).in_use(q) implies self.in_use(q)
                        && self.pages()[q] == old(self).pages()[q] by {
                        assert(q != fl0[j as int].page_id);
                    }
                }
                return Ok(p);
            }
            visits = visits.saturating_add(1);
            j = j + 1;
        }
        proof {
            assert forall|q: int| !is_free(fl0, q) by {
                if is_free(fl0, q) {
                    let (i, u) = choose|i: int, u: int| 0 <= i < fl0.len() && 0 <= u < fl0[i].ids@.len() && #[trigger] fl0[i].ids@[u] == q;
                    assert(fl0[i].ids@.len() == 0);
                }
            }
        }
        let t = self.pager.page_count();
        let ghost pages0 = self.pager@;
        proof {
            lemma_free_count_pos(fl0);
        }
        if visits >= MAX_CONSECUTIVE_EMPTY_FREE_LIST && self.free.len() > 0 && self.pager.can_grow(BATCH_GROW_PAGES) {
            match self.pager.grow(BATCH_GROW_PAGES) {
                Err(e) => {
                    proof {
                        assert forall|i: int| 0 <= i < fl0.len() implies #[trigger] self.persisted(i) by {
                            assert(old(self).persisted(i));
                        }
                    }
                    return Err(e);
                },
                Ok(()) => {},
            }
            let mut ids: Vec<i64> = Vec::new();
            let mut k: u64 = 1;
            while k < BATCH_GROW_PAGES
                invariant
                    1 <= k <= BATCH_GROW_PAGES,
                    t < 0x1_0000_0000_0000,
                    ids@.len() == k - 1,
                    forall|u: int| 0 <= u < ids@.len() ==> #[trigger] ids@[u] == t + 1 + u,
                decreases BATCH_GROW_PAGES - k,
            {
                ids.push(t as i64 + k as i64);
                k = k + 1;
            }
            let pid = self.free[0].page_id;
            self.free.set(0, FreeListPage { page_id: pid, ids });
            self.empty_visits = 0;
            proof {
                lemma_free_count_update(fl0, 0, self.free@[0]);
                assert(self.free@ == fl0.update(0, self.free@[0]));
                let fl = self.free@;
                assert forall|i: int| 0 <= i < fl.len() implies #[trigger] fl[i].page_id == fl0[i].page_id by {}
                assert forall|q: int| #[trigger] is_chain_page(fl, q) == is_chain_page(fl0, q) by {
                    if is_chain_page(fl0, q) {
                        let i = choose|i: int| 0 <= i < fl0.len() && #[trigger] fl0[i].page_id == q;
                        assert(fl[i].page_id == q);
                    }
                }
                assert forall|q: int| #[trigger] is_free(fl, q) == (t + 1 <= q < t + BATCH_GROW_PAGES) by {
                    if t + 1 <= q < t + BATCH_GROW_PAGES {
                        assert(fl[0].ids@[q - t - 1] == q);
                    }
                    if is_free(fl, q) {
                        let (i, u) = choose|i: int, u: int| 0 <= i < fl.len() && 0 <= u < fl[i].ids@.len() && #[trigger] fl[i].ids@[u] == q;
                        if i != 0 {
                            assert(fl[i].ids@ == fl0[i].ids@);
                            assert(fl0[i].ids@.len() == 0);
                        }
                    }
                }
                assert(self.wf_core());
                assert forall|i: int| 0 <= i < fl.len() && i != 0 implies #[trigger] self.persisted(i) by {
                    assert(old(self).persisted(i));
                    assert(fl[i] == fl0[i]);
                    assert(next_of(fl, i) == next_of(fl0, i));
                    assert(self.pager@[fl[i].page_id as int] == pages0[fl[i].page_id as int]);
                }
            }
            let n = self.free.len();
            self.persist(0, n);
            proof {
                assert forall|q: int| #[trigger] old(self).in_use(q) implies self.in_use(q)
                    && self.pages()[q] == old(self).pages()[q] by {
                    assert(q != fl0[0].page_id);
                    assert(self.pages()[q] == pages0[q]);
                }
            }
            Ok(t as i64)
        } else {
            match self.pager.grow(1) {
                Err(e) => {
                    proof {
                        assert forall|i: int| 0 <= i < fl0.len() implies #[trigger] self.persisted(i) by {
                            assert(old(self).persisted(i));
                        }
                    }
                    return Err(e);
                },
                Ok(()) => {},
            }
            self.empty_visits = visits;
            proof {
                assert forall|i: int| 0 <= i < fl0.len() implies #[trigger] self.persisted(i) by {
                    assert(old(self).persisted(i));
                    assert(self.pager@[fl0[i].page_id as int] == pages0[fl0[i].page_id as int]);
                }
                assert forall|q: int| #[trigger] old(self).in_use(q) implies self.in_use(q)
                    && self.pages()[q] == old(self).pages()[q] by {
                    assert(self.pages()[q] == pages0[q]);
                }
                assert(!is_chain_page(fl0, t as int));
            }
            Ok(t as i64)
        }
    }

    /// Puts page `p` on the free list: appended to the first free-list page
    /// with room, else listed on a new free-list page linked at the tail.
    pub fn release(&mut self, p: i64)
        requires
            old(self).wf(),
            old(self).in_use(p as int),
        ensures
            final(self).wf(),
            final(self).cfg() == old(self).cfg(),
            final(self).total() >= old(self).total(),
            final(self).stats_view() == old(self).stats_view(),
            is_released(*final(self), p as int),
            old(self).chain().len() > 0 ==> is_free(final(self).chain(), p as int),
            (exists|j: int| 0 <= j < old(self).chain().len() && (#[trigger] old(self).chain()[j]).ids@.len() < fl_capacity(old(self).cfg()))
                ==> free_count(final(self).chain()) == free_count(old(self).chain()) + 1,
            forall|q: int| #[trigger]
                final(self).in_use(q) <==> old(self).in_use(q) && q != p,
            forall|q: int| #[trigger]
                final(self).in_use(q) ==> final(self).pages()[q] == old(self).pages()[q],
    {
        let ghost fl0 = self.free@;
        proof {
            self.pager.lemma_wf();
            lemma_fl_capacity(self.pager.cfg());
        }
        let cap = self.free_list_entries();
        let mut j: usize = 0;
        while j < self.free.len()
            invariant
                self.wf(),
                self.free@ == fl0,
                *self == *old(self),
                j <= fl0.len(),
                cap == fl_capacity(self.pager.cfg()),
                old(self).in_use(p as int),
                forall|i: int| 0 <= i < j ==> #[trigger] fl0[i].ids@.len() == cap,
            decreases fl0.len() - j,
        {
            if self.free[j].ids.len() < cap {
                let pid = self.free[j].page_id;
                let mut ids = self.free[j].ids.clone();
                proof {
                    assert(ids@ =~= fl0[j as int].ids@);
                }
                ids.push(p);
                self.free.set(j, FreeListPage { page_id: pid, ids });
                proof {
                    lemma_free_count_update(fl0, j as int, self.free@[j as int]);
                    assert(self.free@ == fl0.update(j as int, self.free@[j as int]));
                    assert(old(self).chain() == fl0);
                    assert(!is_free(fl0, p as int));
                    assert(!is_chain_page(fl0, p as int));
                    let fl = self.free@;
                    let t = fl0[j as int].ids@.len() as int;
                    assert(fl[j as int].ids@[t] == p);
                    assert forall|i: int| 0 <= i < fl.len() implies #[trigger] fl[i].page_id == fl0[i].page_id by {}
                    assert forall|q: int| #[trigger] is_chain_page(fl, q) == is_chain_page(fl0, q) by {
                        if is_chain_page(fl0, q) {
                            let i = choose|i: int| 0 <= i < fl0.len() && #[trigger] fl0[i].page_id == q;
                            assert(fl[i].page_id == q);
                        }
                    }
                    assert forall|i: int, u: int| 0 <= i < fl0.len() && 0 <= u < fl0[i].ids@.len() implies #[trigger] fl[i].ids@[u] == fl0[i].ids@[u] by {}
                    assert forall|q: int| #[trigger] is_free(fl, q) == (is_free(fl0, q) || q == p) by {
                        if is_free(fl0, q) {
                            let (i, u) = choose|i: int, u: int| 0 <= i < fl0.len() && 0 <= u < fl0[i].ids@.len() && #[trigger] fl0[i].ids@[u] == q;
                            assert(fl[i].ids@[u] == q);
                        }
                        if is_free(fl, q) && q != p {
                            let (i, u) = choose|i: int, u: int| 0 <= i < fl.len() && 0 <= u < fl[i].ids@.len() && #[trigger] fl[i].ids@[u] == q;
                            if i == j && u == t {
                            } else {
                                assert(fl0[i].ids@[u] == q);
                            }
                        }
                    }
                    assert forall|j1: int, t1: int, j2: int, t2: int|
                        0 <= j1 < fl.len() && 0 <= t1 < fl[j1].ids@.len() && 0 <= j2 < fl.len() && 0 <= t2
                            < fl[j2].ids@.len() && (j1 != j2 || t1 != t2) implies #[trigger] fl[j1].ids@[t1]
                            != #[trigger] fl[j2].ids@[t2] by {
                        assert(!is_free(fl0, p as int));
                        if j1 == j && t1 == t {
                            assert(0 <= t2 < fl0[j2].ids@.len());
                            assert(fl0[j2].ids@[t2] == fl[j2].ids@[t2]);
                            assert(is_free(fl0, fl0[j2].ids@[t2] as int));
                        } else if j2 == j && t2 == t {
                            assert(0 <= t1 < fl0[j1].ids@.len());
                            assert(fl0[j1].ids@[t1] == fl[j1].ids@[t1]);
                            assert(is_free(fl0, fl0[j1].ids@[t1] as int));
                        } else {
                            assert(0 <= t1 < fl0[j1].ids@.len());
                            assert(0 <= t2 < fl0[j2].ids@.len());
                            assert(fl0[j1].ids@[t1] == fl[j1].ids@[t1]);
                            assert(fl0[j2].ids@[t2] == fl[j2].ids@[t2]);
                        }
                    }
                    assert(self.wf_core());
                    assert forall|i: int| 0 <= i < fl.len() && i != j implies #[trigger] self.persisted(i) by {
                        assert(old(self).persisted(i));
                        assert(fl[i] == fl0[i]);
                        assert(next_of(fl, i) == next_of(fl0, i));
                    }
                }
                let n = self.free.len();
                self.persist(j, n);
                proof {
                    assert forall|q: int| #[trigger] self.in_use(q) implies self.pages()[q] == old(self).pages()[q] by {
                        assert(q != fl0[j as int].page_id);
                    }
                }
                return;
            }
            j = j + 1;
        }
        proof {
            if fl0.len() > 0 {
                assert(fl0[0].ids@.len() == cap);
                assert(is_free(fl0, fl0[0].ids@[0] as int));
            }
            assert(!exists|j: int| 0 <= j < fl0.len() && (#[trigger] fl0[j]).ids@.len() < fl_capacity(self.cfg()));
        }
        let ghost s0 = *self;
        let (q, ids) = match self.allocate() {
            Ok(q) => {
                let mut ids: Vec<i64> = Vec::new();
                ids.push(p);
                (q, ids)
            },
            Err(_) => (p, Vec::new()),
        };
        let ghost fl1 = self.free@;
        let ghost pages1 = self.pager@;
        let ghost s1 = *self;
        proof {
            if q == p {
                assert(ids@.len() == 0);
                assert(fl1 == fl0);
                assert forall|x: int| #[trigger] s1.in_use(x) == s0.in_use(x) by {}
            } else {
                assert(ids@.len() == 1 && ids@[0] == p);
                assert(s1.in_use(q as int));
                assert(!s0.in_use(q as int));
            }
            assert(s1.in_use(p as int));
        }
        let old_len = self.free.len();
        self.free.push(FreeListPage { page_id: q, ids });
        proof {
            let fl = self.free@;
            assert forall|i: int| 0 <= i < fl1.len() implies #[trigger] fl[i] == fl1[i] by {}
            assert(fl[old_len as int].page_id == q);
            assert forall|x: int| #[trigger] is_chain_page(fl, x) == (is_chain_page(fl1, x) || x == q) by {
                if is_chain_page(fl1, x) {
                    let i = choose|i: int| 0 <= i < fl1.len() && #[trigger] fl1[i].page_id == x;
                    assert(fl[i].page_id == x);
                }
            }
            assert forall|x: int| #[trigger] is_free(fl, x) == (is_free(fl1, x) || (x == p && q != p)) by {
                if is_free(fl1, x) {
                    let (i, u) = choose|i: int, u: int| 0 <= i < fl1.len() && 0 <= u < fl1[i].ids@.len() && #[trigger] fl1[i].ids@[u] == x;
                    assert(fl[i].ids@[u] == x);
                }
                if x == p && q != p {
                    assert(fl[old_len as int].ids@[0] == x);
                }
            }
            assert forall|j1: int, t1: int, j2: int, t2: int|
                0 <= j1 < fl.len() && 0 <= t1 < fl[j1].ids@.len() && 0 <= j2 < fl.len() && 0 <= t2
                    < fl[j2].ids@.len() && (j1 != j2 || t1 != t2) implies #[trigger] fl[j1].ids@[t1]
                    != #[trigger] fl[j2].ids@[t2] by {
                if j1 == old_len {
                    assert(is_free(fl1, fl[j2].ids@[t2] as int));
                } else if j2 == old_len {
                    assert(is_free(fl1, fl[j1].ids@[t1] as int));
                }
            }
            assert forall|j1: int, j2: int|
                0 <= j1 < fl.len() && 0 <= j2 < fl.len() && j1 != j2 implies #[trigger] fl[j1].page_id
                    != #[trigger] fl[j2].page_id by {
                if j1 == old_len {
                    assert(is_chain_page(fl1, fl[j2].page_id as int));
                } else if j2 == old_len {
                    assert(is_chain_page(fl1, fl[j1].page_id as int));
                }
            }
            assert forall|i: int, u: int|
                0 <= i < fl.len() && 0 <= u < fl[i].ids@.len() implies !is_chain_page(
                    fl,
                    #[trigger] fl[i].ids@[u] as int,
                ) by {
                let x = fl[i].ids@[u] as int;
                if i < old_len {
                    assert(is_free(fl1, x));
                    assert(!is_chain_page(fl1, x));
                    if q != p {
                        assert(x != q);
                    } else {
                        assert(s1.in_use(p as int));
                    }
                }
            }
            assert(self.wf_core());
            assert forall|i: int|
                0 <= i < fl.len() && i != old_len && i != old_len - 1 implies #[trigger] self.persisted(i) by {
                assert(s1.persisted(i));
                assert(fl[i] == fl1[i]);
                assert(next_of(fl, i) == next_of(fl1, i));
            }
        }
        if old_len > 0 {
            self.persist(old_len - 1, old_len);
        }
        let ghost pages2 = self.pager@;
        let n = self.free.len();
        self.persist(old_len, n);
        proof {
            let fl = self.free@;
            assert(is_chain_page(fl, q as int));
            assert forall|x: int| #[trigger] self.in_use(x) <==> old(self).in_use(x) && x != p by {
                if self.in_use(x) {
                    assert(x != q);
                    assert(!is_free(fl1, x)) by {
                        if is_free(fl1, x) {
                            let (i, u) = choose|i: int, u: int| 0 <= i < fl1.len() && 0 <= u < fl1[i].ids@.len() && #[trigger] fl1[i].ids@[u] == x;
                            assert(fl[i].ids@[u] == x);
                        }
                    }
                    assert(!is_chain_page(fl1, x)) by {
                        if is_chain_page(fl1, x) {
                            let i = choose|i: int| 0 <= i < fl1.len() && #[trigger] fl1[i].page_id == x;
                            assert(fl[i].page_id == x);
                        }
                    }
                    assert(s1.in_use(x));
                    if x == p {
                        if q != p {
                            assert(fl[old_len as int].ids@[0] == p);
                        }
                    }
                }
                if old(self).in_use(x) && x != p {
                    assert(s1.in_use(x));
                    if q != p {
                        assert(x != q);
                    }
                    assert(!is_free(fl, x));
                    assert(!is_chain_page(fl, x));
                }
            }
            assert forall|x: int| #[trigger] self.in_use(x) implies self.pages()[x] == old(self).pages()[x] by {
                assert(x != q);
                if old_len > 0 {
                    assert(fl[old_len - 1].page_id == fl1[old_len - 1].page_id);
                    assert(is_chain_page(fl, fl1[old_len - 1].page_id as int));
                    assert(x != fl1[old_len - 1].page_id);
                }
                assert(old(self).in_use(x));
                assert(s1.in_use(x));
                assert(pages1[x] == old(self).pages()[x]);
                assert(pages2[x] == pages1[x]);
            }
            if fl0.len() > 0 {
                assert(q != p);
                assert(fl[old_len as int].ids@[0] == p);
                assert(is_free(fl, p as int));
            }
        }
    }

    /// Writes a data page owned by the caller.
    pub fn write_data(&mut self, p: i64, payload: &[u8], version: i32, prev: i64, next: i64)
        requires
            old(self).wf(),
            old(self).in_use(p as int),
            payload@.len() <= chunk_capacity(old(self).cfg()),
        ensures
            final(self).wf(),
            final(self).cfg() == old(self).cfg(),
            final(self).total() == old(self).total(),
            final(self).chain() == old(self).chain(),
            final(self).stats_view() == old(self).stats_view(),
            final(self).pages() == old(self).pages().update(p as int, final(self).pages()[p as int]),
            final(self).pages()[p as int].header.next_page_id == next,
            final(self).pages()[p as int].header.prev_page_id == prev,
            final(self).pages()[p as int].header.version == version,
            final(self).pages()[p as int].header.flags == crate::codec::FLAG_DATA_PAGE,
            forall|q: bool|
                #[trigger] page_read(old(self).cfg(), final(self).pages()[p as int], q) == ok_bytes(
                    payload@,
                ),
    {
        proof {
            self.pager.lemma_wf();
            lemma_fl_capacity(self.pager.cfg());
        }
        let ghost fl = self.free@;
        let r = self.pager.write_page(p, payload, version, crate::codec::FLAG_DATA_PAGE, prev, next);
        proof {
            assert(r is Ok);
            assert forall|j: int| 0 <= j < fl.len() implies #[trigger] self.persisted(j) by {
                assert(old(self).persisted(j));
                assert(fl[j].page_id != p) by {
                    assert(is_chain_page(fl, fl[j].page_id as int));
                }
            }
        }
    }

    /// Points a page owned by the caller at a new successor.
    pub fn set_next(&mut self, p: i64, next: i64)
        requires
            old(self).wf(),
            old(self).in_use(p as int),
        ensures
            final(self).wf(),
            final(self).cfg() == old(self).cfg(),
            final(self).total() == old(self).total(),
            final(self).chain() == old(self).chain(),
            final(self).stats_view() == old(self).stats_view(),
            forall|q: int|
                0 <= q < old(self).total() && q != p ==> #[trigger] final(self).pages()[q] == old(
                    self,
                ).pages()[q],
            final(self).pages()[p as int].header == (crate::codec::PageHeader {
                next_page_id: next,
                ..old(self).pages()[p as int].header
            }),
            forall|q: bool|
                #[trigger] page_read(old(self).cfg(), final(self).pages()[p as int], q) == page_read(
                    old(self).cfg(),
                    old(self).pages()[p as int],
                    q,
                ),
    {
        let ghost fl = self.free@;
        let r = self.pager.set_next(p, next);
        proof {
            assert forall|j: int| 0 <= j < fl.len() implies #[trigger] self.persisted(j) by {
                assert(old(self).persisted(j));
                assert(fl[j].page_id != p) by {
                    assert(is_chain_page(fl, fl[j].page_id as int));
                }
            }
        }
    }

    /// Reads the logical payload of a page.
    pub fn read(&mut self, p: i64, quick: bool) -> (r: Result<Vec<u8>, StreamDbError>)
        requires
            old(self).wf(),
        ensures
            final(self).wf(),
            final(self).cfg() == old(self).cfg(),
            final(self).pages() == old(self).pages(),
            final(self).chain() == old(self).chain(),
            !(0 <= p < old(self).total()) ==> (r matches Err(StreamDbError::InvalidInput)),
            0 <= p < old(self).total() ==> match page_read(
                old(self).cfg(),
                old(self).pages()[p as int],
                quick,
            ) {
                Ok(x) => r matches Ok(v) && v@ == x,
                Err(e) => r matches Err(e2) && e2 == e,
            },
    {
        let ghost fl = self.free@;
        let r = self.pager.read_page(p, quick);
        proof {
            assert forall|j: int| 0 <= j < fl.len() implies #[trigger] self.persisted(j) by {
                assert(old(self).persisted(j));
            }
        }
        r
    }

    /// The header of a page.
    pub fn header(&self, p: i64) -> (r: Result<crate::codec::PageHeader, StreamDbError>)
        ensures
            0 <= p < self.total() ==> (r matches Ok(h) && h == self.pages()[p as int].header),
            !(0 <= p < self.total()) ==> (r matches Err(StreamDbError::InvalidInput)),
    {
        self.pager.header(p)
    }

    /// A listed free id is a real page other than page 0 and not a free-list page.
    pub proof fn lemma_free_facts(&self, j: int, t: int)
        requires
            self.wf(),
            0 <= j < self.chain().len(),
            0 <= t < self.chain()[j].ids@.len(),
        ensures
            0 < self.chain()[j].ids@[t] < self.total(),
            !is_chain_page(self.chain(), self.chain()[j].ids@[t] as int),
    {
    }

    /// A free-list page is a real page other than page 0.
    pub proof fn lemma_chain_page_facts(&self, j: int)
        requires
            self.wf(),
            0 <= j < self.chain().len(),
        ensures
            0 < self.chain()[j].page_id < self.total(),
    {
    }

    /// The whole file as laid out on disk: the database header on page 0,
    /// padded to a page, then every other page.
    pub fn file_image(&self) -> (r: Vec<u8>)
        requires
            self.wf(),
        ensures
            r@ == crate::codec::db_header_bytes(header_of(self.chain())) + crate::pager::zeros(
                self.cfg().page_size - crate::codec::DB_HEADER_SIZE,
            ) + crate::pager::pages_image(self.cfg(), self.pages(), self.total()),
    {
        proof {
            self.pager.lemma_wf();
        }
        let head: i64 = if self.free.len() > 0 {
            self.free[0].page_id
        } else {
            -1
        };
        let none = crate::codec::VersionedLink { page_id: -1, version: 0 };
        let header = crate::codec::DatabaseHeader {
            index_root: none,
            path_lookup_root: none,
            free_list_root: crate::codec::VersionedLink { page_id: head, version: 1 },
        };
        let mut out = crate::codec::encode_db_header(&header);
        let cfg = self.pager.config();
        crate::pager::push_zeros(&mut out, cfg.page_size - crate::codec::DB_HEADER_SIZE as u64);
        self.pager.append_image(&mut out);
        out
    }

    /// Fewer ids are listed free than the file has pages: every listed id is
    /// a distinct page other than page 0.
    pub proof fn lemma_free_count_bound(&self)
        requires
            self.wf(),
        ensures
            0 <= free_count(self.chain()) < self.total(),
    {
        let fl = self.free@;
        assert(ids_distinct(fl));
        lemma_free_set_len(fl);
        lemma_free_count_pos(fl);
        self.pager.lemma_wf();
        vstd::set_lib::lemma_int_range(1, self.total());
        assert(free_set(fl).subset_of(vstd::set_lib::set_int_range(1, self.total()))) by {
            assert forall|p: int| free_set(fl).contains(p) implies vstd::set_lib::set_int_range(1, self.total()).contains(p) by {
                let (j, t) = choose|j: int, t: int| 0 <= j < fl.len() && 0 <= t < fl[j].ids@.len() && #[trigger] fl[j].ids@[t] == p;
            }
        }
        vstd::set_lib::lemma_len_subset(free_set(fl), vstd::set_lib::set_int_range(1, self.total()));
    }

    /// Ids that one free-list page holds.
    pub fn free_list_entries(&self) -> (r: usize)
        requires
            self.wf(),
        ensures
            r == fl_capacity(self.cfg()),
    {
        proof {
            self.pager.lemma_wf();
            lemma_fl_capacity(self.pager.cfg());
        }
        let cfg = self.pager.config();
        let chunk = if cfg.use_compression {
            (cfg.page_size - cfg.page_header_size - 32) * 6 / 7
        } else {
            cfg.page_size - cfg.page_header_size
        };
        ((chunk - FREE_LIST_HEADER_SIZE as u64) / 8) as usize
    }
}

} // verus!
