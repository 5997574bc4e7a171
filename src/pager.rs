//! Fixed-size pages with a checksummed header, optional Snappy compression
//! and a bounded LRU cache of decoded payloads.
use vstd::prelude::*;
use crate::codec::{PageHeader, page_header_bytes, encode_page_header, PAGE_HEADER_SIZE};
use crate::config::Config;
use crate::error::StreamDbError;

verus! {

/// The CRC-32/ISO-HDLC checksum of a byte sequence.
pub uninterp spec fn crc32_of(s: Seq<u8>) -> u32;

/// Relies on `crc::Crc::<u32>::checksum` with `CRC_32_ISO_HDLC`: the checksum of the bytes.
#[verifier::external_body]
pub(crate) fn checksum(data: &[u8]) -> (r: u32)
    ensures
        r == crc32_of(data@),
{
    crc::Crc::<u32>::new(&crc::CRC_32_ISO_HDLC).checksum(data)
}

/// The Snappy block encoding of a byte sequence.
pub uninterp spec fn snappy_compressed(s: Seq<u8>) -> Seq<u8>;

/// What Snappy block decoding makes of a byte sequence, `None` when it is not a valid block.
pub uninterp spec fn snappy_decompressed(s: Seq<u8>) -> Option<Seq<u8>>;

/// Relies on `snap::raw::Encoder::compress_vec`: it fails only on inputs above
/// its 4 GiB limit, its output is at most `max_compress_len` (32 + n + n/6)
/// bytes, and decoding that output gives the input back.
#[verifier::external_body]
fn compress(data: &[u8]) -> (r: Vec<u8>)
    requires
        data@.len() <= 0x1000_0000,
    ensures
        r@ == snappy_compressed(data@),
        r@.len() <= 32 + data@.len() + data@.len() / 6,
        snappy_decompressed(r@) == Some(data@),
{
    snap::raw::Encoder::new().compress_vec(data).unwrap_or_default()
}

/// Relies on `snap::raw::Decoder::decompress_vec`: the decoded block, or an error
/// when the bytes are not a valid block.
#[verifier::external_body]
fn decompress(data: &[u8]) -> (r: Option<Vec<u8>>)
    ensures
        r matches Some(v) ==> snappy_decompressed(data@) == Some(v@),
        r is None ==> snappy_decompressed(data@) is None,
{
    snap::raw::Decoder::new().decompress_vec(data).ok()
}

#[verifier::external_type_specification]
#[verifier::external_body]
#[verifier::reject_recursive_types(K)]
#[verifier::reject_recursive_types(V)]
#[verifier::reject_recursive_types(S)]
pub struct ExLruCache<K, V, S>(lru::LruCache<K, V, S>);

#[verifier::external_type_specification]
#[verifier::external_body]
pub struct ExLruHasher(lru::DefaultHasher);

/// The entries held by the page cache, by page id.
pub uninterp spec fn cached_pages(c: lru::LruCache<u64, Vec<u8>>) -> Map<u64, Seq<u8>>;

pub open spec fn no_cached_pages() -> Map<u64, Seq<u8>> {
    Map::empty()
}

/// Relies on `lru::LruCache::new`: an empty cache with room for `cap` entries.
#[verifier::external_body]
fn cache_new(cap: usize) -> (r: lru::LruCache<u64, Vec<u8>>)
    requires
        cap > 0,
    ensures
        cached_pages(r) == no_cached_pages(),
{
    lru::LruCache::new(std::num::NonZeroUsize::new(cap).unwrap())
}

/// Relies on `lru::LruCache::get`: the entry under the key, if any; only the
/// recency order changes.
#[verifier::external_body]
fn cache_get(c: &mut lru::LruCache<u64, Vec<u8>>, k: u64) -> (r: Option<Vec<u8>>)
    ensures
        cached_pages(*final(c)) == cached_pages(*old(c)),
        r matches Some(v) ==> cached_pages(*old(c)).contains_key(k) && cached_pages(*old(c))[k]
            == v@,
        r is None ==> !cached_pages(*old(c)).contains_key(k),
{
    c.get(&k).cloned()
}

/// Relies on `lru::LruCache::put`: the key now holds the value; to make room the
/// least recently used other entry may be evicted, nothing else changes.
#[verifier::external_body]
fn cache_put(c: &mut lru::LruCache<u64, Vec<u8>>, k: u64, v: Vec<u8>)
    ensures
        cached_pages(*final(c)).contains_key(k),
        cached_pages(*final(c))[k] == v@,
        forall|j: u64|
            #[trigger] cached_pages(*final(c)).contains_key(j) && j != k ==> cached_pages(
                *old(c),
            ).contains_key(j) && cached_pages(*old(c))[j] == cached_pages(*final(c))[j],
{
    c.put(k, v);
}

/// Relies on `lru::LruCache::pop`: the entry under the key is removed.
#[verifier::external_body]
fn cache_pop(c: &mut lru::LruCache<u64, Vec<u8>>, k: u64)
    ensures
        cached_pages(*final(c)) == cached_pages(*old(c)).remove(k),
{
    c.pop(&k);
}

/// One page as held on disk: its header and its stored payload.
pub struct Page {
    pub header: PageHeader,
    pub data: Vec<u8>,
}

/// Page-cache counters.
#[derive(Clone, Copy, Debug, PartialEq, Eq, Structural)]
pub struct CacheStats {
    pub hits: u64,
    pub misses: u64,
}

/// The logical payload behind stored bytes.
pub open spec fn plain_of(cfg: Config, data: Seq<u8>) -> Option<Seq<u8>> {
    if cfg.use_compression {
        snappy_decompressed(data)
    } else {
        Some(data)
    }
}

/// The stored bytes for a logical payload.
pub open spec fn stored_of(cfg: Config, payload: Seq<u8>) -> Seq<u8> {
    if cfg.use_compression {
        snappy_compressed(payload)
    } else {
        payload
    }
}

/// Logical payload bytes that always fit in one page once stored.
pub open spec fn chunk_capacity(cfg: Config) -> int {
    if cfg.use_compression {
        (cfg.capacity() - 32) * 6 / 7
    } else {
        cfg.capacity()
    }
}

/// What reading a page yields: its logical payload, or `InvalidData` when the
/// stored length is out of bounds, the payload does not decode, or (unless
/// `quick`) the checksum does not match.
pub open spec fn page_read(cfg: Config, p: Page, quick: bool) -> Result<Seq<u8>, StreamDbError> {
    if p.header.data_length < 0 || p.header.data_length > cfg.capacity() || p.data@.len()
        != p.header.data_length {
        Err(StreamDbError::InvalidData)
    } else {
        match plain_of(cfg, p.data@) {
            None => Err(StreamDbError::InvalidData),
            Some(x) => if !quick && crc32_of(x) != p.header.crc {
                Err(StreamDbError::InvalidData)
            } else {
                Ok(x)
            },
        }
    }
}

pub open spec fn ok_bytes(x: Seq<u8>) -> Result<Seq<u8>, StreamDbError> {
    Ok(x)
}

/// `n` zero bytes.
pub open spec fn zeros(n: int) -> Seq<u8> {
    Seq::new(n as nat, |i: int| 0u8)
}

/// A page as laid out in the file: header, stored payload, zero padding.
pub open spec fn page_image(cfg: Config, p: Page) -> Seq<u8> {
    page_header_bytes(p.header) + p.data@ + zeros(cfg.page_size - PAGE_HEADER_SIZE - p.data@.len())
}

/// Pages 1 to `n - 1` laid out one after another.
pub open spec fn pages_image(cfg: Config, pages: Seq<Page>, n: int) -> Seq<u8>
    decreases n,
{
    if n <= 1 {
        Seq::empty()
    } else {
        pages_image(cfg, pages, n - 1) + page_image(cfg, pages[n - 1])
    }
}

/// Appends `n` zero bytes.
pub fn push_zeros(out: &mut Vec<u8>, n: u64)
    ensures
        final(out)@ == old(out)@ + zeros(n as int),
{
    let mut i: u64 = 0;
    while i < n
        invariant
            i <= n,
            out@ == old(out)@ + zeros(i as int),
        decreases n - i,
    {
        out.push(0);
        i = i + 1;
        assert(out@ =~= old(out)@ + zeros(i as int));
    }
    assert(out@ =~= old(out)@ + zeros(n as int));
}

/// The page store: the file's pages and a cache of verified payloads.
pub struct Pager {
    config: Config,
    pages: Vec<Page>,
    cache: lru::LruCache<u64, Vec<u8>>,
    stats: CacheStats,
}

impl Pager {
    pub closed spec fn wf(&self) -> bool {
        &&& self.config.wf()
        &&& 1 <= self.pages@.len() <= self.config.max_pages
        &&& forall|k: int| 0 <= k < self.pages@.len() ==> (#[trigger] self.pages@[k]).data@.len() <= self.config.capacity()
        &&& self.config.fits(self.pages@.len() as int)
        &&& forall|k: u64| #[trigger]
            cached_pages(self.cache).contains_key(k) ==> k < self.pages@.len() && page_read(
                self.config,
                self.pages@[k as int],
                false,
            ) == ok_bytes(cached_pages(self.cache)[k])
    }

    /// The pages of the file, page 0 first.
    pub closed spec fn view(&self) -> Seq<Page> {
        self.pages@
    }

    pub proof fn lemma_wf(&self)
        requires
            self.wf(),
        ensures
            self.cfg().wf(),
            1 <= self@.len() <= self.cfg().max_pages,
            forall|k: int| 0 <= k < self@.len() ==> (#[trigger] self@[k]).data@.len() <= self.cfg().capacity(),
            self.cfg().fits(self@.len() as int),
    {
    }

    pub closed spec fn cfg(&self) -> Config {
        self.config
    }

    pub fn config(&self) -> (r: Config)
        ensures
            r == self.cfg(),
    {
        self.config
    }

    /// Whether page `id`'s payload is in the cache.
    pub closed spec fn cached(&self, id: u64) -> bool {
        cached_pages(self.cache).contains_key(id)
    }

    pub closed spec fn stats_view(&self) -> CacheStats {
        self.stats
    }

    /// A store of `n` blank pages.
    pub fn new(config: Config, n: usize) -> (r: Pager)
        requires
            config.wf(),
            n == 1,
        ensures
            r.wf(),
            r.cfg() == config,
            r@.len() == n,
            r.stats_view() == (CacheStats { hits: 0, misses: 0 }),
    {
        let mut pages: Vec<Page> = Vec::new();
        let mut i: usize = 0;
        while i < n
            invariant
                i <= n,
                pages@.len() == i,
                forall|k: int| 0 <= k < i ==> (#[trigger] pages@[k]).data@.len() == 0,
            decreases n - i,
        {
            pages.push(blank_page());
            i = i + 1;
        }
        Pager { config, pages, cache: cache_new(config.page_cache_size), stats: CacheStats { hits: 0, misses: 0 } }
    }

    /// Appends pages 1 onward as laid out in the file.
    pub fn append_image(&self, out: &mut Vec<u8>)
        requires
            self.wf(),
        ensures
            final(out)@ == old(out)@ + pages_image(self.cfg(), self@, self@.len() as int),
    {
        let n = self.pages.len();
        let mut i: usize = 1;
        assert(old(out)@ + pages_image(self.config, self.pages@, 1) =~= old(out)@);
        while i < n
            invariant
                self.wf(),
                n == self.pages@.len(),
                1 <= i <= n,
                out@ == old(out)@ + pages_image(self.config, self.pages@, i as int),
            decreases n - i,
        {
            let page = &self.pages[i];
            let ghost before = out@;
            let h = encode_page_header(&page.header);
            out.extend_from_slice(h.as_slice());
            out.extend_from_slice(page.data.as_slice());
            assert(page.data@.len() <= self.config.capacity());
            push_zeros(out, self.config.page_size - self.config.page_header_size - page.data.len() as u64);
            assert(out@ =~= before + page_image(self.config, self.pages@[i as int]));
            i = i + 1;
        }
    }

    pub fn page_count(&self) -> (r: usize)
        ensures
            r == self@.len(),
    {
        self.pages.len()
    }

    pub fn cache_stats(&self) -> (r: CacheStats)
        ensures
            r == self.stats_view(),
    {
        self.stats
    }

    /// The header of a page.
    pub fn header(&self, id: i64) -> (r: Result<PageHeader, StreamDbError>)
        ensures
            0 <= id < self@.len() ==> (r matches Ok(h) && h == self@[id as int].header),
            !(0 <= id < self@.len()) ==> r matches Err(StreamDbError::InvalidInput),
    {
        if id < 0 || id as u64 >= self.pages.len() as u64 {
            return Err(StreamDbError::InvalidInput);
        }
        Ok(self.pages[id as usize].header)
    }

    /// Decodes one page, without the cache.
    fn fetch(&self, id: usize, quick: bool) -> (r: Result<Vec<u8>, StreamDbError>)
        requires
            self.wf(),
            id < self@.len(),
        ensures
            match page_read(self.config, self@[id as int], quick) {
                Ok(x) => r matches Ok(v) && v@ == x,
                Err(e) => r matches Err(e2) && e2 == e,
            },
    {
        let page = &self.pages[id];
        let cap = self.config.page_size - self.config.page_header_size;
        if page.header.data_length < 0 || page.header.data_length as u64 > cap
            || page.data.len() as u64 != page.header.data_length as u64 {
            return Err(StreamDbError::InvalidData);
        }
        let data = if self.config.use_compression {
            match decompress(page.data.as_slice()) {
                Some(v) => v,
                None => {
                    return Err(StreamDbError::InvalidData);
                },
            }
        } else {
            page.data.clone()
        };
        proof {
            if !self.config.use_compression {
                assert(data@ =~= page.data@);
            }
        }
        if !quick && checksum(data.as_slice()) != page.header.crc {
            return Err(StreamDbError::InvalidData);
        }
        Ok(data)
    }

    /// Reads the logical payload of a page through the cache, then reads the
    /// next page of its chain ahead into the cache, ignoring any error there.
    pub fn read_page(&mut self, id: i64, quick: bool) -> (r: Result<Vec<u8>, StreamDbError>)
        requires
            old(self).wf(),
        ensures
            final(self).wf(),
            final(self)@ == old(self)@,
            final(self).cfg() == old(self).cfg(),
            !(0 <= id < old(self)@.len()) ==> r matches Err(StreamDbError::InvalidInput),
            0 <= id < old(self)@.len() ==> match page_read(
                old(self).cfg(),
                old(self)@[id as int],
                quick,
            ) {
                Ok(x) => r matches Ok(v) && v@ == x,
                Err(e) => r matches Err(e2) && e2 == e,
            },
            0 <= id < old(self)@.len() && old(self).cached(id as u64) ==> final(self).stats_view() == (CacheStats {
                hits: ((old(self).stats_view().hits + 1) % 0x1_0000_0000_0000_0000) as u64,
                misses: old(self).stats_view().misses,
            }),
            0 <= id < old(self)@.len() && !old(self).cached(id as u64) ==> final(self).stats_view() == (CacheStats {
                hits: old(self).stats_view().hits,
                misses: ((old(self).stats_view().misses + 1) % 0x1_0000_0000_0000_0000) as u64,
            }),
    {
        if id < 0 || id as u64 >= self.pages.len() as u64 {
            return Err(StreamDbError::InvalidInput);
        }
        let idx = id as usize;
        if let Some(v) = cache_get(&mut self.cache, id as u64) {
            self.stats.hits = self.stats.hits.wrapping_add(1);
            return Ok(v);
        }
        self.stats.misses = self.stats.misses.wrapping_add(1);
        let r = self.fetch(idx, quick);
        if let Ok(v) = &r {
            if !quick {
                cache_put(&mut self.cache, id as u64, v.clone());
                proof {
                    assert(cached_pages(self.cache)[id as u64] == v@);
                }
            }
            let next = self.pages[idx].header.next_page_id;
            if 0 <= next && (next as u64) < self.pages.len() as u64 {
                self.read_ahead(next as usize);
            }
        }
        r
    }

    /// Puts a verified page into the cache, if it reads back cleanly.
    fn read_ahead(&mut self, id: usize)
        requires
            old(self).wf(),
            id < old(self)@.len(),
        ensures
            final(self).wf(),
            final(self)@ == old(self)@,
            final(self).cfg() == old(self).cfg(),
            final(self).stats_view() == old(self).stats_view(),
    {
        if let Ok(v) = self.fetch(id, false) {
            cache_put(&mut self.cache, id as u64, v);
        }
    }

    /// Writes a page: the payload is compressed when configured, checked to
    /// fit, and stored under a header whose checksum covers the logical payload.
    pub fn write_page(
        &mut self,
        id: i64,
        payload: &[u8],
        version: i32,
        flags: u8,
        prev: i64,
        next: i64,
    ) -> (r: Result<(), StreamDbError>)
        requires
            old(self).wf(),
            payload@.len() <= 0x1000_0000,
        ensures
            final(self).wf(),
            final(self).cfg() == old(self).cfg(),
            final(self)@.len() == old(self)@.len(),
            final(self).stats_view() == old(self).stats_view(),
            r is Err <==> !(0 <= id < old(self)@.len()) || stored_of(
                old(self).cfg(),
                payload@,
            ).len() > old(self).cfg().capacity(),
            r is Err ==> (r matches Err(StreamDbError::InvalidInput)) && final(self)@ == old(self)@,
            0 <= id < old(self)@.len() && payload@.len() <= chunk_capacity(old(self).cfg()) ==> r is Ok,
            r is Ok ==> {
                &&& final(self)@ == old(self)@.update(id as int, final(self)@[id as int])
                &&& final(self)@[id as int].header.version == version
                &&& final(self)@[id as int].header.flags == flags
                &&& final(self)@[id as int].header.prev_page_id == prev
                &&& final(self)@[id as int].header.next_page_id == next
                &&& forall|q: bool|
                    #[trigger] page_read(old(self).cfg(), final(self)@[id as int], q) == ok_bytes(payload@)
            },
    {
        if id < 0 || id as u64 >= self.pages.len() as u64 {
            return Err(StreamDbError::InvalidInput);
        }
        let stored = if self.config.use_compression {
            compress(payload)
        } else {
            vstd::slice::slice_to_vec(payload)
        };
        proof {
            if !self.config.use_compression {
                assert(stored@ =~= payload@);
            } else if payload@.len() <= chunk_capacity(self.config) {
                let c = self.config.capacity();
                let n = payload@.len() as int;
                assert(32 + n + n / 6 <= c) by (nonlinear_arith)
                    requires
                        n <= (c - 32) * 6 / 7,
                        c >= 200,
                        n >= 0,
                ;
            }
        }
        if stored.len() as u64 > self.config.page_size - self.config.page_header_size {
            return Err(StreamDbError::InvalidInput);
        }
        let header = PageHeader {
            crc: checksum(payload),
            version,
            prev_page_id: prev,
            next_page_id: next,
            flags,
            data_length: stored.len() as i32,
        };
        let page = Page { header, data: stored };
        proof {
            assert forall|q: bool| #[trigger] page_read(self.config, page, q) == ok_bytes(payload@) by {}
        }
        self.pages.set(id as usize, page);
        cache_pop(&mut self.cache, id as u64);
        Ok(())
    }

    /// Changes the `next` link of a page; its payload and checksum stay.
    pub fn set_next(&mut self, id: i64, next: i64) -> (r: Result<(), StreamDbError>)
        requires
            old(self).wf(),
        ensures
            final(self).stats_view() == old(self).stats_view(),
            final(self).wf(),
            final(self).cfg() == old(self).cfg(),
            !(0 <= id < old(self)@.len()) ==> (r matches Err(StreamDbError::InvalidInput)) && final(self)@ == old(self)@,
            0 <= id < old(self)@.len() ==> {
                &&& r is Ok
                &&& final(self)@.len() == old(self)@.len()
                &&& forall|j: int|
                    0 <= j < old(self)@.len() && j != id ==> #[trigger] final(self)@[j] == old(
                        self,
                    )@[j]
                &&& final(self)@[id as int].header == (PageHeader {
                    next_page_id: next,
                    ..old(self)@[id as int].header
                })
                &&& final(self)@[id as int].data@ == old(self)@[id as int].data@
            },
    {
        if id < 0 || id as u64 >= self.pages.len() as u64 {
            return Err(StreamDbError::InvalidInput);
        }
        let idx = id as usize;
        let header = PageHeader { next_page_id: next, ..self.pages[idx].header };
        let data = self.pages[idx].data.clone();
        proof {
            assert(data@ =~= self.pages@[idx as int].data@);
        }
        let page = Page { header, data };
        self.pages.set(idx, page);
        proof {
            assert forall|k: u64| #[trigger] cached_pages(self.cache).contains_key(k) implies k
                < self.pages@.len() && page_read(self.config, self.pages@[k as int], false) == ok_bytes(
                cached_pages(self.cache)[k],
            ) by {
                assert(page_read(self.config, self.pages@[k as int], false) == page_read(
                    self.config,
                    old(self).pages@[k as int],
                    false,
                ));
            }
        }
        Ok(())
    }

    /// Extends the file by `n` blank pages.
    /// Whether the file can grow by `n` pages.
    pub fn can_grow(&self, n: u64) -> (r: bool)
        requires
            self.wf(),
            n <= 0x1_0000,
        ensures
            r == self.cfg().fits(self@.len() + n),
    {
        let total = self.pages.len() as u64 + n;
        if total > self.config.max_pages as u64 {
            return false;
        }
        assert((total as int) * (self.config.page_size as int) <= 0x1_0000_0000_0000 * 0x1000_0000)
            by (nonlinear_arith)
            requires
                total <= 0x1_0000_0000_0000,
                self.config.page_size <= 0x1000_0000,
        ;
        (total as u128) * (self.config.page_size as u128) <= self.config.max_db_size as u128
    }

    pub fn grow(&mut self, n: u64) -> (r: Result<(), StreamDbError>)
        requires
            old(self).wf(),
            n <= 0x1_0000,
        ensures
            final(self).wf(),
            final(self).cfg() == old(self).cfg(),
            final(self).stats_view() == old(self).stats_view(),
            r is Err <==> (old(self)@.len() + n) * old(self).cfg().page_size
                > old(self).cfg().max_db_size || old(self)@.len() + n
                > old(self).cfg().max_pages,
            r is Err ==> (r matches Err(StreamDbError::InvalidInput)) && final(self)@ == old(self)@,
            r is Ok ==> final(self)@.len() == old(self)@.len() + n && final(self)@.subrange(
                0,
                old(self)@.len() as int,
            ) == old(self)@,
    {
        let total = self.pages.len() as u64 + n;
        if total > self.config.max_pages as u64 {
            return Err(StreamDbError::InvalidInput);
        }
        assert((total as int) * (self.config.page_size as int) <= 0x1_0000_0000_0000 * 0x1000_0000)
            by (nonlinear_arith)
            requires
                total <= 0x1_0000_0000_0000,
                self.config.page_size <= 0x1000_0000,
        ;
        if (total as u128) * (self.config.page_size as u128) > self.config.max_db_size as u128 {
            return Err(StreamDbError::InvalidInput);
        }
        let ghost start = self.pages@;
        let mut i: u64 = 0;
        while i < n
            invariant
                self.wf(),
                i <= n,
                start.len() + n <= self.config.max_pages,
                (start.len() + n) * self.config.page_size <= self.config.max_db_size,
                self.pages@.len() == start.len() + i,
                self.pages@.subrange(0, start.len() as int) == start,
                self.config == old(self).cfg(),
                self.stats == old(self).stats,
            decreases n - i,
        {
            let ghost before = self.pages@;
            self.pages.push(blank_page());
            proof {
                let t = self.pages@.len() as int;
                let m = start.len() + n;
                assert(t * self.config.page_size <= m * self.config.page_size) by (nonlinear_arith)
                    requires
                        t <= m,
                        self.config.page_size >= 0,
                ;
                assert(self.pages@.subrange(0, start.len() as int) =~= start);
                assert forall|k: u64| #[trigger] cached_pages(self.cache).contains_key(k) implies k
                    < self.pages@.len() && page_read(self.config, self.pages@[k as int], false)
                    == ok_bytes(cached_pages(self.cache)[k]) by {
                    assert(self.pages@[k as int] == before[k as int]);
                }
            }
            i = i + 1;
        }
        Ok(())
    }
}

/// A page of zeros: empty payload, zero header.
pub fn blank_page() -> (r: Page)
    ensures
        r.data@.len() == 0,
        r.header == (PageHeader {
            crc: 0,
            version: 0,
            prev_page_id: 0,
            next_page_id: 0,
            flags: 0,
            data_length: 0,
        }),
{
    Page {
        header: PageHeader {
            crc: 0,
            version: 0,
            prev_page_id: 0,
            next_page_id: 0,
            flags: 0,
            data_length: 0,
        },
        data: Vec::new(),
    }
}

} // verus!
