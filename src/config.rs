//! Tuning of a store: page geometry, limits and optional features.
use vstd::prelude::*;
use crate::codec::{PAGE_HEADER_SIZE, FREE_LIST_HEADER_SIZE};

verus! {

/// Settings a store is opened with.
#[derive(Clone, Copy, Debug)]
pub struct Config {
    /// Bytes per page, header included.
    pub page_size: u64,
    /// Bytes of each page header.
    pub page_header_size: u64,
    /// Largest number of pages the file may hold.
    pub max_pages: i64,
    /// Largest file size in bytes.
    pub max_db_size: u64,
    /// Largest document in bytes.
    pub max_document_size: u64,
    /// Entries kept by the page cache.
    pub page_cache_size: usize,
    /// Whether the file is accessed through a memory map.
    pub use_mmap: bool,
    /// Whether page payloads are compressed.
    pub use_compression: bool,
    /// Prior versions kept per document.
    pub versions_to_keep: i32,
}

/// Smallest page that still holds a free-list page with room for a batch of ids.
pub const MIN_PAGE_SIZE: u64 = 256;

/// Pages added at once when the free list keeps coming up empty.
pub const BATCH_GROW_PAGES: u64 = 16;

/// Empty free-list visits after which the file grows by a batch.
pub const MAX_CONSECUTIVE_EMPTY_FREE_LIST: u64 = 5;

impl Config {
    /// The settings used when nothing else is asked for.
    pub fn default_config() -> (r: Config)
        ensures
            r.wf(),
            r.page_size == 4096,
            r.page_header_size == 32,
            r.max_document_size == 256 * 1024 * 1024,
            r.versions_to_keep == 2,
            r.use_compression == false,
    {
        Config {
            page_size: 4096,
            page_header_size: 32,
            max_pages: 1024 * 1024 * 1024,
            max_db_size: 4 * 1024 * 1024 * 1024 * 1024,
            max_document_size: 256 * 1024 * 1024,
            page_cache_size: 1024,
            use_mmap: true,
            use_compression: false,
            versions_to_keep: 2,
        }
    }

    /// Settings a store can work with.
    pub open spec fn wf(&self) -> bool {
        &&& MIN_PAGE_SIZE <= self.page_size <= 0x1000_0000
        &&& self.page_header_size == PAGE_HEADER_SIZE
        &&& 1 <= self.max_pages <= 0x1_0000_0000_0000
        &&& self.max_db_size <= 0x1000_0000_0000_0000
        &&& self.page_cache_size > 0
        &&& self.versions_to_keep >= 0
        &&& self.page_size <= self.max_db_size
    }

    /// Whether a file of `t` pages is within the page and byte limits.
    pub open spec fn fits(&self, t: int) -> bool {
        t <= self.max_pages && t * self.page_size <= self.max_db_size
    }

    /// The most pages the file may hold.
    pub open spec fn max_total(&self) -> int {
        let by_size = (self.max_db_size / self.page_size) as int;
        if (self.max_pages as int) < by_size {
            self.max_pages as int
        } else {
            by_size
        }
    }

    pub proof fn lemma_fits(&self, t: int)
        requires
            self.wf(),
            t >= 0,
        ensures
            self.fits(t) <==> t <= self.max_total(),
            1 <= self.max_total(),
    {
        let ps = self.page_size as int;
        let m = self.max_db_size as int;
        assert(t * ps <= m <==> t <= m / ps) by (nonlinear_arith)
            requires
                ps > 0,
                t >= 0,
                m >= 0,
        {
            if t * ps <= m {
                assert(t <= m / ps);
            }
            if t <= m / ps {
                assert(t * ps <= (m / ps) * ps);
            }
        }
        assert(1 <= m / ps) by (nonlinear_arith)
            requires
                ps > 0,
                ps <= m,
        ;
    }

    /// Payload bytes per page.
    pub open spec fn capacity(&self) -> int {
        self.page_size - self.page_header_size
    }

    /// Page ids one free-list page can list.
    pub open spec fn free_list_capacity(&self) -> int {
        (self.page_size - self.page_header_size - FREE_LIST_HEADER_SIZE) / 8
    }

    pub fn chunk_size(&self) -> (r: usize)
        requires
            self.wf(),
        ensures
            r == self.capacity(),
            r > 0,
    {
        (self.page_size - self.page_header_size) as usize
    }

    pub fn free_list_entries(&self) -> (r: usize)
        requires
            self.wf(),
        ensures
            r == self.free_list_capacity(),
            r >= BATCH_GROW_PAGES,
    {
        ((self.page_size - self.page_header_size - FREE_LIST_HEADER_SIZE as u64) / 8) as usize
    }
}

impl Default for Config {
    fn default() -> (r: Config)
        ensures
            r.wf(),
            r.page_size == 4096,
            r.versions_to_keep == 2,
    {
        Config::default_config()
    }
}

} // verus!
