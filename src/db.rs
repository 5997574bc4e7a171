//! The store's public face: documents in page chains, paths in a reverse
//! trie, a write-ahead log of logical records, and single-writer transactions.
use vstd::prelude::*;
use crate::chain::{
    chain_bytes, chain_distinct, chain_readable, chain_in_use, holds, read_chain, release_chain,
    write_chain, same_reads, lemma_chain_frame,
};
use crate::config::Config;
use crate::error::StreamDbError;
use crate::model::{WalRecord, Docs, Paths, valid_path, paths_without, step, no_docs, no_paths};
use crate::pager::CacheStats;
use crate::store::{Store, is_released, lemma_store_cfg};
use crate::trie::Trie;

verus! {

/// An earlier version of a document, kept until collected.
pub struct Version {
    pub version: i32,
    pub pages: Vec<i64>,
}

/// A document: its id, current version and chain, and retained versions,
/// oldest first.
pub struct Document {
    pub id: u128,
    pub current_version: i32,
    pub pages: Vec<i64>,
    pub retained: Vec<Version>,
}

/// Chain `k` of a document: the current one for `k == -1`, else retained version `k`.
pub open spec fn chain_of(d: Document, k: int) -> Seq<i64> {
    if k < 0 {
        d.pages@
    } else {
        d.retained@[k].pages@
    }
}

pub open spec fn version_of(d: Document, k: int) -> int {
    if k < 0 {
        d.current_version as int
    } else {
        d.retained@[k].version as int
    }
}

pub open spec fn valid_k(d: Document, k: int) -> bool {
    -1 <= k < d.retained@.len()
}

/// The key under which a path is indexed: its bytes reversed.
pub open spec fn key_of(p: Seq<u8>) -> Seq<u8> {
    p.reverse()
}

pub proof fn lemma_reverse_twice(p: Seq<u8>)
    ensures
        p.reverse().reverse() == p,
        p.reverse().len() == p.len(),
{
    assert(p.reverse().reverse() =~= p);
}

/// Whether `p` is one of the listed paths.
pub open spec fn listed(v: Seq<Vec<u8>>, p: Seq<u8>) -> bool {
    exists|i: int| 0 <= i < v.len() && #[trigger] v[i]@ == p
}

/// Whether path `p` matches a search for `q`: `q` starts or ends it.
pub open spec fn search_match(q: Seq<u8>, p: Seq<u8>) -> bool {
    q.is_prefix_of(p) || q.is_suffix_of(p)
}

/// An embedded document store.
pub struct StreamDb {
    store: Store,
    docs: Vec<Document>,
    trie: Trie,
    quick_mode: bool,
    staging: Option<Vec<WalRecord>>,
    wal: Vec<WalRecord>,
    path_cache: lru::LruCache<Vec<u8>, u128>,
    owner: Ghost<Map<int, (u128, int)>>,
}

impl StreamDb {
    pub closed spec fn wf(&self) -> bool {
        let docs = self.docs@;
        let cfg = self.store.cfg();
        &&& self.store.wf()
        &&& self.trie.wf()
        &&& forall|a: int, b: int|
            0 <= a < docs.len() && 0 <= b < docs.len() && a != b ==> #[trigger] docs[a].id
                != #[trigger] docs[b].id
        &&& forall|d: int, k: int|
            0 <= d < docs.len() && valid_k(docs[d], k) ==> {
                &&& chain_distinct(#[trigger] chain_of(docs[d], k))
                &&& chain_readable(cfg, self.store.pages(), chain_of(docs[d], k))
                &&& chain_in_use(self.store, chain_of(docs[d], k))
            }
        &&& forall|d: int, k: int, t: int|
            0 <= d < docs.len() && valid_k(docs[d], k) && 0 <= t < chain_of(docs[d], k).len()
                ==> self.owner@.contains_key(#[trigger] chain_of(docs[d], k)[t] as int)
                && self.owner@[chain_of(docs[d], k)[t] as int] == (docs[d].id, version_of(docs[d], k))
        &&& forall|d: int, k1: int, k2: int|
            0 <= d < docs.len() && valid_k(docs[d], k1) && valid_k(docs[d], k2) && k1 != k2
                ==> #[trigger] version_of(docs[d], k1) != #[trigger] version_of(docs[d], k2)
        &&& forall|d: int, k: int|
            0 <= d < docs.len() && 0 <= k < docs[d].retained@.len() ==> #[trigger] docs[d].retained@[k].version
                < docs[d].current_version
        &&& forall|q: int| #[trigger]
            self.store.in_use(q) ==> exists|d: int, k: int, t: int|
                0 <= d < docs.len() && valid_k(docs[d], k) && 0 <= t < chain_of(docs[d], k).len()
                    && #[trigger] chain_of(docs[d], k)[t] as int == q
        &&& forall|key: Seq<u8>| #[trigger]
            self.trie@.contains_key(key) ==> exists|d: int|
                0 <= d < docs.len() && #[trigger] docs[d].id == self.trie@[key]
        &&& forall|key: Seq<u8>| #[trigger] self.trie@.contains_key(key) ==> valid_path(key_of(key))
        &&& self.cache_agrees()
    }

    /// Every cached path is bound, to the cached document.
    pub closed spec fn cache_agrees(&self) -> bool {
        forall|p: Seq<u8>| #[trigger] cached_ids(self.path_cache).contains_key(p) ==> self.trie@.contains_key(key_of(p))
            && self.trie@[key_of(p)] == cached_ids(self.path_cache)[p]
    }

    proof fn lemma_wf_intro(&self)
        requires
            self.store.wf(),
            self.trie.wf(),
            forall|a: int, b: int|
                0 <= a < self.docs@.len() && 0 <= b < self.docs@.len() && a != b ==> #[trigger] self.docs@[a].id
                    != #[trigger] self.docs@[b].id,
            forall|d: int, k: int|
                0 <= d < self.docs@.len() && valid_k(self.docs@[d], k) ==> {
                    &&& chain_distinct(#[trigger] chain_of(self.docs@[d], k))
                    &&& chain_readable(self.store.cfg(), self.store.pages(), chain_of(self.docs@[d], k))
                    &&& chain_in_use(self.store, chain_of(self.docs@[d], k))
                },
            forall|d: int, k: int, t: int|
                0 <= d < self.docs@.len() && valid_k(self.docs@[d], k) && 0 <= t < chain_of(self.docs@[d], k).len()
                    ==> self.owner@.contains_key(#[trigger] chain_of(self.docs@[d], k)[t] as int)
                    && self.owner@[chain_of(self.docs@[d], k)[t] as int] == (self.docs@[d].id, version_of(self.docs@[d], k)),
            forall|d: int, k1: int, k2: int|
                0 <= d < self.docs@.len() && valid_k(self.docs@[d], k1) && valid_k(self.docs@[d], k2) && k1 != k2
                    ==> #[trigger] version_of(self.docs@[d], k1) != #[trigger] version_of(self.docs@[d], k2),
            forall|d: int, k: int|
                0 <= d < self.docs@.len() && 0 <= k < self.docs@[d].retained@.len() ==> #[trigger] self.docs@[d].retained@[k].version
                    < self.docs@[d].current_version,
            forall|q: int| #[trigger]
                self.store.in_use(q) ==> exists|d: int, k: int, t: int|
                    0 <= d < self.docs@.len() && valid_k(self.docs@[d], k) && 0 <= t < chain_of(self.docs@[d], k).len()
                        && #[trigger] chain_of(self.docs@[d], k)[t] as int == q,
            forall|key: Seq<u8>| #[trigger]
                self.trie@.contains_key(key) ==> exists|d: int|
                    0 <= d < self.docs@.len() && #[trigger] self.docs@[d].id == self.trie@[key],
            forall|key: Seq<u8>| #[trigger] self.trie@.contains_key(key) ==> valid_path(key_of(key)),
            self.cache_agrees(),
        ensures
            self.wf(),
    {
    }

    /// Where a document sits in the table.
    pub closed spec fn index_of(&self, id: u128) -> int {
        choose|d: int| 0 <= d < self.docs@.len() && self.docs@[d].id == id
    }

    pub closed spec fn has_doc(&self, id: u128) -> bool {
        exists|d: int| 0 <= d < self.docs@.len() && #[trigger] self.docs@[d].id == id
    }

    /// The committed documents, by id.
    pub closed spec fn documents(&self) -> Docs {
        Map::new(
            |id: u128| self.has_doc(id),
            |id: u128| chain_bytes(self.store.cfg(), self.store.pages(), self.docs@[self.index_of(id)].pages@),
        )
    }

    /// The committed path bindings.
    pub closed spec fn paths(&self) -> Paths {
        Map::new(
            |p: Seq<u8>| self.trie@.contains_key(key_of(p)),
            |p: Seq<u8>| self.trie@[key_of(p)],
        )
    }

    pub closed spec fn cfg(&self) -> Config {
        self.store.cfg()
    }

    /// Records logged since the last checkpoint.
    pub closed spec fn log(&self) -> Seq<WalRecord> {
        self.wal@
    }

    /// Records staged by the open transaction, if one is open.
    pub closed spec fn staged(&self) -> Option<Seq<WalRecord>> {
        match self.staging {
            Some(v) => Some(v@),
            None => None,
        }
    }

    /// Pages that can still be handed out: free ids plus the pages the file
    /// may still grow by.
    pub closed spec fn room(&self) -> int {
        self.store.capacity()
    }

    /// The current version number of a document.
    pub closed spec fn version(&self, id: u128) -> int {
        self.docs@[self.index_of(id)].current_version as int
    }

    /// Page ids listed on the free list.
    pub closed spec fn free_page_count(&self) -> int {
        crate::store::free_count(self.store.chain())
    }

    /// Pages in the file, header page included.
    pub closed spec fn page_total(&self) -> int {
        self.store.total()
    }

    pub closed spec fn cache_stats_view(&self) -> CacheStats {
        self.store.stats_view()
    }

    pub closed spec fn quick(&self) -> bool {
        self.quick_mode
    }

    /// An empty store over a fresh one-page file.
    pub fn new(config: Config) -> (r: StreamDb)
        requires
            config.wf(),
        ensures
            r.wf(),
            r.cfg() == config,
            r.documents() == no_docs(),
            r.paths() == no_paths(),
            r.log().len() == 0,
            r.staged() is None,
            !r.quick(),
    {
        let db = StreamDb {
            store: Store::new(config),
            docs: Vec::new(),
            trie: Trie::new(),
            quick_mode: false,
            staging: None,
            wal: Vec::new(),
            path_cache: path_cache_new(config.page_cache_size),
            owner: Ghost(Map::empty()),
        };
        proof {
            assert(db.documents() =~= Map::<u128, Seq<u8>>::empty());
            assert(db.paths() =~= Map::<Seq<u8>, u128>::empty());
            assert forall|q: int| #[trigger] db.store.in_use(q) implies false by {
                assert(db.store.total() == 1);
            }
        }
        db
    }

    proof fn lemma_doc_index(&self, d: int)
        requires
            self.wf(),
            0 <= d < self.docs@.len(),
        ensures
            self.has_doc(self.docs@[d].id),
            self.index_of(self.docs@[d].id) == d,
    {
        let id = self.docs@[d].id;
        assert(self.has_doc(id));
        let e = self.index_of(id);
        if e != d {
            assert(self.docs@[e].id != self.docs@[d].id);
        }
    }

    /// The document bound to a path: `None` when the path is unbound,
    /// `InvalidInput` when it is not a valid path.
    fn lookup(&self, path: &[u8]) -> (r: Result<Option<u128>, StreamDbError>)
        requires
            self.wf(),
        ensures
            !valid_path(path@) ==> (r matches Err(StreamDbError::InvalidInput)),
            valid_path(path@) ==> (r matches Ok(o) && o == (if self.paths().contains_key(path@) {
                Some(self.paths()[path@])
            } else {
                None
            })),
    {
        if !validate_path(path) {
            return Err(StreamDbError::InvalidInput);
        }
        let key = reversed(path);
        Ok(self.trie.get(key.as_slice()))
    }

    /// The document bound to a path, through the path cache: `None` when the
    /// path is unbound, `InvalidInput` when it is not a valid path.
    pub fn get_id_by_path(&mut self, path: &[u8]) -> (r: Result<Option<u128>, StreamDbError>)
        requires
            old(self).wf(),
        ensures
            final(self).wf(),
            final(self).documents() == old(self).documents(),
            final(self).paths() == old(self).paths(),
            final(self).log() == old(self).log(),
            final(self).staged() == old(self).staged(),
            final(self).cfg() == old(self).cfg(),
            final(self).quick() == old(self).quick(),
            !valid_path(path@) ==> (r matches Err(StreamDbError::InvalidInput)),
            valid_path(path@) ==> (r matches Ok(o) && o == (if old(self).paths().contains_key(path@) {
                Some(old(self).paths()[path@])
            } else {
                None
            })),
    {
        if !validate_path(path) {
            return Err(StreamDbError::InvalidInput);
        }
        let ghost prev = *self;
        let hit = path_cache_get(&mut self.path_cache, path);
        proof {
            self.lemma_wf_cache_same(prev);
        }
        if let Some(id) = hit {
            return Ok(Some(id));
        }
        let found = self.lookup(path);
        if let Ok(Some(id)) = found {
            let ghost mid = *self;
            path_cache_put(&mut self.path_cache, vstd::slice::slice_to_vec(path), id);
            proof {
                assert forall|p: Seq<u8>| #[trigger] cached_ids(self.path_cache).contains_key(p) implies self.trie@.contains_key(key_of(p))
                    && self.trie@[key_of(p)] == cached_ids(self.path_cache)[p] by {
                    if p != path@ {
                        assert(cached_ids(mid.path_cache).contains_key(p));
                    }
                }
                self.lemma_wf_cache_swap(mid);
            }
        }
        found
    }

    /// Changing only the path cache, while it still agrees with the trie,
    /// keeps the invariant and everything the contracts see.
    proof fn lemma_wf_cache_swap(&self, prev: StreamDb)
        requires
            prev.wf(),
            self.store == prev.store,
            self.docs == prev.docs,
            self.trie == prev.trie,
            self.owner == prev.owner,
            self.wal == prev.wal,
            self.staging == prev.staging,
            self.quick_mode == prev.quick_mode,
            self.cache_agrees(),
        ensures
            self.wf(),
            self.documents() == prev.documents(),
            self.paths() == prev.paths(),
            self.log() == prev.log(),
            self.staged() == prev.staged(),
            self.cfg() == prev.cfg(),
            self.quick() == prev.quick(),
    {
        assert(self.documents() =~= prev.documents());
        assert(self.paths() =~= prev.paths());
    }

    proof fn lemma_wf_cache_same(&self, prev: StreamDb)
        requires
            prev.wf(),
            self.store == prev.store,
            self.docs == prev.docs,
            self.trie == prev.trie,
            self.owner == prev.owner,
            self.wal == prev.wal,
            self.staging == prev.staging,
            self.quick_mode == prev.quick_mode,
            cached_ids(self.path_cache) == cached_ids(prev.path_cache),
        ensures
            self.wf(),
            self.documents() == prev.documents(),
            self.paths() == prev.paths(),
            self.log() == prev.log(),
            self.staged() == prev.staged(),
            self.cfg() == prev.cfg(),
            self.quick() == prev.quick(),
    {
        self.lemma_wf_cache_swap(prev);
    }

    /// The current bytes of a document; with `quick`, page checksums are not
    /// verified.
    pub fn read_document_quick(&mut self, id: u128, quick: bool) -> (r: Result<Vec<u8>, StreamDbError>)
        requires
            old(self).wf(),
        ensures
            final(self).wf(),
            final(self).documents() == old(self).documents(),
            final(self).paths() == old(self).paths(),
            final(self).log() == old(self).log(),
            final(self).staged() == old(self).staged(),
            final(self).cfg() == old(self).cfg(),
            final(self).quick() == old(self).quick(),
            !old(self).documents().contains_key(id) ==> (r matches Err(StreamDbError::NotFound)),
            old(self).documents().contains_key(id) ==> (r matches Ok(v) && v@ == old(self).documents()[id]),
    {
        let d = match self.find(id) {
            Some(d) => d,
            None => {
                return Err(StreamDbError::NotFound);
            },
        };
        let ghost prev = *self;
        proof {
            assert(valid_k(self.docs@[d as int], -1));
            assert(chain_of(self.docs@[d as int], -1) == self.docs@[d as int].pages@);
            assert forall|t: int| 0 <= t < self.docs@[d as int].pages@.len() implies 0 <= #[trigger] self.docs@[d as int].pages@[t] < self.store.total() by {
                assert(self.store.in_use(chain_of(self.docs@[d as int], -1)[t] as int));
            }
        }
        let r = read_chain(&mut self.store, &self.docs[d].pages, quick);
        proof {
            self.lemma_same_store(prev);
        }
        r
    }

    /// The current bytes of a document, verified unless quick mode is on.
    pub fn read_document(&mut self, id: u128) -> (r: Result<Vec<u8>, StreamDbError>)
        requires
            old(self).wf(),
        ensures
            final(self).wf(),
            final(self).documents() == old(self).documents(),
            final(self).paths() == old(self).paths(),
            final(self).log() == old(self).log(),
            final(self).staged() == old(self).staged(),
            final(self).cfg() == old(self).cfg(),
            final(self).quick() == old(self).quick(),
            !old(self).documents().contains_key(id) ==> (r matches Err(StreamDbError::NotFound)),
            old(self).documents().contains_key(id) ==> (r matches Ok(v) && v@ == old(self).documents()[id]),
    {
        let quick = self.quick_mode;
        self.read_document_quick(id, quick)
    }

    /// The bytes of the document bound to `path`.
    pub fn get_quick(&mut self, path: &[u8], quick: bool) -> (r: Result<Vec<u8>, StreamDbError>)
        requires
            old(self).wf(),
        ensures
            final(self).wf(),
            final(self).documents() == old(self).documents(),
            final(self).paths() == old(self).paths(),
            final(self).log() == old(self).log(),
            final(self).staged() == old(self).staged(),
            final(self).cfg() == old(self).cfg(),
            final(self).quick() == old(self).quick(),
            !valid_path(path@) ==> (r matches Err(StreamDbError::InvalidInput)),
            valid_path(path@) && !old(self).paths().contains_key(path@) ==> (r matches Err(StreamDbError::NotFound)),
            valid_path(path@) && old(self).paths().contains_key(path@) ==> (r matches Ok(v) && v@
                == old(self).documents()[old(self).paths()[path@]]),
    {
        let id = match self.lookup(path) {
            Err(e) => {
                return Err(e);
            },
            Ok(None) => {
                return Err(StreamDbError::NotFound);
            },
            Ok(Some(id)) => id,
        };
        proof {
            self.lemma_bound_has_doc(path@);
        }
        self.read_document_quick(id, quick)
    }

    /// The bytes of the document bound to `path`: `NotFound` when it is unbound.
    pub fn get(&mut self, path: &[u8]) -> (r: Result<Vec<u8>, StreamDbError>)
        requires
            old(self).wf(),
        ensures
            final(self).wf(),
            final(self).documents() == old(self).documents(),
            final(self).paths() == old(self).paths(),
            final(self).log() == old(self).log(),
            final(self).staged() == old(self).staged(),
            final(self).cfg() == old(self).cfg(),
            final(self).quick() == old(self).quick(),
            !valid_path(path@) ==> (r matches Err(StreamDbError::InvalidInput)),
            valid_path(path@) && !old(self).paths().contains_key(path@) ==> (r matches Err(StreamDbError::NotFound)),
            valid_path(path@) && old(self).paths().contains_key(path@) ==> (r matches Ok(v) && v@
                == old(self).documents()[old(self).paths()[path@]]),
    {
        let quick = self.quick_mode;
        self.get_quick(path, quick)
    }

    /// A bound path's document exists.
    proof fn lemma_bound_has_doc(&self, p: Seq<u8>)
        requires
            self.wf(),
            self.paths().contains_key(p),
        ensures
            self.documents().contains_key(self.paths()[p]),
    {
        assert(self.trie@.contains_key(key_of(p)));
        let d = choose|d: int| 0 <= d < self.docs@.len() && #[trigger] self.docs@[d].id == self.trie@[key_of(p)];
        assert(self.has_doc(self.docs@[d].id));
    }

    /// Reading through the store changes nothing that the contracts see.
    proof fn lemma_same_store(&self, prev: StreamDb)
        requires
            prev.wf(),
            self.store.wf(),
            self.store.cfg() == prev.store.cfg(),
            self.store.pages() == prev.store.pages(),
            self.store.chain() == prev.store.chain(),
            self.docs == prev.docs,
            self.trie == prev.trie,
            self.owner == prev.owner,
            self.wal == prev.wal,
            self.staging == prev.staging,
            self.quick_mode == prev.quick_mode,
            self.path_cache == prev.path_cache,
        ensures
            self.wf(),
            self.documents() == prev.documents(),
            self.paths() == prev.paths(),
            self.log() == prev.log(),
            self.staged() == prev.staged(),
            self.cfg() == prev.cfg(),
            self.quick() == prev.quick(),
    {
        assert forall|q: int| #[trigger] self.store.in_use(q) == prev.store.in_use(q) by {}
        assert(self.documents() =~= prev.documents());
        assert(self.paths() =~= prev.paths());
    }

    /// Maps path bindings to trie keys and back.
    proof fn lemma_paths_insert(&self, prev: StreamDb, path: Seq<u8>, id: u128)
        requires
            self.trie@ == prev.trie@.insert(key_of(path), id),
        ensures
            self.paths() == prev.paths().insert(path, id),
    {
        assert forall|p: Seq<u8>| key_of(p) == key_of(path) implies p == path by {
            lemma_reverse_twice(p);
            lemma_reverse_twice(path);
        }
        assert(self.paths() =~= prev.paths().insert(path, id));
    }

    proof fn lemma_paths_remove(&self, prev: StreamDb, path: Seq<u8>)
        requires
            self.trie@ == prev.trie@.remove(key_of(path)),
        ensures
            self.paths() == prev.paths().remove(path),
    {
        assert forall|p: Seq<u8>| key_of(p) == key_of(path) implies p == path by {
            lemma_reverse_twice(p);
            lemma_reverse_twice(path);
        }
        assert(self.paths() =~= prev.paths().remove(path));
    }

    /// Binds a path in the committed state.
    fn apply_bind(&mut self, path: &[u8], id: u128)
        requires
            old(self).wf(),
            valid_path(path@),
            old(self).documents().contains_key(id),
        ensures
            final(self).wf(),
            final(self).paths() == old(self).paths().insert(path@, id),
            final(self).documents() == old(self).documents(),
            final(self).log() == old(self).log(),
            final(self).staged() == old(self).staged(),
            final(self).cfg() == old(self).cfg(),
            final(self).quick() == old(self).quick(),
            final(self).store_view() == old(self).store_view(),
    {
        let ghost prev = *self;
        let key = reversed(path);
        self.trie.insert(key.as_slice(), id);
        path_cache_put(&mut self.path_cache, vstd::slice::slice_to_vec(path), id);
        proof {
            assert forall|p: Seq<u8>| #[trigger] cached_ids(self.path_cache).contains_key(p) implies self.trie@.contains_key(key_of(p))
                && self.trie@[key_of(p)] == cached_ids(self.path_cache)[p] by {
                lemma_reverse_twice(p);
                lemma_reverse_twice(path@);
                if p != path@ {
                    assert(cached_ids(prev.path_cache).contains_key(p));
                    assert(key_of(p) != key_of(path@));
                }
            }
            self.lemma_paths_insert(prev, path@, id);
            assert forall|k: Seq<u8>| #[trigger] self.trie@.contains_key(k) implies exists|d: int|
                0 <= d < self.docs@.len() && #[trigger] self.docs@[d].id == self.trie@[k] by {
                if k == key@ {
                    lemma_reverse_twice(path@);
                    assert(prev.has_doc(id));
                    let d = choose|d: int| 0 <= d < prev.docs@.len() && #[trigger] prev.docs@[d].id == id;
                    assert(self.docs@[d].id == self.trie@[k]);
                } else {
                    assert(prev.trie@.contains_key(k));
                    let d = choose|d: int| 0 <= d < prev.docs@.len() && #[trigger] prev.docs@[d].id == prev.trie@[k];
                    assert(self.docs@[d].id == self.trie@[k]);
                }
            }
            assert(self.documents() =~= prev.documents());
        }
    }

    /// Unbinds a path in the committed state.
    fn apply_unbind(&mut self, path: &[u8])
        requires
            old(self).wf(),
        ensures
            final(self).wf(),
            final(self).paths() == old(self).paths().remove(path@),
            final(self).documents() == old(self).documents(),
            final(self).log() == old(self).log(),
            final(self).staged() == old(self).staged(),
            final(self).cfg() == old(self).cfg(),
            final(self).quick() == old(self).quick(),
            final(self).store_view() == old(self).store_view(),
    {
        let ghost prev = *self;
        let key = reversed(path);
        self.trie.remove(key.as_slice());
        path_cache_pop(&mut self.path_cache, path);
        proof {
            assert forall|p: Seq<u8>| #[trigger] cached_ids(self.path_cache).contains_key(p) implies self.trie@.contains_key(key_of(p))
                && self.trie@[key_of(p)] == cached_ids(self.path_cache)[p] by {
                lemma_reverse_twice(p);
                lemma_reverse_twice(path@);
                assert(cached_ids(prev.path_cache).contains_key(p));
                assert(key_of(p) != key_of(path@));
            }
            self.lemma_paths_remove(prev, path@);
            assert forall|k: Seq<u8>| #[trigger] self.trie@.contains_key(k) implies exists|d: int|
                0 <= d < self.docs@.len() && #[trigger] self.docs@[d].id == self.trie@[k] by {
                assert(prev.trie@.contains_key(k));
                let d = choose|d: int| 0 <= d < prev.docs@.len() && #[trigger] prev.docs@[d].id == prev.trie@[k];
                assert(self.docs@[d].id == self.trie@[k]);
            }
            assert(self.documents() =~= prev.documents());
        }
    }

    /// The store as the contracts see it: its pages and free list.
    pub closed spec fn store_view(&self) -> (Seq<crate::pager::Page>, Seq<crate::store::FreeListPage>) {
        (self.store.pages(), self.store.chain())
    }

    /// Adds a document with a new id, its bytes in a fresh chain.
    #[verifier::rlimit(60)]
    #[verifier::spinoff_prover]
    fn create_doc(&mut self, id: u128, data: &[u8]) -> (r: Result<(), StreamDbError>)
        requires
            old(self).wf(),
            !old(self).documents().contains_key(id),
        ensures
            final(self).wf(),
            final(self).paths() == old(self).paths(),
            final(self).log() == old(self).log(),
            final(self).staged() == old(self).staged(),
            final(self).cfg() == old(self).cfg(),
            final(self).quick() == old(self).quick(),
            r is Ok ==> final(self).documents() == old(self).documents().insert(id, data@),
            r is Err ==> old(self).room() < crate::chain::pages_needed(old(self).cfg(), data@.len() as int),
            r is Err ==> (r matches Err(StreamDbError::InvalidInput)) && final(self).documents()
                == old(self).documents(),
    {
        let ghost prev = *self;
        let res = write_chain(&mut self.store, data, 1);
        let ghost mid_store = self.store;
        proof {
            lemma_store_cfg(self.store);
            self.lemma_store_frame(prev);
        }
        let chain = match res {
            Ok(c) => c,
            Err(e) => {
                proof {
                    assert forall|q: int| #[trigger] self.store.in_use(q) implies exists|d: int, k: int, t: int|
                        0 <= d < self.docs@.len() && valid_k(self.docs@[d], k) && 0 <= t < chain_of(self.docs@[d], k).len()
                            && #[trigger] chain_of(self.docs@[d], k)[t] as int == q by {
                        assert(prev.store.in_use(q));
                    }
                    assert forall|x: u128| self.has_doc(x) implies #[trigger] self.documents()[x] == prev.documents()[x] by {
                        let d = self.index_of(x);
                        assert(valid_k(self.docs@[d], -1));
                        assert(chain_of(self.docs@[d], -1) == self.docs@[d].pages@);
                    }
                    assert(self.documents() =~= prev.documents());
                }
                return Err(e);
            },
        };
        let ghost mid = *self;
        let doc = Document { id, current_version: 1, pages: chain, retained: Vec::new() };
        self.docs.push(doc);
        proof {
            let n = prev.docs@.len() as int;
            let newc = self.docs@[n].pages@;
            let new_owner = Map::new(
                |q: int| mid.owner@.contains_key(q) || holds(newc, q),
                |q: int| if holds(newc, q) { (id, 1int) } else { mid.owner@[q] },
            );
            self.owner = Ghost(new_owner);
            let docs = self.docs@;
            assert forall|d: int| 0 <= d < n implies #[trigger] docs[d] == prev.docs@[d] by {}
            assert forall|d: int, k: int| 0 <= d < docs.len() && valid_k(docs[d], k) implies {
                &&& chain_distinct(#[trigger] chain_of(docs[d], k))
                &&& chain_readable(self.store.cfg(), self.store.pages(), chain_of(docs[d], k))
                &&& chain_in_use(self.store, chain_of(docs[d], k))
            } by {
                if d == n {
                    assert(k == -1);
                }
            }
            assert forall|d: int, k: int, t: int|
                0 <= d < docs.len() && valid_k(docs[d], k) && 0 <= t < chain_of(docs[d], k).len()
                    implies self.owner@.contains_key(#[trigger] chain_of(docs[d], k)[t] as int)
                    && self.owner@[chain_of(docs[d], k)[t] as int] == (docs[d].id, version_of(docs[d], k)) by {
                let q = chain_of(docs[d], k)[t] as int;
                if d == n {
                    assert(holds(newc, q));
                } else {
                    assert(prev.store.in_use(q));
                    assert(!holds(newc, q)) by {
                        if holds(newc, q) {
                            let u = choose|u: int| 0 <= u < newc.len() && #[trigger] newc[u] as int == q;
                            assert(!prev.store.in_use(newc[u] as int));
                        }
                    }
                }
            }
            assert forall|a: int, b: int|
                0 <= a < docs.len() && 0 <= b < docs.len() && a != b implies #[trigger] docs[a].id
                    != #[trigger] docs[b].id by {
                if a == n {
                    assert(!prev.has_doc(id));
                    assert(prev.docs@[b].id != id);
                } else if b == n {
                    assert(!prev.has_doc(id));
                    assert(prev.docs@[a].id != id);
                }
            }
            assert forall|q: int| #[trigger] self.store.in_use(q) implies exists|d: int, k: int, t: int|
                0 <= d < docs.len() && valid_k(docs[d], k) && 0 <= t < chain_of(docs[d], k).len()
                    && #[trigger] chain_of(docs[d], k)[t] as int == q by {
                if prev.store.in_use(q) {
                    let (d, k, t) = choose|d: int, k: int, t: int|
                        0 <= d < prev.docs@.len() && valid_k(prev.docs@[d], k) && 0 <= t < chain_of(prev.docs@[d], k).len()
                            && #[trigger] chain_of(prev.docs@[d], k)[t] as int == q;
                    assert(chain_of(docs[d], k)[t] as int == q);
                } else {
                    assert(holds(newc, q));
                    let u = choose|u: int| 0 <= u < newc.len() && #[trigger] newc[u] as int == q;
                    assert(chain_of(docs[n], -1)[u] as int == q);
                }
            }
            assert forall|k: Seq<u8>| #[trigger] self.trie@.contains_key(k) implies exists|d: int|
                0 <= d < docs.len() && #[trigger] docs[d].id == self.trie@[k] by {
                let d = choose|d: int| 0 <= d < prev.docs@.len() && #[trigger] prev.docs@[d].id == prev.trie@[k];
                assert(docs[d].id == self.trie@[k]);
            }
            assert(self.wf());
            assert forall|x: u128| #[trigger] self.has_doc(x) == (prev.has_doc(x) || x == id) by {
                if prev.has_doc(x) {
                    let d = choose|d: int| 0 <= d < prev.docs@.len() && #[trigger] prev.docs@[d].id == x;
                    assert(docs[d].id == x);
                }
                if x == id {
                    assert(docs[n].id == x);
                }
                if self.has_doc(x) && x != id {
                    let d = choose|d: int| 0 <= d < docs.len() && #[trigger] docs[d].id == x;
                    assert(prev.docs@[d].id == x);
                }
            }
            assert forall|x: u128| self.has_doc(x) implies #[trigger] self.documents()[x] == prev.documents().insert(id, data@)[x] by {
                if x == id {
                    self.lemma_doc_index(n);
                    assert(docs[n].pages@ == newc);
                } else {
                    let d = prev.index_of(x);
                    prev.lemma_doc_index_of(x);
                    self.lemma_doc_index(d);
                    assert(docs[d] == prev.docs@[d]);
                    assert(valid_k(mid.docs@[d], -1));
                    assert(chain_of(mid.docs@[d], -1) == prev.docs@[d].pages@);
                    assert(chain_bytes(mid.store.cfg(), mid.store.pages(), chain_of(mid.docs@[d], -1))
                        == chain_bytes(prev.store.cfg(), prev.store.pages(), chain_of(mid.docs@[d], -1)));
                }
            }
            assert(self.documents() =~= prev.documents().insert(id, data@));
            assert(self.paths() =~= prev.paths());
        }
        Ok(())
    }

    /// Gives a document its next version: the bytes go to a fresh chain and the
    /// previous chain is retained under its version number.
    #[verifier::rlimit(60)]
    #[verifier::spinoff_prover]
    fn new_version(&mut self, d: usize, data: &[u8]) -> (r: Result<(), StreamDbError>)
        requires
            old(self).wf(),
            d < old(self).docs@.len(),
        ensures
            final(self).wf(),
            final(self).paths() == old(self).paths(),
            final(self).log() == old(self).log(),
            final(self).staged() == old(self).staged(),
            final(self).cfg() == old(self).cfg(),
            final(self).quick() == old(self).quick(),
            r is Ok ==> final(self).documents() == old(self).documents().insert(
                old(self).docs@[d as int].id,
                data@,
            ),
            r is Err ==> old(self).room() < crate::chain::pages_needed(old(self).cfg(), data@.len() as int)
                || old(self).docs@[d as int].current_version == i32::MAX,
            r is Err ==> (r matches Err(StreamDbError::InvalidInput)) && final(self).documents()
                == old(self).documents(),
    {
        let ghost prev = *self;
        let cur = self.docs[d].current_version;
        let id = self.docs[d].id;
        if cur == i32::MAX {
            return Err(StreamDbError::InvalidInput);
        }
        let res = write_chain(&mut self.store, data, cur + 1);
        proof {
            lemma_store_cfg(self.store);
            self.lemma_store_frame(prev);
        }
        let chain = match res {
            Ok(c) => c,
            Err(e) => {
                proof {
                    assert forall|q: int| #[trigger] self.store.in_use(q) implies exists|e: int, k: int, t: int|
                        0 <= e < self.docs@.len() && valid_k(self.docs@[e], k) && 0 <= t < chain_of(self.docs@[e], k).len()
                            && #[trigger] chain_of(self.docs@[e], k)[t] as int == q by {
                        assert(prev.store.in_use(q));
                    }
                    assert forall|x: u128| self.has_doc(x) implies #[trigger] self.documents()[x] == prev.documents()[x] by {
                        let e = self.index_of(x);
                        assert(valid_k(self.docs@[e], -1));
                        assert(chain_of(self.docs@[e], -1) == self.docs@[e].pages@);
                    }
                    assert(self.documents() =~= prev.documents());
                }
                return Err(e);
            },
        };
        let ghost mid = *self;
        let old_doc = self.docs.remove(d);
        let Document { id: _, current_version: _, pages: old_pages, retained } = old_doc;
        let mut retained = retained;
        let ghost old_retained = retained@;
        retained.push(Version { version: cur, pages: old_pages });
        let new_doc = Document { id, current_version: cur + 1, pages: chain, retained };
        self.docs.insert(d, new_doc);
        proof {
            let docs = self.docs@;
            let n = docs.len() as int;
            let di = d as int;
            let od = prev.docs@[di];
            let nd = docs[di];
            let newc = nd.pages@;
            assert(docs =~= prev.docs@.update(di, nd));
            assert(nd.retained@ =~= od.retained@.push(Version { version: cur, pages: old_pages }));
            assert forall|k: int| valid_k(nd, k) && k >= 0 implies #[trigger] chain_of(nd, k) == (if k
                < od.retained@.len() {
                chain_of(od, k)
            } else {
                chain_of(od, -1)
            }) && version_of(nd, k) == (if k < od.retained@.len() {
                version_of(od, k)
            } else {
                version_of(od, -1)
            }) by {}
            let new_owner = Map::new(
                |q: int| mid.owner@.contains_key(q) || holds(newc, q),
                |q: int| if holds(newc, q) { (id, cur + 1) } else { mid.owner@[q] },
            );
            self.owner = Ghost(new_owner);
            assert(self.docs@ == docs);
            assert forall|e: int, k: int| 0 <= e < n && valid_k(docs[e], k) implies {
                &&& chain_distinct(#[trigger] chain_of(docs[e], k))
                &&& chain_readable(self.store.cfg(), self.store.pages(), chain_of(docs[e], k))
                &&& chain_in_use(self.store, chain_of(docs[e], k))
            } by {
                if e == di && k >= 0 {
                    if k < od.retained@.len() {
                        assert(valid_k(mid.docs@[di], k));
                    } else {
                        assert(valid_k(mid.docs@[di], -1));
                    }
                } else if e != di {
                    assert(docs[e] == mid.docs@[e]);
                }
            }
            assert forall|e: int, k: int, t: int|
                0 <= e < n && valid_k(docs[e], k) && 0 <= t < chain_of(docs[e], k).len()
                    implies self.owner@.contains_key(#[trigger] chain_of(docs[e], k)[t] as int)
                    && self.owner@[chain_of(docs[e], k)[t] as int] == (docs[e].id, version_of(docs[e], k)) by {
                let q = chain_of(docs[e], k)[t] as int;
                if e == di && k == -1 {
                    assert(holds(newc, q));
                } else {
                    let (e0, k0) = if e == di {
                        if k < od.retained@.len() { (di, k) } else { (di, -1int) }
                    } else {
                        (e, k)
                    };
                    assert(valid_k(prev.docs@[e0], k0));
                    assert(chain_of(prev.docs@[e0], k0)[t] as int == q);
                    assert(prev.store.in_use(q));
                    assert(!holds(newc, q)) by {
                        if holds(newc, q) {
                            let u = choose|u: int| 0 <= u < newc.len() && #[trigger] newc[u] as int == q;
                            assert(!prev.store.in_use(newc[u] as int));
                        }
                    }
                }
            }
            assert forall|a: int, b: int|
                0 <= a < n && 0 <= b < n && a != b implies #[trigger] docs[a].id != #[trigger] docs[b].id by {
                assert(prev.docs@[a].id != prev.docs@[b].id);
            }
            assert forall|e: int, k1: int, k2: int|
                0 <= e < n && valid_k(docs[e], k1) && valid_k(docs[e], k2) && k1 != k2
                    implies #[trigger] version_of(docs[e], k1) != #[trigger] version_of(docs[e], k2) by {
                if e == di {
                    let m = od.retained@.len() as int;
                    let j1 = if k1 == -1 { -2int } else if k1 < m { k1 } else { -1int };
                    let j2 = if k2 == -1 { -2int } else if k2 < m { k2 } else { -1int };
                    if j1 != -2 && j2 != -2 {
                        assert(valid_k(od, j1) && valid_k(od, j2));
                        assert(version_of(od, j1) != version_of(od, j2));
                    } else if j1 == -2 && j2 >= 0 {
                        assert(od.retained@[j2].version < od.current_version);
                    } else if j2 == -2 && j1 >= 0 {
                        assert(od.retained@[j1].version < od.current_version);
                    }
                }
            }
            assert forall|e: int, k: int|
                0 <= e < n && 0 <= k < docs[e].retained@.len() implies #[trigger] docs[e].retained@[k].version
                    < docs[e].current_version by {
                if e == di {
                    assert(docs[e] == nd);
                    assert(od.current_version == cur);
                    if k < od.retained@.len() {
                        assert(nd.retained@[k] == od.retained@[k]);
                        assert(od.retained@[k].version < od.current_version);
                    } else {
                        assert(nd.retained@[k].version == cur);
                    }
                    assert(nd.current_version == cur + 1);
                    assert(docs[e].retained@[k].version < docs[e].current_version);
                } else {
                    assert(docs[e] == prev.docs@[e]);
                    assert(prev.docs@[e].retained@[k].version < prev.docs@[e].current_version);
                }
            }
            assert forall|q: int| #[trigger] self.store.in_use(q) implies exists|e: int, k: int, t: int|
                0 <= e < n && valid_k(docs[e], k) && 0 <= t < chain_of(docs[e], k).len()
                    && #[trigger] chain_of(docs[e], k)[t] as int == q by {
                if prev.store.in_use(q) {
                    let (e, k, t) = choose|e: int, k: int, t: int|
                        0 <= e < prev.docs@.len() && valid_k(prev.docs@[e], k) && 0 <= t < chain_of(prev.docs@[e], k).len()
                            && #[trigger] chain_of(prev.docs@[e], k)[t] as int == q;
                    if e == di {
                        let k2 = if k == -1 { od.retained@.len() as int } else { k };
                        assert(chain_of(docs[e], k2)[t] as int == q);
                    } else {
                        assert(chain_of(docs[e], k)[t] as int == q);
                    }
                } else {
                    assert(holds(newc, q));
                    let u = choose|u: int| 0 <= u < newc.len() && #[trigger] newc[u] as int == q;
                    assert(chain_of(docs[di], -1)[u] as int == q);
                }
            }
            assert forall|k: Seq<u8>| #[trigger] self.trie@.contains_key(k) implies exists|e: int|
                0 <= e < n && #[trigger] docs[e].id == self.trie@[k] by {
                let e = choose|e: int| 0 <= e < prev.docs@.len() && #[trigger] prev.docs@[e].id == prev.trie@[k];
                assert(docs[e].id == self.trie@[k]);
            }
            assert(self.cache_agrees()) by {
                assert(prev.cache_agrees());
            }
            self.lemma_wf_intro();
            assert forall|x: u128| #[trigger] self.has_doc(x) == prev.has_doc(x) by {
                if prev.has_doc(x) {
                    let e = choose|e: int| 0 <= e < prev.docs@.len() && #[trigger] prev.docs@[e].id == x;
                    assert(docs[e].id == x);
                }
                if self.has_doc(x) {
                    let e = choose|e: int| 0 <= e < n && #[trigger] docs[e].id == x;
                    assert(prev.docs@[e].id == x);
                }
            }
            prev.lemma_doc_index(di);
            assert forall|x: u128| self.has_doc(x) implies #[trigger] self.documents()[x] == prev.documents().insert(id, data@)[x] by {
                if x == id {
                    self.lemma_doc_index(di);
                } else {
                    let e = prev.index_of(x);
                    prev.lemma_doc_index_of(x);
                    self.lemma_doc_index(e);
                    assert(e != di);
                    assert(docs[e] == prev.docs@[e]);
                    assert(valid_k(mid.docs@[e], -1));
                    assert(chain_of(mid.docs@[e], -1) == prev.docs@[e].pages@);
                    assert(chain_bytes(mid.store.cfg(), mid.store.pages(), chain_of(mid.docs@[e], -1))
                        == chain_bytes(prev.store.cfg(), prev.store.pages(), chain_of(mid.docs@[e], -1)));
                }
            }
            assert(self.documents() =~= prev.documents().insert(id, data@));
            assert(self.paths() =~= prev.paths());
        }
        Ok(())
    }

    /// Removes document `d` with all its versions and paths; its pages go back
    /// to the free list.
    #[verifier::rlimit(60)]
    #[verifier::spinoff_prover]
    fn delete_doc(&mut self, d: usize)
        requires
            old(self).wf(),
            d < old(self).docs@.len(),
        ensures
            final(self).wf(),
            final(self).documents() == old(self).documents().remove(old(self).docs@[d as int].id),
            final(self).paths() == paths_without(old(self).paths(), old(self).docs@[d as int].id),
            final(self).log() == old(self).log(),
            final(self).staged() == old(self).staged(),
            final(self).cfg() == old(self).cfg(),
            final(self).quick() == old(self).quick(),
            forall|q: int| #[trigger] old(self).page_of_doc(old(self).docs@[d as int].id, q) ==> is_released(final(self).store, q),
    {
        let ghost prev = *self;
        let doc = self.docs.remove(d);
        let id = doc.id;
        let ghost di = d as int;
        proof {
            assert(doc == prev.docs@[di]);
            assert(valid_k(doc, -1));
            assert(chain_of(doc, -1) == doc.pages@);
        }
        release_chain(&mut self.store, &doc.pages);
        let mut k: usize = 0;
        while k < doc.retained.len()
            invariant
                prev.wf(),
                doc == prev.docs@[di],
                id == doc.id,
                0 <= di < prev.docs@.len(),
                self.docs@ == prev.docs@.remove(di),
                self.trie == prev.trie,
                self.owner == prev.owner,
                self.wal == prev.wal,
                self.staging == prev.staging,
                self.quick_mode == prev.quick_mode,
                self.store.wf(),
                self.store.cfg() == prev.store.cfg(),
                self.store.total() >= prev.store.total(),
                k <= doc.retained@.len(),
                forall|q: int| #[trigger] self.store.in_use(q) <==> prev.store.in_use(q) && !(holds(doc.pages@, q) || exists|j: int| 0 <= j < k && #[trigger] holds(chain_of(doc, j), q)),
                forall|q: int| #[trigger] self.store.in_use(q) ==> self.store.pages()[q] == prev.store.pages()[q],
            decreases doc.retained@.len() - k,
        {
            let ghost before = self.store;
            proof {
                assert(valid_k(doc, k as int));
                let c = chain_of(doc, k as int);
                assert(c == doc.retained@[k as int].pages@);
                assert forall|t: int| 0 <= t < c.len() implies #[trigger] self.store.in_use(c[t] as int) by {
                    let q = c[t] as int;
                    assert(valid_k(prev.docs@[di], k as int));
                    assert(prev.docs@[di].id == id);
                    assert(0 <= t < chain_of(prev.docs@[di], k as int).len());
                    assert(chain_of(prev.docs@[di], k as int)[t] == c[t]);
                    assert(prev.owner@.contains_key(chain_of(prev.docs@[di], k as int)[t] as int));
                    assert(prev.store.in_use(q));
                    assert(prev.owner@[q] == (id, version_of(doc, k as int)));
                    if holds(doc.pages@, q) {
                        let u = choose|u: int| 0 <= u < doc.pages@.len() && #[trigger] doc.pages@[u] as int == q;
                        assert(chain_of(doc, -1)[u] as int == q);
                        assert(prev.owner@[q] == (id, version_of(doc, -1)));
                    }
                    if exists|j: int| 0 <= j < k && #[trigger] holds(chain_of(doc, j), q) {
                        let j = choose|j: int| 0 <= j < k && #[trigger] holds(chain_of(doc, j), q);
                        let u = choose|u: int| 0 <= u < chain_of(doc, j).len() && #[trigger] chain_of(doc, j)[u] as int == q;
                        assert(valid_k(doc, j));
                        assert(prev.owner@[q] == (id, version_of(doc, j)));
                    }
                }
            }
            release_chain(&mut self.store, &doc.retained[k].pages);
            proof {
                assert forall|q: int| #[trigger] self.store.in_use(q) <==> prev.store.in_use(q) && !(holds(doc.pages@, q) || exists|j: int| 0 <= j < k + 1 && #[trigger] holds(chain_of(doc, j), q)) by {
                    if exists|j: int| 0 <= j < k && #[trigger] holds(chain_of(doc, j), q) {
                        let j = choose|j: int| 0 <= j < k && #[trigger] holds(chain_of(doc, j), q);
                        assert(0 <= j < k + 1 && holds(chain_of(doc, j), q));
                    }
                    if holds(chain_of(doc, k as int), q) {
                        assert(0 <= k < k + 1);
                    }
                    if exists|j: int| 0 <= j < k + 1 && #[trigger] holds(chain_of(doc, j), q) {
                        let j = choose|j: int| 0 <= j < k + 1 && #[trigger] holds(chain_of(doc, j), q);
                        if j < k {
                            assert(exists|j: int| 0 <= j < k && #[trigger] holds(chain_of(doc, j), q));
                        }
                    }
                }
            }
            k = k + 1;
        }
        let ghost mid = *self;
        // every path of the document is unbound
        let entries = self.trie.entries();
        let mut i: usize = 0;
        while i < entries.len()
            invariant
                self.trie.wf(),
                self.docs == mid.docs,
                self.store == mid.store,
                self.owner == mid.owner,
                self.wal == mid.wal,
                self.staging == mid.staging,
                self.quick_mode == mid.quick_mode,
                i <= entries@.len(),
                forall|j: int| 0 <= j < entries@.len() ==> prev.trie@.contains_key(#[trigger] entries@[j].0@) && prev.trie@[entries@[j].0@] == entries@[j].1,
                forall|key: Seq<u8>| #[trigger] prev.trie@.contains_key(key) ==> exists|j: int| 0 <= j < entries@.len() && entries@[j].0@ == key,
                forall|key: Seq<u8>| #[trigger] self.trie@.contains_key(key) <==> prev.trie@.contains_key(key) && !(prev.trie@[key] == id && exists|j: int| 0 <= j < i && #[trigger] entries@[j].0@ == key),
                forall|key: Seq<u8>| #[trigger] self.trie@.contains_key(key) ==> self.trie@[key] == prev.trie@[key],
            decreases entries@.len() - i,
        {
            if entries[i].1 == id {
                self.trie.remove(entries[i].0.as_slice());
            }
            proof {
                assert forall|key: Seq<u8>| #[trigger] self.trie@.contains_key(key) <==> prev.trie@.contains_key(key) && !(prev.trie@[key] == id && exists|j: int| 0 <= j < i + 1 && #[trigger] entries@[j].0@ == key) by {
                    if exists|j: int| 0 <= j < i && #[trigger] entries@[j].0@ == key {
                        let j = choose|j: int| 0 <= j < i && #[trigger] entries@[j].0@ == key;
                        assert(0 <= j < i + 1 && entries@[j].0@ == key);
                    }
                    if exists|j: int| 0 <= j < i + 1 && #[trigger] entries@[j].0@ == key {
                        let j = choose|j: int| 0 <= j < i + 1 && #[trigger] entries@[j].0@ == key;
                        if j < i {
                            assert(exists|j: int| 0 <= j < i && #[trigger] entries@[j].0@ == key);
                        }
                    }
                    if entries@[i as int].0@ == key {
                        assert(0 <= i < i + 1);
                    }
                }
            }
            i = i + 1;
        }
        path_cache_clear(&mut self.path_cache);
        proof {
            let docs = self.docs@;
            let pd = prev.docs@;
            let n = docs.len() as int;
            assert forall|e: int| 0 <= e < n implies #[trigger] docs[e] == pd[if e < di { e } else { e + 1 }] by {}
            // the document's own chains are gone from use; other chains stay
            assert forall|e: int, k: int, t: int|
                0 <= e < pd.len() && e != di && valid_k(pd[e], k) && 0 <= t < chain_of(pd[e], k).len()
                    implies #[trigger] self.store.in_use(chain_of(pd[e], k)[t] as int) && self.store.pages()[chain_of(pd[e], k)[t] as int] == prev.store.pages()[chain_of(pd[e], k)[t] as int] by {
                let q = chain_of(pd[e], k)[t] as int;
                assert(valid_k(pd[e], k));
                assert(chain_in_use(prev.store, chain_of(pd[e], k)));
                assert(prev.store.in_use(q));
                assert(prev.owner@[q] == (pd[e].id, version_of(pd[e], k)));
                assert(pd[e].id != id);
                if holds(doc.pages@, q) {
                    let u = choose|u: int| 0 <= u < doc.pages@.len() && #[trigger] doc.pages@[u] as int == q;
                    assert(chain_of(doc, -1)[u] as int == q);
                }
                if exists|j: int| 0 <= j < doc.retained@.len() && #[trigger] holds(chain_of(doc, j), q) {
                    let j = choose|j: int| 0 <= j < doc.retained@.len() && #[trigger] holds(chain_of(doc, j), q);
                    let u = choose|u: int| 0 <= u < chain_of(doc, j).len() && #[trigger] chain_of(doc, j)[u] as int == q;
                    assert(valid_k(doc, j));
                }
            }
            assert forall|e: int, k: int| 0 <= e < n && valid_k(docs[e], k) implies {
                &&& chain_distinct(#[trigger] chain_of(docs[e], k))
                &&& chain_readable(self.store.cfg(), self.store.pages(), chain_of(docs[e], k))
                &&& chain_in_use(self.store, chain_of(docs[e], k))
            } by {
                let e0 = if e < di { e } else { e + 1 };
                let c = chain_of(pd[e0], k);
                assert(docs[e] == pd[e0]);
                assert(valid_k(pd[e0], k));
                assert(same_reads(prev.store.cfg(), prev.store.pages(), self.store.pages(), c)) by {
                    assert forall|t: int, q: bool| 0 <= t < c.len() implies #[trigger] crate::pager::page_read(
                        prev.store.cfg(),
                        self.store.pages()[c[t] as int],
                        q,
                    ) == crate::pager::page_read(prev.store.cfg(), prev.store.pages()[c[t] as int], q) by {
                        assert(self.store.in_use(chain_of(pd[e0], k)[t] as int));
                    }
                }
                lemma_chain_frame(prev.store.cfg(), prev.store.pages(), self.store.pages(), c);
                assert forall|t: int| 0 <= t < c.len() implies #[trigger] self.store.in_use(c[t] as int) by {
                    assert(self.store.in_use(chain_of(pd[e0], k)[t] as int));
                }
            }
            assert forall|q: int| #[trigger] self.store.in_use(q) implies exists|e: int, k: int, t: int|
                0 <= e < n && valid_k(docs[e], k) && 0 <= t < chain_of(docs[e], k).len()
                    && #[trigger] chain_of(docs[e], k)[t] as int == q by {
                assert(prev.store.in_use(q));
                let (e, k, t) = choose|e: int, k: int, t: int|
                    0 <= e < pd.len() && valid_k(pd[e], k) && 0 <= t < chain_of(pd[e], k).len()
                        && #[trigger] chain_of(pd[e], k)[t] as int == q;
                if e == di {
                    if k == -1 {
                        assert(holds(doc.pages@, q));
                    } else {
                        assert(holds(chain_of(doc, k), q));
                    }
                } else {
                    let e1 = if e < di { e } else { e - 1 };
                    assert(docs[e1] == pd[e]);
                    assert(chain_of(docs[e1], k)[t] as int == q);
                }
            }
            assert forall|a: int, b: int|
                0 <= a < n && 0 <= b < n && a != b implies #[trigger] docs[a].id != #[trigger] docs[b].id by {
                let a0 = if a < di { a } else { a + 1 };
                let b0 = if b < di { b } else { b + 1 };
                assert(pd[a0].id != pd[b0].id);
            }
            assert forall|e: int, k: int, t: int|
                0 <= e < n && valid_k(docs[e], k) && 0 <= t < chain_of(docs[e], k).len()
                    implies self.owner@.contains_key(#[trigger] chain_of(docs[e], k)[t] as int)
                    && self.owner@[chain_of(docs[e], k)[t] as int] == (docs[e].id, version_of(docs[e], k)) by {
                let e0 = if e < di { e } else { e + 1 };
                assert(docs[e] == pd[e0]);
                assert(valid_k(pd[e0], k));
            }
            assert forall|e: int, k1: int, k2: int|
                0 <= e < n && valid_k(docs[e], k1) && valid_k(docs[e], k2) && k1 != k2
                    implies #[trigger] version_of(docs[e], k1) != #[trigger] version_of(docs[e], k2) by {
                let e0 = if e < di { e } else { e + 1 };
                assert(docs[e] == pd[e0]);
            }
            assert forall|e: int, k: int|
                0 <= e < n && 0 <= k < docs[e].retained@.len() implies #[trigger] docs[e].retained@[k].version
                    < docs[e].current_version by {
                let e0 = if e < di { e } else { e + 1 };
                assert(docs[e] == pd[e0]);
            }
            assert forall|key: Seq<u8>| #[trigger] self.trie@.contains_key(key) <==> prev.trie@.contains_key(key) && prev.trie@[key] != id by {
                if prev.trie@.contains_key(key) && prev.trie@[key] == id {
                    let j = choose|j: int| 0 <= j < entries@.len() && entries@[j].0@ == key;
                    assert(exists|j: int| 0 <= j < entries@.len() && #[trigger] entries@[j].0@ == key);
                }
            }
            assert forall|key: Seq<u8>| #[trigger] self.trie@.contains_key(key) implies exists|e: int|
                0 <= e < n && #[trigger] docs[e].id == self.trie@[key] by {
                let e = choose|e: int| 0 <= e < pd.len() && #[trigger] pd[e].id == prev.trie@[key];
                assert(e != di);
                let e1 = if e < di { e } else { e - 1 };
                assert(docs[e1] == pd[e]);
            }
            assert(self.wf());
            prev.lemma_doc_index(di);
            assert forall|x: u128| #[trigger] self.has_doc(x) == (prev.has_doc(x) && x != id) by {
                if prev.has_doc(x) && x != id {
                    let e = choose|e: int| 0 <= e < pd.len() && #[trigger] pd[e].id == x;
                    assert(e != di);
                    let e1 = if e < di { e } else { e - 1 };
                    assert(docs[e1].id == x);
                }
                if self.has_doc(x) {
                    let e = choose|e: int| 0 <= e < n && #[trigger] docs[e].id == x;
                    let e0 = if e < di { e } else { e + 1 };
                    assert(pd[e0].id == x);
                    assert(e0 != di);
                }
            }
            assert forall|x: u128| self.has_doc(x) implies #[trigger] self.documents()[x] == prev.documents()[x] by {
                let e0 = prev.index_of(x);
                prev.lemma_doc_index_of(x);
                let e1 = if e0 < di { e0 } else { e0 - 1 };
                assert(e0 != di);
                assert(docs[e1] == pd[e0]);
                self.lemma_doc_index(e1);
                assert(valid_k(pd[e0], -1));
                let c = chain_of(pd[e0], -1);
                assert(same_reads(prev.store.cfg(), prev.store.pages(), self.store.pages(), c)) by {
                    assert forall|t: int, q: bool| 0 <= t < c.len() implies #[trigger] crate::pager::page_read(
                        prev.store.cfg(),
                        self.store.pages()[c[t] as int],
                        q,
                    ) == crate::pager::page_read(prev.store.cfg(), prev.store.pages()[c[t] as int], q) by {
                        assert(self.store.in_use(chain_of(pd[e0], -1)[t] as int));
                    }
                }
                lemma_chain_frame(prev.store.cfg(), prev.store.pages(), self.store.pages(), c);
            }
            assert(self.documents() =~= prev.documents().remove(id));
            prev.lemma_doc_index(di);
            assert forall|q: int| #[trigger] prev.page_of_doc(id, q) implies is_released(self.store, q) by {
                let (k, t) = choose|k: int, t: int| valid_k(doc, k) && 0 <= t < chain_of(doc, k).len() && #[trigger] chain_of(doc, k)[t] as int == q;
                assert(chain_in_use(prev.store, chain_of(prev.docs@[di], k)));
                assert(prev.store.in_use(chain_of(prev.docs@[di], k)[t] as int));
                if k == -1 {
                    assert(holds(doc.pages@, q));
                } else {
                    assert(holds(chain_of(doc, k), q));
                }
            }
            assert(self.paths() =~= paths_without(prev.paths(), id));
        }
    }

    /// Drops the oldest retained versions of document `d` beyond `keep`,
    /// releasing their pages.
    #[verifier::rlimit(60)]
    #[verifier::spinoff_prover]
    fn trim_doc(&mut self, d: usize, keep: usize)
        requires
            old(self).wf(),
            d < old(self).docs@.len(),
        ensures
            final(self).wf(),
            final(self).documents() == old(self).documents(),
            final(self).paths() == old(self).paths(),
            final(self).log() == old(self).log(),
            final(self).staged() == old(self).staged(),
            final(self).cfg() == old(self).cfg(),
            final(self).quick() == old(self).quick(),
            final(self).docs@.len() == old(self).docs@.len(),
            forall|e: int| 0 <= e < old(self).docs@.len() ==> #[trigger] final(self).docs@[e].id == old(self).docs@[e].id,
            forall|e: int| 0 <= e < old(self).docs@.len() && e != d ==> #[trigger] final(self).docs@[e] == old(self).docs@[e],
            final(self).docs@[d as int].retained@.len() <= keep,
            final(self).store.total() >= old(self).store.total(),
            forall|q: int| #[trigger] final(self).store.in_use(q) ==> old(self).store.in_use(q),
            forall|q: int| 0 < q < old(self).store.total() ==> #[trigger] final(self).store.in_use(q) || is_released(final(self).store, q),
    {
        let ghost prev = *self;
        let ghost di = d as int;
        let n_ret = self.docs[d].retained.len();
        if n_ret <= keep {
            proof {
                assert forall|q: int| 0 < q < prev.store.total() implies #[trigger] self.store.in_use(q) || is_released(self.store, q) by {}
            }
            return;
        }
        let cut = n_ret - keep;
        let doc = self.docs.remove(d);
        let Document { id, current_version, pages, retained } = doc;
        let mut evicted = retained;
        let kept = evicted.split_off(cut);
        let ghost od = prev.docs@[di];
        proof {
            assert(od.retained@ =~= evicted@ + kept@);
        }
        let mut k: usize = 0;
        while k < evicted.len()
            invariant
                prev.wf(),
                0 <= di < prev.docs@.len(),
                od == prev.docs@[di],
                id == od.id,
                evicted@ == od.retained@.subrange(0, cut as int),
                kept@ == od.retained@.subrange(cut as int, od.retained@.len() as int),
                cut <= od.retained@.len(),
                self.docs@ == prev.docs@.remove(di),
                self.path_cache == prev.path_cache,
                self.trie == prev.trie,
                self.owner == prev.owner,
                self.wal == prev.wal,
                self.staging == prev.staging,
                self.quick_mode == prev.quick_mode,
                self.store.wf(),
                self.store.cfg() == prev.store.cfg(),
                self.store.total() >= prev.store.total(),
                k <= evicted@.len(),
                forall|q: int| #[trigger] self.store.in_use(q) <==> prev.store.in_use(q) && !(exists|j: int| 0 <= j < k && #[trigger] holds(chain_of(od, j), q)),
                forall|q: int| #[trigger] self.store.in_use(q) ==> self.store.pages()[q] == prev.store.pages()[q],
            decreases evicted@.len() - k,
        {
            proof {
                assert(valid_k(od, k as int));
                let c = chain_of(od, k as int);
                assert(c == evicted@[k as int].pages@);
                assert forall|t: int| 0 <= t < c.len() implies #[trigger] self.store.in_use(c[t] as int) by {
                    let q = c[t] as int;
                    assert(chain_of(prev.docs@[di], k as int)[t] == c[t]);
                    assert(prev.owner@.contains_key(chain_of(prev.docs@[di], k as int)[t] as int));
                    assert(prev.store.in_use(q));
                    if exists|j: int| 0 <= j < k && #[trigger] holds(chain_of(od, j), q) {
                        let j = choose|j: int| 0 <= j < k && #[trigger] holds(chain_of(od, j), q);
                        let u = choose|u: int| 0 <= u < chain_of(od, j).len() && #[trigger] chain_of(od, j)[u] as int == q;
                        assert(valid_k(od, j));
                        assert(chain_of(prev.docs@[di], j)[u] == chain_of(od, j)[u]);
                        assert(prev.owner@[q] == (id, version_of(od, j)));
                    }
                }
            }
            release_chain(&mut self.store, &evicted[k].pages);
            proof {
                assert forall|q: int| #[trigger] self.store.in_use(q) <==> prev.store.in_use(q) && !(exists|j: int| 0 <= j < k + 1 && #[trigger] holds(chain_of(od, j), q)) by {
                    if exists|j: int| 0 <= j < k && #[trigger] holds(chain_of(od, j), q) {
                        let j = choose|j: int| 0 <= j < k && #[trigger] holds(chain_of(od, j), q);
                        assert(0 <= j < k + 1 && holds(chain_of(od, j), q));
                    }
                    if holds(chain_of(od, k as int), q) {
                        assert(0 <= k < k + 1);
                    }
                    if exists|j: int| 0 <= j < k + 1 && #[trigger] holds(chain_of(od, j), q) {
                        let j = choose|j: int| 0 <= j < k + 1 && #[trigger] holds(chain_of(od, j), q);
                        if j < k {
                            assert(exists|j: int| 0 <= j < k && #[trigger] holds(chain_of(od, j), q));
                        }
                    }
                }
            }
            k = k + 1;
        }
        let nd = Document { id, current_version, pages, retained: kept };
        self.docs.insert(d, nd);
        proof {
            let docs = self.docs@;
            let pd = prev.docs@;
            let n = docs.len() as int;
            let c0 = cut as int;
            assert(docs =~= pd.update(di, nd));
            assert forall|k: int| valid_k(nd, k) implies #[trigger] chain_of(nd, k) == chain_of(od, if k < 0 { -1 } else { k + c0 })
                && version_of(nd, k) == version_of(od, if k < 0 { -1 } else { k + c0 }) by {}
            // which pages left use
            assert forall|q: int| #[trigger] self.store.in_use(q) <==> prev.store.in_use(q) && !(exists|j: int| 0 <= j < c0 && #[trigger] holds(chain_of(od, j), q)) by {}
            assert forall|e: int, k: int, t: int|
                0 <= e < n && valid_k(docs[e], k) && 0 <= t < chain_of(docs[e], k).len()
                    implies #[trigger] self.store.in_use(chain_of(docs[e], k)[t] as int) && self.store.pages()[chain_of(docs[e], k)[t] as int] == prev.store.pages()[chain_of(docs[e], k)[t] as int] by {
                let q = chain_of(docs[e], k)[t] as int;
                let k0 = if e == di { if k < 0 { -1 } else { k + c0 } } else { k };
                assert(chain_of(docs[e], k) == chain_of(pd[e], k0));
                assert(valid_k(pd[e], k0));
                assert(chain_in_use(prev.store, chain_of(pd[e], k0)));
                assert(prev.store.in_use(q));
                assert(prev.owner@[q] == (pd[e].id, version_of(pd[e], k0)));
                if exists|j: int| 0 <= j < c0 && #[trigger] holds(chain_of(od, j), q) {
                    let j = choose|j: int| 0 <= j < c0 && #[trigger] holds(chain_of(od, j), q);
                    let u = choose|u: int| 0 <= u < chain_of(od, j).len() && #[trigger] chain_of(od, j)[u] as int == q;
                    assert(valid_k(od, j));
                    assert(chain_of(pd[di], j)[u] == chain_of(od, j)[u]);
                    assert(prev.owner@[q] == (id, version_of(od, j)));
                    if e != di {
                        assert(pd[e].id != id);
                    } else {
                        assert(k0 != j);
                        assert(valid_k(od, k0));
                        assert(version_of(prev.docs@[di], k0) != version_of(prev.docs@[di], j));
                    }
                }
                assert(!(exists|j: int| 0 <= j < c0 && #[trigger] holds(chain_of(od, j), q)));
                assert(self.store.in_use(q));
            }
            assert forall|e: int, k: int| 0 <= e < n && valid_k(docs[e], k) implies {
                &&& chain_distinct(#[trigger] chain_of(docs[e], k))
                &&& chain_readable(self.store.cfg(), self.store.pages(), chain_of(docs[e], k))
                &&& chain_in_use(self.store, chain_of(docs[e], k))
            } by {
                let k0 = if e == di { if k < 0 { -1 } else { k + c0 } } else { k };
                let c = chain_of(pd[e], k0);
                assert(chain_of(docs[e], k) == c);
                assert(valid_k(pd[e], k0));
                assert(same_reads(prev.store.cfg(), prev.store.pages(), self.store.pages(), c)) by {
                    assert forall|t: int, q: bool| 0 <= t < c.len() implies #[trigger] crate::pager::page_read(
                        prev.store.cfg(),
                        self.store.pages()[c[t] as int],
                        q,
                    ) == crate::pager::page_read(prev.store.cfg(), prev.store.pages()[c[t] as int], q) by {
                        assert(self.store.in_use(chain_of(docs[e], k)[t] as int));
                    }
                }
                lemma_chain_frame(prev.store.cfg(), prev.store.pages(), self.store.pages(), c);
                assert forall|t: int| 0 <= t < c.len() implies #[trigger] self.store.in_use(c[t] as int) by {
                    assert(self.store.in_use(chain_of(docs[e], k)[t] as int));
                }
            }
            assert forall|e: int, k: int, t: int|
                0 <= e < n && valid_k(docs[e], k) && 0 <= t < chain_of(docs[e], k).len()
                    implies self.owner@.contains_key(#[trigger] chain_of(docs[e], k)[t] as int)
                    && self.owner@[chain_of(docs[e], k)[t] as int] == (docs[e].id, version_of(docs[e], k)) by {
                let k0 = if e == di { if k < 0 { -1 } else { k + c0 } } else { k };
                assert(chain_of(docs[e], k) == chain_of(pd[e], k0));
                assert(valid_k(pd[e], k0));
            }
            assert forall|e: int, k1: int, k2: int|
                0 <= e < n && valid_k(docs[e], k1) && valid_k(docs[e], k2) && k1 != k2
                    implies #[trigger] version_of(docs[e], k1) != #[trigger] version_of(docs[e], k2) by {
                if e == di {
                    let j1 = if k1 < 0 { -1 } else { k1 + c0 };
                    let j2 = if k2 < 0 { -1 } else { k2 + c0 };
                    assert(valid_k(od, j1) && valid_k(od, j2));
                    assert(j1 != j2);
                    assert(valid_k(nd, k1) && valid_k(nd, k2));
                    assert(version_of(docs[e], k1) == version_of(od, j1));
                    assert(version_of(docs[e], k2) == version_of(od, j2));
                    assert(version_of(prev.docs@[di], j1) != version_of(prev.docs@[di], j2));
                } else {
                    assert(docs[e] == pd[e]);
                }
            }
            assert forall|e: int, k: int|
                0 <= e < n && 0 <= k < docs[e].retained@.len() implies #[trigger] docs[e].retained@[k].version
                    < docs[e].current_version by {
                if e == di {
                    assert(nd.retained@[k] == od.retained@[k + c0]);
                }
            }
            assert forall|q: int| #[trigger] self.store.in_use(q) implies exists|e: int, k: int, t: int|
                0 <= e < n && valid_k(docs[e], k) && 0 <= t < chain_of(docs[e], k).len()
                    && #[trigger] chain_of(docs[e], k)[t] as int == q by {
                assert(prev.store.in_use(q));
                let (e, k, t) = choose|e: int, k: int, t: int|
                    0 <= e < pd.len() && valid_k(pd[e], k) && 0 <= t < chain_of(pd[e], k).len()
                        && #[trigger] chain_of(pd[e], k)[t] as int == q;
                if e == di && k >= 0 {
                    if k < c0 {
                        assert(holds(chain_of(od, k), q));
                    } else {
                        assert(chain_of(docs[e], k - c0)[t] as int == q);
                    }
                } else {
                    assert(chain_of(docs[e], k)[t] as int == q);
                }
            }
            assert forall|a: int, b: int|
                0 <= a < n && 0 <= b < n && a != b implies #[trigger] docs[a].id != #[trigger] docs[b].id by {
                assert(pd[a].id != pd[b].id);
            }
            assert forall|key: Seq<u8>| #[trigger] self.trie@.contains_key(key) implies exists|e: int|
                0 <= e < n && #[trigger] docs[e].id == self.trie@[key] by {
                let e = choose|e: int| 0 <= e < pd.len() && #[trigger] pd[e].id == prev.trie@[key];
                assert(docs[e].id == self.trie@[key]);
            }
            assert(self.cache_agrees()) by {
                assert(prev.cache_agrees());
            }
            self.lemma_wf_intro();
            assert forall|x: u128| #[trigger] self.has_doc(x) == prev.has_doc(x) by {
                if prev.has_doc(x) {
                    let e = choose|e: int| 0 <= e < pd.len() && #[trigger] pd[e].id == x;
                    assert(docs[e].id == x);
                }
                if self.has_doc(x) {
                    let e = choose|e: int| 0 <= e < n && #[trigger] docs[e].id == x;
                    assert(pd[e].id == x);
                }
            }
            assert forall|x: u128| self.has_doc(x) implies #[trigger] self.documents()[x] == prev.documents()[x] by {
                let e = prev.index_of(x);
                prev.lemma_doc_index_of(x);
                self.lemma_doc_index(e);
                assert(docs[e].pages == pd[e].pages);
                assert(valid_k(pd[e], -1));
                let c = chain_of(pd[e], -1);
                assert(same_reads(prev.store.cfg(), prev.store.pages(), self.store.pages(), c)) by {
                    assert forall|t: int, q: bool| 0 <= t < c.len() implies #[trigger] crate::pager::page_read(
                        prev.store.cfg(),
                        self.store.pages()[c[t] as int],
                        q,
                    ) == crate::pager::page_read(prev.store.cfg(), prev.store.pages()[c[t] as int], q) by {
                        assert(chain_of(docs[e], -1)[t] == c[t]);
                        assert(self.store.in_use(chain_of(docs[e], -1)[t] as int));
                    }
                }
                lemma_chain_frame(prev.store.cfg(), prev.store.pages(), self.store.pages(), c);
            }
            assert(self.documents() =~= prev.documents());
            assert(self.paths() =~= prev.paths());
            assert forall|q: int| 0 < q < prev.store.total() implies #[trigger] self.store.in_use(q) || is_released(self.store, q) by {}
        }
    }

    /// Applies one record to the committed state; `Ok(false)` when it does not
    /// apply there and nothing changed.
    fn apply_record(&mut self, rec: &WalRecord) -> (r: Result<bool, StreamDbError>)
        requires
            old(self).wf(),
        ensures
            final(self).wf(),
            final(self).log() == old(self).log(),
            final(self).staged() == old(self).staged(),
            final(self).cfg() == old(self).cfg(),
            final(self).quick() == old(self).quick(),
            r matches Ok(applied) ==> applied == step(old(self).documents(), old(self).paths(), *rec) is Some,
            r is Ok ==> (final(self).documents(), final(self).paths()) == match step(
                old(self).documents(),
                old(self).paths(),
                *rec,
            ) {
                Some(next) => next,
                None => (old(self).documents(), old(self).paths()),
            },
            r is Err ==> (r matches Err(StreamDbError::InvalidInput)) && final(self).documents()
                == old(self).documents() && final(self).paths() == old(self).paths(),
            r is Err ==> *rec is Write,
    {
        match rec {
            WalRecord::Write { id, data } => {
                match self.find(*id) {
                    Some(d) => {
                        proof {
                            self.lemma_doc_index(d as int);
                        }
                        match self.new_version(d, data.as_slice()) {
                            Ok(()) => Ok(true),
                            Err(e) => Err(e),
                        }
                    },
                    None => {
                        match self.create_doc(*id, data.as_slice()) {
                            Ok(()) => Ok(true),
                            Err(e) => Err(e),
                        }
                    },
                }
            },
            WalRecord::Delete { id } => {
                match self.find(*id) {
                    Some(d) => {
                        proof {
                            self.lemma_doc_index(d as int);
                        }
                        self.delete_doc(d);
                        Ok(true)
                    },
                    None => Ok(false),
                }
            },
            WalRecord::Bind { path, id } => {
                if !validate_path(path.as_slice()) || self.find(*id).is_none() {
                    return Ok(false);
                }
                match self.lookup(path.as_slice()) {
                    Ok(None) => {
                        self.apply_bind(path.as_slice(), *id);
                        Ok(true)
                    },
                    _ => Ok(false),
                }
            },
            WalRecord::Unbind { path, id } => {
                if !validate_path(path.as_slice()) {
                    return Ok(false);
                }
                match self.lookup(path.as_slice()) {
                    Ok(Some(bound)) => {
                        if bound == *id {
                            self.apply_unbind(path.as_slice());
                            Ok(true)
                        } else {
                            Ok(false)
                        }
                    },
                    _ => Ok(false),
                }
            },
        }
    }

    /// Writes a new document under `id` and binds `path` to it. Inside a
    /// transaction both records are staged and nothing else changes.
    pub fn write_document_with_id(&mut self, path: &[u8], data: &[u8], id: u128) -> (r: Result<u128, StreamDbError>)
        requires
            old(self).wf(),
        ensures
            final(self).wf(),
            final(self).cfg() == old(self).cfg(),
            final(self).quick() == old(self).quick(),
            (!valid_path(path@) || data@.len() > old(self).cfg().max_document_size
                || old(self).paths().contains_key(path@) || old(self).documents().contains_key(id))
                ==> (r matches Err(StreamDbError::InvalidInput)),
            r is Err ==> (r matches Err(StreamDbError::InvalidInput)) && final(self).documents()
                == old(self).documents() && final(self).paths() == old(self).paths()
                && final(self).staged() == old(self).staged(),
            r matches Ok(x) ==> x == id,
            valid_path(path@) && data@.len() <= old(self).cfg().max_document_size
                && !old(self).paths().contains_key(path@) && !old(self).documents().contains_key(id)
                && (old(self).staged() is Some || old(self).room() >= crate::chain::pages_needed(
                old(self).cfg(),
                data@.len() as int,
            )) ==> r is Ok,
            (!valid_path(path@) || data@.len() > old(self).cfg().max_document_size
                || old(self).paths().contains_key(path@) || old(self).documents().contains_key(id))
                ==> final(self).page_total() == old(self).page_total() && final(self).free_page_count()
                == old(self).free_page_count() && final(self).log() == old(self).log(),
            r is Ok && old(self).staged() is None ==> {
                &&& final(self).documents() == old(self).documents().insert(id, data@)
                &&& final(self).paths() == old(self).paths().insert(path@, id)
                &&& final(self).staged() is None
                &&& final(self).log().len() == old(self).log().len() + 2
            },
            r is Ok && old(self).staged() is Some ==> {
                &&& final(self).documents() == old(self).documents()
                &&& final(self).paths() == old(self).paths()
                &&& final(self).staged() is Some
                &&& final(self).staged()->0.len() == old(self).staged()->0.len() + 2
            },
    {
        if !validate_path(path) {
            return Err(StreamDbError::InvalidInput);
        }
        if data.len() as u64 > self.store.config().max_document_size {
            return Err(StreamDbError::InvalidInput);
        }
        match self.lookup(path) {
            Ok(None) => {},
            _ => {
                return Err(StreamDbError::InvalidInput);
            },
        }
        if self.find(id).is_some() {
            return Err(StreamDbError::InvalidInput);
        }
        let w = WalRecord::Write { id, data: vstd::slice::slice_to_vec(data) };
        let b = WalRecord::Bind { path: vstd::slice::slice_to_vec(path), id };
        if self.staging.is_some() {
            self.stage(w);
            self.stage(b);
            return Ok(id);
        }
        match self.create_doc(id, data) {
            Ok(()) => {},
            Err(e) => {
                return Err(e);
            },
        }
        self.apply_bind(path, id);
        self.log_record(w);
        self.log_record(b);
        Ok(id)
    }

    /// Writes a new document under a fresh random id and binds `path` to it.
    pub fn write_document(&mut self, path: &[u8], data: &[u8]) -> (r: Result<u128, StreamDbError>)
        requires
            old(self).wf(),
        ensures
            final(self).wf(),
            final(self).cfg() == old(self).cfg(),
            (!valid_path(path@) || data@.len() > old(self).cfg().max_document_size
                || old(self).paths().contains_key(path@)) ==> (r matches Err(StreamDbError::InvalidInput)),
            r is Err ==> final(self).documents() == old(self).documents() && final(self).paths()
                == old(self).paths() && final(self).staged() == old(self).staged(),
            (!valid_path(path@) || data@.len() > old(self).cfg().max_document_size
                || old(self).paths().contains_key(path@)) ==> final(self).page_total() == old(
                self,
            ).page_total() && final(self).free_page_count() == old(self).free_page_count()
                && final(self).log() == old(self).log(),
            valid_path(path@) && data@.len() <= old(self).cfg().max_document_size
                && !old(self).paths().contains_key(path@) && old(self).documents() == no_docs() && (
            old(self).staged() is Some || old(self).room() >= crate::chain::pages_needed(
                old(self).cfg(),
                data@.len() as int,
            )) ==> r is Ok,
            final(self).quick() == old(self).quick(),
            old(self).staged() is None ==> final(self).staged() is None,
            r is Ok && old(self).staged() is None ==> final(self).log().len() == old(self).log().len() + 2,
            r is Ok && old(self).staged() is Some ==> {
                &&& final(self).documents() == old(self).documents()
                &&& final(self).paths() == old(self).paths()
                &&& final(self).staged() is Some
                &&& final(self).staged()->0.len() == old(self).staged()->0.len() + 2
            },
            r is Ok && old(self).staged() is None ==> {
                &&& !old(self).documents().contains_key(r->Ok_0)
                &&& final(self).documents() == old(self).documents().insert(r->Ok_0, data@)
                &&& final(self).paths() == old(self).paths().insert(path@, r->Ok_0)
            },
    {
        let id = fresh_id();
        self.write_document_with_id(path, data, id)
    }

    /// Gives document `id` its next version holding `data`; the previous
    /// version is retained until collected.
    pub fn update_document(&mut self, id: u128, data: &[u8]) -> (r: Result<(), StreamDbError>)
        requires
            old(self).wf(),
        ensures
            final(self).wf(),
            final(self).cfg() == old(self).cfg(),
            final(self).paths() == old(self).paths(),
            !old(self).documents().contains_key(id) ==> (r matches Err(StreamDbError::NotFound)),
            old(self).documents().contains_key(id) && data@.len() > old(self).cfg().max_document_size
                ==> (r matches Err(StreamDbError::InvalidInput)),
            r is Err ==> final(self).documents() == old(self).documents() && final(self).staged()
                == old(self).staged(),
            r is Ok && old(self).staged() is None ==> final(self).documents() == old(self).documents().insert(id, data@),
            r is Ok && old(self).staged() is Some ==> final(self).documents() == old(self).documents(),
            old(self).documents().contains_key(id) && data@.len() <= old(self).cfg().max_document_size && (
            old(self).staged() is Some || (old(self).room() >= crate::chain::pages_needed(
                old(self).cfg(),
                data@.len() as int,
            ) && old(self).version(id) < i32::MAX)) ==> r is Ok,
    {
        let d = match self.find(id) {
            Some(d) => d,
            None => {
                return Err(StreamDbError::NotFound);
            },
        };
        if data.len() as u64 > self.store.config().max_document_size {
            return Err(StreamDbError::InvalidInput);
        }
        let w = WalRecord::Write { id, data: vstd::slice::slice_to_vec(data) };
        if self.staging.is_some() {
            self.stage(w);
            return Ok(());
        }
        match self.new_version(d, data) {
            Ok(()) => {},
            Err(e) => {
                return Err(e);
            },
        }
        self.log_record(w);
        Ok(())
    }

    /// Removes document `id`, all its versions and every path bound to it.
    pub fn delete_by_id(&mut self, id: u128) -> (r: Result<(), StreamDbError>)
        requires
            old(self).wf(),
        ensures
            final(self).wf(),
            final(self).cfg() == old(self).cfg(),
            !old(self).documents().contains_key(id) ==> (r matches Err(StreamDbError::NotFound)),
            old(self).documents().contains_key(id) ==> r is Ok,
            r is Err ==> final(self).documents() == old(self).documents() && final(self).paths()
                == old(self).paths(),
            r is Ok && old(self).staged() is None ==> {
                &&& final(self).documents() == old(self).documents().remove(id)
                &&& final(self).paths() == paths_without(old(self).paths(), id)
            },
            r is Ok && old(self).staged() is Some ==> final(self).documents() == old(self).documents()
                && final(self).paths() == old(self).paths(),
            r is Err ==> final(self).page_total() == old(self).page_total() && final(self).free_page_count()
                == old(self).free_page_count() && final(self).log() == old(self).log() && final(self).staged()
                == old(self).staged(),
            r is Ok && old(self).staged() is None ==> forall|q: int| #[trigger] old(self).page_of_doc(id, q) ==> final(self).page_released(q),
    {
        let d = match self.find(id) {
            Some(d) => d,
            None => {
                return Err(StreamDbError::NotFound);
            },
        };
        proof {
            self.lemma_doc_index(d as int);
        }
        if self.staging.is_some() {
            self.stage(WalRecord::Delete { id });
            return Ok(());
        }
        self.log_record(WalRecord::Delete { id });
        proof {
            self.lemma_doc_index(d as int);
        }
        let ghost mid = *self;
        self.delete_doc(d);
        proof {
            assert forall|q: int| #[trigger] old(self).page_of_doc(id, q) implies self.page_released(q) by {
                assert(mid.docs == old(self).docs);
                assert(mid.page_of_doc(mid.docs@[d as int].id, q));
            }
        }
        Ok(())
    }

    /// Removes the document bound to `path`, with all its versions and paths.
    pub fn delete(&mut self, path: &[u8]) -> (r: Result<(), StreamDbError>)
        requires
            old(self).wf(),
        ensures
            final(self).wf(),
            final(self).cfg() == old(self).cfg(),
            !valid_path(path@) ==> (r matches Err(StreamDbError::InvalidInput)),
            valid_path(path@) && !old(self).paths().contains_key(path@) ==> (r matches Err(StreamDbError::NotFound)),
            valid_path(path@) && old(self).paths().contains_key(path@) ==> r is Ok,
            r is Err ==> final(self).documents() == old(self).documents() && final(self).paths()
                == old(self).paths(),
            r is Ok && old(self).staged() is None ==> {
                &&& final(self).documents() == old(self).documents().remove(old(self).paths()[path@])
                &&& final(self).paths() == paths_without(old(self).paths(), old(self).paths()[path@])
                &&& !final(self).paths().contains_key(path@)
            },
            r is Err ==> final(self).page_total() == old(self).page_total() && final(self).free_page_count()
                == old(self).free_page_count() && final(self).log() == old(self).log() && final(self).staged()
                == old(self).staged(),
    {
        let id = match self.lookup(path) {
            Err(e) => {
                return Err(e);
            },
            Ok(None) => {
                return Err(StreamDbError::NotFound);
            },
            Ok(Some(id)) => id,
        };
        proof {
            self.lemma_bound_has_doc(path@);
        }
        self.delete_by_id(id)
    }

    /// Binds `path` to document `id` as another alias.
    pub fn bind_to_path(&mut self, id: u128, path: &[u8]) -> (r: Result<(), StreamDbError>)
        requires
            old(self).wf(),
        ensures
            final(self).wf(),
            final(self).cfg() == old(self).cfg(),
            final(self).documents() == old(self).documents(),
            !valid_path(path@) ==> (r matches Err(StreamDbError::InvalidInput)),
            valid_path(path@) && !old(self).documents().contains_key(id) ==> (r matches Err(StreamDbError::NotFound)),
            valid_path(path@) && old(self).documents().contains_key(id) && old(self).paths().contains_key(path@)
                ==> (r matches Err(StreamDbError::InvalidInput)),
            r is Ok <==> valid_path(path@) && old(self).documents().contains_key(id) && !old(self).paths().contains_key(path@),
            r is Err ==> final(self).paths() == old(self).paths(),
            r is Ok && old(self).staged() is None ==> final(self).paths() == old(self).paths().insert(path@, id),
            r is Ok && old(self).staged() is Some ==> final(self).paths() == old(self).paths(),
    {
        if !validate_path(path) {
            return Err(StreamDbError::InvalidInput);
        }
        if self.find(id).is_none() {
            return Err(StreamDbError::NotFound);
        }
        match self.lookup(path) {
            Ok(None) => {},
            _ => {
                return Err(StreamDbError::InvalidInput);
            },
        }
        let b = WalRecord::Bind { path: vstd::slice::slice_to_vec(path), id };
        if self.staging.is_some() {
            self.stage(b);
            return Ok(());
        }
        self.apply_bind(path, id);
        self.log_record(b);
        Ok(())
    }

    /// Unbinds `path` from document `id`.
    pub fn unbind_path(&mut self, id: u128, path: &[u8]) -> (r: Result<(), StreamDbError>)
        requires
            old(self).wf(),
        ensures
            final(self).wf(),
            final(self).cfg() == old(self).cfg(),
            final(self).documents() == old(self).documents(),
            !valid_path(path@) ==> (r matches Err(StreamDbError::InvalidInput)),
            valid_path(path@) && !(old(self).paths().contains_key(path@) && old(self).paths()[path@] == id)
                ==> (r matches Err(StreamDbError::NotFound)),
            r is Ok <==> valid_path(path@) && old(self).paths().contains_key(path@) && old(self).paths()[path@] == id,
            r is Err ==> final(self).paths() == old(self).paths(),
            r is Ok && old(self).staged() is None ==> final(self).paths() == old(self).paths().remove(path@),
            r is Ok && old(self).staged() is Some ==> final(self).paths() == old(self).paths(),
    {
        match self.lookup(path) {
            Err(e) => {
                return Err(e);
            },
            Ok(Some(bound)) => {
                if bound != id {
                    return Err(StreamDbError::NotFound);
                }
            },
            Ok(None) => {
                return Err(StreamDbError::NotFound);
            },
        }
        let u = WalRecord::Unbind { path: vstd::slice::slice_to_vec(path), id };
        if self.staging.is_some() {
            self.stage(u);
            return Ok(());
        }
        self.apply_unbind(path);
        self.log_record(u);
        Ok(())
    }

    /// Every bound path that `prefix` starts or ends, each once per binding,
    /// in no particular order.
    pub fn search(&self, prefix: &[u8]) -> (r: Result<Vec<Vec<u8>>, StreamDbError>)
        requires
            self.wf(),
        ensures
            !valid_path(prefix@) ==> (r matches Err(StreamDbError::InvalidInput)),
            valid_path(prefix@) ==> r is Ok,
            r is Ok ==> forall|i: int| 0 <= i < r->Ok_0@.len() ==> self.paths().contains_key(#[trigger] r->Ok_0@[i]@) && search_match(prefix@, r->Ok_0@[i]@),
            r is Ok ==> forall|p: Seq<u8>| self.paths().contains_key(p) && #[trigger] search_match(prefix@, p) ==> listed(r->Ok_0@, p),
            r is Ok ==> distinct_paths(r->Ok_0@),
    {
        if !validate_path(prefix) {
            return Err(StreamDbError::InvalidInput);
        }
        let entries = self.trie.entries();
        let mut out: Vec<Vec<u8>> = Vec::new();
        let mut i: usize = 0;
        while i < entries.len()
            invariant
                self.wf(),
                i <= entries@.len(),
                forall|j: int| 0 <= j < entries@.len() ==> self.trie@.contains_key(#[trigger] entries@[j].0@) && self.trie@[entries@[j].0@] == entries@[j].1,
                forall|key: Seq<u8>| #[trigger] self.trie@.contains_key(key) ==> exists|j: int| 0 <= j < entries@.len() && entries@[j].0@ == key,
                forall|j: int| 0 <= j < out@.len() ==> self.paths().contains_key(#[trigger] out@[j]@) && search_match(prefix@, out@[j]@),
                distinct_paths(out@),
                forall|j: int| 0 <= j < i ==> #[trigger] search_match(prefix@, key_of(entries@[j].0@)) ==> exists|k: int| 0 <= k < out@.len() && out@[k]@ == key_of(entries@[j].0@),
            decreases entries@.len() - i,
        {
            let ghost before = out@;
            let path = reversed(entries[i].0.as_slice());
            proof {
                lemma_reverse_twice(entries@[i as int].0@);
                assert(path@ == key_of(entries@[i as int].0@));
                let key = entries@[i as int].0@;
                assert(self.trie@.contains_key(key));
                lemma_reverse_twice(path@);
                assert(key_of(path@) == key);
            }
            let fresh = !already_listed(&out, path.as_slice());
            if (starts_with(path.as_slice(), prefix) || ends_with(path.as_slice(), prefix)) && fresh {
                out.push(path);
            }
            proof {
                assert forall|j: int| 0 <= j < i + 1 && #[trigger] search_match(prefix@, key_of(entries@[j].0@)) implies exists|k: int| 0 <= k < out@.len() && out@[k]@ == key_of(entries@[j].0@) by {
                    if j == i {
                        if fresh {
                            assert(out@[out@.len() - 1]@ == key_of(entries@[j].0@));
                        } else {
                            let k = choose|k: int| 0 <= k < before.len() && #[trigger] before[k]@ == path@;
                            assert(out@[k] == before[k]);
                        }
                    } else {
                        let k = choose|k: int| 0 <= k < before.len() && #[trigger] before[k]@ == key_of(entries@[j].0@);
                        assert(out@[k] == before[k]);
                    }
                }
            }
            i = i + 1;
        }
        proof {
            assert forall|p: Seq<u8>| self.paths().contains_key(p) && #[trigger] search_match(prefix@, p) implies listed(out@, p) by {
                let key = key_of(p);
                assert(self.trie@.contains_key(key));
                let j = choose|j: int| 0 <= j < entries@.len() && entries@[j].0@ == key;
                lemma_reverse_twice(p);
                assert(key_of(entries@[j].0@) == p);
                assert(search_match(prefix@, key_of(entries@[j].0@)));
                let k = choose|k: int| 0 <= k < out@.len() && out@[k]@ == key_of(entries@[j].0@);
                assert(out@[k]@ == p);
            }
        }
        Ok(out)
    }

    /// Every path bound to document `id`.
    pub fn list_paths(&self, id: u128) -> (r: Result<Vec<Vec<u8>>, StreamDbError>)
        requires
            self.wf(),
        ensures
            !self.documents().contains_key(id) ==> (r matches Err(StreamDbError::NotFound)),
            self.documents().contains_key(id) ==> r is Ok,
            r is Ok ==> forall|i: int| 0 <= i < r->Ok_0@.len() ==> self.paths().contains_key(#[trigger] r->Ok_0@[i]@) && self.paths()[r->Ok_0@[i]@] == id,
            r is Ok ==> forall|p: Seq<u8>| #[trigger] self.paths().contains_key(p) && self.paths()[p] == id ==> listed(r->Ok_0@, p),
            r is Ok ==> distinct_paths(r->Ok_0@),
    {
        if self.find(id).is_none() {
            return Err(StreamDbError::NotFound);
        }
        let entries = self.trie.entries();
        let mut out: Vec<Vec<u8>> = Vec::new();
        let mut i: usize = 0;
        while i < entries.len()
            invariant
                self.wf(),
                i <= entries@.len(),
                forall|j: int| 0 <= j < entries@.len() ==> self.trie@.contains_key(#[trigger] entries@[j].0@) && self.trie@[entries@[j].0@] == entries@[j].1,
                forall|key: Seq<u8>| #[trigger] self.trie@.contains_key(key) ==> exists|j: int| 0 <= j < entries@.len() && entries@[j].0@ == key,
                forall|j: int| 0 <= j < out@.len() ==> self.paths().contains_key(#[trigger] out@[j]@) && self.paths()[out@[j]@] == id,
                distinct_paths(out@),
                forall|j: int| 0 <= j < i ==> #[trigger] entries@[j].1 == id ==> exists|k: int| 0 <= k < out@.len() && out@[k]@ == key_of(entries@[j].0@),
            decreases entries@.len() - i,
        {
            let ghost before = out@;
            let path = reversed(entries[i].0.as_slice());
            proof {
                lemma_reverse_twice(entries@[i as int].0@);
            }
            let fresh = !already_listed(&out, path.as_slice());
            if entries[i].1 == id && fresh {
                out.push(path);
            }
            proof {
                assert forall|j: int| 0 <= j < i + 1 && #[trigger] entries@[j].1 == id implies exists|k: int| 0 <= k < out@.len() && out@[k]@ == key_of(entries@[j].0@) by {
                    if j == i {
                        if fresh {
                            assert(out@[out@.len() - 1]@ == key_of(entries@[j].0@));
                        } else {
                            let k = choose|k: int| 0 <= k < before.len() && #[trigger] before[k]@ == path@;
                            assert(out@[k] == before[k]);
                        }
                    } else {
                        let k = choose|k: int| 0 <= k < before.len() && #[trigger] before[k]@ == key_of(entries@[j].0@);
                        assert(out@[k] == before[k]);
                    }
                }
            }
            i = i + 1;
        }
        proof {
            assert forall|p: Seq<u8>| #[trigger] self.paths().contains_key(p) && self.paths()[p] == id implies listed(out@, p) by {
                let key = key_of(p);
                let j = choose|j: int| 0 <= j < entries@.len() && entries@[j].0@ == key;
                lemma_reverse_twice(p);
                assert(entries@[j].1 == id);
                assert(key_of(entries@[j].0@) == p);
                let k = choose|k: int| 0 <= k < out@.len() && out@[k]@ == key_of(entries@[j].0@);
                assert(out@[k]@ == p);
            }
        }
        Ok(out)
    }

    /// Opens a transaction: later mutations are staged until commit.
    pub fn begin_transaction(&mut self) -> (r: Result<(), StreamDbError>)
        requires
            old(self).wf(),
        ensures
            final(self).wf(),
            final(self).documents() == old(self).documents(),
            final(self).paths() == old(self).paths(),
            final(self).log() == old(self).log(),
            final(self).cfg() == old(self).cfg(),
            old(self).staged() is Some ==> (r matches Err(StreamDbError::TransactionError)) && final(self).staged() == old(self).staged(),
            old(self).staged() is None ==> r is Ok && final(self).staged() == Some(Seq::<WalRecord>::empty()),
    {
        if self.staging.is_some() {
            return Err(StreamDbError::TransactionError);
        }
        let ghost prev = *self;
        self.staging = Some(Vec::new());
        proof {
            self.lemma_wf_frame(prev);
            assert(self.staged()->0 =~= Seq::<WalRecord>::empty());
        }
        Ok(())
    }

    /// Applies the staged records in order to the committed state, then
    /// checkpoints the log. Records that no longer apply are skipped; if the
    /// file cannot grow for a write, commit stops there with `InvalidInput`.
    /// Either way the transaction is over.
    pub fn commit_transaction(&mut self) -> (r: Result<(), StreamDbError>)
        requires
            old(self).wf(),
        ensures
            final(self).wf(),
            final(self).cfg() == old(self).cfg(),
            final(self).staged() is None,
            old(self).staged() is None ==> (r matches Err(StreamDbError::TransactionError)) && final(self).documents() == old(self).documents() && final(self).paths() == old(self).paths(),
            old(self).staged() is Some && r is Ok ==> (final(self).documents(), final(self).paths()) == crate::model::replay(
                old(self).documents(),
                old(self).paths(),
                old(self).staged()->0,
            ),
            old(self).staged() is Some && r is Ok ==> final(self).log().len() == 0,
            old(self).staged() is Some ==> r is Ok || (r matches Err(StreamDbError::InvalidInput)),
            old(self).staged() is Some && (forall|i: int| 0 <= i < old(self).staged()->0.len() ==> !(#[trigger] old(self).staged()->0[i] is Write)) ==> r is Ok,
    {
        let ghost prev = *self;
        let ops = match self.take_staging() {
            None => {
                return Err(StreamDbError::TransactionError);
            },
            Some(ops) => ops,
        };
        let mut i: usize = 0;
        while i < ops.len()
            invariant
                self.wf(),
                self.cfg() == prev.cfg(),
                self.staged() is None,
                prev == *old(self),
                prev.staged() is Some,
                ops@ == prev.staged()->0,
                i <= ops@.len(),
                (self.documents(), self.paths()) == crate::model::replay(prev.documents(), prev.paths(), ops@.subrange(0, i as int)),
            decreases ops@.len() - i,
        {
            let ghost before = (self.documents(), self.paths());
            match self.apply_record(&ops[i]) {
                Ok(_) => {},
                Err(e) => {
                    return Err(e);
                },
            }
            proof {
                let sub = ops@.subrange(0, i + 1);
                assert(sub.drop_last() =~= ops@.subrange(0, i as int));
                assert(sub.last() == ops@[i as int]);
            }
            i = i + 1;
        }
        proof {
            assert(ops@.subrange(0, ops@.len() as int) =~= ops@);
        }
        self.checkpoint();
        Ok(())
    }

    /// Drops the open transaction and everything it staged.
    pub fn rollback_transaction(&mut self) -> (r: Result<(), StreamDbError>)
        requires
            old(self).wf(),
        ensures
            final(self).wf(),
            r is Ok,
            final(self).staged() is None,
            final(self).documents() == old(self).documents(),
            final(self).paths() == old(self).paths(),
            final(self).log() == old(self).log(),
            final(self).cfg() == old(self).cfg(),
    {
        let _ = self.take_staging();
        Ok(())
    }

    fn take_staging(&mut self) -> (r: Option<Vec<WalRecord>>)
        requires
            old(self).wf(),
        ensures
            final(self).wf(),
            final(self).staged() is None,
            r is None <==> old(self).staged() is None,
            r is Some ==> old(self).staged() == Some(r->0@),
            final(self).documents() == old(self).documents(),
            final(self).paths() == old(self).paths(),
            final(self).log() == old(self).log(),
            final(self).cfg() == old(self).cfg(),
            final(self).quick() == old(self).quick(),
    {
        let ghost prev = *self;
        let r = self.staging.take();
        proof {
            self.lemma_wf_frame(prev);
        }
        r
    }

    /// Empties the log: everything committed so far is in the pages.
    fn checkpoint(&mut self)
        requires
            old(self).wf(),
        ensures
            final(self).wf(),
            final(self).log().len() == 0,
            final(self).staged() == old(self).staged(),
            final(self).documents() == old(self).documents(),
            final(self).paths() == old(self).paths(),
            final(self).cfg() == old(self).cfg(),
            final(self).quick() == old(self).quick(),
    {
        let ghost prev = *self;
        self.wal = Vec::new();
        proof {
            self.lemma_wf_frame(prev);
        }
    }

    /// Checkpoints the log; after this, all committed data is in the pages.
    pub fn flush(&mut self) -> (r: Result<(), StreamDbError>)
        requires
            old(self).wf(),
        ensures
            final(self).wf(),
            r is Ok,
            final(self).log().len() == 0,
            final(self).staged() == old(self).staged(),
            final(self).documents() == old(self).documents(),
            final(self).paths() == old(self).paths(),
            final(self).cfg() == old(self).cfg(),
    {
        self.checkpoint();
        Ok(())
    }

    /// Turns checksum verification on reads off (`true`) or on.
    pub fn set_quick_mode(&mut self, enabled: bool)
        requires
            old(self).wf(),
        ensures
            final(self).wf(),
            final(self).quick() == enabled,
            final(self).staged() == old(self).staged(),
            final(self).documents() == old(self).documents(),
            final(self).paths() == old(self).paths(),
            final(self).log() == old(self).log(),
            final(self).cfg() == old(self).cfg(),
    {
        let ghost prev = *self;
        self.quick_mode = enabled;
        proof {
            self.lemma_wf_frame(prev);
        }
    }

    /// Page-cache hits and misses.
    pub fn get_cache_stats(&self) -> (r: CacheStats)
        ensures
            r == self.cache_stats_view(),
    {
        self.store.cache_stats()
    }

    /// Page ids on the free list, counted by walking it.
    pub fn count_free_pages(&self) -> (r: u64)
        requires
            self.wf(),
        ensures
            r == crate::store::saturated(self.free_page_count()),
    {
        self.store.count_free_pages()
    }

    /// The free-page count and the total page count of the file.
    pub fn calculate_statistics(&self) -> (r: (u64, u64))
        requires
            self.wf(),
        ensures
            r.0 == crate::store::saturated(self.free_page_count()),
            r.1 == self.page_total(),
            r.0 < r.1,
            0 <= self.free_page_count() < self.page_total(),
    {
        proof {
            self.store.lemma_free_count_bound();
        }
        (self.store.count_free_pages(), self.store.page_count() as u64)
    }

    /// Retained versions kept per document by the collector: the current
    /// version counts against `versions_to_keep`.
    pub open spec fn keep_retained(cfg: Config) -> int {
        if cfg.versions_to_keep > 0 {
            cfg.versions_to_keep - 1
        } else {
            0
        }
    }

    /// Releases the pages of the oldest retained versions of every document
    /// until each keeps at most `versions_to_keep - 1` besides its current one.
    pub fn gc_old_versions(&mut self)
        requires
            old(self).wf(),
        ensures
            final(self).wf(),
            final(self).documents() == old(self).documents(),
            final(self).paths() == old(self).paths(),
            final(self).log() == old(self).log(),
            final(self).staged() == old(self).staged(),
            final(self).cfg() == old(self).cfg(),
            forall|id: u128| #[trigger] final(self).documents().contains_key(id) ==> final(self).retained_count(id) <= Self::keep_retained(final(self).cfg()),
            forall|q: int| #[trigger] final(self).page_in_use(q) ==> old(self).page_in_use(q),
            forall|q: int| #[trigger] old(self).page_in_use(q) && !final(self).page_in_use(q) ==> final(self).page_released(q),
    {
        let ghost prev = *self;
        let cfg = self.store.config();
        proof {
            lemma_store_cfg(self.store);
        }
        let keep: usize = if cfg.versions_to_keep > 0 {
            (cfg.versions_to_keep - 1) as usize
        } else {
            0
        };
        let mut d: usize = 0;
        while d < self.docs.len()
            invariant
                self.wf(),
                prev.wf(),
                self.documents() == prev.documents(),
                self.paths() == prev.paths(),
                self.log() == prev.log(),
                self.staged() == prev.staged(),
                self.cfg() == prev.cfg(),
                cfg == prev.cfg(),
                keep == Self::keep_retained(cfg),
                self.docs@.len() == prev.docs@.len(),
                d <= self.docs@.len(),
                forall|e: int| 0 <= e < d ==> #[trigger] self.docs@[e].retained@.len() <= keep,
                forall|q: int| #[trigger] self.store.in_use(q) ==> prev.store.in_use(q),
                forall|q: int| 0 < q < prev.store.total() ==> #[trigger] self.store.in_use(q) || is_released(self.store, q),
                self.store.total() >= prev.store.total(),
            decreases self.docs@.len() - d,
        {
            let ghost before = *self;
            self.trim_doc(d, keep);
            proof {
                assert forall|e: int| 0 <= e < d + 1 implies #[trigger] self.docs@[e].retained@.len() <= keep by {
                    if e < d {
                        assert(self.docs@[e] == before.docs@[e]);
                    }
                }
                assert forall|q: int| 0 < q < prev.store.total() implies #[trigger] self.store.in_use(q) || is_released(self.store, q) by {
                    if !self.store.in_use(q) {
                        if before.store.in_use(q) {
                            assert(q < before.store.total());
                        }
                    }
                }
            }
            d = d + 1;
        }
        proof {
            assert forall|id: u128| #[trigger] self.documents().contains_key(id) implies self.retained_count(id) <= Self::keep_retained(self.cfg()) by {
                self.lemma_doc_index_of(id);
            }
            assert forall|q: int| #[trigger] prev.page_in_use(q) && !self.page_in_use(q) implies self.page_released(q) by {
                assert(0 < q < prev.store.total());
            }
        }
    }

    /// Page `q` holds part of some version of document `id`.
    pub closed spec fn page_of_doc(&self, id: u128, q: int) -> bool {
        let d = self.docs@[self.index_of(id)];
        exists|k: int, t: int| valid_k(d, k) && 0 <= t < chain_of(d, k).len() && #[trigger] chain_of(d, k)[t] as int == q
    }

    /// Retained versions of a document.
    pub closed spec fn retained_count(&self, id: u128) -> int {
        self.docs@[self.index_of(id)].retained@.len() as int
    }

    /// Page `q` holds part of some version of some document.
    pub closed spec fn page_in_use(&self, q: int) -> bool {
        self.store.in_use(q)
    }

    /// Page `q` is on the free list, as a listed id or as a free-list page.
    pub closed spec fn page_released(&self, q: int) -> bool {
        is_released(self.store, q)
    }

    /// Every page of the file is exactly one of: the header page, a page id
    /// listed free, a page of the free-list chain, or a page of some version
    /// of some document.
    pub proof fn lemma_page_accounting(&self, q: int)
        requires
            self.wf(),
            0 <= q < self.page_total(),
        ensures
            q == 0 || self.page_listed_free(q) || self.page_of_free_list(q) || self.page_in_chain(q),
            self.page_listed_free(q) ==> !self.page_of_free_list(q) && !self.page_in_chain(q) && q != 0,
            self.page_of_free_list(q) ==> !self.page_in_chain(q) && q != 0,
            self.page_in_chain(q) ==> q != 0,
    {
        let fl = self.store.chain();
        if crate::store::is_free(fl, q) {
            let (j, t) = choose|j: int, t: int| 0 <= j < fl.len() && 0 <= t < fl[j].ids@.len() && #[trigger] fl[j].ids@[t] == q;
            self.store.lemma_free_facts(j, t);
        }
        if crate::store::is_chain_page(fl, q) {
            let j = choose|j: int| 0 <= j < fl.len() && #[trigger] fl[j].page_id == q;
            self.store.lemma_chain_page_facts(j);
        }
        if self.page_in_chain(q) {
            let (d, k, t) = choose|d: int, k: int, t: int|
                0 <= d < self.docs@.len() && valid_k(self.docs@[d], k) && 0 <= t < chain_of(self.docs@[d], k).len()
                    && #[trigger] chain_of(self.docs@[d], k)[t] as int == q;
            assert(chain_in_use(self.store, chain_of(self.docs@[d], k)));
            assert(self.store.in_use(chain_of(self.docs@[d], k)[t] as int));
        }
        if q != 0 && !crate::store::is_free(fl, q) && !crate::store::is_chain_page(fl, q) {
            assert(self.store.in_use(q));
        }
    }

    pub closed spec fn page_listed_free(&self, q: int) -> bool {
        crate::store::is_free(self.store.chain(), q)
    }

    pub closed spec fn page_of_free_list(&self, q: int) -> bool {
        crate::store::is_chain_page(self.store.chain(), q)
    }

    pub closed spec fn page_in_chain(&self, q: int) -> bool {
        exists|d: int, k: int, t: int|
            0 <= d < self.docs@.len() && valid_k(self.docs@[d], k) && 0 <= t < chain_of(self.docs@[d], k).len()
                && #[trigger] chain_of(self.docs@[d], k)[t] as int == q
    }

    /// The committed content as records: one write per document holding its
    /// current bytes, then one bind per path. Replaying them into an empty
    /// store rebuilds exactly the documents and paths.
    pub fn snapshot_records(&mut self) -> (r: Result<Vec<WalRecord>, StreamDbError>)
        requires
            old(self).wf(),
        ensures
            final(self).wf(),
            final(self).documents() == old(self).documents(),
            final(self).paths() == old(self).paths(),
            final(self).log() == old(self).log(),
            final(self).staged() == old(self).staged(),
            final(self).cfg() == old(self).cfg(),
            r is Ok,
            r is Ok ==> crate::model::replay(no_docs(), no_paths(), r->Ok_0@) == (old(self).documents(), old(self).paths()),
            r is Ok && (forall|x: u128| #[trigger] old(self).documents().contains_key(x) ==> old(self).documents()[x].len() <= 0x1000_0000)
                ==> forall|k: int| 0 <= k < r->Ok_0@.len() ==> (#[trigger] crate::wal::view_of(r->Ok_0@[k])).2.len() <= 0x1000_0000,
    {
        let ghost prev = *self;
        let mut recs: Vec<WalRecord> = Vec::new();
        let n = self.docs.len();
        let mut i: usize = 0;
        while i < n
            invariant
                self.wf(),
                self.documents() == prev.documents(),
                self.paths() == prev.paths(),
                self.log() == prev.log(),
                self.staged() == prev.staged(),
                self.cfg() == prev.cfg(),
                (forall|x: u128| #[trigger] prev.documents().contains_key(x) ==> prev.documents()[x].len() <= 0x1000_0000)
                    ==> forall|k: int| 0 <= k < recs@.len() ==> (#[trigger] crate::wal::view_of(recs@[k])).2.len() <= 0x1000_0000,
                self.docs == prev.docs,
                n == self.docs@.len(),
                i <= n,
                crate::model::replay(no_docs(), no_paths(), recs@) == (
                    Map::new(|x: u128| exists|d: int| 0 <= d < i && #[trigger] self.docs@[d].id == x, |x: u128| self.documents()[x]),
                    no_paths(),
                ),
            decreases n - i,
        {
            let id = self.docs[i].id;
            proof {
                self.lemma_doc_index(i as int);
            }
            let ghost st = *self;
            proof {
                assert(valid_k(self.docs@[i as int], -1));
                assert(chain_of(self.docs@[i as int], -1) == self.docs@[i as int].pages@);
                assert forall|t: int| 0 <= t < self.docs@[i as int].pages@.len() implies 0 <= #[trigger] self.docs@[i as int].pages@[t] < self.store.total() by {
                    assert(self.store.in_use(chain_of(self.docs@[i as int], -1)[t] as int));
                }
            }
            let data = match read_chain(&mut self.store, &self.docs[i].pages, false) {
                Ok(v) => v,
                Err(e) => {
                    return Err(e);
                },
            };
            proof {
                self.lemma_same_store(st);
                assert(data@ == self.documents()[id]);
            }
            let ghost before = recs@;
            recs.push(WalRecord::Write { id, data });
            proof {
                assert(recs@.drop_last() =~= before);
                if forall|x: u128| #[trigger] prev.documents().contains_key(x) ==> prev.documents()[x].len() <= 0x1000_0000 {
                    assert(prev.documents().contains_key(id));
                    assert forall|k: int| 0 <= k < recs@.len() implies (#[trigger] crate::wal::view_of(recs@[k])).2.len() <= 0x1000_0000 by {
                        if k < before.len() {
                            assert(recs@[k] == before[k]);
                        }
                    }
                }
                let m0 = Map::new(|x: u128| exists|d: int| 0 <= d < i && #[trigger] self.docs@[d].id == x, |x: u128| self.documents()[x]);
                let m1 = Map::new(|x: u128| exists|d: int| 0 <= d < i + 1 && #[trigger] self.docs@[d].id == x, |x: u128| self.documents()[x]);
                assert forall|x: u128| #[trigger] m1.contains_key(x) == m0.insert(id, self.documents()[id]).contains_key(x) by {
                    if m1.contains_key(x) && x != id {
                        let d = choose|d: int| 0 <= d < i + 1 && #[trigger] self.docs@[d].id == x;
                        assert(d != i);
                    }
                    if x == id {
                        assert(self.docs@[i as int].id == x);
                    }
                    if m0.contains_key(x) {
                        let d = choose|d: int| 0 <= d < i && #[trigger] self.docs@[d].id == x;
                        assert(0 <= d < i + 1);
                    }
                }
                assert(m1 =~= m0.insert(id, self.documents()[id]));
            }
            i = i + 1;
        }
        proof {
            let m = Map::new(|x: u128| exists|d: int| 0 <= d < n && #[trigger] self.docs@[d].id == x, |x: u128| self.documents()[x]);
            assert forall|x: u128| #[trigger] m.contains_key(x) == self.documents().contains_key(x) by {
                if self.has_doc(x) {
                    let d = choose|d: int| 0 <= d < self.docs@.len() && #[trigger] self.docs@[d].id == x;
                    assert(0 <= d < n);
                }
            }
            assert(m =~= self.documents());
        }
        let ghost docs_done = recs@;
        let entries = self.trie.entries();
        let mut j: usize = 0;
        while j < entries.len()
            invariant
                self.wf(),
                self.documents() == prev.documents(),
                self.paths() == prev.paths(),
                (forall|x: u128| #[trigger] prev.documents().contains_key(x) ==> prev.documents()[x].len() <= 0x1000_0000)
                    ==> forall|k: int| 0 <= k < recs@.len() ==> (#[trigger] crate::wal::view_of(recs@[k])).2.len() <= 0x1000_0000,
                j <= entries@.len(),
                forall|k: int| 0 <= k < entries@.len() ==> self.trie@.contains_key(#[trigger] entries@[k].0@) && self.trie@[entries@[k].0@] == entries@[k].1,
                forall|key: Seq<u8>| #[trigger] self.trie@.contains_key(key) ==> exists|k: int| 0 <= k < entries@.len() && entries@[k].0@ == key,
                crate::model::replay(no_docs(), no_paths(), recs@) == (
                    self.documents(),
                    Map::new(|p: Seq<u8>| exists|k: int| 0 <= k < j && key_of(#[trigger] entries@[k].0@) == p, |p: Seq<u8>| self.paths()[p]),
                ),
            decreases entries@.len() - j,
        {
            let path = reversed(entries[j].0.as_slice());
            let id = entries[j].1;
            let ghost before = recs@;
            proof {
                let key = entries@[j as int].0@;
                lemma_reverse_twice(key);
                lemma_reverse_twice(path@);
                assert(key_of(path@) == key);
                assert(self.paths().contains_key(path@));
                assert(self.paths()[path@] == id);
                assert(valid_path(path@));
                let d = choose|d: int| 0 <= d < self.docs@.len() && #[trigger] self.docs@[d].id == self.trie@[key];
                assert(self.has_doc(id));
            }
            recs.push(WalRecord::Bind { path, id });
            proof {
                assert(recs@.drop_last() =~= before);
                if forall|x: u128| #[trigger] prev.documents().contains_key(x) ==> prev.documents()[x].len() <= 0x1000_0000 {
                    assert forall|k: int| 0 <= k < recs@.len() implies (#[trigger] crate::wal::view_of(recs@[k])).2.len() <= 0x1000_0000 by {
                        if k < before.len() {
                            assert(recs@[k] == before[k]);
                        }
                    }
                }
                let p0 = Map::new(|p: Seq<u8>| exists|k: int| 0 <= k < j && key_of(#[trigger] entries@[k].0@) == p, |p: Seq<u8>| self.paths()[p]);
                let p1 = Map::new(|p: Seq<u8>| exists|k: int| 0 <= k < j + 1 && key_of(#[trigger] entries@[k].0@) == p, |p: Seq<u8>| self.paths()[p]);
                let pth = key_of(entries@[j as int].0@);
                assert(pth == path@);
                if p0.contains_key(pth) {
                    assert(p1 =~= p0);
                } else {
                    assert(p1 =~= p0.insert(pth, id));
                }
            }
            j = j + 1;
        }
        proof {
            let pm = Map::new(|p: Seq<u8>| exists|k: int| 0 <= k < entries@.len() && key_of(#[trigger] entries@[k].0@) == p, |p: Seq<u8>| self.paths()[p]);
            assert forall|p: Seq<u8>| #[trigger] pm.contains_key(p) == self.paths().contains_key(p) by {
                if self.paths().contains_key(p) {
                    let key = key_of(p);
                    let k = choose|k: int| 0 <= k < entries@.len() && entries@[k].0@ == key;
                    lemma_reverse_twice(p);
                    assert(key_of(entries@[k].0@) == p);
                }
                if pm.contains_key(p) {
                    let k = choose|k: int| 0 <= k < entries@.len() && key_of(#[trigger] entries@[k].0@) == p;
                    lemma_reverse_twice(entries@[k].0@);
                    assert(self.trie@.contains_key(key_of(p)));
                }
            }
            assert(pm =~= self.paths());
        }
        Ok(recs)
    }

    /// Applies records in order to the committed state, skipping those that
    /// do not apply; stops with `InvalidInput` when the file cannot grow.
    fn apply_all(&mut self, recs: &Vec<WalRecord>) -> (r: Result<(), StreamDbError>)
        requires
            old(self).wf(),
        ensures
            final(self).wf(),
            final(self).cfg() == old(self).cfg(),
            final(self).log() == old(self).log(),
            final(self).staged() == old(self).staged(),
            final(self).quick() == old(self).quick(),
            r is Ok ==> (final(self).documents(), final(self).paths()) == crate::model::replay(
                old(self).documents(),
                old(self).paths(),
                recs@,
            ),
            r is Err ==> (r matches Err(StreamDbError::InvalidInput)),
            (forall|i: int| 0 <= i < recs@.len() ==> !(#[trigger] recs@[i] is Write)) ==> r is Ok,
    {
        let ghost prev = *self;
        let mut i: usize = 0;
        while i < recs.len()
            invariant
                prev == *old(self),
                self.wf(),
                self.cfg() == prev.cfg(),
                self.quick() == prev.quick(),
                self.log() == prev.log(),
                self.staged() == prev.staged(),
                i <= recs@.len(),
                (self.documents(), self.paths()) == crate::model::replay(prev.documents(), prev.paths(), recs@.subrange(0, i as int)),
            decreases recs@.len() - i,
        {
            match self.apply_record(&recs[i]) {
                Ok(_) => {},
                Err(e) => {
                    return Err(e);
                },
            }
            proof {
                let sub = recs@.subrange(0, i + 1);
                assert(sub.drop_last() =~= recs@.subrange(0, i as int));
                assert(sub.last() == recs@[i as int]);
            }
            i = i + 1;
        }
        proof {
            assert(recs@.subrange(0, recs@.len() as int) =~= recs@);
        }
        Ok(())
    }

    /// Reopens a store from its checkpoint and its log: the checkpoint's
    /// records, then the log's, each read up to the first torn or corrupt
    /// frame, are replayed into an empty store.
    pub fn open_with_config(config: Config, checkpoint: &[u8], log: &[u8]) -> (r: Result<StreamDb, StreamDbError>)
        requires
            config.wf(),
        ensures
            r is Ok ==> r->Ok_0.wf() && r->Ok_0.cfg() == config && r->Ok_0.staged() is None,
            r is Ok ==> (r->Ok_0.documents(), r->Ok_0.paths()) == ({
                let (d, p) = crate::wal::replay_views(no_docs(), no_paths(), crate::wal::parse(checkpoint@));
                crate::wal::replay_views(d, p, crate::wal::parse(log@))
            }),
            r is Err ==> (r matches Err(StreamDbError::InvalidInput)),
            r is Ok ==> !r->Ok_0.quick() && r->Ok_0.log().len() == 0,
            (forall|i: int| 0 <= i < crate::wal::parse(checkpoint@).len() ==> (#[trigger] crate::wal::parse(checkpoint@)[i]).0 != 1)
                && (forall|i: int| 0 <= i < crate::wal::parse(log@).len() ==> (#[trigger] crate::wal::parse(log@)[i]).0 != 1)
                ==> r is Ok,
    {
        let mut db = StreamDb::new(config);
        let base = crate::wal::decode_log(checkpoint);
        let tail = crate::wal::decode_log(log);
        proof {
            assert forall|i: int| 0 <= i < base@.len() && crate::wal::parse(checkpoint@)[i].0 != 1 implies !(#[trigger] base@[i] is Write) by {
                assert(crate::wal::views(base@)[i] == crate::wal::view_of(base@[i]));
            }
            assert forall|i: int| 0 <= i < tail@.len() && crate::wal::parse(log@)[i].0 != 1 implies !(#[trigger] tail@[i] is Write) by {
                assert(crate::wal::views(tail@)[i] == crate::wal::view_of(tail@[i]));
            }
        }
        match db.apply_all(&base) {
            Ok(()) => {},
            Err(e) => {
                return Err(e);
            },
        }
        let ghost mid = (db.documents(), db.paths());
        match db.apply_all(&tail) {
            Ok(()) => {},
            Err(e) => {
                return Err(e);
            },
        }
        proof {
            crate::wal::lemma_replay_by_views(no_docs(), no_paths(), base@);
            crate::wal::lemma_replay_by_views(mid.0, mid.1, tail@);
        }
        db.checkpoint();
        Ok(db)
    }

    /// The committed content as checkpoint bytes: replaying them, as
    /// `open_with_config` does, rebuilds exactly the documents and paths.
    pub fn checkpoint_bytes(&mut self) -> (r: Result<Vec<u8>, StreamDbError>)
        requires
            old(self).wf(),
        ensures
            final(self).wf(),
            final(self).documents() == old(self).documents(),
            final(self).paths() == old(self).paths(),
            final(self).log() == old(self).log(),
            final(self).staged() == old(self).staged(),
            final(self).cfg() == old(self).cfg(),
            r is Ok ==> crate::wal::replay_views(no_docs(), no_paths(), crate::wal::parse(r->Ok_0@))
                == (old(self).documents(), old(self).paths()),
            r is Err ==> (r matches Err(StreamDbError::InvalidData)),
            (forall|x: u128| #[trigger] old(self).documents().contains_key(x) ==> old(self).documents()[x].len() <= 0x1000_0000)
                ==> r is Ok,
    {
        let recs = match self.snapshot_records() {
            Ok(v) => v,
            Err(e) => {
                return Err(e);
            },
        };
        match crate::wal::encode_log(&recs) {
            Some(bytes) => {
                proof {
                    crate::wal::lemma_log_replay(no_docs(), no_paths(), recs@);
                }
                Ok(bytes)
            },
            None => Err(StreamDbError::InvalidData),
        }
    }

    /// The records logged since the last checkpoint, framed for the log file.
    pub fn log_bytes(&self) -> (r: Option<Vec<u8>>)
        ensures
            r matches Some(v) ==> v@ == crate::wal::log_of(crate::wal::views(self.log())),
            (forall|k: int| 0 <= k < self.log().len() ==> (#[trigger] crate::wal::view_of(self.log()[k])).2.len() <= 0x1000_0000)
                ==> r is Some,
    {
        assert(self.log() == self.wal@);
        crate::wal::encode_log(&self.wal)
    }

    /// The file's bytes as laid out on disk: the database header page, then
    /// each page's header, stored payload and padding.
    pub closed spec fn file_view(&self) -> Seq<u8> {
        crate::codec::db_header_bytes(crate::store::header_of(self.store.chain())) + crate::pager::zeros(
            self.store.cfg().page_size - crate::codec::DB_HEADER_SIZE,
        ) + crate::pager::pages_image(self.store.cfg(), self.store.pages(), self.store.total())
    }

    /// The data file starts with a header that reads back: its magic matches.
    pub proof fn lemma_file_header_reads_back(&self)
        ensures
            crate::codec::db_header_from(self.file_view()) is Some,
    {
        let h = crate::store::header_of(self.store.chain());
        let rest = crate::pager::zeros(self.store.cfg().page_size - crate::codec::DB_HEADER_SIZE)
            + crate::pager::pages_image(self.store.cfg(), self.store.pages(), self.store.total());
        crate::codec::lemma_db_header_round_trip(h, rest);
        assert(self.file_view() =~= crate::codec::db_header_bytes(h) + rest);
    }

    /// The data file in the paged on-disk format.
    pub fn file_image(&self) -> (r: Vec<u8>)
        requires
            self.wf(),
        ensures
            r@ == self.file_view(),
    {
        self.store.file_image()
    }

    /// Appends a record to the log.
    fn log_record(&mut self, rec: WalRecord)
        requires
            old(self).wf(),
        ensures
            final(self).wf(),
            final(self).log() == old(self).log().push(rec),
            final(self).staged() == old(self).staged(),
            final(self).documents() == old(self).documents(),
            final(self).paths() == old(self).paths(),
            final(self).cfg() == old(self).cfg(),
            final(self).quick() == old(self).quick(),
            final(self).docs == old(self).docs,
    {
        let ghost prev = *self;
        self.wal.push(rec);
        proof {
            self.lemma_wf_frame(prev);
        }
    }

    /// Adds a record to the open transaction.
    fn stage(&mut self, rec: WalRecord)
        requires
            old(self).wf(),
            old(self).staged() is Some,
        ensures
            final(self).wf(),
            final(self).staged() == Some(old(self).staged()->0.push(rec)),
            final(self).documents() == old(self).documents(),
            final(self).paths() == old(self).paths(),
            final(self).log() == old(self).log(),
            final(self).cfg() == old(self).cfg(),
            final(self).quick() == old(self).quick(),
    {
        let ghost prev = *self;
        match &mut self.staging {
            Some(v) => {
                v.push(rec);
            },
            None => {},
        }
        proof {
            self.lemma_wf_frame(prev);
        }
    }

    /// The invariant does not depend on the log, the staging area or the quick flag.
    proof fn lemma_wf_frame(&self, prev: StreamDb)
        requires
            prev.wf(),
            self.store == prev.store,
            self.docs == prev.docs,
            self.trie == prev.trie,
            self.owner == prev.owner,
            self.path_cache == prev.path_cache,
        ensures
            self.wf(),
            self.documents() == prev.documents(),
            self.paths() == prev.paths(),
            self.cfg() == prev.cfg(),
    {
        assert(self.documents() =~= prev.documents());
        assert(self.paths() =~= prev.paths());
    }

    proof fn lemma_doc_index_of(&self, id: u128)
        requires
            self.wf(),
            self.has_doc(id),
        ensures
            0 <= self.index_of(id) < self.docs@.len(),
            self.docs@[self.index_of(id)].id == id,
    {
    }

    /// After the store changed under the documents without touching any page
    /// in use, every document reads as before.
    proof fn lemma_store_frame(&self, prev: StreamDb)
        requires
            prev.wf(),
            self.store.wf(),
            self.store.cfg() == prev.store.cfg(),
            forall|q: int| #[trigger]
                prev.store.in_use(q) ==> self.store.in_use(q) && self.store.pages()[q]
                    == prev.store.pages()[q],
            self.docs == prev.docs,
        ensures
            forall|d: int, k: int|
                0 <= d < self.docs@.len() && valid_k(self.docs@[d], k) ==> {
                    &&& chain_readable(self.store.cfg(), self.store.pages(), #[trigger] chain_of(self.docs@[d], k))
                    &&& chain_in_use(self.store, chain_of(self.docs@[d], k))
                    &&& chain_bytes(self.store.cfg(), self.store.pages(), chain_of(self.docs@[d], k))
                        == chain_bytes(prev.store.cfg(), prev.store.pages(), chain_of(self.docs@[d], k))
                },
    {
        assert forall|d: int, k: int|
            0 <= d < self.docs@.len() && valid_k(self.docs@[d], k) implies {
                &&& chain_readable(self.store.cfg(), self.store.pages(), #[trigger] chain_of(self.docs@[d], k))
                &&& chain_in_use(self.store, chain_of(self.docs@[d], k))
                &&& chain_bytes(self.store.cfg(), self.store.pages(), chain_of(self.docs@[d], k))
                    == chain_bytes(prev.store.cfg(), prev.store.pages(), chain_of(self.docs@[d], k))
            } by {
            let c = chain_of(self.docs@[d], k);
            assert(chain_in_use(prev.store, c));
            assert(same_reads(prev.store.cfg(), prev.store.pages(), self.store.pages(), c)) by {
                assert forall|t: int, q: bool| 0 <= t < c.len() implies #[trigger] crate::pager::page_read(
                    prev.store.cfg(),
                    self.store.pages()[c[t] as int],
                    q,
                ) == crate::pager::page_read(prev.store.cfg(), prev.store.pages()[c[t] as int], q) by {
                    assert(prev.store.in_use(c[t] as int));
                }
            }
            lemma_chain_frame(prev.store.cfg(), prev.store.pages(), self.store.pages(), c);
            assert forall|t: int| 0 <= t < c.len() implies #[trigger] self.store.in_use(c[t] as int) by {
                assert(prev.store.in_use(c[t] as int));
            }
        }
    }

    /// Finds a document's place in the table.
    fn find(&self, id: u128) -> (r: Option<usize>)
        requires
            self.wf(),
        ensures
            r is None <==> !self.has_doc(id),
            r matches Some(d) ==> d < self.docs@.len() && self.docs@[d as int].id == id && d
                == self.index_of(id),
    {
        let mut i: usize = 0;
        while i < self.docs.len()
            invariant
                self.wf(),
                i <= self.docs@.len(),
                forall|j: int| 0 <= j < i ==> #[trigger] self.docs@[j].id != id,
            decreases self.docs@.len() - i,
        {
            if self.docs[i].id == id {
                proof {
                    self.lemma_doc_index(i as int);
                }
                return Some(i);
            }
            i = i + 1;
        }
        None
    }
}

/// A path is found by a search for any of its non-empty prefixes.
pub proof fn lemma_prefix_search_finds(paths: Paths, p: Seq<u8>, k: int)
    requires
        paths.contains_key(p),
        0 < k <= p.len(),
    ensures
        search_match(p.subrange(0, k), p),
{
    assert(p.subrange(0, k).is_prefix_of(p));
}

/// A document written under a path reads back through that path: the state
/// `write_document` leaves outside a transaction binds the path to the new id
/// and holds the bytes under it, so `get` on the path returns them.
pub proof fn lemma_written_document_reads_back(before: Docs, before_paths: Paths, after: Docs, after_paths: Paths, path: Seq<u8>, id: u128, data: Seq<u8>)
    requires
        after == before.insert(id, data),
        after_paths == before_paths.insert(path, id),
    ensures
        after_paths.contains_key(path),
        after.contains_key(after_paths[path]),
        after[after_paths[path]] == data,
{
}

/// A path deleted before a checkpoint stays unbound once the store is
/// reopened from that checkpoint and an empty log: `checkpoint_bytes`
/// replays to the state it was taken from, and `open_with_config` replays
/// the checkpoint, then the log.
pub proof fn lemma_deleted_path_gone_after_reopen(
    taken_from: Paths,
    taken_docs: Docs,
    checkpoint: Seq<u8>,
    reopened_docs: Docs,
    reopened_paths: Paths,
    path: Seq<u8>,
)
    requires
        !taken_from.contains_key(path),
        crate::wal::replay_views(no_docs(), no_paths(), crate::wal::parse(checkpoint)) == (taken_docs, taken_from),
        (reopened_docs, reopened_paths) == ({
            let (d, p) = crate::wal::replay_views(no_docs(), no_paths(), crate::wal::parse(checkpoint));
            crate::wal::replay_views(d, p, crate::wal::parse(Seq::empty()))
        }),
    ensures
        !reopened_paths.contains_key(path),
{
    reveal(crate::wal::parse);
    assert(crate::wal::parse(Seq::<u8>::empty()) =~= Seq::<(u8, u128, Seq<u8>)>::empty());
}

/// After a crash that cut the last log frame short, reopening gives the
/// checkpoint's content with exactly the fully logged records replayed.
pub proof fn lemma_reopen_after_crash(
    checkpoint: Seq<u8>,
    logged: Seq<WalRecord>,
    torn: WalRecord,
    k: int,
    reopened_docs: Docs,
    reopened_paths: Paths,
)
    requires
        forall|i: int| 0 <= i < logged.len() ==> (#[trigger] crate::wal::view_of(logged[i])).2.len() <= 0x1000_0000,
        crate::wal::view_of(torn).2.len() <= 0x1000_0000,
        0 <= k < crate::wal::frame_of(crate::wal::view_of(torn)).len(),
        (reopened_docs, reopened_paths) == ({
            let (d, p) = crate::wal::replay_views(no_docs(), no_paths(), crate::wal::parse(checkpoint));
            crate::wal::replay_views(d, p, crate::wal::parse(
                crate::wal::log_of(crate::wal::views(logged)) + crate::wal::frame_of(crate::wal::view_of(torn)).subrange(0, k),
            ))
        }),
    ensures
        (reopened_docs, reopened_paths) == ({
            let (d, p) = crate::wal::replay_views(no_docs(), no_paths(), crate::wal::parse(checkpoint));
            crate::model::replay(d, p, logged)
        }),
{
    let (d, p) = crate::wal::replay_views(no_docs(), no_paths(), crate::wal::parse(checkpoint));
    crate::wal::lemma_crash_replay(d, p, logged, torn, k);
}

/// The entries held by the path cache, by path.
pub uninterp spec fn cached_ids(c: lru::LruCache<Vec<u8>, u128>) -> Map<Seq<u8>, u128>;

pub open spec fn no_cached_ids() -> Map<Seq<u8>, u128> {
    Map::empty()
}

/// Relies on `lru::LruCache::new`: an empty cache with room for `cap` entries.
#[verifier::external_body]
fn path_cache_new(cap: usize) -> (r: lru::LruCache<Vec<u8>, u128>)
    requires
        cap > 0,
    ensures
        cached_ids(r) == no_cached_ids(),
{
    lru::LruCache::new(std::num::NonZeroUsize::new(cap).unwrap())
}

/// Relies on `lru::LruCache::get`: the entry under the key, if any; only the
/// recency order changes.
#[verifier::external_body]
fn path_cache_get(c: &mut lru::LruCache<Vec<u8>, u128>, k: &[u8]) -> (r: Option<u128>)
    ensures
        cached_ids(*final(c)) == cached_ids(*old(c)),
        r matches Some(v) ==> cached_ids(*old(c)).contains_key(k@) && cached_ids(*old(c))[k@] == v,
        r is None ==> !cached_ids(*old(c)).contains_key(k@),
{
    c.get(k).copied()
}

/// Relies on `lru::LruCache::put`: the key now holds the value; to make room the
/// least recently used other entry may be evicted, nothing else changes.
#[verifier::external_body]
fn path_cache_put(c: &mut lru::LruCache<Vec<u8>, u128>, k: Vec<u8>, v: u128)
    ensures
        cached_ids(*final(c)).contains_key(k@),
        cached_ids(*final(c))[k@] == v,
        forall|j: Seq<u8>|
            #[trigger] cached_ids(*final(c)).contains_key(j) && j != k@ ==> cached_ids(
                *old(c),
            ).contains_key(j) && cached_ids(*old(c))[j] == cached_ids(*final(c))[j],
{
    c.put(k, v);
}

/// Relies on `lru::LruCache::pop`: the entry under the key is removed.
#[verifier::external_body]
fn path_cache_pop(c: &mut lru::LruCache<Vec<u8>, u128>, k: &[u8])
    ensures
        cached_ids(*final(c)) == cached_ids(*old(c)).remove(k@),
{
    c.pop(k);
}

/// Relies on `lru::LruCache::clear`: every entry is removed.
#[verifier::external_body]
fn path_cache_clear(c: &mut lru::LruCache<Vec<u8>, u128>)
    ensures
        cached_ids(*final(c)) == no_cached_ids(),
{
    c.clear();
}

/// Relies on `uuid::Uuid::new_v4`: a random version-4 UUID, taken as its 128-bit value.
#[verifier::external_body]
fn fresh_id() -> (r: u128) {
    uuid::Uuid::new_v4().as_u128()
}

/// Whether `p` is already among the listed paths.
fn already_listed(v: &Vec<Vec<u8>>, p: &[u8]) -> (r: bool)
    ensures
        r == listed(v@, p@),
{
    let mut i: usize = 0;
    while i < v.len()
        invariant
            i <= v@.len(),
            forall|k: int| 0 <= k < i ==> #[trigger] v@[k]@ != p@,
        decreases v@.len() - i,
    {
        if crate::image::bytes_equal(v[i].as_slice(), p) {
            return true;
        }
        i = i + 1;
    }
    false
}

/// The listed paths are pairwise distinct.
pub open spec fn distinct_paths(v: Seq<Vec<u8>>) -> bool {
    forall|a: int, b: int| 0 <= a < b < v.len() ==> #[trigger] v[a]@ != #[trigger] v[b]@
}

/// Whether `a` starts with `b`.
pub fn starts_with(a: &[u8], b: &[u8]) -> (r: bool)
    ensures
        r == b@.is_prefix_of(a@),
{
    if b.len() > a.len() {
        return false;
    }
    let mut i: usize = 0;
    while i < b.len()
        invariant
            b@.len() <= a@.len(),
            i <= b@.len(),
            forall|j: int| 0 <= j < i ==> #[trigger] a@[j] == b@[j],
        decreases b@.len() - i,
    {
        if a[i] != b[i] {
            assert(a@.subrange(0, b@.len() as int)[i as int] != b@[i as int]);
            return false;
        }
        i = i + 1;
    }
    assert(b@ =~= a@.subrange(0, b@.len() as int));
    true
}

/// Whether `a` ends with `b`.
pub fn ends_with(a: &[u8], b: &[u8]) -> (r: bool)
    ensures
        r == b@.is_suffix_of(a@),
{
    if b.len() > a.len() {
        return false;
    }
    let alen = a.len();
    let off = alen - b.len();
    let mut i: usize = 0;
    while i < b.len()
        invariant
            b@.len() <= a@.len(),
            alen == a@.len(),
            off == a@.len() - b@.len(),
            i <= b@.len(),
            forall|j: int| 0 <= j < i ==> #[trigger] a@[off + j] == b@[j],
        decreases b@.len() - i,
    {
        if a[off + i] != b[i] {
            assert(a@.subrange(off as int, a@.len() as int)[i as int] != b@[i as int]);
            return false;
        }
        i = i + 1;
    }
    assert forall|j: int| 0 <= j < b@.len() implies a@.subrange(off as int, a@.len() as int)[j] == b@[j] by {
        assert(a@[off + j] == b@[j]);
    }
    assert(b@ =~= a@.subrange(off as int, a@.len() as int));
    true
}

/// Checks a path: non-empty, at most 1024 bytes, no NUL byte, no `//`.
pub fn validate_path(path: &[u8]) -> (r: bool)
    ensures
        r == valid_path(path@),
{
    if path.len() == 0 || path.len() > 1024 {
        return false;
    }
    let mut i: usize = 0;
    while i < path.len()
        invariant
            0 < path@.len() <= 1024,
            i <= path@.len(),
            forall|j: int| 0 <= j < i ==> #[trigger] path@[j] != 0u8,
            forall|j: int| 0 <= j < i && j < path@.len() - 1 ==> !(#[trigger] path@[j] == 0x2fu8 && path@[j + 1] == 0x2fu8),
        decreases path@.len() - i,
    {
        if path[i] == 0 {
            return false;
        }
        if i + 1 < path.len() && path[i] == 0x2f && path[i + 1] == 0x2f {
            return false;
        }
        i = i + 1;
    }
    true
}

/// The bytes of a path, reversed: its key in the trie.
pub fn reversed(path: &[u8]) -> (r: Vec<u8>)
    ensures
        r@ == key_of(path@),
{
    let mut out: Vec<u8> = Vec::new();
    let n = path.len();
    let mut i: usize = n;
    while i > 0
        invariant
            i <= n,
            n == path@.len(),
            out@.len() == n - i,
            forall|j: int| 0 <= j < n - i ==> #[trigger] out@[j] == path@[n - 1 - j],
        decreases i,
    {
        i = i - 1;
        out.push(path[i]);
    }
    assert(out@ =~= path@.reverse());
    out
}

} // verus!
