//! Documents as chains of data pages: writing a byte stream into freshly
//! allocated pages linked head to tail, reading it back, and releasing it.
use vstd::prelude::*;
use crate::error::StreamDbError;
use crate::pager::{Page, page_read, chunk_capacity};
use crate::store::Store;
use crate::config::Config;

verus! {

/// The logical payload of a page, empty when it does not read back.
pub open spec fn payload_of(cfg: Config, p: Page) -> Seq<u8> {
    match page_read(cfg, p, false) {
        Ok(x) => x,
        Err(_) => Seq::empty(),
    }
}

/// The bytes a chain holds: its pages' payloads, head first.
pub open spec fn chain_bytes(cfg: Config, pages: Seq<Page>, chain: Seq<i64>) -> Seq<u8>
    decreases chain.len(),
{
    if chain.len() == 0 {
        Seq::empty()
    } else {
        chain_bytes(cfg, pages, chain.drop_last()) + payload_of(cfg, pages[chain.last() as int])
    }
}

/// Every page of the chain reads back cleanly.
pub open spec fn chain_readable(cfg: Config, pages: Seq<Page>, chain: Seq<i64>) -> bool {
    forall|t: int|
        0 <= t < chain.len() ==> #[trigger] page_read(cfg, pages[chain[t] as int], false) is Ok
}

/// The pages of a chain are distinct.
pub open spec fn chain_distinct(chain: Seq<i64>) -> bool {
    forall|a: int, b: int| 0 <= a < chain.len() && 0 <= b < chain.len() && a != b ==> #[trigger] chain[a] != #[trigger] chain[b]
}

/// Two page sequences agree on what each page of the chain reads as.
pub open spec fn same_reads(cfg: Config, p1: Seq<Page>, p2: Seq<Page>, chain: Seq<i64>) -> bool {
    forall|t: int, q: bool|
        0 <= t < chain.len() ==> #[trigger] page_read(cfg, p2[chain[t] as int], q) == page_read(
            cfg,
            p1[chain[t] as int],
            q,
        )
}

pub proof fn lemma_chain_frame(cfg: Config, p1: Seq<Page>, p2: Seq<Page>, chain: Seq<i64>)
    requires
        same_reads(cfg, p1, p2, chain),
    ensures
        chain_bytes(cfg, p1, chain) == chain_bytes(cfg, p2, chain),
        chain_readable(cfg, p1, chain) ==> chain_readable(cfg, p2, chain),
    decreases chain.len(),
{
    if chain.len() > 0 {
        let init = chain.drop_last();
        assert(same_reads(cfg, p1, p2, init)) by {
            assert forall|t: int, q: bool| 0 <= t < init.len() implies #[trigger] page_read(
                cfg,
                p2[init[t] as int],
                q,
            ) == page_read(cfg, p1[init[t] as int], q) by {
                assert(init[t] == chain[t]);
                assert(page_read(cfg, p2[chain[t] as int], q) == page_read(cfg, p1[chain[t] as int], q));
            }
        }
        lemma_chain_frame(cfg, p1, p2, init);
        assert(page_read(cfg, p2[chain[chain.len() - 1] as int], false) == page_read(cfg, p1[chain[chain.len() - 1] as int], false));
    }
    if chain_readable(cfg, p1, chain) {
        assert forall|t: int| 0 <= t < chain.len() implies #[trigger] page_read(cfg, p2[chain[t] as int], false) is Ok by {
            assert(page_read(cfg, p2[chain[t] as int], false) == page_read(cfg, p1[chain[t] as int], false));
        }
    }
}

/// Whether page `q` is one of the chain's pages.
pub open spec fn holds(chain: Seq<i64>, q: int) -> bool {
    exists|t: int| 0 <= t < chain.len() && #[trigger] chain[t] as int == q
}

/// Pages a document of `n` bytes takes.
pub open spec fn pages_needed(cfg: Config, n: int) -> int {
    (n + chunk_capacity(cfg) - 1) / chunk_capacity(cfg)
}

/// Pages that nobody but the chain's owner writes: in use in the store.
pub open spec fn chain_in_use(s: Store, chain: Seq<i64>) -> bool {
    forall|t: int| 0 <= t < chain.len() ==> #[trigger] s.in_use(chain[t] as int)
}

/// Writes `data` into a new chain of data pages, allocating each page as it
/// goes and linking it from its predecessor; on failure every page taken so
/// far is released again.
pub fn write_chain(s: &mut Store, data: &[u8], version: i32) -> (r: Result<Vec<i64>, StreamDbError>)
    requires
        old(s).wf(),
    ensures
        final(s).wf(),
        final(s).cfg() == old(s).cfg(),
        final(s).total() >= old(s).total(),
        final(s).stats_view() == old(s).stats_view(),
        forall|q: int| #[trigger]
            old(s).in_use(q) ==> final(s).in_use(q) && final(s).pages()[q] == old(s).pages()[q],
        r is Err ==> (r matches Err(StreamDbError::InvalidInput)) && forall|q: int| #[trigger]
            final(s).in_use(q) == old(s).in_use(q),
        r is Err ==> old(s).capacity() < pages_needed(old(s).cfg(), data@.len() as int),
        r matches Ok(chain) ==> chain@.len() == pages_needed(old(s).cfg(), data@.len() as int)
            && final(s).capacity() == old(s).capacity() - chain@.len(),
        r matches Ok(chain) ==> {
            &&& chain@.len() > 0 || data@.len() == 0
            &&& chain_distinct(chain@)
            &&& chain_in_use(*final(s), chain@)
            &&& forall|t: int| 0 <= t < chain@.len() ==> !old(s).in_use(#[trigger] chain@[t] as int)
            &&& forall|q: int| #[trigger]
                final(s).in_use(q) ==> old(s).in_use(q) || holds(chain@, q)
            &&& chain_readable(final(s).cfg(), final(s).pages(), chain@)
            &&& chain_bytes(final(s).cfg(), final(s).pages(), chain@) == data@
        },
{
    let cfg = s.config();
    proof {
        crate::store::lemma_store_cfg(*s);
    }
    let chunk: usize = if cfg.use_compression {
        ((cfg.page_size - cfg.page_header_size - 32) * 6 / 7) as usize
    } else {
        (cfg.page_size - cfg.page_header_size) as usize
    };
    assert(chunk == chunk_capacity(cfg) && chunk > 0);
    let mut chain: Vec<i64> = Vec::new();
    let mut written: usize = 0;
    assert((0 + chunk - 1) / (chunk as int) == 0) by (nonlinear_arith)
        requires
            chunk > 0,
    ;
    while written < data.len()
        invariant
            s.wf(),
            s.cfg() == cfg,
            cfg == old(s).cfg(),
            chunk == chunk_capacity(cfg),
            chunk > 0,
            written <= data@.len(),
            s.total() >= old(s).total(),
            s.stats_view() == old(s).stats_view(),
            forall|q: int| #[trigger]
                old(s).in_use(q) ==> s.in_use(q) && s.pages()[q] == old(s).pages()[q],
            chain_distinct(chain@),
            chain_in_use(*s, chain@),
            chain@.len() > 0 || written == 0,
            forall|t: int| 0 <= t < chain@.len() ==> !old(s).in_use(#[trigger] chain@[t] as int),
            forall|q: int| #[trigger] s.in_use(q) ==> old(s).in_use(q) || holds(chain@, q),
            chain_readable(cfg, s.pages(), chain@),
            chain_bytes(cfg, s.pages(), chain@) == data@.subrange(0, written as int),
            s.capacity() == old(s).capacity() - chain@.len(),
            chain@.len() == (written + chunk - 1) / (chunk as int),
            written < data@.len() ==> written == chain@.len() * chunk,
        decreases data@.len() - written,
    {
        let end = if data.len() - written > chunk {
            written + chunk
        } else {
            data.len()
        };
        let piece = vstd::slice::slice_subrange(data, written, end);
        let ghost before = *s;
        let ghost chain0 = chain@;
        let p = match s.allocate() {
            Ok(p) => p,
            Err(e) => {
                proof {
                    let k = chain@.len() as int;
                    let c = chunk as int;
                    let n = data@.len() as int;
                    assert(k < (n + c - 1) / c) by (nonlinear_arith)
                        requires
                            written == k * c,
                            written < n,
                            c > 0,
                            k >= 0,
                    {
                        assert(n + c - 1 >= (k + 1) * c);
                        assert((k + 1) * c / c == k + 1);
                    }
                }
                let ghost mid = *s;
                release_chain(s, &chain);
                proof {
                    assert forall|q: int| #[trigger] s.in_use(q) == old(s).in_use(q) by {
                        if s.in_use(q) {
                            assert(!holds(chain@, q));
                            assert(mid.in_use(q));
                            assert(before.in_use(q));
                        }
                        if old(s).in_use(q) {
                            assert(before.in_use(q));
                            assert(!holds(chain@, q)) by {
                                if holds(chain@, q) {
                                    let t = choose|t: int| 0 <= t < chain@.len() && #[trigger] chain@[t] as int == q;
                                    assert(!old(s).in_use(chain@[t] as int));
                                }
                            }
                            assert(mid.in_use(q));
                        }
                    }
                    assert forall|q: int| #[trigger] old(s).in_use(q) implies s.in_use(q) && s.pages()[q] == old(s).pages()[q] by {
                        assert(before.in_use(q));
                        assert(mid.in_use(q));
                        assert(mid.pages()[q] == before.pages()[q]);
                        assert(before.pages()[q] == old(s).pages()[q]);
                    }
                }
                return Err(e);
            },
        };
        let ghost after_alloc = *s;
        let prev: i64 = if chain.len() > 0 {
            chain[chain.len() - 1]
        } else {
            -1
        };
        s.write_data(p, piece, version, prev, -1);
        let ghost after_write = *s;
        if chain.len() > 0 {
            proof {
                assert(before.in_use(prev as int));
                assert(after_alloc.in_use(prev as int));
                assert(after_write.in_use(prev as int));
            }
            s.set_next(prev, p);
        }
        proof {
            assert forall|t: int| 0 <= t < chain@.len() implies #[trigger] chain@[t] != p by {
                assert(before.in_use(chain@[t] as int));
            }
            assert(same_reads(cfg, before.pages(), s.pages(), chain@)) by {
                assert forall|t: int, q: bool| 0 <= t < chain@.len() implies #[trigger] page_read(
                    cfg,
                    s.pages()[chain@[t] as int],
                    q,
                ) == page_read(cfg, before.pages()[chain@[t] as int], q) by {
                    let c = chain@[t] as int;
                    assert(before.in_use(c));
                    assert(c != p);
                    assert(after_alloc.in_use(c));
                    assert(after_alloc.pages()[c] == before.pages()[c]);
                    assert(after_write.pages()[c] == after_alloc.pages()[c]);
                }
            }
            lemma_chain_frame(cfg, before.pages(), s.pages(), chain@);
        }
        chain.push(p);
        proof {
            let c2 = chain@;
            assert(c2.drop_last() =~= chain0);
            if chain0.len() > 0 {
                assert(s.pages()[p as int] == after_write.pages()[p as int]);
            }
            assert(page_read(cfg, s.pages()[p as int], false) == crate::pager::ok_bytes(piece@));
            assert(payload_of(cfg, s.pages()[p as int]) == piece@);
            assert(chain_bytes(cfg, s.pages(), c2) == chain_bytes(cfg, s.pages(), chain0) + piece@);
            let k = chain0.len() as int;
            let c = chunk as int;
            let n = data@.len() as int;
            assert(k + 1 == (end + c - 1) / c) by (nonlinear_arith)
                requires
                    written == k * c,
                    end > written,
                    end <= written + c,
                    c > 0,
                    k >= 0,
            {
                assert((k + 1) * c <= end + c - 1 < (k + 2) * c);
            }
            if end < n {
                assert(end == written + c);
                assert(end == (k + 1) * c) by (nonlinear_arith)
                    requires
                        written == k * c,
                        end == written + c,
                ;
            }
            assert(data@.subrange(0, end as int) =~= data@.subrange(0, written as int) + piece@);
            assert(chain_distinct(c2));
            assert(chain_in_use(*s, c2)) by {
                assert forall|t: int| 0 <= t < c2.len() implies #[trigger] s.in_use(c2[t] as int) by {
                    if t < c2.len() - 1 {
                        assert(before.in_use(c2[t] as int));
                    }
                }
            }
            assert forall|q: int| #[trigger] s.in_use(q) implies old(s).in_use(q) || holds(c2, q) by {
                if s.in_use(q) && !old(s).in_use(q) {
                    if q == p {
                        assert(c2[c2.len() - 1] as int == q);
                    } else {
                        assert(after_alloc.in_use(q));
                        assert(before.in_use(q));
                        assert(holds(chain0, q));
                        let t = choose|t: int| 0 <= t < chain0.len() && #[trigger] chain0[t] as int == q;
                        assert(c2[t] == chain0[t]);
                        assert(c2[t] as int == q);
                    }
                }
            }
            assert(chain_readable(cfg, s.pages(), c2)) by {
                assert forall|t: int| 0 <= t < c2.len() implies #[trigger] page_read(cfg, s.pages()[c2[t] as int], false) is Ok by {
                    if t < c2.len() - 1 {
                        assert(c2[t] == c2.drop_last()[t]);
                    }
                }
            }
        }
        written = end;
    }
    proof {
        assert(data@.subrange(0, data@.len() as int) =~= data@);
    }
    Ok(chain)
}

/// Releases every page of a chain.
pub fn release_chain(s: &mut Store, chain: &Vec<i64>)
    requires
        old(s).wf(),
        chain_distinct(chain@),
        chain_in_use(*old(s), chain@),
    ensures
        final(s).wf(),
        final(s).cfg() == old(s).cfg(),
        final(s).total() >= old(s).total(),
        final(s).stats_view() == old(s).stats_view(),
        forall|q: int| #[trigger]
            final(s).in_use(q) <==> old(s).in_use(q) && !holds(chain@, q),
        forall|q: int| #[trigger]
            final(s).in_use(q) ==> final(s).pages()[q] == old(s).pages()[q],
        forall|t: int| 0 <= t < chain@.len() ==> crate::store::is_released(*final(s), #[trigger] chain@[t] as int),
{
    let mut i: usize = 0;
    while i < chain.len()
        invariant
            s.wf(),
            s.cfg() == old(s).cfg(),
            s.total() >= old(s).total(),
            s.stats_view() == old(s).stats_view(),
            i <= chain@.len(),
            chain_distinct(chain@),
            chain_in_use(*old(s), chain@),
            forall|q: int| #[trigger]
                s.in_use(q) <==> old(s).in_use(q) && !holds(chain@.subrange(0, i as int), q),
            forall|q: int| #[trigger] s.in_use(q) ==> s.pages()[q] == old(s).pages()[q],
            forall|t: int| 0 <= t < i ==> crate::store::is_released(*s, #[trigger] chain@[t] as int),
        decreases chain@.len() - i,
    {
        let p = chain[i];
        let ghost before = *s;
        let ghost sub = chain@.subrange(0, i as int);
        let ghost sub1 = chain@.subrange(0, i + 1);
        proof {
            assert(old(s).in_use(p as int));
            assert(!holds(sub, p as int)) by {
                if holds(sub, p as int) {
                    let t = choose|t: int| 0 <= t < sub.len() && #[trigger] sub[t] as int == p as int;
                    assert(chain@[t] == chain@[i as int]);
                }
            }
        }
        s.release(p);
        proof {
            assert(sub1[i as int] == p);
            assert forall|q: int| #[trigger] s.in_use(q) <==> old(s).in_use(q) && !holds(sub1, q) by {
                if holds(sub, q) {
                    let t = choose|t: int| 0 <= t < sub.len() && #[trigger] sub[t] as int == q;
                    assert(sub1[t] as int == q);
                }
                if holds(sub1, q) {
                    let t = choose|t: int| 0 <= t < sub1.len() && #[trigger] sub1[t] as int == q;
                    if t < i {
                        assert(sub[t] as int == q);
                    } else {
                        assert(q == p as int);
                    }
                }
                if q == p as int {
                    assert(sub1[i as int] as int == q);
                }
            }
            assert forall|t: int| 0 <= t < i + 1 implies crate::store::is_released(*s, #[trigger] chain@[t] as int) by {
                if t < i {
                    assert(crate::store::is_released(before, chain@[t] as int));
                }
            }
        }
        i = i + 1;
    }
    proof {
        assert(chain@.subrange(0, chain@.len() as int) =~= chain@);
    }
}

/// Reads a chain back, page by page, head first.
pub fn read_chain(s: &mut Store, chain: &Vec<i64>, quick: bool) -> (r: Result<Vec<u8>, StreamDbError>)
    requires
        old(s).wf(),
        chain_readable(old(s).cfg(), old(s).pages(), chain@),
        forall|t: int| 0 <= t < chain@.len() ==> 0 <= #[trigger] chain@[t] < old(s).total(),
    ensures
        final(s).wf(),
        final(s).cfg() == old(s).cfg(),
        final(s).pages() == old(s).pages(),
        final(s).chain() == old(s).chain(),
        r matches Ok(v) && v@ == chain_bytes(old(s).cfg(), old(s).pages(), chain@),
{
    let ghost cfg = s.cfg();
    let mut out: Vec<u8> = Vec::new();
    let mut i: usize = 0;
    while i < chain.len()
        invariant
            s.wf(),
            s.cfg() == old(s).cfg(),
            s.pages() == old(s).pages(),
            s.chain() == old(s).chain(),
            cfg == old(s).cfg(),
            i <= chain@.len(),
            chain_readable(cfg, s.pages(), chain@),
            forall|t: int| 0 <= t < chain@.len() ==> 0 <= #[trigger] chain@[t] < s.total(),
            out@ == chain_bytes(cfg, s.pages(), chain@.subrange(0, i as int)),
        decreases chain@.len() - i,
    {
        let p = chain[i];
        assert(page_read(cfg, s.pages()[p as int], false) is Ok);
        let v = match s.read(p, quick) {
            Ok(v) => v,
            Err(e) => {
                return Err(e);
            },
        };
        out.extend_from_slice(v.as_slice());
        proof {
            let sub = chain@.subrange(0, i + 1);
            assert(sub.drop_last() =~= chain@.subrange(0, i as int));
            assert(sub.last() == p);
            assert(payload_of(cfg, s.pages()[p as int]) == v@);
            assert(out@ =~= chain_bytes(cfg, s.pages(), chain@.subrange(0, i as int)) + v@);
        }
        i = i + 1;
    }
    proof {
        assert(chain@.subrange(0, chain@.len() as int) =~= chain@);
    }
    Ok(out)
}

} // verus!
