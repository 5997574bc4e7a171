//! The logical content of a store — documents by id and the path bindings —
//! and how each logged operation changes it.
use vstd::prelude::*;

verus! {

/// A logged mutation, in the order it was made.
pub enum WalRecord {
    /// A document's bytes, as a new document or as its next version.
    Write { id: u128, data: Vec<u8> },
    /// A document and all its versions removed.
    Delete { id: u128 },
    /// A path bound to a document.
    Bind { path: Vec<u8>, id: u128 },
    /// A path unbound from a document.
    Unbind { path: Vec<u8>, id: u128 },
}

/// Documents by id.
pub type Docs = Map<u128, Seq<u8>>;

/// Path bindings.
pub type Paths = Map<Seq<u8>, u128>;

pub open spec fn no_docs() -> Docs {
    Map::empty()
}

pub open spec fn no_paths() -> Paths {
    Map::empty()
}

/// A valid path: non-empty, at most 1024 bytes, no NUL byte, no `//`.
pub open spec fn valid_path(p: Seq<u8>) -> bool {
    &&& 0 < p.len() <= 1024
    &&& forall|i: int| 0 <= i < p.len() ==> #[trigger] p[i] != 0u8
    &&& forall|i: int| 0 <= i < p.len() - 1 ==> !(#[trigger] p[i] == 0x2fu8 && p[i + 1] == 0x2fu8)
}

/// The bindings left when every path of document `id` is unbound.
pub open spec fn paths_without(paths: Paths, id: u128) -> Paths {
    Map::new(|p: Seq<u8>| paths.contains_key(p) && paths[p] != id, |p: Seq<u8>| paths[p])
}

/// The path a record binds or unbinds, if any.
pub open spec fn record_path(r: WalRecord) -> Option<Seq<u8>> {
    match r {
        WalRecord::Bind { path, id } => Some(path@),
        WalRecord::Unbind { path, id } => Some(path@),
        _ => None,
    }
}

/// What one record does to the content; `None` when it does not apply.
pub open spec fn step(docs: Docs, paths: Paths, r: WalRecord) -> Option<(Docs, Paths)> {
    match r {
        WalRecord::Write { id, data } => Some((docs.insert(id, data@), paths)),
        WalRecord::Delete { id } => if docs.contains_key(id) {
            Some((docs.remove(id), paths_without(paths, id)))
        } else {
            None
        },
        WalRecord::Bind { path, id } => if valid_path(path@) && docs.contains_key(id)
            && !paths.contains_key(path@) {
            Some((docs, paths.insert(path@, id)))
        } else {
            None
        },
        WalRecord::Unbind { path, id } => if valid_path(path@) && paths.contains_key(path@)
            && paths[path@] == id {
            Some((docs, paths.remove(path@)))
        } else {
            None
        },
    }
}

/// The content after applying records in order, skipping any that do not apply.
pub open spec fn replay(docs: Docs, paths: Paths, ops: Seq<WalRecord>) -> (Docs, Paths)
    decreases ops.len(),
{
    if ops.len() == 0 {
        (docs, paths)
    } else {
        let (d, p) = replay(docs, paths, ops.drop_last());
        match step(d, p, ops.last()) {
            Some(next) => next,
            None => (d, p),
        }
    }
}

/// Records that only bind and unbind leave other paths alone.
pub proof fn lemma_untouched_path(docs: Docs, paths: Paths, ops: Seq<WalRecord>, p: Seq<u8>)
    requires
        forall|i: int|
            0 <= i < ops.len() ==> (#[trigger] ops[i] is Bind || ops[i] is Unbind) && record_path(
                ops[i],
            ) != Some(p),
    ensures
        replay(docs, paths, ops).1.contains_key(p) == paths.contains_key(p),
        paths.contains_key(p) ==> replay(docs, paths, ops).1[p] == paths[p],
    decreases ops.len(),
{
    if ops.len() > 0 {
        let init = ops.drop_last();
        assert forall|i: int| 0 <= i < init.len() implies (#[trigger] init[i] is Bind
            || init[i] is Unbind) && record_path(init[i]) != Some(p) by {
            assert(init[i] == ops[i]);
        }
        lemma_untouched_path(docs, paths, init, p);
        assert(ops.last() == ops[ops.len() - 1]);
    }
}

/// A path's binding follows the last bind or unbind of that path: after the
/// records `before`, then `op` on path `p` (applied successfully), then records
/// that bind and unbind only other paths, `p` is bound to `op`'s document if
/// `op` is a bind and unbound if it is an unbind.
pub proof fn lemma_last_binding_wins(
    docs: Docs,
    paths: Paths,
    before: Seq<WalRecord>,
    op: WalRecord,
    after: Seq<WalRecord>,
    p: Seq<u8>,
)
    requires
        record_path(op) == Some(p),
        ({
            let (d, q) = replay(docs, paths, before);
            step(d, q, op) is Some
        }),
        forall|i: int|
            0 <= i < after.len() ==> (#[trigger] after[i] is Bind || after[i] is Unbind)
                && record_path(after[i]) != Some(p),
    ensures
        ({
            let fin = replay(docs, paths, before.push(op) + after).1;
            match op {
                WalRecord::Bind { path, id } => fin.contains_key(p) && fin[p] == id,
                _ => !fin.contains_key(p),
            }
        }),
{
    let mid = before.push(op);
    assert(mid.drop_last() =~= before);
    let (d1, p1) = replay(docs, paths, mid);
    lemma_untouched_path(d1, p1, after, p);
    lemma_replay_concat(docs, paths, mid, after);
}

/// Replaying two runs of records is replaying the second from where the first ended.
pub proof fn lemma_replay_concat(docs: Docs, paths: Paths, a: Seq<WalRecord>, b: Seq<WalRecord>)
    ensures
        replay(docs, paths, a + b) == ({
            let (d, p) = replay(docs, paths, a);
            replay(d, p, b)
        }),
    decreases b.len(),
{
    if b.len() == 0 {
        assert(a + b =~= a);
    } else {
        lemma_replay_concat(docs, paths, a, b.drop_last());
        assert((a + b).drop_last() =~= a + b.drop_last());
        assert((a + b).last() == b.last());
    }
}

} // verus!
