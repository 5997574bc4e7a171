//! Little-endian integer encoding and the fixed on-disk records built from it:
//! the page header, the database header and the free-list page payload.
use vstd::prelude::*;

verus! {

/// Bytes of a page header on disk.
pub const PAGE_HEADER_SIZE: usize = 32;

/// Bytes of the database header at the start of page 0.
pub const DB_HEADER_SIZE: usize = 44;

/// Bytes of a free-list payload before its list of page ids.
pub const FREE_LIST_HEADER_SIZE: usize = 12;

/// Flag bit of a page that holds document data.
pub const FLAG_DATA_PAGE: u8 = 1;

/// Flag bit of a page that belongs to the free-list chain.
pub const FLAG_FREE_LIST_PAGE: u8 = 4;

/// Flag bit of a page that holds an index.
pub const FLAG_INDEX_PAGE: u8 = 8;

pub open spec fn u32_le(v: u32) -> Seq<u8> {
    seq![
        (v & 0xff) as u8,
        ((v >> 8u32) & 0xff) as u8,
        ((v >> 16u32) & 0xff) as u8,
        ((v >> 24u32) & 0xff) as u8,
    ]
}

pub open spec fn u32_from_le(b: Seq<u8>) -> u32 {
    (b[0] as u32) | ((b[1] as u32) << 8u32) | ((b[2] as u32) << 16u32) | ((b[3] as u32)
        << 24u32)
}

pub open spec fn u64_le(v: u64) -> Seq<u8> {
    seq![
        (v & 0xff) as u8,
        ((v >> 8u64) & 0xff) as u8,
        ((v >> 16u64) & 0xff) as u8,
        ((v >> 24u64) & 0xff) as u8,
        ((v >> 32u64) & 0xff) as u8,
        ((v >> 40u64) & 0xff) as u8,
        ((v >> 48u64) & 0xff) as u8,
        ((v >> 56u64) & 0xff) as u8,
    ]
}

pub open spec fn u64_from_le(b: Seq<u8>) -> u64 {
    (b[0] as u64) | ((b[1] as u64) << 8u64) | ((b[2] as u64) << 16u64) | ((b[3] as u64)
        << 24u64) | ((b[4] as u64) << 32u64) | ((b[5] as u64) << 40u64) | ((b[6] as u64)
        << 48u64) | ((b[7] as u64) << 56u64)
}

pub open spec fn i32_le(v: i32) -> Seq<u8> {
    u32_le(#[verifier::truncate] (v as u32))
}

pub open spec fn i64_le(v: i64) -> Seq<u8> {
    u64_le(#[verifier::truncate] (v as u64))
}

pub open spec fn i32_from_le(b: Seq<u8>) -> i32 {
    #[verifier::truncate] (u32_from_le(b) as i32)
}

pub open spec fn i64_from_le(b: Seq<u8>) -> i64 {
    #[verifier::truncate] (u64_from_le(b) as i64)
}

pub proof fn lemma_u32_round_trip(v: u32)
    ensures
        u32_from_le(u32_le(v)) == v,
{
    let b0 = (v & 0xff) as u8;
    let b1 = ((v >> 8u32) & 0xff) as u8;
    let b2 = ((v >> 16u32) & 0xff) as u8;
    let b3 = ((v >> 24u32) & 0xff) as u8;
    assert((b0 as u32) | ((b1 as u32) << 8u32) | ((b2 as u32) << 16u32) | ((b3 as u32) << 24u32)
        == v) by (bit_vector)
        requires
            b0 == (v & 0xff) as u8,
            b1 == ((v >> 8u32) & 0xff) as u8,
            b2 == ((v >> 16u32) & 0xff) as u8,
            b3 == ((v >> 24u32) & 0xff) as u8,
    ;
}

pub proof fn lemma_u64_round_trip(v: u64)
    ensures
        u64_from_le(u64_le(v)) == v,
{
    let b0 = (v & 0xff) as u8;
    let b1 = ((v >> 8u64) & 0xff) as u8;
    let b2 = ((v >> 16u64) & 0xff) as u8;
    let b3 = ((v >> 24u64) & 0xff) as u8;
    let b4 = ((v >> 32u64) & 0xff) as u8;
    let b5 = ((v >> 40u64) & 0xff) as u8;
    let b6 = ((v >> 48u64) & 0xff) as u8;
    let b7 = ((v >> 56u64) & 0xff) as u8;
    assert((b0 as u64) | ((b1 as u64) << 8u64) | ((b2 as u64) << 16u64) | ((b3 as u64) << 24u64)
        | ((b4 as u64) << 32u64) | ((b5 as u64) << 40u64) | ((b6 as u64) << 48u64) | ((
    b7 as u64) << 56u64) == v) by (bit_vector)
        requires
            b0 == (v & 0xff) as u8,
            b1 == ((v >> 8u64) & 0xff) as u8,
            b2 == ((v >> 16u64) & 0xff) as u8,
            b3 == ((v >> 24u64) & 0xff) as u8,
            b4 == ((v >> 32u64) & 0xff) as u8,
            b5 == ((v >> 40u64) & 0xff) as u8,
            b6 == ((v >> 48u64) & 0xff) as u8,
            b7 == ((v >> 56u64) & 0xff) as u8,
    ;
}

pub proof fn lemma_i32_round_trip(v: i32)
    ensures
        i32_from_le(i32_le(v)) == v,
{
    let u = #[verifier::truncate] (v as u32);
    lemma_u32_round_trip(u);
    assert(#[verifier::truncate] (u as i32) == v) by (bit_vector)
        requires
            u == #[verifier::truncate] (v as u32),
    ;
}

pub proof fn lemma_i64_round_trip(v: i64)
    ensures
        i64_from_le(i64_le(v)) == v,
{
    let u = #[verifier::truncate] (v as u64);
    lemma_u64_round_trip(u);
    assert(#[verifier::truncate] (u as i64) == v) by (bit_vector)
        requires
            u == #[verifier::truncate] (v as u64),
    ;
}

pub fn put_u32(out: &mut Vec<u8>, v: u32)
    ensures
        final(out)@ == old(out)@ + u32_le(v),
{
    out.push((v & 0xff) as u8);
    out.push(((v >> 8u32) & 0xff) as u8);
    out.push(((v >> 16u32) & 0xff) as u8);
    out.push(((v >> 24u32) & 0xff) as u8);
    assert(final(out)@ =~= old(out)@ + u32_le(v));
}

pub fn put_u64(out: &mut Vec<u8>, v: u64)
    ensures
        final(out)@ == old(out)@ + u64_le(v),
{
    out.push((v & 0xff) as u8);
    out.push(((v >> 8u64) & 0xff) as u8);
    out.push(((v >> 16u64) & 0xff) as u8);
    out.push(((v >> 24u64) & 0xff) as u8);
    out.push(((v >> 32u64) & 0xff) as u8);
    out.push(((v >> 40u64) & 0xff) as u8);
    out.push(((v >> 48u64) & 0xff) as u8);
    out.push(((v >> 56u64) & 0xff) as u8);
    assert(final(out)@ =~= old(out)@ + u64_le(v));
}

pub fn put_i32(out: &mut Vec<u8>, v: i32)
    ensures
        final(out)@ == old(out)@ + i32_le(v),
{
    put_u32(out, v as u32);
}

pub fn put_i64(out: &mut Vec<u8>, v: i64)
    ensures
        final(out)@ == old(out)@ + i64_le(v),
{
    put_u64(out, v as u64);
}

pub fn get_u32(b: &[u8], off: usize) -> (r: u32)
    requires
        off + 4 <= b@.len(),
    ensures
        r == u32_from_le(b@.subrange(off as int, off + 4)),
{
    (b[off] as u32) | ((b[off + 1] as u32) << 8u32) | ((b[off + 2] as u32) << 16u32) | ((b[off
        + 3] as u32) << 24u32)
}

pub fn get_u64(b: &[u8], off: usize) -> (r: u64)
    requires
        off + 8 <= b@.len(),
    ensures
        r == u64_from_le(b@.subrange(off as int, off + 8)),
{
    (b[off] as u64) | ((b[off + 1] as u64) << 8u64) | ((b[off + 2] as u64) << 16u64) | ((b[off
        + 3] as u64) << 24u64) | ((b[off + 4] as u64) << 32u64) | ((b[off + 5] as u64)
        << 40u64) | ((b[off + 6] as u64) << 48u64) | ((b[off + 7] as u64) << 56u64)
}

pub fn get_i32(b: &[u8], off: usize) -> (r: i32)
    requires
        off + 4 <= b@.len(),
    ensures
        r == i32_from_le(b@.subrange(off as int, off + 4)),
{
    get_u32(b, off) as i32
}

pub fn get_i64(b: &[u8], off: usize) -> (r: i64)
    requires
        off + 8 <= b@.len(),
    ensures
        r == i64_from_le(b@.subrange(off as int, off + 8)),
{
    get_u64(b, off) as i64
}

/// Header stored in the first bytes of every page.
#[derive(Clone, Copy, Debug, PartialEq, Eq, Structural)]
pub struct PageHeader {
    /// CRC-32 of the logical payload.
    pub crc: u32,
    /// Version of the object that owns the page.
    pub version: i32,
    /// Previous page of the chain, -1 at the head.
    pub prev_page_id: i64,
    /// Next page of the chain, -1 at the tail.
    pub next_page_id: i64,
    /// Kind bits: data, free list or index.
    pub flags: u8,
    /// Bytes of payload as stored on disk.
    pub data_length: i32,
}

pub open spec fn page_header_bytes(h: PageHeader) -> Seq<u8> {
    u32_le(h.crc) + i32_le(h.version) + i64_le(h.prev_page_id) + i64_le(h.next_page_id) + seq![
        h.flags,
    ] + i32_le(h.data_length) + seq![0u8, 0u8, 0u8]
}

pub open spec fn page_header_from(b: Seq<u8>) -> PageHeader {
    PageHeader {
        crc: u32_from_le(b.subrange(0, 4)),
        version: i32_from_le(b.subrange(4, 8)),
        prev_page_id: i64_from_le(b.subrange(8, 16)),
        next_page_id: i64_from_le(b.subrange(16, 24)),
        flags: b[24],
        data_length: i32_from_le(b.subrange(25, 29)),
    }
}

/// Decoding the encoding of a page header, followed by anything, gives it back.
pub proof fn lemma_page_header_round_trip(h: PageHeader, rest: Seq<u8>)
    ensures
        page_header_bytes(h).len() == PAGE_HEADER_SIZE,
        page_header_from(page_header_bytes(h) + rest) == h,
{
    let b = page_header_bytes(h) + rest;
    assert(b.subrange(0, 4) =~= u32_le(h.crc));
    assert(b.subrange(4, 8) =~= i32_le(h.version));
    assert(b.subrange(8, 16) =~= i64_le(h.prev_page_id));
    assert(b.subrange(16, 24) =~= i64_le(h.next_page_id));
    assert(b.subrange(25, 29) =~= i32_le(h.data_length));
    lemma_u32_round_trip(h.crc);
    lemma_i32_round_trip(h.version);
    lemma_i64_round_trip(h.prev_page_id);
    lemma_i64_round_trip(h.next_page_id);
    lemma_i32_round_trip(h.data_length);
}

pub fn encode_page_header(h: &PageHeader) -> (r: Vec<u8>)
    ensures
        r@ == page_header_bytes(*h),
        r@.len() == PAGE_HEADER_SIZE,
{
    let mut out: Vec<u8> = Vec::new();
    put_u32(&mut out, h.crc);
    put_i32(&mut out, h.version);
    put_i64(&mut out, h.prev_page_id);
    put_i64(&mut out, h.next_page_id);
    out.push(h.flags);
    put_i32(&mut out, h.data_length);
    out.push(0);
    out.push(0);
    out.push(0);
    assert(out@ =~= page_header_bytes(*h));
    out
}

pub fn decode_page_header(b: &[u8]) -> (r: PageHeader)
    requires
        b@.len() >= PAGE_HEADER_SIZE,
    ensures
        r == page_header_from(b@),
{
    PageHeader {
        crc: get_u32(b, 0),
        version: get_i32(b, 4),
        prev_page_id: get_i64(b, 8),
        next_page_id: get_i64(b, 16),
        flags: b[24],
        data_length: get_i32(b, 25),
    }
}

/// A root reference in the database header: a page and its version.
#[derive(Clone, Copy, Debug, PartialEq, Eq, Structural)]
pub struct VersionedLink {
    pub page_id: i64,
    pub version: i32,
}

/// The database header kept in page 0.
#[derive(Clone, Copy, Debug, PartialEq, Eq, Structural)]
pub struct DatabaseHeader {
    pub index_root: VersionedLink,
    pub path_lookup_root: VersionedLink,
    pub free_list_root: VersionedLink,
}

pub open spec fn magic_bytes() -> Seq<u8> {
    seq![0x55u8, 0xAAu8, 0xFEu8, 0xEDu8, 0xFAu8, 0xCEu8, 0xDAu8, 0x7Au8]
}

pub open spec fn link_bytes(l: VersionedLink) -> Seq<u8> {
    i64_le(l.page_id) + i32_le(l.version)
}

pub open spec fn link_from(b: Seq<u8>) -> VersionedLink {
    VersionedLink { page_id: i64_from_le(b.subrange(0, 8)), version: i32_from_le(b.subrange(8, 12)) }
}

pub open spec fn db_header_bytes(h: DatabaseHeader) -> Seq<u8> {
    magic_bytes() + link_bytes(h.index_root) + link_bytes(h.path_lookup_root) + link_bytes(
        h.free_list_root,
    )
}

/// What the first bytes of a file say: a header when they start with the magic.
pub open spec fn db_header_from(b: Seq<u8>) -> Option<DatabaseHeader> {
    if b.len() >= DB_HEADER_SIZE && b.subrange(0, 8) == magic_bytes() {
        Some(
            DatabaseHeader {
                index_root: link_from(b.subrange(8, 20)),
                path_lookup_root: link_from(b.subrange(20, 32)),
                free_list_root: link_from(b.subrange(32, 44)),
            },
        )
    } else {
        None
    }
}

proof fn lemma_link_round_trip(l: VersionedLink)
    ensures
        link_from(link_bytes(l)) == l,
        link_bytes(l).len() == 12,
{
    let b = link_bytes(l);
    assert(b.subrange(0, 8) =~= i64_le(l.page_id));
    assert(b.subrange(8, 12) =~= i32_le(l.version));
    lemma_i64_round_trip(l.page_id);
    lemma_i32_round_trip(l.version);
}

/// Decoding the encoding of a database header, followed by anything, gives it back.
pub proof fn lemma_db_header_round_trip(h: DatabaseHeader, rest: Seq<u8>)
    ensures
        db_header_bytes(h).len() == DB_HEADER_SIZE,
        db_header_from(db_header_bytes(h) + rest) == Some(h),
{
    let b = db_header_bytes(h) + rest;
    lemma_link_round_trip(h.index_root);
    lemma_link_round_trip(h.path_lookup_root);
    lemma_link_round_trip(h.free_list_root);
    assert(b.subrange(0, 8) =~= magic_bytes());
    assert(b.subrange(8, 20) =~= link_bytes(h.index_root));
    assert(b.subrange(20, 32) =~= link_bytes(h.path_lookup_root));
    assert(b.subrange(32, 44) =~= link_bytes(h.free_list_root));
}

pub fn encode_db_header(h: &DatabaseHeader) -> (r: Vec<u8>)
    ensures
        r@ == db_header_bytes(*h),
        r@.len() == DB_HEADER_SIZE,
{
    let mut out: Vec<u8> = Vec::new();
    out.push(0x55);
    out.push(0xAA);
    out.push(0xFE);
    out.push(0xED);
    out.push(0xFA);
    out.push(0xCE);
    out.push(0xDA);
    out.push(0x7A);
    assert(out@ =~= magic_bytes());
    put_i64(&mut out, h.index_root.page_id);
    put_i32(&mut out, h.index_root.version);
    put_i64(&mut out, h.path_lookup_root.page_id);
    put_i32(&mut out, h.path_lookup_root.version);
    put_i64(&mut out, h.free_list_root.page_id);
    put_i32(&mut out, h.free_list_root.version);
    assert(out@ =~= db_header_bytes(*h));
    out
}

/// Reads the database header; `None` when the magic does not match.
pub fn decode_db_header(b: &[u8]) -> (r: Option<DatabaseHeader>)
    ensures
        r == db_header_from(b@),
{
    if b.len() < DB_HEADER_SIZE {
        return None;
    }
    if !(b[0] == 0x55 && b[1] == 0xAA && b[2] == 0xFE && b[3] == 0xED && b[4] == 0xFA && b[5]
        == 0xCE && b[6] == 0xDA && b[7] == 0x7A) {
        assert(b@.subrange(0, 8) != magic_bytes()) by {
            if b@.subrange(0, 8) == magic_bytes() {
                assert(b@[0] == b@.subrange(0, 8)[0]);
                assert(b@[1] == b@.subrange(0, 8)[1]);
                assert(b@[2] == b@.subrange(0, 8)[2]);
                assert(b@[3] == b@.subrange(0, 8)[3]);
                assert(b@[4] == b@.subrange(0, 8)[4]);
                assert(b@[5] == b@.subrange(0, 8)[5]);
                assert(b@[6] == b@.subrange(0, 8)[6]);
                assert(b@[7] == b@.subrange(0, 8)[7]);
            }
        }
        return None;
    }
    assert(b@.subrange(0, 8) =~= magic_bytes());
    let h = DatabaseHeader {
        index_root: VersionedLink { page_id: get_i64(b, 8), version: get_i32(b, 16) },
        path_lookup_root: VersionedLink { page_id: get_i64(b, 20), version: get_i32(b, 28) },
        free_list_root: VersionedLink { page_id: get_i64(b, 32), version: get_i32(b, 40) },
    };
    assert(b@.subrange(8, 20).subrange(0, 8) =~= b@.subrange(8, 16));
    assert(b@.subrange(8, 20).subrange(8, 12) =~= b@.subrange(16, 20));
    assert(b@.subrange(20, 32).subrange(0, 8) =~= b@.subrange(20, 28));
    assert(b@.subrange(20, 32).subrange(8, 12) =~= b@.subrange(28, 32));
    assert(b@.subrange(32, 44).subrange(0, 8) =~= b@.subrange(32, 40));
    assert(b@.subrange(32, 44).subrange(8, 12) =~= b@.subrange(40, 44));
    Some(h)
}

/// The encoding of a list of page ids, eight bytes each.
pub open spec fn ids_bytes(ids: Seq<i64>) -> Seq<u8>
    decreases ids.len(),
{
    if ids.len() == 0 {
        Seq::empty()
    } else {
        ids_bytes(ids.drop_last()) + i64_le(ids.last())
    }
}

pub proof fn lemma_ids_bytes(ids: Seq<i64>)
    ensures
        ids_bytes(ids).len() == 8 * ids.len(),
        forall|i: int|
            0 <= i < ids.len() ==> #[trigger] ids_bytes(ids).subrange(8 * i, 8 * i + 8)
                == i64_le(ids[i]),
    decreases ids.len(),
{
    if ids.len() > 0 {
        let init = ids.drop_last();
        lemma_ids_bytes(init);
        let b = ids_bytes(ids);
        assert forall|i: int| 0 <= i < ids.len() implies #[trigger] b.subrange(8 * i, 8 * i + 8)
            == i64_le(ids[i]) by {
            if i < init.len() {
                assert(b.subrange(8 * i, 8 * i + 8) =~= ids_bytes(init).subrange(8 * i, 8 * i + 8));
            } else {
                assert(b.subrange(8 * i, 8 * i + 8) =~= i64_le(ids.last()));
            }
        }
    }
}

/// The payload of a free-list page: next page, entry count, entries.
pub open spec fn free_list_bytes(next: i64, ids: Seq<i64>) -> Seq<u8> {
    i64_le(next) + i32_le(ids.len() as i32) + ids_bytes(ids)
}

/// What a free-list payload says, when its entry count is sound.
pub open spec fn free_list_from(b: Seq<u8>) -> Option<(i64, Seq<i64>)> {
    if b.len() < FREE_LIST_HEADER_SIZE {
        None
    } else {
        let n = i32_from_le(b.subrange(8, 12));
        if n < 0 || b.len() < FREE_LIST_HEADER_SIZE + 8 * n {
            None
        } else {
            Some(
                (
                    i64_from_le(b.subrange(0, 8)),
                    Seq::new(
                        n as nat,
                        |i: int| i64_from_le(b.subrange(12 + 8 * i, 12 + 8 * i + 8)),
                    ),
                ),
            )
        }
    }
}

/// Decoding the encoding of a free-list payload gives it back.
pub proof fn lemma_free_list_round_trip(next: i64, ids: Seq<i64>)
    requires
        ids.len() <= 0x7fff_ffff,
    ensures
        free_list_from(free_list_bytes(next, ids)) == Some((next, ids)),
        free_list_bytes(next, ids).len() == FREE_LIST_HEADER_SIZE + 8 * ids.len(),
{
    let b = free_list_bytes(next, ids);
    lemma_ids_bytes(ids);
    lemma_i64_round_trip(next);
    lemma_i32_round_trip(ids.len() as i32);
    assert(b.subrange(0, 8) =~= i64_le(next));
    assert(b.subrange(8, 12) =~= i32_le(ids.len() as i32));
    let d = Seq::new(ids.len(), |i: int| i64_from_le(b.subrange(12 + 8 * i, 12 + 8 * i + 8)));
    assert forall|i: int| 0 <= i < ids.len() implies d[i] == ids[i] by {
        assert(b.subrange(12 + 8 * i, 12 + 8 * i + 8) =~= ids_bytes(ids).subrange(8 * i, 8 * i + 8));
        lemma_i64_round_trip(ids[i]);
    }
    assert(d =~= ids);
}

pub fn encode_free_list(next: i64, ids: &Vec<i64>) -> (r: Vec<u8>)
    requires
        ids@.len() <= 0x7fff_ffff,
    ensures
        r@ == free_list_bytes(next, ids@),
{
    let mut out: Vec<u8> = Vec::new();
    put_i64(&mut out, next);
    put_i32(&mut out, ids.len() as i32);
    let ghost head = out@;
    let mut i: usize = 0;
    while i < ids.len()
        invariant
            i <= ids@.len(),
            out@ == head + ids_bytes(ids@.subrange(0, i as int)),
        decreases ids@.len() - i,
    {
        put_i64(&mut out, ids[i]);
        assert(ids@.subrange(0, i + 1).drop_last() =~= ids@.subrange(0, i as int));
        i = i + 1;
    }
    assert(ids@.subrange(0, ids@.len() as int) =~= ids@);
    out
}

/// Reads a free-list payload: the next page and the listed ids, or `None`
/// when the entry count does not fit the bytes.
pub fn decode_free_list(b: &[u8]) -> (r: Option<(i64, Vec<i64>)>)
    ensures
        match free_list_from(b@) {
            Some((next, ids)) => r matches Some((n2, v)) && n2 == next && v@ == ids,
            None => r is None,
        },
{
    if b.len() < FREE_LIST_HEADER_SIZE {
        return None;
    }
    let next = get_i64(b, 0);
    let n = get_i32(b, 8);
    if n < 0 || (b.len() - FREE_LIST_HEADER_SIZE) / 8 < n as usize {
        return None;
    }
    let mut ids: Vec<i64> = Vec::new();
    let blen = b.len();
    let mut i: usize = 0;
    while i < n as usize
        invariant
            blen == b@.len(),
            0 <= n,
            FREE_LIST_HEADER_SIZE + 8 * n <= b@.len(),
            i <= n,
            ids@.len() == i,
            forall|j: int|
                0 <= j < i ==> ids@[j] == i64_from_le(b@.subrange(12 + 8 * j, 12 + 8 * j + 8)),
        decreases n - i,
    {
        assert(12 + 8 * i + 8 <= b@.len()) by (nonlinear_arith)
            requires
                i < n,
                12 + 8 * n <= b@.len(),
        ;
        ids.push(get_i64(b, 12 + 8 * i));
        i = i + 1;
    }
    let ghost decoded = free_list_from(b@).unwrap();
    assert(ids@ =~= decoded.1);
    Some((next, ids))
}
} // verus!
