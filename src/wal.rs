//! The log's byte format: each record framed by its payload length and the
//! CRC-32 of its payload. Reading stops at the first frame that is cut short
//! or fails its checksum, so a torn tail is ignored.
use vstd::prelude::*;
use crate::codec::{u32_le, u32_from_le, u64_le, u64_from_le, put_u32, put_u64, get_u32, get_u64, lemma_u32_round_trip, lemma_u64_round_trip};
use crate::model::{WalRecord, Docs, Paths, step, replay};
use crate::pager::{crc32_of, checksum};

verus! {

/// Bytes of a frame before its payload: length, then checksum.
pub const FRAME_HEADER: usize = 8;

/// Bytes of a payload before its path or data: kind, then the id.
pub const PAYLOAD_HEADER: usize = 17;

/// What a record says: its kind (1 write, 2 delete, 3 bind, 4 unbind), its
/// document id, and its data or path bytes.
pub open spec fn view_of(r: WalRecord) -> (u8, u128, Seq<u8>) {
    match r {
        WalRecord::Write { id, data } => (1u8, id, data@),
        WalRecord::Delete { id } => (2u8, id, Seq::empty()),
        WalRecord::Bind { path, id } => (3u8, id, path@),
        WalRecord::Unbind { path, id } => (4u8, id, path@),
    }
}

pub open spec fn views(rs: Seq<WalRecord>) -> Seq<(u8, u128, Seq<u8>)> {
    rs.map_values(|r: WalRecord| view_of(r))
}

pub open spec fn u128_le(v: u128) -> Seq<u8> {
    u64_le(v as u64) + u64_le((v >> 64u128) as u64)
}

pub open spec fn u128_from_le(b: Seq<u8>) -> u128 {
    (u64_from_le(b.subrange(0, 8)) as u128) | ((u64_from_le(b.subrange(8, 16)) as u128) << 64u128)
}

proof fn lemma_u128_round_trip(v: u128)
    ensures
        u128_from_le(u128_le(v)) == v,
        u128_le(v).len() == 16,
{
    let lo = v as u64;
    let hi = (v >> 64u128) as u64;
    lemma_u64_round_trip(lo);
    lemma_u64_round_trip(hi);
    let b = u128_le(v);
    assert(b.subrange(0, 8) =~= u64_le(lo));
    assert(b.subrange(8, 16) =~= u64_le(hi));
    assert((lo as u128) | ((hi as u128) << 64u128) == v) by (bit_vector)
        requires
            lo == v as u64,
            hi == (v >> 64u128) as u64,
    ;
}

/// A record's payload: kind byte, id, then its bytes.
pub open spec fn payload_of_view(v: (u8, u128, Seq<u8>)) -> Seq<u8> {
    seq![v.0] + u128_le(v.1) + v.2
}

/// One record framed.
pub open spec fn frame_of(v: (u8, u128, Seq<u8>)) -> Seq<u8> {
    let p = payload_of_view(v);
    u32_le(p.len() as u32) + u32_le(crc32_of(p)) + p
}

/// Records framed one after another.
pub open spec fn log_of(vs: Seq<(u8, u128, Seq<u8>)>) -> Seq<u8>
    decreases vs.len(),
{
    if vs.len() == 0 {
        Seq::empty()
    } else {
        frame_of(vs[0]) + log_of(vs.drop_first())
    }
}

/// The records a log holds, up to the first frame that is short, fails its
/// checksum, or does not hold a record.
#[verifier::opaque]
pub open spec fn parse(b: Seq<u8>) -> Seq<(u8, u128, Seq<u8>)>
    decreases b.len(),
{
    if b.len() < FRAME_HEADER {
        Seq::empty()
    } else {
        let len = u32_from_le(b.subrange(0, 4)) as int;
        let crc = u32_from_le(b.subrange(4, 8));
        if b.len() - FRAME_HEADER < len || len < PAYLOAD_HEADER {
            Seq::empty()
        } else {
            let p = b.subrange(8, 8 + len);
            if crc32_of(p) != crc || !(1 <= p[0] <= 4) {
                Seq::empty()
            } else {
                seq![(p[0], u128_from_le(p.subrange(1, 17)), if p[0] == 2 { Seq::empty() } else { p.subrange(17, len) })] + parse(b.subrange(8 + len, b.len() as int))
            }
        }
    }
}

/// Parsing a framed record followed by anything gives the record, then what
/// the rest parses to.
#[verifier::rlimit(60)]
#[verifier::spinoff_prover]
proof fn lemma_parse_frame(v: (u8, u128, Seq<u8>), rest: Seq<u8>)
    requires
        1 <= v.0 <= 4,
        v.0 == 2 ==> v.2.len() == 0,
        payload_of_view(v).len() <= 0xffff_ffff,
    ensures
        parse(frame_of(v) + rest) == seq![v] + parse(rest),
{
    reveal(parse);
    let p = payload_of_view(v);
    let b = frame_of(v) + rest;
    lemma_u128_round_trip(v.1);
    lemma_u32_round_trip(p.len() as u32);
    lemma_u32_round_trip(crc32_of(p));
    assert(b.subrange(0, 4) =~= u32_le(p.len() as u32));
    assert(b.subrange(4, 8) =~= u32_le(crc32_of(p)));
    let len = p.len() as int;
    assert(b.subrange(8, 8 + len) =~= p);
    assert(p[0] == v.0);
    assert(p.subrange(1, 17) =~= u128_le(v.1));
    assert(p.subrange(17, len) =~= v.2);
    if v.0 == 2 {
        assert(v.2 =~= Seq::<u8>::empty());
    }
    assert(b.subrange(8 + len, b.len() as int) =~= rest);
}

/// A cut-short frame parses to nothing.
proof fn lemma_parse_torn(v: (u8, u128, Seq<u8>), k: int)
    requires
        0 <= k < frame_of(v).len(),
        payload_of_view(v).len() <= 0xffff_ffff,
    ensures
        parse(frame_of(v).subrange(0, k)).len() == 0,
{
    reveal(parse);
    let p = payload_of_view(v);
    let t = frame_of(v).subrange(0, k);
    if k >= FRAME_HEADER {
        lemma_u32_round_trip(p.len() as u32);
        assert(t.subrange(0, 4) =~= u32_le(p.len() as u32));
    }
}

/// Records written to the log, then a record cut short by a crash, read back
/// as exactly the records written.
#[verifier::rlimit(60)]
#[verifier::spinoff_prover]
pub proof fn lemma_torn_tail_ignored(vs: Seq<(u8, u128, Seq<u8>)>, torn: (u8, u128, Seq<u8>), k: int)
    requires
        forall|i: int| 0 <= i < vs.len() ==> 1 <= (#[trigger] vs[i]).0 <= 4 && (vs[i].0 == 2 ==> vs[i].2.len() == 0) && payload_of_view(vs[i]).len() <= 0xffff_ffff,
        payload_of_view(torn).len() <= 0xffff_ffff,
        0 <= k < frame_of(torn).len(),
    ensures
        parse(log_of(vs) + frame_of(torn).subrange(0, k)) == vs,
    decreases vs.len(),
{
    let t = frame_of(torn).subrange(0, k);
    if vs.len() == 0 {
        assert(log_of(vs) + t =~= t);
        lemma_parse_torn(torn, k);
        assert(parse(t) =~= vs);
    } else {
        let rest = vs.drop_first();
        assert forall|i: int| 0 <= i < rest.len() implies 1 <= (#[trigger] rest[i]).0 <= 4 && (rest[i].0 == 2 ==> rest[i].2.len() == 0) && payload_of_view(rest[i]).len() <= 0xffff_ffff by {
            assert(rest[i] == vs[i + 1]);
        }
        lemma_torn_tail_ignored(rest, torn, k);
        assert(log_of(vs) == frame_of(vs[0]) + log_of(rest));
        assert(log_of(vs) + t =~= frame_of(vs[0]) + (log_of(rest) + t));
        lemma_parse_frame(vs[0], log_of(rest) + t);
        assert(seq![vs[0]] + rest =~= vs);
    }
}

/// Records written to the log read back as themselves.
#[verifier::rlimit(60)]
#[verifier::spinoff_prover]
pub proof fn lemma_log_round_trip(vs: Seq<(u8, u128, Seq<u8>)>)
    requires
        forall|i: int| 0 <= i < vs.len() ==> 1 <= (#[trigger] vs[i]).0 <= 4 && (vs[i].0 == 2 ==> vs[i].2.len() == 0) && payload_of_view(vs[i]).len() <= 0xffff_ffff,
    ensures
        parse(log_of(vs)) == vs,
    decreases vs.len(),
{
    if vs.len() == 0 {
        reveal(parse);
        assert(parse(log_of(vs)) =~= vs);
    } else {
        let rest = vs.drop_first();
        assert forall|i: int| 0 <= i < rest.len() implies 1 <= (#[trigger] rest[i]).0 <= 4 && (rest[i].0 == 2 ==> rest[i].2.len() == 0) && payload_of_view(rest[i]).len() <= 0xffff_ffff by {
            assert(rest[i] == vs[i + 1]);
        }
        lemma_log_round_trip(rest);
        lemma_parse_frame(vs[0], log_of(rest));
        assert(seq![vs[0]] + rest =~= vs);
    }
}

fn put_u128(out: &mut Vec<u8>, v: u128)
    ensures
        final(out)@ == old(out)@ + u128_le(v),
{
    put_u64(out, v as u64);
    put_u64(out, (v >> 64u128) as u64);
    assert(final(out)@ =~= old(out)@ + u128_le(v));
}

/// Appends one framed record.
pub fn put_record(out: &mut Vec<u8>, r: &WalRecord)
    requires
        view_of(*r).2.len() <= 0x1000_0000,
    ensures
        final(out)@ == old(out)@ + frame_of(view_of(*r)),
{
    let mut p: Vec<u8> = Vec::new();
    let (kind, id, body): (u8, u128, &[u8]) = match r {
        WalRecord::Write { id, data } => (1, *id, data.as_slice()),
        WalRecord::Delete { id } => (2, *id, &[]),
        WalRecord::Bind { path, id } => (3, *id, path.as_slice()),
        WalRecord::Unbind { path, id } => (4, *id, path.as_slice()),
    };
    proof {
        if let WalRecord::Delete { id } = r {
            assert(body@ =~= Seq::<u8>::empty());
        }
    }
    p.push(kind);
    put_u128(&mut p, id);
    p.extend_from_slice(body);
    assert(p@ =~= payload_of_view(view_of(*r)));
    put_u32(out, p.len() as u32);
    put_u32(out, checksum(p.as_slice()));
    out.extend_from_slice(p.as_slice());
    assert(final(out)@ =~= old(out)@ + frame_of(view_of(*r)));
}

/// Frames records one after another; `None` when a record's bytes exceed
/// what a frame can carry.
pub fn encode_log(rs: &Vec<WalRecord>) -> (r: Option<Vec<u8>>)
    ensures
        (forall|i: int| 0 <= i < rs@.len() ==> (#[trigger] view_of(rs@[i])).2.len() <= 0x1000_0000) ==> r is Some,
        r matches Some(v) ==> v@ == log_of(views(rs@)),
        r is Some ==> forall|i: int| 0 <= i < rs@.len() ==> (#[trigger] view_of(rs@[i])).2.len() <= 0x1000_0000,
{
    let mut k: usize = 0;
    while k < rs.len()
        invariant
            k <= rs@.len(),
            forall|i: int| 0 <= i < k ==> (#[trigger] view_of(rs@[i])).2.len() <= 0x1000_0000,
        decreases rs@.len() - k,
    {
        let n = match &rs[k] {
            WalRecord::Write { id, data } => data.len(),
            WalRecord::Delete { id } => 0,
            WalRecord::Bind { path, id } => path.len(),
            WalRecord::Unbind { path, id } => path.len(),
        };
        assert(n == view_of(rs@[k as int]).2.len());
        if n > 0x1000_0000 {
            return None;
        }
        k = k + 1;
    }
    Some(encode_checked(rs))
}

fn encode_checked(rs: &Vec<WalRecord>) -> (r: Vec<u8>)
    requires
        forall|i: int| 0 <= i < rs@.len() ==> (#[trigger] view_of(rs@[i])).2.len() <= 0x1000_0000,
    ensures
        r@ == log_of(views(rs@)),
{
    let mut out: Vec<u8> = Vec::new();
    let mut i: usize = 0;
    proof {
        assert(rs@.subrange(0, rs@.len() as int) =~= rs@);
        assert(out@ + log_of(views(rs@)) =~= log_of(views(rs@)));
    }
    while i < rs.len()
        invariant
            i <= rs@.len(),
            forall|j: int| 0 <= j < rs@.len() ==> (#[trigger] view_of(rs@[j])).2.len() <= 0x1000_0000,
            out@ + log_of(views(rs@.subrange(i as int, rs@.len() as int))) == log_of(views(rs@)),
        decreases rs@.len() - i,
    {
        let ghost before = out@;
        put_record(&mut out, &rs[i]);
        proof {
            let tail = rs@.subrange(i as int, rs@.len() as int);
            let vt = views(tail);
            assert(vt[0] == view_of(rs@[i as int]));
            assert(vt.drop_first() =~= views(rs@.subrange(i + 1, rs@.len() as int)));
            assert(log_of(vt) == frame_of(vt[0]) + log_of(vt.drop_first()));
            assert(out@ + log_of(views(rs@.subrange(i + 1, rs@.len() as int))) =~= before + log_of(vt));
        }
        i = i + 1;
    }
    proof {
        assert(views(rs@.subrange(rs@.len() as int, rs@.len() as int)) =~= Seq::<(u8, u128, Seq<u8>)>::empty());
        assert(out@ + Seq::<u8>::empty() =~= out@);
    }
    out
}

/// Reads the records of a log, stopping at a torn or corrupt frame.
pub fn decode_log(b: &[u8]) -> (r: Vec<WalRecord>)
    ensures
        views(r@) == parse(b@),
{
    reveal(parse);
    let mut out: Vec<WalRecord> = Vec::new();
    let blen = b.len();
    let mut pos: usize = 0;
    proof {
        assert(b@.subrange(0, blen as int) =~= b@);
        assert(views(out@) =~= Seq::<(u8, u128, Seq<u8>)>::empty());
        assert(views(out@) + parse(b@) =~= parse(b@));
    }
    loop
        invariant
            blen == b@.len(),
            pos <= blen,
            views(out@) + parse(b@.subrange(pos as int, blen as int)) == parse(b@),
        ensures
            views(out@) == parse(b@),
        decreases blen - pos,
    {
        let ghost rest = b@.subrange(pos as int, blen as int);
        if blen - pos < FRAME_HEADER {
            proof {
                reveal(parse);
                assert(parse(rest) =~= Seq::<(u8, u128, Seq<u8>)>::empty());
                assert(views(out@) + parse(rest) =~= views(out@));
            }
            break;
        }
        let len = get_u32(b, pos) as usize;
        let crc = get_u32(b, pos + 4);
        proof {
            assert(rest.subrange(0, 4) =~= b@.subrange(pos as int, pos + 4));
            assert(rest.subrange(4, 8) =~= b@.subrange(pos + 4, pos + 8));
        }
        if blen - pos - FRAME_HEADER < len || len < PAYLOAD_HEADER {
            proof {
                reveal(parse);
                assert(parse(rest) =~= Seq::<(u8, u128, Seq<u8>)>::empty());
                assert(views(out@) + parse(rest) =~= views(out@));
            }
            break;
        }
        let payload = vstd::slice::slice_subrange(b, pos + 8, pos + 8 + len);
        proof {
            assert(payload@ =~= rest.subrange(8, 8 + len));
        }
        if checksum(payload) != crc || !(1 <= payload[0] && payload[0] <= 4) {
            proof {
                reveal(parse);
                assert(parse(rest) =~= Seq::<(u8, u128, Seq<u8>)>::empty());
                assert(views(out@) + parse(rest) =~= views(out@));
            }
            break;
        }
        let kind = payload[0];
        let lo = get_u64(payload, 1);
        let hi = get_u64(payload, 9);
        let id: u128 = (lo as u128) | ((hi as u128) << 64u128);
        let body = vstd::slice::slice_to_vec(vstd::slice::slice_subrange(payload, PAYLOAD_HEADER, len));
        proof {
            assert(payload@.subrange(1, 17).subrange(0, 8) =~= payload@.subrange(1, 9));
            assert(payload@.subrange(1, 17).subrange(8, 16) =~= payload@.subrange(9, 17));
        }
        let rec = if kind == 1 {
            WalRecord::Write { id, data: body }
        } else if kind == 2 {
            WalRecord::Delete { id }
        } else if kind == 3 {
            WalRecord::Bind { path: body, id }
        } else {
            WalRecord::Unbind { path: body, id }
        };
        let ghost before = out@;
        out.push(rec);
        proof {
            reveal(parse);
            assert(rest.subrange(8 + len, rest.len() as int) =~= b@.subrange(pos + 8 + len, blen as int));
            let v2 = (kind, id, if kind == 2 { Seq::<u8>::empty() } else { payload@.subrange(17, len as int) });
            assert(payload@.subrange(1, 17).subrange(0, 8) =~= payload@.subrange(1, 9));
            assert(view_of(rec) == v2);
            assert(parse(rest) == seq![v2] + parse(b@.subrange(pos + 8 + len, blen as int)));
            assert(views(out@) =~= views(before).push(view_of(rec)));
            assert(views(out@) + parse(b@.subrange(pos + 8 + len, blen as int)) =~= views(before) + parse(rest));
        }
        pos = pos + 8 + len;
    }
    out
}

/// What one record, by its view, does to the content.
pub open spec fn step_view(docs: Docs, paths: Paths, v: (u8, u128, Seq<u8>)) -> Option<(Docs, Paths)> {
    if v.0 == 1 {
        Some((docs.insert(v.1, v.2), paths))
    } else if v.0 == 2 {
        if docs.contains_key(v.1) {
            Some((docs.remove(v.1), crate::model::paths_without(paths, v.1)))
        } else {
            None
        }
    } else if v.0 == 3 {
        if crate::model::valid_path(v.2) && docs.contains_key(v.1) && !paths.contains_key(v.2) {
            Some((docs, paths.insert(v.2, v.1)))
        } else {
            None
        }
    } else if v.0 == 4 {
        if crate::model::valid_path(v.2) && paths.contains_key(v.2) && paths[v.2] == v.1 {
            Some((docs, paths.remove(v.2)))
        } else {
            None
        }
    } else {
        None
    }
}

/// Replaying record views in order, skipping those that do not apply.
pub open spec fn replay_views(docs: Docs, paths: Paths, vs: Seq<(u8, u128, Seq<u8>)>) -> (Docs, Paths)
    decreases vs.len(),
{
    if vs.len() == 0 {
        (docs, paths)
    } else {
        let (d, p) = replay_views(docs, paths, vs.drop_last());
        match step_view(d, p, vs.last()) {
            Some(next) => next,
            None => (d, p),
        }
    }
}

/// Replaying records is replaying what they say.
pub proof fn lemma_replay_by_views(docs: Docs, paths: Paths, rs: Seq<WalRecord>)
    ensures
        replay(docs, paths, rs) == replay_views(docs, paths, views(rs)),
    decreases rs.len(),
{
    if rs.len() > 0 {
        lemma_replay_by_views(docs, paths, rs.drop_last());
        assert(views(rs).drop_last() =~= views(rs.drop_last()));
        assert(views(rs).last() == view_of(rs.last()));
        let (d, p) = replay(docs, paths, rs.drop_last());
        assert(step(d, p, rs.last()) == step_view(d, p, view_of(rs.last())));
    }
}

/// A crash after some records were logged and while another was being
/// written: reading the log back and replaying it reproduces exactly the
/// records that were logged.
pub proof fn lemma_crash_replay(docs: Docs, paths: Paths, rs: Seq<WalRecord>, torn: WalRecord, k: int)
    requires
        forall|i: int| 0 <= i < rs.len() ==> (#[trigger] view_of(rs[i])).2.len() <= 0x1000_0000,
        view_of(torn).2.len() <= 0x1000_0000,
        0 <= k < frame_of(view_of(torn)).len(),
    ensures
        replay_views(docs, paths, parse(log_of(views(rs)) + frame_of(view_of(torn)).subrange(0, k)))
            == replay(docs, paths, rs),
{
    let vs = views(rs);
    assert forall|i: int| 0 <= i < vs.len() implies 1 <= (#[trigger] vs[i]).0 <= 4 && (vs[i].0 == 2 ==> vs[i].2.len() == 0) && payload_of_view(vs[i]).len() <= 0xffff_ffff by {
        assert(vs[i] == view_of(rs[i]));
    }
    lemma_torn_tail_ignored(vs, view_of(torn), k);
    lemma_replay_by_views(docs, paths, rs);
}

/// Records written to the log and read back replay to the same content.
pub proof fn lemma_log_replay(docs: Docs, paths: Paths, rs: Seq<WalRecord>)
    requires
        forall|i: int| 0 <= i < rs.len() ==> (#[trigger] view_of(rs[i])).2.len() <= 0x1000_0000,
    ensures
        replay_views(docs, paths, parse(log_of(views(rs)))) == replay(docs, paths, rs),
{
    let vs = views(rs);
    assert forall|i: int| 0 <= i < vs.len() implies 1 <= (#[trigger] vs[i]).0 <= 4 && (vs[i].0 == 2 ==> vs[i].2.len() == 0) && payload_of_view(vs[i]).len() <= 0xffff_ffff by {
        assert(vs[i] == view_of(rs[i]));
    }
    lemma_log_round_trip(vs);
    lemma_replay_by_views(docs, paths, rs);
}

} // verus!
