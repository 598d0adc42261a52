//! The stored form of the address book: a version byte, then the white
//! list, the gray list and the ban table, in that order.
use vstd::prelude::*;
use vstd::slice::slice_subrange;

use crate::record::{
    ban_encoder, ban_fits, ban_fits_pred, ban_parser, bans_view, lemma_ban_parser,
    lemma_record_parser, push_ban, push_record, read_ban, read_record, record_encoder, record_fits,
    record_fits_pred, record_parser, records_view, BanDuration, PeerRecord, PeerRecordView,
};
use crate::checksum::{checksum, compute_checksum};
use crate::wire::{
    enc_items, enc_list, le_bytes, le_value, lemma_le_bytes_len, lemma_le_canonical, lemma_le_round_trip, lemma_enc_items_push, lemma_parse_list_complete,
    lemma_parse_list_sound, lemma_pow256_facts, parse_items, parse_list, pow256, prepend, push_uint,
    read_uint,
};

verus! {

/// The version of the layout that this library writes and reads.
pub const FORMAT_VERSION: u8 = 1;

/// The whole of what is stored: both peer lists and the time left on each ban.
#[derive(Clone, Debug)]
pub struct PeerStore {
    pub white_list: Vec<PeerRecord>,
    pub gray_list: Vec<PeerRecord>,
    pub banned_peers: Vec<BanDuration>,
}

/// The value of a `PeerStore`.
pub ghost struct PeerStoreView {
    pub white_list: Seq<PeerRecordView>,
    pub gray_list: Seq<PeerRecordView>,
    pub banned_peers: Seq<(Seq<u8>, u64)>,
}

impl View for PeerStore {
    type V = PeerStoreView;

    open spec fn view(&self) -> PeerStoreView {
        PeerStoreView {
            white_list: records_view(self.white_list@),
            gray_list: records_view(self.gray_list@),
            banned_peers: bans_view(self.banned_peers@),
        }
    }
}

/// Why a store could not be written.
#[derive(Clone, Copy, Debug, PartialEq, Eq, Structural)]
pub enum EncodeError {
    /// A list, an address or a ban identity has 2^32 or more items.
    TooLong,
}

/// Why bytes could not be read as a store.
#[derive(Clone, Copy, Debug, PartialEq, Eq, Structural)]
pub enum DecodeError {
    /// The first byte names a layout other than `FORMAT_VERSION`.
    UnknownVersion,
    /// The bytes are not the encoding of any store.
    Malformed,
}

/// Every item of a record list can be written, and so can its length.
pub open spec fn records_fit(xs: Seq<PeerRecordView>) -> bool {
    &&& xs.len() < pow256(4)
    &&& forall|i: int| 0 <= i < xs.len() ==> record_fits(#[trigger] xs[i])
}

/// Every item of a ban list can be written, and so can its length.
pub open spec fn bans_fit(xs: Seq<(Seq<u8>, u64)>) -> bool {
    &&& xs.len() < pow256(4)
    &&& forall|i: int| 0 <= i < xs.len() ==> ban_fits(#[trigger] xs[i])
}

/// A store can be written.
pub open spec fn store_fits(d: PeerStoreView) -> bool {
    records_fit(d.white_list) && records_fit(d.gray_list) && bans_fit(d.banned_peers)
}

/// The bytes of a store before its check value.
pub open spec fn enc_body(d: PeerStoreView) -> Seq<u8> {
    seq![FORMAT_VERSION] + (enc_list(d.white_list, record_encoder()) + (enc_list(
        d.gray_list,
        record_encoder(),
    ) + enc_list(d.banned_peers, ban_encoder())))
}

/// Reads a whole byte sequence, check value left out, as a store.
pub open spec fn parse_body(s: Seq<u8>) -> Option<PeerStoreView> {
    if s.len() == 0 || s[0] != FORMAT_VERSION {
        None
    } else {
        match parse_list(s.drop_first(), record_parser()) {
            None => None,
            Some((w, s1)) => match parse_list(s1, record_parser()) {
                None => None,
                Some((g, s2)) => match parse_list(s2, ban_parser()) {
                    None => None,
                    Some((b, s3)) => if s3.len() == 0 {
                        Some(PeerStoreView { white_list: w, gray_list: g, banned_peers: b })
                    } else {
                        None
                    },
                },
            },
        }
    }
}

/// The bytes of a store: its body, then the check value of the body in four
/// bytes.
pub open spec fn enc_store(d: PeerStoreView) -> Seq<u8> {
    enc_body(d) + le_bytes(checksum(enc_body(d)), 4)
}

/// Reads a whole byte sequence as a store: the last four bytes must hold the
/// check value of the others, which must read as a store body.
pub open spec fn parse_store(s: Seq<u8>) -> Option<PeerStoreView> {
    if s.len() < 4 {
        None
    } else if le_value(s.skip(s.len() - 4)) != checksum(s.take(s.len() - 4)) {
        None
    } else {
        parse_body(s.take(s.len() - 4))
    }
}

/// Reading the bytes of a store that fits gives that store back.
pub proof fn lemma_parse_store_complete(d: PeerStoreView)
    requires
        store_fits(d),
    ensures
        parse_store(enc_store(d)) == Some(d),
{
    let body = enc_body(d);
    let c = checksum(body);
    let s = enc_store(d);
    lemma_pow256_facts();
    lemma_le_round_trip(c, 4);
    assert(s.take(s.len() - 4) =~= body);
    assert(s.skip(s.len() - 4) =~= le_bytes(c, 4));
    lemma_parse_body_complete(d);
}

/// Whatever reads as a store is the encoding of that store.
pub proof fn lemma_parse_store_sound(s: Seq<u8>)
    requires
        parse_store(s) is Some,
    ensures
        store_fits(parse_store(s)->0),
        s == enc_store(parse_store(s)->0),
{
    let body = s.take(s.len() - 4);
    let trailer = s.skip(s.len() - 4);
    let d = parse_body(body)->0;
    assert(parse_store(s) == parse_body(body));
    assert(le_value(trailer) == checksum(body));
    lemma_parse_body_sound(body);
    assert(body == enc_body(d));
    lemma_le_canonical(trailer);
    assert(trailer == le_bytes(checksum(enc_body(d)), 4));
    assert(s =~= enc_body(d) + le_bytes(checksum(enc_body(d)), 4));
}

/// Bytes after those of a store that fits make the whole unreadable as a store.
pub proof fn lemma_parse_store_extra(d: PeerStoreView, extra: Seq<u8>)
    requires
        store_fits(d),
        extra.len() > 0,
    ensures
        parse_store(enc_store(d) + extra) is None,
{
    let s = enc_store(d) + extra;
    let body = enc_body(d);
    lemma_le_bytes_len(checksum(body), 4);
    let more = s.take(s.len() - 4).skip(body.len() as int);
    assert(s.take(s.len() - 4) =~= body + more);
    lemma_parse_body_extra(d, more);
}

proof fn lemma_parse_body_complete(d: PeerStoreView)
    requires
        store_fits(d),
    ensures
        parse_body(enc_body(d)) == Some(d),
{
    lemma_record_parser();
    lemma_ban_parser();
    let empty = Seq::<u8>::empty();
    let s3 = enc_list(d.banned_peers, ban_encoder());
    let s2 = enc_list(d.gray_list, record_encoder()) + s3;
    let s = enc_body(d);
    assert(s.drop_first() =~= enc_list(d.white_list, record_encoder()) + s2);
    assert(s3 =~= s3 + empty);
    lemma_parse_list_complete(d.white_list, s2, record_parser(), record_encoder(), record_fits_pred());
    lemma_parse_list_complete(d.gray_list, s3, record_parser(), record_encoder(), record_fits_pred());
    lemma_parse_list_complete(d.banned_peers, empty, ban_parser(), ban_encoder(), ban_fits_pred());
}

proof fn lemma_parse_body_sound(s: Seq<u8>)
    requires
        parse_body(s) is Some,
    ensures
        store_fits(parse_body(s)->0),
        s == enc_body(parse_body(s)->0),
{
    lemma_record_parser();
    lemma_ban_parser();
    let s0 = s.drop_first();
    lemma_parse_list_sound(s0, record_parser(), record_encoder(), record_fits_pred());
    let (w, s1) = parse_list(s0, record_parser())->0;
    lemma_parse_list_sound(s1, record_parser(), record_encoder(), record_fits_pred());
    let (g, s2) = parse_list(s1, record_parser())->0;
    lemma_parse_list_sound(s2, ban_parser(), ban_encoder(), ban_fits_pred());
    let d = parse_body(s)->0;
    assert(s =~= enc_body(d));
}

proof fn lemma_parse_body_extra(d: PeerStoreView, extra: Seq<u8>)
    requires
        store_fits(d),
        extra.len() > 0,
    ensures
        parse_body(enc_body(d) + extra) is None,
{
    lemma_record_parser();
    lemma_ban_parser();
    let s3 = enc_list(d.banned_peers, ban_encoder()) + extra;
    let s2 = enc_list(d.gray_list, record_encoder()) + s3;
    let s = enc_body(d) + extra;
    assert(s.drop_first() =~= enc_list(d.white_list, record_encoder()) + s2);
    lemma_parse_list_complete(d.white_list, s2, record_parser(), record_encoder(), record_fits_pred());
    lemma_parse_list_complete(d.gray_list, s3, record_parser(), record_encoder(), record_fits_pred());
    lemma_parse_list_complete(d.banned_peers, extra, ban_parser(), ban_encoder(), ban_fits_pred());
}

fn records_fit_exec(v: &Vec<PeerRecord>) -> (r: bool)
    ensures
        r == records_fit(records_view(v@)),
{
    proof {
        lemma_pow256_facts();
    }
    if v.len() > 0xffff_ffff {
        return false;
    }
    let mut i: usize = 0;
    while i < v.len()
        invariant
            i <= v@.len(),
            v@.len() < pow256(4),
            pow256(4) == 0x1_0000_0000,
            forall|j: int| 0 <= j < i ==> record_fits(#[trigger] records_view(v@)[j]),
        decreases v@.len() - i,
    {
        assert(records_view(v@)[i as int] == v@[i as int]@);
        if v[i].adr.len() > 0xffff_ffff {
            return false;
        }
        i = i + 1;
    }
    true
}

fn bans_fit_exec(v: &Vec<BanDuration>) -> (r: bool)
    ensures
        r == bans_fit(bans_view(v@)),
{
    proof {
        lemma_pow256_facts();
    }
    if v.len() > 0xffff_ffff {
        return false;
    }
    let mut i: usize = 0;
    while i < v.len()
        invariant
            i <= v@.len(),
            v@.len() < pow256(4),
            pow256(4) == 0x1_0000_0000,
            forall|j: int| 0 <= j < i ==> ban_fits(#[trigger] bans_view(v@)[j]),
        decreases v@.len() - i,
    {
        assert(bans_view(v@)[i as int] == v@[i as int]@);
        if v[i].ban_id.len() > 0xffff_ffff {
            return false;
        }
        i = i + 1;
    }
    true
}

fn push_records(out: &mut Vec<u8>, v: &Vec<PeerRecord>)
    requires
        records_fit(records_view(v@)),
    ensures
        final(out)@ == old(out)@ + enc_list(records_view(v@), record_encoder()),
{
    proof {
        lemma_pow256_facts();
    }
    let ghost xs = records_view(v@);
    push_uint(out, v.len() as u64, 4);
    let ghost start = out@;
    let mut i: usize = 0;
    while i < v.len()
        invariant
            i <= v@.len(),
            xs == records_view(v@),
            records_fit(xs),
            start == old(out)@ + le_bytes(xs.len(), 4),
            out@ == start + enc_items(xs.take(i as int), record_encoder()),
        decreases v@.len() - i,
    {
        assert(xs[i as int] == v@[i as int]@);
        push_record(out, &v[i]);
        proof {
            lemma_enc_items_push(xs.take(i as int), xs[i as int], record_encoder());
            assert(xs.take(i + 1) =~= xs.take(i as int).push(xs[i as int]));
        }
        i = i + 1;
    }
    assert(xs.take(i as int) =~= xs);
    assert(out@ =~= old(out)@ + enc_list(xs, record_encoder()));
}

fn push_bans(out: &mut Vec<u8>, v: &Vec<BanDuration>)
    requires
        bans_fit(bans_view(v@)),
    ensures
        final(out)@ == old(out)@ + enc_list(bans_view(v@), ban_encoder()),
{
    proof {
        lemma_pow256_facts();
    }
    let ghost xs = bans_view(v@);
    push_uint(out, v.len() as u64, 4);
    let ghost start = out@;
    let mut i: usize = 0;
    while i < v.len()
        invariant
            i <= v@.len(),
            xs == bans_view(v@),
            bans_fit(xs),
            start == old(out)@ + le_bytes(xs.len(), 4),
            out@ == start + enc_items(xs.take(i as int), ban_encoder()),
        decreases v@.len() - i,
    {
        assert(xs[i as int] == v@[i as int]@);
        push_ban(out, &v[i]);
        proof {
            lemma_enc_items_push(xs.take(i as int), xs[i as int], ban_encoder());
            assert(xs.take(i + 1) =~= xs.take(i as int).push(xs[i as int]));
        }
        i = i + 1;
    }
    assert(xs.take(i as int) =~= xs);
    assert(out@ =~= old(out)@ + enc_list(xs, ban_encoder()));
}

fn read_records(b: &[u8], pos: usize) -> (r: Option<(Vec<PeerRecord>, usize)>)
    requires
        pos <= b@.len(),
    ensures
        match parse_list(b@.skip(pos as int), record_parser()) {
            Some((xs, rest)) => r matches Some((v, p)) && records_view(v@) == xs && p <= b@.len()
                && rest == b@.skip(p as int),
            None => r is None,
        },
{
    let (n, start) = match read_uint(b, pos, 4) {
        Some(x) => x,
        None => return None,
    };
    let ghost s0 = b@.skip(start as int);
    let mut v: Vec<PeerRecord> = Vec::new();
    let mut cur: usize = start;
    let mut i: u64 = 0;
    proof {
        let r0 = parse_items(s0, n as nat, record_parser());
        assert(prepend(records_view(v@), r0) == r0) by {
            if r0 is Some {
                assert(records_view(v@) + (r0->0).0 =~= (r0->0).0);
            }
        }
    }
    while i < n
        invariant
            i <= n,
            start <= cur <= b@.len(),
            parse_list(b@.skip(pos as int), record_parser()) == parse_items(s0, n as nat, record_parser()),
            parse_items(s0, n as nat, record_parser()) == prepend(
                records_view(v@),
                parse_items(b@.skip(cur as int), (n - i) as nat, record_parser()),
            ),
        decreases n - i,
    {
        match read_record(b, cur) {
            Some((x, p)) => {
                proof {
                    let tail = parse_items(b@.skip(p as int), (n - i - 1) as nat, record_parser());
                    assert(records_view(v@.push(x)) =~= records_view(v@) + seq![x@]);
                    if tail is Some {
                        assert(records_view(v@) + (seq![x@] + (tail->0).0) =~= records_view(v@)
                            + seq![x@] + (tail->0).0);
                    }
                }
                v.push(x);
                cur = p;
                i = i + 1;
            },
            None => {
                return None;
            },
        }
    }
    proof {
        let r0 = parse_items(b@.skip(cur as int), 0, record_parser());
        assert(records_view(v@) + (r0->0).0 =~= records_view(v@));
    }
    Some((v, cur))
}

fn read_bans(b: &[u8], pos: usize) -> (r: Option<(Vec<BanDuration>, usize)>)
    requires
        pos <= b@.len(),
    ensures
        match parse_list(b@.skip(pos as int), ban_parser()) {
            Some((xs, rest)) => r matches Some((v, p)) && bans_view(v@) == xs && p <= b@.len()
                && rest == b@.skip(p as int),
            None => r is None,
        },
{
    let (n, start) = match read_uint(b, pos, 4) {
        Some(x) => x,
        None => return None,
    };
    let ghost s0 = b@.skip(start as int);
    let mut v: Vec<BanDuration> = Vec::new();
    let mut cur: usize = start;
    let mut i: u64 = 0;
    proof {
        let r0 = parse_items(s0, n as nat, ban_parser());
        assert(prepend(bans_view(v@), r0) == r0) by {
            if r0 is Some {
                assert(bans_view(v@) + (r0->0).0 =~= (r0->0).0);
            }
        }
    }
    while i < n
        invariant
            i <= n,
            start <= cur <= b@.len(),
            parse_list(b@.skip(pos as int), ban_parser()) == parse_items(s0, n as nat, ban_parser()),
            parse_items(s0, n as nat, ban_parser()) == prepend(
                bans_view(v@),
                parse_items(b@.skip(cur as int), (n - i) as nat, ban_parser()),
            ),
        decreases n - i,
    {
        match read_ban(b, cur) {
            Some((x, p)) => {
                proof {
                    let tail = parse_items(b@.skip(p as int), (n - i - 1) as nat, ban_parser());
                    assert(bans_view(v@.push(x)) =~= bans_view(v@) + seq![x@]);
                    if tail is Some {
                        assert(bans_view(v@) + (seq![x@] + (tail->0).0) =~= bans_view(v@)
                            + seq![x@] + (tail->0).0);
                    }
                }
                v.push(x);
                cur = p;
                i = i + 1;
            },
            None => {
                return None;
            },
        }
    }
    proof {
        let r0 = parse_items(b@.skip(cur as int), 0, ban_parser());
        assert(bans_view(v@) + (r0->0).0 =~= bans_view(v@));
    }
    Some((v, cur))
}

/// The value of a store made of the three lists.
pub open spec fn store_view(
    white_list: Seq<PeerRecord>,
    gray_list: Seq<PeerRecord>,
    banned_peers: Seq<BanDuration>,
) -> PeerStoreView {
    PeerStoreView {
        white_list: records_view(white_list),
        gray_list: records_view(gray_list),
        banned_peers: bans_view(banned_peers),
    }
}

/// The bytes of the store made of the three lists, or `TooLong` where one of
/// them, an address or a ban identity has 2^32 or more items.
pub fn encode_store(
    white_list: &Vec<PeerRecord>,
    gray_list: &Vec<PeerRecord>,
    banned_peers: &Vec<BanDuration>,
) -> (r: Result<Vec<u8>, EncodeError>)
    ensures
        ({
            let d = store_view(white_list@, gray_list@, banned_peers@);
            match r {
                Ok(b) => store_fits(d) && b@ == enc_store(d),
                Err(_) => !store_fits(d),
            }
        }),
{
    if !records_fit_exec(white_list) || !records_fit_exec(gray_list) || !bans_fit_exec(banned_peers) {
        return Err(EncodeError::TooLong);
    }
    let mut out: Vec<u8> = Vec::new();
    out.push(FORMAT_VERSION);
    push_records(&mut out, white_list);
    push_records(&mut out, gray_list);
    push_bans(&mut out, banned_peers);
    let ghost d = store_view(white_list@, gray_list@, banned_peers@);
    assert(out@ =~= enc_body(d));
    let sum = compute_checksum(out.as_slice());
    proof {
        lemma_pow256_facts();
    }
    push_uint(&mut out, sum as u64, 4);
    Ok(out)
}

/// Reads `b` as a store. It succeeds exactly on the bytes of a store, and
/// then gives that store.
pub fn decode_store(b: &[u8]) -> (r: Result<PeerStore, DecodeError>)
    ensures
        match r {
            Ok(d) => store_fits(d@) && b@ == enc_store(d@),
            Err(DecodeError::UnknownVersion) => b@.len() > 0 && b@[0] != FORMAT_VERSION,
            Err(DecodeError::Malformed) => (b@.len() == 0 || b@[0] == FORMAT_VERSION) && forall|
                d: PeerStoreView,
            | store_fits(d) ==> b@ != enc_store(d),
        },
{
    let r = decode_checked(b);
    proof {
        if r is Ok {
            lemma_parse_store_sound(b@);
        } else {
            assert forall|d: PeerStoreView| store_fits(d) implies b@ != enc_store(d) by {
                lemma_parse_store_complete(d);
            }
        }
    }
    r
}

fn decode_checked(b: &[u8]) -> (r: Result<PeerStore, DecodeError>)
    ensures
        match r {
            Ok(d) => parse_store(b@) == Some(d@),
            Err(DecodeError::UnknownVersion) => b@.len() > 0 && b@[0] != FORMAT_VERSION
                && parse_store(b@) is None,
            Err(DecodeError::Malformed) => (b@.len() == 0 || b@[0] == FORMAT_VERSION)
                && parse_store(b@) is None,
        },
{
    let n = b.len();
    if n == 0 {
        return Err(DecodeError::Malformed);
    }
    if b[0] != FORMAT_VERSION {
        proof {
            if n >= 4 {
                assert(b@.take(n - 4).len() == 0 || b@.take(n - 4)[0] == b@[0]);
            }
        }
        return Err(DecodeError::UnknownVersion);
    }
    if n <= 4 {
        return Err(DecodeError::Malformed);
    }
    let body = slice_subrange(b, 0, n - 4);
    let sum = compute_checksum(body);
    let stored = match read_uint(b, n - 4, 4) {
        Some((v, _)) => v,
        None => return Err(DecodeError::Malformed),
    };
    assert(b@.skip(n - 4).take(4) =~= b@.skip(n - 4));
    assert(body@ =~= b@.take(n - 4));
    if stored != sum as u64 {
        return Err(DecodeError::Malformed);
    }
    match decode_body(body) {
        Some(d) => Ok(d),
        None => Err(DecodeError::Malformed),
    }
}

fn decode_body(b: &[u8]) -> (r: Option<PeerStore>)
    requires
        b@.len() > 0,
        b@[0] == FORMAT_VERSION,
    ensures
        match parse_body(b@) {
            Some(d) => r matches Some(x) && x@ == d,
            None => r is None,
        },
{
    assert(b@.drop_first() =~= b@.skip(1));
    let (white_list, p1) = match read_records(b, 1) {
        Some(x) => x,
        None => return None,
    };
    let (gray_list, p2) = match read_records(b, p1) {
        Some(x) => x,
        None => return None,
    };
    let (banned_peers, p3) = match read_bans(b, p2) {
        Some(x) => x,
        None => return None,
    };
    if p3 != b.len() {
        return None;
    }
    Some(PeerStore { white_list, gray_list, banned_peers })
}

} // verus!
