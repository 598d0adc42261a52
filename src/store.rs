//! Saving and loading the address book, apart from the file itself: what is
//! written for a save, what a load reads back, and what holds between them.
use vstd::prelude::*;

use crate::bans::{
    expiries_view, expiry_at, relativize_bans, relativized, remaining_ms, restored, BanExpiry,
};
use crate::checksum::{checksum, lemma_checksum_detects_byte_change};
use crate::layout::{
    decode_store, enc_body, enc_store, encode_store, lemma_parse_store_complete,
    lemma_parse_store_extra, store_fits, DecodeError, EncodeError, PeerStore, PeerStoreView,
    FORMAT_VERSION,
};
use crate::wire::{le_bytes, lemma_le_bytes_len, lemma_le_round_trip, lemma_pow256_facts};
use crate::record::{records_view, PeerRecord};

verus! {

/// What a save at `now_ms` stores: both lists as they stand, and every ban
/// with the time left on it at `now_ms`.
pub open spec fn snapshot(
    white_list: Seq<PeerRecord>,
    gray_list: Seq<PeerRecord>,
    banned_peers: Seq<BanExpiry>,
    now_ms: u64,
) -> PeerStoreView {
    PeerStoreView {
        white_list: records_view(white_list),
        gray_list: records_view(gray_list),
        banned_peers: relativized(expiries_view(banned_peers), now_ms),
    }
}

/// The bytes that a save writes. Every ban is measured against the single
/// reference instant `now_ms`.
pub fn snapshot_bytes(
    white_list: &Vec<PeerRecord>,
    gray_list: &Vec<PeerRecord>,
    banned_peers: &Vec<BanExpiry>,
    now_ms: u64,
) -> (r: Result<Vec<u8>, EncodeError>)
    ensures
        ({
            let d = snapshot(white_list@, gray_list@, banned_peers@, now_ms);
            match r {
                Ok(b) => store_fits(d) && b@ == enc_store(d),
                Err(_) => !store_fits(d),
            }
        }),
{
    let durations = relativize_bans(banned_peers, now_ms);
    encode_store(white_list, gray_list, &durations)
}

/// Reads the bytes of a saved file. It succeeds exactly on the bytes of a
/// store, and then gives that store.
pub fn load_store(bytes: &[u8]) -> (r: Result<PeerStore, DecodeError>)
    ensures
        match r {
            Ok(d) => store_fits(d@) && bytes@ == enc_store(d@),
            Err(DecodeError::UnknownVersion) => bytes@.len() > 0 && bytes@[0] != FORMAT_VERSION,
            Err(DecodeError::Malformed) => (bytes@.len() == 0 || bytes@[0] == FORMAT_VERSION)
                && forall|d: PeerStoreView| store_fits(d) ==> bytes@ != enc_store(d),
        },
{
    decode_store(bytes)
}

/// Two stores that fit and are written as the same bytes are the same store:
/// reading back what was written gives exactly the lists and the ban
/// durations that were written, in their order.
pub proof fn lemma_round_trip(d: PeerStoreView, e: PeerStoreView)
    requires
        store_fits(d),
        store_fits(e),
        enc_store(e) == enc_store(d),
    ensures
        e == d,
{
    lemma_parse_store_complete(d);
    lemma_parse_store_complete(e);
}

/// No strict prefix of the bytes of a store is the bytes of a store: a
/// truncated file is refused, not read as a smaller address book.
pub proof fn lemma_truncation_rejected(d: PeerStoreView, n: int)
    requires
        store_fits(d),
        0 <= n < enc_store(d).len(),
    ensures
        forall|e: PeerStoreView| store_fits(e) ==> enc_store(e) != enc_store(d).take(n),
{
    assert forall|e: PeerStoreView| store_fits(e) implies enc_store(e) != enc_store(d).take(n) by {
        if enc_store(e) == enc_store(d).take(n) {
            lemma_parse_store_complete(d);
            lemma_parse_store_extra(e, enc_store(d).skip(n));
            assert(enc_store(d) =~= enc_store(e) + enc_store(d).skip(n));
        }
    }
}

/// Changing any one byte of the bytes of a store that fits, and so flipping
/// any one bit, gives bytes that are not those of any store: a load refuses
/// them rather than read other data.
pub proof fn lemma_byte_change_rejected(d: PeerStoreView, i: int, v: u8)
    requires
        store_fits(d),
        0 <= i < enc_store(d).len(),
        v != enc_store(d)[i],
    ensures
        forall|e: PeerStoreView| store_fits(e) ==> enc_store(e) != enc_store(d).update(i, v),
{
    assert forall|e: PeerStoreView| store_fits(e) implies enc_store(e) != enc_store(d).update(i, v) by {
        let s = enc_store(d);
        let t = s.update(i, v);
        if enc_store(e) == t {
            let bd = enc_body(d);
            let be = enc_body(e);
            let n = s.len();
            lemma_pow256_facts();
            lemma_le_bytes_len(checksum(bd), 4);
            lemma_le_bytes_len(checksum(be), 4);
            lemma_le_round_trip(checksum(bd), 4);
            lemma_le_round_trip(checksum(be), 4);
            assert(s.skip(n - 4) =~= le_bytes(checksum(bd), 4));
            assert(t.skip(n - 4) =~= le_bytes(checksum(be), 4));
            assert(s.take(n - 4) =~= bd);
            assert(t.take(n - 4) =~= be);
            if i < n - 4 {
                assert(be =~= bd.update(i, v));
                assert(t.skip(n - 4) =~= s.skip(n - 4));
                lemma_checksum_detects_byte_change(bd, i, v);
            } else {
                assert(be =~= bd);
                assert(t.skip(n - 4)[i - (n - 4)] == v);
            }
        }
    }
}

/// A ban that has not lifted at the save's reference instant `t0` is stored
/// with exactly the time left, and brought back at the load's reference
/// instant `t1` off from its expiry by no more than the distance between the
/// two instants (by exactly that where no saturation occurs).
pub proof fn lemma_ban_drift(expiry: u64, t0: u64, t1: u64)
    requires
        t0 <= expiry,
    ensures
        remaining_ms(expiry, t0) == expiry - t0,
        t1 + (expiry - t0) <= u64::MAX ==> expiry_at(t1, remaining_ms(expiry, t0)) - expiry == t1 - t0,
        t1 >= t0 ==> expiry <= expiry_at(t1, remaining_ms(expiry, t0)) <= expiry + (t1 - t0),
        t1 < t0 ==> expiry_at(t1, remaining_ms(expiry, t0)) == expiry - (t0 - t1),
{
}

/// A ban that had already lifted at `t0` is stored with nothing left, and
/// comes back lifting at `t1`.
pub proof fn lemma_lifted_ban(expiry: u64, t0: u64, t1: u64)
    requires
        expiry <= t0,
    ensures
        remaining_ms(expiry, t0) == 0,
        expiry_at(t1, remaining_ms(expiry, t0)) == t1,
{
}

/// Relativizing a ban table at `t0` and restoring it at `t1` keeps every
/// identity in its place, and gives each ban that had not lifted at `t0` an
/// expiry off from the original by no more than the distance between `t0`
/// and `t1`.
pub proof fn lemma_ban_table_drift(bans: Seq<(Seq<u8>, u64)>, t0: u64, t1: u64)
    ensures
        restored(relativized(bans, t0), t1).len() == bans.len(),
        forall|i: int|
            0 <= i < bans.len() ==> {
                let back = #[trigger] restored(relativized(bans, t0), t1)[i];
                &&& back.0 == bans[i].0
                &&& t0 <= bans[i].1 && t1 >= t0 ==> bans[i].1 <= back.1 <= bans[i].1 + (t1 - t0)
                &&& t0 <= bans[i].1 && t1 < t0 ==> back.1 == bans[i].1 - (t0 - t1)
                &&& bans[i].1 <= t0 ==> back.1 == t1
            },
{
    assert forall|i: int| 0 <= i < bans.len() implies {
        let back = #[trigger] restored(relativized(bans, t0), t1)[i];
        &&& back.0 == bans[i].0
        &&& t0 <= bans[i].1 && t1 >= t0 ==> bans[i].1 <= back.1 <= bans[i].1 + (t1 - t0)
        &&& t0 <= bans[i].1 && t1 < t0 ==> back.1 == bans[i].1 - (t0 - t1)
        &&& bans[i].1 <= t0 ==> back.1 == t1
    } by {
        assert(relativized(bans, t0)[i] == (bans[i].0, remaining_ms(bans[i].1, t0)));
        if t0 <= bans[i].1 {
            lemma_ban_drift(bans[i].1, t0, t1);
        } else {
            lemma_lifted_ban(bans[i].1, t0, t1);
        }
    }
}

} // verus!
