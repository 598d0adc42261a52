//! The two kinds of entries that the store holds: a known peer, and the time
//! left on the ban of a peer identity.
use vstd::prelude::*;

use crate::wire::{
    enc_bytes, le_bytes, lemma_parse_bytes_complete, lemma_parse_bytes_sound, lemma_parse_uint_complete,
    lemma_parse_uint_sound, lemma_pow256_facts, parse_bytes, parse_uint, parser_inverts, pow256, push_bytes, push_uint,
    read_bytes, read_uint,
};

verus! {

/// What the address book knows of one peer. The zone's address is held in
/// its own wire form.
#[derive(Clone, Debug)]
pub struct PeerRecord {
    pub adr: Vec<u8>,
    pub id: u64,
    pub last_seen: i64,
    pub pruning_seed: u32,
    pub rpc_port: u16,
    pub rpc_credits_per_hash: u32,
}

/// The value of a `PeerRecord`.
pub ghost struct PeerRecordView {
    pub adr: Seq<u8>,
    pub id: u64,
    pub last_seen: i64,
    pub pruning_seed: u32,
    pub rpc_port: u16,
    pub rpc_credits_per_hash: u32,
}

impl View for PeerRecord {
    type V = PeerRecordView;

    open spec fn view(&self) -> PeerRecordView {
        PeerRecordView {
            adr: self.adr@,
            id: self.id,
            last_seen: self.last_seen,
            pruning_seed: self.pruning_seed,
            rpc_port: self.rpc_port,
            rpc_credits_per_hash: self.rpc_credits_per_hash,
        }
    }
}

/// A banned peer identity and the milliseconds left on its ban.
#[derive(Clone, Debug)]
pub struct BanDuration {
    pub ban_id: Vec<u8>,
    pub remaining_ms: u64,
}

impl View for BanDuration {
    type V = (Seq<u8>, u64);

    open spec fn view(&self) -> (Seq<u8>, u64) {
        (self.ban_id@, self.remaining_ms)
    }
}

/// The views of a sequence of peer records.
pub open spec fn records_view(v: Seq<PeerRecord>) -> Seq<PeerRecordView> {
    v.map_values(|r: PeerRecord| r@)
}

/// The views of a sequence of ban durations.
pub open spec fn bans_view(v: Seq<BanDuration>) -> Seq<(Seq<u8>, u64)> {
    v.map_values(|b: BanDuration| b@)
}

/// The unsigned number with the same 64 bits as `x` in two's complement.
pub open spec fn i64_bits(x: i64) -> nat {
    if x >= 0 {
        x as nat
    } else {
        (x + 0x1_0000_0000_0000_0000) as nat
    }
}

/// The signed number whose 64 bits in two's complement are those of `v`.
pub open spec fn i64_of_bits(v: nat) -> i64 {
    if v < 0x8000_0000_0000_0000 {
        v as i64
    } else {
        (v - 0x1_0000_0000_0000_0000) as i64
    }
}

/// A peer record: its address as a byte string, then `id`, `last_seen`,
/// `pruning_seed`, `rpc_port` and `rpc_credits_per_hash`, little-endian.
pub open spec fn enc_record(r: PeerRecordView) -> Seq<u8> {
    enc_bytes(r.adr) + (le_bytes(r.id as nat, 8) + (le_bytes(i64_bits(r.last_seen), 8) + (
    le_bytes(r.pruning_seed as nat, 4) + (le_bytes(r.rpc_port as nat, 2) + le_bytes(
        r.rpc_credits_per_hash as nat,
        4,
    )))))
}

/// A peer record can be written: its address length fits in four bytes.
pub open spec fn record_fits(r: PeerRecordView) -> bool {
    r.adr.len() < pow256(4)
}

/// Reads a peer record written by `enc_record` off the front of `s`.
pub open spec fn parse_record(s: Seq<u8>) -> Option<(PeerRecordView, Seq<u8>)> {
    match parse_bytes(s) {
        None => None,
        Some((adr, s1)) => match parse_uint(s1, 8) {
            None => None,
            Some((id, s2)) => match parse_uint(s2, 8) {
                None => None,
                Some((seen, s3)) => match parse_uint(s3, 4) {
                    None => None,
                    Some((seed, s4)) => match parse_uint(s4, 2) {
                        None => None,
                        Some((port, s5)) => match parse_uint(s5, 4) {
                            None => None,
                            Some((credits, s6)) => Some(
                                (
                                    PeerRecordView {
                                        adr,
                                        id: id as u64,
                                        last_seen: i64_of_bits(seen),
                                        pruning_seed: seed as u32,
                                        rpc_port: port as u16,
                                        rpc_credits_per_hash: credits as u32,
                                    },
                                    s6,
                                ),
                            ),
                        },
                    },
                },
            },
        },
    }
}

/// A ban: the identity as a byte string, then the milliseconds left in eight bytes.
pub open spec fn enc_ban(b: (Seq<u8>, u64)) -> Seq<u8> {
    enc_bytes(b.0) + le_bytes(b.1 as nat, 8)
}

/// A ban can be written: its identity's length fits in four bytes.
pub open spec fn ban_fits(b: (Seq<u8>, u64)) -> bool {
    b.0.len() < pow256(4)
}

/// Reads a ban written by `enc_ban` off the front of `s`.
pub open spec fn parse_ban(s: Seq<u8>) -> Option<((Seq<u8>, u64), Seq<u8>)> {
    match parse_bytes(s) {
        None => None,
        Some((id, s1)) => match parse_uint(s1, 8) {
            None => None,
            Some((ms, s2)) => Some(((id, ms as u64), s2)),
        },
    }
}

/// `parse_record` as a value.
pub open spec fn record_parser() -> spec_fn(Seq<u8>) -> Option<(PeerRecordView, Seq<u8>)> {
    |s: Seq<u8>| parse_record(s)
}

/// `enc_record` as a value.
pub open spec fn record_encoder() -> spec_fn(PeerRecordView) -> Seq<u8> {
    |r: PeerRecordView| enc_record(r)
}

/// `record_fits` as a value.
pub open spec fn record_fits_pred() -> spec_fn(PeerRecordView) -> bool {
    |r: PeerRecordView| record_fits(r)
}

/// `parse_ban` as a value.
pub open spec fn ban_parser() -> spec_fn(Seq<u8>) -> Option<((Seq<u8>, u64), Seq<u8>)> {
    |s: Seq<u8>| parse_ban(s)
}

/// `enc_ban` as a value.
pub open spec fn ban_encoder() -> spec_fn((Seq<u8>, u64)) -> Seq<u8> {
    |b: (Seq<u8>, u64)| enc_ban(b)
}

/// `ban_fits` as a value.
pub open spec fn ban_fits_pred() -> spec_fn((Seq<u8>, u64)) -> bool {
    |b: (Seq<u8>, u64)| ban_fits(b)
}

proof fn lemma_i64_bits(x: i64)
    ensures
        i64_bits(x) < pow256(8),
        i64_of_bits(i64_bits(x)) == x,
{
    lemma_pow256_facts();
}

proof fn lemma_i64_of_bits(v: nat)
    requires
        v < pow256(8),
    ensures
        i64_bits(i64_of_bits(v)) == v,
{
    lemma_pow256_facts();
}

pub proof fn lemma_record_parser()
    ensures
        parser_inverts(record_parser(), record_encoder(), record_fits_pred()),
{
    lemma_pow256_facts();
    assert forall|r: PeerRecordView, rest: Seq<u8>| record_fits(r) implies #[trigger] parse_record(
        enc_record(r) + rest,
    ) == Some((r, rest)) by {
        let s6 = rest;
        let s5 = le_bytes(r.rpc_credits_per_hash as nat, 4) + s6;
        let s4 = le_bytes(r.rpc_port as nat, 2) + s5;
        let s3 = le_bytes(r.pruning_seed as nat, 4) + s4;
        let s2 = le_bytes(i64_bits(r.last_seen), 8) + s3;
        let s1 = le_bytes(r.id as nat, 8) + s2;
        assert(enc_record(r) + rest =~= enc_bytes(r.adr) + s1);
        lemma_parse_bytes_complete(r.adr, s1);
        lemma_parse_uint_complete(r.id as nat, 8, s2);
        lemma_i64_bits(r.last_seen);
        lemma_parse_uint_complete(i64_bits(r.last_seen), 8, s3);
        lemma_parse_uint_complete(r.pruning_seed as nat, 4, s4);
        lemma_parse_uint_complete(r.rpc_port as nat, 2, s5);
        lemma_parse_uint_complete(r.rpc_credits_per_hash as nat, 4, s6);
    }
    assert forall|s: Seq<u8>| #[trigger] parse_record(s) is Some implies record_fits(
        (parse_record(s)->0).0,
    ) && s == enc_record((parse_record(s)->0).0) + (parse_record(s)->0).1 by {
        lemma_parse_bytes_sound(s);
        let (adr, s1) = parse_bytes(s)->0;
        lemma_parse_uint_sound(s1, 8);
        let (id, s2) = parse_uint(s1, 8)->0;
        lemma_parse_uint_sound(s2, 8);
        let (seen, s3) = parse_uint(s2, 8)->0;
        lemma_parse_uint_sound(s3, 4);
        let (seed, s4) = parse_uint(s3, 4)->0;
        lemma_parse_uint_sound(s4, 2);
        let (port, s5) = parse_uint(s4, 2)->0;
        lemma_parse_uint_sound(s5, 4);
        lemma_i64_of_bits(seen);
        let (r, rest) = parse_record(s)->0;
        assert(s =~= enc_record(r) + rest);
    }
}

pub proof fn lemma_ban_parser()
    ensures
        parser_inverts(ban_parser(), ban_encoder(), ban_fits_pred()),
{
    lemma_pow256_facts();
    assert forall|b: (Seq<u8>, u64), rest: Seq<u8>| ban_fits(b) implies #[trigger] parse_ban(
        enc_ban(b) + rest,
    ) == Some((b, rest)) by {
        let s1 = le_bytes(b.1 as nat, 8) + rest;
        assert(enc_ban(b) + rest =~= enc_bytes(b.0) + s1);
        lemma_parse_bytes_complete(b.0, s1);
        lemma_parse_uint_complete(b.1 as nat, 8, rest);
    }
    assert forall|s: Seq<u8>| #[trigger] parse_ban(s) is Some implies ban_fits((parse_ban(s)->0).0)
        && s == enc_ban((parse_ban(s)->0).0) + (parse_ban(s)->0).1 by {
        lemma_parse_bytes_sound(s);
        let (id, s1) = parse_bytes(s)->0;
        lemma_parse_uint_sound(s1, 8);
        let (b, rest) = parse_ban(s)->0;
        assert(s =~= enc_ban(b) + rest);
    }
}

fn i64_to_bits(x: i64) -> (r: u64)
    ensures
        r as nat == i64_bits(x),
{
    if x >= 0 {
        x as u64
    } else {
        (x as i128 + 0x1_0000_0000_0000_0000i128) as u64
    }
}

fn i64_from_bits(v: u64) -> (r: i64)
    ensures
        r == i64_of_bits(v as nat),
{
    if v < 0x8000_0000_0000_0000 {
        v as i64
    } else {
        (v as i128 - 0x1_0000_0000_0000_0000i128) as i64
    }
}

/// Appends the encoding of `r`.
pub fn push_record(out: &mut Vec<u8>, r: &PeerRecord)
    requires
        record_fits(r@),
    ensures
        final(out)@ == old(out)@ + enc_record(r@),
{
    proof {
        lemma_pow256_facts();
        lemma_i64_bits(r.last_seen);
    }
    push_bytes(out, &r.adr);
    push_uint(out, r.id, 8);
    push_uint(out, i64_to_bits(r.last_seen), 8);
    push_uint(out, r.pruning_seed as u64, 4);
    push_uint(out, r.rpc_port as u64, 2);
    push_uint(out, r.rpc_credits_per_hash as u64, 4);
    assert(final(out)@ =~= old(out)@ + enc_record(r@));
}

/// Reads the peer record at `pos`, if a whole one stands there.
pub fn read_record(b: &[u8], pos: usize) -> (r: Option<(PeerRecord, usize)>)
    requires
        pos <= b@.len(),
    ensures
        match parse_record(b@.skip(pos as int)) {
            Some((x, rest)) => r matches Some((v, p)) && v@ == x && p <= b@.len() && rest == b@.skip(p as int),
            None => r is None,
        },
{
    proof {
        lemma_pow256_facts();
    }
    let (adr, p1) = match read_bytes(b, pos) {
        Some(x) => x,
        None => return None,
    };
    let (id, p2) = match read_uint(b, p1, 8) {
        Some(x) => x,
        None => return None,
    };
    let (seen, p3) = match read_uint(b, p2, 8) {
        Some(x) => x,
        None => return None,
    };
    let (seed, p4) = match read_uint(b, p3, 4) {
        Some(x) => x,
        None => return None,
    };
    let (port, p5) = match read_uint(b, p4, 2) {
        Some(x) => x,
        None => return None,
    };
    let (credits, p6) = match read_uint(b, p5, 4) {
        Some(x) => x,
        None => return None,
    };
    proof {
        lemma_parse_uint_sound(b@.skip(p3 as int), 4);
        lemma_parse_uint_sound(b@.skip(p4 as int), 2);
        lemma_parse_uint_sound(b@.skip(p5 as int), 4);
    }
    let rec = PeerRecord {
        adr,
        id,
        last_seen: i64_from_bits(seen),
        pruning_seed: seed as u32,
        rpc_port: port as u16,
        rpc_credits_per_hash: credits as u32,
    };
    Some((rec, p6))
}

/// Appends the encoding of `x`.
pub fn push_ban(out: &mut Vec<u8>, x: &BanDuration)
    requires
        ban_fits(x@),
    ensures
        final(out)@ == old(out)@ + enc_ban(x@),
{
    proof {
        lemma_pow256_facts();
    }
    push_bytes(out, &x.ban_id);
    push_uint(out, x.remaining_ms, 8);
    assert(final(out)@ =~= old(out)@ + enc_ban(x@));
}

/// Reads the ban at `pos`, if a whole one stands there.
pub fn read_ban(b: &[u8], pos: usize) -> (r: Option<(BanDuration, usize)>)
    requires
        pos <= b@.len(),
    ensures
        match parse_ban(b@.skip(pos as int)) {
            Some((x, rest)) => r matches Some((v, p)) && v@ == x && p <= b@.len() && rest == b@.skip(p as int),
            None => r is None,
        },
{
    let (ban_id, p1) = match read_bytes(b, pos) {
        Some(x) => x,
        None => return None,
    };
    let (ms, p2) = match read_uint(b, p1, 8) {
        Some(x) => x,
        None => return None,
    };
    Some((BanDuration { ban_id, remaining_ms: ms }, p2))
}

} // verus!
