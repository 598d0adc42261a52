use address_book_store::bans::{
    ban_expiry_at, relativize_bans, remaining_ban_time, restore_bans, BanExpiry,
};
use address_book_store::layout::{decode_store, encode_store, DecodeError, FORMAT_VERSION};
use address_book_store::record::{BanDuration, PeerRecord};
use address_book_store::store::{load_store, snapshot_bytes};
use std::collections::HashMap;
use std::time::{Duration, Instant};

fn make_fake_peer(n: u32) -> PeerRecord {
    PeerRecord {
        adr: n.to_le_bytes().to_vec(),
        id: 100 + n as u64,
        last_seen: n as i64 - 25,
        pruning_seed: n % 8,
        rpc_port: 18080 + (n % 3) as u16,
        rpc_credits_per_hash: n * 7,
    }
}

fn make_fake_peer_list(start: u32, count: u32) -> Vec<PeerRecord> {
    (start..start + count).map(make_fake_peer).collect()
}

fn millis_since(origin: Instant, at: Instant) -> u64 {
    at.saturating_duration_since(origin).as_millis() as u64
}

#[test]
fn ser_deser_peer_list() {
    let origin = Instant::now();
    let white_list = make_fake_peer_list(0, 50);
    let gray_list = make_fake_peer_list(50, 50);
    let mut banned_peers: HashMap<Vec<u8>, u64> = HashMap::new();
    for peer in white_list.iter() {
        banned_peers.insert(peer.adr.clone(), millis_since(origin, Instant::now() + Duration::from_secs(60)));
    }

    // Add some more bans for testing
    for n in 0..10u32 {
        let peer = make_fake_peer(banned_peers.len() as u32 + n * 1000);
        banned_peers.insert(peer.adr.clone(), millis_since(origin, Instant::now() + Duration::from_secs(3600)));
    }
    let ban_list: Vec<BanExpiry> = banned_peers
        .iter()
        .map(|(id, &at)| BanExpiry { ban_id: id.clone(), expires_at_ms: at })
        .collect();

    let data = snapshot_bytes(&white_list, &gray_list, &ban_list, millis_since(origin, Instant::now())).unwrap();
    let de_ser = load_store(&data).unwrap();

    let banned_peers_2: HashMap<Vec<u8>, u64> = restore_bans(&de_ser.banned_peers, millis_since(origin, Instant::now()))
        .into_iter()
        .map(|b| (b.ban_id, b.expires_at_ms))
        .collect();

    // Test white and gray lists
    assert_eq!(white_list.len(), de_ser.white_list.len());
    assert_eq!(gray_list.len(), de_ser.gray_list.len());

    for peer in white_list.iter() {
        assert!(de_ser.white_list.iter().any(|p| p.adr == peer.adr));
    }

    for peer in gray_list.iter() {
        assert!(de_ser.gray_list.iter().any(|p| p.adr == peer.adr));
    }

    // Test banned peers
    assert_eq!(banned_peers.len(), banned_peers_2.len());
    assert_eq!(banned_peers_2.len(), 60);

    for (ban_id, ban_until) in banned_peers.iter() {
        let ban_until_2 = banned_peers_2.get(ban_id).unwrap();
        assert!(ban_until.abs_diff(*ban_until_2) < 1000);
    }
}

fn sample_bytes() -> Vec<u8> {
    let white = make_fake_peer_list(0, 2);
    let gray = make_fake_peer_list(10, 1);
    let bans = vec![BanDuration { ban_id: vec![9, 9], remaining_ms: 5000 }];
    encode_store(&white, &gray, &bans).unwrap()
}

#[test]
fn empty_store_round_trip() {
    let bytes = encode_store(&Vec::new(), &Vec::new(), &Vec::new()).unwrap();
    let d = decode_store(&bytes).unwrap();
    assert!(d.white_list.is_empty());
    assert!(d.gray_list.is_empty());
    assert!(d.banned_peers.is_empty());
}

#[test]
fn empty_store_exact_bytes() {
    let bytes = encode_store(&Vec::new(), &Vec::new(), &Vec::new()).unwrap();
    assert_eq!(bytes, vec![FORMAT_VERSION, 0, 0, 0, 0, 0, 0, 0, 0, 0, 0, 0, 0, 1, 0, 0, 0]);
}

#[test]
fn one_record_exact_bytes() {
    let rec = PeerRecord {
        adr: vec![7, 8],
        id: 0x0102,
        last_seen: -1,
        pruning_seed: 0x0a0b0c0d,
        rpc_port: 18080,
        rpc_credits_per_hash: 5,
    };
    let ban = BanDuration { ban_id: vec![3], remaining_ms: 256 };
    let bytes = encode_store(&vec![rec], &Vec::new(), &vec![ban]).unwrap();
    let mut want: Vec<u8> = vec![1];
    want.extend_from_slice(&[1, 0, 0, 0]);
    want.extend_from_slice(&[2, 0, 0, 0, 7, 8]);
    want.extend_from_slice(&[2, 1, 0, 0, 0, 0, 0, 0]);
    want.extend_from_slice(&[255; 8]);
    want.extend_from_slice(&[0x0d, 0x0c, 0x0b, 0x0a]);
    want.extend_from_slice(&[0xa0, 0x46]);
    want.extend_from_slice(&[5, 0, 0, 0]);
    want.extend_from_slice(&[0, 0, 0, 0]);
    want.extend_from_slice(&[1, 0, 0, 0]);
    want.extend_from_slice(&[1, 0, 0, 0, 3]);
    want.extend_from_slice(&[0, 1, 0, 0, 0, 0, 0, 0]);
    let sum: u32 = want.iter().map(|&b| b as u32).sum();
    want.extend_from_slice(&sum.to_le_bytes());
    assert_eq!(bytes, want);
    let d = decode_store(&bytes).unwrap();
    assert_eq!(d.white_list[0].last_seen, -1);
    assert_eq!(d.white_list[0].rpc_port, 18080);
    assert_eq!(d.banned_peers[0].remaining_ms, 256);
}

#[test]
fn round_trip_keeps_order_and_values() {
    let white = make_fake_peer_list(0, 5);
    let gray = make_fake_peer_list(20, 3);
    let bans = vec![
        BanDuration { ban_id: vec![1, 2, 3], remaining_ms: 0 },
        BanDuration { ban_id: vec![], remaining_ms: u64::MAX },
    ];
    let d = decode_store(&encode_store(&white, &gray, &bans).unwrap()).unwrap();
    assert_eq!(d.white_list.len(), 5);
    for (a, b) in white.iter().zip(d.white_list.iter()) {
        assert_eq!(a.adr, b.adr);
        assert_eq!(a.id, b.id);
        assert_eq!(a.last_seen, b.last_seen);
        assert_eq!(a.pruning_seed, b.pruning_seed);
        assert_eq!(a.rpc_port, b.rpc_port);
        assert_eq!(a.rpc_credits_per_hash, b.rpc_credits_per_hash);
    }
    assert_eq!(d.gray_list[2].adr, gray[2].adr);
    assert_eq!(d.banned_peers[0].ban_id, vec![1, 2, 3]);
    assert_eq!(d.banned_peers[0].remaining_ms, 0);
    assert!(d.banned_peers[1].ban_id.is_empty());
    assert_eq!(d.banned_peers[1].remaining_ms, u64::MAX);
}

#[test]
fn truncated_bytes_rejected() {
    let bytes = sample_bytes();
    for n in 0..bytes.len() {
        assert!(matches!(decode_store(&bytes[..n]), Err(DecodeError::Malformed)), "prefix of {n} bytes");
    }
}

#[test]
fn bit_flips_rejected() {
    let bytes = sample_bytes();
    for i in 1..bytes.len() {
        for k in 0..8 {
            let mut bad = bytes.clone();
            bad[i] ^= 1 << k;
            assert!(matches!(decode_store(&bad), Err(DecodeError::Malformed)), "byte {i} bit {k}");
        }
    }
}

#[test]
fn unknown_version_rejected() {
    let mut bytes = sample_bytes();
    bytes[0] = 2;
    assert_eq!(decode_store(&bytes).err(), Some(DecodeError::UnknownVersion));
}

#[test]
fn empty_input_malformed() {
    assert_eq!(decode_store(&[]).err(), Some(DecodeError::Malformed));
}

#[test]
fn trailing_byte_rejected() {
    let mut bytes = sample_bytes();
    bytes.push(0);
    assert_eq!(decode_store(&bytes).err(), Some(DecodeError::Malformed));
}

#[test]
fn remaining_time_exact() {
    assert_eq!(remaining_ban_time(10_000, 4_000), 6_000);
    assert_eq!(remaining_ban_time(4_000, 4_000), 0);
}

#[test]
fn expired_ban_clamped_to_zero() {
    assert_eq!(remaining_ban_time(1_000, 5_000), 0);
    let bans = vec![
        BanExpiry { ban_id: vec![1], expires_at_ms: 1_000 },
        BanExpiry { ban_id: vec![2], expires_at_ms: 9_000 },
    ];
    let stored = relativize_bans(&bans, 5_000);
    assert_eq!(stored.len(), 2);
    assert_eq!(stored[0].ban_id, vec![1]);
    assert_eq!(stored[0].remaining_ms, 0);
    assert_eq!(stored[1].remaining_ms, 4_000);
}

#[test]
fn expiry_at_saturates() {
    assert_eq!(ban_expiry_at(100, 50), 150);
    assert_eq!(ban_expiry_at(u64::MAX - 1, 5), u64::MAX);
}

#[test]
fn ban_drift_bounded_by_clock_distance() {
    let t0 = 1_000_000u64;
    let t1 = 1_250u64;
    let bans = vec![
        BanExpiry { ban_id: vec![5], expires_at_ms: t0 + 3_600_000 },
        BanExpiry { ban_id: vec![6], expires_at_ms: t0 + 1 },
    ];
    let stored = relativize_bans(&bans, t0);
    let bytes = encode_store(&Vec::new(), &Vec::new(), &stored).unwrap();
    let back = restore_bans(&decode_store(&bytes).unwrap().banned_peers, t1);
    assert_eq!(back[0].ban_id, vec![5]);
    assert_eq!(back[0].expires_at_ms, t1 + 3_600_000);
    assert_eq!(back[1].expires_at_ms, t1 + 1);
    for (a, b) in bans.iter().zip(back.iter()) {
        assert!(a.expires_at_ms.abs_diff(b.expires_at_ms) <= t0.abs_diff(t1));
    }
}

#[test]
fn snapshot_uses_one_reference_instant() {
    let bans = vec![
        BanExpiry { ban_id: vec![1], expires_at_ms: 700 },
        BanExpiry { ban_id: vec![2], expires_at_ms: 300 },
    ];
    let white = make_fake_peer_list(0, 1);
    let bytes = snapshot_bytes(&white, &Vec::new(), &bans, 500).unwrap();
    let d = load_store(&bytes).unwrap();
    assert_eq!(d.white_list[0].adr, white[0].adr);
    assert_eq!(d.banned_peers[0].remaining_ms, 200);
    assert_eq!(d.banned_peers[1].remaining_ms, 0);
}
