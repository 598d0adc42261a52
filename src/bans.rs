//! Ban expiries are instants of a monotonic clock whose origin does not
//! survive a restart. They are stored as the time left at one reference
//! instant, read once per save, and turned back into instants against a
//! fresh reading at load.
use vstd::prelude::*;

use crate::record::{bans_view, BanDuration};

verus! {

/// A banned peer identity and the instant its ban lifts, in milliseconds on
/// the process's monotonic clock.
#[derive(Clone, Debug)]
pub struct BanExpiry {
    pub ban_id: Vec<u8>,
    pub expires_at_ms: u64,
}

impl View for BanExpiry {
    type V = (Seq<u8>, u64);

    open spec fn view(&self) -> (Seq<u8>, u64) {
        (self.ban_id@, self.expires_at_ms)
    }
}

/// The views of a sequence of ban expiries.
pub open spec fn expiries_view(v: Seq<BanExpiry>) -> Seq<(Seq<u8>, u64)> {
    v.map_values(|b: BanExpiry| b@)
}

/// The time left at `now` on a ban that lifts at `expiry`; none once it has lifted.
pub open spec fn remaining_ms(expiry: u64, now: u64) -> u64 {
    if expiry > now {
        (expiry - now) as u64
    } else {
        0
    }
}

/// The instant at which a ban with `remaining` left at `now` lifts, held at
/// the clock's largest value.
pub open spec fn expiry_at(now: u64, remaining: u64) -> u64 {
    if now + remaining <= u64::MAX {
        (now + remaining) as u64
    } else {
        u64::MAX
    }
}

/// Every ban of `bans`, in order, with its expiry turned into the time left at `now`.
pub open spec fn relativized(bans: Seq<(Seq<u8>, u64)>, now: u64) -> Seq<(Seq<u8>, u64)> {
    bans.map_values(|b: (Seq<u8>, u64)| (b.0, remaining_ms(b.1, now)))
}

/// Every ban of `stored`, in order, with its time left turned into an expiry from `now`.
pub open spec fn restored(stored: Seq<(Seq<u8>, u64)>, now: u64) -> Seq<(Seq<u8>, u64)> {
    stored.map_values(|b: (Seq<u8>, u64)| (b.0, expiry_at(now, b.1)))
}

/// The time left at `now_ms` on a ban that lifts at `expires_at_ms`; zero,
/// not an underflow, for a ban that has already lifted.
pub fn remaining_ban_time(expires_at_ms: u64, now_ms: u64) -> (r: u64)
    ensures
        r == remaining_ms(expires_at_ms, now_ms),
        expires_at_ms <= now_ms ==> r == 0,
{
    if expires_at_ms > now_ms {
        expires_at_ms - now_ms
    } else {
        0
    }
}

/// The instant at which a ban with `remaining_ms` left at `now_ms` lifts.
pub fn ban_expiry_at(now_ms: u64, remaining_ms: u64) -> (r: u64)
    ensures
        r == expiry_at(now_ms, remaining_ms),
{
    now_ms.saturating_add(remaining_ms)
}

/// The ban table as time left at the single reference instant `now_ms`.
/// Bans that have already lifted stay, with nothing left.
pub fn relativize_bans(bans: &Vec<BanExpiry>, now_ms: u64) -> (r: Vec<BanDuration>)
    ensures
        bans_view(r@) == relativized(expiries_view(bans@), now_ms),
{
    let ghost want = relativized(expiries_view(bans@), now_ms);
    let mut out: Vec<BanDuration> = Vec::new();
    let mut i: usize = 0;
    while i < bans.len()
        invariant
            i <= bans@.len(),
            want == relativized(expiries_view(bans@), now_ms),
            want.len() == bans@.len(),
            bans_view(out@) == want.take(i as int),
        decreases bans@.len() - i,
    {
        let b = &bans[i];
        let ban_id = b.ban_id.clone();
        assert(ban_id@ =~= b.ban_id@);
        let d = BanDuration { ban_id, remaining_ms: remaining_ban_time(b.expires_at_ms, now_ms) };
        let ghost prev = out@;
        out.push(d);
        assert(expiries_view(bans@)[i as int] == bans@[i as int]@);
        assert(want[i as int] == d@);
        assert(bans_view(out@) =~= bans_view(prev).push(d@));
        assert(bans_view(out@) =~= want.take(i + 1));
        i = i + 1;
    }
    assert(want.take(i as int) =~= want);
    out
}

/// The stored ban table turned back into expiries against the reference
/// instant `now_ms`, read once at load.
pub fn restore_bans(stored: &Vec<BanDuration>, now_ms: u64) -> (r: Vec<BanExpiry>)
    ensures
        expiries_view(r@) == restored(bans_view(stored@), now_ms),
{
    let ghost want = restored(bans_view(stored@), now_ms);
    let mut out: Vec<BanExpiry> = Vec::new();
    let mut i: usize = 0;
    while i < stored.len()
        invariant
            i <= stored@.len(),
            want == restored(bans_view(stored@), now_ms),
            want.len() == stored@.len(),
            expiries_view(out@) == want.take(i as int),
        decreases stored@.len() - i,
    {
        let b = &stored[i];
        let ban_id = b.ban_id.clone();
        assert(ban_id@ =~= b.ban_id@);
        let e = BanExpiry { ban_id, expires_at_ms: ban_expiry_at(now_ms, b.remaining_ms) };
        let ghost prev = out@;
        out.push(e);
        assert(bans_view(stored@)[i as int] == stored@[i as int]@);
        assert(want[i as int] == e@);
        assert(expiries_view(out@) =~= expiries_view(prev).push(e@));
        assert(expiries_view(out@) =~= want.take(i + 1));
        i = i + 1;
    }
    assert(want.take(i as int) =~= want);
    out
}

} // verus!
