//! Bounded rolling history of derived prices.
//!
//! Each instrument keeps a time-indexed sequence of observations in
//! arrival order. Before any read, entries strictly older than the
//! retention window relative to the newest observation time are evicted
//! from the front; an entry exactly at the window edge is retained.

use vstd::prelude::*;
use std::collections::VecDeque;

verus! {

/// Retention window of the rolling history, in milliseconds.
pub const WINDOW_MS: u64 = 60_000;

/// One observation: when it was made and the prices derived then.
#[derive(Clone, Copy, PartialEq, Eq, Structural, Debug)]
pub struct HistEntry {
    pub ts_ms: u64,
    pub mid: u64,
    pub wmid: u64,
}

/// Timestamps never decrease along the history.
pub open spec fn ts_sorted(h: Seq<HistEntry>) -> bool {
    forall|i: int, j: int| 0 <= i <= j < h.len() ==> h[i].ts_ms <= h[j].ts_ms
}

/// The history after evicting from the front every entry strictly older
/// than the window relative to `now`.
pub open spec fn evict_spec(h: Seq<HistEntry>, now: int) -> Seq<HistEntry>
    decreases h.len(),
{
    if h.len() > 0 && h[0].ts_ms + WINDOW_MS < now {
        evict_spec(h.drop_first(), now)
    } else {
        h
    }
}

/// What eviction leaves is a suffix of the history.
pub proof fn lemma_evict_suffix(h: Seq<HistEntry>, now: int)
    ensures
        exists|k: int|
            0 <= k <= h.len() && evict_spec(h, now) =~= h.skip(k),
    decreases h.len(),
{
    if h.len() > 0 && h[0].ts_ms + WINDOW_MS < now {
        lemma_evict_suffix(h.drop_first(), now);
        let k0 = choose|k: int|
            0 <= k <= h.drop_first().len() && evict_spec(h.drop_first(), now) =~= h.drop_first().skip(k);
        assert(h.drop_first().skip(k0) =~= h.skip(k0 + 1));
    } else {
        assert(evict_spec(h, now) =~= h.skip(0));
    }
}

/// After the eviction check, no retained entry is more than the window
/// older than `now` (and hence than the newest entry).
pub proof fn lemma_evict_window(h: Seq<HistEntry>, now: int)
    requires
        ts_sorted(h),
    ensures
        forall|i: int|
            0 <= i < evict_spec(h, now).len() ==> (#[trigger] evict_spec(h, now)[i]).ts_ms
                + WINDOW_MS >= now,
    decreases h.len(),
{
    if h.len() > 0 && h[0].ts_ms + WINDOW_MS < now {
        assert(ts_sorted(h.drop_first())) by {
            assert forall|i: int, j: int| 0 <= i <= j < h.drop_first().len() implies (
            #[trigger] h.drop_first()[i]).ts_ms <= (#[trigger] h.drop_first()[j]).ts_ms by {
                assert(h.drop_first()[i] == h[i + 1]);
                assert(h.drop_first()[j] == h[j + 1]);
            }
        }
        lemma_evict_window(h.drop_first(), now);
        assert(evict_spec(h, now) == evict_spec(h.drop_first(), now));
    } else {
        assert(evict_spec(h, now) == h);
        assert forall|i: int| 0 <= i < evict_spec(h, now).len() implies (#[trigger] evict_spec(
            h,
            now,
        )[i]).ts_ms + WINDOW_MS >= now by {
            assert(h[0].ts_ms <= h[i].ts_ms);
            assert(h[0].ts_ms + WINDOW_MS >= now);
        }
    }
}

/// Running the eviction check twice removes nothing further: eviction is
/// idempotent.
pub proof fn lemma_evict_idempotent(h: Seq<HistEntry>, now: int)
    ensures
        evict_spec(evict_spec(h, now), now) == evict_spec(h, now),
    decreases h.len(),
{
    if h.len() > 0 && h[0].ts_ms + WINDOW_MS < now {
        lemma_evict_idempotent(h.drop_first(), now);
    }
}

/// Eviction keeps a sorted history sorted.
pub proof fn lemma_evict_sorted(h: Seq<HistEntry>, now: int)
    requires
        ts_sorted(h),
    ensures
        ts_sorted(evict_spec(h, now)),
{
    lemma_evict_suffix(h, now);
    let k = choose|k: int| 0 <= k <= h.len() && evict_spec(h, now) =~= h.skip(k);
    assert(forall|i: int|
        0 <= i < h.len() - k ==> #[trigger] h.skip(k)[i] == h[i + k]);
}

/// An entry no older than the window survives eviction; in particular a
/// just-appended entry does, so the history stays non-empty.
pub proof fn lemma_evict_keeps_recent(h: Seq<HistEntry>, now: int)
    requires
        h.len() > 0,
        h.last().ts_ms + WINDOW_MS >= now,
    ensures
        evict_spec(h, now).len() > 0,
        evict_spec(h, now).last() == h.last(),
    decreases h.len(),
{
    if h.len() > 0 && h[0].ts_ms + WINDOW_MS < now {
        assert(h.drop_first().last() == h.last());
        lemma_evict_keeps_recent(h.drop_first(), now);
    }
}

/// Evict from the front of `h` every entry strictly older than the
/// window relative to `now_ms`.
pub fn evict_older(h: &mut VecDeque<HistEntry>, now_ms: u64)
    requires
        forall|i: int| 0 <= i < old(h)@.len() ==> (#[trigger] old(h)@[i]).ts_ms <= now_ms,
    ensures
        final(h)@ == evict_spec(old(h)@, now_ms as int),
{
    loop
        invariant
            forall|i: int| 0 <= i < h@.len() ==> (#[trigger] h@[i]).ts_ms <= now_ms,
            evict_spec(h@, now_ms as int) == evict_spec(old(h)@, now_ms as int),
        decreases h@.len(),
    {
        if h.len() == 0 {
            return ;
        }
        let front_ts = h[0].ts_ms;
        if now_ms - front_ts > WINDOW_MS {
            let ghost pre = h@;
            h.pop_front();
            proof {
                assert(h@ =~= pre.drop_first());
            }
        } else {
            return ;
        }
    }
}

/// Largest mid price in the history (`0` when empty).
pub open spec fn max_mid(h: Seq<HistEntry>) -> u64
    decreases h.len(),
{
    if h.len() == 0 {
        0
    } else if h.len() == 1 {
        h[0].mid
    } else {
        let m = max_mid(h.drop_last());
        if h.last().mid > m {
            h.last().mid
        } else {
            m
        }
    }
}

/// Smallest mid price in the history (`0` when empty).
pub open spec fn min_mid(h: Seq<HistEntry>) -> u64
    decreases h.len(),
{
    if h.len() == 0 {
        0
    } else if h.len() == 1 {
        h[0].mid
    } else {
        let m = min_mid(h.drop_last());
        if h.last().mid < m {
            h.last().mid
        } else {
            m
        }
    }
}

/// Largest weighted mid price in the history (`0` when empty).
pub open spec fn max_wmid(h: Seq<HistEntry>) -> u64
    decreases h.len(),
{
    if h.len() == 0 {
        0
    } else if h.len() == 1 {
        h[0].wmid
    } else {
        let m = max_wmid(h.drop_last());
        if h.last().wmid > m {
            h.last().wmid
        } else {
            m
        }
    }
}

/// Smallest weighted mid price in the history (`0` when empty).
pub open spec fn min_wmid(h: Seq<HistEntry>) -> u64
    decreases h.len(),
{
    if h.len() == 0 {
        0
    } else if h.len() == 1 {
        h[0].wmid
    } else {
        let m = min_wmid(h.drop_last());
        if h.last().wmid < m {
            h.last().wmid
        } else {
            m
        }
    }
}

/// Extrema of the mid and weighted mid prices over the history:
/// `(max_mid, min_mid, max_wmid, min_wmid)`. An empty history falls
/// back to the given snapshot prices.
pub fn history_extrema(h: &VecDeque<HistEntry>, mid_fb: u64, wmid_fb: u64) -> (r: (
    u64,
    u64,
    u64,
    u64,
))
    ensures
        r.0 == if h@.len() == 0 { mid_fb } else { max_mid(h@) },
        r.1 == if h@.len() == 0 { mid_fb } else { min_mid(h@) },
        r.2 == if h@.len() == 0 { wmid_fb } else { max_wmid(h@) },
        r.3 == if h@.len() == 0 { wmid_fb } else { min_wmid(h@) },
{
    if h.len() == 0 {
        return (mid_fb, mid_fb, wmid_fb, wmid_fb);
    }
    let first = h[0];
    let mut mx_m: u64 = first.mid;
    let mut mn_m: u64 = first.mid;
    let mut mx_w: u64 = first.wmid;
    let mut mn_w: u64 = first.wmid;
    let mut i: usize = 1;
    proof {
        assert(h@.take(1) =~= seq![h@[0]]);
    }
    while i < h.len()
        invariant
            1 <= i <= h@.len(),
            mx_m == max_mid(h@.take(i as int)),
            mn_m == min_mid(h@.take(i as int)),
            mx_w == max_wmid(h@.take(i as int)),
            mn_w == min_wmid(h@.take(i as int)),
        decreases h@.len() - i,
    {
        let e = h[i];
        proof {
            let pre = h@.take(i as int);
            let cur = h@.take(i as int + 1);
            assert(cur.drop_last() =~= pre);
            assert(cur.last() == h@[i as int]);
        }
        if e.mid > mx_m {
            mx_m = e.mid;
        }
        if e.mid < mn_m {
            mn_m = e.mid;
        }
        if e.wmid > mx_w {
            mx_w = e.wmid;
        }
        if e.wmid < mn_w {
            mn_w = e.wmid;
        }
        i = i + 1;
    }
    proof {
        assert(h@.take(h@.len() as int) =~= h@);
    }
    (mx_m, mn_m, mx_w, mn_w)
}

} // verus!
