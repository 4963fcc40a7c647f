//! The live track: the most recent positions reported by a phone, kept in
//! order from oldest to newest and bounded in number.
use std::collections::VecDeque;
use vstd::prelude::*;

verus! {

/// How many recent positions the live track keeps.
pub const HISTORY: usize = 100;

/// How far, in milliseconds, the phone's local clock runs ahead of the time
/// the positions are stored under.
pub const LOCAL_CLOCK_OFFSET_MS: u64 = 36_000_000;

/// The stored timestamp of a position reported at local time `local_ms`.
pub fn stored_timestamp(local_ms: u64) -> (t: u64)
    requires
        local_ms >= LOCAL_CLOCK_OFFSET_MS,
    ensures
        t == local_ms - LOCAL_CLOCK_OFFSET_MS,
{
    local_ms - LOCAL_CLOCK_OFFSET_MS
}

/// The last `HISTORY` entries of `s` (all of them when there are fewer).
pub open spec fn keep_recent<T>(s: Seq<T>) -> Seq<T> {
    if s.len() > HISTORY {
        s.subrange(s.len() - HISTORY, s.len() as int)
    } else {
        s
    }
}

/// The entries of `s` stamped strictly after `since`, in order.
pub open spec fn stamped_after<T>(s: Seq<(u64, T)>, since: u64) -> Seq<(u64, T)> {
    s.filter(|e: (u64, T)| e.0 > since)
}

/// A bounded list of positions, each with its timestamp, oldest first.
pub struct LiveTrack<T> {
    entries: VecDeque<(u64, T)>,
}

impl<T> View for LiveTrack<T> {
    type V = Seq<(u64, T)>;

    closed spec fn view(&self) -> Seq<(u64, T)> {
        self.entries@
    }
}

impl<T> LiveTrack<T> {
    /// What every live track satisfies: it never holds more than `HISTORY`
    /// positions.
    pub open spec fn wf(&self) -> bool {
        self@.len() <= HISTORY
    }

    /// An empty live track.
    pub fn new() -> (t: LiveTrack<T>)
        ensures
            t@ == Seq::<(u64, T)>::empty(),
            t.wf(),
    {
        LiveTrack { entries: VecDeque::new() }
    }

    /// The live track made from positions listed newest first (as the store
    /// returns them): the same positions, oldest first, keeping the newest
    /// `HISTORY` of them.
    pub fn from_newest_first(newest_first: Vec<(u64, T)>) -> (t: LiveTrack<T>)
        ensures
            t@ == keep_recent(newest_first@.reverse()),
            t.wf(),
    {
        let mut v = newest_first;
        let ghost orig = v@;
        let mut entries: VecDeque<(u64, T)> = VecDeque::new();
        while v.len() > 0
            invariant
                v@ == orig.take(v@.len() as int),
                entries@ == orig.skip(v@.len() as int).reverse(),
                v@.len() <= orig.len(),
            decreases v@.len(),
        {
            let ghost before = v@;
            let e = v.pop().unwrap();
            entries.push_back(e);
            assert(v@ == orig.take(v@.len() as int));
            assert(orig.skip(v@.len() as int).reverse() =~= orig.skip(before.len() as int).reverse().push(e));
        }
        assert(orig.skip(0) =~= orig);
        let ghost rev = orig.reverse();
        assert(entries@ == rev.subrange(rev.len() - entries@.len(), rev.len() as int));
        while entries.len() > HISTORY
            invariant
                entries@.len() <= rev.len(),
                entries@ == rev.subrange(rev.len() - entries@.len(), rev.len() as int),
                rev.len() > HISTORY ==> entries@.len() >= HISTORY,
                rev.len() <= HISTORY ==> entries@ == rev,
            decreases entries@.len(),
        {
            let _ = entries.pop_front();
            assert(entries@ =~= rev.subrange(rev.len() - entries@.len(), rev.len() as int));
        }
        assert(entries@ =~= keep_recent(rev));
        LiveTrack { entries }
    }

    /// The number of positions held.
    pub fn len(&self) -> (n: usize)
        ensures
            n == self@.len(),
    {
        self.entries.len()
    }

    /// Records a new position at the end, forgetting the oldest one when the
    /// track would otherwise hold more than `HISTORY` positions.
    pub fn record(&mut self, timestamp: u64, item: T)
        requires
            old(self).wf(),
        ensures
            final(self)@ == keep_recent(old(self)@.push((timestamp, item))),
            final(self).wf(),
    {
        self.entries.push_back((timestamp, item));
        if self.entries.len() > HISTORY {
            let _ = self.entries.pop_front();
        }
        assert(self.entries@ =~= keep_recent(old(self)@.push((timestamp, item))));
    }

    /// The positions stamped strictly after `since`, oldest first.
    pub fn since(&self, since: u64) -> (r: Vec<&T>)
        ensures
            r@ == stamped_after(self@, since).map_values(|e: (u64, T)| &e.1),
    {
        let mut r: Vec<&T> = Vec::new();
        let mut k: usize = 0;
        let n = self.entries.len();
        while k < n
            invariant
                n == self@.len(),
                k <= n,
                r@ == stamped_after(self@.take(k as int), since).map_values(|e: (u64, T)| &e.1),
            decreases n - k,
        {
            let e = &self.entries[k];
            let ghost prefix = self@.take(k as int);
            assert(self@.take(k + 1) == prefix.push(*e));
            assert(stamped_after(prefix.push(*e), since) == if e.0 > since {
                stamped_after(prefix, since).push(*e)
            } else {
                stamped_after(prefix, since)
            }) by {
                reveal_with_fuel(Seq::filter, 1);
                assert(prefix.push(*e).drop_last() =~= prefix);
            }
            if e.0 > since {
                r.push(&e.1);
                assert(r@ =~= stamped_after(self@.take(k + 1), since).map_values(|e: (u64, T)| &e.1));
            }
            k = k + 1;
        }
        assert(self@.take(n as int) =~= self@);
        r
    }

    /// Every position held, oldest first.
    pub fn all(&self) -> (r: Vec<&T>)
        ensures
            r@ == self@.map_values(|e: (u64, T)| &e.1),
    {
        let mut r: Vec<&T> = Vec::new();
        let mut k: usize = 0;
        let n = self.entries.len();
        while k < n
            invariant
                n == self@.len(),
                k <= n,
                r@ == self@.take(k as int).map_values(|e: (u64, T)| &e.1),
            decreases n - k,
        {
            let e = &self.entries[k];
            r.push(&e.1);
            assert(r@ =~= self@.take(k + 1).map_values(|e: (u64, T)| &e.1));
            k = k + 1;
        }
        assert(self@.take(n as int) =~= self@);
        r
    }
}

/// Recording keeps the track bounded, puts the new position last, and keeps
/// the positions that stay in their order just before it.
pub proof fn law_record_keeps_recent<T>(track: Seq<(u64, T)>, timestamp: u64, item: T)
    requires
        track.len() <= HISTORY,
    ensures
        ({
            let after = keep_recent(track.push((timestamp, item)));
            &&& after.len() <= HISTORY
            &&& after.len() == (if track.len() < HISTORY {
                track.len() + 1int
            } else {
                HISTORY as int
            })
            &&& after.last() == (timestamp, item)
            &&& after.drop_last() == track.skip(track.len() + 1 - after.len())
        }),
{
    let after = keep_recent(track.push((timestamp, item)));
    assert(after.drop_last() =~= track.skip(track.len() + 1 - after.len()));
}

/// The track after recording the positions `qs` one after the other.
pub open spec fn record_all<T>(track: Seq<(u64, T)>, qs: Seq<(u64, T)>) -> Seq<(u64, T)>
    decreases qs.len(),
{
    if qs.len() == 0 {
        track
    } else {
        keep_recent(record_all(track, qs.drop_last()).push(qs.last()))
    }
}

proof fn lemma_keep_recent_push<T>(s: Seq<T>, x: T)
    ensures
        keep_recent(keep_recent(s).push(x)) == keep_recent(s.push(x)),
{
    assert(keep_recent(keep_recent(s).push(x)) =~= keep_recent(s.push(x)));
}

/// Recording positions one by one on a track loaded from the store keeps the
/// newest `HISTORY` of all the positions, loaded and recorded, oldest first:
/// the oldest position is the one forgotten each time.
pub proof fn law_records_keep_recent<T>(loaded: Seq<(u64, T)>, qs: Seq<(u64, T)>)
    ensures
        record_all(keep_recent(loaded), qs) == keep_recent(loaded + qs),
        record_all(keep_recent(loaded), qs).len() <= HISTORY,
    decreases qs.len(),
{
    if qs.len() == 0 {
        assert(loaded + qs =~= loaded);
        assert(keep_recent(keep_recent(loaded)) =~= keep_recent(loaded));
    } else {
        law_records_keep_recent(loaded, qs.drop_last());
        lemma_keep_recent_push(loaded + qs.drop_last(), qs.last());
        assert((loaded + qs.drop_last()).push(qs.last()) =~= loaded + qs);
    }
}

} // verus!
