//! Per-timestamp buffering of delta records until their timestamp is safe
//! to process.
use vstd::prelude::*;

verus! {

/// Buckets of records, one per timestamp, ascending by timestamp.
pub struct Stash<K> {
    buckets: Vec<(u64, Vec<(K, i64)>)>,
}

/// A bucket with its records as a sequence.
pub open spec fn bucket_view<K>(b: (u64, Vec<(K, i64)>)) -> (u64, Seq<(K, i64)>) {
    (b.0, b.1@)
}

/// Buckets with their records as sequences.
pub open spec fn buckets_view<K>(bs: Seq<(u64, Vec<(K, i64)>)>) -> Seq<(u64, Seq<(K, i64)>)> {
    bs.map_values(|b: (u64, Vec<(K, i64)>)| bucket_view(b))
}

/// Timestamps strictly ascending, and no bucket empty.
pub open spec fn stash_wf<K>(s: Seq<(u64, Seq<(K, i64)>)>) -> bool {
    &&& forall|i: int, j: int| 0 <= i < j < s.len() ==> s[i].0 < s[j].0
    &&& forall|i: int| 0 <= i < s.len() ==> #[trigger] s[i].1.len() > 0
}

impl<K> View for Stash<K> {
    type V = Seq<(u64, Seq<(K, i64)>)>;

    closed spec fn view(&self) -> Seq<(u64, Seq<(K, i64)>)> {
        buckets_view(self.buckets@)
    }
}

impl<K> Stash<K> {
    /// An empty stash.
    pub fn new() -> (s: Stash<K>)
        ensures
            s@ == Seq::<(u64, Seq<(K, i64)>)>::empty(),
    {
        let s = Stash { buckets: Vec::new() };
        assert(s@ =~= Seq::<(u64, Seq<(K, i64)>)>::empty());
        s
    }

    /// Whether no record waits.
    pub fn is_empty(&self) -> (r: bool)
        ensures
            r == (self@.len() == 0),
    {
        self.buckets.len() == 0
    }

    /// Appends a record to the bucket of `time`, opening that bucket at its
    /// place in timestamp order where there is none.
    pub fn push(&mut self, time: u64, key: K, diff: i64)
        requires
            stash_wf(old(self)@),
        ensures
            stash_wf(final(self)@),
            (exists|j: int| 0 <= j < old(self)@.len() && old(self)@[j].0 == time) ==> exists|j: int|
                0 <= j < old(self)@.len() && old(self)@[j].0 == time && final(self)@ == old(self)@.update(
                    j,
                    (time, old(self)@[j].1.push((key, diff))),
                ),
            (forall|j: int| 0 <= j < old(self)@.len() ==> old(self)@[j].0 != time) ==> exists|j: int|
                0 <= j <= old(self)@.len() && final(self)@ == old(self)@.insert(
                    j,
                    (time, seq![(key, diff)]),
                ),
    {
        let ghost v = self@;
        let mut j: usize = 0;
        while j < self.buckets.len() && self.buckets[j].0 < time
            invariant
                0 <= j <= self.buckets.len(),
                self@ == v,
                forall|m: int| 0 <= m < j ==> #[trigger] v[m].0 < time,
            decreases self.buckets.len() - j,
        {
            assert(v[j as int] == bucket_view(self.buckets@[j as int]));
            j += 1;
        }
        if j < self.buckets.len() && self.buckets[j].0 == time {
            let (t, mut records) = self.buckets.remove(j);
            records.push((key, diff));
            self.buckets.insert(j, (t, records));
            proof {
                assert(self@ =~= v.update(j as int, (time, v[j as int].1.push((key, diff)))));
            }
        } else {
            let mut records: Vec<(K, i64)> = Vec::new();
            records.push((key, diff));
            self.buckets.insert(j, (time, records));
            proof {
                assert(records@ =~= seq![(key, diff)]);
                assert(self@ =~= v.insert(j as int, (time, seq![(key, diff)])));
                if j < v.len() {
                    assert(v[j as int] == bucket_view(old(self).buckets@[j as int]));
                    assert(v[j as int].0 > time);
                }
                assert forall|a: int, b: int| 0 <= a < b < self@.len() implies self@[a].0
                    < self@[b].0 by {
                    if b < j {
                    } else if b == j {
                    } else if a < j {
                        assert(v[a].0 < time);
                    } else if a == j {
                        if b - 1 > j {
                            assert(v[j as int].0 < v[b - 1].0);
                        }
                    } else {
                        assert(v[a - 1].0 < v[b - 1].0);
                    }
                }
                assert forall|m: int| j <= m < v.len() implies v[m].0 != time by {
                    if m > j {
                        assert(v[j as int].0 < v[m].0);
                    }
                }
            }
        }
    }

    /// Takes out every bucket whose timestamp lies before `frontier`, the
    /// earliest timestamp at which records may still arrive. They come out
    /// in ascending timestamp order; the others stay.
    pub fn drain_ready(&mut self, frontier: u64) -> (ready: Vec<(u64, Vec<(K, i64)>)>)
        requires
            stash_wf(old(self)@),
        ensures
            stash_wf(final(self)@),
            buckets_view(ready@) + final(self)@ == old(self)@,
            forall|i: int| 0 <= i < ready.len() ==> #[trigger] ready@[i].0 < frontier,
            forall|i: int| 0 <= i < final(self)@.len() ==> #[trigger] final(self)@[i].0 >= frontier,
    {
        let ghost v = self@;
        let mut p: usize = 0;
        while p < self.buckets.len() && self.buckets[p].0 < frontier
            invariant
                0 <= p <= self.buckets.len(),
                self@ == v,
                forall|m: int| 0 <= m < p ==> #[trigger] v[m].0 < frontier,
            decreases self.buckets.len() - p,
        {
            assert(v[p as int] == bucket_view(self.buckets@[p as int]));
            p += 1;
        }
        let mut ready = self.buckets.split_off(p);
        std::mem::swap(&mut self.buckets, &mut ready);
        proof {
            assert(buckets_view(ready@) =~= v.subrange(0, p as int));
            assert(self@ =~= v.subrange(p as int, v.len() as int));
            assert(buckets_view(ready@) + self@ =~= v);
            assert forall|i: int| 0 <= i < ready.len() implies #[trigger] ready@[i].0 < frontier by {
                assert(bucket_view(ready@[i]) == v[i]);
            }
            assert forall|i: int| 0 <= i < self@.len() implies #[trigger] self@[i].0 >= frontier by {
                if p < v.len() {
                    assert(v[p as int] == bucket_view(old(self).buckets@[p as int]));
                    if i > 0 {
                        assert(v[p as int].0 < v[p + i].0);
                    }
                }
            }
        }
        ready
    }
}

} // verus!
