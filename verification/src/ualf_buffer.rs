use vstd::prelude::*;

use crate::ualf::UalfData;

verus! {

/// Number of last-seen strike timestamps the deduplication ring remembers.
pub const PROCESSED_BUFFER_SIZE: usize = 8192;

/// Fixed-capacity ring of previously seen strike timestamps plus a write
/// cursor. Filters a batch down to only-new records; once full, insertion
/// overwrites the oldest slot.
pub struct UalfBuffer {
    pub processed_observations: Vec<i64>,
    pub processed_observation_index: usize,
}

/// The subsequence of `obs`, in original relative order, whose timestamps do
/// not occur anywhere in `ring`.
pub open spec fn fresh_of(ring: Seq<i64>, obs: Seq<UalfData>) -> Seq<UalfData>
    decreases obs.len(),
{
    if obs.len() == 0 {
        Seq::empty()
    } else {
        let rest = fresh_of(ring, obs.drop_last());
        if ring.contains(obs.last().epoch_ns) {
            rest
        } else {
            rest.push(obs.last())
        }
    }
}

/// The ring after writing `ts[0], ts[1], ...` in order, the write for `ts[i]`
/// landing in slot `(start + i) % ring.len()`.
pub open spec fn ring_insert_all(ring: Seq<i64>, start: int, ts: Seq<i64>) -> Seq<i64>
    recommends
        ring.len() > 0,
        0 <= start,
    decreases ts.len(),
{
    if ts.len() == 0 {
        ring
    } else {
        ring_insert_all(ring, start, ts.drop_last()).update(
            (start + ts.len() - 1) % (ring.len() as int),
            ts.last(),
        )
    }
}

impl UalfBuffer {
    /// The ring has its fixed capacity and the cursor points at a slot.
    pub open spec fn wf(self) -> bool {
        &&& self.processed_observations@.len() == PROCESSED_BUFFER_SIZE
        &&& self.processed_observation_index < PROCESSED_BUFFER_SIZE
    }

    /// An empty buffer. The state is exactly a fixed-size array of last-seen
    /// timestamps plus a write cursor, so "empty" is represented by filling
    /// every slot with the sentinel timestamp 0 and putting the cursor at the
    /// first slot. (A report whose timestamp is exactly the epoch instant 0
    /// is therefore suppressed from the start; the upstream feed never
    /// produces one.)
    pub fn new() -> (r: UalfBuffer)
        ensures
            r.wf(),
            r.processed_observations@ =~= Seq::new(PROCESSED_BUFFER_SIZE as nat, |i: int| 0i64),
            r.processed_observation_index == 0,
    {
        UalfBuffer { processed_observations: vec![0i64; PROCESSED_BUFFER_SIZE], processed_observation_index: 0 }
    }

    /// Returns the subset of `observations` whose timestamp is not present
    /// anywhere in the ring, in original relative order, and appends every
    /// returned timestamp into the ring at the cursor, the cursor wrapping
    /// modulo capacity, so that once the ring is full each write overwrites
    /// the oldest slot. All lookups are evaluated against the ring state
    /// before any insertion from the same batch, so two duplicate timestamps
    /// within one batch are both treated as new.
    pub fn get_unchecked_observations(&mut self, observations: &Vec<UalfData>) -> (unchecked: Vec<
        UalfData,
    >)
        requires
            old(self).wf(),
        ensures
            final(self).wf(),
            unchecked@ == fresh_of(old(self).processed_observations@, observations@),
            final(self).processed_observations@ == ring_insert_all(
                old(self).processed_observations@,
                old(self).processed_observation_index as int,
                unchecked@.map_values(|o: UalfData| o.epoch_ns),
            ),
            final(self).processed_observation_index as int == (
            old(self).processed_observation_index + unchecked@.len()) as int
                % (PROCESSED_BUFFER_SIZE as int),
    {
        let ghost ring0 = self.processed_observations@;
        let mut unchecked_observations: Vec<UalfData> = Vec::new();

        let mut i: usize = 0;
        while i < observations.len()
            invariant
                i <= observations@.len(),
                self == old(self),
                self.wf(),
                ring0 == self.processed_observations@,
                unchecked_observations@.len() <= i,
                unchecked_observations@ == fresh_of(ring0, observations@.take(i as int)),
            decreases observations@.len() - i,
        {
            let obs = &observations[i];
            proof {
                assert(observations@.take(i + 1).drop_last() =~= observations@.take(i as int));
                assert(observations@.take(i + 1).last() == observations@[i as int]);
            }
            if !ring_contains(&self.processed_observations, obs.epoch_ns) {
                unchecked_observations.push(obs.clone());
            }
            i = i + 1;
        }
        proof {
            assert(observations@.take(observations@.len() as int) =~= observations@);
        }

        let ghost start = self.processed_observation_index as int;
        proof {
            vstd::arithmetic::div_mod::lemma_small_mod(
                start as nat,
                PROCESSED_BUFFER_SIZE as nat,
            );
        }

        let mut k: usize = 0;
        while k < unchecked_observations.len()
            invariant
                k <= unchecked_observations@.len(),
                self.wf(),
                ring0.len() == PROCESSED_BUFFER_SIZE,
                0 <= start < PROCESSED_BUFFER_SIZE,
                self.processed_observation_index as int == (start + k) % (
                PROCESSED_BUFFER_SIZE as int),
                self.processed_observations@ == ring_insert_all(
                    ring0,
                    start,
                    unchecked_observations@.take(k as int).map_values(|o: UalfData| o.epoch_ns),
                ),
            decreases unchecked_observations@.len() - k,
        {
            let e = unchecked_observations[k].epoch_ns;
            self.processed_observations[self.processed_observation_index] = e;
            self.processed_observation_index = (self.processed_observation_index + 1)
                % PROCESSED_BUFFER_SIZE;
            proof {
                let cap = PROCESSED_BUFFER_SIZE as int;
                vstd::arithmetic::div_mod::lemma_add_mod_noop(start + k, 1, cap);
                vstd::arithmetic::div_mod::lemma_small_mod(1nat, PROCESSED_BUFFER_SIZE as nat);
                vstd::arithmetic::div_mod::lemma_mod_twice(start + k, cap);
                assert(self.processed_observation_index as int == (start + k + 1) % cap);
                let m = |o: UalfData| o.epoch_ns;
                let t1 = unchecked_observations@.take(k + 1).map_values(m);
                let t0 = unchecked_observations@.take(k as int).map_values(m);
                assert(unchecked_observations@.take(k + 1).drop_last() =~= unchecked_observations@.take(
                    k as int,
                ));
                assert(t1.drop_last() =~= t0);
                assert(t1.last() == e);
                assert(t1.len() == k + 1);
            }
            k = k + 1;
        }
        proof {
            assert(unchecked_observations@.take(unchecked_observations@.len() as int)
                =~= unchecked_observations@);
        }

        unchecked_observations
    }
}

/// Linear scan of the ring for a timestamp.
fn ring_contains(ring: &Vec<i64>, ts: i64) -> (r: bool)
    ensures
        r == ring@.contains(ts),
{
    let mut i: usize = 0;
    while i < ring.len()
        invariant
            i <= ring@.len(),
            forall|j: int| 0 <= j < i ==> ring@[j] != ts,
        decreases ring@.len() - i,
    {
        if ring[i] == ts {
            return true;
        }
        i = i + 1;
    }
    false
}


/// The writes change the ring's contents, never its length.
proof fn lemma_insert_all_len(ring: Seq<i64>, start: int, ts: Seq<i64>)
    requires
        ring.len() > 0,
        0 <= start,
    ensures
        ring_insert_all(ring, start, ts).len() == ring.len(),
    decreases ts.len(),
{
    if ts.len() > 0 {
        lemma_insert_all_len(ring, start, ts.drop_last());
        vstd::arithmetic::div_mod::lemma_mod_pos_bound(start + ts.len() - 1, ring.len() as int);
    }
}

/// Two write positions within one window of the ring land in the same slot
/// only if they are the same position.
proof fn lemma_mod_distinct(a: int, b: int, m: int)
    requires
        m > 0,
        0 <= b - a < m,
        a % m == b % m,
    ensures
        a == b,
{
    vstd::arithmetic::div_mod::lemma_fundamental_div_mod(a, m);
    vstd::arithmetic::div_mod::lemma_fundamental_div_mod(b, m);
    let d = b / m - a / m;
    assert(b - a == m * d) by (nonlinear_arith)
        requires
            a == m * (a / m) + a % m,
            b == m * (b / m) + b % m,
            a % m == b % m,
            d == b / m - a / m,
    ;
    assert(d == 0) by (nonlinear_arith)
        requires
            0 <= m * d < m,
            m > 0,
            d == b / m - a / m,
    ;
}

/// With at most one lap of writes, the write for `ts[m]` is the last one into
/// its slot, so it is what the slot holds afterwards.
proof fn lemma_insert_all_at(ring: Seq<i64>, start: int, ts: Seq<i64>, m: int)
    requires
        ring.len() > 0,
        0 <= start,
        ts.len() <= ring.len(),
        0 <= m < ts.len(),
    ensures
        ring_insert_all(ring, start, ts)[(start + m) % (ring.len() as int)] == ts[m],
    decreases ts.len(),
{
    let n = ring.len() as int;
    let last = (start + ts.len() - 1) % n;
    vstd::arithmetic::div_mod::lemma_mod_pos_bound(start + ts.len() - 1, n);
    lemma_insert_all_len(ring, start, ts.drop_last());
    if m == ts.len() - 1 {
    } else {
        vstd::arithmetic::div_mod::lemma_mod_pos_bound(start + m, n);
        if (start + m) % n == last {
            lemma_mod_distinct(start + m, start + ts.len() - 1, n);
            assert(false);
        }
        lemma_insert_all_at(ring, start, ts.drop_last(), m);
    }
}

/// Writing `a` then `b` is writing `a + b`.
proof fn lemma_insert_all_append(ring: Seq<i64>, start: int, a: Seq<i64>, b: Seq<i64>)
    requires
        ring.len() > 0,
        0 <= start,
    ensures
        ring_insert_all(ring, start, a + b) == ring_insert_all(
            ring_insert_all(ring, start, a),
            start + a.len(),
            b,
        ),
    decreases b.len(),
{
    lemma_insert_all_len(ring, start, a);
    if b.len() == 0 {
        assert(a + b =~= a);
    } else {
        assert((a + b).drop_last() =~= a + b.drop_last());
        assert((a + b).last() == b.last());
        lemma_insert_all_append(ring, start, a, b.drop_last());
    }
}

/// A batch none of whose timestamps is in the ring comes back whole.
proof fn lemma_fresh_all(ring: Seq<i64>, obs: Seq<UalfData>)
    requires
        forall|i: int| 0 <= i < obs.len() ==> !ring.contains(#[trigger] obs[i].epoch_ns),
    ensures
        fresh_of(ring, obs) == obs,
    decreases obs.len(),
{
    if obs.len() > 0 {
        lemma_fresh_all(ring, obs.drop_last());
        assert(obs[obs.len() - 1] == obs.last());
        assert(fresh_of(ring, obs) =~= obs);
    }
}

/// A batch all of whose timestamps are in the ring comes back empty.
proof fn lemma_fresh_none(ring: Seq<i64>, obs: Seq<UalfData>)
    requires
        forall|i: int| 0 <= i < obs.len() ==> ring.contains(#[trigger] obs[i].epoch_ns),
    ensures
        fresh_of(ring, obs) == Seq::<UalfData>::empty(),
    decreases obs.len(),
{
    if obs.len() > 0 {
        assert(obs[obs.len() - 1] == obs.last());
        lemma_fresh_none(ring, obs.drop_last());
    }
}

/// Dedup idempotence: when a batch of at most `capacity` reports, none of
/// whose timestamps the ring has seen, is run through the buffer, a second run
/// of the same batch against the resulting ring returns nothing.
pub proof fn lemma_dedup_idempotent(ring: Seq<i64>, start: int, batch: Seq<UalfData>)
    requires
        ring.len() == PROCESSED_BUFFER_SIZE,
        0 <= start < PROCESSED_BUFFER_SIZE,
        batch.len() <= PROCESSED_BUFFER_SIZE,
        forall|i: int| 0 <= i < batch.len() ==> !ring.contains(#[trigger] batch[i].epoch_ns),
    ensures
        fresh_of(ring, batch) == batch,
        fresh_of(
            ring_insert_all(ring, start, fresh_of(ring, batch).map_values(|o: UalfData| o.epoch_ns)),
            batch,
        ) == Seq::<UalfData>::empty(),
{
    let n = ring.len() as int;
    lemma_fresh_all(ring, batch);
    let ts = batch.map_values(|o: UalfData| o.epoch_ns);
    let ring1 = ring_insert_all(ring, start, ts);
    lemma_insert_all_len(ring, start, ts);
    assert forall|i: int| 0 <= i < batch.len() implies ring1.contains(
        #[trigger] batch[i].epoch_ns,
    ) by {
        lemma_insert_all_at(ring, start, ts, i);
        vstd::arithmetic::div_mod::lemma_mod_pos_bound(start + i, n);
        assert(ring1[(start + i) % n] == batch[i].epoch_ns);
    }
    lemma_fresh_none(ring1, batch);
}

/// Slot `j` of `ring1` holds one of the writes `ts[k..]`.
spec fn slot_holds_late_write(ring1: Seq<i64>, ts: Seq<i64>, k: int, j: int) -> bool {
    exists|i: int| k <= i < ts.len() && ring1[j] == #[trigger] ts[i]
}

/// Capacity wraparound: a batch of `capacity + k` distinct unseen timestamps
/// overwrites its own earliest `k` entries, so those `k` are detected as new
/// again on resubmission, while the later `capacity` entries stay suppressed.
pub proof fn lemma_dedup_wraparound(ring: Seq<i64>, start: int, batch: Seq<UalfData>, k: int)
    requires
        ring.len() == PROCESSED_BUFFER_SIZE,
        0 <= start < PROCESSED_BUFFER_SIZE,
        0 <= k,
        batch.len() == PROCESSED_BUFFER_SIZE + k,
        forall|i: int| 0 <= i < batch.len() ==> !ring.contains(#[trigger] batch[i].epoch_ns),
        forall|i: int, j: int|
            0 <= i < batch.len() && 0 <= j < batch.len() && i != j ==> batch[i].epoch_ns
                != batch[j].epoch_ns,
    ensures
        fresh_of(ring, batch) == batch,
        fresh_of(
            ring_insert_all(ring, start, batch.map_values(|o: UalfData| o.epoch_ns)),
            batch.take(k),
        ) == batch.take(k),
        fresh_of(
            ring_insert_all(ring, start, batch.map_values(|o: UalfData| o.epoch_ns)),
            batch.skip(k),
        ) == Seq::<UalfData>::empty(),
{
    let n = ring.len() as int;
    lemma_fresh_all(ring, batch);
    let ts = batch.map_values(|o: UalfData| o.epoch_ns);
    let ring1 = ring_insert_all(ring, start, ts);
    lemma_insert_all_len(ring, start, ts);
    assert(ts =~= ts.take(k) + ts.skip(k));
    lemma_insert_all_append(ring, start, ts.take(k), ts.skip(k));
    let ringa = ring_insert_all(ring, start, ts.take(k));
    lemma_insert_all_len(ring, start, ts.take(k));
    // Every slot of the final ring holds one of the last `capacity` writes.
    assert forall|j: int| 0 <= j < n implies #[trigger] slot_holds_late_write(ring1, ts, k, j) by {
        let m = (j - (start + k)) % n;
        vstd::arithmetic::div_mod::lemma_mod_bound(j - (start + k), n);
        lemma_insert_all_at(ringa, start + k, ts.skip(k), m);
        vstd::arithmetic::div_mod::lemma_add_mod_noop(start + k, j - (start + k), n);
        vstd::arithmetic::div_mod::lemma_mod_pos_bound(start + k, n);
        vstd::arithmetic::div_mod::lemma_mod_twice(start + k, n);
        vstd::arithmetic::div_mod::lemma_mod_twice(j - (start + k), n);
        assert((start + k + m) % n == j % n) by {
            assert(((start + k) % n + (j - (start + k)) % n) % n == j % n);
            assert((start + k + m) % n == ((start + k) % n + m % n) % n) by {
                vstd::arithmetic::div_mod::lemma_add_mod_noop(start + k, m, n);
            }
            assert(m % n == m) by {
                vstd::arithmetic::div_mod::lemma_small_mod(m as nat, n as nat);
            };
        }
        vstd::arithmetic::div_mod::lemma_small_mod(j as nat, n as nat);
        assert(ring1[j] == ts.skip(k)[m]);
        assert(ts.skip(k)[m] == ts[k + m]);
        assert(ring1[j] == ts[k + m]);
    }
    // The first k timestamps were all overwritten, so they read as unseen.
    assert forall|i0: int| 0 <= i0 < k implies !ring1.contains(#[trigger] batch[i0].epoch_ns) by {
        if ring1.contains(batch[i0].epoch_ns) {
            let j = choose|j: int| 0 <= j < ring1.len() && ring1[j] == batch[i0].epoch_ns;
            assert(slot_holds_late_write(ring1, ts, k, j));
            let i = choose|i: int| k <= i < ts.len() && ring1[j] == #[trigger] ts[i];
            assert(batch[i].epoch_ns == batch[i0].epoch_ns);
            assert(false);
        }
    }
    lemma_fresh_all(ring1, batch.take(k));
    assert(fresh_of(ring1, batch.take(k)) == batch.take(k));
    // The last `capacity` timestamps are all still present, so they stay out.
    assert forall|i0: int| 0 <= i0 < batch.skip(k).len() implies ring1.contains(
        #[trigger] batch.skip(k)[i0].epoch_ns,
    ) by {
        lemma_insert_all_at(ringa, start + k, ts.skip(k), i0);
        vstd::arithmetic::div_mod::lemma_mod_pos_bound(start + k + i0, n);
        assert(ring1[(start + k + i0) % n] == ts.skip(k)[i0]);
        assert(ts.skip(k)[i0] == batch.skip(k)[i0].epoch_ns);
    }
    lemma_fresh_none(ring1, batch.skip(k));
}

} // verus!
