use vstd::prelude::*;

use crate::index::parallel_index::ParallelIndex;
use crate::index::{key_hash, DataPosition};

verus! {

/// Above this many keys per bucket on average the table is grown.
pub const FILL_THRESHOLD: u64 = 8;

/// How many times more buckets the grown table gets.
pub const GROWTH_FACTOR: u64 = 8;

/// Largest bucket count a grown table is given.
pub const MAX_SHARD_COUNT: u64 = 0xffff_ffff;

/// A sharded index that grows itself. While it grows, keys move bucket by bucket from
/// the active table into a larger successor; a drained bucket of the active table sends
/// every operation on its keys on to the successor, so nothing waits for the move.
pub struct DynamicParallelIndexWrapper {
    active: ParallelIndex,
    successor: Option<ParallelIndex>,
}

impl DynamicParallelIndexWrapper {
    pub closed spec fn wf(&self) -> bool {
        &&& self.active.wf()
        &&& match self.successor {
            None => forall|i: int| 0 <= i < self.active.spec_parallel() ==> !#[trigger] self.active.moved_at(i),
            Some(s) => {
                &&& s.wf()
                &&& forall|i: int| 0 <= i < s.spec_parallel() ==> !#[trigger] s.moved_at(i)
                &&& forall|i: int| 0 <= i < self.active.spec_parallel() && #[trigger] self.active.moved_at(i)
                    ==> self.active.shard_map(i) == Map::<Seq<char>, DataPosition>::empty()
                &&& forall|k: Seq<char>| !self.active.moved_for(k) ==> !(#[trigger] s@.contains_key(k))
                &&& self.active.spec_size() + s.spec_size() <= u64::MAX
            },
        }
    }

    /// Where `key` currently lives: in the successor when its active bucket is drained,
    /// in the active table otherwise.
    pub closed spec fn lookup(&self, key: Seq<char>) -> Option<DataPosition> {
        if self.active.moved_for(key) {
            match self.successor {
                Some(s) => s@.get(key),
                None => None,
            }
        } else {
            self.active@.get(key)
        }
    }

    /// Every key the index holds, with its location.
    pub closed spec fn view(&self) -> Map<Seq<char>, DataPosition> {
        Map::new(|k: Seq<char>| self.lookup(k) is Some, |k: Seq<char>| self.lookup(k)->Some_0)
    }

    /// Number of keys counted by the two tables.
    pub closed spec fn spec_size(&self) -> nat {
        self.active.spec_size() as nat + match self.successor {
            Some(s) => s.spec_size() as nat,
            None => 0nat,
        }
    }

    pub closed spec fn spec_shard_count(&self) -> u64 {
        self.active.spec_parallel()
    }

    pub closed spec fn rehashing(&self) -> bool {
        self.successor is Some
    }

    /// Bucket count of the successor while a rehash runs.
    pub closed spec fn successor_shard_count(&self) -> u64 {
        match self.successor {
            Some(s) => s.spec_parallel(),
            None => 0,
        }
    }

    /// The bucket of the active table that `key` is routed to.
    pub open spec fn bucket_of(&self, key: Seq<char>) -> int {
        (key_hash(key) % self.spec_shard_count()) as int
    }

    /// Whether bucket `i` of the active table has been drained.
    pub closed spec fn drained(&self, i: int) -> bool {
        self.active.moved_at(i)
    }

    /// Whether the active table holds a node for `key`.
    pub closed spec fn active_holds(&self, key: Seq<char>) -> bool {
        self.active@.contains_key(key)
    }

    /// Whether the successor table holds a node for `key`.
    pub closed spec fn successor_holds(&self, key: Seq<char>) -> bool {
        match self.successor {
            Some(s) => s@.contains_key(key),
            None => false,
        }
    }

    /// A well-formed index has buckets, and none is drained unless a rehash is under way.
    pub proof fn lemma_drained_only_in_rehash(&self)
        requires
            self.wf(),
        ensures
            self.spec_shard_count() > 0,
            !self.rehashing() ==> forall|i: int| 0 <= i < self.spec_shard_count() ==> !#[trigger] self.drained(i),
    {
        self.active.lemma_view_by_shard(Seq::empty());
    }

    /// During a rehash no key has a live node in both tables.
    pub proof fn lemma_single_home(&self, key: Seq<char>)
        requires
            self.wf(),
        ensures
            !(self.active_holds(key) && self.successor_holds(key)),
    {
        if self.active_holds(key) {
            self.active.lemma_view_by_shard(key);
            if let Some(s) = self.successor {
                let i = self.active.index_of(key);
                if self.active.moved_at(i) {
                    assert(self.active.shard_map(i).contains_key(key));
                }
            }
        }
    }

    /// The size the index reports is the number of keys it holds, also while a rehash runs.
    pub proof fn lemma_size_is_key_count(&self)
        requires
            self.wf(),
        ensures
            self@.dom().finite(),
            self@.dom().len() == self.spec_size(),
    {
        self.active.lemma_size_is_key_count();
        match self.successor {
            None => {
                assert forall|k: Seq<char>| #![auto] self@.contains_key(k) == self.active@.contains_key(k) by {
                    self.active.lemma_view_by_shard(k);
                }
                assert(self@.dom() =~= self.active@.dom());
            },
            Some(s) => {
                s.lemma_size_is_key_count();
                assert forall|k: Seq<char>| #![auto] self@.contains_key(k) == (self.active@.contains_key(k)
                    || s@.contains_key(k)) by {
                    self.active.lemma_view_by_shard(k);
                    if self.active.moved_for(k) {
                        assert(self.active.shard_map(self.active.index_of(k)) == Map::<Seq<char>, DataPosition>::empty());
                    }
                }
                assert forall|k: Seq<char>| #![auto] self.active@.contains_key(k) implies !s@.contains_key(k) by {
                    self.lemma_single_home(k);
                }
                assert(self@.dom() =~= self.active@.dom() + s@.dom());
                assert(self.active@.dom().disjoint(s@.dom()));
                vstd::set_lib::lemma_set_disjoint_lens(self.active@.dom(), s@.dom());
            },
        }
    }

    /// A push is visible to the next lookup of its key and to no other key.
    pub proof fn lemma_latest_push_wins(before: Self, after: Self, key: Seq<char>, dp: DataPosition, other: Seq<char>)
        requires
            after@ == before@.insert(key, dp),
            other != key,
        ensures
            after@.get(key) == Some(dp),
            after@.get(other) == before@.get(other),
    {
    }

    /// Creates an index of `parallel` buckets with no rehash under way.
    pub fn new(parallel: u64) -> (r: Self)
        requires
            parallel > 0,
        ensures
            r.wf(),
            r@ == Map::<Seq<char>, DataPosition>::empty(),
            r.spec_size() == 0,
            r.spec_shard_count() == parallel,
            !r.rehashing(),
    {
        let r = DynamicParallelIndexWrapper { active: ParallelIndex::new(parallel), successor: None };
        assert(r@ =~= Map::<Seq<char>, DataPosition>::empty());
        r
    }

    /// Points `key` at `dp`.
    pub fn push(&mut self, key: &String, dp: DataPosition)
        requires
            old(self).wf(),
            old(self).spec_size() < u64::MAX,
        ensures
            final(self).wf(),
            final(self)@ == old(self)@.insert(key@, dp),
            final(self).spec_size() == old(self).spec_size() + (if old(self)@.contains_key(key@) { 0int } else { 1int }),
            final(self).active_holds(key@) == !old(self).drained(old(self).bucket_of(key@)),
            final(self).successor_holds(key@) == (old(self).rehashing() && old(self).drained(old(self).bucket_of(key@))),
            final(self).spec_shard_count() == old(self).spec_shard_count(),
            final(self).rehashing() == old(self).rehashing(),
            final(self).successor_shard_count() == old(self).successor_shard_count(),
            forall|i: int| #![auto] 0 <= i < old(self).spec_shard_count() ==> final(self).drained(i) == old(self).drained(i),
    {
        proof {
            self.active.lemma_view_by_shard(key@);
        }
        if self.active.push(key, dp) {
            proof {
                assert forall|i: int| 0 <= i < self.active.spec_parallel() && #[trigger] self.active.moved_at(i)
                    implies self.active.shard_map(i) == old(self).active.shard_map(i) by {}
                assert(self@ =~= old(self)@.insert(key@, dp));
            }
            return;
        }
        match &mut self.successor {
            Some(s) => {
                proof {
                    s.lemma_view_by_shard(key@);
                }
                let pushed = s.push(key, dp);
                assert(pushed);
            },
            None => {},
        }
        proof {
            assert(self@ =~= old(self)@.insert(key@, dp));
        }
    }

    /// Removes `key`.
    pub fn del(&mut self, key: &String)
        requires
            old(self).wf(),
        ensures
            final(self).wf(),
            final(self)@ == old(self)@.remove(key@),
            final(self).spec_size() == old(self).spec_size() - (if old(self)@.contains_key(key@) { 1int } else { 0int }),
            !final(self).active_holds(key@),
            !final(self).successor_holds(key@),
            final(self).spec_shard_count() == old(self).spec_shard_count(),
            final(self).rehashing() == old(self).rehashing(),
            final(self).successor_shard_count() == old(self).successor_shard_count(),
            forall|i: int| #![auto] 0 <= i < old(self).spec_shard_count() ==> final(self).drained(i) == old(self).drained(i),
    {
        proof {
            self.active.lemma_view_by_shard(key@);
        }
        if self.active.del(key) {
            proof {
                assert forall|i: int| 0 <= i < self.active.spec_parallel() && #[trigger] self.active.moved_at(i)
                    implies self.active.shard_map(i) == old(self).active.shard_map(i) by {}
                assert(self@ =~= old(self)@.remove(key@));
            }
            return;
        }
        match &mut self.successor {
            Some(s) => {
                proof {
                    s.lemma_view_by_shard(key@);
                }
                let removed = s.del(key);
                assert(removed);
            },
            None => {},
        }
        proof {
            assert(self@ =~= old(self)@.remove(key@));
        }
    }

    /// The location of `key`, if the index holds it.
    pub fn find(&self, key: &String) -> (r: Option<DataPosition>)
        requires
            self.wf(),
        ensures
            r == self@.get(key@),
    {
        proof {
            self.active.lemma_view_by_shard(key@);
        }
        let (found, res) = self.active.find(key);
        if found {
            return res;
        }
        match &self.successor {
            Some(s) => {
                proof {
                    s.lemma_view_by_shard(key@);
                }
                let (_, res) = s.find(key);
                res
            },
            None => None,
        }
    }

    /// Number of keys the index holds.
    pub fn size(&self) -> (r: u64)
        requires
            self.wf(),
        ensures
            r == self.spec_size(),
    {
        match &self.successor {
            Some(s) => self.active.size() + s.size(),
            None => self.active.size(),
        }
    }

    /// Starts a rehash when the active table is overfull: with no rehash under way, more
    /// than `FILL_THRESHOLD` keys per bucket and fewer than 2^32 keys, installs an empty
    /// successor of `min(size * GROWTH_FACTOR, MAX_SHARD_COUNT)` buckets and returns true.
    pub fn dynamic_capacity_check(&mut self) -> (r: bool)
        requires
            old(self).wf(),
        ensures
            final(self).wf(),
            r == (!old(self).rehashing() && old(self).spec_shard_count() > 0 && old(self).spec_size() / (
            old(self).spec_shard_count() as nat) > FILL_THRESHOLD && old(self).spec_size() < MAX_SHARD_COUNT),
            r ==> final(self).rehashing() && final(self).successor_shard_count() == vstd::math::min(
                old(self).spec_size() * GROWTH_FACTOR,
                MAX_SHARD_COUNT as int,
            ),
            !r ==> *final(self) == *old(self),
            r ==> forall|k: Seq<char>| !#[trigger] final(self).successor_holds(k),
            forall|k: Seq<char>| #[trigger] final(self).active_holds(k) == old(self).active_holds(k),
            final(self)@ == old(self)@,
            final(self).spec_size() == old(self).spec_size(),
            final(self).spec_shard_count() == old(self).spec_shard_count(),
            forall|i: int| #![auto] 0 <= i < old(self).spec_shard_count() ==> final(self).drained(i) == old(self).drained(i),
    {
        if self.successor.is_some() {
            return false;
        }
        let curr_size = self.active.size();
        let rate = curr_size / self.active.get_parallel();
        if rate > FILL_THRESHOLD && curr_size < MAX_SHARD_COUNT {
            let grown = curr_size * GROWTH_FACTOR;
            let new_size = if grown < MAX_SHARD_COUNT { grown } else { MAX_SHARD_COUNT };
            let next = ParallelIndex::new(new_size);
            self.successor = Some(next);
            proof {
                assert forall|k: Seq<char>| !self.active.moved_for(k) implies !(#[trigger] next@.contains_key(k)) by {}
                assert(self@ =~= old(self)@);
            }
            true
        } else {
            false
        }
    }

    /// Drains bucket `j` of the active table into the successor, if a rehash is under way
    /// and the bucket is not drained yet. What the index holds does not change.
    pub fn migrate_shard(&mut self, j: u64)
        requires
            old(self).wf(),
            j < old(self).spec_shard_count(),
        ensures
            final(self).wf(),
            final(self)@ == old(self)@,
            final(self).spec_size() == old(self).spec_size(),
            final(self).spec_shard_count() == old(self).spec_shard_count(),
            final(self).rehashing() == old(self).rehashing(),
            final(self).successor_shard_count() == old(self).successor_shard_count(),
            old(self).rehashing() ==> final(self).drained(j as int),
            forall|i: int| #![auto] 0 <= i < old(self).spec_shard_count() && i != j ==> final(self).drained(i) == old(self).drained(i),
    {
        match &mut self.successor {
            None => {},
            Some(s) => {
                if !self.active.get_link(j).is_moved() {
                    proof {
                        self.active.lemma_shard_len_le_size(j as int);
                        assert forall|k: Seq<char>| #[trigger] self.active.shard_map(j as int).contains_key(k)
                            implies !s@.contains_key(k) by {
                            self.active.lemma_view_by_shard(k);
                        }
                    }
                    self.active.move_shard_to(j, s);
                }
            },
        }
        proof {
            if let Some(s) = &self.successor {
                assert forall|k: Seq<char>| !self.active.moved_for(k) implies !(#[trigger] s@.contains_key(k)) by {
                    old(self).active.lemma_view_by_shard(k);
                    self.active.lemma_view_by_shard(k);
                }
                assert forall|i: int| 0 <= i < self.active.spec_parallel() && #[trigger] self.active.moved_at(i)
                    implies self.active.shard_map(i) == Map::<Seq<char>, DataPosition>::empty() by {}
            }
            assert forall|k: Seq<char>| #![auto] self.lookup(k) == old(self).lookup(k) by {
                old(self).active.lemma_view_by_shard(k);
                self.active.lemma_view_by_shard(k);
            }
            assert(self@ =~= old(self)@);
        }
    }

    /// The share of a rehash done by worker `worker` of `workers`: drains every bucket `j`
    /// of the active table with `j % workers == worker`.
    pub fn migrate_partition(&mut self, worker: u64, workers: u64)
        requires
            old(self).wf(),
            workers > 0,
        ensures
            final(self).wf(),
            final(self)@ == old(self)@,
            final(self).spec_size() == old(self).spec_size(),
            final(self).spec_shard_count() == old(self).spec_shard_count(),
            final(self).rehashing() == old(self).rehashing(),
            final(self).successor_shard_count() == old(self).successor_shard_count(),
            forall|i: int| #![auto] 0 <= i < old(self).spec_shard_count() ==> final(self).drained(i) == (old(self).drained(i)
                || (old(self).rehashing() && i % (workers as int) == worker)),
    {
        let n = self.active.get_parallel();
        let mut j: u64 = 0;
        while j < n
            invariant
                self.wf(),
                workers > 0,
                n == self.spec_shard_count(),
                n == old(self).spec_shard_count(),
                j <= n,
                self@ == old(self)@,
                self.spec_size() == old(self).spec_size(),
                self.rehashing() == old(self).rehashing(),
                self.successor_shard_count() == old(self).successor_shard_count(),
                forall|i: int| #![auto] 0 <= i < n ==> self.drained(i) == (old(self).drained(i)
                    || (old(self).rehashing() && i < j && i % (workers as int) == worker)),
            decreases n - j,
        {
            if j % workers == worker {
                self.migrate_shard(j);
            }
            j = j + 1;
        }
    }

    /// Completes a rehash: drains whatever is left of the active table, then puts the
    /// successor in its place. Returns false, changing nothing, when no rehash is under way.
    pub fn finish_rehash(&mut self) -> (r: bool)
        requires
            old(self).wf(),
        ensures
            final(self).wf(),
            r == old(self).rehashing(),
            !final(self).rehashing(),
            final(self)@ == old(self)@,
            final(self).spec_size() == old(self).spec_size(),
            r ==> final(self).spec_shard_count() == old(self).successor_shard_count(),
            !r ==> *final(self) == *old(self),
    {
        if self.successor.is_none() {
            return false;
        }
        let n = self.active.get_parallel();
        let mut j: u64 = 0;
        while j < n
            invariant
                self.wf(),
                self.rehashing(),
                n == self.spec_shard_count(),
                j <= n,
                self@ == old(self)@,
                self.spec_size() == old(self).spec_size(),
                self.successor_shard_count() == old(self).successor_shard_count(),
                forall|i: int| #![auto] 0 <= i < j ==> self.drained(i),
            decreases n - j,
        {
            self.migrate_shard(j);
            j = j + 1;
        }
        let ghost pre = *self;
        proof {
            assert forall|i: int| 0 <= i < pre.active.spec_parallel() implies
                #[trigger] pre.active.shard_map(i) == Map::<Seq<char>, DataPosition>::empty() by {
                assert(pre.drained(i));
            }
            pre.active.lemma_empty_shards_size();
        }
        let next = self.successor.take();
        match next {
            Some(s) => {
                self.active = s;
                proof {
                    assert forall|k: Seq<char>| #![auto] self.lookup(k) == pre.lookup(k) by {
                        pre.active.lemma_view_by_shard(k);
                        self.active.lemma_view_by_shard(k);
                        assert(pre.drained(pre.active.index_of(k)));
                    }
                    assert(self@ =~= pre@);
                }
            },
            None => {},
        }
        true
    }

    /// Bucket count of the active table.
    pub fn shard_count(&self) -> (r: u64)
        ensures
            r == self.spec_shard_count(),
    {
        self.active.get_parallel()
    }

    /// Whether a rehash is under way.
    pub fn is_rehashing(&self) -> (r: bool)
        ensures
            r == self.rehashing(),
    {
        self.successor.is_some()
    }
}

/// The buckets, out of `shard_count`, that rehash worker `worker` of `workers` drains:
/// those `j` with `j % workers == worker`, ascending.
pub fn shards_of_worker(worker: u64, workers: u64, shard_count: u64) -> (r: Vec<u64>)
    requires
        workers > 0,
    ensures
        forall|i: int| 0 <= i < r@.len() ==> #[trigger] r@[i] < shard_count && r@[i] % workers == worker,
        forall|i: int, k: int| 0 <= i < k < r@.len() ==> r@[i] < r@[k],
        forall|j: u64| j < shard_count && j % workers == worker ==> r@.contains(j),
{
    let mut r: Vec<u64> = Vec::new();
    let mut j: u64 = 0;
    while j < shard_count
        invariant
            workers > 0,
            j <= shard_count,
            forall|i: int| 0 <= i < r@.len() ==> #[trigger] r@[i] < j && r@[i] % workers == worker,
            forall|i: int, k: int| 0 <= i < k < r@.len() ==> r@[i] < r@[k],
            forall|m: u64| m < j && m % workers == worker ==> r@.contains(m),
        decreases shard_count - j,
    {
        if j % workers == worker {
            let ghost before = r@;
            r.push(j);
            assert forall|m: u64| m < j + 1 && m % workers == worker implies r@.contains(m) by {
                assert(r@ == before.push(j));
                if m < j {
                    assert(before.contains(m));
                    let i = choose|i: int| 0 <= i < before.len() && before[i] == m;
                    assert(r@[i] == before[i]);
                } else {
                    assert(m == j);
                    assert(r@[before.len() as int] == j);
                }
            }
        }
        j = j + 1;
    }
    r
}

} // verus!
