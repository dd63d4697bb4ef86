use vstd::prelude::*;

use crate::index::linked_hash_set::LinkedHashSet;
use crate::index::{calc_hash, key_hash, DataPosition};

verus! {

/// Sum of the chain lengths of a run of buckets.
pub closed spec fn total_len(s: Seq<LinkedHashSet>) -> nat
    decreases s.len(),
{
    if s.len() == 0 {
        0
    } else {
        total_len(s.drop_last()) + s.last().len()
    }
}

proof fn lemma_total_len_update(s: Seq<LinkedHashSet>, i: int, x: LinkedHashSet)
    requires
        0 <= i < s.len(),
    ensures
        total_len(s.update(i, x)) + s[i].len() == total_len(s) + x.len(),
        s[i].len() <= total_len(s),
    decreases s.len(),
{
    let t = s.update(i, x);
    if i == s.len() - 1 {
        assert(t.drop_last() =~= s.drop_last());
    } else {
        assert(t.drop_last() =~= s.drop_last().update(i, x));
        lemma_total_len_update(s.drop_last(), i, x);
    }
}

proof fn lemma_total_len_zero(s: Seq<LinkedHashSet>)
    requires
        forall|i: int| 0 <= i < s.len() ==> (#[trigger] s[i]).len() == 0,
    ensures
        total_len(s) == 0,
    decreases s.len(),
{
    if s.len() > 0 {
        lemma_total_len_zero(s.drop_last());
    }
}

proof fn lemma_total_len_push(s: Seq<LinkedHashSet>, x: LinkedHashSet)
    ensures
        total_len(s.push(x)) == total_len(s) + x.len(),
{
    assert(s.push(x).drop_last() =~= s);
}

/// A table of a fixed number of chain buckets; a key lives in the bucket that its hash
/// selects. Counts the nodes it holds.
#[derive(Debug)]
pub struct ParallelIndex {
    size: u64,
    parallel: u64,
    table: Vec<LinkedHashSet>,
}

impl ParallelIndex {
    /// The bucket that `key` is routed to.
    pub closed spec fn index_of(&self, key: Seq<char>) -> int {
        (key_hash(key) % self.parallel) as int
    }

    pub closed spec fn spec_parallel(&self) -> u64 {
        self.parallel
    }

    pub closed spec fn spec_size(&self) -> u64 {
        self.size
    }

    pub closed spec fn moved_at(&self, i: int) -> bool {
        self.table@[i].spec_moved()
    }

    pub closed spec fn shard_map(&self, i: int) -> Map<Seq<char>, DataPosition> {
        self.table@[i]@
    }

    pub closed spec fn shard_len(&self, i: int) -> nat {
        self.table@[i].len()
    }

    /// Whether the bucket that `key` is routed to has been drained.
    pub open spec fn moved_for(&self, key: Seq<char>) -> bool {
        self.moved_at(self.index_of(key))
    }

    pub closed spec fn wf(&self) -> bool {
        &&& self.parallel > 0
        &&& self.table@.len() == self.parallel
        &&& forall|i: int| 0 <= i < self.table@.len() ==> (#[trigger] self.table@[i]).wf()
        &&& forall|i: int, k: Seq<char>|
            0 <= i < self.table@.len() && #[trigger] self.table@[i]@.contains_key(k)
                ==> self.index_of(k) == i
        &&& self.size == total_len(self.table@)
    }

    /// Every key the table holds, with its location.
    pub closed spec fn view(&self) -> Map<Seq<char>, DataPosition> {
        Map::new(
            |k: Seq<char>| self.table@[self.index_of(k)]@.contains_key(k),
            |k: Seq<char>| self.table@[self.index_of(k)]@[k],
        )
    }

    /// The table seen through its buckets: a key is held exactly where it is routed.
    pub proof fn lemma_view_by_shard(&self, k: Seq<char>)
        requires
            self.wf(),
        ensures
            self.index_of(k) == (key_hash(k) % self.spec_parallel()) as int,
            0 <= self.index_of(k) < self.spec_parallel(),
            self@.contains_key(k) == self.shard_map(self.index_of(k)).contains_key(k),
            self@.contains_key(k) ==> self@[k] == self.shard_map(self.index_of(k))[k],
            forall|i: int|
                0 <= i < self.spec_parallel() && (#[trigger] self.shard_map(i)).contains_key(k)
                    ==> i == self.index_of(k),
    {
    }

    /// One bucket never holds more nodes than the whole table.
    pub proof fn lemma_shard_len_le_size(&self, i: int)
        requires
            self.wf(),
            0 <= i < self.spec_parallel(),
        ensures
            self.shard_len(i) <= self.spec_size(),
    {
        lemma_total_len_update(self.table@, i, self.table@[i]);
    }

    /// A table whose buckets are all empty counts no node.
    pub proof fn lemma_empty_shards_size(&self)
        requires
            self.wf(),
            forall|i: int| 0 <= i < self.spec_parallel() ==> #[trigger] self.shard_map(i) == Map::<Seq<char>, DataPosition>::empty(),
        ensures
            self.spec_size() == 0,
    {
        assert forall|i: int| 0 <= i < self.table@.len() implies (#[trigger] self.table@[i]).len() == 0 by {
            self.table@[i].lemma_len_is_key_count();
            assert(self.shard_map(i) == Map::<Seq<char>, DataPosition>::empty());
            assert(self.table@[i]@.dom() =~= Set::<Seq<char>>::empty());
        }
        lemma_total_len_zero(self.table@);
    }

    /// The keys held in the first `n` buckets.
    closed spec fn keys_below(&self, n: int) -> Set<Seq<char>> {
        Set::new(|k: Seq<char>| 0 <= self.index_of(k) < n && self.table@[self.index_of(k)]@.contains_key(k))
    }

    proof fn lemma_keys_below(&self, n: int)
        requires
            self.wf(),
            0 <= n <= self.table@.len(),
        ensures
            self.keys_below(n).finite(),
            self.keys_below(n).len() == total_len(self.table@.take(n)),
        decreases n,
    {
        if n == 0 {
            assert(self.keys_below(0) =~= Set::<Seq<char>>::empty());
        } else {
            self.lemma_keys_below(n - 1);
            let d = self.table@[n - 1]@.dom();
            self.table@[n - 1].lemma_len_is_key_count();
            assert(self.keys_below(n) =~= self.keys_below(n - 1) + d);
            assert(self.keys_below(n - 1).disjoint(d));
            vstd::set_lib::lemma_set_disjoint_lens(self.keys_below(n - 1), d);
            assert(self.table@.take(n).drop_last() =~= self.table@.take(n - 1));
        }
    }

    /// The node count is the number of keys the table holds.
    pub proof fn lemma_size_is_key_count(&self)
        requires
            self.wf(),
        ensures
            self@.dom().finite(),
            self@.dom().len() == self.spec_size(),
    {
        self.lemma_keys_below(self.table@.len() as int);
        assert(self@.dom() =~= self.keys_below(self.table@.len() as int));
        assert(self.table@.take(self.table@.len() as int) =~= self.table@);
    }

    /// Creates a table of `parallel` empty buckets.
    pub fn new(parallel: u64) -> (r: ParallelIndex)
        requires
            parallel > 0,
        ensures
            r.wf(),
            r.spec_parallel() == parallel,
            r.spec_size() == 0,
            r@ == Map::<Seq<char>, DataPosition>::empty(),
            forall|i: int| 0 <= i < parallel ==> !#[trigger] r.moved_at(i),
    {
        let mut table: Vec<LinkedHashSet> = Vec::new();
        let mut n: u64 = 0;
        while n < parallel
            invariant
                n <= parallel,
                table@.len() == n,
                forall|i: int| 0 <= i < n ==> (#[trigger] table@[i]).wf(),
                forall|i: int| 0 <= i < n ==> (#[trigger] table@[i])@ == Map::<Seq<char>, DataPosition>::empty(),
                forall|i: int| 0 <= i < n ==> !(#[trigger] table@[i]).spec_moved(),
                total_len(table@) == 0,
            decreases parallel - n,
        {
            let set = LinkedHashSet::new();
            proof {
                lemma_total_len_push(table@, set);
            }
            table.push(set);
            n = n + 1;
        }
        let r = ParallelIndex { size: 0, parallel, table };
        assert(r@ =~= Map::<Seq<char>, DataPosition>::empty());
        r
    }

    /// Inserts or updates `key`. Returns false, changing nothing, when its bucket is drained.
    pub fn push(&mut self, key: &String, dp: DataPosition) -> (r: bool)
        requires
            old(self).wf(),
            old(self).spec_size() < u64::MAX,
        ensures
            final(self).wf(),
            r == !old(self).moved_for(key@),
            r ==> final(self)@ == old(self)@.insert(key@, dp),
            r ==> final(self).spec_size() == old(self).spec_size() + (if old(self)@.contains_key(key@) { 0int } else { 1int }),
            !r ==> *final(self) == *old(self),
            final(self).spec_parallel() == old(self).spec_parallel(),
            forall|k: Seq<char>| final(self).index_of(k) == old(self).index_of(k),
            forall|k: Seq<char>| #[trigger] final(self).moved_for(k) == old(self).moved_for(k),
            forall|i: int| 0 <= i < old(self).spec_parallel() ==> #[trigger] final(self).moved_at(i) == old(self).moved_at(i),
            forall|i: int| 0 <= i < old(self).spec_parallel() && i != old(self).index_of(key@) ==> #[trigger] final(self).shard_map(i) == old(self).shard_map(i),
    {
        let hash = calc_hash(key);
        let len = self.table.len();
        let vec_i = (hash % self.parallel) as usize;
        assert(vec_i as int == self.index_of(key@) && vec_i < len);
        if self.table[vec_i].is_moved() {
            return false;
        }
        proof {
            lemma_total_len_update(self.table@, vec_i as int, self.table@[vec_i as int]);
        }
        let ghost before = self.table@;
        let added = self.table[vec_i].push(key, dp);
        proof {
            lemma_total_len_update(before, vec_i as int, self.table@[vec_i as int]);
            assert(self.table@ =~= before.update(vec_i as int, self.table@[vec_i as int]));
        }
        self.size = self.size + added as u64;
        proof {
            assert(self@ =~= old(self)@.insert(key@, dp));
        }
        true
    }

    /// Looks `key` up. The first value is false, with no location, when its bucket is drained.
    pub fn find(&self, key: &String) -> (r: (bool, Option<DataPosition>))
        requires
            self.wf(),
        ensures
            r.0 == !self.moved_for(key@),
            r.0 ==> r.1 == (if self@.contains_key(key@) { Some(self@[key@]) } else { None::<DataPosition> }),
            !r.0 ==> r.1 is None,
    {
        let hash = calc_hash(key);
        let len = self.table.len();
        let vec_i = (hash % self.parallel) as usize;
        assert(vec_i as int == self.index_of(key@) && vec_i < len);
        let set = &self.table[vec_i];
        if set.is_moved() {
            return (false, None);
        }
        (true, set.find(key))
    }

    /// Removes `key`. Returns false, changing nothing, when its bucket is drained.
    pub fn del(&mut self, key: &String) -> (r: bool)
        requires
            old(self).wf(),
        ensures
            final(self).wf(),
            r == !old(self).moved_for(key@),
            r ==> final(self)@ == old(self)@.remove(key@),
            r ==> final(self).spec_size() == old(self).spec_size() - (if old(self)@.contains_key(key@) { 1int } else { 0int }),
            !r ==> *final(self) == *old(self),
            final(self).spec_parallel() == old(self).spec_parallel(),
            forall|k: Seq<char>| final(self).index_of(k) == old(self).index_of(k),
            forall|k: Seq<char>| #[trigger] final(self).moved_for(k) == old(self).moved_for(k),
            forall|i: int| 0 <= i < old(self).spec_parallel() ==> #[trigger] final(self).moved_at(i) == old(self).moved_at(i),
            forall|i: int| 0 <= i < old(self).spec_parallel() && i != old(self).index_of(key@) ==> #[trigger] final(self).shard_map(i) == old(self).shard_map(i),
    {
        let hash = calc_hash(key);
        let len = self.table.len();
        let vec_i = (hash % self.parallel) as usize;
        assert(vec_i as int == self.index_of(key@) && vec_i < len);
        if self.table[vec_i].is_moved() {
            return false;
        }
        let ghost before = self.table@;
        let removed = self.table[vec_i].del(key);
        proof {
            lemma_total_len_update(before, vec_i as int, self.table@[vec_i as int]);
            assert(self.table@ =~= before.update(vec_i as int, self.table@[vec_i as int]));
        }
        self.size = self.size - removed as u64;
        proof {
            assert(self@ =~= old(self)@.remove(key@));
        }
        true
    }

    /// Drains bucket `j` into `dest`, re-routing each key by `dest`'s own bucket count,
    /// and marks the bucket as moved.
    pub fn move_shard_to(&mut self, j: u64, dest: &mut ParallelIndex)
        requires
            old(self).wf(),
            old(dest).wf(),
            j < old(self).spec_parallel(),
            forall|i: int| 0 <= i < old(dest).spec_parallel() ==> !#[trigger] old(dest).moved_at(i),
            forall|k: Seq<char>|
                #[trigger] old(self).shard_map(j as int).contains_key(k) ==> !old(dest)@.contains_key(k),
            old(dest).spec_size() + old(self).shard_len(j as int) <= u64::MAX,
        ensures
            final(self).wf(),
            final(dest).wf(),
            final(self).moved_at(j as int),
            final(self).shard_map(j as int) == Map::<Seq<char>, DataPosition>::empty(),
            final(self).spec_parallel() == old(self).spec_parallel(),
            forall|k: Seq<char>| final(self).index_of(k) == old(self).index_of(k),
            forall|i: int|
                0 <= i < old(self).spec_parallel() && i != j ==> #[trigger] final(self).shard_map(i) == old(self).shard_map(i),
            forall|i: int|
                0 <= i < old(self).spec_parallel() && i != j ==> #[trigger] final(self).moved_at(i) == old(self).moved_at(i),
            forall|k: Seq<char>| #[trigger] final(self).moved_for(k) == (old(self).moved_for(k) || old(self).index_of(k) == j),
            final(self).spec_size() + old(self).shard_len(j as int) == old(self).spec_size(),
            final(dest)@ == old(dest)@.union_prefer_right(old(self).shard_map(j as int)),
            final(dest).spec_size() == old(dest).spec_size() + old(self).shard_len(j as int),
            final(dest).spec_parallel() == old(dest).spec_parallel(),
            forall|k: Seq<char>| final(dest).index_of(k) == old(dest).index_of(k),
            forall|i: int| 0 <= i < old(dest).spec_parallel() ==> !#[trigger] final(dest).moved_at(i),
    {
        let len = self.table.len();
        let ju = j as usize;
        let ghost t0 = self.table@;
        let ghost orig = self.table@[j as int]@;
        let ghost orig_len = self.table@[j as int].len();
        let ghost d0 = dest@;
        assert forall|k: Seq<char>| #[trigger] orig.contains_key(k) implies !d0.contains_key(k) by {
            assert(old(self).shard_map(j as int).contains_key(k));
        }
        loop
            invariant
                self.wf(),
                dest.wf(),
                len == self.table@.len(),
                ju == j,
                j < self.spec_parallel(),
                self.spec_parallel() == old(self).spec_parallel(),
                t0 == old(self).table@,
                t0.len() == len,
                self.table@[j as int].spec_moved() == t0[j as int].spec_moved(),
                forall|i: int| 0 <= i < len && i != j ==> #[trigger] self.table@[i] == t0[i],
                forall|k: Seq<char>| #[trigger] self.table@[j as int]@.contains_key(k) ==> orig.contains_key(k)
                    && self.table@[j as int]@[k] == orig[k],
                forall|k: Seq<char>| #[trigger] self.table@[j as int]@.contains_key(k) ==> !dest@.contains_key(k),
                forall|k: Seq<char>|
                    #[trigger] dest@.contains_key(k) == (d0.contains_key(k) || (orig.contains_key(k)
                        && !self.table@[j as int]@.contains_key(k))),
                forall|k: Seq<char>| #[trigger] dest@.contains_key(k) ==> dest@[k] == (if orig.contains_key(k)
                    && !self.table@[j as int]@.contains_key(k) { orig[k] } else { d0[k] }),
                self.table@[j as int].len() <= orig_len,
                self.spec_size() + orig_len == old(self).spec_size() + self.table@[j as int].len(),
                dest.spec_size() + self.table@[j as int].len() == old(dest).spec_size() + orig_len,
                old(dest).spec_size() + orig_len <= u64::MAX,
                dest.spec_parallel() == old(dest).spec_parallel(),
                forall|i: int| 0 <= i < dest.spec_parallel() ==> !#[trigger] dest.moved_at(i),
            ensures
                self.table@[j as int].len() == 0,
            decreases self.table@[j as int].len(),
        {
            let ghost before = self.table@;
            let popped = self.table[ju].pop();
            match popped {
                None => {
                    proof {
                        assert(self.table@ =~= before);
                    }
                    break;
                },
                Some(b) => {
                    let node = *b;
                    proof {
                        lemma_total_len_update(before, j as int, self.table@[j as int]);
                        assert(self.table@ =~= before.update(j as int, self.table@[j as int]));
                    }
                    self.size = self.size - 1;
                    let pushed = dest.push(&node.key, node.dp);
                    assert(pushed);
                },
            }
        }
        proof {
            self.table@[j as int].lemma_len_is_key_count();
            self.table@[j as int]@.dom().lemma_len0_is_empty();
            assert(self.table@[j as int]@ =~= Map::<Seq<char>, DataPosition>::empty());
        }
        let ghost before = self.table@;
        self.table[ju].set_moved(true);
        proof {
            lemma_total_len_update(before, j as int, self.table@[j as int]);
            assert(self.table@ =~= before.update(j as int, self.table@[j as int]));
            assert(dest@ =~= d0.union_prefer_right(orig));
            assert forall|k: Seq<char>| #[trigger] self.moved_for(k) == (old(self).moved_for(k) || old(self).index_of(k) == j) by {
                old(self).lemma_view_by_shard(k);
            }
        }
    }

    pub fn size(&self) -> (r: u64)
        ensures
            r == self.spec_size(),
    {
        self.size
    }

    /// The number of buckets.
    pub fn get_parallel(&self) -> (r: u64)
        ensures
            r == self.spec_parallel(),
            self.wf() ==> r > 0,
    {
        self.parallel
    }

    /// The bucket at `index`.
    pub fn get_link(&self, index: u64) -> (r: &LinkedHashSet)
        requires
            self.wf(),
            index < self.spec_parallel(),
        ensures
            r@ == self.shard_map(index as int),
            r.spec_moved() == self.moved_at(index as int),
    {
        let len = self.table.len();
        assert(index < len);
        &self.table[index as usize]
    }
}

} // verus!
