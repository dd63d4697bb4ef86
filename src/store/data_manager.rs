use vstd::prelude::*;

use crate::index::dynamic_index::DynamicParallelIndexWrapper;
use crate::index::DataPosition;
use crate::store::codec::{entries_view, frame_at, frame_len_at};

verus! {

/// The index after the first `n` side-car entries of log file `file_id`, whose bytes are
/// `log`, were replayed in order: each key whose entry's offset starts a complete frame
/// of the log is pointed at that record, with the frame's own length; an entry with no
/// complete frame at its offset (a torn tail) changes nothing.
pub open spec fn replay(
    m: Map<Seq<char>, DataPosition>,
    file_id: u32,
    entries: Seq<(Seq<char>, u32)>,
    log: Seq<u8>,
    n: int,
) -> Map<Seq<char>, DataPosition>
    decreases n,
{
    if n <= 0 {
        m
    } else {
        let before = replay(m, file_id, entries, log, n - 1);
        let (key, offset) = entries[n - 1];
        match frame_at(log, offset as int) {
            Some((length, _)) => before.insert(key, DataPosition { file_id, offset, length }),
            None => before,
        }
    }
}

/// Replays the side-car entries of log file `file_id`, whose bytes are `log`, into the
/// index, in order, so a later entry of a key wins. Every recovered location carries the
/// framed length of the record at its offset. Returns false, after the entries that
/// fitted, only when the index cannot count another key.
pub fn recover_file_into(
    index: &mut DynamicParallelIndexWrapper,
    file_id: u32,
    entries: &Vec<(String, u32)>,
    log: &Vec<u8>,
) -> (r: bool)
    requires
        old(index).wf(),
    ensures
        final(index).wf(),
        final(index).spec_shard_count() == old(index).spec_shard_count(),
        r ==> final(index)@ == replay(old(index)@, file_id, entries_view(entries@), log@, entries@.len() as int),
        old(index).spec_size() + entries@.len() < u64::MAX ==> r,
        final(index).spec_size() <= old(index).spec_size() + entries@.len(),
{
    let n = entries.len();
    let mut i: usize = 0;
    while i < n
        invariant
            index.wf(),
            n == entries@.len(),
            i <= n,
            index.spec_shard_count() == old(index).spec_shard_count(),
            index@ == replay(old(index)@, file_id, entries_view(entries@), log@, i as int),
            index.spec_size() <= old(index).spec_size() + i,
        decreases n - i,
    {
        if index.size() == u64::MAX {
            return false;
        }
        let offset = entries[i].1;
        match frame_len_at(log, offset as usize) {
            Some(length) => {
                index.push(&entries[i].0, DataPosition::new(file_id, offset, length));
            },
            None => {},
        }
        i = i + 1;
    }
    true
}

/// How many side-car entries the first `n` files hold.
pub open spec fn total_entries(files: Seq<(u32, Vec<(String, u32)>, Vec<u8>)>, n: int) -> nat
    decreases n,
{
    if n <= 0 {
        0
    } else {
        total_entries(files, n - 1) + files[n - 1].1@.len()
    }
}

proof fn lemma_total_entries_grow(files: Seq<(u32, Vec<(String, u32)>, Vec<u8>)>, m: int, n: int)
    requires
        0 <= m <= n,
    ensures
        total_entries(files, m) <= total_entries(files, n),
    decreases n - m,
{
    if m < n {
        lemma_total_entries_grow(files, m, n - 1);
    }
}

/// The index after replaying the first `n` files, starting empty.
pub open spec fn replay_files(files: Seq<(u32, Vec<(String, u32)>, Vec<u8>)>, n: int) -> Map<Seq<char>, DataPosition>
    decreases n,
{
    if n <= 0 {
        Map::empty()
    } else {
        let f = files[n - 1];
        replay(replay_files(files, n - 1), f.0, entries_view(f.1@), f.2@, f.1@.len() as int)
    }
}

/// The index rebuilt from the side-car entries of every log file, given in ascending id
/// order as (id, entries, log bytes); each file replayed after the ones before it, so the
/// newest record of a key wins, and each location with the framed length of its record.
/// Starts with `parallel` buckets. None only when the index cannot count all the keys.
pub fn recover_index(parallel: u64, files: &Vec<(u32, Vec<(String, u32)>, Vec<u8>)>) -> (r: Option<
    DynamicParallelIndexWrapper,
>)
    requires
        parallel > 0,
    ensures
        r matches Some(index) ==> index.wf() && index@ == replay_files(files@, files@.len() as int)
            && index.spec_shard_count() == parallel,
        total_entries(files@, files@.len() as int) < u64::MAX ==> r is Some,
{
    let mut index = DynamicParallelIndexWrapper::new(parallel);
    let mut i: usize = 0;
    while i < files.len()
        invariant
            index.wf(),
            i <= files@.len(),
            index.spec_shard_count() == parallel,
            index@ == replay_files(files@, i as int),
            index.spec_size() <= total_entries(files@, i as int),
            total_entries(files@, files@.len() as int) < u64::MAX ==> total_entries(files@, i as int) < u64::MAX,
        decreases files@.len() - i,
    {
        let f = &files[i];
        proof {
            lemma_total_entries_grow(files@, i + 1, files@.len() as int);
        }
        if !recover_file_into(&mut index, f.0, &f.1, &f.2) {
            return None;
        }
        i = i + 1;
    }
    Some(index)
}

} // verus!
