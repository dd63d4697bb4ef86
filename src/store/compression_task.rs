use vstd::prelude::*;

use crate::http_param::DataItem;
use crate::index::DataPosition;
use crate::index::dynamic_index::DynamicParallelIndexWrapper;
use crate::store::write_consumer::{Callback, WriteEvent, WriteableFile};
use crate::store::{file_id_of, get_file_id_from_path, is_log_file, is_log_name};

verus! {

/// The ids of the log files among `names`, in the order the names come.
pub open spec fn log_ids(names: Seq<Seq<char>>) -> Seq<u32>
    decreases names.len(),
{
    if names.len() == 0 {
        Seq::empty()
    } else {
        let rest = log_ids(names.drop_last());
        if is_log_name(names.last()) {
            rest.push(file_id_of(names.last()))
        } else {
            rest
        }
    }
}

pub open spec fn names_view(names: Seq<String>) -> Seq<Seq<char>> {
    names.map_values(|s: String| s@)
}

pub open spec fn ascending(s: Seq<u32>) -> bool {
    forall|i: int, j: int| 0 <= i < j < s.len() ==> s[i] <= s[j]
}

/// Relies on `slice::sort`: the same ids, in ascending order.
#[verifier::external_body]
fn sort_ids(ids: &mut Vec<u32>)
    ensures
        final(ids)@.to_multiset() == old(ids)@.to_multiset(),
        ascending(final(ids)@),
{
    ids.sort();
}

/// The ids of the log files among the names of a workspace's files, ascending.
pub fn scan_file_id_vec(file_names: &Vec<String>) -> (r: Vec<u32>)
    ensures
        r@.to_multiset() == log_ids(names_view(file_names@)).to_multiset(),
        ascending(r@),
{
    let mut ids: Vec<u32> = Vec::new();
    let mut i: usize = 0;
    while i < file_names.len()
        invariant
            i <= file_names@.len(),
            ids@ == log_ids(names_view(file_names@).take(i as int)),
        decreases file_names@.len() - i,
    {
        let name = file_names[i].as_str();
        proof {
            assert(names_view(file_names@).take(i + 1).drop_last() =~= names_view(file_names@).take(i as int));
        }
        if is_log_file(name) {
            ids.push(get_file_id_from_path(name));
        }
        i = i + 1;
    }
    assert(names_view(file_names@).take(i as int) =~= names_view(file_names@));
    sort_ids(&mut ids);
    ids
}

/// How many of `sealed` sealed files to reclaim with at most `max_file_num` files kept:
/// the oldest ones, until fewer than `max_file_num` sealed files are left.
pub open spec fn reclaim_count(sealed: nat, max_file_num: nat) -> nat {
    if sealed >= max_file_num {
        if max_file_num == 0 {
            sealed
        } else {
            (sealed - max_file_num + 1) as nat
        }
    } else {
        0
    }
}

/// Splits the ascending log ids of a workspace for one compaction round: the sealed ones
/// (all but the newest, which is still written to), and the oldest of those to reclaim.
pub fn split_for_compaction(file_ids: &Vec<u32>, max_file_num: u32) -> (r: (Vec<u32>, Vec<u32>))
    ensures
        r.0@ == (if file_ids@.len() == 0 { Seq::<u32>::empty() } else { file_ids@.drop_last() }),
        r.1@ == r.0@.take(reclaim_count(r.0@.len(), max_file_num as nat) as int),
{
    let mut sealed: Vec<u32> = Vec::new();
    let n = file_ids.len();
    let mut i: usize = 0;
    while i + 1 < n
        invariant
            n == file_ids@.len(),
            i <= n,
            n > 0 ==> i < n,
            sealed@ == file_ids@.take(i as int),
        decreases n - i,
    {
        sealed.push(file_ids[i]);
        i = i + 1;
        assert(sealed@ =~= file_ids@.take(i as int));
    }
    proof {
        if n == 0 {
            assert(sealed@ =~= Seq::<u32>::empty());
        } else {
            assert(sealed@ =~= file_ids@.drop_last());
        }
    }
    let m = sealed.len();
    let count: usize = if m >= max_file_num as usize {
        if max_file_num == 0 {
            m
        } else {
            m - max_file_num as usize + 1
        }
    } else {
        0
    };
    let mut reclaim: Vec<u32> = Vec::new();
    let mut j: usize = 0;
    while j < count
        invariant
            count <= m == sealed@.len(),
            j <= count,
            reclaim@ == sealed@.take(j as int),
        decreases count - j,
    {
        reclaim.push(sealed[j]);
        j = j + 1;
        assert(reclaim@ =~= sealed@.take(j as int));
    }
    (sealed, reclaim)
}

fn copy_item(item: &DataItem) -> (r: DataItem)
    ensures
        r.key@ == item.key@,
        r.value@ == item.value@,
{
    DataItem { key: item.key.clone(), value: item.value.clone() }
}

/// The events that re-publish the records of log file `file_id` being reclaimed: for each
/// record (offset, frame length, item), in order, a write of the item that applies only
/// while its key is still at that record; then, for the last record, the same write
/// acknowledged through `callback`, which tells that every event before it was handled.
pub fn reclaim_events(file_id: u32, records: &Vec<(u32, u32, DataItem)>, callback: Callback) -> (r: Vec<WriteEvent>)
    ensures
        r@.len() == records@.len() + (if records@.len() > 0 { 1int } else { 0int }),
        forall|i: int| #![auto] 0 <= i < records@.len() ==> {
            &&& r@[i].key() == records@[i].2.key@
            &&& r@[i].value() == records@[i].2.value@
            &&& r@[i].expected() == Some(DataPosition { file_id, offset: records@[i].0, length: records@[i].1 })
            &&& !r@[i].acknowledged()
        },
        records@.len() > 0 ==> {
            let last = records@.last();
            let e = r@[records@.len() as int];
            &&& e.key() == last.2.key@
            &&& e.value() == last.2.value@
            &&& e.expected() == Some(DataPosition { file_id, offset: last.0, length: last.1 })
            &&& e.acknowledged()
        },
{
    let mut r: Vec<WriteEvent> = Vec::new();
    let mut i: usize = 0;
    while i < records.len()
        invariant
            i <= records@.len(),
            r@.len() == i,
            forall|k: int| #![auto] 0 <= k < i ==> {
                &&& r@[k].key() == records@[k].2.key@
                &&& r@[k].value() == records@[k].2.value@
                &&& r@[k].expected() == Some(DataPosition { file_id, offset: records@[k].0, length: records@[k].1 })
                &&& !r@[k].acknowledged()
            },
        decreases records@.len() - i,
    {
        let rec = &records[i];
        let dp = DataPosition::new(file_id, rec.0, rec.1);
        r.push(WriteEvent::new_compare_event(copy_item(&rec.2), dp));
        i = i + 1;
    }
    if records.len() > 0 {
        let last = &records[records.len() - 1];
        let dp = DataPosition::new(file_id, last.0, last.1);
        r.push(WriteEvent::new_callback_event(copy_item(&last.2), Some(dp), callback));
    }
    r
}

/// Re-publishing a record through a compare event never changes what any key reads as.
/// `contents` gives the payload stored at each location. When the index still points
/// `key` at the record's location `loc`, the record is appended again at the fresh
/// location `fresh` and the key moves there; otherwise nothing changes. Either way every
/// key reads the same payload as before.
pub proof fn lemma_republish_keeps_values(
    index: Map<Seq<char>, DataPosition>,
    contents: Map<DataPosition, Seq<u8>>,
    key: Seq<char>,
    loc: DataPosition,
    fresh: DataPosition,
)
    requires
        contents.contains_key(loc),
        !contents.contains_key(fresh),
        forall|k: Seq<char>| #[trigger] index.contains_key(k) ==> contents.contains_key(index[k]),
    ensures
        ({
            let after = if index.get(key) == Some(loc) { index.insert(key, fresh) } else { index };
            let stored = contents.insert(fresh, contents[loc]);
            &&& after.dom() == index.dom()
            &&& forall|k: Seq<char>| #[trigger] after.contains_key(k) ==> stored.contains_key(after[k])
                && stored[after[k]] == contents[index[k]]
        }),
{
    let after = if index.get(key) == Some(loc) { index.insert(key, fresh) } else { index };
    if index.get(key) == Some(loc) {
        assert(after.dom() =~= index.dom());
    }
}

/// The index after one compare write for the record of `key` at `loc` was handled: the
/// key moves to `fresh` when it still pointed at `loc`, else nothing changes.
pub open spec fn republish(index: Map<Seq<char>, DataPosition>, key: Seq<char>, loc: DataPosition, fresh: DataPosition) -> Map<
    Seq<char>,
    DataPosition,
> {
    if index.get(key) == Some(loc) {
        index.insert(key, fresh)
    } else {
        index
    }
}

/// The writer handles each compare write of `reclaim_events` as `republish` says. For
/// the event of a record at `loc`: when the event applies (`accepts_spec`, the case in
/// which `prepare` gives a location) and `commit` records it at `fresh`, the index
/// becomes `before@.insert(key, fresh)`; otherwise it is skipped and the index stays.
pub proof fn lemma_writer_step_is_republish(
    before: DynamicParallelIndexWrapper,
    after: Map<Seq<char>, DataPosition>,
    event: WriteEvent,
    loc: DataPosition,
    fresh: DataPosition,
)
    requires
        event.expected() == Some(loc),
        WriteableFile::accepts_spec(&before, &event) ==> after == before@.insert(event.key(), fresh),
        !WriteableFile::accepts_spec(&before, &event) ==> after == before@,
    ensures
        after == republish(before@, event.key(), loc, fresh),
{
}

/// The index after the compare writes for `records` (key, location) were handled in
/// order, the i-th one appended, if it applies, at `fresh[i]`.
pub open spec fn republish_all(
    index: Map<Seq<char>, DataPosition>,
    records: Seq<(Seq<char>, DataPosition)>,
    fresh: Seq<DataPosition>,
) -> Map<Seq<char>, DataPosition>
    decreases records.len(),
{
    if records.len() == 0 || fresh.len() == 0 {
        index
    } else {
        republish_all(republish(index, records[0].0, records[0].1, fresh[0]), records.drop_first(), fresh.drop_first())
    }
}

/// The stored payloads after each record was copied to its fresh location, in order.
pub open spec fn store_all(
    contents: Map<DataPosition, Seq<u8>>,
    records: Seq<(Seq<char>, DataPosition)>,
    fresh: Seq<DataPosition>,
) -> Map<DataPosition, Seq<u8>>
    decreases records.len(),
{
    if records.len() == 0 || fresh.len() == 0 {
        contents
    } else {
        store_all(contents.insert(fresh[0], contents[records[0].1]), records.drop_first(), fresh.drop_first())
    }
}

/// A whole compaction round over the records of a file keeps what every key reads as:
/// after the compare writes for all of them, in order, each at a location not used before,
/// the index holds the same keys and each reads the same payload as before the round.
pub proof fn lemma_round_keeps_values(
    index: Map<Seq<char>, DataPosition>,
    contents: Map<DataPosition, Seq<u8>>,
    records: Seq<(Seq<char>, DataPosition)>,
    fresh: Seq<DataPosition>,
)
    requires
        records.len() == fresh.len(),
        forall|i: int| 0 <= i < records.len() ==> contents.contains_key((#[trigger] records[i]).1),
        forall|i: int| 0 <= i < fresh.len() ==> !contents.contains_key(#[trigger] fresh[i]),
        forall|i: int, j: int| 0 <= i < j < fresh.len() ==> fresh[i] != fresh[j],
        forall|k: Seq<char>| #[trigger] index.contains_key(k) ==> contents.contains_key(index[k]),
    ensures
        ({
            let after = republish_all(index, records, fresh);
            let stored = store_all(contents, records, fresh);
            &&& after.dom() == index.dom()
            &&& forall|k: Seq<char>| #[trigger] after.contains_key(k) ==> stored.contains_key(after[k])
                && stored[after[k]] == contents[index[k]]
        }),
    decreases records.len(),
{
    if records.len() > 0 {
        let (key, loc) = records[0];
        assert(contents.contains_key(records[0].1));
        assert(!contents.contains_key(fresh[0]));
        lemma_republish_keeps_values(index, contents, key, loc, fresh[0]);
        let index1 = republish(index, key, loc, fresh[0]);
        let contents1 = contents.insert(fresh[0], contents[loc]);
        let rs = records.drop_first();
        let fs = fresh.drop_first();
        assert forall|i: int| 0 <= i < rs.len() implies contents1.contains_key((#[trigger] rs[i]).1) by {
            assert(rs[i] == records[i + 1]);
        }
        assert forall|i: int| 0 <= i < fs.len() implies !contents1.contains_key(#[trigger] fs[i]) by {
            assert(fs[i] == fresh[i + 1]);
        }
        assert forall|i: int, j: int| 0 <= i < j < fs.len() implies fs[i] != fs[j] by {
            assert(fs[i] == fresh[i + 1] && fs[j] == fresh[j + 1]);
        }
        lemma_round_keeps_values(index1, contents1, rs, fs);
    }
}

} // verus!
