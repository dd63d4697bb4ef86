use vstd::prelude::*;

use crate::error::{common_err, CustomResult};
use crate::http_param::DataItem;
use crate::index::dynamic_index::DynamicParallelIndexWrapper;
use crate::index::DataPosition;
use crate::store::codec::{encode_frame, frame_at, frame_bytes, lemma_frame_round_trip};

verus! {

#[verifier::external_type_specification]
#[verifier::external_body]
#[verifier::reject_recursive_types(T)]
pub struct ExOneshotSender<T>(tokio::sync::oneshot::Sender<T>);

/// The acknowledgement channel of a write: signalled once the write is on disk.
pub type Callback = tokio::sync::oneshot::Sender<()>;

/// A write handed to the writer: the item, an optional location the key must still be at
/// for the write to apply, and an optional acknowledgement.
pub struct WriteEvent {
    data_item: DataItem,
    compare_dp: Option<DataPosition>,
    callback: Option<Callback>,
}

impl WriteEvent {
    pub closed spec fn key(&self) -> Seq<char> {
        self.data_item.key@
    }

    pub closed spec fn value(&self) -> Seq<char> {
        self.data_item.value@
    }

    /// The location the key must be found at for the write to apply.
    pub closed spec fn expected(&self) -> Option<DataPosition> {
        self.compare_dp
    }

    pub closed spec fn acknowledged(&self) -> bool {
        self.callback is Some
    }

    /// A plain write.
    pub fn new_simple_event(data_item: DataItem) -> (r: WriteEvent)
        ensures
            r.key() == data_item.key@,
            r.value() == data_item.value@,
            r.expected() is None,
            !r.acknowledged(),
    {
        WriteEvent { data_item, compare_dp: None, callback: None }
    }

    /// A write that applies only while the key is still at `dp`.
    pub fn new_compare_event(data_item: DataItem, dp: DataPosition) -> (r: WriteEvent)
        ensures
            r.key() == data_item.key@,
            r.value() == data_item.value@,
            r.expected() == Some(dp),
            !r.acknowledged(),
    {
        WriteEvent { data_item, compare_dp: Some(dp), callback: None }
    }

    /// A write acknowledged through `callback` once it is on disk, applying only while the
    /// key is still at `dp` when `dp` is given.
    pub fn new_callback_event(data_item: DataItem, dp: Option<DataPosition>, callback: Callback) -> (r: WriteEvent)
        ensures
            r.key() == data_item.key@,
            r.value() == data_item.value@,
            r.expected() == dp,
            r.acknowledged(),
    {
        WriteEvent { data_item, compare_dp: dp, callback: Some(callback) }
    }

    pub fn data_item(&self) -> (r: &DataItem)
        ensures
            r.key@ == self.key(),
            r.value@ == self.value(),
    {
        &self.data_item
    }

    pub fn compare_dp(&self) -> (r: Option<DataPosition>)
        ensures
            r == self.expected(),
    {
        self.compare_dp
    }
}

/// The log file being written: its id and how many bytes it holds.
pub struct WriteableFile {
    pub id: u32,
    pub offset: u32,
}

impl WriteableFile {
    /// A fresh, empty write target with id `id`.
    pub fn new(id: u32) -> (r: WriteableFile)
        ensures
            r.id == id,
            r.offset == 0,
    {
        WriteableFile { id, offset: 0 }
    }

    /// Moves to the next file once this one holds more than `max_file_size` bytes.
    pub fn rotate_if_full(&mut self, max_file_size: u32) -> (rotated: bool)
        requires
            old(self).offset > max_file_size ==> old(self).id < u32::MAX,
        ensures
            rotated == (old(self).offset > max_file_size),
            rotated ==> final(self).id == old(self).id + 1 && final(self).offset == 0,
            !rotated ==> *final(self) == *old(self),
    {
        if self.offset > max_file_size {
            self.id = self.id + 1;
            self.offset = 0;
            true
        } else {
            false
        }
    }

    /// A write with an expected location applies only while the index holds its key there.
    pub open spec fn accepts_spec(index: &DynamicParallelIndexWrapper, event: &WriteEvent) -> bool {
        match event.expected() {
            None => true,
            Some(dp) => index@.get(event.key()) == Some(dp),
        }
    }

    /// Whether `event` applies: a write with an expected location applies only while the
    /// index still holds its key at exactly that location.
    pub fn accepts(index: &DynamicParallelIndexWrapper, event: &WriteEvent) -> (r: bool)
        requires
            index.wf(),
        ensures
            r == Self::accepts_spec(index, event),
    {
        match event.compare_dp {
            None => true,
            Some(dp) => match index.find(&event.data_item.key) {
                None => false,
                Some(current) => current == dp,
            },
        }
    }

    /// Where the record of `payload` goes and the bytes to append for it, or None when the
    /// event does not apply or the record does not fit the file's `u32` offsets.
    pub fn prepare(&self, index: &DynamicParallelIndexWrapper, event: &WriteEvent, payload: &Vec<u8>) -> (r: Option<(DataPosition, Vec<u8>)>)
        requires
            index.wf(),
        ensures
            r is Some <==> (Self::accepts_spec(index, event) && self.offset + payload@.len() + 4 <= u32::MAX),
            r matches Some((dp, frame)) ==> {
                &&& dp == DataPosition { file_id: self.id, offset: self.offset, length: (payload@.len() + 4) as u32 }
                &&& frame@ == frame_bytes(payload@)
            },
    {
        if !Self::accepts(index, event) {
            return None;
        }
        let n = payload.len();
        if n > 0xffff_fffbusize || self.offset as usize > 0xffff_fffbusize - n {
            return None;
        }
        let frame = encode_frame(payload);
        Some((DataPosition::new(self.id, self.offset, (n + 4) as u32), frame))
    }
}

/// A record appended where the writer stood reads back, at the location the index is
/// given for it, as the payload that was written, whatever is appended after it.
pub proof fn lemma_written_record_reads_back(log: Seq<u8>, payload: Seq<u8>, rest: Seq<u8>, dp: DataPosition)
    requires
        dp.offset == log.len(),
        dp.length == payload.len() + 4,
    ensures
        frame_at(log + frame_bytes(payload) + rest, dp.offset as int) == Some((dp.length, payload)),
{
    lemma_frame_round_trip(log, payload, rest);
}

/// One batch of the writer: the acknowledgements that wait for its sync.
pub struct WriteBatch {
    acks: Vec<Callback>,
}

impl WriteBatch {
    /// How many acknowledgements wait for the batch's sync.
    pub closed spec fn pending(&self) -> nat {
        self.acks@.len()
    }

    pub fn new() -> (r: WriteBatch)
        ensures
            r.pending() == 0,
    {
        WriteBatch { acks: Vec::new() }
    }

    /// Records that the frame prepared for `event` at `dp` was written: points the key at
    /// `dp`, advances the file past the record and keeps the event's acknowledgement until
    /// the batch is synced. Fails, changing nothing, when the index cannot count another key.
    pub fn commit(
        &mut self,
        file: &mut WriteableFile,
        index: &mut DynamicParallelIndexWrapper,
        event: WriteEvent,
        dp: DataPosition,
    ) -> (r: CustomResult<()>)
        requires
            old(index).wf(),
            dp.file_id == old(file).id,
            dp.offset == old(file).offset,
            old(file).offset + dp.length <= u32::MAX,
        ensures
            final(index).wf(),
            r is Ok <==> old(index).spec_size() < u64::MAX,
            r is Ok ==> {
                &&& final(index)@ == old(index)@.insert(event.key(), dp)
                &&& final(index).spec_size() == old(index).spec_size() + (if old(index)@.contains_key(event.key()) { 0int } else { 1int })
                &&& final(file).id == old(file).id
                &&& final(file).offset == old(file).offset + dp.length
                &&& final(self).pending() == old(self).pending() + (if event.acknowledged() { 1int } else { 0int })
            },
            r is Err ==> *final(index) == *old(index) && *final(file) == *old(file) && final(self).pending() == old(self).pending(),
    {
        if index.size() == u64::MAX {
            return Err(common_err(String::from_str("index cannot hold another key")));
        }
        index.push(&event.data_item.key, dp);
        file.offset = file.offset + dp.length;
        match event.callback {
            Some(cb) => self.acks.push(cb),
            None => {},
        }
        Ok(())
    }

    /// Records that `event` did not apply and nothing was written for it. Its
    /// acknowledgement, if any, is kept with the others, so that it too comes only after
    /// the batch, and every write before it, is synced.
    pub fn skip(&mut self, event: WriteEvent)
        ensures
            final(self).pending() == old(self).pending() + (if event.acknowledged() { 1int } else { 0int }),
    {
        match event.callback {
            Some(cb) => self.acks.push(cb),
            None => {},
        }
    }

    /// Ends the batch. Once the file is synced (`synced`), hands out every acknowledgement
    /// to signal; otherwise hands out none.
    pub fn finish(self, synced: bool) -> (r: Vec<Callback>)
        ensures
            synced ==> r@.len() == self.pending(),
            !synced ==> r@.len() == 0,
    {
        if synced {
            self.acks
        } else {
            Vec::new()
        }
    }
}

} // verus!
