use vstd::prelude::*;

use crate::index::{calc_hash, key_hash};

verus! {

/// A node of a hash chain: a key's hash and where its record lives.
pub struct HashNode {
    pub hash: u64,
    pub file_id: u32,
    pub offset: u32,
    pub length: u32,
    pub next_node: Option<std::sync::Arc<HashNode>>,
}

/// The head of a hash chain whose nodes are shared.
pub struct Head {
    pub is_move: bool,
    pub first_node: Option<std::sync::Arc<HashNode>>,
}

impl Head {
    pub fn new() -> (r: Head)
        ensures
            !r.is_move,
            r.first_node is None,
    {
        Head { is_move: false, first_node: None }
    }

    /// Puts a node in front of the chain.
    pub fn add(&mut self, hash: u64, file_id: u32, offset: u32, length: u32)
        ensures
            final(self).is_move == old(self).is_move,
            final(self).first_node matches Some(n) && n.hash == hash && n.file_id == file_id
                && n.offset == offset && n.length == length && n.next_node == old(self).first_node,
    {
        let next = self.first_node.take();
        self.first_node = Some(std::sync::Arc::new(HashNode { hash, file_id, offset, length, next_node: next }));
    }
}

/// Number of chains of a `ConcurrentHashIndex`.
pub const CHAIN_COUNT: usize = 1024;

/// A fixed table of hash chains that only grows.
pub struct ConcurrentHashIndex {
    pub capacity: u64,
    pub size: u64,
    pub data: Vec<Head>,
}

impl ConcurrentHashIndex {
    pub fn new() -> (r: ConcurrentHashIndex)
        ensures
            r.capacity == u64::MAX,
            r.size == 0,
            r.data@.len() == CHAIN_COUNT,
            forall|i: int| 0 <= i < CHAIN_COUNT ==> (#[trigger] r.data@[i]).first_node is None && !r.data@[i].is_move,
    {
        let mut data: Vec<Head> = Vec::new();
        let mut i: usize = 0;
        while i < CHAIN_COUNT
            invariant
                i <= CHAIN_COUNT,
                data@.len() == i,
                forall|j: int| 0 <= j < i ==> (#[trigger] data@[j]).first_node is None && !data@[j].is_move,
            decreases CHAIN_COUNT - i,
        {
            data.push(Head::new());
            i = i + 1;
        }
        ConcurrentHashIndex { capacity: u64::MAX, size: 0, data }
    }

    /// Puts a node for `key` in front of the chain that its hash selects.
    pub fn put(&mut self, key: &String, file_id: u32, offset: u32, length: u32)
        requires
            old(self).data@.len() > 0,
        ensures
            final(self).data@.len() == old(self).data@.len(),
            ({
                let i = (key_hash(key@) % (old(self).data@.len() as u64)) as int;
                &&& final(self).data@[i].first_node matches Some(n) && n.hash == key_hash(key@)
                    && n.file_id == file_id && n.offset == offset && n.length == length
                    && n.next_node == old(self).data@[i].first_node
                &&& forall|j: int| 0 <= j < old(self).data@.len() && j != i ==> #[trigger] final(self).data@[j] == old(self).data@[j]
            }),
    {
        let hash = calc_hash(key);
        let len = self.data.len();
        let index = (hash % (len as u64)) as usize;
        self.data[index].add(hash, file_id, offset, length);
    }
}

} // verus!
