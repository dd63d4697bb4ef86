pub mod concurrent_hash_index;
pub mod linked_hash_set;
pub mod parallel_index;
pub mod dynamic_index;

use vstd::prelude::*;

verus! {

/// The shard-routing hash of a key.
pub uninterp spec fn key_hash(key: Seq<char>) -> u64;

/// Relies on `BuildHasher::hash_one` with std's `DefaultHasher` built by
/// `BuildHasherDefault::default` (the same hasher as `DefaultHasher::new`): every instance
/// starts from the same fixed state, so the hash depends on the key alone.
#[verifier::external_body]
pub fn calc_hash(key: &String) -> (r: u64)
    ensures
        r == key_hash(key@),
{
    std::hash::BuildHasher::hash_one(
        &std::hash::BuildHasherDefault::<std::collections::hash_map::DefaultHasher>::default(),
        key,
    )
}

/// Where a record lives: the log file, the byte offset of its frame, and the frame's length.
#[derive(Debug, Clone, Copy, PartialEq, Eq, Structural)]
pub struct DataPosition {
    pub file_id: u32,
    pub offset: u32,
    pub length: u32,
}

impl DataPosition {
    pub fn new(file_id: u32, offset: u32, length: u32) -> (r: Self)
        ensures
            r.file_id == file_id,
            r.offset == offset,
            r.length == length,
    {
        DataPosition { file_id, offset, length }
    }
}

pub type Link = Option<Box<Node>>;

/// One entry of a chain: a key, where its latest value lives, and the rest of the chain.
#[derive(Debug)]
pub struct Node {
    pub key: String,
    pub dp: DataPosition,
    pub next: Link,
}

impl Node {
    pub fn update_dp(&mut self, dp: DataPosition)
        ensures
            final(self).dp == dp,
            final(self).key == old(self).key,
            final(self).next == old(self).next,
    {
        self.dp = dp;
    }
}

/// Number of nodes in a chain.
pub open spec fn link_len(link: Link) -> nat
    decreases link,
{
    match link {
        None => 0,
        Some(n) => 1 + link_len(n.next),
    }
}

/// The chain read as a map; a node nearer the head hides a later node with the same key.
pub open spec fn link_map(link: Link) -> Map<Seq<char>, DataPosition>
    decreases link,
{
    match link {
        None => Map::empty(),
        Some(n) => link_map(n.next).insert(n.key@, n.dp),
    }
}

/// No key occurs twice in the chain.
pub open spec fn link_unique(link: Link) -> bool
    decreases link,
{
    match link {
        None => true,
        Some(n) => !link_map(n.next).contains_key(n.key@) && link_unique(n.next),
    }
}

/// The nodes of a chain from the head on, each as (key, location).
pub open spec fn link_seq(link: Link) -> Seq<(Seq<char>, DataPosition)>
    decreases link,
{
    match link {
        None => Seq::empty(),
        Some(n) => seq![(n.key@, n.dp)] + link_seq(n.next),
    }
}

/// A sequence of nodes read as a map; an earlier node hides a later one with the same key.
pub open spec fn seq_map(s: Seq<(Seq<char>, DataPosition)>) -> Map<Seq<char>, DataPosition>
    decreases s.len(),
{
    if s.len() == 0 {
        Map::empty()
    } else {
        seq_map(s.drop_first()).insert(s[0].0, s[0].1)
    }
}

/// The map and the length of a chain are those of its node sequence, and every node's
/// key is a key of the map.
pub proof fn lemma_link_seq(link: Link)
    ensures
        link_map(link) == seq_map(link_seq(link)),
        link_len(link) == link_seq(link).len(),
        forall|i: int| 0 <= i < link_seq(link).len() ==> link_map(link).contains_key(#[trigger] link_seq(link)[i].0),
    decreases link,
{
    match link {
        None => {},
        Some(n) => {
            lemma_link_seq(n.next);
            let s = link_seq(link);
            assert(s.drop_first() =~= link_seq(n.next));
            assert forall|i: int| 0 <= i < s.len() implies link_map(link).contains_key(#[trigger] s[i].0) by {
                if i > 0 {
                    assert(s[i] == link_seq(n.next)[i - 1]);
                }
            }
        },
    }
}

/// With unique keys, the chain holds exactly as many nodes as its map has keys.
pub proof fn lemma_link_len_is_map_len(link: Link)
    requires
        link_unique(link),
    ensures
        link_map(link).dom().finite(),
        link_map(link).dom().len() == link_len(link),
    decreases link,
{
    match link {
        None => {},
        Some(n) => {
            lemma_link_len_is_map_len(n.next);
        },
    }
}

} // verus!
