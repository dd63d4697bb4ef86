use vstd::prelude::*;

use crate::index::{
    lemma_link_len_is_map_len, lemma_link_seq, link_len, link_map, link_seq, link_unique, seq_map, DataPosition, Link, Node,
};

verus! {

/// A chain bucket: a singly linked list of key/location nodes and a flag telling that
/// its contents were moved to a larger table.
#[derive(Debug)]
pub struct LinkedHashSet {
    head: Link,
    moved: bool,
}

fn update_in(link: &mut Link, key: &String, dp: DataPosition) -> (found: bool)
    requires
        link_unique(*old(link)),
    ensures
        found == link_map(*old(link)).contains_key(key@),
        link_seq(*final(link)).len() == link_seq(*old(link)).len(),
        forall|i: int| 0 <= i < link_seq(*old(link)).len() ==> #[trigger] link_seq(*final(link))[i] == (if link_seq(
            *old(link),
        )[i].0 == key@ { (key@, dp) } else { link_seq(*old(link))[i] }),
        found ==> link_map(*final(link)) == link_map(*old(link)).insert(key@, dp),
        !found ==> *final(link) == *old(link),
        link_len(*final(link)) == link_len(*old(link)),
        link_unique(*old(link)) ==> link_unique(*final(link)),
    decreases link_len(*old(link)),
{
    match link {
        None => false,
        Some(node) => {
            proof {
                lemma_link_seq(node.next);
            }
            if node.key == *key {
                node.update_dp(dp);
                proof {
                    let s = link_seq(*old(link));
                    assert forall|i: int| 0 < i < s.len() implies s[i].0 != key@ by {
                        assert(s[i] == link_seq(node.next)[i - 1]);
                    }
                }
                true
            } else {
                let ghost tail = link_seq(node.next);
                let found = update_in(&mut node.next, key, dp);
                proof {
                    let s = link_seq(*old(link));
                    let t = link_seq(*final(link));
                    assert forall|i: int| 0 < i < s.len() implies #[trigger] t[i] == (if s[i].0 == key@ { (key@, dp) } else { s[i] }) by {
                        assert(s[i] == tail[i - 1]);
                        assert(t[i] == link_seq(node.next)[i - 1]);
                    }
                }
                found
            }
        },
    }
}

fn remove_from(link: &mut Link, key: &String) -> (removed: bool)
    requires
        link_unique(*old(link)),
    ensures
        removed == link_map(*old(link)).contains_key(key@),
        link_map(*final(link)) == link_map(*old(link)).remove(key@),
        link_unique(*final(link)),
        link_len(*final(link)) == link_len(*old(link)) - (if removed { 1int } else { 0int }),
        removed ==> exists|i: int| 0 <= i < link_seq(*old(link)).len() && #[trigger] link_seq(*old(link))[i].0 == key@
            && link_seq(*final(link)) == link_seq(*old(link)).remove(i),
        !removed ==> link_seq(*final(link)) == link_seq(*old(link)),
    decreases link_len(*old(link)),
{
    match link {
        None => {
            assert(link_map(*old(link)).remove(key@) =~= link_map(*old(link)));
            false
        },
        Some(node) => {
            if node.key == *key {
                let rest = node.next.take();
                *link = rest;
                assert(link_map(*final(link)) =~= link_map(*old(link)).remove(key@));
                assert(link_seq(*final(link)) =~= link_seq(*old(link)).remove(0));
                assert(link_seq(*old(link))[0].0 == key@);
                true
            } else {
                let ghost tail = link_seq(node.next);
                let removed = remove_from(&mut node.next, key);
                assert(link_map(*final(link)) =~= link_map(*old(link)).remove(key@));
                proof {
                    let s = link_seq(*old(link));
                    if removed {
                        let i = choose|i: int| 0 <= i < tail.len() && #[trigger] tail[i].0 == key@
                            && link_seq(node.next) == tail.remove(i);
                        assert(s[i + 1] == tail[i]);
                        assert(link_seq(*final(link)) =~= s.remove(i + 1));
                    } else {
                        assert(link_seq(*final(link)) =~= s);
                    }
                }
                removed
            }
        },
    }
}

impl LinkedHashSet {
    /// Keys are unique along the chain.
    pub closed spec fn wf(&self) -> bool {
        link_unique(self.head)
    }

    /// The nodes of the chain from the head on, each as (key, location).
    pub closed spec fn nodes(&self) -> Seq<(Seq<char>, DataPosition)> {
        link_seq(self.head)
    }

    /// What the bucket maps each key to: its nodes read as a map.
    pub closed spec fn view(&self) -> Map<Seq<char>, DataPosition> {
        seq_map(self.nodes())
    }

    /// How many nodes the chain holds.
    pub closed spec fn len(&self) -> nat {
        link_len(self.head)
    }

    pub closed spec fn spec_moved(&self) -> bool {
        self.moved
    }

    /// A well-formed chain holds one node per key.
    pub proof fn lemma_len_is_key_count(&self)
        requires
            self.wf(),
        ensures
            self@.dom().finite(),
            self@.dom().len() == self.len(),
    {
        lemma_link_len_is_map_len(self.head);
        lemma_link_seq(self.head);
    }

    pub fn new() -> (r: Self)
        ensures
            r.wf(),
            r@ == Map::<Seq<char>, DataPosition>::empty(),
            r.nodes() == Seq::<(Seq<char>, DataPosition)>::empty(),
            r.len() == 0,
            !r.spec_moved(),
    {
        LinkedHashSet { head: None, moved: false }
    }

    /// Inserts `key`, or updates its location where it is already present.
    /// Returns 1 for an insertion and 0 for an update.
    pub fn push(&mut self, key: &String, dp: DataPosition) -> (r: u8)
        requires
            old(self).wf(),
        ensures
            final(self).wf(),
            final(self)@ == old(self)@.insert(key@, dp),
            r == (if old(self)@.contains_key(key@) { 0u8 } else { 1u8 }),
            final(self).len() == old(self).len() + r,
            final(self).spec_moved() == old(self).spec_moved(),
            r == 1 ==> final(self).nodes() == seq![(key@, dp)] + old(self).nodes(),
            r == 0 ==> final(self).nodes().len() == old(self).nodes().len() && forall|i: int|
                0 <= i < old(self).nodes().len() ==> #[trigger] final(self).nodes()[i] == (if old(self).nodes()[i].0
                    == key@ { (key@, dp) } else { old(self).nodes()[i] }),
    {
        proof {
            lemma_link_seq(self.head);
        }
        if update_in(&mut self.head, key, dp) {
            proof {
                lemma_link_seq(self.head);
            }
            return 0;
        }
        let rest = self.head.take();
        let node = Node { key: key.clone(), dp, next: rest };
        self.head = Some(Box::new(node));
        proof {
            lemma_link_seq(self.head);
        }
        1
    }

    /// Detaches the head node.
    pub fn pop(&mut self) -> (r: Option<Box<Node>>)
        requires
            old(self).wf(),
        ensures
            final(self).wf(),
            final(self).spec_moved() == old(self).spec_moved(),
            old(self).len() == 0 ==> r is None && final(self)@ == old(self)@,
            r is None ==> old(self).len() == 0 && *final(self) == *old(self),
            r is None ==> old(self).nodes().len() == 0,
            r matches Some(n) ==> {
                &&& old(self).nodes().len() > 0
                &&& (n.key@, n.dp) == old(self).nodes()[0]
                &&& final(self).nodes() == old(self).nodes().drop_first()
                &&& old(self)@.contains_key(n.key@)
                &&& old(self)@[n.key@] == n.dp
                &&& final(self)@ == old(self)@.remove(n.key@)
                &&& final(self).len() + 1 == old(self).len()
            },
    {
        proof {
            lemma_link_seq(self.head);
        }
        match self.head.take() {
            None => None,
            Some(mut v) => {
                self.head = v.next.take();
                proof {
                    lemma_link_seq(self.head);
                    assert(link_map(self.head) =~= link_map(old(self).head).remove(v.key@));
                    assert(link_seq(self.head) =~= link_seq(old(self).head).drop_first());
                }
                Some(v)
            },
        }
    }

    /// The location stored for `key`, if any.
    pub fn find(&self, key: &String) -> (r: Option<DataPosition>)
        ensures
            r == (if self@.contains_key(key@) { Some(self@[key@]) } else { None::<DataPosition> }),
    {
        proof {
            lemma_link_seq(self.head);
        }
        let mut node = &self.head;
        loop
            invariant
                self@ == link_map(self.head),
                link_map(self.head).contains_key(key@) == link_map(*node).contains_key(key@),
                link_map(self.head).contains_key(key@) ==> link_map(self.head)[key@] == link_map(*node)[key@],
            decreases link_len(*node),
        {
            match node {
                None => return None,
                Some(v) => {
                    if v.key == *key {
                        return Some(v.dp);
                    }
                    node = &v.next;
                },
            }
        }
    }

    /// Unlinks the node for `key`. Returns 1 when one was removed, 0 otherwise.
    pub fn del(&mut self, key: &String) -> (r: u8)
        requires
            old(self).wf(),
        ensures
            final(self).wf(),
            final(self)@ == old(self)@.remove(key@),
            r == (if old(self)@.contains_key(key@) { 1u8 } else { 0u8 }),
            final(self).len() + r == old(self).len(),
            final(self).spec_moved() == old(self).spec_moved(),
            r == 1 ==> exists|i: int| 0 <= i < old(self).nodes().len() && #[trigger] old(self).nodes()[i].0 == key@
                && final(self).nodes() == old(self).nodes().remove(i),
            r == 0 ==> final(self).nodes() == old(self).nodes(),
    {
        proof {
            lemma_link_seq(self.head);
        }
        let ghost before = link_seq(self.head);
        let removed = remove_from(&mut self.head, key);
        proof {
            lemma_link_seq(self.head);
            if removed {
                let i = choose|i: int| 0 <= i < before.len() && #[trigger] before[i].0 == key@
                    && link_seq(self.head) == before.remove(i);
                assert(old(self).nodes()[i].0 == key@);
            }
        }
        if removed {
            1
        } else {
            0
        }
    }

    pub fn is_moved(&self) -> (r: bool)
        ensures
            r == self.spec_moved(),
    {
        self.moved
    }

    pub fn set_moved(&mut self, moved: bool)
        ensures
            final(self).spec_moved() == moved,
            final(self)@ == old(self)@,
            final(self).nodes() == old(self).nodes(),
            final(self).len() == old(self).len(),
            final(self).wf() == old(self).wf(),
    {
        self.moved = moved
    }
}

} // verus!
