//! Node records and the slab that gives them their indices.

use vstd::prelude::*;

use slab::Slab;

verus! {

#[verifier::external_type_specification]
#[verifier::external_body]
#[verifier::reject_recursive_types(T)]
pub struct ExSlab<T>(Slab<T>);

#[verifier::external_type_specification]
#[verifier::external_body]
pub struct ExPos2(egui::Pos2);

/// The map that a list of key and node pairs gives: a later pair wins over an
/// earlier one with the same key.
pub open spec fn pairs_to_map<T>(s: Seq<(usize, Node<T>)>) -> Map<usize, Node<T>>
    decreases s.len(),
{
    if s.len() == 0 {
        Map::empty()
    } else {
        pairs_to_map(s.drop_last()).insert(s.last().0, s.last().1)
    }
}

/// No two pairs share a key.
pub open spec fn keys_distinct<T>(s: Seq<(usize, Node<T>)>) -> bool {
    forall|i: int, j: int| 0 <= i < j < s.len() ==> s[i].0 != s[j].0
}

/// With distinct keys, the map holds each pair, and nothing else.
pub proof fn lemma_pairs_to_map<T>(s: Seq<(usize, Node<T>)>)
    requires
        keys_distinct(s),
    ensures
        forall|i: int|
            0 <= i < s.len() ==> pairs_to_map(s).contains_key(#[trigger] s[i].0) && pairs_to_map(
                s,
            )[s[i].0] == s[i].1,
        forall|k: usize|
            #[trigger] pairs_to_map(s).contains_key(k) ==> exists|i: int|
                0 <= i < s.len() && s[i].0 == k,
    decreases s.len(),
{
    if s.len() > 0 {
        let t = s.drop_last();
        lemma_pairs_to_map(t);
        assert forall|i: int| 0 <= i < s.len() implies pairs_to_map(s).contains_key(
            #[trigger] s[i].0,
        ) && pairs_to_map(s)[s[i].0] == s[i].1 by {
            if i < s.len() - 1 {
                assert(t[i] == s[i]);
                assert(s[i].0 != s.last().0);
            }
        }
        assert forall|k: usize| #[trigger] pairs_to_map(s).contains_key(k) implies exists|i: int|
            0 <= i < s.len() && s[i].0 == k by {
            if k != s.last().0 {
                assert(pairs_to_map(t).contains_key(k));
                let i = choose|i: int| 0 <= i < t.len() && t[i].0 == k;
                assert(s[i] == t[i]);
            } else {
                assert(s[s.len() - 1].0 == k);
            }
        }
    }
}

/// One node of a graph.
pub struct Node<T> {
    /// The payload.
    pub value: T,
    /// Position of the top-left corner of the node, frame margin excluded.
    pub pos: egui::Pos2,
    /// Whether the node is open, not collapsed.
    pub open: bool,
}

/// The nodes of a graph, each under the index that the slab gave it.
///
/// `contents` is what `slab` holds, key by key. Only the methods below touch
/// either field, and each of them changes both alike.
#[verifier::reject_recursive_types(T)]
pub struct NodeSlab<T> {
    slab: Slab<Node<T>>,
    contents: Ghost<Map<usize, Node<T>>>,
}

impl<T> View for NodeSlab<T> {
    type V = Map<usize, Node<T>>;

    closed spec fn view(&self) -> Map<usize, Node<T>> {
        self.contents@
    }
}

impl<T> NodeSlab<T> {
    /// Relies on `slab::Slab::new`: a slab that holds nothing.
    #[verifier::external_body]
    pub fn new() -> (r: NodeSlab<T>)
        ensures
            r@.dom() == Set::<usize>::empty(),
    {
        NodeSlab { slab: Slab::new(), contents: Ghost(Map::empty()) }
    }

    /// Relies on `slab::Slab::insert`: the node is stored under the key that the
    /// slab had vacant, and that key is returned.
    #[verifier::external_body]
    pub fn insert(&mut self, node: Node<T>) -> (key: usize)
        ensures
            !old(self)@.contains_key(key),
            final(self)@ == old(self)@.insert(key, node),
    {
        self.slab.insert(node)
    }

    /// Relies on `slab::Slab::remove`: the node under `key` is taken out and
    /// returned. The slab panics on a key that holds nothing.
    #[verifier::external_body]
    pub fn remove(&mut self, key: usize) -> (node: Node<T>)
        requires
            old(self)@.contains_key(key),
        ensures
            node == old(self)@[key],
            final(self)@ == old(self)@.remove(key),
    {
        self.slab.remove(key)
    }

    /// Relies on `slab::Slab::contains`: whether `key` holds a node.
    #[verifier::external_body]
    pub fn contains(&self, key: usize) -> (r: bool)
        ensures
            r == self@.contains_key(key),
    {
        self.slab.contains(key)
    }
    /// Relies on `slab::Slab::get`: the node under `key`, if it holds one.
    #[verifier::external_body]
    pub fn get(&self, key: usize) -> (r: Option<&Node<T>>)
        ensures
            r.is_some() == self@.contains_key(key),
            r.is_some() ==> *r.unwrap() == self@[key],
    {
        self.slab.get(key)
    }
    /// Relies on `Slab`'s `FromIterator<(usize, T)>`: each node is stored under
    /// its key, a later pair over an earlier one with the same key.
    #[verifier::external_body]
    pub fn from_pairs(pairs: Vec<(usize, Node<T>)>) -> (r: NodeSlab<T>)
        ensures
            r@ == pairs_to_map(pairs@),
    {
        NodeSlab { slab: pairs.into_iter().collect(), contents: Ghost(Map::empty()) }
    }

    /// Relies on `Slab`'s `IntoIterator`: every stored node with its key, by
    /// rising key.
    #[verifier::external_body]
    pub fn into_pairs(self) -> (r: Vec<(usize, Node<T>)>)
        ensures
            forall|i: int, j: int| 0 <= i < j < r@.len() ==> r@[i].0 < r@[j].0,
            pairs_to_map(r@) == self@,
    {
        self.slab.into_iter().collect()
    }
    /// Relies on `slab::Slab::get_mut`: the node under `key`, for writing, if it
    /// holds one.
    #[verifier::external_body]
    pub fn get_mut(&mut self, key: usize) -> (r: Option<&mut Node<T>>)
        ensures
            r.is_some() == old(self)@.contains_key(key),
            r.is_none() ==> final(self)@ == old(self)@,
            r.is_some() ==> *r.unwrap() == old(self)@[key] && final(self)@ == old(self)@.insert(
                key,
                *final(r.unwrap()),
            ),
    {
        self.slab.get_mut(key)
    }
}

} // verus!
