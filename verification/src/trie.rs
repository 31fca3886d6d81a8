use vstd::prelude::*;

use crate::node::make_chain;
use crate::node::node_insert;
use crate::node::Node;
use crate::subtrie::SubTrie;

verus! {

/// A byte-string-keyed trie that owns its nodes.  Views borrow from it;
/// no view may be alive across an `insert`, which the borrow rules of
/// the host language enforce.
pub struct Trie<V> {
    pub(crate) root: Option<Node<V>>,
}

impl<V> Trie<V> {
    /// Validity of the whole structure; `new` establishes it and
    /// `insert` keeps it.
    pub closed spec fn wf(self) -> bool {
        match self.root {
            Some(n) => n.wf_at(Seq::empty()),
            None => true,
        }
    }

    /// An empty trie.
    pub fn new() -> (t: Self)
        ensures
            t.wf(),
            t@ == Map::<Seq<u8>, V>::empty(),
    {
        let t = Trie { root: None };
        proof {
            assert(t@ =~= Map::<Seq<u8>, V>::empty());
        }
        t
    }

    /// Store `val` at `key`, replacing any earlier value there.
    pub fn insert(&mut self, key: &[u8], val: V)
        requires
            old(self).wf(),
        ensures
            final(self).wf(),
            final(self)@ == old(self)@.insert(key@, val),
    {
        proof {
            assert(key@.subrange(0, 0) =~= Seq::<u8>::empty());
        }
        let root = self.root.take();
        match root {
            Some(n) => {
                let n2 = node_insert(n, key, 0, val, Ghost(Seq::empty()));
                self.root = Some(n2);
            },
            None => {
                let n = make_chain(key, 0, val, Ghost(key@.subrange(0, 0)));
                self.root = Some(n);
                proof {
                    assert(old(self)@ =~= Map::<Seq<u8>, V>::empty());
                    assert(final(self)@ == old(self)@.insert(key@, val));
                }
            },
        }
    }

    /// The root view over the whole trie: every key, under the empty
    /// prefix.  Narrow it with `subtrie` to look deeper.
    pub fn as_subtrie(&self) -> (v: SubTrie<'_, V>)
        requires
            self.wf(),
        ensures
            v.wf(),
            v@ == self@,
            v.scope() == Seq::<u8>::empty(),
    {
        let v = SubTrie::from_root(self.root.as_ref(), Ghost(Seq::empty()));
        proof {
            match &self.root {
                Some(n) => {},
                None => {
                    assert(self@ =~= Map::<Seq<u8>, V>::empty());
                },
            }
        }
        v
    }
}

impl<V> View for Trie<V> {
    type V = Map<Seq<u8>, V>;

    /// The mapping the trie holds.
    closed spec fn view(&self) -> Map<Seq<u8>, V> {
        match self.root {
            Some(n) => n.model(),
            None => Map::empty(),
        }
    }
}

} // verus!
