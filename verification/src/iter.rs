use vstd::prelude::*;

use crate::node::Node;

verus! {

/// A lazy, pull-based traversal of a subtree.  It keeps a stack of the
/// nodes whose entries are still to be yielded, the next one on top, and
/// borrows everything from the trie it walks.
pub struct Iter<'a, V> {
    pub(crate) stack: Vec<&'a Node<V>>,
}

/// The entries still to come from the stacked nodes, topmost node first.
pub(crate) open spec fn stack_entries<V>(s: Seq<&Node<V>>) -> Seq<(Seq<u8>, V)>
    decreases s.len(),
{
    if s.len() == 0 {
        Seq::empty()
    } else {
        s.last().entries() + stack_entries(s.drop_last())
    }
}

/// The number of nodes below the stack, the traversal's measure.
pub(crate) open spec fn stack_size<V>(s: Seq<&Node<V>>) -> nat
    decreases s.len(),
{
    if s.len() == 0 {
        0
    } else {
        s.last().size() + stack_size(s.drop_last())
    }
}

impl<'a, V> Iter<'a, V> {
    /// The key/value pairs this traversal has still to yield, in order.
    pub closed spec fn remaining(self) -> Seq<(Seq<u8>, V)> {
        stack_entries(self.stack@)
    }

    /// A traversal over the subtree of `n`.
    pub(crate) fn from_node(n: &'a Node<V>) -> (it: Self)
        ensures
            it.remaining() == n.entries(),
    {
        let mut stack: Vec<&'a Node<V>> = Vec::new();
        stack.push(n);
        let it = Iter { stack };
        proof {
            assert(it.stack@.drop_last() =~= Seq::<&'a Node<V>>::empty());
            assert(n.entries() + stack_entries(it.stack@.drop_last()) =~= n.entries());
        }
        it
    }

    /// The next key/value pair, or nothing once the traversal is done.
    /// Pulling never touches the trie beyond reading it.
    #[verifier::rlimit(100)]
    pub fn next(&mut self) -> (r: Option<(&'a Vec<u8>, &'a V)>)
        ensures
            old(self).remaining().len() == 0 ==> r is None && final(self).remaining() == old(
                self,
            ).remaining(),
            old(self).remaining().len() > 0 ==> (match r {
                Some(kv) => kv.0@ == old(self).remaining()[0].0 && *kv.1 == old(
                    self,
                ).remaining()[0].1 && final(self).remaining() == old(self).remaining().skip(1),
                None => false,
            }),
    {
        loop
            invariant
                stack_entries(self.stack@) == stack_entries(old(self).stack@),
            decreases stack_size(self.stack@),
        {
            let popped = self.stack.pop();
            match popped {
                None => {
                    proof {
                        assert(self.stack@.len() == 0);
                    }
                    return None;
                },
                Some(n) => {
                    let ghost pre_pop = self.stack@.push(n);
                    proof {
                        assert(pre_pop.drop_last() =~= self.stack@);
                        n.lemma_step_decomp();
                    }
                    let ghost base = self.stack@;
                    let mut ci: usize = n.children.len();
                    proof {
                        assert(n.entries_from(ci as int) + stack_entries(base) =~= stack_entries(
                            base,
                        ));
                    }
                    while ci > 0
                        invariant
                            ci <= n.children.len(),
                            stack_entries(self.stack@) == n.entries_from(ci as int)
                                + stack_entries(base),
                            stack_size(self.stack@) == n.size_from(ci as int) + stack_size(base),
                        decreases ci,
                    {
                        ci = ci - 1;
                        let ghost before = self.stack@;
                        let c: &'a Node<V> = &n.children[ci].1;
                        self.stack.push(c);
                        proof {
                            assert(self.stack@.drop_last() =~= before);
                            n.lemma_step_decomp();
                            assert(c.entries() + (n.entries_from(ci as int + 1) + stack_entries(
                                base,
                            )) =~= n.entries_from(ci as int) + stack_entries(base));
                        }
                    }
                    match &n.leaf {
                        Some(l) => {
                            proof {
                                let own = seq![(l.key@, l.val)];
                                assert(stack_entries(pre_pop) == n.entries() + stack_entries(
                                    base,
                                ));
                                assert(n.entries() == own + n.entries_from(0));
                                assert((own + n.entries_from(0)) + stack_entries(base) =~= own + (
                                n.entries_from(0) + stack_entries(base)));
                                assert(old(self).remaining()[0] == (l.key@, l.val));
                                assert(old(self).remaining().skip(1) =~= n.entries_from(0)
                                    + stack_entries(base));
                            }
                            return Some((&l.key, &l.val));
                        },
                        None => {
                            proof {
                                assert(stack_entries(pre_pop) == n.entries() + stack_entries(
                                    base,
                                ));
                                assert(n.entries() =~= Seq::<(Seq<u8>, V)>::empty()
                                    + n.entries_from(0));
                                assert(Seq::<(Seq<u8>, V)>::empty() + n.entries_from(0)
                                    =~= n.entries_from(0));
                                assert(stack_entries(self.stack@) == stack_entries(
                                    old(self).stack@,
                                ));
                                assert(stack_size(pre_pop) == n.size() + stack_size(base));
                            }
                        },
                    }
                },
            }
        }
    }

    /// How many pairs are left; consumes the traversal.  The count is
    /// returned as a machine word, which bounds what it can say.
    pub fn count(self) -> (c: usize)
        requires
            self.remaining().len() <= usize::MAX,
        ensures
            c == self.remaining().len(),
    {
        let ghost orig = self.remaining();
        let mut it = self;
        let mut c: usize = 0;
        loop
            invariant
                orig == self.remaining(),
                c + it.remaining().len() == orig.len(),
                orig.len() <= usize::MAX,
            decreases it.remaining().len(),
        {
            match it.next() {
                Some(_) => {
                    c = c + 1;
                },
                None => {
                    return c;
                },
            }
        }
    }
}

impl<'a, V> Default for Iter<'a, V> {
    /// An exhausted traversal, as an empty view hands out.
    fn default() -> (it: Self)
        ensures
            it.remaining() == Seq::<(Seq<u8>, V)>::empty(),
    {
        Iter { stack: Vec::new() }
    }
}

} // verus!
