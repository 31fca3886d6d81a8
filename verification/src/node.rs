use vstd::prelude::*;

verus! {

/// One stored key/value pair.  The key is always the full key as the
/// caller supplied it, so that iteration can hand out borrowed key
/// references without reconstructing them.
pub(crate) struct Leaf<V> {
    pub(crate) key: Vec<u8>,
    pub(crate) val: V,
}

/// A node of the byte trie.  A node at depth `d` covers exactly the keys
/// that share its `d`-byte path from the root; one byte is consumed per
/// edge.  `leaf` holds the pair whose key is exactly the node's path,
/// and `children` is ordered by its (distinct) label bytes.
pub struct Node<V> {
    pub(crate) depth: usize,
    pub(crate) leaf: Option<Leaf<V>>,
    pub(crate) children: Vec<(u8, Node<V>)>,
}

impl<V> Node<V> {
    /// All key/value pairs stored in this subtree: the node's own pair
    /// first, then the children's pairs in label order.  With the
    /// well-formedness invariant this is byte-lexicographic key order.
    pub closed spec fn entries(self) -> Seq<(Seq<u8>, V)>
        decreases self, 1int, 0int,
    {
        let own = match self.leaf {
            Some(l) => seq![(l.key@, l.val)],
            None => Seq::empty(),
        };
        own + self.entries_from(0)
    }

    /// The entries of the children from child index `i` on.
    pub(crate) closed spec fn entries_from(self, i: int) -> Seq<(Seq<u8>, V)>
        decreases self, 0int, self.children.len() - i,
    {
        if i < 0 || i >= self.children.len() {
            Seq::empty()
        } else {
            self.children[i].1.entries() + self.entries_from(i + 1)
        }
    }

    /// The subtree as a mapping from full keys to values.
    pub closed spec fn model(self) -> Map<Seq<u8>, V>
        decreases self, 1int, 0int,
    {
        let own = match self.leaf {
            Some(l) => Map::empty().insert(l.key@, l.val),
            None => Map::empty(),
        };
        own.union_prefer_right(self.model_from(0))
    }

    /// The union of the children's mappings from child index `i` on.
    pub(crate) closed spec fn model_from(self, i: int) -> Map<Seq<u8>, V>
        decreases self, 0int, self.children.len() - i,
    {
        if i < 0 || i >= self.children.len() {
            Map::empty()
        } else {
            self.children[i].1.model().union_prefer_right(self.model_from(i + 1))
        }
    }

    /// Well-formedness of a node standing at `path`: the stored pair's key
    /// is the path itself, each child extends the path by its label byte,
    /// labels strictly increase, and every node covers at least one pair.
    pub closed spec fn wf_at(self, path: Seq<u8>) -> bool
        decreases self,
    {
        &&& self.depth == path.len()
        &&& (match self.leaf {
            Some(l) => l.key@ == path,
            None => self.children.len() > 0,
        })
        &&& (forall|i: int|
            0 <= i < self.children.len() ==> (#[trigger] self.children[i]).1.wf_at(
                path.push(self.children[i].0),
            ))
        &&& (forall|i: int, j: int|
            0 <= i < j < self.children.len() ==> (#[trigger] self.children[i]).0
                < (#[trigger] self.children[j]).0)
    }

    /// The child labelled `b`, if there is one.
    pub(crate) closed spec fn child_with(self, b: u8) -> Option<Node<V>> {
        if exists|i: int| 0 <= i < self.children.len() && (#[trigger] self.children[i]).0 == b {
            let i = choose|i: int|
                0 <= i < self.children.len() && (#[trigger] self.children[i]).0 == b;
            Some(self.children[i].1)
        } else {
            None
        }
    }

    /// The node reached by following the bytes of `p` downward, if the
    /// trie has an edge for each of them.
    pub closed spec fn descend(self, p: Seq<u8>) -> Option<Node<V>>
        decreases p.len(),
    {
        if p.len() == 0 {
            Some(self)
        } else {
            match self.child_with(p[0]) {
                Some(c) => c.descend(p.skip(1)),
                None => None,
            }
        }
    }
}

/// A prefix agrees with the longer sequence position by position.
pub(crate) proof fn lemma_prefix_index(p: Seq<u8>, k: Seq<u8>, i: int)
    requires
        p.is_prefix_of(k),
        0 <= i < p.len(),
    ensures
        p[i] == k[i],
{
    assert(p[i] == k.subrange(0, p.len() as int)[i]);
}

impl<V> Node<V> {
    /// Membership in the children's combined mapping, child by child.
    pub(crate) proof fn lemma_model_from_char(self, i: int)
        requires
            0 <= i,
        ensures
            forall|k: Seq<u8>|
                #[trigger] self.model_from(i).contains_key(k) <==> (exists|j: int|
                    0 <= j < self.children.len() && i <= j && (#[trigger] self.children[j]).1.model().contains_key(k)),
            forall|j: int, k: Seq<u8>|
                (0 <= j < self.children.len() && i <= j
                    && #[trigger] self.children[j].1.model().contains_key(k)
                    && (forall|j2: int|
                        j < j2 < self.children.len()
                            ==> !(#[trigger] self.children[j2]).1.model().contains_key(k)))
                    ==> self.model_from(i).contains_key(k) && self.model_from(i)[k]
                    == self.children[j].1.model()[k],
        decreases self, 0int, self.children.len() - i,
    {
        if i >= self.children.len() {
        } else {
            self.lemma_model_from_char(i + 1);
            let c = self.children[i].1;
            assert forall|k: Seq<u8>| #[trigger] self.model_from(i).contains_key(k) implies (
            exists|j: int|
                0 <= j < self.children.len() && i <= j
                    && (#[trigger] self.children[j]).1.model().contains_key(k)) by {
                if c.model().contains_key(k) {
                    assert(0 <= i < self.children.len() && i <= i
                        && self.children[i].1.model().contains_key(k));
                } else {
                    assert(self.model_from(i + 1).contains_key(k));
                }
            }
            assert forall|k: Seq<u8>|
                (exists|j: int|
                    0 <= j < self.children.len() && i <= j
                        && (#[trigger] self.children[j]).1.model().contains_key(
                        k,
                    )) implies #[trigger] self.model_from(i).contains_key(k) by {
                let j = choose|j: int|
                    0 <= j < self.children.len() && i <= j
                        && (#[trigger] self.children[j]).1.model().contains_key(k);
                if j == i {
                    assert(c.model().contains_key(k));
                } else {
                    assert(self.model_from(i + 1).contains_key(k));
                }
            }
            assert forall|j: int, k: Seq<u8>|
                (0 <= j < self.children.len() && i <= j
                    && #[trigger] self.children[j].1.model().contains_key(k)
                    && (forall|j2: int|
                        j < j2 < self.children.len()
                            ==> !(#[trigger] self.children[j2]).1.model().contains_key(
                            k,
                        ))) implies self.model_from(i).contains_key(k) && self.model_from(i)[k]
                == self.children[j].1.model()[k] by {
                if j == i {
                    assert(!self.model_from(i + 1).contains_key(k));
                } else {
                    assert(self.model_from(i + 1).contains_key(k));
                    assert(self.model_from(i + 1)[k] == self.children[j].1.model()[k]);
                }
            }
        }
    }


    /// What well-formedness says of the mapping: its keys extend the path,
    /// the path itself is a key exactly when the node stores a pair, and
    /// no subtree is empty.
    pub(crate) proof fn lemma_wf_model(self, path: Seq<u8>)
        requires
            self.wf_at(path),
        ensures
            self.model().dom().finite(),
            forall|k: Seq<u8>| #[trigger] self.model().contains_key(k) ==> path.is_prefix_of(k),
            self.model().contains_key(path) <==> self.leaf is Some,
            (match self.leaf {
                Some(l) => self.model().contains_key(path) && self.model()[path] == l.val,
                None => !self.model().contains_key(path),
            }),
            exists|k: Seq<u8>| self.model().contains_key(k),
            forall|j: int, k: Seq<u8>|
                (0 <= j < self.children.len()
                    && #[trigger] self.children[j].1.model().contains_key(k))
                    ==> path.push(self.children[j].0).is_prefix_of(k) && k.len() > path.len()
                    && k[path.len() as int] == self.children[j].0,
        decreases self,
    {
        self.lemma_model_from_char(0);
        assert forall|j: int| 0 <= j < self.children.len() implies {
            let c = (#[trigger] self.children[j]).1;
            let cpath = path.push(self.children[j].0);
            &&& c.model().dom().finite()
            &&& (forall|k: Seq<u8>| #[trigger] c.model().contains_key(k) ==> cpath.is_prefix_of(k))
            &&& (exists|k: Seq<u8>| c.model().contains_key(k))
        } by {
            self.children[j].1.lemma_wf_model(path.push(self.children[j].0));
        }
        assert forall|j: int, k: Seq<u8>|
            (0 <= j < self.children.len()
                && #[trigger] self.children[j].1.model().contains_key(k)) implies path.push(
            self.children[j].0,
        ).is_prefix_of(k) && k.len() > path.len() && k[path.len() as int] == self.children[j].0 by {
            let cpath = path.push(self.children[j].0);
            assert(cpath.is_prefix_of(k));
            lemma_prefix_index(cpath, k, path.len() as int);
        }
        self.lemma_model_from_finite(0);
        assert(self.model().dom().finite()) by {
            let own = match self.leaf {
                Some(l) => Map::<Seq<u8>, V>::empty().insert(l.key@, l.val),
                None => Map::<Seq<u8>, V>::empty(),
            };
            assert(own.dom().finite());
            assert(self.model().dom() =~= own.dom().union(self.model_from(0).dom()));
            vstd::set_lib::lemma_set_union_finite_iff(own.dom(), self.model_from(0).dom());
        }
        // Keys of the children are strictly longer than the path, so the
        // node's own pair is never shadowed by the children's mapping.
        assert(!self.model_from(0).contains_key(path));
        if self.leaf is None {
            // A child exists and is itself non-empty.
            let c0 = self.children[0].1;
            let k0 = choose|k: Seq<u8>| c0.model().contains_key(k);
            assert(self.model_from(0).contains_key(k0));
            assert(self.model().contains_key(k0));
        }
    }

    /// The children's combined mapping has a finite domain.
    proof fn lemma_model_from_finite(self, i: int)
        requires
            forall|j: int|
                0 <= j < self.children.len()
                    ==> (#[trigger] self.children[j]).1.model().dom().finite(),
        ensures
            self.model_from(i).dom().finite(),
        decreases self.children.len() - i,
    {
        if i < 0 || i >= self.children.len() {
            assert(self.model_from(i).dom() =~= Set::<Seq<u8>>::empty());
        } else {
            self.lemma_model_from_finite(i + 1);
            assert(self.model_from(i).dom() =~= self.children[i].1.model().dom().union(
                self.model_from(i + 1).dom(),
            ));
            vstd::set_lib::lemma_set_union_finite_iff(
                self.children[i].1.model().dom(),
                self.model_from(i + 1).dom(),
            );
        }
    }

    /// Each child holds exactly the keys of its subtree: following one
    /// byte restricts the mapping to the keys that extend the path by it.
    pub(crate) proof fn lemma_child_restrict(self, path: Seq<u8>, b: u8)
        requires
            self.wf_at(path),
        ensures
            (match self.child_with(b) {
                Some(c) => {
                    &&& c.wf_at(path.push(b))
                    &&& c.model() == restrict_prefix(self.model(), path.push(b))
                    &&& c.depth == self.depth + 1
                },
                None => restrict_prefix(self.model(), path.push(b)) == Map::<Seq<u8>, V>::empty(),
            }),
        decreases self,
    {
        self.lemma_wf_model(path);
        self.lemma_model_from_char(0);
        // Distinct labels: a label determines its child.
        assert forall|i: int, j: int|
            (0 <= i < self.children.len() && 0 <= j < self.children.len()
                && (#[trigger] self.children[i]).0 == (#[trigger] self.children[j]).0) implies i
            == j by {
            if i < j {
                assert(self.children[i].0 < self.children[j].0);
            }
            if j < i {
                assert(self.children[j].0 < self.children[i].0);
            }
        }
        match self.child_with(b) {
            Some(c) => {
                let i = choose|i: int|
                    0 <= i < self.children.len() && (#[trigger] self.children[i]).0 == b;
                assert(self.children[i].1 == c);
                c.lemma_wf_model(path.push(b));
                assert forall|k: Seq<u8>| #[trigger] c.model().contains_key(k) implies self.model().contains_key(k)
                    && self.model()[k] == c.model()[k] by {
                    assert(path.push(b).is_prefix_of(k));
                    lemma_prefix_index(path.push(b), k, path.len() as int);
                    assert(k[path.len() as int] == b);
                    assert forall|j2: int| i < j2 < self.children.len() implies !(
                    #[trigger] self.children[j2]).1.model().contains_key(k) by {
                        if self.children[j2].1.model().contains_key(k) {
                            assert(k[path.len() as int] == self.children[j2].0);
                            assert(self.children[i].0 < self.children[j2].0);
                        }
                    }
                    assert(self.model_from(0).contains_key(k));
                    assert(self.model_from(0)[k] == c.model()[k]);
                    assert(k.len() > path.len());
                }
                assert forall|k: Seq<u8>|
                    #[trigger] self.model().contains_key(k) && path.push(b).is_prefix_of(
                        k,
                    ) implies c.model().contains_key(k) by {
                    assert(k.len() > path.len());
                    assert(k != path);
                    assert(self.model_from(0).contains_key(k));
                    let j = choose|j: int|
                        0 <= j < self.children.len() && 0 <= j && (#[trigger] self.children[j]).1.model().contains_key(
                            k,
                        );
                    assert(k[path.len() as int] == self.children[j].0);
                    lemma_prefix_index(path.push(b), k, path.len() as int);
                    assert(self.children[j].0 == b);
                    assert(j == i);
                }
                assert(c.model() =~= restrict_prefix(self.model(), path.push(b)));
                assert(c.model() == restrict_prefix(self.model(), path.push(b)));
                assert(c.wf_at(path.push(b)));
                assert(c.depth == self.depth + 1);
            },
            None => {
                assert forall|k: Seq<u8>| !(#[trigger] restrict_prefix(
                    self.model(),
                    path.push(b),
                ).contains_key(k)) by {
                    if self.model().contains_key(k) && path.push(b).is_prefix_of(k) {
                        assert(k.len() > path.len());
                        assert(k != path);
                        assert(self.model_from(0).contains_key(k));
                        let j = choose|j: int|
                            0 <= j < self.children.len() && 0 <= j && (#[trigger] self.children[j]).1.model().contains_key(
                                k,
                            );
                        assert(k[path.len() as int] == self.children[j].0);
                        lemma_prefix_index(path.push(b), k, path.len() as int);
                        assert(k[path.len() as int] == b);
                    }
                }
                assert(restrict_prefix(self.model(), path.push(b)) =~= Map::<Seq<u8>, V>::empty());
                assert(restrict_prefix(self.model(), path.push(b)) == Map::<Seq<u8>, V>::empty());
            },
        }
    }
}

/// The restriction of `m` to the keys that begin with `p`.
pub open spec fn restrict_prefix<V>(m: Map<Seq<u8>, V>, p: Seq<u8>) -> Map<Seq<u8>, V> {
    Map::new(|k: Seq<u8>| m.contains_key(k) && p.is_prefix_of(k), |k: Seq<u8>| m[k])
}

/// Being a prefix is transitive.
pub proof fn lemma_prefix_trans(a: Seq<u8>, b: Seq<u8>, k: Seq<u8>)
    requires
        a.is_prefix_of(b),
        b.is_prefix_of(k),
    ensures
        a.is_prefix_of(k),
{
    assert forall|x: int| 0 <= x < a.len() implies a[x] == k.subrange(0, a.len() as int)[x] by {
        lemma_prefix_index(a, b, x);
        lemma_prefix_index(b, k, x);
    }
    assert(a =~= k.subrange(0, a.len() as int));
}

/// Restricting twice, by a prefix and then by an extension of it, is
/// restricting once by the extension.
pub proof fn lemma_restrict_restrict<V>(m: Map<Seq<u8>, V>, a: Seq<u8>, b: Seq<u8>)
    requires
        a.is_prefix_of(b),
    ensures
        restrict_prefix(restrict_prefix(m, a), b) == restrict_prefix(m, b),
{
    assert forall|k: Seq<u8>|
        #[trigger] restrict_prefix(m, b).contains_key(k) implies restrict_prefix(
        restrict_prefix(m, a),
        b,
    ).contains_key(k) by {
        lemma_prefix_trans(a, b, k);
    }
    assert(restrict_prefix(restrict_prefix(m, a), b) =~= restrict_prefix(m, b));
}

impl<V> Node<V> {
    /// Membership and value of one key, read off the node: the key is
    /// either the node's own path or belongs to the child its next byte
    /// selects.
    pub(crate) proof fn lemma_model_lookup(self, path: Seq<u8>, k: Seq<u8>)
        requires
            self.wf_at(path),
        ensures
            self.model().contains_key(k) <==> ((k == path && self.leaf is Some) || (k.len()
                > path.len() && path.is_prefix_of(k) && (match self.child_with(
                k[path.len() as int],
            ) {
                Some(c) => c.model().contains_key(k),
                None => false,
            }))),
            self.model().contains_key(k) && k == path ==> (match self.leaf {
                Some(l) => self.model()[k] == l.val,
                None => true,
            }),
            self.model().contains_key(k) && k != path ==> (match self.child_with(
                k[path.len() as int],
            ) {
                Some(c) => self.model()[k] == c.model()[k],
                None => true,
            }),
    {
        self.lemma_wf_model(path);
        if k.len() > path.len() && path.is_prefix_of(k) {
            let b = k[path.len() as int];
            self.lemma_child_restrict(path, b);
            assert(path.push(b).is_prefix_of(k)) by {
                assert forall|x: int| 0 <= x < path.len() as int + 1 implies path.push(b)[x] == k.subrange(
                    0,
                    path.len() as int + 1,
                )[x] by {
                    if x < path.len() {
                        lemma_prefix_index(path, k, x);
                    }
                }
                assert(path.push(b) =~= k.subrange(0, path.len() as int + 1));
            }
        } else {
            if self.model().contains_key(k) && k != path {
                assert(path.is_prefix_of(k));
                assert(k.len() >= path.len());
                assert(k =~= path || k.len() > path.len()) by {
                    if k.len() == path.len() {
                        assert(path =~= k.subrange(0, path.len() as int));
                        assert(k.subrange(0, path.len() as int) =~= k);
                    }
                }
            }
        }
    }

    /// Descending along a whole prefix restricts the mapping to the keys
    /// that extend the path by that prefix.
    pub(crate) proof fn lemma_descend_restrict(self, path: Seq<u8>, p: Seq<u8>)
        requires
            self.wf_at(path),
        ensures
            (match self.descend(p) {
                Some(m) => {
                    &&& m.wf_at(path + p)
                    &&& m.model() == restrict_prefix(self.model(), path + p)
                    &&& m.depth == path.len() + p.len()
                },
                None => restrict_prefix(self.model(), path + p) == Map::<Seq<u8>, V>::empty(),
            }),
        decreases p.len(),
    {
        self.lemma_wf_model(path);
        if p.len() == 0 {
            assert(path + p =~= path);
            assert(self.model() =~= restrict_prefix(self.model(), path));
        } else {
            let b = p[0];
            self.lemma_child_restrict(path, b);
            assert(path.push(b).is_prefix_of(path + p)) by {
                assert forall|x: int| 0 <= x < path.len() as int + 1 implies path.push(b)[x] == (path
                    + p).subrange(0, path.len() as int + 1)[x] by {}
                assert(path.push(b) =~= (path + p).subrange(0, path.len() as int + 1));
            }
            match self.child_with(b) {
                None => {
                    assert forall|k: Seq<u8>| !(#[trigger] restrict_prefix(
                        self.model(),
                        path + p,
                    ).contains_key(k)) by {
                        if self.model().contains_key(k) && (path + p).is_prefix_of(k) {
                            lemma_prefix_trans(path.push(b), path + p, k);
                            assert(restrict_prefix(self.model(), path.push(b)).contains_key(k));
                        }
                    }
                    assert(restrict_prefix(self.model(), path + p) =~= Map::<Seq<u8>, V>::empty());
                    assert(restrict_prefix(self.model(), path + p) == Map::<Seq<u8>, V>::empty());
                },
                Some(c) => {
                    c.lemma_descend_restrict(path.push(b), p.skip(1));
                    assert(path.push(b) + p.skip(1) =~= path + p);
                    lemma_restrict_restrict(self.model(), path.push(b), path + p);
                    match c.descend(p.skip(1)) {
                        Some(m) => {
                            assert(m.model() == restrict_prefix(
                                restrict_prefix(self.model(), path.push(b)),
                                path + p,
                            ));
                        },
                        None => {
                            assert(restrict_prefix(self.model(), path + p) == restrict_prefix(
                                restrict_prefix(self.model(), path.push(b)),
                                path + p,
                            ));
                        },
                    }
                },
            }
        }
    }
}

/// Whether two byte strings hold the same bytes.
pub(crate) fn bytes_eq(a: &[u8], b: &[u8]) -> (r: bool)
    ensures
        r <==> a@ == b@,
{
    if a.len() != b.len() {
        return false;
    }
    let mut i: usize = 0;
    while i < a.len()
        invariant
            i <= a@.len(),
            a@.len() == b@.len(),
            forall|x: int| 0 <= x < i ==> a@[x] == b@[x],
        decreases a@.len() - i,
    {
        if a[i] != b[i] {
            return false;
        }
        i = i + 1;
    }
    proof {
        assert(a@ =~= b@);
    }
    true
}

impl<V> Node<V> {
    /// The distinct labels of a well-formed node's children make the label
    /// pick its child.
    pub(crate) proof fn lemma_labels_unique(self, path: Seq<u8>)
        requires
            self.wf_at(path),
        ensures
            forall|i: int, j: int|
                (0 <= i < self.children.len() && 0 <= j < self.children.len()
                    && (#[trigger] self.children[i]).0 == (#[trigger] self.children[j]).0) ==> i
                    == j,
    {
        assert forall|i: int, j: int|
            (0 <= i < self.children.len() && 0 <= j < self.children.len()
                && (#[trigger] self.children[i]).0 == (#[trigger] self.children[j]).0) implies i
            == j by {
            if i < j {
                assert(self.children[i].0 < self.children[j].0);
            }
            if j < i {
                assert(self.children[j].0 < self.children[i].0);
            }
        }
    }
}

/// The child of `n` labelled `b`, if there is one.
pub(crate) fn find_child<'a, V>(n: &'a Node<V>, b: u8, Ghost(path): Ghost<Seq<u8>>) -> (r: Option<
    &'a Node<V>,
>)
    requires
        n.wf_at(path),
    ensures
        (match r {
            Some(c) => n.child_with(b) == Some(*c),
            None => n.child_with(b) is None,
        }),
{
    proof {
        n.lemma_labels_unique(path);
    }
    let mut i: usize = 0;
    while i < n.children.len()
        invariant
            i <= n.children.len(),
            forall|x: int| 0 <= x < i ==> (#[trigger] n.children[x]).0 != b,
            n.wf_at(path),
            forall|x: int, y: int|
                (0 <= x < n.children.len() && 0 <= y < n.children.len()
                    && (#[trigger] n.children[x]).0 == (#[trigger] n.children[y]).0) ==> x == y,
        decreases n.children.len() - i,
    {
        if n.children[i].0 == b {
            let c = &n.children[i].1;
            proof {
                let w = choose|w: int|
                    0 <= w < n.children.len() && (#[trigger] n.children[w]).0 == b;
                assert(w == i);
            }
            return Some(c);
        }
        i = i + 1;
    }
    None
}

/// The value stored at exactly `key` in the subtree of `n`, a node whose
/// path is `path`.
pub(crate) fn node_get<'a, V>(n: &'a Node<V>, key: &[u8], Ghost(path): Ghost<Seq<u8>>) -> (r:
    Option<&'a V>)
    requires
        n.wf_at(path),
    ensures
        r == (if n.model().contains_key(key@) {
            Some(&n.model()[key@])
        } else {
            None::<&'a V>
        }),
    decreases key@.len() - n.depth,
{
    proof {
        n.lemma_wf_model(path);
        n.lemma_model_lookup(path, key@);
    }
    if key.len() == n.depth {
        match &n.leaf {
            Some(l) => {
                if bytes_eq(l.key.as_slice(), key) {
                    Some(&l.val)
                } else {
                    proof {
                        if n.model().contains_key(key@) {
                            assert(path.is_prefix_of(key@));
                            assert(path =~= key@.subrange(0, path.len() as int));
                            assert(key@.subrange(0, path.len() as int) =~= key@);
                        }
                    }
                    None
                }
            },
            None => {
                proof {
                    if n.model().contains_key(key@) {
                        assert(path.is_prefix_of(key@));
                        assert(path =~= key@.subrange(0, path.len() as int));
                        assert(key@.subrange(0, path.len() as int) =~= key@);
                    }
                }
                None
            },
        }
    } else if key.len() > n.depth {
        let b = key[n.depth];
        match find_child(n, b, Ghost(path)) {
            Some(c) => {
                proof {
                    n.lemma_child_restrict(path, b);
                }
                node_get(c, key, Ghost(path.push(b)))
            },
            None => None,
        }
    } else {
        None
    }
}

/// The node reached by following `prefix[i..]` downward from `n`, a node
/// whose path is `path`.
pub(crate) fn node_descend<'a, V>(
    n: &'a Node<V>,
    prefix: &[u8],
    i: usize,
    Ghost(path): Ghost<Seq<u8>>,
) -> (r: Option<&'a Node<V>>)
    requires
        n.wf_at(path),
        i <= prefix@.len(),
    ensures
        (match r {
            Some(m) => n.descend(prefix@.skip(i as int)) == Some(*m),
            None => n.descend(prefix@.skip(i as int)) is None,
        }),
    decreases prefix@.len() - i,
{
    if i == prefix.len() {
        proof {
            assert(prefix@.skip(i as int) =~= Seq::<u8>::empty());
        }
        Some(n)
    } else {
        let b = prefix[i];
        proof {
            assert(prefix@.skip(i as int)[0] == b);
            assert(prefix@.skip(i as int).skip(1) =~= prefix@.skip(i as int + 1));
        }
        match find_child(n, b, Ghost(path)) {
            Some(c) => {
                proof {
                    n.lemma_child_restrict(path, b);
                }
                node_descend(c, prefix, i + 1, Ghost(path.push(b)))
            },
            None => None,
        }
    }
}

impl<V> Node<V> {
    /// The children's combined mapping only depends on the children.
    proof fn lemma_same_children_model_from(a: Node<V>, b: Node<V>, i: int)
        requires
            a.children == b.children,
            0 <= i,
        ensures
            a.model_from(i) == b.model_from(i),
        decreases a, 0int, a.children.len() - i,
    {
        if i < a.children.len() {
            Self::lemma_same_children_model_from(a, b, i + 1);
        }
    }
}

/// A fresh path of nodes holding `key[i..]`, ending in a leaf that
/// stores `key` and `val`.
pub(crate) fn make_chain<V>(key: &[u8], i: usize, val: V, Ghost(path): Ghost<Seq<u8>>) -> (r: Node<V>)
    requires
        i <= key@.len(),
        path == key@.subrange(0, i as int),
    ensures
        r.wf_at(path),
        r.model() == Map::<Seq<u8>, V>::empty().insert(key@, val),
        r.depth == i,
    decreases key@.len() - i,
{
    if i == key.len() {
        proof {
            assert(key@.subrange(0, i as int) =~= key@);
        }
        let l = Leaf { key: vstd::slice::slice_to_vec(key), val };
        let r = Node { depth: i, leaf: Some(l), children: Vec::new() };
        proof {
            assert(r.model_from(0) =~= Map::<Seq<u8>, V>::empty());
            assert(r.model() =~= Map::<Seq<u8>, V>::empty().insert(key@, val));
        }
        r
    } else {
        let b = key[i];
        proof {
            assert(path.push(b) =~= key@.subrange(0, i as int + 1));
        }
        let c = make_chain(key, i + 1, val, Ghost(key@.subrange(0, i as int + 1)));
        let mut children: Vec<(u8, Node<V>)> = Vec::new();
        children.push((b, c));
        let r = Node { depth: i, leaf: None, children };
        proof {
            assert(r.children[0].1.wf_at(path.push(r.children[0].0)));
            assert(r.model_from(1) =~= Map::<Seq<u8>, V>::empty());
            assert(r.model_from(0) =~= c.model());
            assert(r.model() =~= c.model());
            assert(r.model() == Map::<Seq<u8>, V>::empty().insert(key@, val));
        }
        r
    }
}

/// `n` with `val` stored at `key`; `n` stands at `path`, the first `i`
/// bytes of `key`.
pub(crate) fn node_insert<V>(
    n: Node<V>,
    key: &[u8],
    i: usize,
    val: V,
    Ghost(path): Ghost<Seq<u8>>,
) -> (r: Node<V>)
    requires
        n.wf_at(path),
        i == path.len(),
        i <= key@.len(),
        path == key@.subrange(0, i as int),
    ensures
        r.wf_at(path),
        r.model() == n.model().insert(key@, val),
        r.depth == n.depth,
    decreases key@.len() - i,
{
    proof {
        n.lemma_wf_model(path);
        n.lemma_model_from_char(0);
        n.lemma_labels_unique(path);
    }
    let ghost old_n = n;
    let Node { depth, leaf, mut children } = n;
    if i == key.len() {
        proof {
            assert(key@.subrange(0, i as int) =~= key@);
        }
        let l = Leaf { key: vstd::slice::slice_to_vec(key), val };
        let r = Node { depth, leaf: Some(l), children };
        proof {
            Node::<V>::lemma_same_children_model_from(r, old_n, 0);
            assert(!old_n.model_from(0).contains_key(path)) by {
                if old_n.model_from(0).contains_key(path) {
                    let j = choose|j: int|
                        0 <= j < old_n.children.len() && 0 <= j && (
                        #[trigger] old_n.children[j]).1.model().contains_key(path);
                    assert(path.len() > path.len());
                }
            }
            assert(r.model() =~= old_n.model().insert(key@, val));
            assert(r.model() == old_n.model().insert(key@, val));
        }
        r
    } else {
        let b = key[i];
        proof {
            assert(path.push(b) =~= key@.subrange(0, i as int + 1));
            assert(key@.subrange(0, i as int).is_prefix_of(key@)) by {
                assert(key@.subrange(0, i as int) =~= key@.subrange(0, key@.len() as int).subrange(
                    0,
                    i as int,
                ));
                assert(key@.subrange(0, path.len() as int) == key@.subrange(0, i as int));
            }
            assert(key@.len() > path.len());
            assert(key@[path.len() as int] == b);
        }
        let mut j: usize = 0;
        while j < children.len() && children[j].0 < b
            invariant
                j <= children.len(),
                forall|x: int| 0 <= x < j ==> (#[trigger] children[x]).0 < b,
                children == old_n.children,
            decreases children.len() - j,
        {
            j = j + 1;
        }
        if j < children.len() && children[j].0 == b {
            let (_, c) = children.remove(j);
            proof {
                assert(old_n.children[j as int].1 == c);
                assert(old_n.children[j as int].0 == b);
                assert(c.wf_at(path.push(b)));
                assert(path.push(b).len() == i + 1);
            }
            let c2 = node_insert(c, key, i + 1, val, Ghost(path.push(b)));
            children.insert(j, (b, c2));
            let r = Node { depth, leaf, children };
            proof {
                assert(r.children@ =~= old_n.children@.update(j as int, (b, c2)));
                lemma_insert_wf_and_model(old_n, r, path, j as int, b, key@, val, c, c2);
            }
            r
        } else {
            proof {
                assert forall|x: int| 0 <= x < old_n.children.len() implies (
                #[trigger] old_n.children[x]).0 != b by {
                    if x < j {
                        assert(old_n.children[x].0 < b);
                    } else {
                        if (j as int) < old_n.children.len() {
                            if x > j {
                                assert(old_n.children[j as int].0 < old_n.children[x].0);
                            }
                        }
                    }
                }
            }
            let c = make_chain(key, i + 1, val, Ghost(key@.subrange(0, i as int + 1)));
            children.insert(j, (b, c));
            let r = Node { depth, leaf, children };
            proof {
                assert(r.children@ =~= old_n.children@.insert(j as int, (b, c)));
                lemma_graft_wf_and_model(old_n, r, path, j as int, b, key@, val, c);
            }
            r
        }
    }
}

/// Replacing the child labelled `b` by one that holds the same keys plus
/// `key` turns the node's mapping into the old mapping plus `key`.
proof fn lemma_insert_wf_and_model<V>(
    old_n: Node<V>,
    r: Node<V>,
    path: Seq<u8>,
    j: int,
    b: u8,
    key: Seq<u8>,
    val: V,
    c: Node<V>,
    c2: Node<V>,
)
    requires
        old_n.wf_at(path),
        r.depth == old_n.depth,
        r.leaf == old_n.leaf,
        0 <= j < old_n.children.len(),
        old_n.children[j] == (b, c),
        r.children@ == old_n.children@.update(j, (b, c2)),
        c2.wf_at(path.push(b)),
        c2.model() == c.model().insert(key, val),
        key.len() > path.len(),
        path.is_prefix_of(key),
        key[path.len() as int] == b,
    ensures
        r.wf_at(path),
        r.model() == old_n.model().insert(key, val),
{
    old_n.lemma_labels_unique(path);
    assert forall|x: int| 0 <= x < r.children.len() implies (#[trigger] r.children[x]).0
        == old_n.children[x].0 by {}
    assert forall|x: int| 0 <= x < r.children.len() implies (#[trigger] r.children[x]).1.wf_at(
        path.push(r.children[x].0),
    ) by {
        if x != j {
            assert(r.children[x] == old_n.children[x]);
        }
    }
    assert(r.wf_at(path));
    r.lemma_labels_unique(path);
    assert(r.child_with(b) == Some(c2)) by {
        assert(r.children[j].0 == b);
        let w = choose|w: int| 0 <= w < r.children.len() && (#[trigger] r.children[w]).0 == b;
        assert(w == j);
    }
    assert(old_n.child_with(b) == Some(c)) by {
        let w = choose|w: int|
            0 <= w < old_n.children.len() && (#[trigger] old_n.children[w]).0 == b;
        assert(w == j);
    }
    assert forall|bb: u8| bb != b implies #[trigger] r.child_with(bb) == old_n.child_with(bb) by {
        if exists|x: int| 0 <= x < r.children.len() && (#[trigger] r.children[x]).0 == bb {
            let x = choose|x: int|
                0 <= x < r.children.len() && (#[trigger] r.children[x]).0 == bb;
            assert(old_n.children[x].0 == bb);
            let y = choose|y: int|
                0 <= y < old_n.children.len() && (#[trigger] old_n.children[y]).0 == bb;
            assert(y == x);
            assert(x != j);
            assert(r.children[x] == old_n.children[x]);
        } else {
            assert forall|y: int|
                0 <= y < old_n.children.len() implies (#[trigger] old_n.children[y]).0 != bb by {
                assert(r.children[y].0 == old_n.children[y].0);
            }
        }
    }
    assert forall|k: Seq<u8>| true implies (#[trigger] r.model().contains_key(k)
        == old_n.model().insert(key, val).contains_key(k)) && (r.model().contains_key(k)
        ==> r.model()[k] == old_n.model().insert(key, val)[k]) by {
        old_n.lemma_model_lookup(path, k);
        r.lemma_model_lookup(path, k);
        if k == key {
            assert(k != path);
            assert(r.model().contains_key(k));
            assert(r.model()[k] == c2.model()[k]);
        } else if k == path {
        } else if k.len() > path.len() && path.is_prefix_of(k) {
            let bb = k[path.len() as int];
            if bb == b {
                assert(c2.model().contains_key(k) == c.model().contains_key(k));
            }
        }
    }
    assert(r.model() =~= old_n.model().insert(key, val));
}

/// Adding a new child that holds only `key` turns the node's mapping
/// into the old mapping plus `key`.
proof fn lemma_graft_wf_and_model<V>(
    old_n: Node<V>,
    r: Node<V>,
    path: Seq<u8>,
    j: int,
    b: u8,
    key: Seq<u8>,
    val: V,
    c: Node<V>,
)
    requires
        old_n.wf_at(path),
        r.depth == old_n.depth,
        r.leaf == old_n.leaf,
        0 <= j <= old_n.children.len(),
        forall|x: int| 0 <= x < j ==> (#[trigger] old_n.children[x]).0 < b,
        j < old_n.children.len() ==> old_n.children[j].0 > b,
        r.children@ == old_n.children@.insert(j, (b, c)),
        c.wf_at(path.push(b)),
        c.model() == Map::<Seq<u8>, V>::empty().insert(key, val),
        key.len() > path.len(),
        path.is_prefix_of(key),
        key[path.len() as int] == b,
    ensures
        r.wf_at(path),
        r.model() == old_n.model().insert(key, val),
{
    old_n.lemma_labels_unique(path);
    assert forall|x: int| 0 <= x < old_n.children.len() implies (
    #[trigger] old_n.children[x]).0 != b by {
        if x >= j {
            if x > j {
                assert(old_n.children[j].0 < old_n.children[x].0);
            }
        }
    }
    assert(old_n.child_with(b) is None);
    // Positions of the new node's children: before, at, and after `j`.
    assert forall|x: int| 0 <= x < r.children.len() implies #[trigger] r.children[x] == (if x < j {
        old_n.children[x]
    } else if x == j {
        (b, c)
    } else {
        old_n.children[x - 1]
    }) by {}
    assert forall|x: int, y: int|
        0 <= x < y < r.children.len() implies (#[trigger] r.children[x]).0 < (
    #[trigger] r.children[y]).0 by {
        if y == j {
            assert(r.children[x].0 == old_n.children[x].0);
        } else if x == j && y > j {
            if y - 1 > j {
                assert(old_n.children[j].0 <= old_n.children[y - 1].0);
            }
        } else if x < j && y > j {
            assert(old_n.children[x].0 < b);
            if y - 1 == j {
                assert(old_n.children[y - 1].0 > b);
            } else {
                assert(old_n.children[j].0 < old_n.children[y - 1].0);
            }
        }
    }
    assert forall|x: int| 0 <= x < r.children.len() implies (#[trigger] r.children[x]).1.wf_at(
        path.push(r.children[x].0),
    ) by {}
    assert(r.wf_at(path));
    r.lemma_labels_unique(path);
    assert(r.child_with(b) == Some(c)) by {
        assert(r.children[j].0 == b);
        let w = choose|w: int| 0 <= w < r.children.len() && (#[trigger] r.children[w]).0 == b;
        assert(w == j);
    }
    assert forall|bb: u8| bb != b implies #[trigger] r.child_with(bb) == old_n.child_with(bb) by {
        if exists|x: int| 0 <= x < r.children.len() && (#[trigger] r.children[x]).0 == bb {
            let x = choose|x: int|
                0 <= x < r.children.len() && (#[trigger] r.children[x]).0 == bb;
            assert(x != j);
            let xo: int = if x < j {
                x
            } else {
                x - 1
            };
            assert(old_n.children[xo].0 == bb);
            let y = choose|y: int|
                0 <= y < old_n.children.len() && (#[trigger] old_n.children[y]).0 == bb;
            assert(y == xo);
            assert(old_n.child_with(bb) == Some(old_n.children[xo].1));
            assert(r.child_with(bb) == Some(r.children[x].1));
            assert(r.children[x].1 == old_n.children[xo].1);
        } else {
            assert forall|y: int|
                0 <= y < old_n.children.len() implies (#[trigger] old_n.children[y]).0 != bb by {
                let xr: int = if y < j {
                    y
                } else {
                    y + 1
                };
                assert(r.children[xr].0 == old_n.children[y].0);
            }
        }
    }
    assert forall|k: Seq<u8>| true implies (#[trigger] r.model().contains_key(k)
        == old_n.model().insert(key, val).contains_key(k)) && (r.model().contains_key(k)
        ==> r.model()[k] == old_n.model().insert(key, val)[k]) by {
        old_n.lemma_model_lookup(path, k);
        r.lemma_model_lookup(path, k);
        if k == key {
            assert(k != path);
            assert(c.model().contains_key(k));
            assert(r.model().contains_key(k));
            assert(r.model()[k] == c.model()[k]);
        } else if k == path {
        } else if k.len() > path.len() && path.is_prefix_of(k) {
            let bb = k[path.len() as int];
            if bb == b {
                assert(!c.model().contains_key(k));
                assert(!r.model().contains_key(k));
                assert(!old_n.model().contains_key(k));
            }
        }
    }
    assert(r.model() =~= old_n.model().insert(key, val));
}

impl<V> Node<V> {
    /// The number of nodes of the subtree, used as a traversal measure.
    pub closed spec fn size(self) -> nat
        decreases self, 1int, 0int,
    {
        1 + self.size_from(0)
    }

    /// The number of nodes of the children's subtrees from index `i` on.
    pub(crate) closed spec fn size_from(self, i: int) -> nat
        decreases self, 0int, self.children.len() - i,
    {
        if i < 0 || i >= self.children.len() {
            0
        } else {
            self.children[i].1.size() + self.size_from(i + 1)
        }
    }

    /// One unfolding step of `entries`, `entries_from` and the sizes, for
    /// use outside this module.
    pub(crate) proof fn lemma_step_decomp(self)
        ensures
            self.entries() == (match self.leaf {
                Some(l) => seq![(l.key@, l.val)],
                None => Seq::<(Seq<u8>, V)>::empty(),
            }) + self.entries_from(0),
            self.size() == 1 + self.size_from(0),
            forall|i: int|
                0 <= i < self.children.len() ==> #[trigger] self.entries_from(i)
                    == self.children[i].1.entries() + self.entries_from(i + 1),
            forall|i: int|
                i >= self.children.len() ==> #[trigger] self.entries_from(i) == Seq::<
                    (Seq<u8>, V),
                >::empty(),
            forall|i: int|
                0 <= i < self.children.len() ==> #[trigger] self.size_from(i)
                    == self.children[i].1.size() + self.size_from(i + 1),
            forall|i: int| i >= self.children.len() ==> #[trigger] self.size_from(i) == 0,
    {
        assert forall|i: int|
            0 <= i < self.children.len() implies #[trigger] self.entries_from(i)
            == self.children[i].1.entries() + self.entries_from(i + 1) by {}
        assert forall|i: int|
            i >= self.children.len() implies #[trigger] self.entries_from(i) == Seq::<
            (Seq<u8>, V),
        >::empty() by {}
        assert forall|i: int|
            0 <= i < self.children.len() implies #[trigger] self.size_from(i)
            == self.children[i].1.size() + self.size_from(i + 1) by {}
        assert forall|i: int| i >= self.children.len() implies #[trigger] self.size_from(i)
            == 0 by {}
    }
}

impl<V> Node<V> {
    /// Descending along a concatenation is descending along its parts.
    pub(crate) proof fn lemma_descend_compose(self, p: Seq<u8>, q: Seq<u8>)
        ensures
            self.descend(p + q) == (match self.descend(p) {
                Some(m) => m.descend(q),
                None => None::<Node<V>>,
            }),
        decreases p.len(),
    {
        if p.len() == 0 {
            assert(p + q =~= q);
            assert(self.descend(p) == Some(self));
        } else {
            assert((p + q)[0] == p[0]);
            assert((p + q).len() > 0);
            match self.child_with(p[0]) {
                Some(c) => {
                    assert((p + q).skip(1) =~= p.skip(1) + q);
                    c.lemma_descend_compose(p.skip(1), q);
                },
                None => {},
            }
        }
    }
}

/// A disjoint union of finite sets is as large as its parts together.
proof fn lemma_disjoint_union_len<A>(s1: Set<A>, s2: Set<A>)
    requires
        s1.finite(),
        s2.finite(),
        s1.disjoint(s2),
    ensures
        s1.union(s2).len() == s1.len() + s2.len(),
    decreases s1.len(),
{
    if s1.len() == 0 {
        assert(s1 =~= Set::empty());
        assert(s1.union(s2) =~= s2);
    } else {
        let a = s1.choose();
        assert(s1.contains(a));
        assert(s1.union(s2).remove(a) =~= s1.remove(a).union(s2));
        lemma_disjoint_union_len(s1.remove(a), s2);
        assert(s1.union(s2).contains(a));
    }
}

impl<V> Node<V> {
    /// The children's entries from index `i` on list the children's
    /// combined mapping exactly once each.
    proof fn lemma_entries_model_from(self, path: Seq<u8>, i: int)
        requires
            self.wf_at(path),
            0 <= i,
        ensures
            forall|t: int|
                0 <= t < self.entries_from(i).len() ==> self.model_from(i).contains_key(
                    (#[trigger] self.entries_from(i)[t]).0,
                ) && self.model_from(i)[self.entries_from(i)[t].0] == self.entries_from(i)[t].1,
            forall|t1: int, t2: int|
                0 <= t1 < t2 < self.entries_from(i).len() ==> (
                #[trigger] self.entries_from(i)[t1]).0 != (#[trigger] self.entries_from(i)[t2]).0,
            self.entries_from(i).len() == self.model_from(i).dom().len(),
            self.model_from(i).dom().finite(),
        decreases self, 0int, self.children.len() - i,
    {
        self.lemma_model_from_char(i);
        self.lemma_wf_model(path);
        if i >= self.children.len() {
            assert(self.model_from(i).dom() =~= Set::<Seq<u8>>::empty());
        } else {
            let b = self.children[i].0;
            let c = self.children[i].1;
            let cpath = path.push(b);
            c.lemma_entries_model(cpath);
            c.lemma_wf_model(cpath);
            self.lemma_entries_model_from(path, i + 1);
            self.lemma_model_from_char(i + 1);
            // The two parts are disjoint: keys of child `i` carry its label
            // where keys of the later children carry theirs.
            assert forall|k: Seq<u8>|
                #[trigger] self.model_from(i + 1).contains_key(k) implies !c.model().contains_key(
                k,
            ) by {
                if c.model().contains_key(k) {
                    let j = choose|j: int|
                        0 <= j < self.children.len() && i + 1 <= j && (
                        #[trigger] self.children[j]).1.model().contains_key(k);
                    assert(k[path.len() as int] == self.children[j].0);
                    assert(k[path.len() as int] == b);
                    assert(self.children[i].0 < self.children[j].0);
                }
            }
            assert(self.model_from(i).dom() =~= c.model().dom().union(
                self.model_from(i + 1).dom(),
            ));
            assert(c.model().dom().disjoint(self.model_from(i + 1).dom()));
            lemma_disjoint_union_len(c.model().dom(), self.model_from(i + 1).dom());
            assert(self.entries_from(i) == c.entries() + self.entries_from(i + 1));
            assert forall|t: int|
                0 <= t < self.entries_from(i).len() implies self.model_from(i).contains_key(
                (#[trigger] self.entries_from(i)[t]).0,
            ) && self.model_from(i)[self.entries_from(i)[t].0] == self.entries_from(i)[t].1 by {
                if t < c.entries().len() {
                    assert(self.entries_from(i)[t] == c.entries()[t]);
                    assert(c.model().contains_key(c.entries()[t].0));
                    assert(!self.model_from(i + 1).contains_key(c.entries()[t].0));
                } else {
                    let t2 = t - c.entries().len();
                    assert(self.entries_from(i)[t] == self.entries_from(i + 1)[t2]);
                    assert(self.model_from(i + 1).contains_key(self.entries_from(i + 1)[t2].0));
                }
            }
            assert forall|t1: int, t2: int|
                0 <= t1 < t2 < self.entries_from(i).len() implies (
            #[trigger] self.entries_from(i)[t1]).0 != (
            #[trigger] self.entries_from(i)[t2]).0 by {
                let n1 = c.entries().len() as int;
                if t1 < n1 && t2 >= n1 {
                    assert(self.entries_from(i)[t1] == c.entries()[t1]);
                    assert(self.entries_from(i)[t2] == self.entries_from(i + 1)[t2 - n1]);
                    assert(c.model().contains_key(c.entries()[t1].0));
                    assert(self.model_from(i + 1).contains_key(
                        self.entries_from(i + 1)[t2 - n1].0,
                    ));
                } else if t1 < n1 && t2 < n1 {
                    assert(self.entries_from(i)[t1] == c.entries()[t1]);
                    assert(self.entries_from(i)[t2] == c.entries()[t2]);
                } else {
                    assert(self.entries_from(i)[t1] == self.entries_from(i + 1)[t1 - n1]);
                    assert(self.entries_from(i)[t2] == self.entries_from(i + 1)[t2 - n1]);
                }
            }
        }
    }

    /// The entries list the subtree's mapping exactly once each: same
    /// keys, same values, no repetition, one entry per key.
    pub(crate) proof fn lemma_entries_model(self, path: Seq<u8>)
        requires
            self.wf_at(path),
        ensures
            forall|t: int|
                0 <= t < self.entries().len() ==> self.model().contains_key(
                    (#[trigger] self.entries()[t]).0,
                ) && self.model()[self.entries()[t].0] == self.entries()[t].1,
            forall|t1: int, t2: int|
                0 <= t1 < t2 < self.entries().len() ==> (#[trigger] self.entries()[t1]).0 != (
                #[trigger] self.entries()[t2]).0,
            self.entries().len() == self.model().dom().len(),
        decreases self, 1int, 0int,
    {
        self.lemma_wf_model(path);
        self.lemma_model_from_char(0);
        self.lemma_entries_model_from(path, 0);
        let own_e = (match self.leaf {
            Some(l) => seq![(l.key@, l.val)],
            None => Seq::<(Seq<u8>, V)>::empty(),
        });
        assert(self.entries() == own_e + self.entries_from(0));
        assert(!self.model_from(0).contains_key(path));
        match self.leaf {
            Some(l) => {
                assert(self.model().dom() =~= self.model_from(0).dom().insert(path));
                assert(self.model().dom().len() == self.model_from(0).dom().len() + 1);
                assert forall|t: int|
                    0 <= t < self.entries().len() implies self.model().contains_key(
                    (#[trigger] self.entries()[t]).0,
                ) && self.model()[self.entries()[t].0] == self.entries()[t].1 by {
                    if t == 0 {
                        assert(self.entries()[0] == (l.key@, l.val));
                    } else {
                        assert(self.entries()[t] == self.entries_from(0)[t - 1]);
                        assert(self.model_from(0).contains_key(self.entries_from(0)[t - 1].0));
                    }
                }
                assert forall|t1: int, t2: int|
                    0 <= t1 < t2 < self.entries().len() implies (
                #[trigger] self.entries()[t1]).0 != (#[trigger] self.entries()[t2]).0 by {
                    if t1 == 0 {
                        assert(self.entries()[t2] == self.entries_from(0)[t2 - 1]);
                        assert(self.model_from(0).contains_key(self.entries_from(0)[t2 - 1].0));
                    } else {
                        assert(self.entries()[t1] == self.entries_from(0)[t1 - 1]);
                        assert(self.entries()[t2] == self.entries_from(0)[t2 - 1]);
                    }
                }
            },
            None => {
                assert(self.model().dom() =~= self.model_from(0).dom());
                assert forall|t: int|
                    0 <= t < self.entries().len() implies self.model().contains_key(
                    (#[trigger] self.entries()[t]).0,
                ) && self.model()[self.entries()[t].0] == self.entries()[t].1 by {
                    assert(self.entries()[t] == self.entries_from(0)[t]);
                }
                assert forall|t1: int, t2: int|
                    0 <= t1 < t2 < self.entries().len() implies (
                #[trigger] self.entries()[t1]).0 != (#[trigger] self.entries()[t2]).0 by {
                    assert(self.entries()[t1] == self.entries_from(0)[t1]);
                    assert(self.entries()[t2] == self.entries_from(0)[t2]);
                }
            },
        }
    }
}

/// Strict byte-lexicographic order: the trie's canonical key order.
pub open spec fn lex_lt(a: Seq<u8>, b: Seq<u8>) -> bool
    decreases a.len(),
{
    if b.len() == 0 {
        false
    } else if a.len() == 0 {
        true
    } else if a[0] != b[0] {
        a[0] < b[0]
    } else {
        lex_lt(a.skip(1), b.skip(1))
    }
}

/// A proper prefix comes first in lexicographic order.
pub proof fn lemma_lex_prefix(a: Seq<u8>, b: Seq<u8>)
    requires
        a.is_prefix_of(b),
        a.len() < b.len(),
    ensures
        lex_lt(a, b),
    decreases a.len(),
{
    if a.len() == 0 {
    } else {
        lemma_prefix_index(a, b, 0);
        assert(a.skip(1).is_prefix_of(b.skip(1))) by {
            assert forall|x: int| 0 <= x < a.len() - 1 implies a.skip(1)[x] == b.skip(1).subrange(
                0,
                a.len() - 1,
            )[x] by {
                lemma_prefix_index(a, b, x + 1);
            }
            assert(a.skip(1) =~= b.skip(1).subrange(0, a.len() - 1));
        }
        lemma_lex_prefix(a.skip(1), b.skip(1));
    }
}

/// Sequences that agree up to a position and differ there order by the
/// bytes at that position.
pub proof fn lemma_lex_diff(a: Seq<u8>, b: Seq<u8>, d: int)
    requires
        0 <= d < a.len(),
        d < b.len(),
        a.subrange(0, d) == b.subrange(0, d),
        a[d] < b[d],
    ensures
        lex_lt(a, b),
    decreases d,
{
    if d == 0 {
    } else {
        assert(a[0] == b[0]) by {
            assert(a.subrange(0, d)[0] == a[0]);
            assert(b.subrange(0, d)[0] == b[0]);
        }
        assert(a.skip(1).subrange(0, d - 1) == b.skip(1).subrange(0, d - 1)) by {
            assert forall|x: int| 0 <= x < d - 1 implies #[trigger] a.skip(1).subrange(
                0,
                d - 1,
            )[x] == b.skip(1).subrange(0, d - 1)[x] by {
                assert(a.subrange(0, d)[x + 1] == a[x + 1]);
                assert(b.subrange(0, d)[x + 1] == b[x + 1]);
            }
            assert(a.skip(1).subrange(0, d - 1) =~= b.skip(1).subrange(0, d - 1));
        }
        assert(a.skip(1)[d - 1] == a[d] && b.skip(1)[d - 1] == b[d]);
        lemma_lex_diff(a.skip(1), b.skip(1), d - 1);
    }
}

impl<V> Node<V> {
    /// The children's entries from index `i` on carry strictly increasing
    /// keys.
    proof fn lemma_entries_from_sorted(self, path: Seq<u8>, i: int)
        requires
            self.wf_at(path),
            0 <= i,
        ensures
            forall|t1: int, t2: int|
                0 <= t1 < t2 < self.entries_from(i).len() ==> lex_lt(
                    (#[trigger] self.entries_from(i)[t1]).0,
                    (#[trigger] self.entries_from(i)[t2]).0,
                ),
        decreases self, 0int, self.children.len() - i,
    {
        self.lemma_wf_model(path);
        self.lemma_entries_model_from(path, i);
        if i >= self.children.len() {
        } else {
            let b = self.children[i].0;
            let c = self.children[i].1;
            let cpath = path.push(b);
            c.lemma_entries_sorted(cpath);
            c.lemma_entries_model(cpath);
            c.lemma_wf_model(cpath);
            self.lemma_entries_from_sorted(path, i + 1);
            self.lemma_entries_model_from(path, i + 1);
            self.lemma_model_from_char(i + 1);
            let n1 = c.entries().len() as int;
            assert(path.is_prefix_of(cpath)) by {
                assert(path =~= cpath.subrange(0, path.len() as int));
            }
            assert forall|t1: int, t2: int|
                0 <= t1 < t2 < self.entries_from(i).len() implies lex_lt(
                (#[trigger] self.entries_from(i)[t1]).0,
                (#[trigger] self.entries_from(i)[t2]).0,
            ) by {
                if t2 < n1 {
                    assert(self.entries_from(i)[t1] == c.entries()[t1]);
                    assert(self.entries_from(i)[t2] == c.entries()[t2]);
                } else if t1 >= n1 {
                    assert(self.entries_from(i)[t1] == self.entries_from(i + 1)[t1 - n1]);
                    assert(self.entries_from(i)[t2] == self.entries_from(i + 1)[t2 - n1]);
                } else {
                    let k1 = self.entries_from(i)[t1].0;
                    let k2 = self.entries_from(i)[t2].0;
                    assert(self.entries_from(i)[t1] == c.entries()[t1]);
                    assert(self.entries_from(i)[t2] == self.entries_from(i + 1)[t2 - n1]);
                    assert(c.model().contains_key(k1));
                    assert(cpath.is_prefix_of(k1));
                    assert(self.model_from(i + 1).contains_key(k2));
                    let j = choose|j: int|
                        0 <= j < self.children.len() && i + 1 <= j && (
                        #[trigger] self.children[j]).1.model().contains_key(k2);
                    assert(k2[path.len() as int] == self.children[j].0);
                    assert(b < self.children[j].0);
                    lemma_prefix_index(cpath, k1, path.len() as int);
                    assert(k1[path.len() as int] == b);
                    let d = path.len() as int;
                    assert(k1.subrange(0, d) == k2.subrange(0, d)) by {
                        lemma_prefix_trans(path, cpath, k1);
                        assert(path.is_prefix_of(k2));
                        assert(path =~= k1.subrange(0, d));
                        assert(path =~= k2.subrange(0, d));
                    }
                    lemma_lex_diff(k1, k2, d);
                }
            }
        }
    }

    /// The subtree's entries carry strictly increasing keys: the node's
    /// own key is a proper prefix of every deeper key, and the children
    /// follow one another by their labels.
    pub(crate) proof fn lemma_entries_sorted(self, path: Seq<u8>)
        requires
            self.wf_at(path),
        ensures
            forall|t1: int, t2: int|
                0 <= t1 < t2 < self.entries().len() ==> lex_lt(
                    (#[trigger] self.entries()[t1]).0,
                    (#[trigger] self.entries()[t2]).0,
                ),
        decreases self, 1int, 0int,
    {
        self.lemma_wf_model(path);
        self.lemma_entries_model_from(path, 0);
        self.lemma_model_from_char(0);
        self.lemma_entries_from_sorted(path, 0);
        let own_e = (match self.leaf {
            Some(l) => seq![(l.key@, l.val)],
            None => Seq::<(Seq<u8>, V)>::empty(),
        });
        assert(self.entries() == own_e + self.entries_from(0));
        assert forall|t1: int, t2: int|
            0 <= t1 < t2 < self.entries().len() implies lex_lt(
            (#[trigger] self.entries()[t1]).0,
            (#[trigger] self.entries()[t2]).0,
        ) by {
            let o = own_e.len() as int;
            if t1 >= o {
                assert(self.entries()[t1] == self.entries_from(0)[t1 - o]);
                assert(self.entries()[t2] == self.entries_from(0)[t2 - o]);
            } else {
                let l = self.leaf.unwrap();
                assert(self.entries()[t1] == (l.key@, l.val));
                let k2 = self.entries()[t2].0;
                assert(self.entries()[t2] == self.entries_from(0)[t2 - o]);
                assert(self.model_from(0).contains_key(k2));
                let j = choose|j: int|
                    0 <= j < self.children.len() && 0 <= j && (
                    #[trigger] self.children[j]).1.model().contains_key(k2);
                assert(path.push(self.children[j].0).is_prefix_of(k2));
                assert(path.is_prefix_of(k2)) by {
                    lemma_prefix_trans(path, path.push(self.children[j].0), k2);
                    assert(path =~= path.push(self.children[j].0).subrange(0, path.len() as int));
                }
                assert(k2.len() > path.len());
                lemma_lex_prefix(path, k2);
            }
        }
    }
}

} // verus!
