use vstd::prelude::*;
use vstd::string::StringExecFns;
use vstd::string::StringSliceAdditionalSpecFns;

use crate::iter::Iter;
use crate::node::Node;
use crate::node::node_descend;
use crate::node::node_get;
use crate::node::restrict_prefix;

verus! {

/// A read-only window into a subtree of a trie, identified by the prefix
/// it stands at.  A view borrows the trie's nodes and never copies keys,
/// values or structure; any number of views may look at one trie at once.
/// An unbound view stands for the empty mapping.
pub struct SubTrie<'a, V> {
    pub(crate) root: Option<&'a Node<V>>,
    pub(crate) scope: Ghost<Seq<u8>>,
}

impl<'a, V> SubTrie<'a, V> {
    /// Validity of the view: a bound root is a well-formed node standing
    /// at the view's scope.  Every view this crate hands out satisfies it.
    pub closed spec fn wf(self) -> bool {
        match self.root {
            Some(n) => n.wf_at(self.scope@),
            None => true,
        }
    }

    /// The bytes between the backing trie's root and this view's root.
    pub closed spec fn scope(self) -> Seq<u8> {
        self.scope@
    }

    /// The node the view is bound to, if any.
    pub closed spec fn root_spec(self) -> Option<Node<V>> {
        match self.root {
            Some(n) => Some(*n),
            None => None,
        }
    }

    /// The view's pairs in traversal order: full keys with their values.
    pub closed spec fn entry_seq(self) -> Seq<(Seq<u8>, V)> {
        match self.root {
            Some(n) => n.entries(),
            None => Seq::empty(),
        }
    }

    /// The node reached by following `p` downward from this view's root.
    pub closed spec fn descend_spec(self, p: Seq<u8>) -> Option<Node<V>> {
        match self.root {
            Some(n) => n.descend(p),
            None => None,
        }
    }

    /// A view bound to `root`, standing at `scope`.
    pub(crate) fn from_root(root: Option<&'a Node<V>>, Ghost(scope): Ghost<Seq<u8>>) -> (v:
        SubTrie<'a, V>)
        requires
            (match root {
                Some(n) => n.wf_at(scope),
                None => true,
            }),
        ensures
            v.wf(),
            v.scope() == scope,
            v.root_spec() == (match root {
                Some(n) => Some(*n),
                None => None::<Node<V>>,
            }),
            v@ == (match root {
                Some(n) => n.model(),
                None => Map::<Seq<u8>, V>::empty(),
            }),
    {
        SubTrie { root, scope: Ghost(scope) }
    }

    /// True exactly when the view holds no pair at all.
    pub fn is_empty(&self) -> (r: bool)
        requires
            self.wf(),
        ensures
            r <==> self@ == Map::<Seq<u8>, V>::empty(),
    {
        let r = self.root.is_none();
        proof {
            match self.root {
                Some(n) => {
                    n.lemma_wf_model(self.scope@);
                    let k = choose|k: Seq<u8>| n.model().contains_key(k);
                    assert(self@.contains_key(k));
                },
                None => {
                    assert(self@ =~= Map::<Seq<u8>, V>::empty());
                },
            }
        }
        r
    }

    /// A fresh traversal of every pair under this view, in the trie's
    /// canonical (byte-lexicographic) key order.  Calling it again starts
    /// over from the beginning.
    pub fn iter(&self) -> (it: Iter<'a, V>)
        requires
            self.wf(),
        ensures
            it.remaining() == self.entry_seq(),
    {
        match self.root {
            Some(n) => Iter::from_node(n),
            None => Iter::default(),
        }
    }

    /// Consuming the view yields the same traversal as one `iter` call.
    pub fn into_iter(self) -> (it: Iter<'a, V>)
        requires
            self.wf(),
        ensures
            it.remaining() == self.entry_seq(),
    {
        match self.root {
            Some(n) => Iter::from_node(n),
            None => Iter::default(),
        }
    }

    /// The independent view of the subtree reached by following `prefix`
    /// from this view's root, or the empty view when no such subtree
    /// exists (in particular when this view is itself empty).
    pub fn subtrie(&self, prefix: &[u8]) -> (r: SubTrie<'a, V>)
        requires
            self.wf(),
        ensures
            r.wf(),
            r.scope() == self.scope() + prefix@,
            r.root_spec() == self.descend_spec(prefix@),
            r@ == restrict_prefix(self@, self.scope() + prefix@),
            r@ == Map::<Seq<u8>, V>::empty() <==> r.root_spec() is None,
    {
        match self.root {
            Some(n) => {
                let sub = node_descend(n, prefix, 0, Ghost(self.scope@));
                proof {
                    assert(prefix@.skip(0) =~= prefix@);
                    n.lemma_descend_restrict(self.scope@, prefix@);
                    match n.descend(prefix@) {
                        Some(m) => {
                            m.lemma_wf_model(self.scope@ + prefix@);
                            let k = choose|k: Seq<u8>| m.model().contains_key(k);
                            assert(m.model().contains_key(k));
                        },
                        None => {},
                    }
                }
                SubTrie { root: sub, scope: Ghost(self.scope@ + prefix@) }
            },
            None => {
                proof {
                    assert(restrict_prefix(self@, self.scope@ + prefix@) =~= Map::<
                        Seq<u8>,
                        V,
                    >::empty());
                }
                SubTrie { root: None, scope: Ghost(self.scope@ + prefix@) }
            },
        }
    }

    /// A one-shot traversal of the subtree reached by following `prefix`,
    /// empty when no such subtree exists.  The view itself is unchanged.
    pub fn iter_prefix(&self, prefix: &[u8]) -> (it: Iter<'a, V>)
        requires
            self.wf(),
        ensures
            it.remaining() == (match self.descend_spec(prefix@) {
                Some(m) => m.entries(),
                None => Seq::<(Seq<u8>, V)>::empty(),
            }),
    {
        let sub = self.subtrie(prefix);
        sub.iter()
    }

    /// The value stored at exactly `key`, if any.  Keys are always full
    /// keys, not relative to the view's prefix.
    pub fn get(&self, key: &[u8]) -> (r: Option<&'a V>)
        requires
            self.wf(),
        ensures
            r == (if self@.contains_key(key@) {
                Some(&self@[key@])
            } else {
                None::<&'a V>
            }),
    {
        match self.root {
            Some(n) => node_get(n, key, Ghost(self.scope@)),
            None => None,
        }
    }

    /// Asserting access: the value at `key`, which the caller vouches is
    /// present.  An absent key is a caller error, not a recoverable
    /// condition; unverified callers that cannot vouch must use `get`.
    pub fn index(&self, key: &[u8]) -> (r: &'a V)
        requires
            self.wf(),
            self@.contains_key(key@),
        ensures
            *r == self@[key@],
    {
        self.get(key).unwrap()
    }

    /// `get` with an ordinary text key, read as its bytes.
    pub fn get_str(&self, key: &str) -> (r: Option<&'a V>)
        requires
            self.wf(),
        ensures
            r == (if self@.contains_key(key.spec_bytes()) {
                Some(&self@[key.spec_bytes()])
            } else {
                None::<&'a V>
            }),
    {
        self.get(key.as_bytes())
    }

    /// `subtrie` with an ordinary text prefix, read as its bytes.
    pub fn subtrie_str(&self, prefix: &str) -> (r: SubTrie<'a, V>)
        requires
            self.wf(),
        ensures
            r.wf(),
            r.scope() == self.scope() + prefix.spec_bytes(),
            r.root_spec() == self.descend_spec(prefix.spec_bytes()),
            r@ == restrict_prefix(self@, self.scope() + prefix.spec_bytes()),
            r@ == Map::<Seq<u8>, V>::empty() <==> r.root_spec() is None,
    {
        self.subtrie(prefix.as_bytes())
    }
}

/// The text of the pairs whose key texts are `ks` and value texts are
/// `vs`, written as the inside of a mapping literal in order.
pub open spec fn render_entries(ks: Seq<Seq<char>>, vs: Seq<Seq<char>>) -> Seq<char>
    decreases ks.len(),
{
    if ks.len() == 0 || ks.len() != vs.len() {
        Seq::empty()
    } else {
        render_entries(ks.drop_last(), vs.drop_last()) + (if ks.len() > 1 {
            (", ")@
        } else {
            Seq::<char>::empty()
        }) + ks.last() + (": ")@ + vs.last()
    }
}

/// Whether `text` is an output the key-rendering function `fk` admits
/// for the key `key`.
pub open spec fn admits_key_text<FK: Fn(&Vec<u8>) -> String>(
    fk: FK,
    key: Seq<u8>,
    text: Seq<char>,
) -> bool {
    exists|kx: &Vec<u8>, sx: String|
        #![trigger fk.ensures((kx,), sx)]
        kx@ == key && sx@ == text && fk.ensures((kx,), sx)
}

/// Whether `text` is an output the value-rendering function `fv` admits
/// for the value `val`.
pub open spec fn admits_value_text<V, FV: Fn(&V) -> String>(fv: FV, val: V, text: Seq<char>) -> bool {
    exists|vx: &V, sx: String|
        #![trigger fv.ensures((vx,), sx)]
        *vx == val && sx@ == text && fv.ensures((vx,), sx)
}

/// Whether `ks` and `vs` are texts the rendering functions `fk` and `fv`
/// admit for the keys and values of `es`, position by position.
pub open spec fn admitted_rendering<V, FK: Fn(&Vec<u8>) -> String, FV: Fn(&V) -> String>(
    fk: FK,
    fv: FV,
    es: Seq<(Seq<u8>, V)>,
    ks: Seq<Seq<char>>,
    vs: Seq<Seq<char>>,
) -> bool {
    &&& ks.len() == es.len()
    &&& vs.len() == es.len()
    &&& (forall|t: int|
        0 <= t < ks.len() ==> admits_key_text(fk, (#[trigger] es[t]).0, ks[t]))
    &&& (forall|t: int|
        0 <= t < vs.len() ==> admits_value_text(fv, (#[trigger] es[t]).1, vs[t]))
}

/// Position-by-position witnesses admit the rendering: packaging the
/// yielded references and produced texts into `admitted_rendering`.
proof fn lemma_witnesses_admit<V, FK: Fn(&Vec<u8>) -> String, FV: Fn(&V) -> String>(
    fk: FK,
    fv: FV,
    es: Seq<(Seq<u8>, V)>,
    ks: Seq<Seq<char>>,
    vs: Seq<Seq<char>>,
    kws: Seq<&Vec<u8>>,
    kss: Seq<String>,
    vws: Seq<&V>,
    vss: Seq<String>,
)
    requires
        ks.len() == es.len(),
        vs.len() == es.len(),
        kws.len() == es.len(),
        kss.len() == es.len(),
        vws.len() == es.len(),
        vss.len() == es.len(),
        forall|t: int| #![trigger kws[t]] 0 <= t < es.len() ==> kws[t]@ == es[t].0,
        forall|t: int| #![trigger kss[t]] 0 <= t < es.len() ==> kss[t]@ == ks[t],
        forall|t: int| #![trigger kws[t]] 0 <= t < es.len() ==> fk.ensures((kws[t],), kss[t]),
        forall|t: int| #![trigger vws[t]] 0 <= t < es.len() ==> *vws[t] == es[t].1,
        forall|t: int| #![trigger vss[t]] 0 <= t < es.len() ==> vss[t]@ == vs[t],
        forall|t: int| #![trigger vws[t]] 0 <= t < es.len() ==> fv.ensures((vws[t],), vss[t]),
    ensures
        admitted_rendering(fk, fv, es, ks, vs),
{
    assert forall|t: int| 0 <= t < ks.len() implies admits_key_text(
        fk,
        (#[trigger] es[t]).0,
        ks[t],
    ) by {
        assert(kws[t]@ == es[t].0 && kss[t]@ == ks[t] && fk.ensures((kws[t],), kss[t]));
        assert(admits_key_text(fk, es[t].0, ks[t]));
    }
    assert forall|t: int| 0 <= t < vs.len() implies admits_value_text(
        fv,
        (#[trigger] es[t]).1,
        vs[t],
    ) by {
        assert(*(vws[t]) == es[t].1 && vss[t]@ == vs[t] && fv.ensures((vws[t],), vss[t]));
        assert(admits_value_text(fv, es[t].1, vs[t]));
    }
}

impl<'a, V> SubTrie<'a, V> {
    /// The view written as a mapping literal for inspection: one item per
    /// pair, in traversal order, each key and value rendered by the given
    /// functions applied to that very pair.  Diagnostic only; an empty
    /// view renders as the empty mapping.
    #[verifier::rlimit(100)]
    pub fn debug_render<FK: Fn(&Vec<u8>) -> String, FV: Fn(&V) -> String>(
        &self,
        fk: FK,
        fv: FV,
    ) -> (s: String)
        requires
            self.wf(),
            forall|k: &Vec<u8>| fk.requires((k,)),
            forall|v: &V| fv.requires((v,)),
        ensures
            (exists|ks: Seq<Seq<char>>, vs: Seq<Seq<char>>|
                #![trigger render_entries(ks, vs)]
                admitted_rendering(fk, fv, self.entry_seq(), ks, vs) && s@ == ("{")@
                    + render_entries(ks, vs) + ("}")@),
            self.entry_seq().len() == 0 ==> s@ == ("{}")@,
    {
        let mut it = self.iter();
        let mut out = String::from_str("{");
        let ghost mut ks: Seq<Seq<char>> = Seq::empty();
        let ghost mut vs: Seq<Seq<char>> = Seq::empty();
        let ghost mut kws: Seq<&'a Vec<u8>> = Seq::empty();
        let ghost mut kss: Seq<String> = Seq::empty();
        let ghost mut vws: Seq<&'a V> = Seq::empty();
        let ghost mut vss: Seq<String> = Seq::empty();
        let mut first: bool = true;
        proof {
            assert(render_entries(ks, vs) =~= Seq::<char>::empty());
            assert(out@ =~= ("{")@ + render_entries(ks, vs));
            assert(it.remaining() =~= self.entry_seq().skip(0));
        }
        loop
            invariant
                self.wf(),
                forall|k: &Vec<u8>| fk.requires((k,)),
                forall|v: &V| fv.requires((v,)),
                ks.len() == vs.len(),
                kws.len() == ks.len(),
                kss.len() == ks.len(),
                vws.len() == ks.len(),
                vss.len() == ks.len(),
                ks.len() <= self.entry_seq().len(),
                it.remaining() == self.entry_seq().skip(ks.len() as int),
                out@ == ("{")@ + render_entries(ks, vs),
                first <==> ks.len() == 0,
                forall|t: int| #![trigger kws[t]]
                    0 <= t < ks.len() ==> kws[t]@ == self.entry_seq()[t].0,
                forall|t: int| #![trigger kss[t]] 0 <= t < ks.len() ==> kss[t]@ == ks[t],
                forall|t: int| #![trigger kws[t]]
                    0 <= t < ks.len() ==> fk.ensures((kws[t],), kss[t]),
                forall|t: int| #![trigger vws[t]]
                    0 <= t < ks.len() ==> *vws[t] == self.entry_seq()[t].1,
                forall|t: int| #![trigger vss[t]] 0 <= t < ks.len() ==> vss[t]@ == vs[t],
                forall|t: int| #![trigger vws[t]]
                    0 <= t < ks.len() ==> fv.ensures((vws[t],), vss[t]),
            ensures
                ks.len() == vs.len(),
                ks.len() == self.entry_seq().len(),
                kws.len() == ks.len(),
                kss.len() == ks.len(),
                vws.len() == ks.len(),
                vss.len() == ks.len(),
                out@ == ("{")@ + render_entries(ks, vs),
                forall|t: int| #![trigger kws[t]]
                    0 <= t < ks.len() ==> kws[t]@ == self.entry_seq()[t].0,
                forall|t: int| #![trigger kss[t]] 0 <= t < ks.len() ==> kss[t]@ == ks[t],
                forall|t: int| #![trigger kws[t]]
                    0 <= t < ks.len() ==> fk.ensures((kws[t],), kss[t]),
                forall|t: int| #![trigger vws[t]]
                    0 <= t < ks.len() ==> *vws[t] == self.entry_seq()[t].1,
                forall|t: int| #![trigger vss[t]] 0 <= t < ks.len() ==> vss[t]@ == vs[t],
                forall|t: int| #![trigger vws[t]]
                    0 <= t < ks.len() ==> fv.ensures((vws[t],), vss[t]),
            decreases it.remaining().len(),
        {
            let step = it.next();
            match step {
                None => {
                    proof {
                        assert(self.entry_seq().skip(ks.len() as int).len() == 0);
                    }
                    break ;
                },
                Some((kr, vr)) => {
                    let ghost t0 = ks.len() as int;
                    proof {
                        assert(self.entry_seq().skip(t0)[0] == self.entry_seq()[t0]);
                    }
                    if first {
                        first = false;
                    } else {
                        out.append(", ");
                    }
                    let kstr = fk(kr);
                    out.append(kstr.as_str());
                    out.append(": ");
                    let vstr = fv(vr);
                    out.append(vstr.as_str());
                    proof {
                        let ks0 = ks;
                        let vs0 = vs;
                        ks = ks.push(kstr@);
                        vs = vs.push(vstr@);
                        kws = kws.push(kr);
                        kss = kss.push(kstr);
                        vws = vws.push(vr);
                        vss = vss.push(vstr);
                        assert(ks.drop_last() =~= ks0);
                        assert(vs.drop_last() =~= vs0);
                        assert(render_entries(ks, vs) == render_entries(ks0, vs0) + (if ks.len()
                            > 1 {
                            (", ")@
                        } else {
                            Seq::<char>::empty()
                        }) + kstr@ + (": ")@ + vstr@);
                        assert(out@ =~= ("{")@ + render_entries(ks, vs));
                        assert(self.entry_seq().skip(t0).skip(1) =~= self.entry_seq().skip(
                            t0 + 1,
                        ));
                        assert(kr@ == self.entry_seq()[t0].0);
                        assert(*vr == self.entry_seq()[t0].1);
                        assert forall|t: int| #![trigger kws[t], kss[t]]
                            0 <= t < ks.len() implies kws[t]@ == self.entry_seq()[t].0 && kss[t]@
                            == ks[t] && fk.ensures((kws[t],), kss[t]) by {
                            if t < t0 {
                                assert(ks[t] == ks0[t]);
                            } else {
                                assert(kws[t] == kr && kss[t] == kstr && ks[t] == kstr@);
                            }
                        }
                        assert forall|t: int| #![trigger vws[t], vss[t]]
                            0 <= t < ks.len() implies *vws[t] == self.entry_seq()[t].1 && vss[t]@
                            == vs[t] && fv.ensures((vws[t],), vss[t]) by {
                            if t < t0 {
                                assert(vs[t] == vs0[t]);
                            } else {
                                assert(vws[t] == vr && vss[t] == vstr && vs[t] == vstr@);
                            }
                        }
                    }
                },
            }
        }
        out.append("}");
        proof {
            assert(out@ == ("{")@ + render_entries(ks, vs) + ("}")@);
            lemma_witnesses_admit(fk, fv, self.entry_seq(), ks, vs, kws, kss, vws, vss);
            if self.entry_seq().len() == 0 {
                reveal_strlit("{");
                reveal_strlit("}");
                reveal_strlit("{}");
                assert(render_entries(ks, vs) =~= Seq::<char>::empty());
                assert(out@ =~= ("{}")@);
            }
        }
        out
    }
}

impl<'a, V> View for SubTrie<'a, V> {
    type V = Map<Seq<u8>, V>;

    /// The mapping the view stands for: every key under its root, with
    /// its value — never more, never less.
    closed spec fn view(&self) -> Map<Seq<u8>, V> {
        match self.root {
            Some(n) => n.model(),
            None => Map::empty(),
        }
    }
}

/// One view, seen through its parts: the mapping, the traversal order
/// and further narrowing are all read off the node the view is bound to.
/// Two views bound to the same node at the same scope behave alike.
pub proof fn lemma_view_parts<'a, V>(v: SubTrie<'a, V>)
    ensures
        v@ == (match v.root_spec() {
            Some(n) => n.model(),
            None => Map::<Seq<u8>, V>::empty(),
        }),
        v.entry_seq() == (match v.root_spec() {
            Some(n) => n.entries(),
            None => Seq::<(Seq<u8>, V)>::empty(),
        }),
        forall|p: Seq<u8>|
            #[trigger] v.descend_spec(p) == (match v.root_spec() {
                Some(n) => n.descend(p),
                None => None::<Node<V>>,
            }),
{
}

/// A view's traversal lists its mapping exactly: as many pairs as the
/// mapping has keys, each key once, each with its mapped value.  So a
/// traversal's pair count is the number of distinct keys, and looking a
/// yielded key up returns the yielded value.
pub proof fn lemma_iter_lists_view<'a, V>(v: SubTrie<'a, V>)
    requires
        v.wf(),
    ensures
        v@.dom().finite(),
        v.entry_seq().len() == v@.dom().len(),
        forall|t: int|
            0 <= t < v.entry_seq().len() ==> v@.contains_key((#[trigger] v.entry_seq()[t]).0)
                && v@[v.entry_seq()[t].0] == v.entry_seq()[t].1,
        forall|t1: int, t2: int|
            0 <= t1 < t2 < v.entry_seq().len() ==> (#[trigger] v.entry_seq()[t1]).0 != (
            #[trigger] v.entry_seq()[t2]).0,
{
    match v.root {
        Some(n) => {
            n.lemma_wf_model(v.scope@);
            n.lemma_entries_model(v.scope@);
        },
        None => {
            assert(v@.dom() =~= Set::<Seq<u8>>::empty());
        },
    }
}

/// A view is empty exactly when its traversal yields no pair.
pub proof fn lemma_empty_iff_no_entries<'a, V>(v: SubTrie<'a, V>)
    requires
        v.wf(),
    ensures
        (v@ == Map::<Seq<u8>, V>::empty()) <==> v.entry_seq().len() == 0,
{
    lemma_iter_lists_view(v);
    if v.entry_seq().len() == 0 {
        assert(v@.dom().len() == 0);
        v@.dom().lemma_len0_is_empty();
        assert forall|k: Seq<u8>| !(#[trigger] v@.contains_key(k)) by {
            if v@.contains_key(k) {
                assert(v@.dom().contains(k));
            }
        }
        assert(v@ =~= Map::<Seq<u8>, V>::empty());
    } else {
        assert(v@.contains_key(v.entry_seq()[0].0));
    }
}

/// Narrowing twice composes: following `p` and then `q` reaches the node
/// that `p ++ q` reaches, and the mapping restricted twice is the mapping
/// restricted by the concatenation.
pub proof fn lemma_subtrie_compose<'a, V>(v: SubTrie<'a, V>, p: Seq<u8>, q: Seq<u8>)
    requires
        v.wf(),
    ensures
        v.descend_spec(p + q) == (match v.descend_spec(p) {
            Some(m) => m.descend(q),
            None => None::<Node<V>>,
        }),
        restrict_prefix(restrict_prefix(v@, v.scope() + p), (v.scope() + p) + q) == restrict_prefix(
            v@,
            v.scope() + (p + q),
        ),
        (v.scope() + p) + q == v.scope() + (p + q),
{
    match v.root {
        Some(n) => {
            n.lemma_descend_compose(p, q);
        },
        None => {},
    }
    assert((v.scope() + p).is_prefix_of((v.scope() + p) + q)) by {
        assert(((v.scope() + p) + q).subrange(0, (v.scope() + p).len() as int) =~= v.scope() + p);
    }
    crate::node::lemma_restrict_restrict(v@, v.scope() + p, (v.scope() + p) + q);
    assert((v.scope() + p) + q =~= v.scope() + (p + q));
}

/// A view's traversal yields keys in strictly increasing
/// byte-lexicographic order: the canonical, deterministic order of the
/// structure.
pub proof fn lemma_iter_ordered<'a, V>(v: SubTrie<'a, V>)
    requires
        v.wf(),
    ensures
        forall|t1: int, t2: int|
            0 <= t1 < t2 < v.entry_seq().len() ==> crate::node::lex_lt(
                (#[trigger] v.entry_seq()[t1]).0,
                (#[trigger] v.entry_seq()[t2]).0,
            ),
{
    match v.root {
        Some(n) => {
            n.lemma_entries_sorted(v.scope@);
        },
        None => {},
    }
}

/// A prefix under which the view holds no key narrows to the empty view.
pub proof fn lemma_absent_prefix_empty<'a, V>(v: SubTrie<'a, V>, p: Seq<u8>)
    requires
        v.wf(),
        forall|k: Seq<u8>| #[trigger] v@.contains_key(k) ==> !(v.scope() + p).is_prefix_of(k),
    ensures
        restrict_prefix(v@, v.scope() + p) == Map::<Seq<u8>, V>::empty(),
        v.descend_spec(p) is None,
{
    assert(restrict_prefix(v@, v.scope() + p) =~= Map::<Seq<u8>, V>::empty());
    match v.root {
        Some(n) => {
            n.lemma_descend_restrict(v.scope@, p);
            match n.descend(p) {
                Some(m) => {
                    m.lemma_wf_model(v.scope@ + p);
                    let k = choose|k: Seq<u8>| m.model().contains_key(k);
                    assert(m.model().contains_key(k));
                    assert(restrict_prefix(v@, v.scope() + p).contains_key(k));
                },
                None => {},
            }
        },
        None => {},
    }
}

} // verus!
