//! The trie itself: nodes with ordered children, and the operations that
//! insert, look up, remove and enumerate stored strings.

use crate::laws::is_prefix_listing;
use crate::order::{
    lemma_diverge_extend, lemma_diverge_lex_lt, lemma_lex_lt_extends, lemma_proper_prefix_lex_lt,
    lex_lt,
};
use vstd::prelude::*;
use vstd::string::StrSliceExecFns;

verus! {

/// A single trie node: the children ordered by their key character, the key
/// character this node stands for under its parent (absent for the root),
/// and the stored string when the path from the root to this node is a
/// member of the set.
#[derive(Debug)]
pub struct Node {
    children: Vec<Node>,
    key: Option<char>,
    val: Option<String>,
}

impl Node {
    /// `s` is stored at this node or somewhere in the subtree below it.
    pub closed spec fn has(self, s: Seq<char>) -> bool
        decreases self,
    {
        ||| (self.val is Some && self.val->0@ == s)
        ||| exists|i: int|
            0 <= i < self.children@.len() && (#[trigger] self.children@[i]).has(s)
    }

    /// The key character this node stands for under its parent.
    pub closed spec fn spec_key(self) -> Option<char> {
        self.key
    }

    /// The immediate children are strictly sorted by key character, and all
    /// carry one.
    closed spec fn keys_sorted(self) -> bool {
        &&& (forall|i: int|
            0 <= i < self.children@.len() ==> (#[trigger] self.children@[i]).key is Some)
        &&& (forall|i: int, j: int|
            #![trigger self.children@[i], self.children@[j]]
            0 <= i < j < self.children@.len()
                ==> self.children@[i].key->0 < self.children@[j].key->0)
    }

    /// The node is well formed for the path `prefix` leading to it: a stored
    /// string is exactly that path, the children are sorted with distinct
    /// keys, and each child is well formed for the path extended by its key.
    pub closed spec fn wf(self, prefix: Seq<char>) -> bool
        decreases self,
    {
        &&& (self.val is Some ==> self.val->0@ == prefix)
        &&& self.keys_sorted()
        &&& (forall|i: int|
            0 <= i < self.children@.len()
                ==> (#[trigger] self.children@[i]).wf(
                prefix.push(self.children@[i].key->0),
            ))
    }

    /// Create a root node: no key, no stored string, no children.
    pub fn new() -> (n: Node)
        ensures
            forall|s: Seq<char>| !n.has(s),
            forall|p: Seq<char>| n.wf(p),
            n.spec_key() is None,
    {
        Node { children: Vec::new(), key: None, val: None }
    }

    /// Create a leaf node keyed by `c`: no stored string, no children.
    pub fn with_key(c: char) -> (n: Node)
        ensures
            forall|s: Seq<char>| !n.has(s),
            forall|p: Seq<char>| n.wf(p),
            n.spec_key() == Some(c),
    {
        Node { children: Vec::new(), key: Some(c), val: None }
    }

    /// Every string stored in a well-formed subtree starts with the path
    /// that leads to the subtree.
    proof fn lemma_has_prefix(self, prefix: Seq<char>, s: Seq<char>)
        requires
            self.wf(prefix),
            self.has(s),
        ensures
            prefix.is_prefix_of(s),
        decreases self,
    {
        if self.val is Some && self.val->0@ == s {
            assert(prefix =~= s.subrange(0, prefix.len() as int));
        } else {
            let i = choose|i: int|
                0 <= i < self.children@.len() && (#[trigger] self.children@[i]).has(s);
            let c = self.children@[i].key->0;
            self.children@[i].lemma_has_prefix(prefix.push(c), s);
            assert(prefix =~= s.subrange(0, prefix.len() as int)) by {
                assert(prefix.push(c) =~= s.subrange(0, prefix.len() as int + 1));
            }
        }
    }

    /// In a well-formed subtree, the path itself is stored exactly when the
    /// node carries a value.
    proof fn lemma_has_own(self, prefix: Seq<char>)
        requires
            self.wf(prefix),
        ensures
            self.has(prefix) <==> self.val is Some,
    {
        if self.has(prefix) && !(self.val is Some) {
            let i = choose|i: int|
                0 <= i < self.children@.len() && (#[trigger] self.children@[i]).has(prefix);
            let c = self.children@[i].key->0;
            self.children@[i].lemma_has_prefix(prefix.push(c), prefix);
        }
    }

    /// In a well-formed subtree, a string strictly longer than the path is
    /// stored exactly when the child keyed by its next character stores it.
    proof fn lemma_has_step(self, prefix: Seq<char>, t: Seq<char>)
        requires
            self.wf(prefix),
            prefix.is_prefix_of(t),
            prefix.len() < t.len(),
        ensures
            self.has(t) <==> exists|i: int|
                0 <= i < self.children@.len()
                    && (#[trigger] self.children@[i]).key == Some(t[prefix.len() as int])
                    && self.children@[i].has(t),
    {
        if self.has(t) {
            if self.val is Some && self.val->0@ == t {
                assert(false);
            } else {
                let i = choose|i: int|
                    0 <= i < self.children@.len() && (#[trigger] self.children@[i]).has(t);
                let c = self.children@[i].key->0;
                self.children@[i].lemma_has_prefix(prefix.push(c), t);
                assert(t[prefix.len() as int] == c) by {
                    assert(prefix.push(c) =~= t.subrange(0, prefix.len() as int + 1));
                    assert(prefix.push(c)[prefix.len() as int] == c);
                }
            }
        }
    }

    /// At most one immediate child carries a given key character.
    proof fn lemma_key_unique(self, i: int, j: int)
        requires
            self.keys_sorted(),
            0 <= i < self.children@.len(),
            0 <= j < self.children@.len(),
            self.children@[i].key == self.children@[j].key,
        ensures
            i == j,
    {
        if i < j {
            assert(self.children@[i].key->0 < self.children@[j].key->0);
        }
        if j < i {
            assert(self.children@[j].key->0 < self.children@[i].key->0);
        }
    }

    /// Ordered lookup among the children: the position of the child keyed by
    /// `c`, or the position at which such a child would have to be inserted
    /// to keep the children sorted.
    fn find_child(&self, c: char) -> (r: Result<usize, usize>)
        requires
            self.keys_sorted(),
        ensures
            match r {
                Ok(i) => i < self.children@.len() && self.children@[i as int].key == Some(c),
                Err(i) => {
                    &&& i <= self.children@.len()
                    &&& forall|j: int|
                        0 <= j < i ==> (#[trigger] self.children@[j]).key->0 < c
                    &&& forall|j: int|
                        i <= j < self.children@.len()
                            ==> c < (#[trigger] self.children@[j]).key->0
                },
            },
    {
        let mut lo: usize = 0;
        let mut hi: usize = self.children.len();
        while lo < hi
            invariant
                lo <= hi <= self.children@.len(),
                self.keys_sorted(),
                forall|j: int| 0 <= j < lo ==> (#[trigger] self.children@[j]).key->0 < c,
                forall|j: int|
                    hi <= j < self.children@.len()
                        ==> c < (#[trigger] self.children@[j]).key->0,
            decreases hi - lo,
        {
            let mid = lo + (hi - lo) / 2;
            let k = match self.children[mid].key {
                Some(k) => k,
                None => vstd::pervasive::unreached(),
            };
            if k < c {
                assert(forall|j: int|
                    0 <= j <= mid ==> (#[trigger] self.children@[j]).key->0 <= k);
                lo = mid + 1;
            } else if c < k {
                assert(forall|j: int|
                    mid <= j < self.children@.len()
                        ==> k <= (#[trigger] self.children@[j]).key->0);
                hi = mid;
            } else {
                return Ok(mid);
            }
        }
        Err(lo)
    }
}

/// Splitting a path one character later is the same as pushing that
/// character onto the shorter path.
proof fn lemma_subrange_push(s: Seq<char>, i: int)
    requires
        0 <= i < s.len(),
    ensures
        s.subrange(0, i + 1) == s.subrange(0, i).push(s[i]),
{
    assert(s.subrange(0, i + 1) =~= s.subrange(0, i).push(s[i]));
}

impl Node {
    /// Descend along `s` from character `i` on, creating missing children at
    /// their sorted positions, and mark the final node as storing `s`.
    fn insert_at(node: &mut Node, s: &str, i: usize)
        requires
            old(node).wf(s@.subrange(0, i as int)),
            i <= s@.len(),
        ensures
            final(node).wf(s@.subrange(0, i as int)),
            final(node).key == old(node).key,
            forall|t: Seq<char>|
                #![trigger final(node).has(t)]
                #![trigger old(node).has(t)]
                final(node).has(t) <==> (old(node).has(t) || t == s@),
        decreases s@.len() - i,
    {
        let ghost prefix = s@.subrange(0, i as int);
        let n = s.unicode_len();
        if i == n {
            proof {
                assert(prefix =~= s@);
            }
            node.val = Some(s.to_owned());
            proof {
                assert forall|t: Seq<char>|
                    #![trigger node.has(t)]
                    #![trigger old(node).has(t)]
                    node.has(t) <==> (old(node).has(t) || t == s@) by {
                    if node.has(t) && !(node.val is Some && node.val->0@ == t) {
                        let k = choose|k: int|
                            0 <= k < node.children@.len()
                                && (#[trigger] node.children@[k]).has(t);
                        assert(old(node).children@[k].has(t));
                    }
                    if old(node).has(t) {
                        if old(node).val is Some && old(node).val->0@ == t {
                            assert(t == s@);
                        } else {
                            let k = choose|k: int|
                                0 <= k < old(node).children@.len()
                                    && (#[trigger] old(node).children@[k]).has(t);
                            assert(node.children@[k].has(t));
                        }
                    }
                    if t == s@ {
                        assert(node.has(t));
                    }
                }
            }
        } else {
            let c = s.get_char(i);
            let idx: usize;
            match node.find_child(c) {
                Ok(j) => {
                    idx = j;
                }
                Err(j) => {
                    idx = j;
                    let fresh = Node::with_key(c);
                    node.children.insert(j, fresh);
                    proof {
                        let nc = node.children@;
                        let bc = old(node).children@;
                        assert(nc =~= bc.subrange(0, j as int) + seq![fresh] + bc.subrange(
                            j as int,
                            bc.len() as int,
                        ));
                        assert forall|k: int| 0 <= k < j implies nc[k] == bc[k] by {}
                        assert(nc[j as int] == fresh);
                        assert forall|k: int| j < k < nc.len() implies nc[k] == bc[k - 1] by {}
                        assert(node.keys_sorted()) by {
                            assert forall|x: int, y: int|
                                #![trigger nc[x], nc[y]]
                                0 <= x < y < nc.len() implies nc[x].key->0 < nc[y].key->0 by {
                                if y < j {
                                    assert(bc[x].key->0 < bc[y].key->0);
                                } else if x < j && y == j {
                                    assert(bc[x].key->0 < c);
                                } else if x < j && y > j {
                                    assert(bc[x].key->0 < bc[y - 1].key->0 || x == y - 1);
                                } else if x == j {
                                    assert(c < bc[y - 1].key->0);
                                } else {
                                    assert(bc[x - 1].key->0 < bc[y - 1].key->0);
                                }
                            }
                        }
                        assert(node.wf(prefix)) by {
                            assert forall|k: int|
                                0 <= k < nc.len() implies (#[trigger] nc[k]).wf(
                                prefix.push(nc[k].key->0),
                            ) by {
                                if k < j {
                                    assert(bc[k].wf(prefix.push(bc[k].key->0)));
                                } else if k > j {
                                    assert(bc[k - 1].wf(prefix.push(bc[k - 1].key->0)));
                                }
                            }
                        }
                        assert forall|t: Seq<char>| #[trigger]
                            node.has(t) <==> old(node).has(t) by {
                            if node.has(t) && !(node.val is Some && node.val->0@ == t) {
                                let k = choose|k: int|
                                    0 <= k < nc.len() && (#[trigger] nc[k]).has(t);
                                if k < j {
                                    assert(bc[k].has(t));
                                } else if k == j {
                                    assert(!fresh.has(t));
                                } else {
                                    assert(bc[k - 1].has(t));
                                }
                            }
                            if old(node).has(t) && !(old(node).val is Some && old(
                                node,
                            ).val->0@ == t) {
                                let k = choose|k: int|
                                    0 <= k < bc.len() && (#[trigger] bc[k]).has(t);
                                if k < j {
                                    assert(nc[k].has(t));
                                } else {
                                    assert(nc[k + 1].has(t));
                                }
                            }
                        }
                    }
                }
            }
            let ghost mid = *node;
            proof {
                assert(mid.wf(prefix));
                assert(forall|t: Seq<char>| #[trigger] mid.has(t) <==> old(node).has(t));
                assert(mid.children@[idx as int].key == Some(c));
                assert(mid.children@[idx as int].wf(prefix.push(c)));
                lemma_subrange_push(s@, i as int);
                assert(prefix.push(c) == s@.subrange(0, i as int + 1));
            }
            let child = &mut node.children[idx];
            Self::insert_at(child, s, i + 1);
            proof {
                let nc = node.children@;
                let mc = mid.children@;
                let x = nc[idx as int];
                assert(nc =~= mc.update(idx as int, x));
                assert(node.val == mid.val);
                assert(x.wf(s@.subrange(0, i as int + 1)));
                assert(x.key == mc[idx as int].key);
                assert(node.keys_sorted()) by {
                    assert forall|a: int, b: int|
                        #![trigger nc[a], nc[b]]
                        0 <= a < b < nc.len() implies nc[a].key->0 < nc[b].key->0 by {
                        assert(mc[a].key->0 < mc[b].key->0);
                    }
                }
                assert(node.wf(prefix)) by {
                    assert forall|k: int|
                        0 <= k < nc.len() implies (#[trigger] nc[k]).wf(
                        prefix.push(nc[k].key->0),
                    ) by {
                        if k != idx {
                            assert(mc[k].wf(prefix.push(mc[k].key->0)));
                        }
                    }
                }
                assert forall|t: Seq<char>|
                    #![trigger node.has(t)]
                    #![trigger old(node).has(t)]
                    node.has(t) <==> (mid.has(t) || t == s@) by {
                    if node.has(t) {
                        if node.val is Some && node.val->0@ == t {
                            assert(mid.has(t));
                        } else if !(t == s@) {
                            let k = choose|k: int|
                                0 <= k < nc.len() && (#[trigger] nc[k]).has(t);
                            if k == idx {
                                assert(mc[k].has(t));
                            } else {
                                assert(mc[k].has(t));
                            }
                            assert(mid.has(t));
                        }
                    }
                    if mid.has(t) {
                        if mid.val is Some && mid.val->0@ == t {
                            assert(node.has(t));
                        } else {
                            let k = choose|k: int|
                                0 <= k < mc.len() && (#[trigger] mc[k]).has(t);
                            if k == idx {
                                assert(x.has(t));
                            } else {
                                assert(nc[k].has(t));
                            }
                            assert(node.has(t));
                        }
                    }
                    if t == s@ {
                        assert(x.has(t));
                        assert(node.has(t));
                    }
                }
            }
        }
    }

    /// Descend along `s` from character `i` on and clear the final node's
    /// terminal marker; on the way back up, prune a child that is left with
    /// no stored string and no children of its own.
    fn remove_at(node: &mut Node, s: &str, i: usize)
        requires
            old(node).wf(s@.subrange(0, i as int)),
            i <= s@.len(),
        ensures
            final(node).wf(s@.subrange(0, i as int)),
            final(node).key == old(node).key,
            forall|t: Seq<char>|
                #![trigger final(node).has(t)]
                #![trigger old(node).has(t)]
                final(node).has(t) <==> (old(node).has(t) && t != s@),
        decreases s@.len() - i,
    {
        let ghost prefix = s@.subrange(0, i as int);
        let n = s.unicode_len();
        if i == n {
            proof {
                assert(prefix =~= s@);
            }
            node.val = None;
            proof {
                assert forall|t: Seq<char>|
                    #![trigger node.has(t)]
                    #![trigger old(node).has(t)]
                    node.has(t) <==> (old(node).has(t) && t != s@) by {
                    if node.has(t) {
                        let k = choose|k: int|
                            0 <= k < node.children@.len()
                                && (#[trigger] node.children@[k]).has(t);
                        assert(old(node).children@[k].has(t));
                        let ck = node.children@[k].key->0;
                        node.children@[k].lemma_has_prefix(prefix.push(ck), t);
                        assert(t.len() > prefix.len());
                    }
                    if old(node).has(t) && t != s@ {
                        if old(node).val is Some && old(node).val->0@ == t {
                            assert(false);
                        } else {
                            let k = choose|k: int|
                                0 <= k < old(node).children@.len()
                                    && (#[trigger] old(node).children@[k]).has(t);
                            assert(node.children@[k].has(t));
                        }
                    }
                }
            }
        } else {
            let c = s.get_char(i);
            proof {
                assert(s@[i as int] == c);
                assert(prefix.is_prefix_of(s@)) by {
                    assert(prefix =~= s@.subrange(0, prefix.len() as int));
                }
            }
            match node.find_child(c) {
                Ok(idx) => {
                    proof {
                        lemma_subrange_push(s@, i as int);
                        assert(prefix.push(c) == s@.subrange(0, i as int + 1));
                    }
                    let mut child = node.children.remove(idx);
                    Self::remove_at(&mut child, s, i + 1);
                    let prune = child.children.is_empty() && child.val.is_none();
                    let ghost childv = child;
                    proof {
                        let bc = old(node).children@;
                        let rc = node.children@;
                        assert(rc == bc.remove(idx as int));
                        assert forall|k: int| 0 <= k < idx implies rc[k] == bc[k] by {}
                        assert forall|k: int|
                            idx <= k < rc.len() implies rc[k] == bc[k + 1] by {}
                        assert(childv.wf(prefix.push(c)));
                        assert(childv.key == Some(c));
                        // a string stored under any other child differs from s
                        assert forall|k: int, t: Seq<char>|
                            0 <= k < bc.len() && k != idx && (#[trigger] bc[k].has(t))
                                implies t != s@ by {
                            let ck = bc[k].key->0;
                            bc[k].lemma_has_prefix(prefix.push(ck), t);
                            if t == s@ {
                                assert(prefix.push(ck) =~= s@.subrange(0, i as int + 1));
                                assert(ck == prefix.push(ck)[i as int]);
                                assert(s@.subrange(0, i as int + 1)[i as int] == s@[i as int]);
                                assert(bc[k].key == Some(c));
                                old(node).lemma_key_unique(k, idx as int);
                            }
                        }
                    }
                    if prune {
                        proof {
                            let bc = old(node).children@;
                            let rc = node.children@;
                            assert(forall|t: Seq<char>| !childv.has(t));
                            assert(node.keys_sorted()) by {
                                assert forall|x: int, y: int|
                                    #![trigger rc[x], rc[y]]
                                    0 <= x < y < rc.len() implies rc[x].key->0 < rc[y].key->0 by {
                                    if y < idx {
                                        assert(bc[x].key->0 < bc[y].key->0);
                                    } else if x < idx {
                                        assert(bc[x].key->0 < bc[y + 1].key->0);
                                    } else {
                                        assert(bc[x + 1].key->0 < bc[y + 1].key->0);
                                    }
                                }
                            }
                            assert(node.wf(prefix)) by {
                                assert forall|k: int|
                                    0 <= k < rc.len() implies (#[trigger] rc[k]).wf(
                                    prefix.push(rc[k].key->0),
                                ) by {
                                    if k < idx {
                                        assert(bc[k].wf(prefix.push(bc[k].key->0)));
                                    } else {
                                        assert(bc[k + 1].wf(prefix.push(bc[k + 1].key->0)));
                                    }
                                }
                            }
                            assert forall|t: Seq<char>|
                                #![trigger node.has(t)]
                                #![trigger old(node).has(t)]
                                node.has(t) <==> (old(node).has(t) && t != s@) by {
                                if node.has(t) {
                                    if node.val is Some && node.val->0@ == t {
                                        assert(old(node).has(t));
                                        assert(t.len() < s@.len());
                                    } else {
                                        let k = choose|k: int|
                                            0 <= k < rc.len() && (#[trigger] rc[k]).has(t);
                                        if k < idx {
                                            assert(bc[k].has(t));
                                        } else {
                                            assert(bc[k + 1].has(t));
                                        }
                                        assert(old(node).has(t));
                                    }
                                }
                                if old(node).has(t) && t != s@ {
                                    if old(node).val is Some && old(node).val->0@ == t {
                                        assert(node.has(t));
                                    } else {
                                        let k = choose|k: int|
                                            0 <= k < bc.len() && (#[trigger] bc[k]).has(t);
                                        if k == idx {
                                            assert(childv.has(t));
                                            assert(false);
                                        } else if k < idx {
                                            assert(rc[k].has(t));
                                        } else {
                                            assert(rc[k - 1].has(t));
                                        }
                                        assert(node.has(t));
                                    }
                                }
                            }
                        }
                    } else {
                        node.children.insert(idx, child);
                        proof {
                            let bc = old(node).children@;
                            let nc = node.children@;
                            assert(nc =~= bc.update(idx as int, childv)) by {
                                assert(nc == bc.remove(idx as int).insert(idx as int, childv));
                                assert forall|k: int|
                                    0 <= k < bc.len() implies nc[k] == bc.update(
                                    idx as int,
                                    childv,
                                )[k] by {}
                            }
                            assert(node.keys_sorted()) by {
                                assert forall|x: int, y: int|
                                    #![trigger nc[x], nc[y]]
                                    0 <= x < y < nc.len() implies nc[x].key->0 < nc[y].key->0 by {
                                    assert(bc[x].key->0 < bc[y].key->0);
                                }
                            }
                            assert(node.wf(prefix)) by {
                                assert forall|k: int|
                                    0 <= k < nc.len() implies (#[trigger] nc[k]).wf(
                                    prefix.push(nc[k].key->0),
                                ) by {
                                    if k != idx {
                                        assert(bc[k].wf(prefix.push(bc[k].key->0)));
                                    }
                                }
                            }
                            assert forall|t: Seq<char>|
                                #![trigger node.has(t)]
                                #![trigger old(node).has(t)]
                                node.has(t) <==> (old(node).has(t) && t != s@) by {
                                if node.has(t) {
                                    if node.val is Some && node.val->0@ == t {
                                        assert(old(node).has(t));
                                        assert(t.len() < s@.len());
                                    } else {
                                        let k = choose|k: int|
                                            0 <= k < nc.len() && (#[trigger] nc[k]).has(t);
                                        if k == idx {
                                            assert(bc[k].has(t) && t != s@);
                                        } else {
                                            assert(bc[k].has(t));
                                        }
                                        assert(old(node).has(t));
                                    }
                                }
                                if old(node).has(t) && t != s@ {
                                    if old(node).val is Some && old(node).val->0@ == t {
                                        assert(node.has(t));
                                    } else {
                                        let k = choose|k: int|
                                            0 <= k < bc.len() && (#[trigger] bc[k]).has(t);
                                        if k == idx {
                                            assert(childv.has(t));
                                            assert(nc[k].has(t));
                                        } else {
                                            assert(nc[k].has(t));
                                        }
                                        assert(node.has(t));
                                    }
                                }
                            }
                        }
                    }
                }
                Err(_) => {
                    proof {
                        node.lemma_has_step(prefix, s@);
                        assert(!node.has(s@));
                    }
                }
            }
        }
    }
}

impl Node {
    /// Append every string stored in the subtree to `results`, in
    /// lexicographic order, borrowing the stored values.
    fn collect_all<'a>(
        node: &'a Node,
        results: &mut Vec<&'a String>,
        Ghost(prefix): Ghost<Seq<char>>,
    )
        requires
            node.wf(prefix),
        ensures
            old(results)@.is_prefix_of(final(results)@),
            forall|k: int|
                old(results)@.len() <= k < final(results)@.len() ==> node.has(
                    (#[trigger] final(results)@[k])@,
                ) && prefix.is_prefix_of(final(results)@[k]@),
            forall|t: Seq<char>| #[trigger]
                node.has(t) ==> exists|k: int|
                    old(results)@.len() <= k < final(results)@.len()
                        && (#[trigger] final(results)@[k])@ == t,
            forall|k1: int, k2: int|
                old(results)@.len() <= k1 < k2 < final(results)@.len() ==> lex_lt(
                    (#[trigger] final(results)@[k1])@,
                    (#[trigger] final(results)@[k2])@,
                ),
        decreases node,
    {
        let ghost start = old(results)@.len() as int;
        match &node.val {
            Some(v) => {
                results.push(v);
            }
            None => {}
        }
        let m = node.children.len();
        let mut j: usize = 0;
        while j < m
            invariant
                j <= m,
                m == node.children@.len(),
                node.wf(prefix),
                start == old(results)@.len(),
                old(results)@.is_prefix_of(results@),
                node.val is Some ==> results@.len() > start && results@[start]@ == prefix,
                forall|k: int|
                    start <= k < results@.len() ==> node.has((#[trigger] results@[k])@)
                        && prefix.is_prefix_of(results@[k]@),
                forall|k: int|
                    start <= k < results@.len() ==> ((#[trigger] results@[k])@ == prefix
                        || exists|ci: int|
                        0 <= ci < j && prefix.push(
                            (#[trigger] node.children@[ci]).key->0,
                        ).is_prefix_of(results@[k]@)),
                forall|ci: int, t: Seq<char>|
                    0 <= ci < j && (#[trigger] node.children@[ci].has(t)) ==> exists|k: int|
                        start <= k < results@.len() && (#[trigger] results@[k])@ == t,
                forall|k1: int, k2: int|
                    start <= k1 < k2 < results@.len() ==> lex_lt(
                        (#[trigger] results@[k1])@,
                        (#[trigger] results@[k2])@,
                    ),
            decreases m - j,
        {
            let ghost snap = results@;
            let child = &node.children[j];
            let ghost ckey = child.key->0;
            let ghost cpre = prefix.push(ckey);
            proof {
                assert(child.wf(cpre));
            }
            Self::collect_all(child, results, Ghost(cpre));
            proof {
                assert forall|k: int| #![trigger results@[k]]
                    0 <= k < snap.len() implies results@[k] == snap[k] by {
                    assert(snap =~= results@.subrange(0, snap.len() as int));
                }
                // every fresh element lies under the child just done
                assert forall|k: int| #![trigger results@[k]]
                    snap.len() <= k < results@.len() implies node.has(results@[k]@)
                    && prefix.is_prefix_of(results@[k]@) && cpre.is_prefix_of(results@[k]@)
                    && results@[k]@.len() > prefix.len() by {
                    let t = results@[k]@;
                    assert(child.has(t));
                    assert(node.children@[j as int].has(t));
                    assert(node.has(t));
                    assert(cpre.is_prefix_of(t));
                    assert(prefix.is_prefix_of(t)) by {
                        assert(prefix =~= t.subrange(0, prefix.len() as int)) by {
                            assert(cpre =~= t.subrange(0, cpre.len() as int));
                            assert(forall|x: int| 0 <= x < prefix.len() ==> cpre[x] == prefix[x]);
                        }
                    }
                }
                // the older elements keep their classification, now below j + 1
                assert forall|k: int| #![trigger results@[k]]
                    start <= k < snap.len() implies node.has(results@[k]@)
                    && prefix.is_prefix_of(results@[k]@) && (results@[k]@ == prefix
                    || exists|ci: int|
                        0 <= ci < j && prefix.push(
                            (#[trigger] node.children@[ci]).key->0,
                        ).is_prefix_of(results@[k]@)) by {
                    assert(results@[k] == snap[k]);
                    assert(node.has(snap[k]@) && prefix.is_prefix_of(snap[k]@));
                    assert(snap[k]@ == prefix || exists|ci: int|
                        0 <= ci < j && prefix.push(
                            (#[trigger] node.children@[ci]).key->0,
                        ).is_prefix_of(snap[k]@));
                }
                // ordering across the boundary
                assert forall|k1: int, k2: int|
                    start <= k1 < k2 < results@.len() implies lex_lt(
                    (#[trigger] results@[k1])@,
                    (#[trigger] results@[k2])@,
                ) by {
                    if k1 < snap.len() && snap.len() <= k2 {
                        let a = results@[k1]@;
                        let b = results@[k2]@;
                        assert(results@[k1] == snap[k1]);
                        assert(cpre.is_prefix_of(b) && b.len() > prefix.len());
                        assert(cpre =~= b.subrange(0, cpre.len() as int));
                        assert(cpre[prefix.len() as int] == ckey);
                        assert(b.subrange(0, cpre.len() as int)[prefix.len() as int] == b[prefix.len() as int]);
                        assert(b[prefix.len() as int] == ckey);
                        if a == prefix {
                            lemma_proper_prefix_lex_lt(a, b);
                        } else {
                            assert(snap[k1]@ == prefix || exists|ci: int|
                                0 <= ci < j && prefix.push(
                                    (#[trigger] node.children@[ci]).key->0,
                                ).is_prefix_of(snap[k1]@));
                            let ci = choose|ci: int|
                                0 <= ci < j && prefix.push(
                                    (#[trigger] node.children@[ci]).key->0,
                                ).is_prefix_of(snap[k1]@);
                            let akey = node.children@[ci].key->0;
                            assert(prefix.push(akey).is_prefix_of(a));
                            assert(node.children@[j as int].key->0 == ckey);
                            assert(akey < ckey);
                            assert(a.len() > prefix.len());
                            assert(prefix.push(akey) =~= a.subrange(0, prefix.len() as int + 1));
                            assert(a[prefix.len() as int] == akey) by {
                                assert(a.subrange(0, prefix.len() as int + 1)[prefix.len() as int]
                                    == a[prefix.len() as int]);
                            }
                            assert(prefix.is_prefix_of(a)) by {
                                assert(prefix =~= a.subrange(0, prefix.len() as int));
                            }
                            lemma_diverge_lex_lt(prefix, a, b);
                        }
                    }
                }
            }
            j += 1;
        }
        proof {
            assert forall|t: Seq<char>| #[trigger]
                node.has(t) implies exists|k: int|
                start <= k < results@.len() && (#[trigger] results@[k])@ == t by {
                if node.val is Some && node.val->0@ == t {
                    assert(results@[start]@ == t);
                } else {
                    let ci = choose|ci: int|
                        0 <= ci < node.children@.len() && (#[trigger] node.children@[ci]).has(t);
                    assert(node.children@[ci].has(t));
                }
            }
        }
    }
}

impl Node {
    /// The number of nodes in the subtree.
    spec fn size(self) -> nat
        decreases self,
    {
        1 + Self::seq_size(self.children@)
    }

    /// The number of nodes in the subtrees of a sequence of nodes.
    spec fn seq_size(s: Seq<Node>) -> nat
        decreases s,
    {
        if s.len() == 0 {
            0
        } else {
            s[0].size() + Self::seq_size(s.drop_first())
        }
    }

    /// The number of nodes below the entries of a work stack.
    spec fn stack_size(s: Seq<&Node>) -> nat
        decreases s.len(),
    {
        if s.len() == 0 {
            0
        } else {
            s.last().size() + Self::stack_size(s.drop_last())
        }
    }

    /// Enumerate the subtree with an explicit work stack instead of
    /// recursion, handing out owned copies of the stored strings: children
    /// are pushed in reverse key order, so the string to leave the stack
    /// next is always the smallest pending one and the output comes out in
    /// lexicographic order with no separate sorting pass.
    #[verifier::loop_isolation(false)]
    fn collect_stack(root: &Node, Ghost(prefix): Ghost<Seq<char>>) -> (results: Vec<String>)
        requires
            root.wf(prefix),
        ensures
            forall|k: int|
                0 <= k < results@.len() ==> root.has((#[trigger] results@[k])@)
                    && prefix.is_prefix_of(results@[k]@),
            forall|t: Seq<char>| #[trigger]
                root.has(t) ==> exists|k: int|
                    0 <= k < results@.len() && (#[trigger] results@[k])@ == t,
            forall|k1: int, k2: int|
                0 <= k1 < k2 < results@.len() ==> lex_lt(
                    (#[trigger] results@[k1])@,
                    (#[trigger] results@[k2])@,
                ),
    {
        let mut results: Vec<String> = Vec::new();
        let mut stack: Vec<&Node> = Vec::new();
        stack.push(root);
        let ghost mut pres: Seq<Seq<char>> = seq![prefix];
        proof {
            assert(prefix.is_prefix_of(prefix)) by {
                assert(prefix =~= prefix.subrange(0, prefix.len() as int));
            }
            assert(stack@[0] == root);
            assert forall|t: Seq<char>| #[trigger]
                root.has(t) implies exists|k: int|
                0 <= k < stack@.len() && (#[trigger] stack@[k].has(t)) by {
                assert(stack@[0].has(t));
            }
        }
        while stack.len() > 0
            invariant
                pres.len() == stack@.len(),
                forall|k: int| 0 <= k < stack@.len() ==> (#[trigger] stack@[k]).wf(pres[k]),
                forall|k: int| 0 <= k < pres.len() ==> prefix.is_prefix_of(#[trigger] pres[k]),
                forall|k: int, t: Seq<char>|
                    0 <= k < stack@.len() && (#[trigger] stack@[k].has(t)) ==> root.has(t),
                forall|t: Seq<char>| #[trigger]
                    root.has(t) ==> (exists|j: int|
                        0 <= j < results@.len() && (#[trigger] results@[j])@ == t) || (exists|k: int|
                        0 <= k < stack@.len() && (#[trigger] stack@[k].has(t))),
                forall|j: int|
                    0 <= j < results@.len() ==> root.has((#[trigger] results@[j])@)
                        && prefix.is_prefix_of(results@[j]@),
                forall|j1: int, j2: int|
                    0 <= j1 < j2 < results@.len() ==> lex_lt(
                        (#[trigger] results@[j1])@,
                        (#[trigger] results@[j2])@,
                    ),
                forall|j: int, k: int|
                    0 <= j < results@.len() && 0 <= k < pres.len() ==> lex_lt(
                        (#[trigger] results@[j])@,
                        #[trigger] pres[k],
                    ),
                forall|k1: int, k2: int|
                    0 <= k1 < k2 < pres.len() ==> lex_lt(#[trigger] pres[k2], #[trigger] pres[k1])
                        && !pres[k2].is_prefix_of(pres[k1]),
            decreases Self::stack_size(stack@),
        {
            let ghost old_stack = stack@;
            let ghost old_pres = pres;
            let ghost old_results = results@;
            let node = match stack.pop() {
                Some(n) => n,
                None => vstd::pervasive::unreached(),
            };
            let ghost p = pres.last();
            proof {
                pres = pres.drop_last();
                assert(stack@ =~= old_stack.drop_last());
                assert(Self::stack_size(old_stack) == node.size() + Self::stack_size(stack@));
                assert(node.wf(p));
                assert(forall|t: Seq<char>| #[trigger] node.has(t) ==> root.has(t));
            }
            match &node.val {
                Some(v) => {
                    results.push(v.clone());
                    proof {
                        assert(v@ == p);
                        assert(node.has(p));
                        assert(root.has(p));
                        assert forall|j1: int, j2: int|
                            0 <= j1 < j2 < results@.len() implies lex_lt(
                            (#[trigger] results@[j1])@,
                            (#[trigger] results@[j2])@,
                        ) by {
                            if j2 == results@.len() - 1 {
                                assert(lex_lt(old_results[j1]@, old_pres[old_pres.len() - 1]));
                            }
                        }
                        assert forall|j: int, k: int|
                            0 <= j < results@.len() && 0 <= k < pres.len() implies lex_lt(
                            (#[trigger] results@[j])@,
                            #[trigger] pres[k],
                        ) by {
                            if j == results@.len() - 1 {
                                assert(lex_lt(old_pres[old_pres.len() - 1], old_pres[k]));
                            }
                        }
                    }
                }
                None => {}
            }
            proof {
                assert forall|j: int|
                    0 <= j < results@.len() implies ((#[trigger] results@[j])@ == p || lex_lt(
                    results@[j]@,
                    p,
                )) by {
                    if j < old_results.len() {
                        assert(lex_lt(old_results[j]@, old_pres[old_pres.len() - 1]));
                    }
                }
            }
            let ghost base_stack = stack@;
            let ghost base_pres = pres;
            let ghost base_size = Self::stack_size(stack@);
            let ghost base_len = stack@.len() as int;
            let m = node.children.len();
            proof {
                assert forall|t: Seq<char>| #[trigger]
                    root.has(t) implies (exists|j: int|
                    0 <= j < results@.len() && (#[trigger] results@[j])@ == t) || (exists|k: int|
                    0 <= k < stack@.len() && (#[trigger] stack@[k].has(t))) || (exists|ci: int|
                    0 <= ci < m && (#[trigger] node.children@[ci]).has(t)) by {
                    if exists|j: int|
                        0 <= j < old_results.len() && (#[trigger] old_results[j])@ == t {
                        let j = choose|j: int|
                            0 <= j < old_results.len() && (#[trigger] old_results[j])@ == t;
                        assert(results@[j]@ == t);
                    } else {
                        let k = choose|k: int|
                            0 <= k < old_stack.len() && (#[trigger] old_stack[k].has(t));
                        if k < old_stack.len() - 1 {
                            assert(stack@[k].has(t));
                        } else {
                            assert(node.has(t));
                            if node.val is Some && node.val->0@ == t {
                                assert(t == p);
                                assert(results@[results@.len() - 1]@ == t);
                            } else {
                                let ci = choose|ci: int|
                                    0 <= ci < node.children@.len() && (#[trigger] node.children@[
                                        ci
                                    ]).has(t);
                                assert(node.children@[ci].has(t));
                            }
                        }
                    }
                }
            }
            let mut idx: usize = m;
            while idx > 0
                invariant
                    idx <= m,
                    stack@.len() == base_len + (m - idx),
                    pres.len() == stack@.len(),
                    forall|k: int| 0 <= k < base_len ==> #[trigger] stack@[k] == base_stack[k],
                    forall|k: int| 0 <= k < base_len ==> #[trigger] pres[k] == base_pres[k],
                    forall|kk: int|
                        base_len <= kk < stack@.len() ==> (#[trigger] stack@[kk])
                            == &node.children[m - 1 - (kk - base_len)] && pres[kk] == p.push(
                            node.children@[m - 1 - (kk - base_len)].key->0,
                        ),
                    forall|k: int| 0 <= k < stack@.len() ==> (#[trigger] stack@[k]).wf(pres[k]),
                    forall|k: int|
                        0 <= k < pres.len() ==> prefix.is_prefix_of(#[trigger] pres[k]),
                    forall|k: int, t: Seq<char>|
                        0 <= k < stack@.len() && (#[trigger] stack@[k].has(t)) ==> root.has(t),
                    forall|t: Seq<char>| #[trigger]
                        root.has(t) ==> (exists|j: int|
                            0 <= j < results@.len() && (#[trigger] results@[j])@ == t) || (
                        exists|k: int|
                            0 <= k < stack@.len() && (#[trigger] stack@[k].has(t))) || (
                        exists|ci: int|
                            0 <= ci < idx && (#[trigger] node.children@[ci]).has(t)),
                    forall|j: int, k: int|
                        0 <= j < results@.len() && 0 <= k < pres.len() ==> lex_lt(
                            (#[trigger] results@[j])@,
                            #[trigger] pres[k],
                        ),
                    forall|k1: int, k2: int|
                        0 <= k1 < k2 < pres.len() ==> lex_lt(
                            #[trigger] pres[k2],
                            #[trigger] pres[k1],
                        ) && !pres[k2].is_prefix_of(pres[k1]),
                    Self::stack_size(stack@) == base_size + Self::seq_size(
                        node.children@.subrange(idx as int, m as int),
                    ),
                decreases idx,
            {
                idx = idx - 1;
                let child = &node.children[idx];
                let ghost ckey = child.key->0;
                let ghost q = p.push(ckey);
                let ghost mid_stack = stack@;
                let ghost mid_pres = pres;
                stack.push(child);
                proof {
                    pres = pres.push(q);
                    let ghost len = mid_stack.len() as int;
                    assert(stack@[len] == child && pres[len] == q);
                    assert(forall|k: int| 0 <= k < len ==> #[trigger] stack@[k] == mid_stack[k]);
                    assert(forall|k: int| 0 <= k < len ==> #[trigger] pres[k] == mid_pres[k]);
                    assert(child.wf(q));
                    assert(prefix.is_prefix_of(q)) by {
                        assert(p =~= q.subrange(0, p.len() as int));
                        assert(prefix =~= q.subrange(0, prefix.len() as int)) by {
                            assert(prefix =~= p.subrange(0, prefix.len() as int));
                        }
                    }
                    assert forall|t: Seq<char>| #[trigger] child.has(t) implies root.has(t) by {
                        assert(node.children@[idx as int].has(t));
                        assert(node.has(t));
                    }
                    // the fresh cone follows every result already emitted
                    assert forall|j: int|
                        0 <= j < results@.len() implies lex_lt((#[trigger] results@[j])@, q) by {
                        if results@[j]@ == p {
                            assert(p.is_prefix_of(q)) by {
                                assert(p =~= q.subrange(0, p.len() as int));
                            }
                            lemma_proper_prefix_lex_lt(p, q);
                        } else {
                            lemma_lex_lt_extends(results@[j]@, p, q);
                        }
                    }
                    // the fresh cone precedes every cone already pending
                    assert forall|k: int|
                        0 <= k < len implies lex_lt(#[trigger] pres[len], pres[k])
                        && !pres[len].is_prefix_of(pres[k]) by {
                        if k < base_len {
                            assert(pres[k] == old_pres[k]);
                            assert(lex_lt(p, old_pres[k]) && !p.is_prefix_of(old_pres[k])) by {
                                assert(old_pres[old_pres.len() - 1] == p);
                            }
                            lemma_diverge_extend(p, old_pres[k], ckey);
                        } else {
                            let ci = m - 1 - (k - base_len);
                            assert(stack@[k] == mid_stack[k]);
                            assert(pres[k] == mid_pres[k]);
                            assert(mid_stack[k] == &node.children[m - 1 - (k - base_len)]
                                && mid_pres[k] == p.push(
                                node.children@[m - 1 - (k - base_len)].key->0,
                            ));
                            let okey = node.children@[ci].key->0;
                            assert(pres[k] == p.push(okey));
                            assert(ckey < okey);
                            assert(p.is_prefix_of(q) && p.is_prefix_of(p.push(okey))) by {
                                assert(p =~= q.subrange(0, p.len() as int));
                                assert(p =~= p.push(okey).subrange(0, p.len() as int));
                            }
                            lemma_diverge_lex_lt(p, q, p.push(okey));
                            if q.is_prefix_of(p.push(okey)) {
                                assert(q =~= p.push(okey));
                                assert(q[p.len() as int] == ckey);
                            }
                        }
                    }
                    // completeness: the pushed child now carries its cone
                    assert forall|t: Seq<char>| #[trigger]
                        root.has(t) implies (exists|j: int|
                        0 <= j < results@.len() && (#[trigger] results@[j])@ == t) || (exists|k: int|
                        0 <= k < stack@.len() && (#[trigger] stack@[k].has(t))) || (exists|ci: int|
                        0 <= ci < idx && (#[trigger] node.children@[ci]).has(t)) by {
                        if !(exists|j: int|
                            0 <= j < results@.len() && (#[trigger] results@[j])@ == t) {
                            if exists|k: int|
                                0 <= k < mid_stack.len() && (#[trigger] mid_stack[k].has(t)) {
                                let k = choose|k: int|
                                    0 <= k < mid_stack.len() && (#[trigger] mid_stack[k].has(t));
                                assert(stack@[k].has(t));
                            } else if exists|ci: int|
                                0 <= ci < idx + 1 && (#[trigger] node.children@[ci]).has(t) {
                                let ci = choose|ci: int|
                                    0 <= ci < idx + 1 && (#[trigger] node.children@[ci]).has(t);
                                if ci == idx {
                                    assert(stack@[len].has(t));
                                }
                            }
                        }
                    }
                    // the work left shrinks by exactly the pushed subtree
                    assert(stack@.drop_last() =~= mid_stack);
                    assert(Self::stack_size(stack@) == child.size() + Self::stack_size(mid_stack));
                    let sub = node.children@.subrange(idx as int, m as int);
                    assert(sub[0] == node.children@[idx as int]);
                    assert(sub.drop_first() =~= node.children@.subrange(idx as int + 1, m as int));
                    assert(Self::seq_size(sub) == node.children@[idx as int].size()
                        + Self::seq_size(node.children@.subrange(idx as int + 1, m as int)));
                }
            }
            proof {
                assert(node.children@.subrange(0, m as int) =~= node.children@);
                assert(Self::stack_size(stack@) == base_size + Self::seq_size(node.children@));
                assert(Self::stack_size(stack@) < Self::stack_size(old_stack));
            }
        }
        results
    }

    /// Descend along `s` from character `i` on; from the node that `s` leads
    /// to, append every stored string below it, in lexicographic order.
    fn descend_collect<'a>(node: &'a Node, s: &str, i: usize, results: &mut Vec<&'a String>)
        requires
            node.wf(s@.subrange(0, i as int)),
            i <= s@.len(),
            old(results)@.len() == 0,
        ensures
            forall|k: int|
                0 <= k < final(results)@.len() ==> node.has((#[trigger] final(results)@[k])@)
                    && s@.is_prefix_of(final(results)@[k]@),
            forall|t: Seq<char>|
                node.has(t) && s@.is_prefix_of(t) ==> exists|k: int|
                    0 <= k < final(results)@.len() && (#[trigger] final(results)@[k])@ == t,
            forall|k1: int, k2: int|
                0 <= k1 < k2 < final(results)@.len() ==> lex_lt(
                    (#[trigger] final(results)@[k1])@,
                    (#[trigger] final(results)@[k2])@,
                ),
        decreases s@.len() - i,
    {
        let ghost prefix = s@.subrange(0, i as int);
        let n = s.unicode_len();
        if i == n {
            proof {
                assert(prefix =~= s@);
            }
            Self::collect_all(node, results, Ghost(s@));
        } else {
            let c = s.get_char(i);
            proof {
                assert(prefix.is_prefix_of(s@)) by {
                    assert(prefix =~= s@.subrange(0, prefix.len() as int));
                }
            }
            match node.find_child(c) {
                Ok(idx) => {
                    proof {
                        lemma_subrange_push(s@, i as int);
                    }
                    Self::descend_collect(&node.children[idx], s, i + 1, results);
                    proof {
                        let sub = node.children@[idx as int];
                        assert forall|k: int| #![trigger results@[k]]
                            0 <= k < results@.len() implies node.has(results@[k]@) by {
                            assert(sub.has(results@[k]@));
                        }
                        assert forall|t: Seq<char>|
                            node.has(t) && s@.is_prefix_of(t) implies sub.has(t) by {
                            assert(t.len() >= s@.len());
                            assert(prefix.is_prefix_of(t)) by {
                                assert(prefix =~= t.subrange(0, prefix.len() as int)) by {
                                    assert(s@ =~= t.subrange(0, s@.len() as int));
                                }
                            }
                            assert(t[i as int] == c) by {
                                assert(s@ =~= t.subrange(0, s@.len() as int));
                            }
                            node.lemma_has_step(prefix, t);
                            let k = choose|k: int|
                                0 <= k < node.children@.len()
                                    && (#[trigger] node.children@[k]).key == Some(
                                    t[prefix.len() as int],
                                ) && node.children@[k].has(t);
                            node.lemma_key_unique(k, idx as int);
                        }
                    }
                }
                Err(e) => {
                    proof {
                        assert forall|t: Seq<char>|
                            node.has(t) && s@.is_prefix_of(t) implies false by {
                            assert(t.len() >= s@.len());
                            assert(prefix.is_prefix_of(t)) by {
                                assert(prefix =~= t.subrange(0, prefix.len() as int)) by {
                                    assert(s@ =~= t.subrange(0, s@.len() as int));
                                }
                            }
                            assert(t[i as int] == c) by {
                                assert(s@ =~= t.subrange(0, s@.len() as int));
                            }
                            node.lemma_has_step(prefix, t);
                            let k = choose|k: int|
                                0 <= k < node.children@.len()
                                    && (#[trigger] node.children@[k]).key == Some(
                                    t[prefix.len() as int],
                                ) && node.children@[k].has(t);
                            if k < e {
                                assert(node.children@[k].key->0 < c);
                            } else {
                                assert(c < node.children@[k].key->0);
                            }
                        }
                    }
                }
            }
        }
    }

    /// As `descend_collect`, but consuming the remaining prefix as a
    /// shrinking slice instead of an index; `prefix` is the path already
    /// consumed.
    fn slice_collect<'a>(
        node: &'a Node,
        rest: &str,
        results: &mut Vec<&'a String>,
        Ghost(prefix): Ghost<Seq<char>>,
    )
        requires
            node.wf(prefix),
            old(results)@.len() == 0,
        ensures
            forall|k: int|
                0 <= k < final(results)@.len() ==> node.has((#[trigger] final(results)@[k])@)
                    && (prefix + rest@).is_prefix_of(final(results)@[k]@),
            forall|t: Seq<char>|
                node.has(t) && (prefix + rest@).is_prefix_of(t) ==> exists|k: int|
                    0 <= k < final(results)@.len() && (#[trigger] final(results)@[k])@ == t,
            forall|k1: int, k2: int|
                0 <= k1 < k2 < final(results)@.len() ==> lex_lt(
                    (#[trigger] final(results)@[k1])@,
                    (#[trigger] final(results)@[k2])@,
                ),
        decreases rest@.len(),
    {
        let ghost full = prefix + rest@;
        if rest.is_empty() {
            proof {
                assert(full =~= prefix);
            }
            Self::collect_all(node, results, Ghost(prefix));
        } else {
            let c = rest.get_char(0);
            proof {
                assert(full[prefix.len() as int] == c);
                assert(prefix.is_prefix_of(full)) by {
                    assert(prefix =~= full.subrange(0, prefix.len() as int));
                }
            }
            match node.find_child(c) {
                Ok(idx) => {
                    let len = rest.unicode_len();
                    let tail = rest.substring_char(1, len);
                    proof {
                        assert(tail@ == rest@.subrange(1, rest@.len() as int));
                        assert(full =~= prefix.push(c) + tail@);
                    }
                    Self::slice_collect(&node.children[idx], tail, results, Ghost(prefix.push(c)));
                    proof {
                        let sub = node.children@[idx as int];
                        assert forall|k: int| #![trigger results@[k]]
                            0 <= k < results@.len() implies node.has(results@[k]@) by {
                            assert(sub.has(results@[k]@));
                        }
                        assert forall|t: Seq<char>|
                            node.has(t) && full.is_prefix_of(t) implies sub.has(t) && (
                            prefix.push(c) + tail@).is_prefix_of(t) by {
                            assert(t.len() >= full.len() > prefix.len());
                            assert(prefix.is_prefix_of(t)) by {
                                assert(prefix =~= t.subrange(0, prefix.len() as int)) by {
                                    assert(full =~= t.subrange(0, full.len() as int));
                                }
                            }
                            assert(t[prefix.len() as int] == c) by {
                                assert(full =~= t.subrange(0, full.len() as int));
                            }
                            node.lemma_has_step(prefix, t);
                            let k = choose|k: int|
                                0 <= k < node.children@.len()
                                    && (#[trigger] node.children@[k]).key == Some(
                                    t[prefix.len() as int],
                                ) && node.children@[k].has(t);
                            node.lemma_key_unique(k, idx as int);
                        }
                    }
                }
                Err(e) => {
                    proof {
                        assert forall|t: Seq<char>|
                            node.has(t) && full.is_prefix_of(t) implies false by {
                            assert(t.len() >= full.len() > prefix.len());
                            assert(prefix.is_prefix_of(t)) by {
                                assert(prefix =~= t.subrange(0, prefix.len() as int)) by {
                                    assert(full =~= t.subrange(0, full.len() as int));
                                }
                            }
                            assert(t[prefix.len() as int] == c) by {
                                assert(full =~= t.subrange(0, full.len() as int));
                            }
                            node.lemma_has_step(prefix, t);
                            let k = choose|k: int|
                                0 <= k < node.children@.len()
                                    && (#[trigger] node.children@[k]).key == Some(
                                    t[prefix.len() as int],
                                ) && node.children@[k].has(t);
                            if k < e {
                                assert(node.children@[k].key->0 < c);
                            } else {
                                assert(c < node.children@[k].key->0);
                            }
                        }
                    }
                }
            }
        }
    }
}

/// The trie: a set of strings held under a single root node, which stands
/// for the empty prefix and lives for the trie's whole lifetime.
#[derive(Debug)]
pub struct Trie {
    root: Node,
}

impl Default for Node {
    /// Same as `Node::new`: a root node with nothing stored.
    fn default() -> (n: Node)
        ensures
            forall|s: Seq<char>| !n.has(s),
            forall|p: Seq<char>| n.wf(p),
            n.spec_key() is None,
    {
        Node::new()
    }
}

impl Default for Trie {
    /// Same as `Trie::new`: an empty, well-formed trie.
    fn default() -> (t: Trie)
        ensures
            t.wf(),
            t@ == Set::<Seq<char>>::empty(),
    {
        Trie::new()
    }
}

impl View for Trie {
    type V = Set<Seq<char>>;

    /// The set of stored strings.
    closed spec fn view(&self) -> Set<Seq<char>> {
        Set::new(|t: Seq<char>| self.root.has(t))
    }
}

impl Trie {
    /// The trie's internal invariant: the root is well formed for the empty
    /// path. Constructors establish it and every operation preserves it.
    pub closed spec fn wf(self) -> bool {
        self.root.wf(Seq::empty())
    }

    /// Create an empty trie.
    pub fn new() -> (t: Trie)
        ensures
            t.wf(),
            t@ == Set::<Seq<char>>::empty(),
    {
        let t = Trie { root: Node::new() };
        proof {
            assert(t@ =~= Set::<Seq<char>>::empty());
        }
        t
    }

    /// Insert `s`: the stored set afterwards is the old set plus `s`.
    /// Always succeeds; inserting an already-present string (and inserting
    /// the empty string, which marks the root) is allowed.
    pub fn insert(&mut self, s: &str)
        requires
            old(self).wf(),
        ensures
            final(self).wf(),
            final(self)@ == old(self)@.insert(s@),
    {
        proof {
            assert(s@.subrange(0, 0) =~= Seq::<char>::empty());
        }
        Node::insert_at(&mut self.root, s, 0);
        proof {
            assert(self@ =~= old(self)@.insert(s@));
        }
    }

    /// Remove `s`: the stored set afterwards is the old set without `s`.
    /// Only the final node's marker is cleared - a node that other stored
    /// strings pass through keeps its own marker - and nodes left with
    /// nothing stored and no children are pruned on the way back up.
    /// Removing an absent string leaves every membership as it was.
    pub fn remove(&mut self, s: &str)
        requires
            old(self).wf(),
        ensures
            final(self).wf(),
            final(self)@ == old(self)@.remove(s@),
    {
        proof {
            assert(s@.subrange(0, 0) =~= Seq::<char>::empty());
        }
        Node::remove_at(&mut self.root, s, 0);
        proof {
            assert(self@ =~= old(self)@.remove(s@));
        }
    }

    /// Exact lookup: true exactly when `s` is stored.
    pub fn contains(&self, s: &str) -> (r: bool)
        requires
            self.wf(),
        ensures
            r == self@.contains(s@),
    {
        let n = s.unicode_len();
        let mut cur: &Node = &self.root;
        let mut i: usize = 0;
        proof {
            assert(s@.subrange(0, 0) =~= Seq::<char>::empty());
        }
        while i < n
            invariant
                i <= n,
                n == s@.len(),
                cur.wf(s@.subrange(0, i as int)),
                self.root.has(s@) == cur.has(s@),
            decreases n - i,
        {
            let ghost prefix = s@.subrange(0, i as int);
            proof {
                assert(prefix.is_prefix_of(s@)) by {
                    assert(prefix =~= s@.subrange(0, prefix.len() as int));
                }
                cur.lemma_has_step(prefix, s@);
            }
            let c = s.get_char(i);
            match cur.find_child(c) {
                Ok(idx) => {
                    proof {
                        lemma_subrange_push(s@, i as int);
                        if cur.has(s@) {
                            let k = choose|k: int|
                                0 <= k < cur.children@.len()
                                    && (#[trigger] cur.children@[k]).key == Some(
                                    s@[i as int],
                                ) && cur.children@[k].has(s@);
                            cur.lemma_key_unique(k, idx as int);
                        }
                    }
                    cur = &cur.children[idx];
                }
                Err(e) => {
                    proof {
                        assert forall|k: int|
                            0 <= k < cur.children@.len()
                                implies (#[trigger] cur.children@[k]).key != Some(c) by {
                            if k < e {
                                assert(cur.children@[k].key->0 < c);
                            } else {
                                assert(c < cur.children@[k].key->0);
                            }
                        }
                        assert(!cur.has(s@));
                    }
                    return false;
                }
            }
            i += 1;
        }
        proof {
            assert(s@.subrange(0, n as int) =~= s@);
            cur.lemma_has_own(s@);
        }
        cur.val.is_some()
    }

    /// Prefix search, fully iterative (a descent loop, then an explicit work
    /// stack), owned results: the strings stored with `s` as a prefix, each
    /// exactly once, in lexicographic order.
    pub fn search(&self, s: &str) -> (results: Vec<String>)
        requires
            self.wf(),
        ensures
            forall|k: int|
                0 <= k < results@.len() ==> self@.contains((#[trigger] results@[k])@)
                    && s@.is_prefix_of(results@[k]@),
            forall|t: Seq<char>|
                self@.contains(t) && s@.is_prefix_of(t) ==> exists|k: int|
                    0 <= k < results@.len() && (#[trigger] results@[k])@ == t,
            forall|k1: int, k2: int|
                0 <= k1 < k2 < results@.len() ==> lex_lt(
                    (#[trigger] results@[k1])@,
                    (#[trigger] results@[k2])@,
                ),
            is_prefix_listing(self@, s@, results@.map_values(|v: String| v@)),
    {
        let n = s.unicode_len();
        let mut cur: &Node = &self.root;
        let mut i: usize = 0;
        proof {
            assert(s@.subrange(0, 0) =~= Seq::<char>::empty());
        }
        while i < n
            invariant
                i <= n,
                n == s@.len(),
                cur.wf(s@.subrange(0, i as int)),
                forall|t: Seq<char>| #[trigger]
                    s@.is_prefix_of(t) ==> (self.root.has(t) == cur.has(t)),
            decreases n - i,
        {
            let ghost prefix = s@.subrange(0, i as int);
            let c = s.get_char(i);
            match cur.find_child(c) {
                Ok(idx) => {
                    let nxt = &cur.children[idx];
                    proof {
                        lemma_subrange_push(s@, i as int);
                        assert forall|t: Seq<char>| #[trigger]
                            s@.is_prefix_of(t) implies (cur.has(t) == nxt.has(t)) by {
                            assert(t.len() >= s@.len() > i);
                            assert(prefix.is_prefix_of(t)) by {
                                assert(prefix =~= t.subrange(0, prefix.len() as int)) by {
                                    assert(s@ =~= t.subrange(0, s@.len() as int));
                                }
                            }
                            assert(t[i as int] == c) by {
                                assert(s@ =~= t.subrange(0, s@.len() as int));
                            }
                            cur.lemma_has_step(prefix, t);
                            if cur.has(t) {
                                let k = choose|k: int|
                                    0 <= k < cur.children@.len()
                                        && (#[trigger] cur.children@[k]).key == Some(
                                        t[prefix.len() as int],
                                    ) && cur.children@[k].has(t);
                                cur.lemma_key_unique(k, idx as int);
                            }
                        }
                    }
                    cur = nxt;
                }
                Err(e) => {
                    proof {
                        assert forall|t: Seq<char>| #[trigger]
                            s@.is_prefix_of(t) implies !cur.has(t) by {
                            assert(t.len() >= s@.len() > i);
                            assert(prefix.is_prefix_of(t)) by {
                                assert(prefix =~= t.subrange(0, prefix.len() as int)) by {
                                    assert(s@ =~= t.subrange(0, s@.len() as int));
                                }
                            }
                            assert(t[i as int] == c) by {
                                assert(s@ =~= t.subrange(0, s@.len() as int));
                            }
                            cur.lemma_has_step(prefix, t);
                            if cur.has(t) {
                                let k = choose|k: int|
                                    0 <= k < cur.children@.len()
                                        && (#[trigger] cur.children@[k]).key == Some(
                                        t[prefix.len() as int],
                                    ) && cur.children@[k].has(t);
                                if k < e {
                                    assert(cur.children@[k].key->0 < c);
                                } else {
                                    assert(c < cur.children@[k].key->0);
                                }
                            }
                        }
                    }
                    return Vec::new();
                }
            }
            i += 1;
        }
        proof {
            assert(s@.subrange(0, n as int) =~= s@);
        }
        let results = Node::collect_stack(cur, Ghost(s@));
        proof {
            assert forall|k: int| #![trigger results@[k]]
                0 <= k < results@.len() implies self@.contains(results@[k]@) by {
                assert(s@.is_prefix_of(results@[k]@));
                assert(cur.has(results@[k]@));
            }
            let mapped = results@.map_values(|v: String| v@);
            assert forall|k: int|
                0 <= k < mapped.len() implies #[trigger] mapped[k] == results@[k]@ by {}
            assert forall|t: Seq<char>|
                #![trigger self@.contains(t), s@.is_prefix_of(t)]
                self@.contains(t) && s@.is_prefix_of(t) implies exists|k: int|
                0 <= k < mapped.len() && mapped[k] == t by {
                assert(cur.has(t));
                let k = choose|k: int|
                    0 <= k < results@.len() && (#[trigger] results@[k])@ == t;
                assert(mapped[k] == t);
            }
        }
        results
    }

    /// Prefix search, recursive descent by character index, borrowed
    /// results: same result set as `search`, in the same order.
    pub fn search_rec<'a>(&'a self, s: &str) -> (results: Vec<&'a String>)
        requires
            self.wf(),
        ensures
            forall|k: int|
                0 <= k < results@.len() ==> self@.contains((#[trigger] results@[k])@)
                    && s@.is_prefix_of(results@[k]@),
            forall|t: Seq<char>|
                self@.contains(t) && s@.is_prefix_of(t) ==> exists|k: int|
                    0 <= k < results@.len() && (#[trigger] results@[k])@ == t,
            forall|k1: int, k2: int|
                0 <= k1 < k2 < results@.len() ==> lex_lt(
                    (#[trigger] results@[k1])@,
                    (#[trigger] results@[k2])@,
                ),
            is_prefix_listing(self@, s@, results@.map_values(|v: &String| v@)),
    {
        let mut results: Vec<&'a String> = Vec::new();
        proof {
            assert(s@.subrange(0, 0) =~= Seq::<char>::empty());
        }
        Node::descend_collect(&self.root, s, 0, &mut results);
        proof {
            let mapped = results@.map_values(|v: &String| v@);
            assert forall|k: int|
                0 <= k < mapped.len() implies #[trigger] mapped[k] == results@[k]@ by {}
            assert forall|t: Seq<char>|
                #![trigger self@.contains(t), s@.is_prefix_of(t)]
                self@.contains(t) && s@.is_prefix_of(t) implies exists|k: int|
                0 <= k < mapped.len() && mapped[k] == t by {
                assert(self.root.has(t));
                let k = choose|k: int|
                    0 <= k < results@.len() && (#[trigger] results@[k])@ == t;
                assert(mapped[k] == t);
            }
        }
        results
    }

    /// Prefix search, recursive descent over a shrinking slice of the
    /// prefix, borrowed results: same result set as `search`, in the same
    /// order.
    pub fn search_rec2<'a>(&'a self, s: &str) -> (results: Vec<&'a String>)
        requires
            self.wf(),
        ensures
            forall|k: int|
                0 <= k < results@.len() ==> self@.contains((#[trigger] results@[k])@)
                    && s@.is_prefix_of(results@[k]@),
            forall|t: Seq<char>|
                self@.contains(t) && s@.is_prefix_of(t) ==> exists|k: int|
                    0 <= k < results@.len() && (#[trigger] results@[k])@ == t,
            forall|k1: int, k2: int|
                0 <= k1 < k2 < results@.len() ==> lex_lt(
                    (#[trigger] results@[k1])@,
                    (#[trigger] results@[k2])@,
                ),
            is_prefix_listing(self@, s@, results@.map_values(|v: &String| v@)),
    {
        let mut results: Vec<&'a String> = Vec::new();
        proof {
            assert(Seq::<char>::empty() + s@ =~= s@);
        }
        Node::slice_collect(&self.root, s, &mut results, Ghost(Seq::empty()));
        proof {
            let mapped = results@.map_values(|v: &String| v@);
            assert forall|k: int|
                0 <= k < mapped.len() implies #[trigger] mapped[k] == results@[k]@ by {}
            assert forall|t: Seq<char>|
                #![trigger self@.contains(t), s@.is_prefix_of(t)]
                self@.contains(t) && s@.is_prefix_of(t) implies exists|k: int|
                0 <= k < mapped.len() && mapped[k] == t by {
                assert(self.root.has(t));
                let k = choose|k: int|
                    0 <= k < results@.len() && (#[trigger] results@[k])@ == t;
                assert(mapped[k] == t);
            }
        }
        results
    }
}

} // verus!
