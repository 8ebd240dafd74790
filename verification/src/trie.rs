//! The prefix tree of special tokens that splitting walks character by
//! character.
use vstd::prelude::*;

verus! {

/// A node of the special-token prefix tree. The root stands for the empty
/// prefix; every other node stands for its parent's prefix extended by `ch`.
pub struct SpecialsTreeNode {
    pub ch: char,
    pub children: Vec<SpecialsTreeNode>,
    pub value: Option<String>,
}

/// Whether `p` begins some special token.
pub open spec fn begins_special(specials: Set<Seq<char>>, p: Seq<char>) -> bool {
    exists|s: Seq<char>| #[trigger] specials.contains(s) && p.is_prefix_of(s)
}

/// Whether some child is labelled `c`.
pub open spec fn has_child(children: Seq<SpecialsTreeNode>, c: char) -> bool {
    exists|k: int| 0 <= k < children.len() && #[trigger] children[k].ch == c
}

impl SpecialsTreeNode {
    /// The node for `path` holds exactly the special tokens `specials`: it
    /// carries a value exactly when `path` is one of them (and then the value
    /// is `path`), it has a child for a character exactly when `path`
    /// extended by it begins a special token, no two children share a label,
    /// and every child holds the same tokens for its own path.
    pub open spec fn models(self, path: Seq<char>, specials: Set<Seq<char>>) -> bool
        decreases self,
    {
        &&& (self.value is Some <==> specials.contains(path))
        &&& (self.value matches Some(v) ==> v@ == path)
        &&& (forall|c: char| has_child(self.children@, c) <==> #[trigger] begins_special(specials, path.push(c)))
        &&& (forall|i: int, j: int|
            0 <= i < self.children@.len() && 0 <= j < self.children@.len() && i != j ==> #[trigger] self.children@[i].ch
                != #[trigger] self.children@[j].ch)
        &&& (forall|i: int|
            0 <= i < self.children@.len() ==> (#[trigger] self.children@[i]).models(
                path.push(self.children@[i].ch),
                specials,
            ))
    }

    /// A new root that holds no special token.
    pub fn root() -> (r: SpecialsTreeNode)
        ensures
            r.models(Seq::empty(), Set::empty()),
    {
        SpecialsTreeNode { ch: '\0', children: Vec::new(), value: None }
    }

    /// The position of the child labelled `c`, if there is one.
    pub fn find_child(&self, c: char) -> (r: Option<usize>)
        ensures
            r matches Some(k) ==> k < self.children@.len() && self.children@[k as int].ch == c,
            r is None ==> !has_child(self.children@, c),
    {
        let n = self.children.len();
        let mut k: usize = 0;
        while k < n
            invariant
                k <= n,
                n == self.children@.len(),
                forall|j: int| 0 <= j < k ==> self.children@[j].ch != c,
            decreases n - k,
        {
            if self.children[k].ch == c {
                return Some(k);
            }
            k = k + 1;
        }
        None
    }

    /// A node that holds the tokens `specials` still holds them, together
    /// with `s`, when its path does not begin `s`.
    proof fn lemma_models_unaffected(self, path: Seq<char>, specials: Set<Seq<char>>, s: Seq<char>)
        requires
            self.models(path, specials),
            !path.is_prefix_of(s),
        ensures
            self.models(path, specials.insert(s)),
        decreases self,
    {
        let sp = specials.insert(s);
        assert(path != s);
        assert forall|c: char| has_child(self.children@, c) <==> #[trigger] begins_special(sp, path.push(c)) by {
            if begins_special(sp, path.push(c)) {
                let t = choose|t: Seq<char>| #[trigger] sp.contains(t) && path.push(c).is_prefix_of(t);
                if t == s {
                    assert(path.is_prefix_of(s)) by {
                        assert forall|k: int| 0 <= k < path.len() implies path[k] == s[k] by {
                            assert(path.push(c)[k] == path[k]);
                        }
                    }
                }
                assert(begins_special(specials, path.push(c)));
            }
            if begins_special(specials, path.push(c)) {
                let t = choose|t: Seq<char>| #[trigger] specials.contains(t) && path.push(c).is_prefix_of(t);
                assert(sp.contains(t));
            }
        }
        assert forall|i: int| 0 <= i < self.children@.len() implies (#[trigger] self.children@[i]).models(
            path.push(self.children@[i].ch),
            sp,
        ) by {
            let child = self.children@[i];
            assert(self.children@[i].models(path.push(self.children@[i].ch), specials));
            assert(!path.push(child.ch).is_prefix_of(s)) by {
                if path.push(child.ch).is_prefix_of(s) {
                    assert forall|k: int| 0 <= k < path.len() implies path[k] == s[k] by {
                        assert(path.push(child.ch)[k] == path[k]);
                    }
                }
            }
            child.lemma_models_unaffected(path.push(child.ch), specials, s);
        }
    }

    /// A node with no value and no children holds the tokens `specials` for
    /// a path that begins none of them.
    proof fn lemma_leaf(node: SpecialsTreeNode, path: Seq<char>, specials: Set<Seq<char>>)
        requires
            node.value is None,
            node.children@.len() == 0,
            !begins_special(specials, path),
        ensures
            node.models(path, specials),
    {
        assert(!specials.contains(path)) by {
            if specials.contains(path) {
                assert(path.is_prefix_of(path));
            }
        }
        assert forall|c2: char| has_child(node.children@, c2) <==> #[trigger] begins_special(specials, path.push(c2)) by {
            if begins_special(specials, path.push(c2)) {
                let t = choose|t: Seq<char>| #[trigger] specials.contains(t) && path.push(c2).is_prefix_of(t);
                assert(path.is_prefix_of(t)) by {
                    assert forall|m: int| 0 <= m < path.len() implies path[m] == t[m] by {
                        assert(path.push(c2)[m] == path[m]);
                    }
                }
            }
        }
    }

    /// Adds the special token `s` below this node, which stands for the
    /// first `i` characters of `s`; `text` is `s` as a string.
    pub fn insert(&mut self, s: &Vec<char>, i: usize, text: &String, Ghost(specials): Ghost<Set<Seq<char>>>)
        requires
            i <= s@.len(),
            text@ == s@,
            old(self).models(s@.take(i as int), specials),
        ensures
            final(self).models(s@.take(i as int), specials.insert(s@)),
            final(self).ch == old(self).ch,
        decreases s@.len() - i,
    {
        let ghost path = s@.take(i as int);
        let ghost sp = specials.insert(s@);
        if i == s.len() {
            self.value = Some(text.clone());
            proof {
                assert(path == s@);
                assert forall|c: char| has_child(self.children@, c) <==> #[trigger] begins_special(sp, path.push(c)) by {
                    if begins_special(sp, path.push(c)) {
                        let t = choose|t: Seq<char>| #[trigger] sp.contains(t) && path.push(c).is_prefix_of(t);
                        assert(t != s@);
                        assert(begins_special(specials, path.push(c)));
                    }
                    if begins_special(specials, path.push(c)) {
                        let t = choose|t: Seq<char>| #[trigger] specials.contains(t) && path.push(c).is_prefix_of(t);
                        assert(sp.contains(t));
                    }
                }
                assert forall|j: int| 0 <= j < self.children@.len() implies (#[trigger] self.children@[j]).models(
                    path.push(self.children@[j].ch),
                    sp,
                ) by {
                    let child = self.children@[j];
                    assert(!path.push(child.ch).is_prefix_of(s@));
                    child.lemma_models_unaffected(path.push(child.ch), specials, s@);
                }
            }
        } else {
            let c = s[i];
            let ghost next = s@.take(i + 1);
            assert(next == path.push(c));
            let ghost old_children = self.children@;
            match self.find_child(c) {
                Some(k) => {
                    let mut child = self.children.remove(k);
                    assert(child == old_children[k as int]);
                    child.insert(s, i + 1, text, Ghost(specials));
                    self.children.insert(k, child);
                    assert(self.children@ == old_children.update(k as int, child));
                },
                None => {
                    let mut child = SpecialsTreeNode { ch: c, children: Vec::new(), value: None };
                    proof {
                        assert(child.children@.len() == 0);
                        SpecialsTreeNode::lemma_leaf(child, next, specials);
                    }
                    child.insert(s, i + 1, text, Ghost(specials));
                    self.children.push(child);
                    assert(self.children@ == old_children.push(child));
                },
            }
            proof {
                assert(s@.take(i + 1) == next);
                assert(next.is_prefix_of(s@));
                assert forall|c2: char| has_child(self.children@, c2) <==> #[trigger] begins_special(sp, path.push(c2)) by {
                    if c2 == c {
                        assert(sp.contains(s@));
                        let w = if has_child(old_children, c) { choose|k: int| 0 <= k < old_children.len() && #[trigger] old_children[k].ch == c } else { old_children.len() as int };
                        assert(self.children@[w].ch == c);
                    } else {
                        if has_child(self.children@, c2) {
                            let k = choose|k: int| 0 <= k < self.children@.len() && #[trigger] self.children@[k].ch == c2;
                            assert(old_children[k].ch == c2);
                            assert(begins_special(specials, path.push(c2)));
                            let t = choose|t: Seq<char>| #[trigger] specials.contains(t) && path.push(c2).is_prefix_of(t);
                            assert(sp.contains(t));
                        }
                        if begins_special(sp, path.push(c2)) {
                            let t = choose|t: Seq<char>| #[trigger] sp.contains(t) && path.push(c2).is_prefix_of(t);
                            if t == s@ {
                                assert(path.push(c2)[i as int] == s@[i as int]);
                            }
                            assert(begins_special(specials, path.push(c2)));
                            let k = choose|k: int| 0 <= k < old_children.len() && #[trigger] old_children[k].ch == c2;
                            assert(self.children@[k].ch == c2);
                        }
                    }
                }
                assert forall|j: int| 0 <= j < self.children@.len() implies (#[trigger] self.children@[j]).models(
                    path.push(self.children@[j].ch),
                    sp,
                ) by {
                    let child = self.children@[j];
                    if child.ch != c {
                        assert(old_children[j] == child);
                        assert(!path.push(child.ch).is_prefix_of(s@)) by {
                            if path.push(child.ch).is_prefix_of(s@) {
                                assert(path.push(child.ch)[i as int] == s@[i as int]);
                            }
                        }
                        child.lemma_models_unaffected(path.push(child.ch), specials, s@);
                    }
                }
            }
        }
    }
}

} // verus!
