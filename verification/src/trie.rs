use vstd::prelude::*;

verus! {

broadcast use vstd::std_specs::vec::group_vec_axioms, vstd::seq::group_seq_axioms, vstd::seq_lib::group_seq_lib_default;

/// Two octet sequences with the same first octet and the same remainder
/// are the same sequence.
pub proof fn lemma_eq_from_head_tail(a: Seq<u8>, b: Seq<u8>)
    requires
        a.len() >= 1,
        b.len() >= 1,
        a[0] == b[0],
        a.skip(1) == b.skip(1),
    ensures
        a == b,
{
    assert(a.skip(1).len() == a.len() - 1);
    assert(b.skip(1).len() == b.len() - 1);
    assert(a.skip(1).len() == b.skip(1).len());
    assert(a.len() == b.len());
    assert forall|i: int| 0 <= i < a.len() implies a[i] == b[i] by {
        if i >= 1 {
            assert(a.skip(1)[i - 1] == a[i]);
            assert(b.skip(1)[i - 1] == b[i]);
        }
    }
    assert(a =~= b);
}

/// One node of the routing trie: a 256-way branch over the next octet,
/// and the value stored at the key that ends here, if any.
#[derive(Debug)]
pub struct Node<T> {
    children: Vec<Option<Node<T>>>,
    value: Option<T>,
}

impl<T> Node<T> {
    /// Well-formed: every node branches over all 256 octets.
    pub closed spec fn wf(&self) -> bool
        decreases self,
    {
        &&& self.children@.len() == 256
        &&& forall|i: int|
            0 <= i < 256 ==> match (#[trigger] self.children@[i]) {
                Some(n) => n.wf(),
                None => true,
            }
    }

    /// The value stored under a key below this node.
    pub closed spec fn value_at(&self, key: Seq<u8>) -> Option<T>
        decreases key.len(),
    {
        if key.len() == 0 {
            self.value
        } else {
            match self.children@[key[0] as int] {
                None => None,
                Some(n) => n.value_at(key.skip(1)),
            }
        }
    }

    /// What walking the key from this node returns: the value at the
    /// deepest node along the key that holds one, or the deepest value
    /// seen on the way here.
    pub closed spec fn prefix_lookup(&self, key: Seq<u8>, pv: Option<T>) -> Option<T>
        decreases key.len(),
    {
        let here = if self.value is Some {
            self.value
        } else {
            pv
        };
        if key.len() == 0 {
            here
        } else {
            match self.children@[key[0] as int] {
                None => here,
                Some(n) => n.prefix_lookup(key.skip(1), here),
            }
        }
    }

    /// A full, empty branch table.
    pub fn empty_children() -> (r: Vec<Option<Node<T>>>)
        ensures
            r@.len() == 256,
            forall|i: int| 0 <= i < 256 ==> (#[trigger] r@[i]) is None,
    {
        let mut children: Vec<Option<Node<T>>> = Vec::new();
        let mut i: usize = 0;
        while i < 256
            invariant
                i <= 256,
                children@.len() == i,
                forall|j: int| 0 <= j < i ==> (#[trigger] children@[j]) is None,
            decreases 256 - i,
        {
            children.push(None);
            i = i + 1;
        }
        children
    }

    /// A node holding nothing, under no key.
    pub fn new() -> (r: Node<T>)
        ensures
            r.wf(),
            forall|k: Seq<u8>| (#[trigger] r.value_at(k)) is None,
    {
        let children = Self::empty_children();
        let r = Node::<T> { children, value: None };
        proof {
            assert forall|k: Seq<u8>| (#[trigger] r.value_at(k)) is None by {
                if k.len() > 0 {
                    assert(r.children@[k[0] as int] is None);
                }
            }
        }
        r
    }

    /// Stores a value in the branch table under a non-empty key, creating
    /// nodes as needed; other keys keep their values.
    pub fn add_value_to_children(children: &mut Vec<Option<Node<T>>>, key: &[u8], value: T)
        requires
            key@.len() >= 1,
            old(children)@.len() == 256,
            forall|i: int|
                0 <= i < 256 ==> match (#[trigger] old(children)@[i]) {
                    Some(n) => n.wf(),
                    None => true,
                },
        ensures
            final(children)@.len() == 256,
            forall|i: int|
                0 <= i < 256 ==> match (#[trigger] final(children)@[i]) {
                    Some(n) => n.wf(),
                    None => true,
                },
            forall|i: int|
                0 <= i < 256 && i != key@[0] as int ==> final(children)@[i] == old(children)@[i],
            final(children)@[key@[0] as int] matches Some(c) && forall|k2: Seq<u8>|
                #[trigger] c.value_at(k2) == if k2 == key@.skip(1) {
                    Some(value)
                } else {
                    match old(children)@[key@[0] as int] {
                        Some(oc) => oc.value_at(k2),
                        None => None::<T>,
                    }
                },
        decreases key@.len(), 0int,
    {
        let pos = key[0] as usize;
        let child_opt = children.remove(pos);
        let mut node = match child_opt {
            None => Node::new(),
            Some(n) => n,
        };
        node.add_value(&key[1..key.len()], value);
        children.insert(pos, Some(node));
        proof {
            assert(final(children)@ =~= old(children)@.update(pos as int, final(children)@[pos as int]));
        }
    }

    /// Stores a value under a key below this node; other keys keep their
    /// values.
    pub fn add_value(&mut self, key: &[u8], value: T)
        requires
            old(self).wf(),
        ensures
            final(self).wf(),
            forall|k: Seq<u8>|
                #[trigger] final(self).value_at(k) == if k == key@ {
                    Some(value)
                } else {
                    old(self).value_at(k)
                },
        decreases key@.len(), 1int,
    {
        if key.len() == 0 {
            self.value = Some(value);
            proof {
                assert forall|k: Seq<u8>| #[trigger]
                    final(self).value_at(k) == if k == key@ {
                        Some(value)
                    } else {
                        old(self).value_at(k)
                    } by {
                    if k.len() == 0 {
                        assert(k =~= key@);
                    } else {
                        assert(k != key@);
                    }
                }
            }
            return ;
        }
        Self::add_value_to_children(&mut self.children, key, value);
        proof {
            assert(key@.subrange(1, key@.len() as int) == key@.skip(1));
            assert forall|k: Seq<u8>| #[trigger]
                final(self).value_at(k) == if k == key@ {
                    Some(value)
                } else {
                    old(self).value_at(k)
                } by {
                let fc = final(self).children@;
                let oc = old(self).children@;
                if k.len() == 0 {
                    assert(k != key@);
                } else {
                    let p = k[0] as int;
                    if k[0] == key@[0] {
                        assert(fc[p] matches Some(c) && c.value_at(k.skip(1)) == (
                        if k.skip(1) == key@.skip(1) {
                            Some(value)
                        } else {
                            match oc[p] {
                                Some(n) => n.value_at(k.skip(1)),
                                None => None::<T>,
                            }
                        }));
                        if k.skip(1) == key@.skip(1) {
                            lemma_eq_from_head_tail(k, key@);
                        } else {
                            assert(k != key@);
                        }
                    } else {
                        assert(k != key@);
                        assert(fc[p] == oc[p]);
                    }
                }
            }
        }
    }

    /// The value stored under a key below this node, by reference.
    pub fn get_value(&self, key: &[u8]) -> (r: Option<&T>)
        requires
            self.wf(),
        ensures
            r is Some <==> self.value_at(key@) is Some,
            r matches Some(v) ==> self.value_at(key@) == Some(*v),
        decreases key@.len(),
    {
        if key.len() == 0 {
            return self.value.as_ref();
        }
        let pos = key[0] as usize;
        let child = match &self.children[pos] {
            None => {
                return None;
            },
            Some(node) => node,
        };
        let r = child.get_value(&key[1..key.len()]);
        proof {
            assert(key@.subrange(1, key@.len() as int) == key@.skip(1));
        }
        r
    }

    /// Walks the key from this node, remembering the deepest value seen,
    /// and returns the deepest value found.
    pub fn get_value_prefix<'a>(&'a self, key: &[u8], prefix_value: Option<&'a T>) -> (r: Option<
        &'a T,
    >)
        requires
            self.wf(),
        ensures
            ({
                let pv = match prefix_value {
                    Some(v) => Some(*v),
                    None => None::<T>,
                };
                match r {
                    Some(v) => self.prefix_lookup(key@, pv) == Some(*v),
                    None => self.prefix_lookup(key@, pv) is None,
                }
            }),
        decreases key@.len(),
    {
        if key.len() == 0 {
            if self.value.is_some() {
                return self.value.as_ref();
            }
            return prefix_value;
        }
        let pos = key[0] as usize;
        let child = match &self.children[pos] {
            None => {
                if self.value.is_some() {
                    return self.value.as_ref();
                }
                return prefix_value;
            },
            Some(node) => node,
        };
        let next_parent = match &self.value {
            None => prefix_value,
            Some(value) => Some(value),
        };
        let r = child.get_value_prefix(&key[1..key.len()], next_parent);
        proof {
            assert(key@.subrange(1, key@.len() as int) == key@.skip(1));
        }
        r
    }

    /// Takes the value stored under a key below this node out; other keys
    /// keep their values.
    pub fn move_value_out(&mut self, key: &[u8]) -> (r: Option<T>)
        requires
            old(self).wf(),
        ensures
            final(self).wf(),
            r == old(self).value_at(key@),
            forall|k: Seq<u8>|
                #[trigger] final(self).value_at(k) == if k == key@ {
                    None::<T>
                } else {
                    old(self).value_at(k)
                },
        decreases key@.len(),
    {
        if key.len() == 0 {
            let r = self.value.take();
            proof {
                assert forall|k: Seq<u8>| #[trigger]
                    final(self).value_at(k) == if k == key@ {
                        None::<T>
                    } else {
                        old(self).value_at(k)
                    } by {
                    if k.len() == 0 {
                        assert(k =~= key@);
                    } else {
                        assert(k != key@);
                    }
                }
            }
            return r;
        }
        let pos = key[0] as usize;
        if self.children[pos].is_none() {
            proof {
                assert forall|k: Seq<u8>| #[trigger]
                    self.value_at(k) == if k == key@ {
                        None::<T>
                    } else {
                        old(self).value_at(k)
                    } by {
                    if k == key@ {
                        assert(self.value_at(k) is None);
                    }
                }
            }
            return None;
        }
        let child_opt = self.children.remove(pos);
        let mut node = match child_opt {
            None => vstd::pervasive::unreached(),
            Some(n) => n,
        };
        let r = node.move_value_out(&key[1..key.len()]);
        self.children.insert(pos, Some(node));
        proof {
            assert(key@.subrange(1, key@.len() as int) == key@.skip(1));
            assert(self.children@ =~= old(self).children@.update(
                pos as int,
                self.children@[pos as int],
            ));
            assert forall|k: Seq<u8>| #[trigger]
                self.value_at(k) == if k == key@ {
                    None::<T>
                } else {
                    old(self).value_at(k)
                } by {
                let fc = self.children@;
                let oc = old(self).children@;
                if k.len() == 0 {
                    assert(k != key@);
                } else {
                    let p = k[0] as int;
                    if k[0] == key@[0] {
                        assert(fc[p] matches Some(c) && c.value_at(k.skip(1)) == (
                        if k.skip(1) == key@.skip(1) {
                            None::<T>
                        } else {
                            match oc[p] {
                                Some(n) => n.value_at(k.skip(1)),
                                None => None::<T>,
                            }
                        }));
                        if k.skip(1) == key@.skip(1) {
                            lemma_eq_from_head_tail(k, key@);
                        } else {
                            assert(k != key@);
                        }
                    } else {
                        assert(k != key@);
                        assert(fc[p] == oc[p]);
                    }
                }
            }
        }
        r
    }
}

/// A 256-way trie over the octets of a key; the root itself stores no
/// value, so only non-empty keys can hold one.
#[derive(Debug)]
pub struct Trie<T> {
    children: Vec<Option<Node<T>>>,
}

impl<T> Trie<T> {
    /// Well-formed: a full branch table of well-formed nodes.
    pub closed spec fn wf(&self) -> bool {
        &&& self.children@.len() == 256
        &&& forall|i: int|
            0 <= i < 256 ==> match (#[trigger] self.children@[i]) {
                Some(n) => n.wf(),
                None => true,
            }
    }

    /// The value stored under a key; the empty key holds none.
    pub closed spec fn value_at(&self, key: Seq<u8>) -> Option<T> {
        if key.len() == 0 {
            None
        } else {
            match self.children@[key[0] as int] {
                None => None,
                Some(n) => n.value_at(key.skip(1)),
            }
        }
    }

    /// The value at the deepest non-empty prefix of the key that holds
    /// one, or nothing.
    pub closed spec fn prefix_value(&self, key: Seq<u8>) -> Option<T> {
        if key.len() == 0 {
            None
        } else {
            match self.children@[key[0] as int] {
                None => None,
                Some(n) => n.prefix_lookup(key.skip(1), None),
            }
        }
    }

    /// An empty trie.
    pub fn new() -> (r: Self)
        ensures
            r.wf(),
            forall|k: Seq<u8>| (#[trigger] r.value_at(k)) is None,
            forall|k: Seq<u8>| (#[trigger] r.prefix_value(k)) is None,
    {
        let children = Node::empty_children();
        let r = Trie { children };
        proof {
            assert forall|k: Seq<u8>| (#[trigger] r.value_at(k)) is None by {
                if k.len() > 0 {
                    assert(r.children@[k[0] as int] is None);
                }
            }
            assert forall|k: Seq<u8>| (#[trigger] r.prefix_value(k)) is None by {
                if k.len() > 0 {
                    assert(r.children@[k[0] as int] is None);
                }
            }
        }
        r
    }

    /// Stores a value under a non-empty key; other keys keep their
    /// values.
    pub fn add_value(&mut self, key: &[u8], value: T)
        requires
            old(self).wf(),
            key@.len() >= 1,
        ensures
            final(self).wf(),
            forall|k: Seq<u8>|
                #[trigger] final(self).value_at(k) == if k == key@ {
                    Some(value)
                } else {
                    old(self).value_at(k)
                },
    {
        Node::add_value_to_children(&mut self.children, key, value);
        proof {
            assert forall|k: Seq<u8>| #[trigger]
                final(self).value_at(k) == if k == key@ {
                    Some(value)
                } else {
                    old(self).value_at(k)
                } by {
                if k.len() == 0 {
                    assert(k != key@);
                } else {
                    if k[0] == key@[0] {
                        if k.skip(1) == key@.skip(1) {
                            lemma_eq_from_head_tail(k, key@);
                        } else {
                            assert(k != key@);
                        }
                    } else {
                        assert(k != key@);
                    }
                }
            }
        }
    }

    /// The value stored under a key, by reference.
    pub fn get_value(&self, key: &[u8]) -> (r: Option<&T>)
        requires
            self.wf(),
        ensures
            r is Some <==> self.value_at(key@) is Some,
            r matches Some(v) ==> self.value_at(key@) == Some(*v),
    {
        if key.len() == 0 {
            return None;
        }
        let pos = key[0] as usize;
        let child = match &self.children[pos] {
            None => {
                return None;
            },
            Some(node) => node,
        };
        let r = child.get_value(&key[1..key.len()]);
        proof {
            assert(key@.subrange(1, key@.len() as int) == key@.skip(1));
        }
        r
    }

    /// Takes the value stored under a key out; other keys keep their
    /// values.
    pub fn move_value_out(&mut self, key: &[u8]) -> (r: Option<T>)
        requires
            old(self).wf(),
        ensures
            final(self).wf(),
            r == old(self).value_at(key@),
            forall|k: Seq<u8>|
                #[trigger] final(self).value_at(k) == if k == key@ {
                    None::<T>
                } else {
                    old(self).value_at(k)
                },
    {
        if key.len() == 0 {
            proof {
                assert forall|k: Seq<u8>| #[trigger]
                    final(self).value_at(k) == if k == key@ {
                        None::<T>
                    } else {
                        old(self).value_at(k)
                    } by {
                    if k == key@ {
                        assert(final(self).value_at(k) is None);
                    }
                }
            }
            return None;
        }
        let pos = key[0] as usize;
        if self.children[pos].is_none() {
            proof {
                assert forall|k: Seq<u8>| #[trigger]
                    self.value_at(k) == if k == key@ {
                        None::<T>
                    } else {
                        old(self).value_at(k)
                    } by {
                    if k == key@ {
                        assert(self.value_at(k) is None);
                    }
                }
            }
            return None;
        }
        let child_opt = self.children.remove(pos);
        let mut node = match child_opt {
            None => vstd::pervasive::unreached(),
            Some(n) => n,
        };
        let r = node.move_value_out(&key[1..key.len()]);
        self.children.insert(pos, Some(node));
        proof {
            assert(key@.subrange(1, key@.len() as int) == key@.skip(1));
            assert(self.children@ =~= old(self).children@.update(
                pos as int,
                self.children@[pos as int],
            ));
            assert forall|k: Seq<u8>| #[trigger]
                self.value_at(k) == if k == key@ {
                    None::<T>
                } else {
                    old(self).value_at(k)
                } by {
                if k.len() == 0 {
                    assert(k != key@);
                } else {
                    if k[0] == key@[0] {
                        if k.skip(1) == key@.skip(1) {
                            lemma_eq_from_head_tail(k, key@);
                        } else {
                            assert(k != key@);
                        }
                    } else {
                        assert(k != key@);
                    }
                }
            }
        }
        r
    }

    /// The value at the deepest non-empty prefix of the key that holds
    /// one, by reference.
    pub fn get_value_prefix(&self, key: &[u8]) -> (r: Option<&T>)
        requires
            self.wf(),
        ensures
            r is Some <==> self.prefix_value(key@) is Some,
            r matches Some(v) ==> self.prefix_value(key@) == Some(*v),
    {
        if key.len() == 0 {
            return None;
        }
        let pos = key[0] as usize;
        let child = match &self.children[pos] {
            None => {
                return None;
            },
            Some(node) => node,
        };
        let r = child.get_value_prefix(&key[1..key.len()], None);
        proof {
            assert(key@.subrange(1, key@.len() as int) == key@.skip(1));
        }
        r
    }
}


/// What walking a key with a remembered value returns: the value at the
/// deepest prefix of the key (the node itself included) that holds one,
/// and the remembered value where none does.
pub proof fn lemma_prefix_lookup_deepest<T>(n: &Node<T>, key: Seq<u8>, pv: Option<T>)
    requires
        n.wf(),
    ensures
        (exists|l: int| 0 <= l <= key.len() && (#[trigger] n.value_at(key.take(l))) is Some)
            ==> (exists|l: int|
            0 <= l <= key.len() && (#[trigger] n.value_at(key.take(l))) is Some
                && n.prefix_lookup(key, pv) == n.value_at(key.take(l)) && forall|m: int|
                l < m <= key.len() ==> n.value_at(#[trigger] key.take(m)) is None),
        (forall|l: int| 0 <= l <= key.len() ==> (#[trigger] n.value_at(key.take(l))) is None)
            ==> n.prefix_lookup(key, pv) == pv,
    decreases key.len(),
{
    if key.len() == 0 {
        assert(key.take(0) =~= key);
        if n.value is Some {
            assert(n.value_at(key.take(0)) is Some);
            assert forall|m: int| 0 < m <= key.len() implies n.value_at(
                #[trigger] key.take(m),
            ) is None by {}
        }
    } else {
        let rest = key.skip(1);
        assert(key.take(0) =~= Seq::<u8>::empty());
        match n.children@[key[0] as int] {
            None => {
                assert forall|l: int| 1 <= l <= key.len() implies n.value_at(
                    #[trigger] key.take(l),
                ) is None by {
                    assert(key.take(l)[0] == key[0]);
                }
                if n.value is Some {
                    assert(n.value_at(key.take(0)) is Some);
                }
            },
            Some(c) => {
                let here = if n.value is Some {
                    n.value
                } else {
                    pv
                };
                lemma_prefix_lookup_deepest(&c, rest, here);
                assert forall|l: int| 1 <= l <= key.len() implies n.value_at(
                    #[trigger] key.take(l),
                ) == c.value_at(rest.take(l - 1)) by {
                    assert(key.take(l)[0] == key[0]);
                    assert(key.take(l).skip(1) =~= rest.take(l - 1));
                }
                if exists|l: int|
                    0 <= l <= rest.len() && (#[trigger] c.value_at(rest.take(l))) is Some {
                    assert(exists|l: int|
                        0 <= l <= rest.len() && (#[trigger] c.value_at(rest.take(l))) is Some
                            && c.prefix_lookup(rest, here) == c.value_at(rest.take(l)) && forall|
                            m: int,
                        | l < m <= rest.len() ==> c.value_at(#[trigger] rest.take(m)) is None);
                    let lw = choose|l: int|
                        0 <= l <= rest.len() && (#[trigger] c.value_at(rest.take(l))) is Some
                            && c.prefix_lookup(rest, here) == c.value_at(rest.take(l)) && forall|
                            m: int,
                        | l < m <= rest.len() ==> c.value_at(#[trigger] rest.take(m)) is None;
                    assert(0 <= lw <= rest.len() && c.value_at(rest.take(lw)) is Some);
                    assert(c.prefix_lookup(rest, here) == c.value_at(rest.take(lw)));
                    assert(n.value_at(key.take(lw + 1)) is Some);
                    assert(n.prefix_lookup(key, pv) == n.value_at(key.take(lw + 1)));
                    assert forall|m: int| lw + 1 < m <= key.len() implies n.value_at(
                        #[trigger] key.take(m),
                    ) is None by {
                        assert(c.value_at(rest.take(m - 1)) is None);
                    }
                } else {
                    assert forall|l: int| 0 <= l <= rest.len() implies (#[trigger] c.value_at(
                        rest.take(l),
                    )) is None by {}
                    assert(c.prefix_lookup(rest, here) == here);
                    if n.value is Some {
                        assert(n.value_at(key.take(0)) is Some);
                        assert forall|m: int| 0 < m <= key.len() implies n.value_at(
                            #[trigger] key.take(m),
                        ) is None by {
                            assert(c.value_at(rest.take(m - 1)) is None);
                        }
                    } else {
                        assert forall|l: int| 0 <= l <= key.len() implies n.value_at(
                            #[trigger] key.take(l),
                        ) is None by {
                            if l >= 1 {
                                assert(c.value_at(rest.take(l - 1)) is None);
                            }
                        }
                    }
                }
            },
        }
    }
}

/// The law of longest-prefix lookup: it returns the value stored at the
/// deepest non-empty prefix of the key that holds one, and nothing where
/// no prefix holds a value.
pub proof fn lemma_trie_prefix_deepest<T>(t: &Trie<T>, key: Seq<u8>)
    requires
        t.wf(),
    ensures
        (exists|l: int| 1 <= l <= key.len() && (#[trigger] t.value_at(key.take(l))) is Some)
            ==> (exists|l: int|
            1 <= l <= key.len() && (#[trigger] t.value_at(key.take(l))) is Some && t.prefix_value(
                key,
            ) == t.value_at(key.take(l)) && forall|m: int|
                l < m <= key.len() ==> t.value_at(#[trigger] key.take(m)) is None),
        (forall|l: int| 1 <= l <= key.len() ==> (#[trigger] t.value_at(key.take(l))) is None)
            ==> t.prefix_value(key) is None,
{
    if key.len() == 0 {
    } else {
        let rest = key.skip(1);
        match t.children@[key[0] as int] {
            None => {
                assert forall|l: int| 1 <= l <= key.len() implies t.value_at(
                    #[trigger] key.take(l),
                ) is None by {
                    assert(key.take(l)[0] == key[0]);
                }
            },
            Some(c) => {
                lemma_prefix_lookup_deepest(&c, rest, None::<T>);
                assert forall|l: int| 1 <= l <= key.len() implies t.value_at(
                    #[trigger] key.take(l),
                ) == c.value_at(rest.take(l - 1)) by {
                    assert(key.take(l)[0] == key[0]);
                    assert(key.take(l).skip(1) =~= rest.take(l - 1));
                }
                if exists|l: int|
                    0 <= l <= rest.len() && (#[trigger] c.value_at(rest.take(l))) is Some {
                    let lw = choose|l: int|
                        0 <= l <= rest.len() && (#[trigger] c.value_at(rest.take(l))) is Some
                            && c.prefix_lookup(rest, None::<T>) == c.value_at(rest.take(l))
                            && forall|m: int|
                            l < m <= rest.len() ==> c.value_at(#[trigger] rest.take(m)) is None;
                    assert(t.value_at(key.take(lw + 1)) is Some);
                    assert(t.prefix_value(key) == t.value_at(key.take(lw + 1)));
                    assert forall|m: int| lw + 1 < m <= key.len() implies t.value_at(
                        #[trigger] key.take(m),
                    ) is None by {
                        assert(c.value_at(rest.take(m - 1)) is None);
                    }
                } else {
                    assert forall|l: int| 0 <= l <= rest.len() implies (#[trigger] c.value_at(
                        rest.take(l),
                    )) is None by {}
                    assert(c.prefix_lookup(rest, None::<T>) is None);
                }
            },
        }
    }
}

} // verus!
