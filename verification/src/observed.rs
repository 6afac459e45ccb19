use vstd::prelude::*;

verus! {

/// Tracks the connections a server currently owns: each accepted stream
/// is given a fresh slot on accept and gives it back when its last handle
/// is dropped, so that a stopping server can close every survivor.
#[derive(Debug)]
pub struct ObservedStreamList {
    ids: Vec<u64>,
    next_id: u64,
}

impl ObservedStreamList {
    /// The slots currently occupied, in the order they were given out.
    pub closed spec fn ids_seq(&self) -> Seq<u64> {
        self.ids@
    }

    /// The next slot that will be given out.
    pub closed spec fn spec_next_id(&self) -> u64 {
        self.next_id
    }

    /// Whether a slot is occupied.
    pub open spec fn contains_id(&self, id: u64) -> bool {
        exists|i: int| 0 <= i < self.ids_seq().len() && self.ids_seq()[i] == id
    }

    /// Well-formed: every occupied slot was given out once, and only
    /// slots below the counter were given out.
    pub open spec fn wf(&self) -> bool {
        &&& forall|i: int, j: int|
            0 <= i < j < self.ids_seq().len() ==> self.ids_seq()[i] != self.ids_seq()[j]
        &&& forall|i: int|
            0 <= i < self.ids_seq().len() ==> (#[trigger] self.ids_seq()[i])
                < self.spec_next_id()
    }

    /// An empty list.
    pub fn new() -> (r: Self)
        ensures
            r.wf(),
            r.ids_seq() =~= Seq::<u64>::empty(),
            r.spec_next_id() == 0,
    {
        ObservedStreamList { ids: Vec::new(), next_id: 0 }
    }

    /// The next slot that will be given out; callers check it is not yet
    /// the last one before asking for a slot.
    pub fn next_id(&self) -> (r: u64)
        ensures
            r == self.spec_next_id(),
    {
        self.next_id
    }

    /// Gives out a fresh slot for a newly accepted stream: the slot was
    /// not occupied before and is occupied afterwards.
    pub fn track(&mut self) -> (id: u64)
        requires
            old(self).wf(),
            old(self).spec_next_id() < u64::MAX,
        ensures
            final(self).wf(),
            id == old(self).spec_next_id(),
            !old(self).contains_id(id),
            final(self).contains_id(id),
            final(self).ids_seq() == old(self).ids_seq().push(id),
            final(self).spec_next_id() == old(self).spec_next_id() + 1,
    {
        let id = self.next_id;
        proof {
            if old(self).contains_id(id) {
                let i = choose|i: int|
                    0 <= i < old(self).ids_seq().len() && old(self).ids_seq()[i] == id;
                assert(old(self).ids_seq()[i] < id);
            }
        }
        self.ids.push(id);
        self.next_id = self.next_id + 1;
        proof {
            assert(self.ids_seq().last() == id);
            assert forall|a: int, b: int|
                0 <= a < b < self.ids_seq().len() implies self.ids_seq()[a]
                != self.ids_seq()[b] by {
                assert(self.ids_seq()[a] == old(self).ids_seq()[a]);
                if b < self.ids_seq().len() - 1 {
                    assert(self.ids_seq()[b] == old(self).ids_seq()[b]);
                } else {
                    assert(old(self).ids_seq()[a] < id);
                }
            }
            assert forall|a: int| 0 <= a < self.ids_seq().len() implies (
            #[trigger] self.ids_seq()[a]) < self.spec_next_id() by {
                if a < self.ids_seq().len() - 1 {
                    assert(self.ids_seq()[a] == old(self).ids_seq()[a]);
                }
            }
        }
        id
    }

    /// Takes a slot back when the last handle of its stream is dropped:
    /// the slot is free afterwards, and every other slot is untouched.
    #[verifier::loop_isolation(false)]
    pub fn dropped(&mut self, id: u64)
        requires
            old(self).wf(),
        ensures
            final(self).wf(),
            !final(self).contains_id(id),
            forall|x: u64| x != id ==> final(self).contains_id(x) == old(self).contains_id(x),
            final(self).spec_next_id() == old(self).spec_next_id(),
            old(self).contains_id(id) ==> final(self).ids_seq().len() == old(
                self,
            ).ids_seq().len() - 1,
            !old(self).contains_id(id) ==> final(self).ids_seq() == old(self).ids_seq(),
    {
        let n = self.ids.len();
        let mut i: usize = 0;
        while i < n
            invariant
                i <= n,
                n == self.ids@.len(),
                self.ids@ == old(self).ids@,
                self.next_id == old(self).next_id,
                forall|j: int| 0 <= j < i ==> old(self).ids_seq()[j] != id,
            decreases n - i,
        {
            if self.ids[i] == id {
                let ghost s0 = self.ids@;
                let _ = self.ids.remove(i);
                proof {
                    assert forall|x: u64| x != id implies self.contains_id(x) == old(
                        self,
                    ).contains_id(x) by {
                        if old(self).contains_id(x) {
                            let j = choose|j: int| 0 <= j < s0.len() && s0[j] == x;
                            if j < i {
                                assert(self.ids_seq()[j] == x);
                            } else {
                                assert(j != i);
                                assert(self.ids_seq()[j - 1] == x);
                            }
                        }
                        if self.contains_id(x) {
                            let j = choose|j: int|
                                0 <= j < self.ids_seq().len() && self.ids_seq()[j]
                                    == x;
                            if j < i {
                                assert(s0[j] == x);
                            } else {
                                assert(s0[j + 1] == x);
                            }
                        }
                    }
                    assert(!self.contains_id(id)) by {
                        if self.contains_id(id) {
                            let j = choose|j: int|
                                0 <= j < self.ids_seq().len() && self.ids_seq()[j]
                                    == id;
                            if j < i {
                                assert(s0[j] == id);
                            } else {
                                assert(s0[j + 1] == id);
                            }
                        }
                    }
                    assert forall|a: int, b: int|
                        0 <= a < b < self.ids_seq().len() implies self.ids_seq()[a]
                        != self.ids_seq()[b] by {
                        let sa: int = if a < i {
                            a
                        } else {
                            a + 1
                        };
                        let sb: int = if b < i {
                            b
                        } else {
                            b + 1
                        };
                        assert(self.ids_seq()[a] == s0[sa]);
                        assert(self.ids_seq()[b] == s0[sb]);
                    }
                    assert forall|a: int| 0 <= a < self.ids_seq().len() implies (
                    #[trigger] self.ids_seq()[a]) < self.spec_next_id() by {
                        let sa: int = if a < i {
                            a
                        } else {
                            a + 1
                        };
                        assert(self.ids_seq()[a] == s0[sa]);
                    }
                }
                return ;
            }
            i = i + 1;
        }
        proof {
            assert(!old(self).contains_id(id)) by {
                if old(self).contains_id(id) {
                    let j = choose|j: int|
                        0 <= j < old(self).ids_seq().len() && old(self).ids_seq()[j] == id;
                    assert(old(self).ids_seq()[j] != id);
                }
            }
        }
    }

    /// How many slots are occupied: one per live stream.
    pub fn len(&self) -> (r: usize)
        ensures
            r == self.ids_seq().len(),
    {
        self.ids.len()
    }

    /// Takes every occupied slot out, for a stopping server to close the
    /// streams behind them; the list is empty afterwards.
    pub fn drain(&mut self) -> (r: Vec<u64>)
        ensures
            r@ == old(self).ids_seq(),
            final(self).ids_seq() =~= Seq::<u64>::empty(),
            final(self).spec_next_id() == old(self).spec_next_id(),
            final(self).wf(),
    {
        let mut r: Vec<u64> = Vec::new();
        core::mem::swap(&mut r, &mut self.ids);
        r
    }
}

} // verus!
