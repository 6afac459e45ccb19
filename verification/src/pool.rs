use crate::text::str_eq;
use vstd::prelude::*;

verus! {

/// How long a pooled connection may sit idle before the sweeper removes
/// it, unless the pool was built with another limit.
pub const DEFAULT_IDLE_RESOURCE_TIMEOUT_SECS: u64 = 30;

/// How often the sweeper wakes to remove idle connections.
pub const EXPIRE_RESOURCE_CYCLE_SECS: u64 = 15;

/// The most connections the pool will hold at once.
pub const MAX_RESOURCES: usize = 100;

/// One pooled resource together with the moment it was last used.
#[derive(Debug)]
pub struct PoolResource<T> {
    resource: T,
    last_used: u64,
}

impl<T> PoolResource<T> {
    /// The resource held.
    pub closed spec fn spec_resource(&self) -> T {
        self.resource
    }

    /// The moment the resource was last used, in seconds of a monotonic
    /// clock.
    pub closed spec fn spec_last_used(&self) -> u64 {
        self.last_used
    }

    /// Wraps a resource, marking it last used now.
    pub fn new(resource: T, now: u64) -> (r: Self)
        ensures
            r.spec_resource() == resource,
            r.spec_last_used() == now,
    {
        PoolResource { resource, last_used: now }
    }

    /// Takes the resource back out.
    pub fn resource(self) -> (r: T)
        ensures
            r == self.spec_resource(),
    {
        self.resource
    }
}

/// Where a key stands among the pool entries, or -1 where it does not.
pub open spec fn find_key<T>(s: Seq<(Seq<char>, PoolResource<T>)>, key: Seq<char>) -> int
    decreases s.len(),
{
    if s.len() == 0 {
        -1
    } else if s[0].0 == key {
        0
    } else {
        let r = find_key(s.skip(1), key);
        if r == -1 {
            -1
        } else {
            r + 1
        }
    }
}

/// What finding a key means.
pub proof fn lemma_find_key<T>(s: Seq<(Seq<char>, PoolResource<T>)>, key: Seq<char>)
    ensures
        find_key(s, key) == -1 ==> forall|j: int| 0 <= j < s.len() ==> (#[trigger] s[j]).0 != key,
        find_key(s, key) != -1 ==> 0 <= find_key(s, key) < s.len() && s[find_key(s, key)].0 == key,
        find_key(s, key) != -1 ==> forall|j: int|
            0 <= j < find_key(s, key) ==> (#[trigger] s[j]).0 != key,
    decreases s.len(),
{
    if s.len() > 0 && s[0].0 != key {
        lemma_find_key(s.skip(1), key);
        let r = find_key(s.skip(1), key);
        if r == -1 {
            assert forall|j: int| 0 <= j < s.len() implies (#[trigger] s[j]).0 != key by {
                if j > 0 {
                    assert(s.skip(1)[j - 1] == s[j]);
                }
            }
        } else {
            assert(s.skip(1)[r] == s[r + 1]);
            assert forall|j: int| 0 <= j < find_key(s, key) implies (#[trigger] s[j]).0 != key by {
                if j > 0 {
                    assert(s.skip(1)[j - 1] == s[j]);
                }
            }
        }
    }
}

/// The entry least recently used: the first among those with the
/// earliest last-used moment.
pub open spec fn lru_index<T>(s: Seq<(Seq<char>, PoolResource<T>)>) -> int
    decreases s.len(),
{
    if s.len() <= 1 {
        0
    } else {
        let r = lru_index(s.drop_last());
        if s.last().1.spec_last_used() < s[r].1.spec_last_used() {
            s.len() - 1
        } else {
            r
        }
    }
}

/// The least recently used entry is one of the entries, and none was
/// used earlier.
pub proof fn lemma_lru_index<T>(s: Seq<(Seq<char>, PoolResource<T>)>)
    requires
        s.len() >= 1,
    ensures
        0 <= lru_index(s) < s.len(),
        forall|j: int|
            0 <= j < s.len() ==> s[lru_index(s)].1.spec_last_used() <= (
            #[trigger] s[j]).1.spec_last_used(),
    decreases s.len(),
{
    if s.len() > 1 {
        lemma_lru_index(s.drop_last());
        assert forall|j: int|
            0 <= j < s.len() implies s[lru_index(s)].1.spec_last_used() <= (
        #[trigger] s[j]).1.spec_last_used() by {
            if j < s.len() - 1 {
                assert(s.drop_last()[j] == s[j]);
            }
            let r = lru_index(s.drop_last());
            assert(s.drop_last()[r] == s[r]);
        }
    }
}

/// An idle connection cache keyed by authority: each key holds at most
/// one resource, and the cache holds at most [`MAX_RESOURCES`] entries.
#[derive(Debug)]
pub struct Pool<T> {
    resources: Vec<(String, PoolResource<T>)>,
    idle_timeout: u64,
}

impl<T> Pool<T> {
    /// The entries, in insertion order.
    pub closed spec fn entries(&self) -> Seq<(Seq<char>, PoolResource<T>)> {
        self.resources@.map(|i: int, e: (String, PoolResource<T>)| (e.0@, e.1))
    }

    /// How long an entry may sit idle before the sweeper removes it.
    pub closed spec fn spec_idle_timeout(&self) -> u64 {
        self.idle_timeout
    }

    /// Well-formed: one entry per key, and the cap is never exceeded.
    pub open spec fn wf(&self) -> bool {
        &&& forall|i: int, j: int|
            0 <= i < j < self.entries().len() ==> (#[trigger] self.entries()[i]).0 != (
            #[trigger] self.entries()[j]).0
        &&& self.entries().len() <= MAX_RESOURCES
    }

    /// An empty pool with the given idle limit, or the default one.
    pub fn new(idle_timeout: Option<u64>) -> (r: Self)
        ensures
            r.wf(),
            r.entries() =~= Seq::<(Seq<char>, PoolResource<T>)>::empty(),
            r.spec_idle_timeout() == match idle_timeout {
                Some(t) => t,
                None => DEFAULT_IDLE_RESOURCE_TIMEOUT_SECS,
            },
    {
        let idle_timeout = match idle_timeout {
            Some(t) => t,
            None => DEFAULT_IDLE_RESOURCE_TIMEOUT_SECS,
        };
        Pool { resources: Vec::new(), idle_timeout }
    }

    /// Takes the resource pooled under a key out, leaving the key free;
    /// the caller owns the connection while using it.
    #[verifier::loop_isolation(false)]
    pub fn get(&mut self, key: &str) -> (r: Option<PoolResource<T>>)
        requires
            old(self).wf(),
        ensures
            final(self).wf(),
            final(self).spec_idle_timeout() == old(self).spec_idle_timeout(),
            ({
                let i = find_key(old(self).entries(), key@);
                if i == -1 {
                    r is None && final(self).entries() == old(self).entries()
                } else {
                    r == Some(old(self).entries()[i].1) && final(self).entries() == old(
                        self,
                    ).entries().remove(i)
                }
            }),
    {
        proof {
            lemma_find_key(old(self).entries(), key@);
        }
        let n = self.resources.len();
        let mut idx: usize = 0;
        while idx < n
            invariant
                idx <= n,
                n == self.resources@.len(),
                self.resources@ == old(self).resources@,
                self.idle_timeout == old(self).idle_timeout,
                forall|j: int| 0 <= j < idx ==> (#[trigger] old(self).entries()[j]).0 != key@,
            decreases n - idx,
        {
            if str_eq(self.resources[idx].0.as_str(), key) {
                proof {
                    assert(old(self).entries()[idx as int].0 == key@);
                    assert(find_key(old(self).entries(), key@) == idx) by {
                        let k = find_key(old(self).entries(), key@);
                        if k == -1 {
                            assert(old(self).entries()[idx as int].0 != key@);
                        } else if k < idx {
                            assert(old(self).entries()[k].0 == key@);
                        } else if k > idx {
                            assert(old(self).entries()[idx as int].0 != key@);
                        }
                    }
                }
                let entry = self.resources.remove(idx);
                proof {
                    assert(self.entries() =~= old(self).entries().remove(idx as int));
                    assert forall|a: int, b: int|
                        0 <= a < b < self.entries().len() implies (#[trigger] self.entries()[a]).0
                        != (#[trigger] self.entries()[b]).0 by {
                        let sa: int = if a < idx {
                            a
                        } else {
                            a + 1
                        };
                        let sb: int = if b < idx {
                            b
                        } else {
                            b + 1
                        };
                        assert(self.entries()[a] == old(self).entries()[sa]);
                        assert(self.entries()[b] == old(self).entries()[sb]);
                    }
                }
                return Some(entry.1);
            }
            idx = idx + 1;
        }
        proof {
            assert(find_key(old(self).entries(), key@) == -1) by {
                let k = find_key(old(self).entries(), key@);
                if k != -1 {
                    assert(old(self).entries()[k].0 == key@);
                }
            }
        }
        None
    }

    /// Stores a connection under a key.  A full pool instead evicts its
    /// least recently used entry, so the cap is never exceeded; an
    /// occupied key has its resource replaced.
    #[verifier::loop_isolation(false)]
    pub fn insert(&mut self, key: &str, connection: PoolResource<T>)
        requires
            old(self).wf(),
        ensures
            final(self).wf(),
            final(self).spec_idle_timeout() == old(self).spec_idle_timeout(),
            final(self).entries().len() <= MAX_RESOURCES,
            old(self).entries().len() == MAX_RESOURCES ==> ({
                let i = lru_index(old(self).entries());
                &&& final(self).entries() == old(self).entries().remove(i)
                &&& forall|j: int|
                    0 <= j < old(self).entries().len() ==> old(
                        self,
                    ).entries()[i].1.spec_last_used() <= (#[trigger] old(
                        self,
                    ).entries()[j]).1.spec_last_used()
            }),
            old(self).entries().len() < MAX_RESOURCES ==> ({
                let i = find_key(old(self).entries(), key@);
                if i == -1 {
                    final(self).entries() == old(self).entries().push((key@, connection))
                } else {
                    final(self).entries() == old(self).entries().update(i, (key@, connection))
                }
            }),
    {
        let n = self.resources.len();
        if n == MAX_RESOURCES {
            self.remove_lru();
            return ;
        }
        proof {
            lemma_find_key(old(self).entries(), key@);
        }
        let mut idx: usize = 0;
        while idx < n
            invariant
                idx <= n,
                n == self.resources@.len(),
                n < MAX_RESOURCES,
                self.resources@ == old(self).resources@,
                self.idle_timeout == old(self).idle_timeout,
                forall|j: int| 0 <= j < idx ==> (#[trigger] old(self).entries()[j]).0 != key@,
            decreases n - idx,
        {
            if str_eq(self.resources[idx].0.as_str(), key) {
                proof {
                    assert(old(self).entries()[idx as int].0 == key@);
                    assert(find_key(old(self).entries(), key@) == idx) by {
                        let k = find_key(old(self).entries(), key@);
                        if k == -1 {
                            assert(old(self).entries()[idx as int].0 != key@);
                        } else if k < idx {
                            assert(old(self).entries()[k].0 == key@);
                        } else if k > idx {
                            assert(old(self).entries()[idx as int].0 != key@);
                        }
                    }
                }
                let owned = key.to_owned();
                self.resources.set(idx, (owned, connection));
                proof {
                    assert(self.entries() =~= old(self).entries().update(
                        idx as int,
                        (key@, connection),
                    ));
                    assert forall|a: int, b: int|
                        0 <= a < b < self.entries().len() implies (#[trigger] self.entries()[a]).0
                        != (#[trigger] self.entries()[b]).0 by {
                        assert(self.entries()[a].0 == old(self).entries()[a].0);
                        assert(self.entries()[b].0 == old(self).entries()[b].0);
                    }
                }
                return ;
            }
            idx = idx + 1;
        }
        proof {
            assert(find_key(old(self).entries(), key@) == -1) by {
                let k = find_key(old(self).entries(), key@);
                if k != -1 {
                    assert(old(self).entries()[k].0 == key@);
                }
            }
        }
        let owned = key.to_owned();
        self.resources.push((owned, connection));
        proof {
            assert(self.entries() =~= old(self).entries().push((key@, connection)));
            assert forall|a: int, b: int|
                0 <= a < b < self.entries().len() implies (#[trigger] self.entries()[a]).0 != (
            #[trigger] self.entries()[b]).0 by {
                assert(self.entries()[a].0 == old(self).entries()[a].0);
                if b < self.entries().len() - 1 {
                    assert(self.entries()[b].0 == old(self).entries()[b].0);
                } else {
                    assert(old(self).entries()[a].0 != key@);
                }
            }
        }
    }

    /// Evicts the least recently used entry.
    #[verifier::loop_isolation(false)]
    fn remove_lru(&mut self)
        requires
            old(self).wf(),
            old(self).entries().len() >= 1,
        ensures
            final(self).wf(),
            final(self).spec_idle_timeout() == old(self).spec_idle_timeout(),
            final(self).entries() == old(self).entries().remove(lru_index(old(self).entries())),
            forall|j: int|
                0 <= j < old(self).entries().len() ==> old(self).entries()[lru_index(
                    old(self).entries(),
                )].1.spec_last_used() <= (#[trigger] old(self).entries()[j]).1.spec_last_used(),
    {
        proof {
            lemma_lru_index(old(self).entries());
        }
        let n = self.resources.len();
        let mut best: usize = 0;
        let mut idx: usize = 1;
        while idx < n
            invariant
                1 <= idx <= n,
                n == self.resources@.len(),
                n >= 1,
                self.resources@ == old(self).resources@,
                self.idle_timeout == old(self).idle_timeout,
                best < idx,
                best == lru_index(old(self).entries().take(idx as int)),
            decreases n - idx,
        {
            proof {
                assert(old(self).entries().take(idx + 1).drop_last() =~= old(
                    self,
                ).entries().take(idx as int));
                assert(old(self).entries().take(idx + 1).last() == old(self).entries()[idx as int]);
                assert(old(self).entries().take(idx as int)[best as int] == old(
                    self,
                ).entries()[best as int]);
            }
            if self.resources[idx].1.last_used < self.resources[best].1.last_used {
                best = idx;
            }
            idx = idx + 1;
        }
        proof {
            assert(old(self).entries().take(n as int) =~= old(self).entries());
        }
        let _ = self.resources.remove(best);
        proof {
            assert(self.entries() =~= old(self).entries().remove(best as int));
            assert forall|a: int, b: int|
                0 <= a < b < self.entries().len() implies (#[trigger] self.entries()[a]).0 != (
            #[trigger] self.entries()[b]).0 by {
                let sa: int = if a < best {
                    a
                } else {
                    a + 1
                };
                let sb: int = if b < best {
                    b
                } else {
                    b + 1
                };
                assert(self.entries()[a] == old(self).entries()[sa]);
                assert(self.entries()[b] == old(self).entries()[sb]);
            }
        }
    }

    /// Which entries an expiry sweep at the given moment keeps: those
    /// whose idleness is still under the limit.
    pub open spec fn spec_fresh(
        s: Seq<(Seq<char>, PoolResource<T>)>,
        now: u64,
        idle_timeout: u64,
    ) -> Seq<(Seq<char>, PoolResource<T>)>
        decreases s.len(),
    {
        if s.len() == 0 {
            s
        } else {
            Self::spec_fresh(s.drop_last(), now, idle_timeout) + (if now
                - s.last().1.spec_last_used() < idle_timeout {
                seq![s.last()]
            } else {
                Seq::empty()
            })
        }
    }

    /// One sweep of the expiry worker: removes every entry that has sat
    /// idle for the configured limit or longer.
    #[verifier::loop_isolation(false)]
    pub fn expire_connections(&mut self, now: u64)
        requires
            old(self).wf(),
            forall|j: int|
                0 <= j < old(self).entries().len() ==> (#[trigger] old(
                    self,
                ).entries()[j]).1.spec_last_used() <= now,
        ensures
            final(self).wf(),
            final(self).spec_idle_timeout() == old(self).spec_idle_timeout(),
            final(self).entries() == Self::spec_fresh(
                old(self).entries(),
                now,
                old(self).spec_idle_timeout(),
            ),
    {
        let ghost s0 = self.entries();
        let ghost limit = self.idle_timeout;
        let mut all: Vec<(String, PoolResource<T>)> = Vec::new();
        core::mem::swap(&mut all, &mut self.resources);
        let mut kept: Vec<(String, PoolResource<T>)> = Vec::new();
        let n = all.len();
        let mut idx: usize = 0;
        proof {
            assert(s0.take(0) =~= Seq::<(Seq<char>, PoolResource<T>)>::empty());
            assert(all@.map(|i: int, e: (String, PoolResource<T>)| (e.0@, e.1)) == s0);
        }
        while idx < n
            invariant
                idx <= n,
                n == s0.len(),
                all@.len() == n - idx,
                self.idle_timeout == old(self).idle_timeout,
                limit == old(self).idle_timeout,
                s0 == old(self).entries(),
                forall|j: int|
                    0 <= j < all@.len() ==> (#[trigger] all@[j]).0@ == s0[j + idx].0 && all@[j].1
                        == s0[j + idx].1,
                kept@.map(|i: int, e: (String, PoolResource<T>)| (e.0@, e.1)) == Pool::<T>::spec_fresh(
                    s0.take(idx as int),
                    now,
                    limit,
                ),
            decreases n - idx,
        {
            proof {
                assert(s0.take(idx + 1).drop_last() =~= s0.take(idx as int));
                assert(s0.take(idx + 1).last() == s0[idx as int]);
            }
            let entry = all.remove(0);
            proof {
                assert(entry.0@ == s0[idx as int].0);
                assert(entry.1 == s0[idx as int].1);
                assert(s0[idx as int].1.spec_last_used() <= now);
            }
            if now - entry.1.last_used < self.idle_timeout {
                let ghost kv0 = kept@.map(|i: int, e: (String, PoolResource<T>)| (e.0@, e.1));
                kept.push(entry);
                proof {
                    assert(kept@.map(|i: int, e: (String, PoolResource<T>)| (e.0@, e.1)) =~= kv0.push(
                        (s0[idx as int].0, s0[idx as int].1),
                    ));
                    assert(kv0.push((s0[idx as int].0, s0[idx as int].1)) =~= Pool::<T>::spec_fresh(
                        s0.take(idx + 1),
                        now,
                        limit,
                    ));
                }
            } else {
                proof {
                    assert(Pool::<T>::spec_fresh(s0.take(idx + 1), now, limit) =~= Pool::<
                        T,
                    >::spec_fresh(s0.take(idx as int), now, limit));
                }
            }
            idx = idx + 1;
        }
        proof {
            assert(s0.take(n as int) =~= s0);
        }
        core::mem::swap(&mut self.resources, &mut kept);
        proof {
            lemma_spec_fresh_sub(s0, now, limit);
        }
    }

    /// Takes every pooled resource out, for a closing client to shut the
    /// connections down; the pool is empty afterwards.
    pub fn drain(&mut self) -> (r: Vec<(String, PoolResource<T>)>)
        requires
            old(self).wf(),
        ensures
            final(self).wf(),
            final(self).spec_idle_timeout() == old(self).spec_idle_timeout(),
            final(self).entries() =~= Seq::<(Seq<char>, PoolResource<T>)>::empty(),
            r@.map(|i: int, e: (String, PoolResource<T>)| (e.0@, e.1)) == old(self).entries(),
    {
        let mut r: Vec<(String, PoolResource<T>)> = Vec::new();
        core::mem::swap(&mut r, &mut self.resources);
        r
    }
}

/// A sweep keeps a subsequence: distinct keys stay distinct and the cap
/// stays respected.
pub proof fn lemma_spec_fresh_sub<T>(s: Seq<(Seq<char>, PoolResource<T>)>, now: u64, limit: u64)
    requires
        forall|i: int, j: int| 0 <= i < j < s.len() ==> (#[trigger] s[i]).0 != (#[trigger] s[j]).0,
    ensures
        Pool::<T>::spec_fresh(s, now, limit).len() <= s.len(),
        forall|i: int, j: int|
            0 <= i < j < Pool::<T>::spec_fresh(s, now, limit).len() ==> (
            #[trigger] Pool::<T>::spec_fresh(s, now, limit)[i]).0 != (#[trigger] Pool::<T>::spec_fresh(
                s,
                now,
                limit,
            )[j]).0,
        forall|i: int|
            0 <= i < Pool::<T>::spec_fresh(s, now, limit).len() ==> exists|j: int|
                0 <= j < s.len() && (#[trigger] Pool::<T>::spec_fresh(s, now, limit)[i]) == s[j],
    decreases s.len(),
{
    if s.len() > 0 {
        let d = s.drop_last();
        assert forall|i: int, j: int|
            0 <= i < j < d.len() implies (#[trigger] d[i]).0 != (#[trigger] d[j]).0 by {
            assert(d[i] == s[i]);
            assert(d[j] == s[j]);
        }
        lemma_spec_fresh_sub(d, now, limit);
        let f = Pool::<T>::spec_fresh(s, now, limit);
        let fd = Pool::<T>::spec_fresh(d, now, limit);
        assert forall|i: int|
            0 <= i < f.len() implies exists|j: int| 0 <= j < s.len() && (#[trigger] f[i])
            == s[j] by {
            if i < fd.len() {
                assert(f[i] == fd[i]);
                let j = choose|j: int| 0 <= j < d.len() && fd[i] == d[j];
                assert(d[j] == s[j]);
                assert(f[i] == s[j]);
            } else {
                assert(f[i] == s.last());
                assert(f[i] == s[s.len() - 1]);
            }
        }
        assert forall|i: int, j: int|
            0 <= i < j < f.len() implies (#[trigger] f[i]).0 != (#[trigger] f[j]).0 by {
            let a = choose|a: int| 0 <= a < s.len() && f[i] == s[a];
            let b = choose|b: int| 0 <= b < s.len() && f[j] == s[b];
            if i < fd.len() && j < fd.len() {
                assert(f[i] == fd[i]);
                assert(f[j] == fd[j]);
            } else if i < fd.len() && j >= fd.len() {
                assert(f[j] == s.last());
                let a2 = choose|a2: int| 0 <= a2 < d.len() && fd[i] == d[a2];
                assert(f[i] == s[a2]);
                assert(s[a2].0 != s[s.len() - 1].0);
            } else {
            }
        }
    }
}

} // verus!
