use vstd::prelude::*;

verus! {

/// How long a dynamic worker waits for another task before it retires.
pub const DEFAULT_TIMEOUT_SECS: u64 = 10;

/// The failure a saturated pool reports: the task is handed back to the
/// caller undispatched.
#[derive(Debug)]
pub enum PoolError<A> {
    /// Every worker was busy; the payload is the task that was not run.
    Busy(A),
}

/// Where a dispatched task went.
#[derive(Debug, PartialEq, Eq, Structural, Clone, Copy)]
pub enum Dispatch {
    /// The static worker with this index took the task.
    Static(usize),
    /// A dynamic worker was spawned into this cell for the task.
    Spawned(usize),
    /// The running dynamic worker in this cell took the task.
    Existing(usize),
}

/// The dispatch state of the static workers: how many there are, and
/// which is offered the next task first.
#[derive(Debug)]
pub struct Static {
    size: usize,
    next: usize,
}

impl Static {
    /// How many static workers there are.
    pub closed spec fn spec_size(&self) -> usize {
        self.size
    }

    /// The worker offered the next task first.
    pub closed spec fn spec_next(&self) -> usize {
        self.next
    }

    /// Well-formed: the round-robin cursor points at a worker.
    pub open spec fn wf(&self) -> bool {
        self.spec_size() >= 1 && self.spec_next() < self.spec_size()
    }

    /// A pool of so many pre-spawned workers.
    pub fn new(size: usize) -> (r: Static)
        requires
            size >= 1,
        ensures
            r.wf(),
            r.spec_size() == size,
            r.spec_next() == 0,
    {
        Static { size, next: 0 }
    }

    /// The worker that is offered the next task first.
    pub fn first_choice(&self) -> (w: usize)
        requires
            self.wf(),
        ensures
            w == self.spec_next(),
            w < self.spec_size(),
    {
        self.next
    }

    /// The worker tried after one that was found busy: the next in cyclic
    /// order.
    pub fn next_choice(&self, current: usize) -> (w: usize)
        requires
            self.wf(),
            current < self.spec_size(),
        ensures
            w == (current + 1) % (self.spec_size() as int),
            w < self.spec_size(),
    {
        let w = if current + 1 < self.size {
            current + 1
        } else {
            0
        };
        proof {
            if current + 1 < self.size {
                vstd::arithmetic::div_mod::lemma_small_mod((current + 1) as nat, self.size as nat);
            } else {
                vstd::arithmetic::div_mod::lemma_mod_multiples_vanish(1, 0, self.size as int);
                vstd::arithmetic::div_mod::lemma_small_mod(0, self.size as nat);
            }
        }
        w
    }

    /// Records that a worker took a task: the round-robin cursor moves
    /// past it.
    pub fn dispatched(&mut self, worker: usize)
        requires
            old(self).wf(),
            worker < old(self).spec_size(),
        ensures
            final(self).wf(),
            final(self).spec_size() == old(self).spec_size(),
            final(self).spec_next() == (worker + 1) % (old(self).spec_size() as int),
    {
        let new_next = if worker + 1 < self.size {
            worker + 1
        } else {
            0
        };
        proof {
            if worker + 1 < self.size {
                vstd::arithmetic::div_mod::lemma_small_mod((worker + 1) as nat, self.size as nat);
            } else {
                vstd::arithmetic::div_mod::lemma_mod_multiples_vanish(1, 0, self.size as int);
                vstd::arithmetic::div_mod::lemma_small_mod(0, self.size as nat);
            }
        }
        self.next = new_next;
    }

    /// Offers a task to the workers, the round-robin favourite first and
    /// every other in order after it: the first free worker takes it, and
    /// the cursor moves past that worker; with every worker busy the task
    /// is handed back.
    #[verifier::loop_isolation(false)]
    pub fn run<A>(&mut self, action: A, busy: &Vec<bool>) -> (r: Result<(usize, A), PoolError<A>>)
        requires
            old(self).wf(),
            busy@.len() == old(self).spec_size(),
        ensures
            final(self).wf(),
            final(self).spec_size() == old(self).spec_size(),
            match r {
                Ok((w, a)) => {
                    &&& a == action
                    &&& w < old(self).spec_size()
                    &&& !busy@[w as int]
                    &&& exists|j: int|
                        #![trigger (old(self).spec_next() + j) % (old(self).spec_size() as int)]
                        0 <= j < old(self).spec_size() && w == (old(self).spec_next() + j) % (
                        old(self).spec_size() as int) && forall|i: int|
                            0 <= i < j ==> (#[trigger] busy@[(old(self).spec_next() + i) % (
                            old(self).spec_size() as int)])
                    &&& final(self).spec_next() == (w + 1) % (old(self).spec_size() as int)
                },
                Err(PoolError::Busy(a)) => {
                    &&& a == action
                    &&& forall|i: int| 0 <= i < busy@.len() ==> busy@[i]
                    &&& final(self).spec_next() == old(self).spec_next()
                },
            },
    {
        let size = self.size;
        let mut j: usize = 0;
        while j < size
            invariant
                j <= size,
                size == self.size,
                self.next == old(self).next,
                forall|i: int|
                    0 <= i < j ==> (#[trigger] busy@[(old(self).spec_next() + i) % (size as int)]),
            decreases size - j,
        {
            let idx = if j < size - self.next {
                self.next + j
            } else {
                j - (size - self.next)
            };
            proof {
                if j < size - self.next {
                    vstd::arithmetic::div_mod::lemma_small_mod((self.next + j) as nat, size as nat);
                } else {
                    vstd::arithmetic::div_mod::lemma_mod_multiples_vanish(
                        1,
                        idx as int,
                        size as int,
                    );
                    vstd::arithmetic::div_mod::lemma_small_mod(idx as nat, size as nat);
                }
                assert(idx as int == (old(self).spec_next() + j as int) % (size as int));
            }
            if !busy[idx] {
                let new_next = if idx + 1 < size {
                    idx + 1
                } else {
                    0
                };
                proof {
                    if idx + 1 < size {
                        vstd::arithmetic::div_mod::lemma_small_mod((idx + 1) as nat, size as nat);
                    } else {
                        vstd::arithmetic::div_mod::lemma_mod_multiples_vanish(1, 0, size as int);
                        vstd::arithmetic::div_mod::lemma_small_mod(0, size as nat);
                    }
                }
                self.next = new_next;
                return Ok((idx, action));
            }
            j = j + 1;
        }
        proof {
            let nx = old(self).spec_next() as int;
            assert forall|i: int| 0 <= i < busy@.len() implies busy@[i] by {
                let j2: int = if i >= nx {
                    i - nx
                } else {
                    i + size - nx
                };
                if i >= nx {
                    vstd::arithmetic::div_mod::lemma_small_mod(i as nat, size as nat);
                } else {
                    vstd::arithmetic::div_mod::lemma_mod_multiples_vanish(1, i, size as int);
                    vstd::arithmetic::div_mod::lemma_small_mod(i as nat, size as nat);
                }
                assert((nx + j2) % (size as int) == i);
                assert(busy@[(nx + j2) % (size as int)]);
            }
        }
        Err(PoolError::Busy(action))
    }
}

/// The dispatch state of the dynamic workers: which cells are free, in
/// the order they became free.
#[derive(Debug)]
pub struct Dynamic {
    free_cells: Vec<usize>,
    max: usize,
    timeout_secs: u64,
}

impl Dynamic {
    /// The free cells, front first.
    pub closed spec fn spec_free(&self) -> Seq<usize> {
        self.free_cells@
    }

    /// How many cells there are in all.
    pub closed spec fn spec_max(&self) -> usize {
        self.max
    }

    /// How long a worker waits idle before retiring.
    pub closed spec fn spec_timeout(&self) -> u64 {
        self.timeout_secs
    }

    /// Whether a cell is free.
    pub open spec fn cell_free(&self, c: usize) -> bool {
        exists|i: int| 0 <= i < self.spec_free().len() && self.spec_free()[i] == c
    }

    /// Well-formed: every free cell exists and is listed once.
    pub open spec fn wf(&self) -> bool {
        &&& forall|i: int|
            0 <= i < self.spec_free().len() ==> (#[trigger] self.spec_free()[i]) < self.spec_max()
        &&& forall|i: int, j: int|
            0 <= i < j < self.spec_free().len() ==> self.spec_free()[i] != self.spec_free()[j]
    }

    /// A pool of so many empty cells, all free.
    pub fn new(max: usize, timeout_secs: u64) -> (r: Dynamic)
        ensures
            r.wf(),
            r.spec_max() == max,
            r.spec_timeout() == timeout_secs,
            r.spec_free().len() == max,
            forall|i: int| 0 <= i < max ==> (#[trigger] r.spec_free()[i]) == i,
    {
        let mut free_cells: Vec<usize> = Vec::new();
        let mut i: usize = 0;
        while i < max
            invariant
                i <= max,
                free_cells@.len() == i,
                forall|j: int| 0 <= j < i ==> (#[trigger] free_cells@[j]) == j,
            decreases max - i,
        {
            free_cells.push(i);
            i = i + 1;
        }
        proof {
            assert forall|a: int, b: int|
                0 <= a < b < free_cells@.len() implies free_cells@[a] != free_cells@[b] by {}
        }
        Dynamic { free_cells, max, timeout_secs }
    }

    /// Claims the cell that has been free the longest for a new worker,
    /// or hands the task back when none is free.
    pub fn try_add_worker<A>(&mut self, action: A) -> (r: Result<(usize, A), A>)
        requires
            old(self).wf(),
        ensures
            final(self).wf(),
            final(self).spec_max() == old(self).spec_max(),
            final(self).spec_timeout() == old(self).spec_timeout(),
            match r {
                Ok((c, a)) => {
                    &&& a == action
                    &&& old(self).spec_free().len() >= 1
                    &&& c == old(self).spec_free()[0]
                    &&& c < old(self).spec_max()
                    &&& final(self).spec_free() == old(self).spec_free().skip(1)
                },
                Err(a) => {
                    &&& a == action
                    &&& old(self).spec_free().len() == 0
                    &&& final(self).spec_free() == old(self).spec_free()
                },
            },
    {
        if self.free_cells.len() == 0 {
            return Err(action);
        }
        let c = self.free_cells.remove(0);
        proof {
            assert(self.free_cells@ =~= old(self).free_cells@.skip(1));
            assert forall|i: int| 0 <= i < self.spec_free().len() implies (
            #[trigger] self.spec_free()[i]) < self.spec_max() by {
                assert(self.spec_free()[i] == old(self).spec_free()[i + 1]);
            }
            assert forall|a: int, b: int|
                0 <= a < b < self.spec_free().len() implies self.spec_free()[a]
                != self.spec_free()[b] by {
                assert(self.spec_free()[a] == old(self).spec_free()[a + 1]);
                assert(self.spec_free()[b] == old(self).spec_free()[b + 1]);
            }
        }
        Ok((c, action))
    }

    /// Announces that the worker in a cell has retired: the cell joins
    /// the back of the free queue.
    pub fn worker_finished(&mut self, index: usize)
        requires
            old(self).wf(),
            index < old(self).spec_max(),
            !old(self).cell_free(index),
        ensures
            final(self).wf(),
            final(self).spec_max() == old(self).spec_max(),
            final(self).spec_timeout() == old(self).spec_timeout(),
            final(self).spec_free() == old(self).spec_free().push(index),
    {
        self.free_cells.push(index);
        proof {
            assert forall|a: int, b: int|
                0 <= a < b < self.spec_free().len() implies self.spec_free()[a]
                != self.spec_free()[b] by {
                assert(self.spec_free()[a] == old(self).spec_free()[a]);
                if b < self.spec_free().len() - 1 {
                    assert(self.spec_free()[b] == old(self).spec_free()[b]);
                } else {
                    if old(self).spec_free()[a] == index {
                        assert(old(self).cell_free(index));
                    }
                }
            }
            assert forall|i: int| 0 <= i < self.spec_free().len() implies (
            #[trigger] self.spec_free()[i]) < self.spec_max() by {
                if i < self.spec_free().len() - 1 {
                    assert(self.spec_free()[i] == old(self).spec_free()[i]);
                }
            }
        }
    }

    /// Offers a task to the dynamic pool: a free cell spawns a worker for
    /// it; otherwise the first occupied cell whose worker is not busy
    /// takes it; with all of them busy the task is handed back.
    #[verifier::loop_isolation(false)]
    pub fn run<A>(&mut self, action: A, busy: &Vec<bool>) -> (r: Result<
        (Dispatch, A),
        PoolError<A>,
    >)
        requires
            old(self).wf(),
            busy@.len() == old(self).spec_max(),
        ensures
            final(self).wf(),
            final(self).spec_max() == old(self).spec_max(),
            final(self).spec_timeout() == old(self).spec_timeout(),
            match r {
                Ok((d, a)) => {
                    &&& a == action
                    &&& match d {
                        Dispatch::Spawned(c) => {
                            &&& old(self).spec_free().len() >= 1
                            &&& c == old(self).spec_free()[0]
                            &&& final(self).spec_free() == old(self).spec_free().skip(1)
                        },
                        Dispatch::Existing(c) => {
                            &&& old(self).spec_free().len() == 0
                            &&& c < old(self).spec_max()
                            &&& !busy@[c as int]
                            &&& !old(self).cell_free(c)
                            &&& forall|i: int|
                                0 <= i < c ==> busy@[i] || old(self).cell_free(i as usize)
                            &&& final(self).spec_free() == old(self).spec_free()
                        },
                        Dispatch::Static(_) => false,
                    }
                },
                Err(PoolError::Busy(a)) => {
                    &&& a == action
                    &&& old(self).spec_free().len() == 0
                    &&& forall|i: int|
                        0 <= i < old(self).spec_max() ==> busy@[i] || old(self).cell_free(
                            i as usize,
                        )
                    &&& final(self).spec_free() == old(self).spec_free()
                },
            },
    {
        let action = match self.try_add_worker(action) {
            Ok((c, a)) => {
                return Ok((Dispatch::Spawned(c), a));
            },
            Err(a) => a,
        };
        let max = self.max;
        let mut i: usize = 0;
        while i < max
            invariant
                i <= max,
                max == self.max,
                self.free_cells@ == old(self).free_cells@,
                self.timeout_secs == old(self).timeout_secs,
                forall|j: int| 0 <= j < i ==> busy@[j] || old(self).cell_free(j as usize),
            decreases max - i,
        {
            let occupied = !self.is_free_cell(i);
            if occupied && !busy[i] {
                return Ok((Dispatch::Existing(i), action));
            }
            i = i + 1;
        }
        Err(PoolError::Busy(action))
    }

    /// Whether a cell is in the free queue.
    #[verifier::loop_isolation(false)]
    pub fn is_free_cell(&self, c: usize) -> (r: bool)
        ensures
            r == self.cell_free(c),
    {
        let n = self.free_cells.len();
        let mut i: usize = 0;
        while i < n
            invariant
                i <= n,
                n == self.free_cells@.len(),
                forall|j: int| 0 <= j < i ==> self.spec_free()[j] != c,
            decreases n - i,
        {
            if self.free_cells[i] == c {
                proof {
                    assert(self.spec_free()[i as int] == c);
                }
                return true;
            }
            i = i + 1;
        }
        proof {
            if self.cell_free(c) {
                let j = choose|j: int|
                    0 <= j < self.spec_free().len() && self.spec_free()[j] == c;
                assert(self.spec_free()[j] != c);
            }
        }
        false
    }

    /// How many workers are running: the cells that are not free.
    pub fn number_of_workers(&self) -> (r: usize)
        requires
            self.wf(),
            self.spec_free().len() <= self.spec_max(),
        ensures
            r == self.spec_max() - self.spec_free().len(),
    {
        self.max - self.free_cells.len()
    }
}

/// The hybrid pool: a round of pre-spawned static workers, and a set of
/// dynamic cells that spawn and retire workers on demand.
#[derive(Debug)]
pub struct Pool {
    stat: Option<Static>,
    dynamic: Option<Dynamic>,
}

impl Pool {
    /// The static half, if the pool has one.
    pub closed spec fn spec_static(&self) -> Option<Static> {
        self.stat
    }

    /// The dynamic half, if the pool has one.
    pub closed spec fn spec_dynamic(&self) -> Option<Dynamic> {
        self.dynamic
    }

    /// Well-formed: both halves are.
    pub open spec fn wf(&self) -> bool {
        &&& match self.spec_static() {
            Some(s) => s.wf(),
            None => true,
        }
        &&& match self.spec_dynamic() {
            Some(d) => d.wf(),
            None => true,
        }
    }

    /// A pool of `min` static workers and `max - min` dynamic cells;
    /// either half may be absent, but not both.
    pub fn new(min: usize, max: usize) -> (r: Pool)
        requires
            min > 0 || max > 0,
        ensures
            r.wf(),
            r.spec_static() is Some <==> min > 0,
            r.spec_static() matches Some(s) ==> s.spec_size() == min && s.spec_next() == 0,
            r.spec_dynamic() is Some <==> min < max,
            r.spec_dynamic() matches Some(d) ==> d.spec_max() == max - min && d.spec_timeout()
                == DEFAULT_TIMEOUT_SECS && d.spec_free().len() == max - min,
    {
        let stat = if min > 0 {
            Some(Static::new(min))
        } else {
            None
        };
        let dynamic = if min < max {
            Some(Dynamic::new(max - min, DEFAULT_TIMEOUT_SECS))
        } else {
            None
        };
        Pool { stat, dynamic }
    }

    /// Whether the pool has static workers.
    pub fn has_static(&self) -> (r: bool)
        ensures
            r == self.spec_static() is Some,
    {
        self.stat.is_some()
    }

    /// Whether the pool has dynamic cells.
    pub fn has_dynamic(&self) -> (r: bool)
        ensures
            r == self.spec_dynamic() is Some,
    {
        self.dynamic.is_some()
    }

    /// Offers a task to the static workers first and to the dynamic
    /// cells after them; with every avenue exhausted the task is handed
    /// back and nothing in the pool has moved.
    pub fn run<A>(
        &mut self,
        action: A,
        static_busy: &Vec<bool>,
        dynamic_busy: &Vec<bool>,
    ) -> (r: Result<(Dispatch, A), PoolError<A>>)
        requires
            old(self).wf(),
            old(self).spec_static() matches Some(s) ==> static_busy@.len() == s.spec_size(),
            old(self).spec_dynamic() matches Some(d) ==> dynamic_busy@.len() == d.spec_max(),
        ensures
            final(self).wf(),
            final(self).spec_static() is Some <==> old(self).spec_static() is Some,
            final(self).spec_dynamic() is Some <==> old(self).spec_dynamic() is Some,
            final(self).spec_static() matches Some(s2) ==> (old(self).spec_static() matches Some(
                s1,
            ) && s2.spec_size() == s1.spec_size()),
            final(self).spec_dynamic() matches Some(d2) ==> (old(self).spec_dynamic() matches Some(
                d1,
            ) && d2.spec_max() == d1.spec_max() && d2.spec_timeout() == d1.spec_timeout()),
            match r {
                Ok((d, a)) => {
                    &&& a == action
                    &&& match d {
                        Dispatch::Static(w) => {
                            &&& old(self).spec_static() matches Some(s1)
                            &&& w < s1.spec_size()
                            &&& !static_busy@[w as int]
                            &&& exists|j: int|
                                #![trigger (s1.spec_next() + j) % (s1.spec_size() as int)]
                                0 <= j < s1.spec_size() && w == (s1.spec_next() + j) % (
                                s1.spec_size() as int) && forall|i: int|
                                    0 <= i < j ==> (#[trigger] static_busy@[(s1.spec_next() + i)
                                        % (s1.spec_size() as int)])
                            &&& final(self).spec_static() matches Some(s2) && s2.spec_next() == (w
                                + 1) % (s1.spec_size() as int)
                            &&& dynamic_untouched(old(self).spec_dynamic(), final(self).spec_dynamic())
                        },
                        Dispatch::Spawned(c) => {
                            &&& static_exhausted(old(self).spec_static(), static_busy@)
                            &&& static_untouched(old(self).spec_static(), final(self).spec_static())
                            &&& old(self).spec_dynamic() matches Some(d1)
                            &&& d1.spec_free().len() >= 1
                            &&& c == d1.spec_free()[0]
                            &&& c < d1.spec_max()
                            &&& final(self).spec_dynamic() matches Some(d2) && d2.spec_free()
                                == d1.spec_free().skip(1)
                        },
                        Dispatch::Existing(c) => {
                            &&& static_exhausted(old(self).spec_static(), static_busy@)
                            &&& static_untouched(old(self).spec_static(), final(self).spec_static())
                            &&& old(self).spec_dynamic() matches Some(d1)
                            &&& d1.spec_free().len() == 0
                            &&& c < d1.spec_max()
                            &&& !dynamic_busy@[c as int]
                            &&& !d1.cell_free(c)
                            &&& forall|i: int|
                                0 <= i < c ==> dynamic_busy@[i] || d1.cell_free(i as usize)
                            &&& dynamic_untouched(old(self).spec_dynamic(), final(self).spec_dynamic())
                        },
                    }
                },
                Err(PoolError::Busy(a)) => {
                    &&& a == action
                    &&& static_exhausted(old(self).spec_static(), static_busy@)
                    &&& old(self).spec_dynamic() matches Some(d) ==> d.spec_free().len() == 0
                        && forall|i: int|
                        0 <= i < d.spec_max() ==> dynamic_busy@[i] || d.cell_free(i as usize)
                    &&& static_untouched(old(self).spec_static(), final(self).spec_static())
                    &&& dynamic_untouched(old(self).spec_dynamic(), final(self).spec_dynamic())
                },
            },
    {
        let action = match &mut self.stat {
            Some(s) => match s.run(action, static_busy) {
                Ok((w, a)) => {
                    return Ok((Dispatch::Static(w), a));
                },
                Err(PoolError::Busy(a)) => a,
            },
            None => action,
        };
        match &mut self.dynamic {
            Some(d) => match d.run(action, dynamic_busy) {
                Ok((disp, a)) => Ok((disp, a)),
                Err(PoolError::Busy(a)) => Err(PoolError::Busy(a)),
            },
            None => Err(PoolError::Busy(action)),
        }
    }
}

/// Whether every static worker there is was busy; true where the pool
/// has none.
pub open spec fn static_exhausted(stat: Option<Static>, busy: Seq<bool>) -> bool {
    match stat {
        Some(s) => forall|i: int| 0 <= i < busy.len() ==> busy[i],
        None => true,
    }
}

/// Whether the static half came through a dispatch unmoved.
pub open spec fn static_untouched(before: Option<Static>, after: Option<Static>) -> bool {
    match (before, after) {
        (Some(s1), Some(s2)) => s2.spec_size() == s1.spec_size() && s2.spec_next()
            == s1.spec_next(),
        (None, None) => true,
        _ => false,
    }
}

/// Whether the dynamic half came through a dispatch unmoved.
pub open spec fn dynamic_untouched(before: Option<Dynamic>, after: Option<Dynamic>) -> bool {
    match (before, after) {
        (Some(d1), Some(d2)) => d2.spec_max() == d1.spec_max() && d2.spec_timeout()
            == d1.spec_timeout() && d2.spec_free() == d1.spec_free(),
        (None, None) => true,
        _ => false,
    }
}

} // verus!
