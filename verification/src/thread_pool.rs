use vstd::prelude::*;

verus! {

/// The decision core of the long-lived worker pool and its scheduler: a
/// FIFO of queued tasks, a record of which workers are awake, and the
/// stop protocol. The channels and threads are the driver's; which worker
/// is woken, which task is handed out, and when the one shutdown happens
/// are decided — and verified — here.
pub struct ThreadPool<T> {
    pending: Vec<T>,
    awake: Vec<bool>,
    stopping: bool,
    stopped: bool,
}

impl<T> ThreadPool<T> {
    pub closed spec fn pending_spec(&self) -> Seq<T> {
        self.pending@
    }

    pub closed spec fn awake_spec(&self) -> Seq<bool> {
        self.awake@
    }

    pub closed spec fn stopping_spec(&self) -> bool {
        self.stopping
    }

    pub closed spec fn stopped_spec(&self) -> bool {
        self.stopped
    }

    pub open spec fn all_asleep(&self) -> bool {
        forall|i: int| 0 <= i < self.awake_spec().len() ==> !(#[trigger] self.awake_spec()[i])
    }

    /// Shutdown only happens on the way to a stop, with no worker awake.
    pub open spec fn wf(&self) -> bool {
        self.stopped_spec() ==> self.stopping_spec()
    }

    /// A fresh pool with `nworkers` sleeping workers and nothing queued.
    pub fn new(nworkers: usize) -> (p: ThreadPool<T>)
        ensures
            p.wf(),
            p.pending_spec().len() == 0,
            p.awake_spec().len() == nworkers,
            p.all_asleep(),
            !p.stopping_spec(),
            !p.stopped_spec(),
    {
        let mut awake: Vec<bool> = Vec::new();
        let mut i: usize = 0;
        while i < nworkers
            invariant
                i <= nworkers,
                awake@.len() == i,
                forall|j: int| 0 <= j < i ==> !(#[trigger] awake@[j]),
            decreases nworkers - i,
        {
            awake.push(false);
            i = i + 1;
        }
        ThreadPool { pending: Vec::new(), awake, stopping: false, stopped: false }
    }

    /// Queues a task and says which workers must be woken: exactly those
    /// that were asleep. Every worker is awake afterwards.
    pub fn queue(&mut self, task: T) -> (wake: Vec<usize>)
        requires
            old(self).wf(),
        ensures
            final(self).wf(),
            final(self).pending_spec() == old(self).pending_spec().push(task),
            final(self).awake_spec().len() == old(self).awake_spec().len(),
            final(self).stopping_spec() == old(self).stopping_spec(),
            final(self).stopped_spec() == old(self).stopped_spec(),
            forall|i: int|
                0 <= i < final(self).awake_spec().len() ==> (#[trigger] final(self).awake_spec()[i]),
            forall|k: int|
                0 <= k < wake@.len() ==> (#[trigger] wake@[k]) < old(self).awake_spec().len()
                    && !old(self).awake_spec()[wake@[k] as int],
            forall|i: int|
                0 <= i < old(self).awake_spec().len() && !(#[trigger] old(self).awake_spec()[i])
                    ==> exists|k: int| 0 <= k < wake@.len() && (#[trigger] wake@[k]) as int == i,
    {
        self.pending.push(task);
        let n = self.awake.len();
        let mut wake: Vec<usize> = Vec::new();
        let mut i: usize = 0;
        while i < n
            invariant
                self.pending@ == old(self).pending@.push(task),
                self.stopping == old(self).stopping,
                self.stopped == old(self).stopped,
                self.awake@.len() == n,
                n == old(self).awake@.len(),
                i <= n,
                forall|j: int| 0 <= j < i ==> (#[trigger] self.awake@[j]),
                forall|j: int| i <= j < n ==> (#[trigger] self.awake@[j]) == old(self).awake@[j],
                forall|k: int|
                    0 <= k < wake@.len() ==> (#[trigger] wake@[k]) < n && !old(self).awake@[
                        wake@[k] as int],
                forall|j: int|
                    0 <= j < i && !(#[trigger] old(self).awake@[j]) ==> exists|k: int|
                        0 <= k < wake@.len() && (#[trigger] wake@[k]) as int == j,
            decreases n - i,
        {
            if !self.awake[i] {
                let ghost old_wake = wake@;
                wake.push(i);
                self.awake.set(i, true);
                proof {
                    assert(wake@[wake@.len() - 1] as int == i as int);
                    assert forall|j: int|
                        0 <= j < i + 1 && !(#[trigger] old(self).awake@[j]) implies exists|k: int|
                        0 <= k < wake@.len() && (#[trigger] wake@[k]) as int == j by {
                        if j == i as int {
                            assert(wake@[wake@.len() - 1] as int == j);
                        } else {
                            let k0 = choose|k: int|
                                0 <= k < old_wake.len() && (#[trigger] old_wake[k]) as int == j;
                            assert(wake@[k0] as int == j);
                        }
                    }
                }
            }
            i = i + 1;
        }
        wake
    }

    /// A worker polls for work: the front task, first queued first
    /// served, or nothing.
    pub fn try_take(&mut self) -> (t: Option<T>)
        requires
            old(self).wf(),
        ensures
            final(self).wf(),
            final(self).awake_spec() == old(self).awake_spec(),
            final(self).stopping_spec() == old(self).stopping_spec(),
            final(self).stopped_spec() == old(self).stopped_spec(),
            old(self).pending_spec().len() == 0 ==> t is None && final(self).pending_spec()
                == old(self).pending_spec(),
            old(self).pending_spec().len() > 0 ==> t == Some(old(self).pending_spec()[0])
                && final(self).pending_spec() == old(self).pending_spec().skip(1),
    {
        if self.pending.len() == 0 {
            None
        } else {
            let t = self.pending.remove(0);
            proof {
                assert(self.pending@ =~= old(self).pending@.skip(1));
            }
            Some(t)
        }
    }

    /// Worker `wid` found no work and goes back to sleep. When the pool
    /// is stopping and this was the last worker awake, and the shutdown
    /// has not happened yet, the caller is told to stop every worker —
    /// that happens at most once per pool.
    pub fn sleep(&mut self, wid: usize) -> (shutdown: bool)
        requires
            old(self).wf(),
            wid < old(self).awake_spec().len(),
        ensures
            final(self).wf(),
            final(self).pending_spec() == old(self).pending_spec(),
            final(self).stopping_spec() == old(self).stopping_spec(),
            final(self).awake_spec() == old(self).awake_spec().update(wid as int, false),
            shutdown == (old(self).stopping_spec() && final(self).all_asleep() && !old(self).stopped_spec()),
            final(self).stopped_spec() == (old(self).stopped_spec() || shutdown),
    {
        self.awake.set(wid, false);
        if !self.stopping || self.stopped {
            return false;
        }
        let n = self.awake.len();
        let mut i: usize = 0;
        while i < n
            invariant
                self.stopping,
                !self.stopped,
                self.awake@.len() == n,
                i <= n,
                forall|j: int| 0 <= j < i ==> !(#[trigger] self.awake@[j]),
                *self == (ThreadPool { awake: self.awake, ..*old(self) }),
                self.awake@ == old(self).awake@.update(wid as int, false),
            decreases n - i,
        {
            if self.awake[i] {
                proof {
                    assert(self.awake_spec()[i as int]);
                    assert(!self.all_asleep());
                }
                return false;
            }
            i = i + 1;
        }
        self.stopped = true;
        true
    }

    /// Begins the join: after this, the last worker to fall asleep
    /// triggers the shutdown. Returns every worker id, so the driver can
    /// force-wake them all — a worker that died without sending its sleep
    /// message must not hang the join.
    pub fn join(&mut self) -> (wake: Vec<usize>)
        requires
            old(self).wf(),
        ensures
            final(self).wf(),
            final(self).pending_spec() == old(self).pending_spec(),
            final(self).awake_spec() == old(self).awake_spec(),
            final(self).stopped_spec() == old(self).stopped_spec(),
            final(self).stopping_spec(),
            wake@.len() == final(self).awake_spec().len(),
            forall|k: int| 0 <= k < wake@.len() ==> (#[trigger] wake@[k]) as int == k,
    {
        self.stopping = true;
        let n = self.awake.len();
        let mut wake: Vec<usize> = Vec::new();
        let mut i: usize = 0;
        while i < n
            invariant
                *self == (ThreadPool { stopping: true, ..*old(self) }),
                self.awake@.len() == n,
                i <= n,
                wake@.len() == i,
                forall|k: int| 0 <= k < i ==> (#[trigger] wake@[k]) as int == k,
            decreases n - i,
        {
            wake.push(i);
            i = i + 1;
        }
        wake
    }
}

} // verus!
