use vstd::prelude::*;

verus! {

/// The decision core of the one-shot worker pool: a finite bag of tasks
/// handed out front-first to a fixed set of workers, and a finalizer that
/// fires exactly once, after every worker has drained. The thread
/// plumbing — spawning, the barriers, the lock around this state — is the
/// driver's; every decision the pool takes is verified here.
pub struct OneshotPool<T> {
    queue: Vec<T>,
    nworkers: usize,
    finished: usize,
    done_fired: bool,
}

impl<T> OneshotPool<T> {
    pub closed spec fn queue_spec(&self) -> Seq<T> {
        self.queue@
    }

    pub closed spec fn nworkers_spec(&self) -> usize {
        self.nworkers
    }

    pub closed spec fn finished_spec(&self) -> usize {
        self.finished
    }

    pub closed spec fn done_fired_spec(&self) -> bool {
        self.done_fired
    }

    /// The finalizer cannot have fired before the last worker finished.
    pub open spec fn wf(&self) -> bool {
        &&& self.finished_spec() <= self.nworkers_spec()
        &&& self.done_fired_spec() ==> self.finished_spec() == self.nworkers_spec()
    }

    /// A fresh pool over `tasks`, to be drained by `nworkers` workers.
    pub fn new(tasks: Vec<T>, nworkers: usize) -> (p: OneshotPool<T>)
        ensures
            p.wf(),
            p.queue_spec() == tasks@,
            p.nworkers_spec() == nworkers,
            p.finished_spec() == 0,
            !p.done_fired_spec(),
    {
        OneshotPool { queue: tasks, nworkers, finished: 0, done_fired: false }
    }

    /// A worker asks for work: the front task leaves the queue, or the
    /// queue is empty and the worker should stop.
    pub fn take_task(&mut self) -> (t: Option<T>)
        requires
            old(self).wf(),
        ensures
            final(self).wf(),
            final(self).nworkers_spec() == old(self).nworkers_spec(),
            final(self).finished_spec() == old(self).finished_spec(),
            final(self).done_fired_spec() == old(self).done_fired_spec(),
            old(self).queue_spec().len() == 0 ==> t is None && final(self).queue_spec() == old(self).queue_spec(),
            old(self).queue_spec().len() > 0 ==> t == Some(old(self).queue_spec()[0]) && final(self).queue_spec() == old(self).queue_spec().skip(1),
    {
        if self.queue.len() == 0 {
            None
        } else {
            let t = self.queue.remove(0);
            proof {
                assert(self.queue@ =~= old(self).queue@.skip(1));
            }
            Some(t)
        }
    }

    /// Aborts the pool: every task not yet handed out is discarded, so
    /// the workers drain immediately. Tasks already taken are unaffected.
    pub fn abort(&mut self)
        requires
            old(self).wf(),
        ensures
            final(self).wf(),
            final(self).nworkers_spec() == old(self).nworkers_spec(),
            final(self).finished_spec() == old(self).finished_spec(),
            final(self).done_fired_spec() == old(self).done_fired_spec(),
            final(self).queue_spec().len() == 0,
    {
        self.queue = Vec::new();
    }

    /// A worker reached the end barrier. The last one to do so — and only
    /// it, only once — is told to fire the finalizer.
    pub fn worker_finished(&mut self) -> (fire: bool)
        requires
            old(self).wf(),
            old(self).finished_spec() < old(self).nworkers_spec(),
        ensures
            final(self).wf(),
            final(self).nworkers_spec() == old(self).nworkers_spec(),
            final(self).queue_spec() == old(self).queue_spec(),
            final(self).finished_spec() == old(self).finished_spec() + 1,
            fire == (final(self).finished_spec() == final(self).nworkers_spec()),
            fire ==> !old(self).done_fired_spec() && final(self).done_fired_spec(),
            !fire ==> final(self).done_fired_spec() == old(self).done_fired_spec(),
    {
        self.finished = self.finished + 1;
        if self.finished == self.nworkers {
            self.done_fired = true;
            true
        } else {
            false
        }
    }

    /// Whether every worker has reached the end barrier; what `join`
    /// waits for.
    pub fn drained(&self) -> (r: bool)
        ensures
            r == (self.finished_spec() == self.nworkers_spec()),
    {
        self.finished == self.nworkers
    }

    /// Consumes the drained pool. The blocking wait lives with the
    /// driver; a pool may only be dropped this way once every worker has
    /// finished.
    pub fn join(self)
        requires
            self.finished_spec() == self.nworkers_spec(),
    {
    }
}

} // verus!
