use vstd::prelude::*;

verus! {

/// One deferred effect run: the effect hook at `cell` of `instance`,
/// scheduled by render pass `pass`.
#[derive(Clone, Copy, Debug, PartialEq, Eq, Structural)]
pub struct Job {
    pub instance: usize,
    pub cell: usize,
    pub pass: u64,
}

/// A job as the loop hands it out, with its class.
#[derive(Clone, Copy, Debug, PartialEq, Eq, Structural)]
pub enum Scheduled {
    /// The cleanup of an effect whose instance was destroyed.
    Cleanup(Job),
    Layout(Job),
    Effect(Job),
    /// The continuation of asynchronous work bound to an instance.
    Async(Job),
}

/// A single-threaded cooperative scheduler: it hands out one job at a time,
/// every pending cleanup first, then layout effects, then ordinary effects,
/// then asynchronous continuations, each class in the order it was
/// scheduled.
pub struct EventLoop {
    cleanups: Vec<Job>,
    layout: Vec<Job>,
    effects: Vec<Job>,
    asyncs: Vec<Job>,
}

pub struct LoopView {
    pub cleanups: Seq<Job>,
    pub layout: Seq<Job>,
    pub effects: Seq<Job>,
    pub asyncs: Seq<Job>,
}

impl View for EventLoop {
    type V = LoopView;

    closed spec fn view(&self) -> LoopView {
        LoopView { cleanups: self.cleanups@, layout: self.layout@, effects: self.effects@, asyncs: self.asyncs@ }
    }
}

/// The job handed out next, and the loop after it.
pub open spec fn next_spec(q: LoopView) -> (LoopView, Option<Scheduled>) {
    if q.cleanups.len() > 0 {
        (LoopView { cleanups: q.cleanups.drop_first(), ..q }, Some(Scheduled::Cleanup(q.cleanups[0])))
    } else if q.layout.len() > 0 {
        (LoopView { layout: q.layout.drop_first(), ..q }, Some(Scheduled::Layout(q.layout[0])))
    } else if q.effects.len() > 0 {
        (LoopView { effects: q.effects.drop_first(), ..q }, Some(Scheduled::Effect(q.effects[0])))
    } else if q.asyncs.len() > 0 {
        (LoopView { asyncs: q.asyncs.drop_first(), ..q }, Some(Scheduled::Async(q.asyncs[0])))
    } else {
        (q, None)
    }
}

/// Every job the loop hands out, in order, when nothing new is scheduled.
pub open spec fn pending_len(q: LoopView) -> nat {
    q.cleanups.len() + q.layout.len() + q.effects.len() + q.asyncs.len()
}

pub open spec fn run_order(q: LoopView) -> Seq<Scheduled>
    decreases pending_len(q),
{
    if pending_len(q) == 0 {
        Seq::empty()
    } else {
        let (q2, s) = next_spec(q);
        seq![s.unwrap()] + run_order(q2)
    }
}

pub open spec fn as_cleanup(j: Job) -> Scheduled {
    Scheduled::Cleanup(j)
}

pub open spec fn as_async(j: Job) -> Scheduled {
    Scheduled::Async(j)
}

pub open spec fn as_layout(j: Job) -> Scheduled {
    Scheduled::Layout(j)
}

pub open spec fn as_effect(j: Job) -> Scheduled {
    Scheduled::Effect(j)
}

impl EventLoop {
    pub fn new() -> (r: EventLoop)
        ensures
            r@.cleanups == Seq::<Job>::empty(),
            r@.layout == Seq::<Job>::empty(),
            r@.effects == Seq::<Job>::empty(),
            r@.asyncs == Seq::<Job>::empty(),
    {
        EventLoop { cleanups: Vec::new(), layout: Vec::new(), effects: Vec::new(), asyncs: Vec::new() }
    }

    /// Schedules the cleanup of an effect of a destroyed instance.
    pub fn schedule_cleanup(&mut self, j: Job)
        ensures
            final(self)@ == (LoopView { cleanups: old(self)@.cleanups.push(j), ..old(self)@ }),
    {
        self.cleanups.push(j);
    }

    /// Schedules a layout effect job.
    pub fn schedule_layout(&mut self, j: Job)
        ensures
            final(self)@ == (LoopView { layout: old(self)@.layout.push(j), ..old(self)@ }),
    {
        self.layout.push(j);
    }

    /// Schedules an ordinary effect job.
    pub fn schedule_effect(&mut self, j: Job)
        ensures
            final(self)@ == (LoopView { effects: old(self)@.effects.push(j), ..old(self)@ }),
    {
        self.effects.push(j);
    }

    /// Schedules the continuation of asynchronous work.
    pub fn schedule_async(&mut self, j: Job)
        ensures
            final(self)@ == (LoopView { asyncs: old(self)@.asyncs.push(j), ..old(self)@ }),
    {
        self.asyncs.push(j);
    }

    /// Whether no job is pending.
    pub fn is_idle(&self) -> (r: bool)
        ensures
            r == (pending_len(self@) == 0),
    {
        self.cleanups.len() == 0 && self.layout.len() == 0 && self.effects.len() == 0 && self.asyncs.len() == 0
    }

    /// Hands out the next job: the oldest layout job if any is pending, else
    /// the oldest ordinary one.
    pub fn next(&mut self) -> (r: Option<Scheduled>)
        ensures
            (final(self)@, r) == next_spec(old(self)@),
    {
        if self.cleanups.len() > 0 {
            let j = self.cleanups.remove(0);
            assert(self.cleanups@ =~= old(self)@.cleanups.drop_first());
            Some(Scheduled::Cleanup(j))
        } else if self.layout.len() > 0 {
            let j = self.layout.remove(0);
            assert(self.layout@ =~= old(self)@.layout.drop_first());
            Some(Scheduled::Layout(j))
        } else if self.effects.len() > 0 {
            let j = self.effects.remove(0);
            assert(self.effects@ =~= old(self)@.effects.drop_first());
            Some(Scheduled::Effect(j))
        } else if self.asyncs.len() > 0 {
            let j = self.asyncs.remove(0);
            assert(self.asyncs@ =~= old(self)@.asyncs.drop_first());
            Some(Scheduled::Async(j))
        } else {
            None
        }
    }
}

/// The order of a drained loop: with nothing new scheduled, every pending
/// cleanup runs first, then every layout effect, then every ordinary
/// effect, then every asynchronous continuation, each class in order. So
/// layout effects run strictly before ordinary effects, and cleanups before
/// any setup.
pub proof fn lemma_run_order(q: LoopView)
    ensures
        run_order(q) == q.cleanups.map_values(|j: Job| as_cleanup(j)) + q.layout.map_values(|j: Job| as_layout(j))
            + q.effects.map_values(|j: Job| as_effect(j)) + q.asyncs.map_values(|j: Job| as_async(j)),
    decreases pending_len(q),
{
    if pending_len(q) > 0 {
        let (q2, s) = next_spec(q);
        lemma_run_order(q2);
        if q.cleanups.len() > 0 {
            assert(q.cleanups.map_values(|j: Job| as_cleanup(j)) =~= seq![as_cleanup(q.cleanups[0])]
                + q2.cleanups.map_values(|j: Job| as_cleanup(j)));
        } else if q.layout.len() > 0 {
            assert(q.layout.map_values(|j: Job| as_layout(j)) =~= seq![as_layout(q.layout[0])]
                + q2.layout.map_values(|j: Job| as_layout(j)));
        } else if q.effects.len() > 0 {
            assert(q.effects.map_values(|j: Job| as_effect(j)) =~= seq![as_effect(q.effects[0])]
                + q2.effects.map_values(|j: Job| as_effect(j)));
        } else {
            assert(q.asyncs.map_values(|j: Job| as_async(j)) =~= seq![as_async(q.asyncs[0])]
                + q2.asyncs.map_values(|j: Job| as_async(j)));
        }
    }
    assert(run_order(q) =~= q.cleanups.map_values(|j: Job| as_cleanup(j)) + q.layout.map_values(|j: Job| as_layout(j))
        + q.effects.map_values(|j: Job| as_effect(j)) + q.asyncs.map_values(|j: Job| as_async(j)));
}

} // verus!
