use vstd::prelude::*;
use crate::hooks::StateUpdate;

verus! {

/// The owning handle of an instance. It is neither `Copy` nor `Clone`: each
/// instance has exactly one owner, and destroying it consumes the handle.
#[derive(Debug)]
pub struct Reference {
    slot: usize,
}

impl Reference {
    pub closed spec fn slot_spec(&self) -> nat {
        self.slot as nat
    }

    /// The slot of the instance in its table.
    pub fn slot(&self) -> (r: usize)
        ensures
            r == self.slot_spec(),
    {
        self.slot
    }
}

/// A non-owning handle of an instance, as held by hook callbacks and
/// asynchronous work. It never keeps the instance alive.
#[derive(Clone, Copy, Debug, PartialEq, Eq, Structural)]
pub struct WeakReference {
    pub slot: usize,
}

/// A value built around the owning handle of an instance.
pub trait Object: Sized {
    fn from_reference(reference: Reference) -> Self;

    fn as_reference(&self) -> &Reference;
}

/// An instance as its owner holds it: the owning handle of its slot.
#[derive(Debug)]
pub struct Instance {
    reference: Reference,
}

impl Object for Instance {
    fn from_reference(reference: Reference) -> Instance {
        Instance { reference }
    }

    fn as_reference(&self) -> &Reference {
        &self.reference
    }
}

impl Instance {
    /// Gives the owning handle back, to destroy the instance.
    pub fn into_reference(self) -> (r: Reference) {
        self.reference
    }
}

/// A state update addressed to an instance: what a setter, a channel or a
/// completed asynchronous task sends back.
#[derive(Clone, Copy, Debug, PartialEq, Eq, Structural)]
pub struct Link {
    pub instance: usize,
    pub update: StateUpdate,
}

/// Which instances are alive, and the links queued for them.
pub struct InstanceTable {
    alive: Vec<bool>,
    queue: Vec<Link>,
}

pub struct TableView {
    pub alive: Seq<bool>,
    pub queue: Seq<Link>,
}

impl View for InstanceTable {
    type V = TableView;

    closed spec fn view(&self) -> TableView {
        TableView { alive: self.alive@, queue: self.queue@ }
    }
}

/// The instance in `slot` exists and has not been destroyed.
pub open spec fn is_alive(t: TableView, slot: nat) -> bool {
    slot < t.alive.len() && t.alive[slot as int]
}

/// The table after the instance in `slot` is destroyed.
pub open spec fn destroy_spec(t: TableView, slot: nat) -> TableView {
    TableView { alive: t.alive.update(slot as int, false), queue: t.queue }
}

/// The table after a link is sent through weak handle `w`: queued where its
/// instance is alive, dropped where it is not.
pub open spec fn deliver_spec(t: TableView, w: WeakReference, u: StateUpdate) -> TableView {
    if is_alive(t, w.slot as nat) {
        TableView { queue: t.queue.push(Link { instance: w.slot, update: u }), ..t }
    } else {
        t
    }
}

/// The links of `q` whose instance is alive, in the order they were queued.
pub open spec fn live_links(q: Seq<Link>, alive: Seq<bool>) -> Seq<Link>
    decreases q.len(),
{
    if q.len() == 0 {
        Seq::empty()
    } else {
        let r = live_links(q.drop_last(), alive);
        let l = q.last();
        if l.instance < alive.len() && alive[l.instance as int] {
            r.push(l)
        } else {
            r
        }
    }
}

impl InstanceTable {
    pub fn new() -> (r: InstanceTable)
        ensures
            r@.alive == Seq::<bool>::empty(),
            r@.queue == Seq::<Link>::empty(),
    {
        InstanceTable { alive: Vec::new(), queue: Vec::new() }
    }

    /// Makes a new live instance and hands out its owning handle.
    pub fn create(&mut self) -> (r: Reference)
        ensures
            r.slot_spec() == old(self)@.alive.len(),
            final(self)@.alive == old(self)@.alive.push(true),
            final(self)@.queue == old(self)@.queue,
    {
        let slot = self.alive.len();
        self.alive.push(true);
        Reference { slot }
    }

    /// A weak handle of the instance that `r` owns.
    pub fn downgrade(&self, r: &Reference) -> (w: WeakReference)
        ensures
            w.slot == r.slot_spec(),
    {
        WeakReference { slot: r.slot }
    }

    /// Whether the instance behind `w` is still alive.
    pub fn upgrade(&self, w: WeakReference) -> (r: bool)
        ensures
            r == is_alive(self@, w.slot as nat),
    {
        w.slot < self.alive.len() && self.alive[w.slot]
    }

    /// Destroys the instance that `r` owns. The handle is consumed, so the
    /// instance is torn down exactly once; its weak handles fail from now on.
    pub fn destroy(&mut self, r: Reference)
        requires
            is_alive(old(self)@, r.slot_spec()),
        ensures
            final(self)@ == destroy_spec(old(self)@, r.slot_spec()),
    {
        self.alive[r.slot] = false;
        assert(self@.alive =~= destroy_spec(old(self)@, r.slot_spec()).alive);
    }

    /// Destroys the instance in `slot`, for an owner that keeps slots rather
    /// than handles.
    pub(crate) fn release(&mut self, slot: usize)
        requires
            slot < old(self)@.alive.len(),
        ensures
            final(self)@ == destroy_spec(old(self)@, slot as nat),
    {
        self.alive[slot] = false;
        assert(self@.alive =~= destroy_spec(old(self)@, slot as nat).alive);
    }

    /// Sends a state update through a weak handle, as a completed
    /// asynchronous task does. Returns whether it was queued.
    pub fn deliver(&mut self, w: WeakReference, u: StateUpdate) -> (r: bool)
        ensures
            r == is_alive(old(self)@, w.slot as nat),
            final(self)@ == deliver_spec(old(self)@, w, u),
    {
        if w.slot < self.alive.len() && self.alive[w.slot] {
            self.queue.push(Link { instance: w.slot, update: u });
            true
        } else {
            false
        }
    }

    /// Takes the queued links whose instance is still alive, in the order
    /// they were queued, and empties the queue.
    pub fn drain(&mut self) -> (r: Vec<Link>)
        ensures
            r@ == live_links(old(self)@.queue, old(self)@.alive),
            final(self)@.alive == old(self)@.alive,
            final(self)@.queue == Seq::<Link>::empty(),
    {
        let mut out: Vec<Link> = Vec::new();
        let mut i: usize = 0;
        while i < self.queue.len()
            invariant
                0 <= i <= self.queue.len(),
                out@ == live_links(self.queue@.subrange(0, i as int), self.alive@),
            decreases self.queue.len() - i,
        {
            assert(self.queue@.subrange(0, i as int + 1).drop_last() =~= self.queue@.subrange(0, i as int));
            let l = self.queue[i];
            if l.instance < self.alive.len() && self.alive[l.instance] {
                out.push(l);
            }
            i = i + 1;
        }
        assert(self.queue@.subrange(0, self.queue@.len() as int) =~= self.queue@);
        self.queue.clear();
        out
    }
}

proof fn lemma_live_links_exclude(q: Seq<Link>, alive: Seq<bool>, slot: int)
    requires
        0 <= slot < alive.len(),
        !alive[slot],
    ensures
        forall|k: int| 0 <= k < live_links(q, alive).len() ==> (#[trigger] live_links(q, alive)[k]).instance != slot,
    decreases q.len(),
{
    if q.len() > 0 {
        let d = q.drop_last();
        lemma_live_links_exclude(d, alive, slot);
        let r = live_links(d, alive);
        let l = q.last();
        if l.instance < alive.len() && alive[l.instance as int] {
            assert forall|k: int| 0 <= k < r.push(l).len() implies (#[trigger] r.push(l)[k]).instance != slot by {
                if k < r.len() {
                    assert(r.push(l)[k] == r[k]);
                }
            }
        }
    }
}

/// Once an instance is destroyed, work that completes afterwards reaches it
/// no more: a delivery through any of its weak handles changes nothing, and
/// none of the links still queued for it is handed out.
pub proof fn lemma_no_delivery_after_destroy(t: TableView, slot: nat, w: WeakReference, u: StateUpdate)
    requires
        is_alive(t, slot),
        w.slot == slot,
    ensures
        !is_alive(destroy_spec(t, slot), w.slot as nat),
        deliver_spec(destroy_spec(t, slot), w, u) == destroy_spec(t, slot),
        forall|k: int| 0 <= k < live_links(t.queue, destroy_spec(t, slot).alive).len()
            ==> (#[trigger] live_links(t.queue, destroy_spec(t, slot).alive)[k]).instance != slot,
{
    lemma_live_links_exclude(t.queue, destroy_spec(t, slot).alive, slot as int);
}

} // verus!
