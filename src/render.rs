use vstd::prelude::*;
use crate::element::{Element, index_of, keys_unique, has_unique_keys, find_key, lemma_index_of_unique, lemma_index_of_first};
use crate::compositor::Composition;
use crate::reconciler::{diff, diff_children, is_reordering, lemma_reorder_moves_only};
use crate::hooks::{Hooks, HooksView, HookCell, untouched, lemma_state_cell_stable, HookError, EffectAction, StateUpdate, effect_cells, begin_spec, advanced, use_state_spec, use_effect_spec};
use crate::instance::{InstanceTable, TableView, WeakReference, Link, is_alive, deliver_spec, live_links};
use crate::evloop::{EventLoop, Job, LoopView, Scheduled, next_spec, run_order, pending_len, lemma_run_order, as_cleanup, as_layout, as_effect, as_async};
use crate::context::{ContextEntry, ContextError, ContextTree, nearest};
use crate::channel::Channel;
use crate::topology::RenderError;

verus! {

/// The render-pass driver for the children of the host's root container:
/// each child has an instance slot and its hook cells, which follow the
/// child across passes while its key and kind stay.
pub struct Manager {
    children: Vec<Element>,
    slots: Vec<usize>,
    hooks: Vec<Hooks>,
    table: InstanceTable,
    evloop: EventLoop,
    context: ContextTree,
    pass: u64,
}

pub struct ManagerView {
    pub children: Seq<Element>,
    pub slots: Seq<usize>,
    pub hooks: Seq<HooksView>,
    pub table: TableView,
    pub evloop: LoopView,
    pub context: Seq<ContextEntry>,
    pub pass: u64,
}

impl View for Manager {
    type V = ManagerView;

    closed spec fn view(&self) -> ManagerView {
        ManagerView {
            children: self.children@,
            slots: self.slots@,
            hooks: self.hooks@.map_values(|h: Hooks| h@),
            table: self.table@,
            evloop: self.evloop@,
            context: self.context@,
            pass: self.pass,
        }
    }
}

impl ManagerView {
    pub open spec fn wf(self) -> bool {
        &&& self.slots.len() == self.children.len()
        &&& self.hooks.len() == self.children.len()
        &&& keys_unique(self.children)
        &&& forall|j: int| 0 <= j < self.hooks.len() ==> (#[trigger] self.hooks[j]).wf()
        &&& forall|j: int| 0 <= j < self.slots.len() ==> (#[trigger] self.slots[j]) < self.table.alive.len()
    }
}

/// New child `e` keeps the instance of the previous child with its key,
/// where there is one of the same kind.
pub open spec fn keeps(prev: Seq<Element>, e: Element) -> bool {
    0 <= index_of(prev, e.key) && prev[index_of(prev, e.key)].kind == e.kind
}

/// Previous child `i` has a successor among the new children.
pub open spec fn survives(prev: Seq<Element>, next: Seq<Element>, i: int) -> bool {
    0 <= index_of(next, prev[i].key) && next[index_of(next, prev[i].key)].kind == prev[i].kind
}

/// The hook state of an instance that renders for the first time.
pub open spec fn fresh_hooks() -> HooksView {
    HooksView { cells: Seq::empty(), cursor: 0, mounted: false, pending: Seq::empty() }
}

/// The cleanup jobs of the effect cells of one instance.
pub open spec fn cleanups_of(slot: usize, h: HooksView, pass: u64) -> Seq<Job> {
    effect_cells(h.cells).map_values(|c: usize| Job { instance: slot, cell: c, pass })
}

/// The cleanups of every previous child among the first `n` that has no
/// successor, in order.
pub open spec fn removed_cleanups(m: ManagerView, next: Seq<Element>, n: int) -> Seq<Job>
    decreases n,
{
    if n <= 0 {
        Seq::empty()
    } else if survives(m.children, next, n - 1) {
        removed_cleanups(m, next, n - 1)
    } else {
        removed_cleanups(m, next, n - 1) + cleanups_of(m.slots[n - 1], m.hooks[n - 1], m.pass)
    }
}

/// What a render pass leaves behind when it starts from `o` with new
/// children `next` and enclosing providers `providers`, giving `f`.
pub open spec fn pass_started(o: ManagerView, next: Seq<Element>, providers: Seq<ContextEntry>, f: ManagerView) -> bool {
    &&& f.children == next
    &&& f.context == providers
    &&& f.pass == if o.pass < u64::MAX { (o.pass + 1) as u64 } else { o.pass }
    &&& forall|j: int| 0 <= j < next.len() && keeps(o.children, #[trigger] next[j])
        ==> f.slots[j] == o.slots[index_of(o.children, next[j].key)]
        && f.hooks[j] == begin_spec(o.hooks[index_of(o.children, next[j].key)])
    &&& forall|j: int| 0 <= j < next.len() && !keeps(o.children, #[trigger] next[j])
        ==> f.hooks[j] == begin_spec(fresh_hooks())
        && f.slots[j] >= o.table.alive.len()
        && is_alive(f.table, f.slots[j] as nat)
    &&& forall|i: int| 0 <= i < o.children.len() && !survives(o.children, next, i)
        ==> !is_alive(f.table, o.slots[i] as nat)
    &&& f.table.queue == o.table.queue
    &&& f.evloop == (LoopView {
        cleanups: o.evloop.cleanups + removed_cleanups(o, next, o.children.len() as int),
        ..o.evloop
    })
}

impl Manager {
    pub fn new() -> (r: Manager)
        ensures
            r@.wf(),
            r@.children == Seq::<Element>::empty(),
            r@.pass == 0,
    {
        Manager {
            children: Vec::new(),
            slots: Vec::new(),
            hooks: Vec::new(),
            table: InstanceTable::new(),
            evloop: EventLoop::new(),
            context: ContextTree::new(),
            pass: 0,
        }
    }
}

proof fn lemma_kept_survives(prev: Seq<Element>, next: Seq<Element>, j: int)
    requires
        keys_unique(next),
        0 <= j < next.len(),
        keeps(prev, next[j]),
    ensures
        survives(prev, next, index_of(prev, next[j].key)),
        prev[index_of(prev, next[j].key)].key == next[j].key,
        index_of(next, prev[index_of(prev, next[j].key)].key) == j,
{
    let i = index_of(prev, next[j].key);
    lemma_index_of_first(prev, next[j].key, i);
    lemma_index_of_unique(next, j);
}

impl Manager {
    fn survives_exec(&self, next: &Vec<Element>, i: usize) -> (r: bool)
        requires
            i < self.children@.len(),
        ensures
            r == survives(self.children@, next@, i as int),
    {
        match find_key(next, self.children[i].key) {
            Some(j) => next[j].kind == self.children[i].kind,
            None => false,
        }
    }

    fn remove_departed(&mut self, next: &Vec<Element>)
        requires
            old(self)@.wf(),
        ensures
            final(self)@.children == old(self)@.children,
            final(self)@.slots == old(self)@.slots,
            final(self)@.context == old(self)@.context,
            final(self)@.pass == old(self)@.pass,
            final(self)@.hooks.len() == old(self)@.hooks.len(),
            forall|i: int| 0 <= i < old(self)@.children.len() && survives(old(self)@.children, next@, i)
                ==> final(self)@.hooks[i] == old(self)@.hooks[i],
            forall|i: int| 0 <= i < old(self)@.children.len() && !survives(old(self)@.children, next@, i)
                ==> !is_alive(final(self)@.table, old(self)@.slots[i] as nat),
            final(self)@.table.alive.len() == old(self)@.table.alive.len(),
            final(self)@.table.queue == old(self)@.table.queue,
            final(self)@.evloop == (LoopView {
                cleanups: old(self)@.evloop.cleanups + removed_cleanups(old(self)@, next@, old(self)@.children.len() as int),
                ..old(self)@.evloop
            }),
    {
        let ghost m = self@;
        let mut i: usize = 0;
        while i < self.children.len()
            invariant
                0 <= i <= self.children@.len(),
                m.wf(),
                self@.children == m.children,
                self@.slots == m.slots,
                self@.context == m.context,
                self@.pass == m.pass,
                self@.hooks.len() == m.hooks.len(),
                forall|k: int| i <= k < m.hooks.len() ==> self@.hooks[k] == m.hooks[k],
                forall|k: int| 0 <= k < i && survives(m.children, next@, k) ==> self@.hooks[k] == m.hooks[k],
                forall|k: int| 0 <= k < i && !survives(m.children, next@, k)
                    ==> !is_alive(self@.table, m.slots[k] as nat),
                self@.table.alive.len() == m.table.alive.len(),
                self@.table.queue == m.table.queue,
                self@.evloop == (LoopView { cleanups: m.evloop.cleanups + removed_cleanups(m, next@, i as int), ..m.evloop }),
            decreases self.children@.len() - i,
        {
            if !self.survives_exec(next, i) {
                let slot = self.slots[i];
                self.table.release(slot);
                let cl = self.hooks[i].teardown();
                let ghost base = self@.evloop;
                let ghost pre = self@;
                let mut c: usize = 0;
                while c < cl.len()
                    invariant
                        0 <= c <= cl@.len(),
                        self@ == (ManagerView { evloop: self@.evloop, ..pre }),
                        self@.evloop == (LoopView {
                            cleanups: base.cleanups + cl@.subrange(0, c as int).map_values(|x: usize| Job { instance: slot, cell: x, pass: m.pass }),
                            ..base
                        }),
                        self.pass == m.pass,
                    decreases cl@.len() - c,
                {
                    self.evloop.schedule_cleanup(Job { instance: slot, cell: cl[c], pass: self.pass });
                    c = c + 1;
                    assert(cl@.subrange(0, c as int).map_values(|x: usize| Job { instance: slot, cell: x, pass: m.pass })
                        =~= cl@.subrange(0, c as int - 1).map_values(|x: usize| Job { instance: slot, cell: x, pass: m.pass })
                            .push(Job { instance: slot, cell: cl@[c as int - 1], pass: m.pass }));
                }
                assert(cl@.subrange(0, cl@.len() as int) =~= cl@);
                assert(self@.evloop.cleanups =~= m.evloop.cleanups + removed_cleanups(m, next@, i as int + 1));
            }
            i = i + 1;
        }
    }
}

impl Manager {
    /// Starts a render pass of the children: diffs them against `next` and
    /// returns the commands. A child that keeps its key and kind keeps its
    /// instance and hook cells, with its queued updates applied; a new one
    /// gets a fresh instance. Every previous child without a successor has
    /// its instance destroyed and the cleanups of its effects scheduled,
    /// ahead of any setup. `providers` are the context values that enclose
    /// the children, outermost first. A list with a repeated key is refused
    /// and changes nothing.
    pub fn begin_pass(&mut self, next: Vec<Element>, providers: Vec<ContextEntry>) -> (r: Result<Composition, RenderError>)
        requires
            old(self)@.wf(),
        ensures
            final(self)@.wf(),
            !keys_unique(next@) ==> r == Err::<Composition, RenderError>(RenderError::DuplicateKey)
                && final(self)@ == old(self)@,
            keys_unique(next@) ==> r is Ok && r.unwrap()@ == diff(old(self)@.children, next@),
            keys_unique(next@) ==> pass_started(old(self)@, next@, providers@, final(self)@),
    {
        if !has_unique_keys(&next) {
            return Err(RenderError::DuplicateKey);
        }
        let composition = diff_children(&self.children, &next);
        let ghost o = self@;
        self.remove_departed(&next);
        let ghost m = self@;
        let mut new_slots: Vec<usize> = Vec::new();
        let mut new_hooks: Vec<Hooks> = Vec::new();
        let mut j: usize = 0;
        while j < next.len()
            invariant
                0 <= j <= next@.len(),
                o.wf(),
                keys_unique(next@),
                self@ == (ManagerView { hooks: self@.hooks, table: self@.table, ..m }),
                m.children == o.children,
                m.slots == o.slots,
                m.hooks.len() == o.hooks.len(),
                self@.hooks.len() == m.hooks.len(),
                forall|i: int| 0 <= i < o.children.len() && survives(o.children, next@, i)
                    ==> m.hooks[i] == o.hooks[i],
                forall|i: int| 0 <= i < o.children.len() && survives(o.children, next@, i)
                    && index_of(next@, o.children[i].key) >= j ==> self@.hooks[i] == m.hooks[i],
                new_slots@.len() == j,
                new_hooks@.len() == j,
                forall|k: int| 0 <= k < j && keeps(o.children, #[trigger] next@[k])
                    ==> new_slots@[k] == o.slots[index_of(o.children, next@[k].key)]
                    && new_hooks@[k]@ == begin_spec(o.hooks[index_of(o.children, next@[k].key)]),
                forall|k: int| 0 <= k < j && !keeps(o.children, #[trigger] next@[k])
                    ==> new_hooks@[k]@ == begin_spec(fresh_hooks())
                    && new_slots@[k] >= o.table.alive.len()
                    && is_alive(self@.table, new_slots@[k] as nat),
                forall|k: int| 0 <= k < j ==> (#[trigger] new_hooks@[k])@.wf(),
                forall|k: int| 0 <= k < j ==> (#[trigger] new_slots@[k]) < self@.table.alive.len(),
                self@.table.alive.len() >= m.table.alive.len(),
                m.table.alive.len() == o.table.alive.len(),
                forall|s: int| 0 <= s < m.table.alive.len() ==> self@.table.alive[s] == m.table.alive[s],
                self@.table.queue == m.table.queue,
            decreases next@.len() - j,
        {
            let e = next[j];
            let found = find_key(&self.children, e.key);
            let kept = match found {
                Some(i) => self.children[i].kind == e.kind,
                None => false,
            };
            if kept {
                let i = found.unwrap();
                proof {
                    lemma_kept_survives(o.children, next@, j as int);
                    assert forall|k: int| 0 <= k < o.children.len() && survives(o.children, next@, k)
                        && index_of(next@, o.children[k].key) >= j + 1 implies k != i by {
                        if k == i {
                            assert(index_of(next@, o.children[k].key) == j);
                        }
                    }
                    assert(self@.hooks[i as int] == o.hooks[i as int]);
                    assert(o.hooks[i as int].wf());
                }
                let mut h = Hooks::new();
                std::mem::swap(&mut self.hooks[i], &mut h);
                h.begin_render();
                new_hooks.push(h);
                new_slots.push(self.slots[i]);
            } else {
                let r = self.table.create();
                let s = r.slot();
                let mut h = Hooks::new();
                h.begin_render();
                new_hooks.push(h);
                new_slots.push(s);
            }
            j = j + 1;
        }
        self.children = next;
        self.slots = new_slots;
        self.hooks = new_hooks;
        self.context.set_providers(providers);
        if self.pass < u64::MAX {
            self.pass = self.pass + 1;
        }
        proof {
            assert forall|i: int| 0 <= i < o.children.len() && !survives(o.children, self@.children, i)
                implies !is_alive(self@.table, o.slots[i] as nat) by {
                assert(!is_alive(m.table, o.slots[i] as nat));
                assert(o.slots[i] < o.table.alive.len());
            }
        }
        Ok(composition)
    }
}

impl Manager {
    /// The current children.
    pub fn children(&self) -> (r: &Vec<Element>)
        ensures
            r@ == self@.children,
    {
        &self.children
    }

    /// The instance slot of child `j`.
    pub fn slot(&self, j: usize) -> (r: usize)
        requires
            j < self@.slots.len(),
        ensures
            r == self@.slots[j as int],
    {
        self.slots[j]
    }

    /// A weak handle of the instance of child `j`, as asynchronous work
    /// bound to it holds.
    pub fn weak(&self, j: usize) -> (w: WeakReference)
        requires
            j < self@.slots.len(),
        ensures
            w.slot == self@.slots[j as int],
    {
        WeakReference { slot: self.slots[j] }
    }

    /// Whether the instance behind `w` is alive.
    pub fn upgrade(&self, w: WeakReference) -> (r: bool)
        ensures
            r == is_alive(self@.table, w.slot as nat),
    {
        self.table.upgrade(w)
    }

    /// Child `j` calls a state hook.
    pub fn use_state(&mut self, j: usize, init: u64) -> (r: Result<(usize, u64), HookError>)
        requires
            old(self)@.wf(),
            j < old(self)@.children.len(),
            old(self)@.hooks[j as int].cells.len() < usize::MAX,
        ensures
            final(self)@.wf(),
            r == use_state_spec(old(self)@.hooks[j as int], init),
            final(self)@ == (ManagerView { hooks: final(self)@.hooks, ..old(self)@ }),
            final(self)@.hooks.len() == old(self)@.hooks.len(),
            forall|k: int| 0 <= k < old(self)@.hooks.len() && k != j ==> final(self)@.hooks[k] == old(self)@.hooks[k],
            r is Ok ==> final(self)@.hooks[j as int] == advanced(old(self)@.hooks[j as int], HookCell::State(r.unwrap().1)),
            r is Err ==> final(self)@.hooks[j as int] == old(self)@.hooks[j as int],
    {
        let r = self.hooks[j].use_state(init);
        proof {
            assert(self@.hooks =~= old(self)@.hooks.update(j as int, self.hooks@[j as int]@));
        }
        r
    }

    /// Child `j` calls an effect hook. An effect that must run is scheduled
    /// by its class: a layout effect as a layout job, another as an ordinary
    /// effect job, for the cell of the call.
    pub fn use_effect(&mut self, j: usize, deps: u64, layout: bool) -> (r: Result<EffectAction, HookError>)
        requires
            old(self)@.wf(),
            j < old(self)@.children.len(),
            old(self)@.hooks[j as int].cells.len() < usize::MAX,
        ensures
            final(self)@.wf(),
            r == use_effect_spec(old(self)@.hooks[j as int], deps, layout),
            final(self)@ == (ManagerView { hooks: final(self)@.hooks, evloop: final(self)@.evloop, ..old(self)@ }),
            final(self)@.hooks.len() == old(self)@.hooks.len(),
            forall|k: int| 0 <= k < old(self)@.hooks.len() && k != j ==> final(self)@.hooks[k] == old(self)@.hooks[k],
            r is Ok ==> final(self)@.hooks[j as int] == advanced(old(self)@.hooks[j as int], HookCell::Effect { deps, layout }),
            r is Err ==> final(self)@.hooks[j as int] == old(self)@.hooks[j as int],
            final(self)@.evloop == scheduled(old(self)@.evloop, r,
                Job { instance: old(self)@.slots[j as int], cell: old(self)@.hooks[j as int].cursor as usize, pass: old(self)@.pass }, layout),
    {
        let cell = self.hooks[j].cursor();
        let r = self.hooks[j].use_effect(deps, layout);
        proof {
            assert(self@.hooks =~= old(self)@.hooks.update(j as int, self.hooks@[j as int]@));
        }
        let job = Job { instance: self.slots[j], cell, pass: self.pass };
        match r {
            Ok(EffectAction::Skip) => {},
            Ok(_) => {
                if layout {
                    self.evloop.schedule_layout(job);
                } else {
                    self.evloop.schedule_effect(job);
                }
            },
            Err(_) => {},
        }
        r
    }

    /// Child `j` queues a new value for its state cell `cell`.
    pub fn set_state(&mut self, j: usize, cell: usize, value: u64)
        requires
            old(self)@.wf(),
            j < old(self)@.children.len(),
        ensures
            final(self)@.wf(),
            final(self)@ == (ManagerView {
                hooks: old(self)@.hooks.update(j as int, HooksView {
                    pending: old(self)@.hooks[j as int].pending.push(StateUpdate { cell, value }),
                    ..old(self)@.hooks[j as int]
                }),
                ..old(self)@
            }),
    {
        self.hooks[j].set_state(cell, value);
        proof {
            assert(self@.hooks =~= old(self)@.hooks.update(j as int, self.hooks@[j as int]@));
        }
    }

    /// Reads context `id` as a context hook does, in the current pass.
    pub fn use_context(&self, id: u64, default: Option<u64>) -> (r: Result<u64, ContextError>)
        ensures
            nearest(self@.context, id) is Some ==> r == Ok::<u64, ContextError>(nearest(self@.context, id).unwrap()),
            nearest(self@.context, id) is None && default is Some ==> r == Ok::<u64, ContextError>(default.unwrap()),
            nearest(self@.context, id) is None && default is None
                ==> r == Err::<u64, ContextError>(ContextError::NoProvider { id }),
    {
        self.context.use_context(id, default)
    }

    /// Ends the pass of child `j`: fails where it called fewer hooks than
    /// its cells.
    pub fn end_pass(&mut self, j: usize) -> (r: Result<(), HookError>)
        requires
            old(self)@.wf(),
            j < old(self)@.children.len(),
        ensures
            final(self)@.wf(),
            final(self)@ == (ManagerView { hooks: final(self)@.hooks, ..old(self)@ }),
            final(self)@.hooks.len() == old(self)@.hooks.len(),
            forall|k: int| 0 <= k < old(self)@.hooks.len() && k != j ==> final(self)@.hooks[k] == old(self)@.hooks[k],
            old(self)@.hooks[j as int].cursor == old(self)@.hooks[j as int].cells.len() ==> r is Ok
                && final(self)@.hooks[j as int] == (HooksView { mounted: true, ..old(self)@.hooks[j as int] }),
            old(self)@.hooks[j as int].cursor != old(self)@.hooks[j as int].cells.len() ==> r is Err
                && final(self)@.hooks[j as int] == old(self)@.hooks[j as int],
    {
        let r = self.hooks[j].end_render();
        proof {
            assert(self@.hooks =~= old(self)@.hooks.update(j as int, self.hooks@[j as int]@));
        }
        r
    }

    /// Asynchronous work bound to an instance completes with an update for
    /// its cell: where the instance is alive the update is queued on its link
    /// and the continuation scheduled; where it was destroyed nothing at all
    /// changes.
    pub fn complete_async(&mut self, w: WeakReference, u: StateUpdate) -> (r: bool)
        requires
            old(self)@.wf(),
        ensures
            final(self)@.wf(),
            r == is_alive(old(self)@.table, w.slot as nat),
            !r ==> final(self)@ == old(self)@,
            r ==> final(self)@ == (ManagerView {
                table: deliver_spec(old(self)@.table, w, u),
                evloop: LoopView {
                    asyncs: old(self)@.evloop.asyncs.push(Job { instance: w.slot, cell: u.cell, pass: old(self)@.pass }),
                    ..old(self)@.evloop
                },
                ..old(self)@
            }),
    {
        if self.table.upgrade(w) {
            self.table.deliver(w, u);
            self.evloop.schedule_async(Job { instance: w.slot, cell: u.cell, pass: self.pass });
            true
        } else {
            false
        }
    }

    /// Moves every message waiting on `ch` onto the link of the instance
    /// behind `w`, as updates of its cell `cell`, in the order they were
    /// sent. Where the instance was destroyed the messages are dropped.
    pub fn pump_channel(&mut self, ch: &mut Channel, w: WeakReference, cell: usize)
        requires
            old(self)@.wf(),
            old(ch).wf(),
        ensures
            final(self)@.wf(),
            final(ch).wf(),
            final(ch)@ == Seq::<u64>::empty(),
            final(self)@ == (ManagerView { table: final(self)@.table, ..old(self)@ }),
            final(self)@.table.alive == old(self)@.table.alive,
            is_alive(old(self)@.table, w.slot as nat) ==> final(self)@.table.queue == old(self)@.table.queue
                + old(ch)@.map_values(|m: u64| Link { instance: w.slot, update: StateUpdate { cell, value: m } }),
            !is_alive(old(self)@.table, w.slot as nat) ==> final(self)@.table.queue == old(self)@.table.queue,
    {
        let ghost msgs = ch@;
        let ghost n = msgs.len();
        while ch.len() > 0
            invariant
                ch.wf(),
                old(self)@.wf(),
                msgs.len() == n,
                ch@.len() <= n,
                ch@ == msgs.subrange(n - ch@.len(), n as int),
                self@ == (ManagerView { table: self@.table, ..old(self)@ }),
                self@.table.alive == old(self)@.table.alive,
                is_alive(old(self)@.table, w.slot as nat) ==> self@.table.queue == old(self)@.table.queue
                    + msgs.subrange(0, n - ch@.len()).map_values(|m: u64| Link { instance: w.slot, update: StateUpdate { cell, value: m } }),
                !is_alive(old(self)@.table, w.slot as nat) ==> self@.table.queue == old(self)@.table.queue,
            decreases ch@.len(),
        {
            let ghost before = ch@;
            let m = ch.receive().unwrap();
            assert(m == msgs[n - before.len()]);
            self.table.deliver(w, StateUpdate { cell, value: m });
            assert(msgs.subrange(0, n - ch@.len()) =~= msgs.subrange(0, n - before.len()).push(m));
            assert(ch@ =~= msgs.subrange(n - ch@.len(), n as int));
        }
        assert(msgs.subrange(0, n as int) =~= msgs);
    }

    /// Hands out the next job of the loop.
    pub fn next_job(&mut self) -> (r: Option<Scheduled>)
        requires
            old(self)@.wf(),
        ensures
            final(self)@.wf(),
            (final(self)@.evloop, r) == next_spec(old(self)@.evloop),
            final(self)@ == (ManagerView { evloop: final(self)@.evloop, ..old(self)@ }),
    {
        self.evloop.next()
    }
}

/// The updates among `links` addressed to instance `slot`, in order.
pub open spec fn updates_for(links: Seq<Link>, slot: usize) -> Seq<StateUpdate>
    decreases links.len(),
{
    if links.len() == 0 {
        Seq::empty()
    } else if links.last().instance == slot {
        updates_for(links.drop_last(), slot).push(links.last().update)
    } else {
        updates_for(links.drop_last(), slot)
    }
}

impl Manager {
    /// Hands the links queued for live instances to the hook cells of the
    /// children that own those instances, in the order they were queued;
    /// they take effect when the next pass begins.
    pub fn apply_links(&mut self)
        requires
            old(self)@.wf(),
        ensures
            final(self)@.wf(),
            final(self)@ == (ManagerView { hooks: final(self)@.hooks, table: final(self)@.table, ..old(self)@ }),
            final(self)@.table.alive == old(self)@.table.alive,
            final(self)@.table.queue == Seq::<Link>::empty(),
            final(self)@.hooks.len() == old(self)@.hooks.len(),
            forall|j: int| 0 <= j < old(self)@.hooks.len() ==> (#[trigger] final(self)@.hooks[j]) == (HooksView {
                pending: old(self)@.hooks[j].pending
                    + updates_for(live_links(old(self)@.table.queue, old(self)@.table.alive), old(self)@.slots[j]),
                ..old(self)@.hooks[j]
            }),
    {
        let links = self.table.drain();
        let ghost o = old(self)@;
        let ghost m = self@;
        let mut l: usize = 0;
        while l < links.len()
            invariant
                0 <= l <= links@.len(),
                o.wf(),
                links@ == live_links(o.table.queue, o.table.alive),
                self@ == (ManagerView { hooks: self@.hooks, ..m }),
                m == (ManagerView { table: m.table, ..o }),
                self@.hooks.len() == o.hooks.len(),
                forall|j: int| 0 <= j < o.hooks.len() ==> (#[trigger] self@.hooks[j]) == (HooksView {
                    pending: o.hooks[j].pending + updates_for(links@.subrange(0, l as int), o.slots[j]),
                    ..o.hooks[j]
                }),
            decreases links@.len() - l,
        {
            let link = links[l];
            let ghost pre = self@;
            assert(links@.subrange(0, l as int + 1).drop_last() =~= links@.subrange(0, l as int));
            let mut j: usize = 0;
            while j < self.hooks.len()
                invariant
                    0 <= j <= self@.hooks.len(),
                    0 <= l < links@.len(),
                    link == links@[l as int],
                    links@.subrange(0, l as int + 1).drop_last() == links@.subrange(0, l as int),
                    o.wf(),
                    self@ == (ManagerView { hooks: self@.hooks, ..m }),
                    m == (ManagerView { table: m.table, ..o }),
                    self@.hooks.len() == o.hooks.len(),
                    forall|k: int| j <= k < o.hooks.len() ==> (#[trigger] self@.hooks[k]) == pre.hooks[k],
                    forall|k: int| 0 <= k < o.hooks.len() ==> (#[trigger] pre.hooks[k]) == (HooksView {
                        pending: o.hooks[k].pending + updates_for(links@.subrange(0, l as int), o.slots[k]),
                        ..o.hooks[k]
                    }),
                    forall|k: int| 0 <= k < j ==> (#[trigger] self@.hooks[k]) == (HooksView {
                        pending: o.hooks[k].pending + updates_for(links@.subrange(0, l as int + 1), o.slots[k]),
                        ..o.hooks[k]
                    }),
                decreases self@.hooks.len() - j,
            {
                let ghost before = self@.hooks;
                proof {
                    let s1 = links@.subrange(0, l as int + 1);
                    assert(s1.last() == link);
                    assert(self@.slots[j as int] == o.slots[j as int]);
                }
                if self.slots[j] == link.instance {
                    self.hooks[j].set_state(link.update.cell, link.update.value);
                    proof {
                        assert(self@.hooks =~= before.update(j as int, self.hooks@[j as int]@));
                        assert(o.hooks[j as int].pending + updates_for(links@.subrange(0, l as int + 1), o.slots[j as int])
                            =~= (o.hooks[j as int].pending + updates_for(links@.subrange(0, l as int), o.slots[j as int])).push(link.update));
                        assert(before[j as int] == pre.hooks[j as int]);
                        assert(self@.hooks[j as int] == (HooksView {
                            pending: o.hooks[j as int].pending + updates_for(links@.subrange(0, l as int + 1), o.slots[j as int]),
                            ..o.hooks[j as int]
                        }));
                    }
                } else {
                    assert(updates_for(links@.subrange(0, l as int + 1), o.slots[j as int])
                        == updates_for(links@.subrange(0, l as int), o.slots[j as int]));
                    assert(self@.hooks[j as int] == pre.hooks[j as int]);
                }
                j = j + 1;
            }
            l = l + 1;
        }
        assert(links@.subrange(0, links@.len() as int) =~= links@);
    }
}

/// The loop after an effect hook call that returned `r` for `job`.
pub open spec fn scheduled(q: LoopView, r: Result<EffectAction, HookError>, job: Job, layout: bool) -> LoopView {
    match r {
        Ok(EffectAction::Skip) => q,
        Ok(_) => if layout {
            LoopView { layout: q.layout.push(job), ..q }
        } else {
            LoopView { effects: q.effects.push(job), ..q }
        },
        Err(_) => q,
    }
}

/// A state cell keeps its value across passes in which its instance
/// survives: where child `j` keeps its key and kind, a state cell at
/// position `c` that held `x` with no update queued for it is read back as
/// `x` by the state hook at `c` in the new pass, whatever initial value that
/// call hands, and the child keeps its instance.
pub proof fn lemma_render_keeps_state(
    o: ManagerView,
    next: Seq<Element>,
    providers: Seq<ContextEntry>,
    f: ManagerView,
    j: int,
    c: int,
    x: u64,
    init: u64,
)
    requires
        o.wf(),
        pass_started(o, next, providers, f),
        0 <= j < next.len(),
        keeps(o.children, next[j]),
        0 <= c < o.hooks[index_of(o.children, next[j].key)].cells.len(),
        o.hooks[index_of(o.children, next[j].key)].cells[c] == HookCell::State(x),
        untouched(o.hooks[index_of(o.children, next[j].key)].pending, c),
    ensures
        f.slots[j] == o.slots[index_of(o.children, next[j].key)],
        f.hooks[j].cells[c] == HookCell::State(x),
        use_state_spec(HooksView { cursor: c as nat, ..f.hooks[j] }, init) == Ok::<(usize, u64), HookError>((c as usize, x)),
{
    let i = index_of(o.children, next[j].key);
    assert(o.hooks[i].wf());
    lemma_state_cell_stable(o.hooks[i], c, x, init);
}

/// A render pass destroys the instance of every previous child without a
/// successor, so asynchronous work bound to it that completes afterwards
/// changes nothing: its weak handle no longer upgrades and a delivery
/// through it leaves the table as it is.
pub proof fn lemma_render_cancels_departed(
    o: ManagerView,
    next: Seq<Element>,
    providers: Seq<ContextEntry>,
    f: ManagerView,
    i: int,
    u: StateUpdate,
)
    requires
        pass_started(o, next, providers, f),
        0 <= i < o.children.len(),
        !survives(o.children, next, i),
    ensures
        !is_alive(f.table, o.slots[i] as nat),
        deliver_spec(f.table, WeakReference { slot: o.slots[i] }, u) == f.table,
{
}

/// Cleanups run before setups: after a render pass schedules the cleanups
/// of the departed instances, whatever setups the pass then schedules by
/// class, the loop hands out every cleanup first.
pub proof fn lemma_cleanups_before_setups(q: LoopView, r: Result<EffectAction, HookError>, job: Job, layout: bool)
    ensures
        scheduled(q, r, job, layout).cleanups == q.cleanups,
        run_order(scheduled(q, r, job, layout)) == q.cleanups.map_values(|j: Job| as_cleanup(j))
            + (scheduled(q, r, job, layout).layout.map_values(|j: Job| as_layout(j))
            + scheduled(q, r, job, layout).effects.map_values(|j: Job| as_effect(j))
            + scheduled(q, r, job, layout).asyncs.map_values(|j: Job| as_async(j))),
{
    let s = scheduled(q, r, job, layout);
    lemma_run_order(s);
    assert(run_order(s) =~= q.cleanups.map_values(|j: Job| as_cleanup(j))
        + (s.layout.map_values(|j: Job| as_layout(j)) + s.effects.map_values(|j: Job| as_effect(j))
        + s.asyncs.map_values(|j: Job| as_async(j))));
}

/// A layout effect and an ordinary effect registered in one invocation, in
/// either order, on an idle loop: the layout effect runs first.
pub proof fn lemma_layout_effect_first(q: LoopView, first: Job, second: Job, first_is_layout: bool)
    requires
        pending_len(q) == 0,
    ensures
        ({
            let q1 = scheduled(q, Ok(EffectAction::Setup), first, first_is_layout);
            let q2 = scheduled(q1, Ok(EffectAction::Setup), second, !first_is_layout);
            run_order(q2) == if first_is_layout {
                seq![Scheduled::Layout(first), Scheduled::Effect(second)]
            } else {
                seq![Scheduled::Layout(second), Scheduled::Effect(first)]
            }
        }),
{
    let q1 = scheduled(q, Ok(EffectAction::Setup), first, first_is_layout);
    let q2 = scheduled(q1, Ok(EffectAction::Setup), second, !first_is_layout);
    lemma_run_order(q2);
    assert(q.cleanups.len() == 0 && q.layout.len() == 0 && q.effects.len() == 0 && q.asyncs.len() == 0);
    assert(run_order(q2) =~= (if first_is_layout {
        seq![Scheduled::Layout(first), Scheduled::Effect(second)]
    } else {
        seq![Scheduled::Layout(second), Scheduled::Effect(first)]
    }));
}

/// A provider that renders again with a new value: in the new pass the
/// consumer's context read gives that value, while the consumer, with its
/// key and kind unchanged, keeps its instance and hook cells.
pub proof fn lemma_provider_update_reaches_consumer(
    o: ManagerView,
    next: Seq<Element>,
    providers: Seq<ContextEntry>,
    f: ManagerView,
    id: u64,
    v: u64,
    j: int,
)
    requires
        pass_started(o, next, providers, f),
        providers.len() > 0,
        providers.last() == (ContextEntry { id, value: v }),
        0 <= j < next.len(),
        keeps(o.children, next[j]),
    ensures
        nearest(f.context, id) == Some(v),
        f.slots[j] == o.slots[index_of(o.children, next[j].key)],
        f.hooks[j] == begin_spec(o.hooks[index_of(o.children, next[j].key)]),
{
}

/// Reordering keyed children keeps every instance: each child keeps the
/// instance and hook cells it had, no instance is destroyed, no cleanup is
/// scheduled, and the commands are moves only.
pub proof fn lemma_render_reorder_keeps_instances(
    o: ManagerView,
    next: Seq<Element>,
    providers: Seq<ContextEntry>,
    f: ManagerView,
)
    requires
        o.wf(),
        is_reordering(o.children, next),
        pass_started(o, next, providers, f),
    ensures
        forall|j: int| 0 <= j < next.len() ==> #[trigger] keeps(o.children, next[j])
            && f.slots[j] == o.slots[index_of(o.children, next[j].key)]
            && f.hooks[j] == begin_spec(o.hooks[index_of(o.children, next[j].key)]),
        forall|i: int| 0 <= i < o.children.len() ==> #[trigger] survives(o.children, next, i),
        f.evloop == o.evloop,
        forall|k: int| 0 <= k < diff(o.children, next).len() ==> (#[trigger] diff(o.children, next)[k]).is_move(),
{
    lemma_reorder_moves_only(o.children, next);
    assert forall|i: int| 0 <= i < o.children.len() implies #[trigger] survives(o.children, next, i) by {
        let j = index_of(next, o.children[i].key);
        assert(0 <= j);
        lemma_index_of_first(next, o.children[i].key, j);
        assert(j < next.len());
        assert(0 <= index_of(o.children, next[j].key) < o.children.len());
        lemma_index_of_unique(o.children, i);
    }
    lemma_no_removed_cleanups(o, next, o.children.len() as int);
    assert(f.evloop.cleanups =~= o.evloop.cleanups);
}

proof fn lemma_no_removed_cleanups(o: ManagerView, next: Seq<Element>, n: int)
    requires
        0 <= n <= o.children.len(),
        forall|i: int| 0 <= i < o.children.len() ==> #[trigger] survives(o.children, next, i),
    ensures
        removed_cleanups(o, next, n) == Seq::<Job>::empty(),
    decreases n,
{
    if n > 0 {
        lemma_no_removed_cleanups(o, next, n - 1);
        assert(survives(o.children, next, n - 1));
    }
}

} // verus!
