use vstd::prelude::*;

verus! {

/// One persisted hook cell of an instance, at the position of its call.
#[derive(Clone, Copy, Debug, PartialEq, Eq, Structural)]
pub enum HookCell {
    /// A value that changes only through queued updates, between passes.
    State(u64),
    /// A value that may be written at once, with no new pass.
    Reference(u64),
    /// The dependency snapshot of an effect, and whether it is a layout effect.
    Effect { deps: u64, layout: bool },
}

/// A consistency violation: the hooks of this pass disagree with the cells
/// that the earlier passes laid down.
#[derive(Clone, Copy, Debug, PartialEq, Eq, Structural)]
pub enum HookError {
    /// The cell at this position was made by a hook of another type.
    KindMismatch { position: usize },
    /// This pass called more, or fewer, hooks than the first one.
    CountMismatch { expected: usize, called: usize },
}

/// What an effect hook asks of its host in this pass.
#[derive(Clone, Copy, Debug, PartialEq, Eq, Structural)]
pub enum EffectAction {
    /// The dependencies are unchanged: nothing runs.
    Skip,
    /// First pass: the setup runs.
    Setup,
    /// The dependencies changed: the earlier cleanup runs, then the new setup.
    CleanupThenSetup,
}

/// A queued state update, the message by which a setter reaches its instance.
#[derive(Clone, Copy, Debug, PartialEq, Eq, Structural)]
pub struct StateUpdate {
    pub cell: usize,
    pub value: u64,
}

/// The hook cells of one instance, with the position of the next hook call
/// in the current pass and the updates queued for the next pass.
pub struct Hooks {
    cells: Vec<HookCell>,
    cursor: usize,
    mounted: bool,
    pending: Vec<StateUpdate>,
}

/// The abstract state of `Hooks`.
pub struct HooksView {
    pub cells: Seq<HookCell>,
    pub cursor: nat,
    pub mounted: bool,
    pub pending: Seq<StateUpdate>,
}

impl HooksView {
    pub open spec fn wf(self) -> bool {
        self.cursor <= self.cells.len()
    }
}

impl View for Hooks {
    type V = HooksView;

    closed spec fn view(&self) -> HooksView {
        HooksView {
            cells: self.cells@,
            cursor: self.cursor as nat,
            mounted: self.mounted,
            pending: self.pending@,
        }
    }
}

/// The cells after the queued updates are applied in the order they came;
/// an update that names no state cell changes nothing.
pub open spec fn apply_updates(cells: Seq<HookCell>, pending: Seq<StateUpdate>) -> Seq<HookCell>
    decreases pending.len(),
{
    if pending.len() == 0 {
        cells
    } else {
        let c = apply_updates(cells, pending.drop_last());
        let u = pending.last();
        if u.cell < c.len() && c[u.cell as int] is State {
            c.update(u.cell as int, HookCell::State(u.value))
        } else {
            c
        }
    }
}

/// The state at the start of a pass.
pub open spec fn begin_spec(v: HooksView) -> HooksView {
    HooksView { cells: apply_updates(v.cells, v.pending), cursor: 0, mounted: v.mounted, pending: Seq::empty() }
}

/// The state after one hook call that found or made `cell`.
pub open spec fn advanced(v: HooksView, cell: HookCell) -> HooksView {
    if v.cursor < v.cells.len() {
        HooksView { cells: v.cells.update(v.cursor as int, cell), cursor: v.cursor + 1, ..v }
    } else {
        HooksView { cells: v.cells.push(cell), cursor: v.cursor + 1, ..v }
    }
}

/// The error of a hook call, in a mounted instance, past its last cell.
pub open spec fn extra_call_error(v: HooksView) -> HookError {
    HookError::CountMismatch { expected: v.cells.len() as usize, called: (v.cursor + 1) as usize }
}

/// What a state hook call returns: the cell position and its value.
pub open spec fn use_state_spec(v: HooksView, init: u64) -> Result<(usize, u64), HookError> {
    if v.cursor < v.cells.len() {
        match v.cells[v.cursor as int] {
            HookCell::State(x) => Ok((v.cursor as usize, x)),
            _ => Err(HookError::KindMismatch { position: v.cursor as usize }),
        }
    } else if v.mounted {
        Err(extra_call_error(v))
    } else {
        Ok((v.cursor as usize, init))
    }
}

/// What a reference hook call returns: the cell position and its value.
pub open spec fn use_reference_spec(v: HooksView, init: u64) -> Result<(usize, u64), HookError> {
    if v.cursor < v.cells.len() {
        match v.cells[v.cursor as int] {
            HookCell::Reference(x) => Ok((v.cursor as usize, x)),
            _ => Err(HookError::KindMismatch { position: v.cursor as usize }),
        }
    } else if v.mounted {
        Err(extra_call_error(v))
    } else {
        Ok((v.cursor as usize, init))
    }
}

/// What an effect hook call returns: the setup alone in its first pass, the
/// earlier cleanup and then the setup where the dependency snapshot changed,
/// and nothing otherwise.
pub open spec fn use_effect_spec(v: HooksView, deps: u64, layout: bool) -> Result<EffectAction, HookError> {
    if v.cursor < v.cells.len() {
        match v.cells[v.cursor as int] {
            HookCell::Effect { deps: d, layout: l } => if l == layout {
                if d != deps { Ok(EffectAction::CleanupThenSetup) } else { Ok(EffectAction::Skip) }
            } else {
                Err(HookError::KindMismatch { position: v.cursor as usize })
            },
            _ => Err(HookError::KindMismatch { position: v.cursor as usize }),
        }
    } else if v.mounted {
        Err(extra_call_error(v))
    } else {
        Ok(EffectAction::Setup)
    }
}

impl Hooks {
    /// The cells of an instance that has not rendered yet.
    pub fn new() -> (r: Hooks)
        ensures
            r@.cells == Seq::<HookCell>::empty(),
            r@.cursor == 0,
            !r@.mounted,
            r@.pending == Seq::<StateUpdate>::empty(),
    {
        Hooks { cells: Vec::new(), cursor: 0, mounted: false, pending: Vec::new() }
    }

    /// The number of cells.
    pub fn len(&self) -> (r: usize)
        ensures
            r == self@.cells.len(),
    {
        self.cells.len()
    }

    /// The position of the next hook call in this pass.
    pub fn cursor(&self) -> (r: usize)
        ensures
            r == self@.cursor,
    {
        self.cursor
    }

    /// Whether a pass has completed: from then on every pass must call the
    /// same hooks in the same order.
    pub fn is_mounted(&self) -> (r: bool)
        ensures
            r == self@.mounted,
    {
        self.mounted
    }

    /// The cell at position `i`.
    pub fn cell(&self, i: usize) -> (r: Option<HookCell>)
        ensures
            i < self@.cells.len() ==> r == Some(self@.cells[i as int]),
            i >= self@.cells.len() ==> r is None,
    {
        if i < self.cells.len() {
            Some(self.cells[i])
        } else {
            None
        }
    }

    /// Queues a new value for the state cell at `cell`; the cells keep their
    /// values until the next pass begins.
    pub fn set_state(&mut self, cell: usize, value: u64)
        ensures
            final(self)@ == (HooksView {
                pending: old(self)@.pending.push(StateUpdate { cell, value }),
                ..old(self)@
            }),
    {
        self.pending.push(StateUpdate { cell, value });
    }

    /// Whether updates are queued, that is, whether the instance is dirty.
    pub fn is_dirty(&self) -> (r: bool)
        ensures
            r == (self@.pending.len() > 0),
    {
        self.pending.len() > 0
    }

    /// Starts a pass: applies the queued updates in order and moves the
    /// cursor to the first cell.
    pub fn begin_render(&mut self)
        requires
            old(self)@.wf(),
        ensures
            final(self)@ == begin_spec(old(self)@),
            final(self)@.wf(),
    {
        let mut i: usize = 0;
        while i < self.pending.len()
            invariant
                0 <= i <= self.pending.len(),
                self.pending@ == old(self)@.pending,
                self.cells@ == apply_updates(old(self)@.cells, self.pending@.subrange(0, i as int)),
                self.mounted == old(self)@.mounted,
            decreases self.pending.len() - i,
        {
            let ghost s = self.pending@.subrange(0, i as int + 1);
            assert(s.drop_last() =~= self.pending@.subrange(0, i as int));
            let u = self.pending[i];
            if u.cell < self.cells.len() {
                if let HookCell::State(_) = self.cells[u.cell] {
                    self.cells[u.cell] = HookCell::State(u.value);
                }
            }
            i = i + 1;
        }
        assert(self.pending@.subrange(0, self.pending@.len() as int) =~= self.pending@);
        self.pending.clear();
        self.cursor = 0;
        proof { lemma_apply_updates_len(old(self)@.cells, old(self)@.pending); }
    }

    /// Ends a pass: fails where fewer hooks were called than cells exist,
    /// and otherwise marks the instance mounted.
    pub fn end_render(&mut self) -> (r: Result<(), HookError>)
        ensures
            old(self)@.cursor == old(self)@.cells.len() ==> r is Ok
                && final(self)@ == (HooksView { mounted: true, ..old(self)@ }),
            old(self)@.cursor != old(self)@.cells.len() ==> r == Err::<(), HookError>(
                HookError::CountMismatch {
                    expected: old(self)@.cells.len() as usize,
                    called: old(self)@.cursor as usize,
                },
            ) && final(self)@ == old(self)@,
    {
        if self.cursor != self.cells.len() {
            Err(HookError::CountMismatch { expected: self.cells.len(), called: self.cursor })
        } else {
            self.mounted = true;
            Ok(())
        }
    }

    /// Calls a state hook: the value of its cell, made from `init` on the
    /// first pass and read back by position on the later ones.
    pub fn use_state(&mut self, init: u64) -> (r: Result<(usize, u64), HookError>)
        requires
            old(self)@.wf(),
            old(self)@.cells.len() < usize::MAX,
        ensures
            r == use_state_spec(old(self)@, init),
            r is Ok ==> final(self)@ == advanced(old(self)@, HookCell::State(r.unwrap().1)),
            r is Err ==> final(self)@ == old(self)@,
            final(self)@.wf(),
    {
        if self.cursor < self.cells.len() {
            match self.cells[self.cursor] {
                HookCell::State(x) => {
                    let c = self.cursor;
                    self.cursor = c + 1;
                    assert(self.cells@ =~= old(self)@.cells.update(c as int, HookCell::State(x)));
                    Ok((c, x))
                },
                _ => Err(HookError::KindMismatch { position: self.cursor }),
            }
        } else if self.mounted {
            Err(HookError::CountMismatch { expected: self.cells.len(), called: self.cursor + 1 })
        } else {
            let c = self.cursor;
            self.cells.push(HookCell::State(init));
            self.cursor = c + 1;
            Ok((c, init))
        }
    }
}

impl Hooks {
    /// Calls a reference hook: the position and value of its cell, made from
    /// `init` on the first pass.
    pub fn use_reference(&mut self, init: u64) -> (r: Result<(usize, u64), HookError>)
        requires
            old(self)@.wf(),
            old(self)@.cells.len() < usize::MAX,
        ensures
            r == use_reference_spec(old(self)@, init),
            r is Ok ==> final(self)@ == advanced(old(self)@, HookCell::Reference(r.unwrap().1)),
            r is Err ==> final(self)@ == old(self)@,
            final(self)@.wf(),
    {
        if self.cursor < self.cells.len() {
            match self.cells[self.cursor] {
                HookCell::Reference(x) => {
                    let c = self.cursor;
                    self.cursor = c + 1;
                    assert(self.cells@ =~= old(self)@.cells.update(c as int, HookCell::Reference(x)));
                    Ok((c, x))
                },
                _ => Err(HookError::KindMismatch { position: self.cursor }),
            }
        } else if self.mounted {
            Err(HookError::CountMismatch { expected: self.cells.len(), called: self.cursor + 1 })
        } else {
            let c = self.cursor;
            self.cells.push(HookCell::Reference(init));
            self.cursor = c + 1;
            Ok((c, init))
        }
    }

    /// Writes the reference cell at `cell` at once; returns false, changing
    /// nothing, where that cell is no reference cell.
    pub fn write_reference(&mut self, cell: usize, value: u64) -> (r: bool)
        ensures
            r == (cell < old(self)@.cells.len() && old(self)@.cells[cell as int] is Reference),
            r ==> final(self)@ == (HooksView {
                cells: old(self)@.cells.update(cell as int, HookCell::Reference(value)),
                ..old(self)@
            }),
            !r ==> final(self)@ == old(self)@,
    {
        if cell < self.cells.len() {
            if let HookCell::Reference(_) = self.cells[cell] {
                self.cells[cell] = HookCell::Reference(value);
                return true;
            }
        }
        false
    }

    /// Calls an effect hook with its dependency snapshot `deps`: what must
    /// run in this pass. The snapshot is kept for the next pass.
    pub fn use_effect(&mut self, deps: u64, layout: bool) -> (r: Result<EffectAction, HookError>)
        requires
            old(self)@.wf(),
            old(self)@.cells.len() < usize::MAX,
        ensures
            r == use_effect_spec(old(self)@, deps, layout),
            r is Ok ==> final(self)@ == advanced(old(self)@, HookCell::Effect { deps, layout }),
            r is Err ==> final(self)@ == old(self)@,
            final(self)@.wf(),
    {
        if self.cursor < self.cells.len() {
            match self.cells[self.cursor] {
                HookCell::Effect { deps: d, layout: l } => {
                    if l != layout {
                        return Err(HookError::KindMismatch { position: self.cursor });
                    }
                    let c = self.cursor;
                    self.cells[c] = HookCell::Effect { deps, layout };
                    self.cursor = c + 1;
                    if d != deps {
                        Ok(EffectAction::CleanupThenSetup)
                    } else {
                        Ok(EffectAction::Skip)
                    }
                },
                _ => Err(HookError::KindMismatch { position: self.cursor }),
            }
        } else if self.mounted {
            Err(HookError::CountMismatch { expected: self.cells.len(), called: self.cursor + 1 })
        } else {
            let c = self.cursor;
            self.cells.push(HookCell::Effect { deps, layout });
            self.cursor = c + 1;
            Ok(EffectAction::Setup)
        }
    }
}

/// The positions of the effect cells of `cells`, in call order.
pub open spec fn effect_cells(cells: Seq<HookCell>) -> Seq<usize>
    decreases cells.len(),
{
    if cells.len() == 0 {
        Seq::empty()
    } else {
        let r = effect_cells(cells.drop_last());
        if cells.last() is Effect {
            r.push((cells.len() - 1) as usize)
        } else {
            r
        }
    }
}

impl Hooks {
    /// Unmounts the instance: hands out, in call order, the effect cells
    /// whose cleanup must run now, and drops every cell and queued update.
    pub fn teardown(&mut self) -> (r: Vec<usize>)
        ensures
            r@ == effect_cells(old(self)@.cells),
            final(self)@.cells == Seq::<HookCell>::empty(),
            final(self)@.pending == Seq::<StateUpdate>::empty(),
            final(self)@.cursor == 0,
            final(self)@.mounted == old(self)@.mounted,
    {
        let mut out: Vec<usize> = Vec::new();
        let mut i: usize = 0;
        while i < self.cells.len()
            invariant
                0 <= i <= self.cells.len(),
                self.cells@ == old(self)@.cells,
                out@ == effect_cells(self.cells@.subrange(0, i as int)),
            decreases self.cells.len() - i,
        {
            let ghost t = self.cells@.subrange(0, i as int + 1);
            assert(t.drop_last() =~= self.cells@.subrange(0, i as int));
            if let HookCell::Effect { .. } = self.cells[i] {
                out.push(i);
            }
            i = i + 1;
        }
        assert(self.cells@.subrange(0, self.cells@.len() as int) =~= self.cells@);
        self.cells.clear();
        self.pending.clear();
        self.cursor = 0;
        out
    }
}

/// No queued update names cell `i`.
pub open spec fn untouched(pending: Seq<StateUpdate>, i: int) -> bool {
    forall|k: int| 0 <= k < pending.len() ==> (#[trigger] pending[k]).cell != i
}

proof fn lemma_apply_updates_untouched(cells: Seq<HookCell>, pending: Seq<StateUpdate>, i: int)
    requires
        0 <= i < cells.len(),
        untouched(pending, i),
    ensures
        apply_updates(cells, pending)[i] == cells[i],
        apply_updates(cells, pending).len() == cells.len(),
    decreases pending.len(),
{
    if pending.len() > 0 {
        let d = pending.drop_last();
        assert forall|k: int| 0 <= k < d.len() implies (#[trigger] d[k]).cell != i by {
            assert(d[k] == pending[k]);
        }
        lemma_apply_updates_untouched(cells, d, i);
        assert(pending[pending.len() - 1].cell != i);
    }
}

/// Hook cells are identified by position: a state cell at position `i` that
/// holds `x` still holds it in the next pass unless an update for it was
/// queued, and the state hook called at position `i` then reads `x`,
/// whatever initial value it is handed.
pub proof fn lemma_state_cell_stable(v: HooksView, i: int, x: u64, init: u64)
    requires
        v.wf(),
        0 <= i < v.cells.len(),
        v.cells[i] == HookCell::State(x),
        untouched(v.pending, i),
    ensures
        begin_spec(v).cells[i] == HookCell::State(x),
        use_state_spec(HooksView { cursor: i as nat, ..begin_spec(v) }, init) == Ok::<(usize, u64), HookError>((i as usize, x)),
{
    lemma_apply_updates_untouched(v.cells, v.pending, i);
}

/// A queued update to a state cell is the value that cell holds once the
/// next pass begins, where it is the last update queued for it.
pub proof fn lemma_state_update_visible(v: HooksView, i: usize, y: u64)
    requires
        v.wf(),
        i < v.cells.len(),
        v.cells[i as int] is State,
        v.pending.len() > 0,
        v.pending.last() == (StateUpdate { cell: i, value: y }),
    ensures
        begin_spec(v).cells[i as int] == HookCell::State(y),
{
    let d = v.pending.drop_last();
    lemma_apply_updates_len(v.cells, d);
    lemma_apply_updates_kind(v.cells, d, i as int);
    assert(apply_updates(v.cells, d)[i as int] is State);
    assert(apply_updates(v.cells, v.pending) == apply_updates(v.cells, d).update(i as int, HookCell::State(y)));
}

/// Once mounted, an effect whose dependency snapshot changed always has its
/// earlier cleanup run before its new setup, and one whose snapshot is
/// unchanged runs neither.
pub proof fn lemma_effect_cleanup_before_setup(v: HooksView, deps: u64)
    requires
        v.wf(),
        v.mounted,
        v.cursor < v.cells.len(),
        v.cells[v.cursor as int] is Effect,
    ensures
        v.cells[v.cursor as int]->deps != deps ==> use_effect_spec(v, deps, v.cells[v.cursor as int]->layout)
            == Ok::<EffectAction, HookError>(EffectAction::CleanupThenSetup),
        v.cells[v.cursor as int]->deps == deps ==> use_effect_spec(v, deps, v.cells[v.cursor as int]->layout)
            == Ok::<EffectAction, HookError>(EffectAction::Skip),
{
}

proof fn lemma_apply_updates_kind(cells: Seq<HookCell>, pending: Seq<StateUpdate>, i: int)
    requires
        0 <= i < cells.len(),
        cells[i] is State,
    ensures
        apply_updates(cells, pending)[i] is State,
        apply_updates(cells, pending).len() == cells.len(),
    decreases pending.len(),
{
    if pending.len() > 0 {
        lemma_apply_updates_kind(cells, pending.drop_last(), i);
    }
}

proof fn lemma_apply_updates_len(cells: Seq<HookCell>, pending: Seq<StateUpdate>)
    ensures
        apply_updates(cells, pending).len() == cells.len(),
    decreases pending.len(),
{
    if pending.len() > 0 {
        lemma_apply_updates_len(cells, pending.drop_last());
    }
}

} // verus!
