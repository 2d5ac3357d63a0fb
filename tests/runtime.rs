use polyhorn::context::{ContextError, ContextTree};
use polyhorn::evloop::{EventLoop, Job, Scheduled};
use polyhorn::channel::Channel;
use polyhorn::hooks::{EffectAction, HookCell, HookError, Hooks, StateUpdate};
use polyhorn::instance::{Instance, InstanceTable, Object};

#[test]
fn state_cell_survives_passes() {
    let mut h = Hooks::new();
    h.begin_render();
    assert_eq!(h.use_state(7), Ok((0, 7)));
    assert_eq!(h.use_state(1), Ok((1, 1)));
    assert_eq!(h.end_render(), Ok(()));
    // a later pass hands different initial values: the cells keep theirs
    h.begin_render();
    assert_eq!(h.use_state(100), Ok((0, 7)));
    assert_eq!(h.use_state(200), Ok((1, 1)));
    assert_eq!(h.end_render(), Ok(()));
}

#[test]
fn state_update_waits_for_next_pass() {
    let mut h = Hooks::new();
    h.begin_render();
    let (cell, v) = h.use_state(3).unwrap();
    assert_eq!(v, 3);
    h.set_state(cell, 4);
    h.set_state(cell, 5);
    assert!(h.is_dirty());
    assert_eq!(h.cell(cell), Some(HookCell::State(3)));
    assert_eq!(h.end_render(), Ok(()));
    h.begin_render();
    assert!(!h.is_dirty());
    assert_eq!(h.use_state(0), Ok((0, 5)));
}

#[test]
fn hook_kind_mismatch_is_reported() {
    let mut h = Hooks::new();
    h.begin_render();
    h.use_state(1).unwrap();
    h.end_render().unwrap();
    h.begin_render();
    assert_eq!(h.use_reference(1), Err(HookError::KindMismatch { position: 0 }));
}

#[test]
fn hook_count_mismatch_is_reported() {
    let mut h = Hooks::new();
    h.begin_render();
    h.use_state(1).unwrap();
    h.use_state(2).unwrap();
    h.end_render().unwrap();
    h.begin_render();
    h.use_state(0).unwrap();
    assert_eq!(h.end_render(), Err(HookError::CountMismatch { expected: 2, called: 1 }));
    h.begin_render();
    h.use_state(0).unwrap();
    h.use_state(0).unwrap();
    assert_eq!(h.use_state(0), Err(HookError::CountMismatch { expected: 2, called: 3 }));
}

#[test]
fn reference_writes_are_immediate() {
    let mut h = Hooks::new();
    h.begin_render();
    let (cell, v) = h.use_reference(10).unwrap();
    assert_eq!(v, 10);
    assert!(h.write_reference(cell, 11));
    assert_eq!(h.cell(cell), Some(HookCell::Reference(11)));
    assert!(!h.write_reference(5, 1));
    assert!(!h.is_dirty());
}

#[test]
fn effect_runs_on_changed_dependencies() {
    let mut h = Hooks::new();
    h.begin_render();
    assert_eq!(h.use_effect(1, false), Ok(EffectAction::Setup));
    assert_eq!(h.use_effect(9, true), Ok(EffectAction::Setup));
    h.end_render().unwrap();
    h.begin_render();
    assert_eq!(h.use_effect(1, false), Ok(EffectAction::Skip));
    assert_eq!(h.use_effect(10, true), Ok(EffectAction::CleanupThenSetup));
    h.end_render().unwrap();
    h.begin_render();
    assert_eq!(h.use_effect(2, false), Ok(EffectAction::CleanupThenSetup));
    assert_eq!(h.use_effect(10, false), Err(HookError::KindMismatch { position: 1 }));
}

#[test]
fn async_completion_after_destroy_is_dropped() {
    let mut t = InstanceTable::new();
    let a = t.create();
    let b = t.create();
    let wa = t.downgrade(&a);
    let wb = t.downgrade(&b);
    assert!(t.deliver(wa, StateUpdate { cell: 0, value: 1 }));
    t.destroy(a);
    assert!(!t.upgrade(wa));
    assert!(t.upgrade(wb));
    assert!(!t.deliver(wa, StateUpdate { cell: 0, value: 2 }));
    assert!(t.deliver(wb, StateUpdate { cell: 0, value: 3 }));
    let links = t.drain();
    assert_eq!(links.len(), 1);
    assert_eq!(links[0].instance, 1);
    assert_eq!(links[0].update, StateUpdate { cell: 0, value: 3 });
    assert!(t.drain().is_empty());
}

#[test]
fn layout_effect_runs_before_effect() {
    let mut ev = EventLoop::new();
    // one component invocation registers an effect, then a layout effect
    ev.schedule_effect(Job { instance: 0, cell: 0, pass: 1 });
    ev.schedule_layout(Job { instance: 0, cell: 1, pass: 1 });
    let mut counter: u64 = 0;
    let mut seen_by_effect: Option<u64> = None;
    while let Some(s) = ev.next() {
        match s {
            Scheduled::Layout(_) => counter += 1,
            Scheduled::Effect(_) => seen_by_effect = Some(counter),
            _ => {}
        }
    }
    assert_eq!(seen_by_effect, Some(1));
    assert!(ev.is_idle());
}

#[test]
fn jobs_keep_their_order_within_a_class() {
    let mut ev = EventLoop::new();
    let j = |cell: usize| Job { instance: 3, cell, pass: 2 };
    ev.schedule_effect(j(0));
    ev.schedule_layout(j(1));
    ev.schedule_effect(j(2));
    ev.schedule_layout(j(3));
    assert_eq!(ev.next(), Some(Scheduled::Layout(j(1))));
    assert_eq!(ev.next(), Some(Scheduled::Layout(j(3))));
    assert_eq!(ev.next(), Some(Scheduled::Effect(j(0))));
    assert_eq!(ev.next(), Some(Scheduled::Effect(j(2))));
    assert_eq!(ev.next(), None);
}

#[test]
fn provider_update_reaches_consumer() {
    let mut ctx = ContextTree::new();
    ctx.push_provider(1, 5);
    assert_eq!(ctx.use_context(1, None), Ok(5));
    ctx.pop_provider();
    // the provider renders again with a new value; the consumer is unchanged
    ctx.push_provider(1, 6);
    assert_eq!(ctx.use_context(1, None), Ok(6));
}

#[test]
fn nearest_provider_wins() {
    let mut ctx = ContextTree::new();
    ctx.push_provider(1, 5);
    ctx.push_provider(2, 8);
    ctx.push_provider(1, 9);
    assert_eq!(ctx.lookup(1), Some(9));
    assert_eq!(ctx.lookup(2), Some(8));
    ctx.pop_provider();
    assert_eq!(ctx.lookup(1), Some(5));
}

#[test]
fn missing_context_uses_default_or_fails() {
    let ctx = ContextTree::new();
    assert_eq!(ctx.use_context(4, Some(12)), Ok(12));
    assert_eq!(ctx.use_context(4, None), Err(ContextError::NoProvider { id: 4 }));
}

#[test]
fn teardown_lists_effect_cleanups_in_order() {
    let mut h = Hooks::new();
    h.begin_render();
    h.use_effect(1, true).unwrap();
    h.use_state(4).unwrap();
    h.use_effect(2, false).unwrap();
    h.end_render().unwrap();
    h.set_state(1, 8);
    assert_eq!(h.teardown(), vec![0, 2]);
    assert_eq!(h.len(), 0);
    assert!(!h.is_dirty());
}

#[test]
fn channel_delivers_in_send_order() {
    let mut c = Channel::new();
    assert_eq!(c.receive(), None);
    c.send(1);
    c.send(2);
    assert_eq!(c.len(), 2);
    assert_eq!(c.receive(), Some(1));
    c.send(3);
    assert_eq!(c.receive(), Some(2));
    assert_eq!(c.receive(), Some(3));
    assert_eq!(c.receive(), None);
    assert_eq!(c.len(), 0);
}

#[test]
fn instance_object_holds_its_reference() {
    let mut t = InstanceTable::new();
    let i = Instance::from_reference(t.create());
    let w = t.downgrade(i.as_reference());
    assert!(t.upgrade(w));
    t.destroy(i.into_reference());
    assert!(!t.upgrade(w));
}
