use polyhorn::channel::Channel;
use polyhorn::compositor::{Command, Op};
use polyhorn::context::ContextEntry;
use polyhorn::element::{Element, ElementKind, Key};
use polyhorn::evloop::Scheduled;
use polyhorn::hooks::{EffectAction, StateUpdate};
use polyhorn::render::Manager;
use polyhorn::topology::RenderError;

fn child(key: u64) -> Element {
    Element::new(ElementKind::Component(1), key, 0)
}

fn children(keys: &[u64]) -> Vec<Element> {
    keys.iter().map(|&k| child(k)).collect()
}

#[test]
fn state_survives_a_pass_with_new_props() {
    let mut m = Manager::new();
    m.begin_pass(children(&[1]), Vec::new()).unwrap();
    assert_eq!(m.use_state(0, 7), Ok((0, 7)));
    m.end_pass(0).unwrap();
    let slot = m.slot(0);
    m.set_state(0, 0, 9);
    let mut next = children(&[1]);
    next[0].props = 55;
    let c = m.begin_pass(next, Vec::new()).unwrap();
    assert_eq!(c.count(Op::Update), 1);
    assert_eq!(m.slot(0), slot);
    assert_eq!(m.use_state(0, 100), Ok((0, 9)));
    m.end_pass(0).unwrap();
}

#[test]
fn reorder_keeps_instances_and_state() {
    let mut m = Manager::new();
    m.begin_pass(children(&[1, 2, 3]), Vec::new()).unwrap();
    for j in 0..3 {
        m.use_state(j, 10 * (j as u64 + 1)).unwrap();
        m.end_pass(j).unwrap();
    }
    let slots: Vec<usize> = (0..3).map(|j| m.slot(j)).collect();
    let c = m.begin_pass(children(&[3, 1, 2]), Vec::new()).unwrap();
    assert_eq!(c.count(Op::Move), 3);
    assert_eq!(c.count(Op::Create), 0);
    assert_eq!(c.count(Op::Remove), 0);
    assert_eq!(m.slot(0), slots[2]);
    assert_eq!(m.slot(1), slots[0]);
    assert_eq!(m.slot(2), slots[1]);
    assert_eq!(m.use_state(0, 0), Ok((0, 30)));
    assert_eq!(m.use_state(1, 0), Ok((0, 10)));
    assert_eq!(m.use_state(2, 0), Ok((0, 20)));
    assert_eq!(m.next_job(), None);
}

#[test]
fn replaced_child_cleans_up_before_new_setup() {
    let mut m = Manager::new();
    m.begin_pass(children(&[1]), Vec::new()).unwrap();
    assert_eq!(m.use_effect(0, 5, true), Ok(EffectAction::Setup));
    assert_eq!(m.use_effect(0, 6, false), Ok(EffectAction::Setup));
    m.end_pass(0).unwrap();
    let old_slot = m.slot(0);
    while m.next_job().is_some() {}
    let c = m.begin_pass(children(&[2]), Vec::new()).unwrap();
    assert_eq!(c.get(0), Command::Remove { key: Key::explicit(1) });
    assert_eq!(c.get(1), Command::Create { key: Key::explicit(2), kind: ElementKind::Component(1), props: 0, index: 0 });
    let new_slot = m.slot(0);
    assert_ne!(new_slot, old_slot);
    assert_eq!(m.use_effect(0, 1, false), Ok(EffectAction::Setup));
    assert_eq!(m.use_effect(0, 2, true), Ok(EffectAction::Setup));
    m.end_pass(0).unwrap();
    let mut order = Vec::new();
    while let Some(s) = m.next_job() {
        order.push(s);
    }
    assert_eq!(order.len(), 4);
    assert!(matches!(order[0], Scheduled::Cleanup(j) if j.instance == old_slot && j.cell == 0));
    assert!(matches!(order[1], Scheduled::Cleanup(j) if j.instance == old_slot && j.cell == 1));
    assert!(matches!(order[2], Scheduled::Layout(j) if j.instance == new_slot && j.cell == 1));
    assert!(matches!(order[3], Scheduled::Effect(j) if j.instance == new_slot && j.cell == 0));
}

#[test]
fn async_completion_after_unmount_changes_nothing() {
    let mut m = Manager::new();
    m.begin_pass(children(&[1, 2]), Vec::new()).unwrap();
    let w1 = m.weak(0);
    let w2 = m.weak(1);
    m.begin_pass(children(&[2]), Vec::new()).unwrap();
    assert!(!m.upgrade(w1));
    assert!(!m.complete_async(w1, StateUpdate { cell: 0, value: 4 }));
    assert_eq!(m.next_job(), None);
    assert!(m.complete_async(w2, StateUpdate { cell: 0, value: 4 }));
    assert!(matches!(m.next_job(), Some(Scheduled::Async(j)) if j.instance == w2.slot));
}

#[test]
fn layout_effect_of_a_pass_runs_first() {
    let mut m = Manager::new();
    m.begin_pass(children(&[1]), Vec::new()).unwrap();
    m.use_effect(0, 0, false).unwrap();
    m.use_effect(0, 0, true).unwrap();
    m.end_pass(0).unwrap();
    let mut counter: u64 = 0;
    let mut seen: Option<u64> = None;
    while let Some(s) = m.next_job() {
        match s {
            Scheduled::Layout(_) => counter += 1,
            Scheduled::Effect(_) => seen = Some(counter),
            _ => {}
        }
    }
    assert_eq!(seen, Some(1));
}

#[test]
fn provider_value_reaches_consumer_across_passes() {
    let mut m = Manager::new();
    let consumer = children(&[1]);
    m.begin_pass(consumer.clone(), vec![ContextEntry { id: 3, value: 5 }]).unwrap();
    assert_eq!(m.use_context(3, None), Ok(5));
    let slot = m.slot(0);
    let c = m.begin_pass(consumer, vec![ContextEntry { id: 3, value: 6 }]).unwrap();
    assert!(c.is_empty());
    assert_eq!(m.use_context(3, None), Ok(6));
    assert_eq!(m.slot(0), slot);
}

#[test]
fn channel_messages_reach_the_instance_state() {
    let mut m = Manager::new();
    m.begin_pass(children(&[1, 2]), Vec::new()).unwrap();
    m.use_state(0, 0).unwrap();
    m.end_pass(0).unwrap();
    m.use_state(1, 0).unwrap();
    m.end_pass(1).unwrap();
    let w1 = m.weak(0);
    let w2 = m.weak(1);
    let mut ch = Channel::new();
    ch.send(8);
    ch.send(12);
    m.pump_channel(&mut ch, w1, 0);
    assert_eq!(ch.len(), 0);
    m.apply_links();
    m.begin_pass(children(&[1]), Vec::new()).unwrap();
    assert_eq!(m.use_state(0, 0), Ok((0, 12)));
    m.end_pass(0).unwrap();
    ch.send(9);
    m.pump_channel(&mut ch, w2, 0);
    assert_eq!(ch.len(), 0);
    assert!(m.upgrade(w1));
    assert!(!m.upgrade(w2));
}

#[test]
fn async_result_updates_live_instance() {
    let mut m = Manager::new();
    m.begin_pass(children(&[1]), Vec::new()).unwrap();
    m.use_state(0, 1).unwrap();
    m.end_pass(0).unwrap();
    let w = m.weak(0);
    assert!(m.complete_async(w, StateUpdate { cell: 0, value: 33 }));
    m.apply_links();
    m.begin_pass(children(&[1]), Vec::new()).unwrap();
    assert_eq!(m.use_state(0, 1), Ok((0, 33)));
}

#[test]
fn pass_with_duplicate_keys_is_refused() {
    let mut m = Manager::new();
    m.begin_pass(children(&[1]), Vec::new()).unwrap();
    assert_eq!(m.begin_pass(children(&[2, 2]), Vec::new()).err(), Some(RenderError::DuplicateKey));
    assert_eq!(m.children(), &children(&[1]));
}
