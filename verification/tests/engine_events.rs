//! Event routing scenarios: boundary-event interruption, signal broadcast
//! and the inertness of terminated instances.

use bpmn_interpreter::engine::Module;
use bpmn_interpreter::codec::u128_to_le_bytes;
use bpmn_interpreter::{Host, InterpreterEvent};

struct TestHost {
    next_account: u128,
}

impl Host for TestHost {
    fn instantiate(&mut self, _data_hash: [u8; 32], _input_data: Vec<u8>) -> Option<u128> {
        let a = self.next_account;
        self.next_account += 1;
        Some(a)
    }

    fn execute_script(&mut self, _address: u128, _selector: Vec<u8>, _element_index: u128) -> Vec<u8> {
        u128_to_le_bytes(0)
    }
}

fn code(tag: u8) -> [u8; 32] {
    let mut c = [0u8; 32];
    c[0] = tag;
    c
}

fn new_cases(engine: &Module) -> Vec<u128> {
    let mut r = vec![];
    for e in engine.get_emitted().iter() {
        if let InterpreterEvent::NewCaseCreated(c) = e {
            r.push(*c);
        }
    }
    r
}

#[test]
fn interrupting_boundary_event_redirects_the_parent() {
    let mut engine = Module::new();
    let mut host = TestHost { next_account: 100 };
    let parent: u128 = 1;
    let child: u128 = 2;
    // parent flow: an inert start parking a token on edge 0 and the
    // boundary event's post bit 4; element 8 continues after the boundary
    engine.set_element(parent, 0, 0, 0b10001, 0x24, code(0), vec![]).unwrap();
    engine.set_element(parent, 8, 0b1, 32, 0x409, code(0), vec![]).unwrap();
    engine.set_element(parent, 4, 0b1, 0b1000, 0x21, code(0), vec![]).unwrap();
    engine.link_sub_process(parent, 4, child, vec![], 1).unwrap();
    engine.set_factory_instance(parent, [1u8; 32], vec![], vec![]).unwrap();
    // child flow: its start runs straight into an error end event; the
    // catching machinery reads the boundary event from the completing
    // instance's own flow, so the boundary record lives here: event 7,
    // interrupting, attached to element 4, post bit 4, continuing at 8
    engine.set_element(child, 4, 0, 0, 0x25, code(0), vec![]).unwrap();
    engine.set_element(child, 20, 0, 0b1, 0x24, code(0), vec![21]).unwrap();
    engine.set_element(child, 21, 0b1, 0, 0x220C, code(9), vec![]).unwrap();
    engine.set_element(child, 7, 0, 0b10000, 0x114, code(9), vec![8]).unwrap();
    engine.link_sub_process(child, 4, child, vec![7], 0).unwrap();
    engine.set_factory_instance(child, [2u8; 32], vec![], vec![]).unwrap();
    assert_eq!(engine.create_root_instance(&mut host, parent, 64), Ok(()));
    // the inert start leaves the root holding its seeded marking
    assert_eq!(engine.get_instance(parent).unwrap().get_marking(), 0b10001);
    // spawn the sub-process; its error end is caught by the boundary event
    assert_eq!(engine.create_instance(&mut host, 4, parent, 64), Ok(101));
    // the interrupted child is dead
    let kid = engine.get_instance(101).unwrap();
    assert_eq!(kid.get_marking(), 0);
    assert_eq!(kid.get_started_activities(), 0);
    // the boundary's post bit was cleared from the parent's marking and
    // the element behind the boundary fired: only its post remains
    let root = engine.get_instance(parent).unwrap();
    assert_eq!(root.get_marking(), 32);
}

#[test]
fn signal_starts_the_event_subprocess_once() {
    let mut engine = Module::new();
    let mut host = TestHost { next_account: 100 };
    let root_flow: u128 = 1;
    let child: u128 = 2;
    let esp: u128 = 3;
    // root flow: element 5 hosts the event sub-process (its type carries
    // the event bit so the attachment is recorded); event 6 is the
    // interrupting catch-signal start; element 4 hosts the throwing
    // sub-process; the start event is registered last so it stays the
    // flow's start
    engine.set_element(root_flow, 5, 0, 0, 0x25, code(0), vec![]).unwrap();
    engine.set_element(root_flow, 6, 0, 0, 0x8016, code(1), vec![]).unwrap();
    engine.set_element(root_flow, 4, 0b10, 0, 0x21, code(0), vec![]).unwrap();
    engine.set_element(root_flow, 0, 0, 0b1, 0x24, code(0), vec![]).unwrap();
    engine.link_sub_process(root_flow, 5, esp, vec![6], 1).unwrap();
    engine.link_sub_process(root_flow, 4, child, vec![], 1).unwrap();
    engine.set_factory_instance(root_flow, [1u8; 32], vec![], vec![]).unwrap();
    // child flow: start runs into a signal end event
    engine.set_element(child, 20, 0, 0b1, 0x24, code(0), vec![21]).unwrap();
    engine.set_element(child, 21, 0b1, 0, 0x820C, code(1), vec![]).unwrap();
    engine.set_factory_instance(child, [2u8; 32], vec![], vec![]).unwrap();
    // event sub-process flow: a bare start event
    engine.set_element(esp, 30, 0, 0b1, 0x24, code(0), vec![]).unwrap();
    engine.set_factory_instance(esp, [3u8; 32], vec![], vec![]).unwrap();
    assert_eq!(engine.create_root_instance(&mut host, root_flow, 64), Ok(()));
    // the child's signal end propagates to the root and is broadcast:
    // the interrupting catch kills the root, instantiates the event
    // sub-process exactly once and marks it started
    assert_eq!(engine.create_instance(&mut host, 4, root_flow, 64), Ok(101));
    let root = engine.get_instance(root_flow).unwrap();
    assert_eq!(root.get_marking(), 0);
    assert_eq!(root.get_started_activities(), 1 << 5);
    assert_eq!(new_cases(&engine), vec![100, 101, 102]);
    let esp_kid = engine.get_instance(102).unwrap();
    assert_eq!(esp_kid.get_marking(), 0b1);
    assert_eq!(esp_kid.get_idata_parent(), Some(root_flow));
}

#[test]
fn signal_broadcast_reaches_started_children() {
    let mut engine = Module::new();
    let mut host = TestHost { next_account: 100 };
    let root_flow: u128 = 1;
    let child: u128 = 2;
    // root flow: start fires the sub-process at 4; no catcher at the root
    engine.set_element(root_flow, 0, 0, 0b1, 0x24, code(0), vec![4]).unwrap();
    engine.set_element(root_flow, 4, 0b1, 0b1000, 0x21, code(0), vec![]).unwrap();
    engine.link_sub_process(root_flow, 4, child, vec![], 1).unwrap();
    engine.set_factory_instance(root_flow, [1u8; 32], vec![], vec![]).unwrap();
    // child flow: the start enables a user task that parks a token;
    // element 21 throws an intermediate signal when resumed; event 23 is
    // an intermediate catch-signal with pre bit 3 and post bit 4. The
    // catch carries the start-classifying bits too, so it is registered
    // before the real start event, which then stays the flow's start.
    engine.set_element(child, 23, 0b1000, 0b10000, 0x80A4, code(1), vec![]).unwrap();
    engine.set_element(child, 20, 0, 0b1, 0x24, code(0), vec![22]).unwrap();
    engine.set_element(child, 22, 0b1, 0b10, 0x809, code(0), vec![]).unwrap();
    engine.set_element(child, 21, 0b10, 0b100, 0x808C, code(1), vec![]).unwrap();
    engine.set_factory_instance(child, [2u8; 32], vec![], vec![]).unwrap();
    assert_eq!(engine.create_root_instance(&mut host, root_flow, 64), Ok(()));
    // quiescent: the child parks on edge 1, the root records the started
    // sub-process
    assert_eq!(engine.get_instance(101).unwrap().get_marking(), 0b10);
    assert_eq!(engine.get_instance(root_flow).unwrap().get_started_activities(), 1 << 4);
    // resuming the child fires the signal throw; the broadcast walks to
    // the root and fans out to the started child, whose intermediate
    // catch fires (post bit 4 set), and the throw's own post follows
    assert_eq!(engine.continue_execution(&mut host, 101, 21, 64), Ok(()));
    assert_eq!(engine.get_instance(101).unwrap().get_marking(), 0b10100);
    assert_eq!(engine.get_instance(root_flow).unwrap().get_started_activities(), 1 << 4);
}

#[test]
fn terminated_instance_fires_nothing() {
    let mut engine = Module::new();
    let mut host = TestHost { next_account: 100 };
    let flow: u128 = 1;
    engine.set_element(flow, 1, 0, 0b10, 0x24, code(0), vec![2]).unwrap();
    engine.set_element(flow, 2, 0b10, 0b100, 0x409, code(0), vec![]).unwrap();
    engine.set_factory_instance(flow, [1u8; 32], vec![], vec![]).unwrap();
    assert_eq!(engine.create_root_instance(&mut host, flow, 64), Ok(()));
    assert_eq!(engine.get_instance(flow).unwrap().get_marking(), 0b100);
    // terminate the instance, then try to drive it again: nothing fires
    assert_eq!(engine.kill_process(flow, 64), Ok(()));
    let events_before = engine.get_emitted().len();
    assert_eq!(engine.continue_execution(&mut host, flow, 2, 64), Ok(()));
    let d = engine.get_instance(flow).unwrap();
    assert_eq!(d.get_marking(), 0);
    assert_eq!(d.get_started_activities(), 0);
    assert_eq!(engine.get_emitted().len(), events_before);
}
