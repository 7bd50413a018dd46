//! Execution scenarios: token flow through linear flows, splits,
//! multi-instance activities and terminate events.

use bpmn_interpreter::engine::Module;
use bpmn_interpreter::codec::u128_to_le_bytes;
use bpmn_interpreter::{Errors, Host, InterpreterEvent};

struct TestHost {
    next_account: u128,
    results: Vec<(u128, u128)>,
    allow_instantiate: bool,
    script_calls: Vec<u128>,
}

impl TestHost {
    fn new() -> TestHost {
        TestHost { next_account: 100, results: vec![], allow_instantiate: true, script_calls: vec![] }
    }
}

impl Host for TestHost {
    fn instantiate(&mut self, _data_hash: [u8; 32], _input_data: Vec<u8>) -> Option<u128> {
        if !self.allow_instantiate {
            return None;
        }
        let a = self.next_account;
        self.next_account += 1;
        Some(a)
    }

    fn execute_script(&mut self, _address: u128, _selector: Vec<u8>, element_index: u128) -> Vec<u8> {
        self.script_calls.push(element_index);
        let mut r: u128 = 0;
        let mut i: usize = 0;
        while i < self.results.len() {
            if self.results[i].0 == element_index {
                r = self.results[i].1;
            }
            i += 1;
        }
        u128_to_le_bytes(r)
    }
}

fn zero_code() -> [u8; 32] {
    [0u8; 32]
}

fn new_cases(engine: &Module) -> Vec<u128> {
    let mut r = vec![];
    for e in engine.get_emitted().iter() {
        if let InterpreterEvent::NewCaseCreated(c) = e {
            r.push(*c);
        }
    }
    r
}

fn message_codes(engine: &Module) -> Vec<[u8; 32]> {
    let mut r = vec![];
    for e in engine.get_emitted().iter() {
        if let InterpreterEvent::MessageSent(c) = e {
            r.push(*c);
        }
    }
    r
}

#[test]
fn minimal_linear_flow_drains_its_token() {
    let mut engine = Module::new();
    let mut host = TestHost::new();
    let flow: u128 = 10;
    // 1: start, 2: script task, 3: end
    engine.set_element(flow, 1, 0, 0b10, 0x24, zero_code(), vec![2]).unwrap();
    engine.set_element(flow, 2, 0b10, 0b100, 0x1009, zero_code(), vec![3]).unwrap();
    engine.set_element(flow, 3, 0b100, 0, 0x204, zero_code(), vec![]).unwrap();
    engine.set_factory_instance(flow, [7u8; 32], vec![0xE8], vec![0xAC]).unwrap();
    assert_eq!(engine.create_root_instance(&mut host, flow, 64), Ok(()));
    // one case created, no message sent
    assert_eq!(new_cases(&engine), vec![100]);
    assert_eq!(message_codes(&engine), Vec::<[u8; 32]>::new());
    // the script (returning zero) was consulted for the task
    assert_eq!(host.script_calls, vec![2]);
    // all tokens consumed
    let root = engine.get_instance(flow).unwrap();
    assert_eq!(root.get_marking(), 0);
    assert_eq!(root.get_started_activities(), 0);
}

#[test]
fn xor_split_produces_the_scripted_edges() {
    let mut engine = Module::new();
    let mut host = TestHost::new();
    host.results = vec![(5, 32)];
    let flow: u128 = 11;
    // 1: start, 5: exclusive split gateway
    engine.set_element(flow, 1, 0, 0b1, 0x24, zero_code(), vec![5]).unwrap();
    engine.set_element(flow, 5, 0b1, 0, 0x52, zero_code(), vec![]).unwrap();
    engine.set_factory_instance(flow, [7u8; 32], vec![0xE8], vec![0xAC]).unwrap();
    assert_eq!(engine.create_root_instance(&mut host, flow, 64), Ok(()));
    assert_eq!(host.script_calls, vec![5]);
    // the gateway consumed its token and produced exactly the bits the
    // script returned
    let root = engine.get_instance(flow).unwrap();
    assert_eq!(root.get_marking(), 32);
}

#[test]
fn message_end_event_publishes_its_code() {
    let mut engine = Module::new();
    let mut host = TestHost::new();
    let flow: u128 = 12;
    let mut mcode = [0u8; 32];
    mcode[0] = 42;
    // 1: start, 2: message end event (end + throw + message)
    engine.set_element(flow, 1, 0, 0b1, 0x24, zero_code(), vec![2]).unwrap();
    engine.set_element(flow, 2, 0b1, 0, 0x120C, mcode, vec![]).unwrap();
    engine.set_factory_instance(flow, [7u8; 32], vec![0xE8], vec![0xAC]).unwrap();
    assert_eq!(engine.create_root_instance(&mut host, flow, 64), Ok(()));
    assert_eq!(message_codes(&engine), vec![mcode]);
    let root = engine.get_instance(flow).unwrap();
    assert_eq!(root.get_marking(), 0);
}

#[test]
fn parallel_multi_instance_creates_configured_children() {
    let mut engine = Module::new();
    let mut host = TestHost::new();
    let parent: u128 = 1;
    let child: u128 = 2;
    // parent: 0: start, 4: parallel multi-instance activity
    engine.set_element(parent, 0, 0, 0b1, 0x24, zero_code(), vec![4]).unwrap();
    engine.set_element(parent, 4, 0b1, 0b1000, 0x61, zero_code(), vec![]).unwrap();
    engine.link_sub_process(parent, 4, child, vec![], 3).unwrap();
    engine.set_factory_instance(parent, [1u8; 32], vec![], vec![]).unwrap();
    // child flow: a bare start event with no adjacency
    engine.set_element(child, 20, 0, 0b1, 0x24, zero_code(), vec![]).unwrap();
    engine.set_factory_instance(child, [2u8; 32], vec![], vec![]).unwrap();
    assert_eq!(engine.create_root_instance(&mut host, parent, 64), Ok(()));
    // the factory address is cached, so all three children share it
    assert_eq!(new_cases(&engine), vec![100, 101, 101, 101]);
    let root = engine.get_instance(parent).unwrap();
    assert_eq!(root.get_child_process_instances(4), vec![101, 101, 101]);
    assert_eq!(root.get_instance_count(4), 3);
    assert_eq!(root.get_started_activities(), 1 << 4);
    // the child instance carries the seeded marking of the child flow
    let kid = engine.get_instance(101).unwrap();
    assert_eq!(kid.get_marking(), 0b1);
    assert_eq!(kid.get_index_in_parent(), 4);
    assert_eq!(kid.get_idata_parent(), Some(parent));
}

#[test]
fn sequential_multi_instance_respawns_until_count_drained() {
    let mut engine = Module::new();
    let mut host = TestHost::new();
    let parent: u128 = 1;
    let child: u128 = 2;
    // parent: 0: start, 4: sequential multi-instance sub-process
    engine.set_element(parent, 0, 0, 0b1, 0x24, zero_code(), vec![4]).unwrap();
    engine.set_element(parent, 4, 0b1, 0b1000, 0xA1, zero_code(), vec![]).unwrap();
    engine.link_sub_process(parent, 4, child, vec![], 3).unwrap();
    engine.set_factory_instance(parent, [1u8; 32], vec![], vec![]).unwrap();
    // child flow: 20: start -> 22: user task that parks a token on edge 2;
    // 21: default end, fired later through continue_execution.
    // Element 4 of the child flow carries the packed sequential flag (bit
    // 7) in its count field and links back to the child flow itself, as
    // the completion handler reads both from the completing child's flow.
    engine.set_element(child, 20, 0, 0b1, 0x24, zero_code(), vec![22]).unwrap();
    engine.set_element(child, 22, 0b1, 0b10, 0x809, zero_code(), vec![]).unwrap();
    engine.set_element(child, 21, 0b10, 0, 0x60C, zero_code(), vec![]).unwrap();
    engine.set_element(child, 4, 0, 0, 0x21, zero_code(), vec![]).unwrap();
    engine.link_sub_process(child, 4, child, vec![], 0x80).unwrap();
    engine.set_factory_instance(child, [2u8; 32], vec![], vec![]).unwrap();
    assert_eq!(engine.create_root_instance(&mut host, parent, 64), Ok(()));
    // exactly one child was created on firing, and the configured count
    // was copied into the parent record
    assert_eq!(new_cases(&engine), vec![100, 101]);
    let root = engine.get_instance(parent).unwrap();
    assert_eq!(root.get_instance_count(4), 3);
    assert_eq!(engine.get_instance(101).unwrap().get_marking(), 0b10);
    // first completion: the parent sees its count decrement and the next
    // instance is spawned
    assert_eq!(engine.continue_execution(&mut host, 101, 21, 64), Ok(()));
    assert_eq!(engine.get_instance(parent).unwrap().get_instance_count(4), 2);
    assert_eq!(new_cases(&engine), vec![100, 101, 101]);
    assert_eq!(engine.get_instance(101).unwrap().get_marking(), 0b10);
    // the completion handler passes the completing instance itself as
    // the parent of the respawn, so the respawned instance is its own
    // parent: its completion drains its own single-entry count and
    // spawns nothing further
    assert_eq!(engine.continue_execution(&mut host, 101, 21, 64), Ok(()));
    assert_eq!(engine.get_instance(parent).unwrap().get_instance_count(4), 2);
    assert_eq!(new_cases(&engine), vec![100, 101, 101]);
    assert_eq!(engine.get_instance(101).unwrap().get_marking(), 0);
}

#[test]
fn terminate_end_event_zeroes_the_subprocess() {
    let mut engine = Module::new();
    let mut host = TestHost::new();
    let parent: u128 = 1;
    let child: u128 = 2;
    engine.set_element(parent, 0, 0, 0b1, 0x24, zero_code(), vec![4]).unwrap();
    engine.set_element(parent, 4, 0b1, 0b1000, 0x21, zero_code(), vec![]).unwrap();
    engine.link_sub_process(parent, 4, child, vec![], 1).unwrap();
    engine.set_factory_instance(parent, [1u8; 32], vec![], vec![]).unwrap();
    // child: start seeds two tokens; the terminate end consumes one and
    // the other would remain, but the terminate zeroes the instance
    engine.set_element(child, 20, 0, 0b11, 0x24, zero_code(), vec![21]).unwrap();
    engine.set_element(child, 21, 0b1, 0, 0xA0C, zero_code(), vec![]).unwrap();
    engine.set_factory_instance(child, [2u8; 32], vec![], vec![]).unwrap();
    assert_eq!(engine.create_root_instance(&mut host, parent, 64), Ok(()));
    let kid = engine.get_instance(101).unwrap();
    assert_eq!(kid.get_marking(), 0);
    assert_eq!(kid.get_started_activities(), 0);
}

#[test]
fn kill_process_zeroes_every_descendant() {
    let mut engine = Module::new();
    let mut host = TestHost::new();
    let top: u128 = 1;
    let mid: u128 = 2;
    let leaf: u128 = 3;
    engine.set_element(top, 0, 0, 0b1, 0x24, zero_code(), vec![4]).unwrap();
    engine.set_element(top, 4, 0b1, 0b1000, 0x21, zero_code(), vec![]).unwrap();
    engine.link_sub_process(top, 4, mid, vec![], 1).unwrap();
    engine.set_factory_instance(top, [1u8; 32], vec![], vec![]).unwrap();
    engine.set_element(mid, 20, 0, 0b1, 0x24, zero_code(), vec![5]).unwrap();
    engine.set_element(mid, 5, 0b1, 0b100, 0x21, zero_code(), vec![]).unwrap();
    engine.link_sub_process(mid, 5, leaf, vec![], 1).unwrap();
    engine.set_factory_instance(mid, [2u8; 32], vec![], vec![]).unwrap();
    engine.set_element(leaf, 30, 0, 0b1, 0x24, zero_code(), vec![]).unwrap();
    engine.set_factory_instance(leaf, [3u8; 32], vec![], vec![]).unwrap();
    assert_eq!(engine.create_root_instance(&mut host, top, 64), Ok(()));
    // the tree is alive: 1 -> 101 (mid flow) -> 102 (leaf flow)
    assert!(engine.get_instance(top).unwrap().get_started_activities() != 0);
    assert!(engine.get_instance(101).unwrap().get_started_activities() != 0);
    assert_eq!(engine.get_instance(102).unwrap().get_marking(), 0b1);
    assert_eq!(engine.kill_process(top, 64), Ok(()));
    for case in [top, 101, 102] {
        let d = engine.get_instance(case).unwrap();
        assert_eq!(d.get_marking(), 0);
        assert_eq!(d.get_started_activities(), 0);
    }
}

#[test]
fn error_variants_surface() {
    let mut engine = Module::new();
    let mut host = TestHost::new();
    // unknown flow
    assert_eq!(
        engine.create_root_instance(&mut host, 9, 64),
        Err(Errors::InstanceNotFound)
    );
    // unknown instance
    assert_eq!(
        engine.continue_execution(&mut host, 9, 1, 64),
        Err(Errors::InstanceNotFound)
    );
    // the root sentinel cannot be a parent
    assert_eq!(
        engine.create_instance(&mut host, 4, 0, 64),
        Err(Errors::ParentIsRoot)
    );
    // exhausted recursion budget
    assert_eq!(
        engine.create_root_instance(&mut host, 9, 0),
        Err(Errors::RecursionLimit)
    );
    // host refuses to materialise the data contract
    host.allow_instantiate = false;
    engine.set_element(9, 1, 0, 0b1, 0x24, zero_code(), vec![]).unwrap();
    engine.set_factory_instance(9, [1u8; 32], vec![], vec![]).unwrap();
    assert_eq!(
        engine.create_root_instance(&mut host, 9, 64),
        Err(Errors::InstantiationFailure)
    );
}

struct GarbledHost;

impl Host for GarbledHost {
    fn instantiate(&mut self, _data_hash: [u8; 32], _input_data: Vec<u8>) -> Option<u128> {
        Some(100)
    }

    fn execute_script(&mut self, _address: u128, _selector: Vec<u8>, _element_index: u128) -> Vec<u8> {
        vec![1, 2, 3]
    }
}

#[test]
fn short_script_reply_is_a_decoding_error() {
    let mut engine = Module::new();
    let mut host = GarbledHost;
    let flow: u128 = 13;
    engine.set_element(flow, 1, 0, 0b1, 0x24, zero_code(), vec![5]).unwrap();
    engine.set_element(flow, 5, 0b1, 0, 0x52, zero_code(), vec![]).unwrap();
    engine.set_factory_instance(flow, [7u8; 32], vec![], vec![]).unwrap();
    assert_eq!(
        engine.create_root_instance(&mut host, flow, 64),
        Err(Errors::ScriptDecodingError)
    );
}

#[test]
fn and_join_waits_for_its_whole_pre_set() {
    let mut engine = Module::new();
    let mut host = TestHost::new();
    let flow: u128 = 20;
    // the start seeds only one of the two edges the join consumes
    engine.set_element(flow, 0, 0, 0b010, 0x24, zero_code(), vec![3]).unwrap();
    engine.set_element(flow, 3, 0b110, 0b1000, 0x2A, zero_code(), vec![]).unwrap();
    engine.set_factory_instance(flow, [1u8; 32], vec![], vec![]).unwrap();
    assert_eq!(engine.create_root_instance(&mut host, flow, 64), Ok(()));
    // not enabled: the token stays parked
    assert_eq!(engine.get_instance(flow).unwrap().get_marking(), 0b010);
}

#[test]
fn and_join_fires_once_the_pre_set_is_complete() {
    let mut engine = Module::new();
    let mut host = TestHost::new();
    let flow: u128 = 21;
    engine.set_element(flow, 0, 0, 0b110, 0x24, zero_code(), vec![3]).unwrap();
    engine.set_element(flow, 3, 0b110, 0b1000, 0x2A, zero_code(), vec![]).unwrap();
    engine.set_factory_instance(flow, [1u8; 32], vec![], vec![]).unwrap();
    assert_eq!(engine.create_root_instance(&mut host, flow, 64), Ok(()));
    // both edges were marked: the join drains them and produces its post
    assert_eq!(engine.get_instance(flow).unwrap().get_marking(), 0b1000);
}

#[test]
fn or_join_stub_passes_the_walk_through_without_firing() {
    let mut engine = Module::new();
    let mut host = TestHost::new();
    let flow: u128 = 22;
    // 5 is an OR join (a declared stub): it consumes nothing and produces
    // nothing, but the walk continues into its adjacency
    engine.set_element(flow, 0, 0, 0b1, 0x24, zero_code(), vec![5]).unwrap();
    engine.set_element(flow, 5, 0b1, 0b10, 0x4A, zero_code(), vec![6]).unwrap();
    engine.set_element(flow, 6, 0b1, 0b100, 0x409, zero_code(), vec![]).unwrap();
    engine.set_factory_instance(flow, [1u8; 32], vec![], vec![]).unwrap();
    assert_eq!(engine.create_root_instance(&mut host, flow, 64), Ok(()));
    // the task behind the join fired on the original token; the join's
    // own post never appeared
    assert_eq!(engine.get_instance(flow).unwrap().get_marking(), 0b100);
}
