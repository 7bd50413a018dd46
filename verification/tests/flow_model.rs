//! Tests of the flow model: element registration, sub-process linking,
//! catch-event selection and the associated getters.

use bpmn_interpreter::engine::Module;
use bpmn_interpreter::flow::Iflow;
use bpmn_interpreter::Errors;

fn code(tag: u8) -> [u8; 32] {
    let mut c = [0u8; 32];
    c[0] = tag;
    c
}

#[test]
fn set_element_registers_conditions_and_adjacency() {
    let mut f = Iflow::new();
    assert_eq!(f.set_element(1, 0, 0b10, 0x24, code(1), vec![2]), Ok(()));
    assert_eq!(f.get_pre_condition(1), 0);
    assert_eq!(f.get_post_condition(1), 0b10);
    assert_eq!(f.get_type_info(1), 0x24);
    assert_eq!(f.get_ady_elements(1), vec![2]);
    assert_eq!(f.get_first_elem(), 1);
    assert_eq!(f.get_event_list(), vec![1]);
    assert_eq!(f.get_event_code(1), code(1));
}

#[test]
fn set_element_missing_element_reads_zero() {
    let f = Iflow::new();
    assert_eq!(f.get_pre_condition(7), 0);
    assert_eq!(f.get_post_condition(7), 0);
    assert_eq!(f.get_type_info(7), 0);
    assert_eq!(f.get_ady_elements(7), Vec::<u128>::new());
    assert_eq!(f.get_event_code(7), [0u8; 32]);
}

#[test]
fn set_element_classifies_subprocesses() {
    let mut f = Iflow::new();
    assert_eq!(f.set_element(4, 0b1, 0b1000, 0x21, code(0), vec![]), Ok(()));
    assert_eq!(f.get_sub_process_list(), vec![4]);
    assert_eq!(f.get_event_list(), Vec::<u128>::new());
}

#[test]
fn set_element_rejects_type_change() {
    let mut f = Iflow::new();
    assert_eq!(f.set_element(2, 0b10, 0b100, 0x1009, code(0), vec![3]), Ok(()));
    assert_eq!(
        f.set_element(2, 0b10, 0b100, 0x24, code(0), vec![3]),
        Err(Errors::TypeMismatch)
    );
    // the stored registration is untouched
    assert_eq!(f.get_type_info(2), 0x1009);
}

#[test]
fn set_element_idempotent_for_identical_inputs() {
    let mut f = Iflow::new();
    assert_eq!(f.set_element(1, 0, 0b10, 0x24, code(1), vec![2]), Ok(()));
    let events_once = f.get_event_list();
    let subs_once = f.get_sub_process_list();
    assert_eq!(f.set_element(1, 0, 0b10, 0x24, code(1), vec![2]), Ok(()));
    // no duplicate classification, same observable state
    assert_eq!(f.get_event_list(), events_once);
    assert_eq!(f.get_sub_process_list(), subs_once);
    assert_eq!(f.get_type_info(1), 0x24);
    assert_eq!(f.get_post_condition(1), 0b10);
    assert_eq!(f.get_first_elem(), 1);
}

#[test]
fn link_sub_process_requires_subprocess_element() {
    let mut f = Iflow::new();
    assert_eq!(f.set_element(2, 0b10, 0b100, 0x1009, code(0), vec![]), Ok(()));
    assert_eq!(
        f.link_sub_process(2, 77, vec![], 1),
        Err(Errors::SubprocessToLinkNotFound)
    );
    assert_eq!(
        f.link_sub_process(9, 77, vec![], 1),
        Err(Errors::SubprocessToLinkNotFound)
    );
}

#[test]
fn link_sub_process_records_reference_and_count() {
    let mut f = Iflow::new();
    assert_eq!(f.set_element(4, 0b1, 0b1000, 0x21, code(0), vec![]), Ok(()));
    assert_eq!(f.link_sub_process(4, 55, vec![7], 3), Ok(()));
    assert_eq!(f.get_sub_process_instance(4), Some(55));
    assert_eq!(f.get_instance_count(4), 3);
    // the element carries no event bit, so no attachment is recorded
    assert_eq!(f.get_attached_to(7), 0);
}

#[test]
fn link_sub_process_attaches_events_only_for_event_typed_hosts() {
    let mut f = Iflow::new();
    // bits 0, 2 and 5: a sub-process element that also carries the event bit
    assert_eq!(f.set_element(5, 0, 0, 0x25, code(0), vec![]), Ok(()));
    assert_eq!(f.link_sub_process(5, 66, vec![6, 8], 1), Ok(()));
    assert_eq!(f.get_attached_to(6), 5);
    assert_eq!(f.get_attached_to(8), 5);
    assert_eq!(f.get_sub_process_instance(5), Some(66));
}

#[test]
fn find_catch_event_prefers_event_subprocess_start() {
    let mut f = Iflow::new();
    // an event-sub-process start event (bits 1, 2) registered before a
    // boundary event (bits 2, 8) bearing the same code
    assert_eq!(f.set_element(6, 0, 0, 0x8006, code(9), vec![]), Ok(()));
    assert_eq!(f.set_element(7, 0, 0b10000, 0x114, code(9), vec![8]), Ok(()));
    assert_eq!(f.set_element(4, 0, 0, 0x25, code(0), vec![]), Ok(()));
    assert_eq!(f.link_sub_process(4, 66, vec![6, 7], 1), Ok(()));
    // both match the code and the boundary is attached to 4, but the
    // event-sub-process start comes first in the event list
    assert_eq!(f.find_catch_event(&code(9), 4), Some(6));
}

#[test]
fn find_catch_event_matches_boundary_by_attachment() {
    let mut f = Iflow::new();
    assert_eq!(f.set_element(7, 0, 0b10000, 0x114, code(9), vec![8]), Ok(()));
    assert_eq!(f.set_element(4, 0, 0, 0x25, code(0), vec![]), Ok(()));
    assert_eq!(f.link_sub_process(4, 66, vec![7], 1), Ok(()));
    // attached to 4: caught when 4 throws, not when 5 throws
    assert_eq!(f.find_catch_event(&code(9), 4), Some(7));
    assert_eq!(f.find_catch_event(&code(9), 5), None);
    assert_eq!(f.find_catch_event(&code(1), 4), None);
}

#[test]
fn engine_set_element_creates_flow_on_first_use() {
    let mut engine = Module::new();
    assert_eq!(
        engine.set_element(10, 1, 0, 0b10, 0x24, code(1), vec![2]),
        Ok(())
    );
    assert_eq!(engine.get_type_info(10, 1), 0x24);
    assert_eq!(engine.get_post_condition(10, 1), 0b10);
    assert_eq!(engine.get_pre_condition(10, 1), 0);
    // unknown flows read zero
    assert_eq!(engine.get_type_info(99, 1), 0);
}

#[test]
fn engine_link_sub_process_needs_registered_flow() {
    let mut engine = Module::new();
    assert_eq!(
        engine.link_sub_process(10, 4, 2, vec![], 1),
        Err(Errors::InstanceNotFound)
    );
}
