//! Round-trip tests of the wire format for flow definitions and instance
//! records.

use bpmn_interpreter::flow::Iflow;
use bpmn_interpreter::instance::Idata;

fn code(tag: u8) -> [u8; 32] {
    let mut c = [0u8; 32];
    c[0] = tag;
    c
}

#[test]
fn idata_round_trips() {
    let mut d = Idata::new();
    d.set_marking(0b1011);
    d.set_activity_marking(0b10000);
    d.set_parent(Some(7), 3, 4);
    d.add_child(4, 200);
    d.add_child(4, 201);
    d.add_child(9, 300);
    d.set_instance_count(4, 5);
    let bytes = d.encode_idata();
    let back = Idata::decode_idata(&bytes).unwrap();
    assert_eq!(back.get_marking(), 0b1011);
    assert_eq!(back.get_started_activities(), 0b10000);
    assert_eq!(back.get_idata_parent(), Some(7));
    assert_eq!(back.get_flow_node(), 3);
    assert_eq!(back.get_index_in_parent(), 4);
    assert_eq!(back.get_child_process_instances(4), vec![200, 201]);
    assert_eq!(back.get_child_process_instances(9), vec![300]);
    assert_eq!(back.get_instance_count(4), 5);
    assert_eq!(back.get_instance_count(9), 1);
    // the round trip is exact: encoding the decoded record reproduces
    // the same bytes
    assert_eq!(back.encode_idata(), bytes);
}

#[test]
fn idata_fresh_record_round_trips() {
    let d = Idata::new();
    let bytes = d.encode_idata();
    let back = Idata::decode_idata(&bytes).unwrap();
    assert_eq!(back.get_marking(), 0);
    assert_eq!(back.get_idata_parent(), None);
    assert_eq!(back.encode_idata(), bytes);
}

#[test]
fn idata_truncated_bytes_do_not_decode() {
    let mut d = Idata::new();
    d.set_marking(9);
    let mut bytes = d.encode_idata();
    bytes.pop();
    assert!(Idata::decode_idata(&bytes).is_none());
    assert!(Idata::decode_idata(&vec![]).is_none());
}

#[test]
fn iflow_round_trips() {
    let mut f = Iflow::new();
    // element 4 carries the start-classifying bits too, so it is
    // registered before the real start event
    f.set_element(4, 0b100, 0b1000, 0x25, code(0), vec![]).unwrap();
    f.set_element(1, 0, 0b10, 0x24, code(1), vec![2]).unwrap();
    f.set_element(2, 0b10, 0b100, 0x1009, code(0), vec![3, 4]).unwrap();
    f.set_element(7, 0, 0b10000, 0x114, code(9), vec![8]).unwrap();
    f.set_element(9, 0, 0, 0x21, code(0), vec![]).unwrap();
    f.link_sub_process(4, 55, vec![7], 3).unwrap();
    f.link_sub_process(9, 66, vec![], 2).unwrap();
    f.set_factory_instance(bpmn_interpreter::flow::Ifactory::new(
        [5u8; 32],
        vec![0xE8, 0xF9],
        vec![0xAC],
    ));
    let bytes = f.encode_iflow();
    let back = Iflow::decode_iflow(&bytes).unwrap();
    assert_eq!(back.get_first_elem(), 1);
    assert_eq!(back.get_pre_condition(2), 0b10);
    assert_eq!(back.get_post_condition(2), 0b100);
    assert_eq!(back.get_type_info(2), 0x1009);
    assert_eq!(back.get_ady_elements(2), vec![3, 4]);
    assert_eq!(back.get_event_list(), vec![4, 1, 7]);
    assert_eq!(back.get_event_code(1), code(1));
    assert_eq!(back.get_sub_process_list(), vec![9]);
    assert_eq!(back.get_attached_to(7), 4);
    assert_eq!(back.get_sub_process_instance(4), Some(55));
    assert_eq!(back.get_instance_count(4), 3);
    assert_eq!(back.get_sub_process_instance(9), Some(66));
    assert_eq!(back.get_instance_count(9), 2);
    let fac = back.get_factory_instance();
    assert_eq!(fac.get_address(), None);
    assert_eq!(fac.get_instantiate_selector(), &vec![0xE8, 0xF9]);
    assert_eq!(fac.get_execute_script_selector(), &vec![0xAC]);
    // the round trip is exact
    assert_eq!(back.encode_iflow(), bytes);
}

#[test]
fn iflow_truncated_bytes_do_not_decode() {
    let mut f = Iflow::new();
    f.set_element(1, 0, 0b10, 0x24, code(1), vec![2]).unwrap();
    let mut bytes = f.encode_iflow();
    bytes.pop();
    assert!(Iflow::decode_iflow(&bytes).is_none());
    assert!(Iflow::decode_iflow(&vec![]).is_none());
}
