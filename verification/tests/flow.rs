//! Requests to the manager of flows.

use mortise::flow::{flow_id, frame};
use mortise::{FlowOperation, Mortise, MortiseConfig, Span, Transport};

#[test]
fn a_frame_is_the_length_and_the_message() {
    assert_eq!(frame(&Vec::new()), vec![0, 0, 0, 0]);
    assert_eq!(frame(&vec![7, 8, 9]), vec![0, 0, 0, 3, 7, 8, 9]);
    let long = frame(&vec![1; 0x0002_0305]);
    assert_eq!(long[..4], [0, 2, 3, 5]);
    assert_eq!(long.len(), 4 + 0x0002_0305);
}

#[test]
fn a_frame_is_taken_apart_again() {
    let message: Vec<u8> = (0..=255).collect();
    let framed = frame(&message);
    let head = [framed[0], framed[1], framed[2], framed[3]];
    assert_eq!(flow_id(head), 256);
    assert_eq!(&framed[4..], &message[..]);
}

#[test]
fn the_number_of_a_flow_has_its_highest_byte_first() {
    assert_eq!(flow_id([0x12, 0x34, 0x56, 0x78]), 0x1234_5678);
    assert_eq!(flow_id([0xff, 0xff, 0xff, 0xff]), u32::MAX);
    assert_eq!(flow_id(77u32.to_be_bytes()), 77);
}

#[test]
fn a_connection_begins_and_ends_under_its_trace_id() {
    assert!(matches!(FlowOperation::connect("id-9"), FlowOperation::Connect("id-9")));
    let config = MortiseConfig::new(1, 2, None, 3);
    let transport = Transport { send_udp_payload_size: 3, initial_rtt: Span::from_micros(1) };
    let id = String::from("id-9");
    let m = Mortise::new(config, transport, id, 1, Span::from_micros(0));
    assert!(matches!(m.disconnect(), FlowOperation::Disconnect("id-9")));
}
