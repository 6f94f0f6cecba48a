//! Server-core tests: accept, broadcast fan-out, backlog order, drops.

use pulse_server::config::Command;
use pulse_server::payload::{decode_command, encode_command, encode_pulse};
use pulse_server::pulse::Pulse;
use pulse_server::server::{ServerCore, FIRST_CLIENT_ID};
use pulse_server::wire::{encode_frame, encode_u64_le};

fn pulse(freq: u64) -> Pulse {
    Pulse { freq_hz: freq, signal_strength_milli: 500, gain: 12, timestamp_ms: 42 }
}

fn framed(p: &Pulse) -> Vec<u8> {
    encode_frame(&encode_pulse(p))
}

#[test]
fn accept_assigns_fresh_ids() {
    let mut core = ServerCore::new();
    let a = core.accept_client();
    let b = core.accept_client();
    let c = core.accept_client();
    assert_eq!(a, FIRST_CLIENT_ID);
    assert_eq!(b, FIRST_CLIENT_ID + 1);
    assert_eq!(c, FIRST_CLIENT_ID + 2);
    assert_eq!(core.clients.len(), 3);
}

#[test]
fn broadcast_with_no_clients_changes_nothing() {
    let mut core = ServerCore::new();
    core.broadcast_pulse(&pulse(1));
    assert_eq!(core.clients.len(), 0);
    assert_eq!(core.next_client_id, FIRST_CLIENT_ID);
}

#[test]
fn broadcast_reaches_every_client_exactly_once() {
    let mut core = ServerCore::new();
    core.accept_client();
    core.accept_client();
    core.accept_client();
    let p = pulse(7);
    core.broadcast_pulse(&p);
    for client in &core.clients {
        assert_eq!(client.backlog.len(), 1);
        assert_eq!(client.backlog[0], framed(&p));
    }
}

#[test]
fn broadcast_keeps_production_order() {
    let mut core = ServerCore::new();
    core.accept_client();
    let first = pulse(1);
    let second = pulse(2);
    core.broadcast_pulse(&first);
    core.broadcast_pulse(&second);
    let client = &core.clients[0];
    assert_eq!(client.backlog.len(), 2);
    assert_eq!(client.backlog[0], framed(&first));
    assert_eq!(client.backlog[1], framed(&second));
}

#[test]
fn backlog_drains_fifo_across_partial_writes() {
    let mut core = ServerCore::new();
    core.accept_client();
    let first = pulse(1);
    let second = pulse(2);
    core.broadcast_pulse(&first);
    core.broadcast_pulse(&second);

    let client = &mut core.clients[0];
    let first_frame = framed(&first);
    let second_frame = framed(&second);

    // Writability is delayed: nothing leaves until bytes are written.
    assert!(client.has_pending());

    // A partial write of the oldest frame does not remove it.
    let chunk = client.next_write_chunk();
    assert_eq!(chunk, first_frame);
    client.note_written(5);
    assert_eq!(client.backlog.len(), 2);
    let rest = client.next_write_chunk();
    assert_eq!(rest, first_frame[5..].to_vec());

    // Completing the oldest frame removes it, and only it.
    client.note_written(rest.len());
    assert_eq!(client.backlog.len(), 1);
    assert_eq!(client.next_write_chunk(), second_frame);
    client.note_written(second_frame.len());
    assert!(!client.has_pending());
}

#[test]
fn oversized_frame_drops_only_that_client() {
    let mut core = ServerCore::new();
    let victim = core.accept_client();
    let bystander = core.accept_client();
    core.broadcast_pulse(&pulse(9));

    let bad_prefix = encode_u64_le(2001);
    let result = core.client_prefix_arrived(victim, &bad_prefix);
    assert!(result.is_err());
    assert_eq!(core.clients.len(), 1);
    assert_eq!(core.clients[0].id, bystander);
    // The surviving client keeps its queued frame.
    assert_eq!(core.clients[0].backlog.len(), 1);
}

#[test]
fn frame_at_cap_keeps_client() {
    let mut core = ServerCore::new();
    let id = core.accept_client();
    let prefix = encode_u64_le(2000);
    assert_eq!(core.client_prefix_arrived(id, &prefix), Ok(()));
    assert_eq!(core.clients.len(), 1);
}

#[test]
fn prefix_for_unknown_client_is_ignored() {
    let mut core = ServerCore::new();
    core.accept_client();
    let prefix = encode_u64_le(2001);
    assert_eq!(core.client_prefix_arrived(999, &prefix), Ok(()));
    assert_eq!(core.clients.len(), 1);
}

#[test]
fn drop_client_leaves_others_untouched() {
    let mut core = ServerCore::new();
    let a = core.accept_client();
    let b = core.accept_client();
    core.broadcast_pulse(&pulse(3));
    assert!(core.drop_client(a).is_some());
    assert_eq!(core.clients.len(), 1);
    assert_eq!(core.clients[0].id, b);
    assert_eq!(core.clients[0].backlog.len(), 1);
    assert!(core.drop_client(a).is_none());
}

#[test]
fn client_read_path_delivers_whole_frames_only() {
    let mut core = ServerCore::new();
    let id = core.accept_client();

    let payload = encode_command(&Command::Stop);
    let prefix = encode_u64_le(payload.len() as u64);
    assert_eq!(core.client_prefix_arrived(id, &prefix), Ok(()));
    assert_eq!(core.client_needed_bytes(id), payload.len());

    // Fed in two chunks, nothing is delivered until every byte is in.
    assert_eq!(core.client_payload_arrived(id, &payload[..3]), 3);
    assert_eq!(core.client_take_frame(id), None);
    assert_eq!(core.client_payload_arrived(id, &payload[3..]), payload.len() - 3);

    let frame = core.client_take_frame(id).expect("a whole frame must be delivered");
    assert_eq!(frame, payload);
    assert_eq!(decode_command(&frame), Some(Command::Stop));

    // The frame is delivered exactly once.
    assert_eq!(core.client_take_frame(id), None);
    assert_eq!(core.client_needed_bytes(id), 0);
}

#[test]
fn extra_payload_bytes_are_left_for_the_caller() {
    let mut core = ServerCore::new();
    let id = core.accept_client();
    let prefix = encode_u64_le(4);
    assert_eq!(core.client_prefix_arrived(id, &prefix), Ok(()));
    // Six bytes offered, only the four the frame needs are consumed.
    assert_eq!(core.client_payload_arrived(id, b"abcdXY"), 4);
    assert_eq!(core.client_take_frame(id), Some(b"abcd".to_vec()));
}
