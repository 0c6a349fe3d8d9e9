//! The transport core: start and stop, discovery, the send path, inbound
//! reassembly, the sweeper and the info request.

use qaul_ble::ble_service::BleAction;
use qaul_ble::ble_service::BleMainLoopEvent;
use qaul_ble::ble_service::CharacteristicEvent;
use qaul_ble::ble_service::DiscoveredCharacteristic;
use qaul_ble::ble_service::DiscoveredService;
use qaul_ble::ble_service::DiscoveryReport;
use qaul_ble::ble_service::IdleBleService;
use qaul_ble::ble_service::QaulBleService;
use qaul_ble::ble_service::StartFailure;
use qaul_ble::ble_service::StartedBleService;
use qaul_ble::ble_uuids::main_service_uuid;
use qaul_ble::ble_uuids::msg_service_uuid;
use qaul_ble::ble_uuids::read_char;
use qaul_ble::frame::fragment_hex;
use qaul_ble::frame::frame_payload;
use qaul_ble::info::get_device_info;
use qaul_ble::proto::get_last_bytes;
use qaul_ble::proto::get_last_num;
use qaul_ble::proto::read_fields;
use qaul_ble::proto::FieldVal;
use qaul_ble::rpc_utils::encode_direct_send;
use qaul_ble::rpc_utils::BleDirectSend;
use qaul_ble::rpc_utils::BleResultSender;

fn event_parts(ev: &Vec<u8>) -> (u64, Vec<FieldVal>) {
    let fs = read_fields(ev).expect("event is well-formed protobuf");
    assert_eq!(fs.len(), 1);
    match &fs[0] {
        FieldVal::Bytes(tag, body) => {
            let inner = read_fields(body).expect("event body is well-formed");
            (*tag, inner)
        }
        FieldVal::Num(_, _) => panic!("event envelope must be length-delimited"),
    }
}

fn started(qaul_id: Vec<u8>) -> StartedBleService {
    let idle = match IdleBleService::new(true) {
        Ok(QaulBleService::Idle(s)) => s,
        _ => panic!("a fresh transport is idle"),
    };
    match idle.advertise_scan_listen(qaul_id, true, true) {
        (QaulBleService::Started(svc), None) => svc,
        _ => panic!("both registrations accepted must reach Started"),
    }
}

fn report_for(mac: u64, rssi: Option<i32>, id: Vec<u8>) -> DiscoveryReport {
    DiscoveryReport {
        mac,
        rssi,
        name: b"peer".to_vec(),
        services: vec![DiscoveredService {
            uuid: main_service_uuid(),
            characteristics: vec![DiscoveredCharacteristic {
                uuid: read_char(),
                read: true,
                notify: false,
                indicate: false,
                value: Some(id),
            }],
        }],
    }
}

#[test]
fn start_keeps_identifier_for_read_characteristic() {
    let svc = started(vec![0xAA, 0xBB]);
    assert_eq!(svc.qaul_id, vec![0xAA, 0xBB]);
}

#[test]
fn missing_adapter_fails_initialization() {
    match IdleBleService::new(false) {
        Err(StartFailure::AdapterUnavailable) => {}
        _ => panic!("no adapter means no transport"),
    }
}

#[test]
fn start_failures_stay_idle() {
    let idle = match IdleBleService::new(true) {
        Ok(QaulBleService::Idle(s)) => s,
        _ => panic!(),
    };
    match idle.advertise_scan_listen(vec![1], false, true) {
        (QaulBleService::Idle(_), Some(StartFailure::AdvertiseRejected)) => {}
        _ => panic!("a rejected advertisement must stay idle"),
    }
    let idle2 = match IdleBleService::new(true) {
        Ok(QaulBleService::Idle(s)) => s,
        _ => panic!(),
    };
    match idle2.advertise_scan_listen(vec![1], true, false) {
        (QaulBleService::Idle(_), Some(StartFailure::ServeRejected)) => {}
        _ => panic!("a rejected application must stay idle"),
    }
}

#[test]
fn start_stop_cycle_reaches_idle_and_second_stop_is_benign() {
    let svc = started(vec![1, 2]);
    let mut sender = BleResultSender::new();
    let after = QaulBleService::Started(svc).stop(&mut sender);
    let after2 = after.stop(&mut sender);
    match after2 {
        QaulBleService::Idle(_) => {}
        _ => panic!("stop must reach Idle"),
    }
    let events = sender.take_messages();
    assert_eq!(events.len(), 2);
    for ev in &events {
        let (tag, body) = event_parts(ev);
        assert_eq!(tag, 6);
        assert_eq!(get_last_num(&body, 1), Some(1));
    }
}

#[test]
fn discovery_registers_peer_and_reports_once() {
    let mut svc = started(vec![9]);
    let mut sender = BleResultSender::new();
    let mac: u64 = 0xAABBCCDDEEFF;

    // First sighting: unknown, so the loop asks for an enumeration.
    let (acts, stop) = svc.handle_event(BleMainLoopEvent::DeviceDiscovered(mac), 100, &mut sender);
    assert!(!stop);
    assert!(matches!(acts.as_slice(), [BleAction::ConnectAndEnumerate(m)] if *m == mac));

    // The enumeration found the read characteristic.
    let report = report_for(mac, Some(-40), vec![0xAA, 0xBB]);
    let (acts, _) = svc.handle_event(BleMainLoopEvent::DiscoveryReport(report), 101, &mut sender);
    assert!(matches!(acts.as_slice(), [BleAction::DisconnectDevice(m)] if *m == mac));

    // Second sighting of the same address: refresh only.
    let (acts, _) = svc.handle_event(BleMainLoopEvent::DeviceDiscovered(mac), 102, &mut sender);
    assert!(acts.is_empty());

    // Exactly one discovered event was reported.
    let events = sender.take_messages();
    assert_eq!(events.len(), 1);
    let (tag, body) = event_parts(&events[0]);
    assert_eq!(tag, 8);
    assert_eq!(get_last_bytes(&body, 1), Some(vec![0xAA, 0xBB]));
    assert_eq!(get_last_num(&body, 2), Some((-40i64) as u64));
}

#[test]
fn discovery_without_main_service_reports_nothing() {
    let mut svc = started(vec![9]);
    let mut sender = BleResultSender::new();
    let report = DiscoveryReport {
        mac: 5,
        rssi: Some(-30),
        name: Vec::new(),
        services: vec![DiscoveredService {
            uuid: msg_service_uuid(),
            characteristics: vec![DiscoveredCharacteristic {
                uuid: read_char(),
                read: true,
                notify: false,
                indicate: false,
                value: Some(vec![1]),
            }],
        }],
    };
    let (acts, _) = svc.handle_event(BleMainLoopEvent::DiscoveryReport(report), 1, &mut sender);
    assert!(matches!(acts.as_slice(), [BleAction::DisconnectDevice(5)]));
    assert!(sender.take_messages().is_empty());
}

#[test]
fn missing_rssi_uses_sentinel() {
    let mut svc = started(vec![9]);
    let mut sender = BleResultSender::new();
    let report = report_for(6, None, vec![7]);
    svc.handle_event(BleMainLoopEvent::DiscoveryReport(report), 1, &mut sender);
    let events = sender.take_messages();
    let (_, body) = event_parts(&events[0]);
    assert_eq!(get_last_num(&body, 2), Some(999));
}

#[test]
fn send_to_unknown_identifier_fails_with_not_find() {
    let mut svc = started(vec![1]);
    let mut sender = BleResultSender::new();
    let ev = BleMainLoopEvent::SendMessage((
        b"msg-1".to_vec(),
        vec![0xDE, 0xAD],
        vec![1],
        b"hi".to_vec(),
    ));
    let (acts, stop) = svc.handle_event(ev, 1, &mut sender);
    assert!(acts.is_empty());
    assert!(!stop);
    let events = sender.take_messages();
    assert_eq!(events.len(), 1);
    let (tag, body) = event_parts(&events[0]);
    assert_eq!(tag, 11);
    assert_eq!(get_last_bytes(&body, 1), Some(b"msg-1".to_vec()));
    assert_eq!(get_last_num(&body, 2), Some(0));
    let message = get_last_bytes(&body, 3).expect("an error message is carried");
    let text = String::from_utf8(message).expect("the error message is text");
    assert!(text.contains("not find"));
}

#[test]
fn send_to_known_peer_plans_writes_in_order() {
    let mut svc = started(vec![1]);
    let mut sender = BleResultSender::new();
    let mac: u64 = 42;
    let peer_id = vec![0xAA, 0xBB];
    let report = report_for(mac, Some(-10), peer_id.clone());
    svc.handle_event(BleMainLoopEvent::DiscoveryReport(report), 1, &mut sender);
    sender.take_messages();

    let ev = BleMainLoopEvent::SendMessage((
        b"id-a".to_vec(),
        peer_id.clone(),
        vec![1],
        b"hi".to_vec(),
    ));
    let (acts, _) = svc.handle_event(ev, 2, &mut sender);
    assert_eq!(acts.len(), 2);
    match (&acts[0], &acts[1]) {
        (
            BleAction::WriteFragments {
                mac: m,
                message_id,
                fragments,
            },
            BleAction::DisconnectDevice(m2),
        ) => {
            assert_eq!(*m, mac);
            assert_eq!(*m2, mac);
            assert_eq!(message_id, &b"id-a".to_vec());
            let expected = fragment_hex(&frame_payload(&Some(vec![1]), &Some(b"hi".to_vec())));
            assert_eq!(fragments, &expected);
        }
        _ => panic!("a send plans the writes and then the disconnect"),
    }
    assert!(sender.take_messages().is_empty());

    // The host reports the outcome; only then is the result emitted.
    let (acts, _) = svc.handle_event(
        BleMainLoopEvent::SendCompleted {
            message_id: b"id-a".to_vec(),
            success: true,
            error_message: Vec::new(),
        },
        3,
        &mut sender,
    );
    assert!(acts.is_empty());
    let events = sender.take_messages();
    assert_eq!(events.len(), 1);
    let (tag, body) = event_parts(&events[0]);
    assert_eq!(tag, 11);
    assert_eq!(get_last_num(&body, 2), Some(1));
}

#[test]
fn queue_overflow_clears_and_reports() {
    let mut svc = started(vec![1]);
    let mut sender = BleResultSender::new();
    let mac: u64 = 7;
    let peer_id = vec![5, 6];
    svc.handle_event(
        BleMainLoopEvent::DiscoveryReport(report_for(mac, Some(-1), peer_id.clone())),
        1,
        &mut sender,
    );
    sender.take_messages();

    // Each send drains its own message, so the queue stays empty; force
    // the overflow by never letting the host drain: enqueue two pending
    // messages by replaying sends whose head was already popped is not
    // possible from outside, so drive the queue through the map itself.
    let mut queue = qaul_ble::sendq::SendQueueMap::new();
    for k in 0..qaul_ble::sendq::SEND_QUEUE_CAPACITY {
        queue.enqueue(
            mac,
            qaul_ble::sendq::SendMessage {
                message_id: vec![k as u8],
                sender_id: vec![1],
                data: vec![2],
            },
        );
    }
    // The queue is at capacity; one more clears it.
    queue.enqueue(
        mac,
        qaul_ble::sendq::SendMessage {
            message_id: b"overflow".to_vec(),
            sender_id: vec![1],
            data: vec![2],
        },
    );
    assert!(queue.pop_head(mac).is_none());
}

#[test]
fn inbound_fragments_deliver_direct_received_with_peer_identifier() {
    let mut svc = started(vec![2]);
    let mut sender = BleResultSender::new();
    let mac: u64 = 0x010203040506;
    let peer_id = vec![0xAA, 0xBB];
    svc.handle_event(
        BleMainLoopEvent::DiscoveryReport(report_for(mac, Some(-20), peer_id.clone())),
        1,
        &mut sender,
    );
    sender.take_messages();

    // The write characteristic accepted a stream.
    let (acts, _) = svc.handle_event(
        BleMainLoopEvent::MsgCharEvent(CharacteristicEvent::Write(mac)),
        2,
        &mut sender,
    );
    assert!(matches!(acts.as_slice(), [BleAction::AcceptWrite(m)] if *m == mac));

    // The peer's fragments arrive; the payload is "hi" from the peer.
    let frame = frame_payload(&Some(peer_id.clone()), &Some(b"hi".to_vec()));
    for fr in fragment_hex(&frame) {
        svc.handle_event(BleMainLoopEvent::FragmentReceived((mac, fr)), 3, &mut sender);
    }
    let events = sender.take_messages();
    assert_eq!(events.len(), 1);
    let (tag, body) = event_parts(&events[0]);
    assert_eq!(tag, 10);
    assert_eq!(get_last_bytes(&body, 1), Some(peer_id));
    assert_eq!(get_last_bytes(&body, 2), Some(b"hi".to_vec()));
}

#[test]
fn inbound_from_unknown_address_uses_address_octets() {
    let mut svc = started(vec![2]);
    let mut sender = BleResultSender::new();
    let mac: u64 = 0x010203040506;
    let frame = frame_payload(&None, &Some(b"x".to_vec()));
    for fr in fragment_hex(&frame) {
        svc.handle_event(BleMainLoopEvent::FragmentReceived((mac, fr)), 3, &mut sender);
    }
    let events = sender.take_messages();
    assert_eq!(events.len(), 1);
    let (tag, body) = event_parts(&events[0]);
    assert_eq!(tag, 10);
    assert_eq!(get_last_bytes(&body, 1), Some(vec![1, 2, 3, 4, 5, 6]));
}

#[test]
fn sweep_evicts_stale_peer_exactly_once() {
    let mut svc = started(vec![2]);
    let mut sender = BleResultSender::new();
    let mac: u64 = 11;
    let peer_id = vec![0xCC];
    svc.handle_event(
        BleMainLoopEvent::DiscoveryReport(report_for(mac, Some(-5), peer_id.clone())),
        100,
        &mut sender,
    );
    sender.take_messages();

    // Within the window: nothing happens.
    let acts = svc.out_of_range_checker(150, 100, &mut sender);
    assert!(acts.is_empty());
    assert!(sender.take_messages().is_empty());

    // Past the window: one unavailable event, one removal.
    let acts = svc.out_of_range_checker(201, 100, &mut sender);
    assert!(matches!(acts.as_slice(), [BleAction::RemoveDevice(m)] if *m == mac));
    let events = sender.take_messages();
    assert_eq!(events.len(), 1);
    let (tag, body) = event_parts(&events[0]);
    assert_eq!(tag, 9);
    assert_eq!(get_last_bytes(&body, 1), Some(peer_id));

    // A later sweep has nothing left to report.
    let acts = svc.out_of_range_checker(500, 100, &mut sender);
    assert!(acts.is_empty());
    assert!(sender.take_messages().is_empty());
}

#[test]
fn info_request_round_trip() {
    let mut svc = started(vec![2]);
    let mut sender = BleResultSender::new();

    // The supervisor's info request asks the loop to query the adapter.
    let req = {
        let empty: Vec<u8> = Vec::new();
        let mut out: Vec<u8> = Vec::new();
        qaul_ble::proto::push_field_bytes(&mut out, 1, &empty);
        out
    };
    let (acts, stop) = svc.handle_event(BleMainLoopEvent::RpcEvent(req), 1, &mut sender);
    assert!(!stop);
    assert!(matches!(acts.as_slice(), [BleAction::QueryDeviceInfo]));

    // The host answers with the adapter's readings.
    let info = get_device_info(b"AA:BB".to_vec(), b"adapter".to_vec(), true, Some(100), false);
    assert!(info.adv_extended);
    assert_eq!(info.adv_extended_bytes, 100);
    let legacy = get_device_info(Vec::new(), Vec::new(), true, Some(31), false);
    assert!(!legacy.adv_extended);
    let absent = get_device_info(Vec::new(), Vec::new(), false, None, true);
    assert!(!absent.adv_extended);
    assert_eq!(absent.adv_extended_bytes, 30);

    svc.handle_event(BleMainLoopEvent::DeviceInfoReady(info), 2, &mut sender);
    let events = sender.take_messages();
    assert_eq!(events.len(), 1);
    let (tag, body) = event_parts(&events[0]);
    assert_eq!(tag, 7);
    let device = get_last_bytes(&body, 1).expect("the device record is carried");
    let dfs = read_fields(&device).expect("the device record decodes");
    assert_eq!(get_last_num(&dfs, 1), Some(1));
    assert_eq!(get_last_num(&dfs, 4), Some(1));
    assert_eq!(get_last_num(&dfs, 5), Some(1));
    assert_eq!(get_last_num(&dfs, 6), Some(100));
}

#[test]
fn rpc_direct_send_is_posted_back_in_order() {
    let mut svc = started(vec![2]);
    let mut sender = BleResultSender::new();
    let req = encode_direct_send(&BleDirectSend {
        message_id: b"a".to_vec(),
        receiver_id: vec![9],
        sender_id: vec![2],
        data: b"payload".to_vec(),
    });
    let (acts, stop) = svc.handle_event(BleMainLoopEvent::RpcEvent(req), 1, &mut sender);
    assert!(!stop);
    assert_eq!(acts.len(), 1);
    match &acts[0] {
        BleAction::PostCommand(BleMainLoopEvent::SendMessage((mid, rid, sid, data))) => {
            assert_eq!(mid, &b"a".to_vec());
            assert_eq!(rid, &vec![9]);
            assert_eq!(sid, &vec![2]);
            assert_eq!(data, &b"payload".to_vec());
        }
        _ => panic!("a direct send is posted back onto the command channel"),
    }
}

#[test]
fn rpc_stop_request_stops_the_loop() {
    let mut svc = started(vec![2]);
    let mut sender = BleResultSender::new();
    let req = {
        let empty: Vec<u8> = Vec::new();
        let mut out: Vec<u8> = Vec::new();
        qaul_ble::proto::push_field_bytes(&mut out, 3, &empty);
        out
    };
    let (acts, stop) = svc.handle_event(BleMainLoopEvent::RpcEvent(req), 1, &mut sender);
    assert!(acts.is_empty());
    assert!(stop);
}

#[test]
fn two_cores_exchange_a_payload() {
    // Two transports: the first sends "hi" to the second.
    let p1_id = vec![0x11, 0x11];
    let p2_id = vec![0x22, 0x22];
    let p1_mac: u64 = 0x0A0B0C0D0E01;
    let p2_mac: u64 = 0x0A0B0C0D0E02;
    let mut core1 = started(p1_id.clone());
    let mut core2 = started(p2_id.clone());
    let mut sender1 = BleResultSender::new();
    let mut sender2 = BleResultSender::new();

    // Each discovered the other.
    core1.handle_event(
        BleMainLoopEvent::DiscoveryReport(report_for(p2_mac, Some(-33), p2_id.clone())),
        1,
        &mut sender1,
    );
    core2.handle_event(
        BleMainLoopEvent::DiscoveryReport(report_for(p1_mac, Some(-44), p1_id.clone())),
        1,
        &mut sender2,
    );
    sender1.take_messages();
    sender2.take_messages();

    // The first core plans the write; the fragments travel to the second.
    let (acts, _) = core1.handle_event(
        BleMainLoopEvent::SendMessage((
            b"m1".to_vec(),
            p2_id.clone(),
            p1_id.clone(),
            b"hi".to_vec(),
        )),
        2,
        &mut sender1,
    );
    let fragments = match &acts[0] {
        BleAction::WriteFragments { fragments, .. } => fragments.clone(),
        _ => panic!("the send plans the writes"),
    };
    for fr in fragments {
        core2.handle_event(
            BleMainLoopEvent::FragmentReceived((p1_mac, fr)),
            3,
            &mut sender2,
        );
    }
    core1.handle_event(
        BleMainLoopEvent::SendCompleted {
            message_id: b"m1".to_vec(),
            success: true,
            error_message: Vec::new(),
        },
        4,
        &mut sender1,
    );

    // The second core reports the payload from the first's identifier.
    let received = sender2.take_messages();
    assert_eq!(received.len(), 1);
    let (tag, body) = event_parts(&received[0]);
    assert_eq!(tag, 10);
    assert_eq!(get_last_bytes(&body, 1), Some(p1_id));
    assert_eq!(get_last_bytes(&body, 2), Some(b"hi".to_vec()));

    // The first core reports the successful send.
    let sent = sender1.take_messages();
    assert_eq!(sent.len(), 1);
    let (tag, body) = event_parts(&sent[0]);
    assert_eq!(tag, 11);
    assert_eq!(get_last_bytes(&body, 1), Some(b"m1".to_vec()));
    assert_eq!(get_last_num(&body, 2), Some(1));
}

#[test]
fn blocked_address_is_ignored() {
    let idle = match IdleBleService::new(true) {
        Ok(QaulBleService::Idle(mut s)) => {
            s.device_block_list.push(77);
            s
        }
        _ => panic!(),
    };
    let mut svc = match idle.advertise_scan_listen(vec![1], true, true) {
        (QaulBleService::Started(svc), None) => svc,
        _ => panic!(),
    };
    let mut sender = BleResultSender::new();
    let (acts, _) = svc.handle_event(BleMainLoopEvent::DeviceDiscovered(77), 1, &mut sender);
    assert!(acts.is_empty());
    assert!(sender.take_messages().is_empty());
}

#[test]
fn connect_failure_removes_device() {
    let mut svc = started(vec![1]);
    let mut sender = BleResultSender::new();
    let (acts, _) = svc.handle_event(BleMainLoopEvent::ConnectFailed(13), 1, &mut sender);
    assert!(matches!(acts.as_slice(), [BleAction::RemoveDevice(13)]));
    assert!(sender.take_messages().is_empty());
}

#[test]
fn discovery_filter_names_the_service_identifiers() {
    let filter = qaul_ble::ble_uuids::get_filter();
    assert_eq!(
        filter,
        vec![
            qaul_ble::ble_uuids::main_service_uuid(),
            qaul_ble::ble_uuids::msg_service_uuid()
        ]
    );
    assert_eq!(
        qaul_ble::ble_uuids::main_service_uuid(),
        0x99e91399_80ed_4943_9bcb_39c532a76023
    );
    assert_eq!(
        qaul_ble::ble_uuids::read_char(),
        0x99e91401_80ed_4943_9bcb_39c532a76023
    );
    assert_eq!(
        qaul_ble::ble_uuids::msg_char(),
        0x99e91402_80ed_4943_9bcb_39c532a76023
    );
    assert_ne!(
        qaul_ble::ble_uuids::gd_char(),
        qaul_ble::ble_uuids::msg_char()
    );
}

#[test]
fn benign_start_reports_carry_their_texts() {
    let mut sender = BleResultSender::new();
    sender.send_result_already_running();
    sender.send_result_not_running();
    let events = sender.take_messages();
    assert_eq!(events.len(), 2);
    let (tag, body) = event_parts(&events[0]);
    assert_eq!(tag, 5);
    assert_eq!(get_last_num(&body, 1), Some(1));
    let text = String::from_utf8(get_last_bytes(&body, 3).unwrap()).unwrap();
    assert!(text.contains("already running"));
    let (tag2, body2) = event_parts(&events[1]);
    assert_eq!(tag2, 5);
    let text2 = String::from_utf8(get_last_bytes(&body2, 3).unwrap()).unwrap();
    assert!(text2.contains("not yet running"));
}

#[test]
fn send_queue_is_first_in_first_out() {
    let mut queue = qaul_ble::sendq::SendQueueMap::new();
    queue.enqueue(
        1,
        qaul_ble::sendq::SendMessage {
            message_id: b"a".to_vec(),
            sender_id: vec![],
            data: vec![],
        },
    );
    queue.enqueue(
        1,
        qaul_ble::sendq::SendMessage {
            message_id: b"b".to_vec(),
            sender_id: vec![],
            data: vec![],
        },
    );
    assert_eq!(queue.pop_head(1).unwrap().message_id, b"a".to_vec());
    assert_eq!(queue.pop_head(1).unwrap().message_id, b"b".to_vec());
    assert!(queue.pop_head(1).is_none());
}

#[test]
fn malformed_rpc_event_is_ignored() {
    let mut svc = started(vec![2]);
    let mut sender = BleResultSender::new();
    let (acts, stop) = svc.handle_event(BleMainLoopEvent::RpcEvent(vec![0x80]), 1, &mut sender);
    assert!(acts.is_empty());
    assert!(!stop);
    assert!(sender.take_messages().is_empty());
}

#[test]
fn decoded_direct_send_round_trips() {
    let req = encode_direct_send(&BleDirectSend {
        message_id: b"mid".to_vec(),
        receiver_id: b"rid".to_vec(),
        sender_id: b"sid".to_vec(),
        data: b"d".to_vec(),
    });
    match qaul_ble::rpc_utils::decode_ble_command(&req) {
        Some(qaul_ble::rpc_utils::BleRpcMessage::DirectSend(d)) => {
            assert_eq!(d.message_id, b"mid".to_vec());
            assert_eq!(d.receiver_id, b"rid".to_vec());
            assert_eq!(d.sender_id, b"sid".to_vec());
            assert_eq!(d.data, b"d".to_vec());
        }
        _ => panic!("the encoded direct send decodes to itself"),
    }
}
