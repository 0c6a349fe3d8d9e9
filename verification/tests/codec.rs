//! Byte-level codecs: hex, the JSON envelope, framing and the protobuf
//! field layer.

use qaul_ble::frame::decode_delivery;
use qaul_ble::frame::fragment_hex;
use qaul_ble::frame::frame_payload;
use qaul_ble::frame::ReassemblyMap;
use qaul_ble::hex::bytes_to_hex;
use qaul_ble::hex::hex_to_bytes;
use qaul_ble::proto::get_last_bytes;
use qaul_ble::proto::get_last_num;
use qaul_ble::proto::push_field_bytes;
use qaul_ble::proto::push_field_num;
use qaul_ble::proto::push_varint;
use qaul_ble::proto::read_fields;
use qaul_ble::wire::decode_envelope;
use qaul_ble::wire::encode_envelope;

#[test]
fn hex_of_known_bytes() {
    let v: Vec<u8> = vec![0x00, 0x24, 0xab, 0xff];
    let h = bytes_to_hex(&v);
    assert_eq!(h, b"0024abff".to_vec());
}

#[test]
fn hex_matches_reference_encoder() {
    let v: Vec<u8> = (0u8..=255).collect();
    let ours = bytes_to_hex(&v);
    let reference = hex::encode(&v).into_bytes();
    assert_eq!(ours, reference);
}

#[test]
fn hex_round_trip() {
    let v: Vec<u8> = vec![1, 2, 3, 250, 255, 0];
    let h = bytes_to_hex(&v);
    let back = hex_to_bytes(&h).expect("well-formed hex");
    assert_eq!(back, v);
}

#[test]
fn hex_rejects_odd_and_uppercase() {
    assert!(hex_to_bytes(&b"abc".to_vec()).is_none());
    assert!(hex_to_bytes(&b"AB".to_vec()).is_none());
    assert!(hex_to_bytes(&b"zz".to_vec()).is_none());
}

#[test]
fn envelope_matches_reference_json() {
    let q = Some(vec![0xAAu8, 0xBB]);
    let m = Some(b"hi".to_vec());
    let ours = encode_envelope(&q, &m);
    let expected = br#"{"qaulId":[170,187],"message":[104,105]}"#.to_vec();
    assert_eq!(ours, expected);
    let parsed: serde_json::Value = serde_json::from_slice(&ours).expect("valid json");
    assert_eq!(parsed["qaulId"][0], 170);
    assert_eq!(parsed["message"][1], 105);
}

#[test]
fn envelope_none_fields_are_null() {
    let ours = encode_envelope(&None, &None);
    assert_eq!(ours, br#"{"qaulId":null,"message":null}"#.to_vec());
}

#[test]
fn envelope_round_trip() {
    let q = Some(vec![0u8, 1, 255]);
    let m = Some(vec![42u8; 30]);
    let enc = encode_envelope(&q, &m);
    let (q2, m2) = decode_envelope(&enc).expect("canonical envelope decodes");
    assert_eq!(q2, q);
    assert_eq!(m2, m);
}

#[test]
fn envelope_rejects_junk() {
    assert!(decode_envelope(&b"{}".to_vec()).is_none());
    assert!(decode_envelope(&b"".to_vec()).is_none());
    assert!(decode_envelope(&br#"{"qaulId":[256],"message":null}"#.to_vec()).is_none());
}

#[test]
fn frame_starts_and_ends_with_delimiter() {
    let f = frame_payload(&Some(vec![1u8]), &Some(b"hi".to_vec()));
    assert!(f.starts_with(b"2424"));
    assert!(f.ends_with(b"2424"));
    assert_eq!(f.len() % 2, 0);
}

#[test]
fn fragments_are_cut_at_forty() {
    let f = frame_payload(&Some(vec![7u8; 8]), &Some(vec![9u8; 50]));
    let frags = fragment_hex(&f);
    assert!(frags.len() >= 3);
    for (i, fr) in frags.iter().enumerate() {
        if i + 1 < frags.len() {
            assert_eq!(fr.len(), 40);
        } else {
            assert!(fr.len() >= 1 && fr.len() <= 40);
        }
    }
    let total: usize = frags.iter().map(|fr| fr.len()).sum();
    assert_eq!(total, f.len());
}

#[test]
fn reassembly_round_trip_single_fragment() {
    let payload = b"x".to_vec();
    let f = frame_payload(&Some(vec![1u8, 2]), &Some(payload.clone()));
    let frags = fragment_hex(&f);
    let mut map = ReassemblyMap::new();
    let mut delivered = Vec::new();
    for fr in &frags {
        if let Some(inner) = map.on_fragment(7, fr) {
            delivered.push(inner);
        }
    }
    assert_eq!(delivered.len(), 1);
    let (qid, msg) = decode_delivery(&delivered[0]).expect("delivery decodes");
    assert_eq!(qid, Some(vec![1u8, 2]));
    assert_eq!(msg, Some(payload));
}

#[test]
fn reassembly_round_trip_hundred_bytes() {
    let payload: Vec<u8> = (0u8..100).collect();
    let sender = vec![0xAAu8, 0xBB];
    let f = frame_payload(&Some(sender.clone()), &Some(payload.clone()));
    let frags = fragment_hex(&f);
    assert!(frags.len() >= 3);
    let mut map = ReassemblyMap::new();
    let mut delivered = Vec::new();
    for fr in &frags {
        if let Some(inner) = map.on_fragment(1, fr) {
            delivered.push(inner);
        }
    }
    assert_eq!(delivered.len(), 1);
    let (qid, msg) = decode_delivery(&delivered[0]).expect("delivery decodes");
    assert_eq!(qid, Some(sender));
    assert_eq!(msg, Some(payload));
}

#[test]
fn reassembly_keeps_senders_apart() {
    let f1 = frame_payload(&Some(vec![1u8]), &Some(b"one".to_vec()));
    let f2 = frame_payload(&Some(vec![2u8]), &Some(b"two".to_vec()));
    let frags1 = fragment_hex(&f1);
    let frags2 = fragment_hex(&f2);
    let mut map = ReassemblyMap::new();
    let mut got1 = Vec::new();
    let mut got2 = Vec::new();
    for (a, b) in frags1.iter().zip(frags2.iter()) {
        if let Some(inner) = map.on_fragment(10, a) {
            got1.push(inner);
        }
        if let Some(inner) = map.on_fragment(20, b) {
            got2.push(inner);
        }
    }
    for a in frags1.iter().skip(frags2.len()) {
        if let Some(inner) = map.on_fragment(10, a) {
            got1.push(inner);
        }
    }
    for b in frags2.iter().skip(frags1.len()) {
        if let Some(inner) = map.on_fragment(20, b) {
            got2.push(inner);
        }
    }
    assert_eq!(got1.len(), 1);
    assert_eq!(got2.len(), 1);
    let (_, m1) = decode_delivery(&got1[0]).unwrap();
    let (_, m2) = decode_delivery(&got2[0]).unwrap();
    assert_eq!(m1, Some(b"one".to_vec()));
    assert_eq!(m2, Some(b"two".to_vec()));
}

#[test]
fn reassembly_ignores_noise() {
    let mut map = ReassemblyMap::new();
    assert!(map.on_fragment(3, &b"ffff".to_vec()).is_none());
    assert!(map.on_fragment(3, &b"".to_vec()).is_none());
}

#[test]
fn varint_encoding_matches_protobuf() {
    let mut out: Vec<u8> = Vec::new();
    push_varint(&mut out, 0);
    assert_eq!(out, vec![0x00]);
    out.clear();
    push_varint(&mut out, 127);
    assert_eq!(out, vec![0x7f]);
    out.clear();
    push_varint(&mut out, 300);
    assert_eq!(out, vec![0xac, 0x02]);
    out.clear();
    push_varint(&mut out, u64::MAX);
    assert_eq!(
        out,
        vec![0xff, 0xff, 0xff, 0xff, 0xff, 0xff, 0xff, 0xff, 0xff, 0x01]
    );
}

#[test]
fn fields_round_trip() {
    let mut buf: Vec<u8> = Vec::new();
    push_field_num(&mut buf, 1, 300);
    push_field_bytes(&mut buf, 2, &b"abc".to_vec());
    push_field_num(&mut buf, 3, 0);
    let fs = read_fields(&buf).expect("well-formed fields");
    assert_eq!(get_last_num(&fs, 1), Some(300));
    assert_eq!(get_last_bytes(&fs, 2), Some(b"abc".to_vec()));
    assert_eq!(get_last_num(&fs, 3), Some(0));
    assert_eq!(get_last_num(&fs, 9), None);
}

#[test]
fn later_field_wins() {
    let mut buf: Vec<u8> = Vec::new();
    push_field_bytes(&mut buf, 1, &b"first".to_vec());
    push_field_bytes(&mut buf, 1, &b"second".to_vec());
    let fs = read_fields(&buf).expect("well-formed fields");
    assert_eq!(get_last_bytes(&fs, 1), Some(b"second".to_vec()));
}

#[test]
fn malformed_fields_are_rejected() {
    assert!(read_fields(&vec![0x0a, 0x05, 0x01]).is_none());
    assert!(read_fields(&vec![0x80]).is_none());
}
