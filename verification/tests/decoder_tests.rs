//! The event decoder: signature dispatch, ABI field extraction, UTF-8
//! labels, and the failure modes of malformed records.
use reseller_test::decode::{decode_event, KimapEvent, LogRecord};
use reseller_test::errors::IndexError;
use reseller_test::state::ResellerState;

const MINT_SIG: &str = "b59dae5eda69178326b6517bb1aa33e208bf2ac347e30d3a5daf0ecb6249f7b1";
const NOTE_SIG: &str = "e40d9f1ec78dfc3c5a94c3edae28058ba092a8f65ce8a199731840a3d20f82f4";
const FACT_SIG: &str = "6df41fff09a97e34e341514998993ce9f4542c3fa8358931a96c9fff178c3adb";
const ROOT: &str = "0x0000000000000000000000000000000000000000000000000000000000000000";

fn hex_bytes(s: &str) -> Vec<u8> {
    (0..s.len() / 2).map(|i| u8::from_str_radix(&s[2 * i..2 * i + 2], 16).unwrap()).collect()
}

fn word(n: u64) -> Vec<u8> {
    let mut w = vec![0u8; 24];
    w.extend_from_slice(&n.to_be_bytes());
    w
}

fn padded(bytes: &[u8]) -> Vec<u8> {
    let mut p = bytes.to_vec();
    while p.len() % 32 != 0 {
        p.push(0);
    }
    p
}

fn one_bytes_payload(label: &[u8]) -> Vec<u8> {
    let mut d = word(32);
    d.extend(word(label.len() as u64));
    d.extend(padded(label));
    d
}

fn two_bytes_payload(label: &[u8], data: &[u8]) -> Vec<u8> {
    let label_padded = padded(label);
    let mut d = word(64);
    d.extend(word(96 + label_padded.len() as u64));
    d.extend(word(label.len() as u64));
    d.extend(&label_padded);
    d.extend(word(data.len() as u64));
    d.extend(padded(data));
    d
}

fn topics(sig: &str, parent: &[u8; 32], child: &[u8; 32]) -> Vec<Vec<u8>> {
    vec![hex_bytes(sig), parent.to_vec(), child.to_vec(), vec![0u8; 32]]
}

#[test]
fn decode_mint_event() {
    let rec = LogRecord {
        topics: topics(MINT_SIG, &[0u8; 32], &[0x11u8; 32]),
        data: one_bytes_payload(b"alice"),
    };
    let ev = decode_event(&rec).unwrap().unwrap();
    assert_eq!(
        ev,
        KimapEvent::Mint {
            parent_hash: ROOT.to_string(),
            child_hash: format!("0x{}", "11".repeat(32)),
            label: "alice".to_string(),
        }
    );
}

#[test]
fn decode_note_event() {
    let rec = LogRecord {
        topics: topics(NOTE_SIG, &[0x11u8; 32], &[0x22u8; 32]),
        data: two_bytes_payload(b"bio", b"hi"),
    };
    let ev = decode_event(&rec).unwrap().unwrap();
    assert_eq!(
        ev,
        KimapEvent::Note {
            parent_hash: format!("0x{}", "11".repeat(32)),
            label: "bio".to_string(),
            data: b"hi".to_vec(),
        }
    );
}

#[test]
fn decode_fact_event() {
    let rec = LogRecord {
        topics: topics(FACT_SIG, &[0x11u8; 32], &[0x22u8; 32]),
        data: two_bytes_payload(b"owner", b"xyz"),
    };
    let ev = decode_event(&rec).unwrap().unwrap();
    assert_eq!(
        ev,
        KimapEvent::Fact {
            parent_hash: format!("0x{}", "11".repeat(32)),
            label: "owner".to_string(),
            data: b"xyz".to_vec(),
        }
    );
}

#[test]
fn decode_keeps_unicode_labels() {
    let rec = LogRecord {
        topics: topics(MINT_SIG, &[0u8; 32], &[0x11u8; 32]),
        data: one_bytes_payload("café".as_bytes()),
    };
    let ev = decode_event(&rec).unwrap().unwrap();
    match ev {
        KimapEvent::Mint { label, .. } => assert_eq!(label, "café"),
        _ => panic!("expected a mint"),
    }
}

#[test]
fn unknown_signature_is_ignored() {
    let rec = LogRecord {
        topics: topics(&"ab".repeat(32), &[0u8; 32], &[0x11u8; 32]),
        data: one_bytes_payload(b"alice"),
    };
    assert_eq!(decode_event(&rec).unwrap(), None);
}

#[test]
fn missing_first_topic_is_a_decode_error() {
    let rec = LogRecord { topics: vec![], data: one_bytes_payload(b"alice") };
    assert_eq!(decode_event(&rec), Err(IndexError::DecodeError));
}

#[test]
fn wrong_topic_count_is_a_decode_error() {
    let rec = LogRecord {
        topics: vec![hex_bytes(MINT_SIG), vec![0u8; 32]],
        data: one_bytes_payload(b"alice"),
    };
    assert_eq!(decode_event(&rec), Err(IndexError::DecodeError));
}

#[test]
fn truncated_payload_is_a_decode_error() {
    let mut data = one_bytes_payload(b"alice");
    data.truncate(40);
    let rec = LogRecord { topics: topics(MINT_SIG, &[0u8; 32], &[0x11u8; 32]), data };
    assert_eq!(decode_event(&rec), Err(IndexError::DecodeError));
}

#[test]
fn wrong_offset_word_is_a_decode_error() {
    let mut data = one_bytes_payload(b"alice");
    data[31] = 64;
    let rec = LogRecord { topics: topics(MINT_SIG, &[0u8; 32], &[0x11u8; 32]), data };
    assert_eq!(decode_event(&rec), Err(IndexError::DecodeError));
}

#[test]
fn invalid_utf8_label_is_a_decode_error() {
    let rec = LogRecord {
        topics: topics(MINT_SIG, &[0u8; 32], &[0x11u8; 32]),
        data: one_bytes_payload(&[0xff, 0xfe]),
    };
    assert_eq!(decode_event(&rec), Err(IndexError::DecodeError));
}

#[test]
fn handle_log_applies_a_mint() {
    let mut state = ResellerState::new();
    let rec = LogRecord {
        topics: topics(MINT_SIG, &[0u8; 32], &[0x11u8; 32]),
        data: one_bytes_payload(b"alice"),
    };
    assert_eq!(state.handle_log(&rec), Ok(true));
    let child = format!("0x{}", "11".repeat(32));
    assert!(state.names.iter().any(|(k, v)| k == "alice" && *v == child));
}

#[test]
fn handle_log_passes_unknown_signatures_in_silence() {
    let mut state = ResellerState::new();
    let rec = LogRecord {
        topics: topics(&"ab".repeat(32), &[0u8; 32], &[0x11u8; 32]),
        data: one_bytes_payload(b"alice"),
    };
    assert_eq!(state.handle_log(&rec), Ok(false));
    assert_eq!(state.index.len(), 1);
}

#[test]
fn handle_log_drops_an_orphan_event() {
    let mut state = ResellerState::new();
    let rec = LogRecord {
        topics: topics(NOTE_SIG, &[0x11u8; 32], &[0x22u8; 32]),
        data: two_bytes_payload(b"bio", b"hi"),
    };
    assert_eq!(state.handle_log(&rec), Err(IndexError::ParentNotFound));
    assert_eq!(state.index.len(), 1);
}
