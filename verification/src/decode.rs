//! The event decoder: one opaque log record — its topics and its payload —
//! becomes one of the three namespace events, dispatched on the record's
//! first topic. A record carrying any other signature is ignored; a record
//! whose shape or label is malformed is a decode error.
use vstd::prelude::*;
use vstd::utf8::{decode_utf8, valid_utf8};
use crate::abi::{parse_one_bytes, parse_two_bytes, spec_abi_one_bytes, spec_abi_two_bytes};
use crate::errors::IndexError;
use crate::hex::{hex_of, hex_string};
use crate::node::blobs_model;
use crate::strs::str_eq;

verus! {

/// One log record as the source delivers it: the topic words and the
/// ABI-encoded payload.
#[derive(Debug, Clone)]
pub struct LogRecord {
    pub topics: Vec<Vec<u8>>,
    pub data: Vec<u8>,
}

/// The mathematical value of a record.
#[verifier::ext_equal]
pub struct LogModel {
    pub topics: Seq<Seq<u8>>,
    pub data: Seq<u8>,
}

impl View for LogRecord {
    type V = LogModel;

    open spec fn view(&self) -> LogModel {
        LogModel { topics: blobs_model(self.topics@), data: self.data@ }
    }
}

/// One decoded namespace event.
#[derive(Debug, Clone, PartialEq)]
pub enum KimapEvent {
    /// A new entry named `label` minted under `parent_hash`, addressed by
    /// `child_hash`.
    Mint { parent_hash: String, child_hash: String, label: String },
    /// A versioned annotation written to `label` on `parent_hash`.
    Note { parent_hash: String, label: String, data: Vec<u8> },
    /// An immutable annotation written to `label` on `parent_hash`.
    Fact { parent_hash: String, label: String, data: Vec<u8> },
}

/// The mathematical value of an event.
#[verifier::ext_equal]
pub enum KimapEventModel {
    Mint { parent_hash: Seq<char>, child_hash: Seq<char>, label: Seq<char> },
    Note { parent_hash: Seq<char>, label: Seq<char>, data: Seq<u8> },
    Fact { parent_hash: Seq<char>, label: Seq<char>, data: Seq<u8> },
}

impl View for KimapEvent {
    type V = KimapEventModel;

    open spec fn view(&self) -> KimapEventModel {
        match self {
            KimapEvent::Mint { parent_hash, child_hash, label } => KimapEventModel::Mint {
                parent_hash: parent_hash@,
                child_hash: child_hash@,
                label: label@,
            },
            KimapEvent::Note { parent_hash, label, data } => KimapEventModel::Note {
                parent_hash: parent_hash@,
                label: label@,
                data: data@,
            },
            KimapEvent::Fact { parent_hash, label, data } => KimapEventModel::Fact {
                parent_hash: parent_hash@,
                label: label@,
                data: data@,
            },
        }
    }
}

/// What decoding a record yields.
#[verifier::ext_equal]
pub enum DecodeOutcome {
    /// No first topic, a wrong topic shape for a known signature, a
    /// malformed payload, or a label that is not UTF-8.
    Malformed,
    /// A signature of no interest: the record is passed over in silence.
    Ignored,
    /// One well-formed namespace event.
    Event(KimapEventModel),
}

/// The signature topic of a mint event, written in hexadecimal.
pub open spec fn mint_sig_hex() -> Seq<char> {
    "0xb59dae5eda69178326b6517bb1aa33e208bf2ac347e30d3a5daf0ecb6249f7b1"@
}

/// The signature topic of a note event, written in hexadecimal.
pub open spec fn note_sig_hex() -> Seq<char> {
    "0xe40d9f1ec78dfc3c5a94c3edae28058ba092a8f65ce8a199731840a3d20f82f4"@
}

/// The signature topic of a fact event, written in hexadecimal.
pub open spec fn fact_sig_hex() -> Seq<char> {
    "0x6df41fff09a97e34e341514998993ce9f4542c3fa8358931a96c9fff178c3adb"@
}

/// A record of a known signature is well shaped when it carries the three
/// indexed words after the signature, each a 32-byte hash.
pub open spec fn topics_well_shaped(l: LogModel) -> bool {
    l.topics.len() == 4 && l.topics[1].len() == 32 && l.topics[2].len() == 32
}

/// What one record decodes to.
pub open spec fn spec_decode(l: LogModel) -> DecodeOutcome {
    if l.topics.len() == 0 {
        DecodeOutcome::Malformed
    } else if hex_of(l.topics[0]) == mint_sig_hex() {
        if !topics_well_shaped(l) {
            DecodeOutcome::Malformed
        } else {
            match spec_abi_one_bytes(l.data) {
                Option::None => DecodeOutcome::Malformed,
                Option::Some(label) => if valid_utf8(label) {
                    DecodeOutcome::Event(
                        KimapEventModel::Mint {
                            parent_hash: hex_of(l.topics[1]),
                            child_hash: hex_of(l.topics[2]),
                            label: decode_utf8(label),
                        },
                    )
                } else {
                    DecodeOutcome::Malformed
                },
            }
        }
    } else if hex_of(l.topics[0]) == note_sig_hex() {
        spec_decode_annotation(l, true)
    } else if hex_of(l.topics[0]) == fact_sig_hex() {
        spec_decode_annotation(l, false)
    } else {
        DecodeOutcome::Ignored
    }
}

/// The shared shape of the two annotation events: a label and a payload.
pub open spec fn spec_decode_annotation(l: LogModel, is_note: bool) -> DecodeOutcome {
    if !topics_well_shaped(l) {
        DecodeOutcome::Malformed
    } else {
        match spec_abi_two_bytes(l.data) {
            Option::None => DecodeOutcome::Malformed,
            Option::Some(fields) => if valid_utf8(fields.0) {
                DecodeOutcome::Event(
                    if is_note {
                        KimapEventModel::Note {
                            parent_hash: hex_of(l.topics[1]),
                            label: decode_utf8(fields.0),
                            data: fields.1,
                        }
                    } else {
                        KimapEventModel::Fact {
                            parent_hash: hex_of(l.topics[1]),
                            label: decode_utf8(fields.0),
                            data: fields.1,
                        }
                    },
                )
            } else {
                DecodeOutcome::Malformed
            },
        }
    }
}

/// Relies on `String::from_utf8`: the standard library documents that it
/// returns `Ok` exactly when the bytes are valid UTF-8, and that the string
/// then holds those bytes' decoding.
#[verifier::external_body]
pub(crate) fn utf8_to_string(bytes: Vec<u8>) -> (r: Option<String>)
    ensures
        r is Some <==> valid_utf8(bytes@),
        r is Some ==> r->0@ == decode_utf8(bytes@),
{
    String::from_utf8(bytes).ok()
}

/// Decodes one log record: `Ok(Some(event))` for a well-formed record of a
/// known signature, `Ok(None)` for an unrelated signature, and
/// `DecodeError` for a malformed record.
pub fn decode_event(rec: &LogRecord) -> (r: Result<Option<KimapEvent>, IndexError>)
    ensures
        match spec_decode(rec@) {
            DecodeOutcome::Malformed => r == Err::<Option<KimapEvent>, IndexError>(
                IndexError::DecodeError,
            ),
            DecodeOutcome::Ignored => r matches Ok(o) && o is None,
            DecodeOutcome::Event(e) => r matches Ok(o) && o matches Some(ev) && ev@ == e,
        },
{
    if rec.topics.len() == 0 {
        return Err(IndexError::DecodeError);
    }
    let t0 = hex_string(&rec.topics[0]);
    if str_eq(
        t0.as_str(),
        "0xb59dae5eda69178326b6517bb1aa33e208bf2ac347e30d3a5daf0ecb6249f7b1",
    ) {
        if !(rec.topics.len() == 4 && rec.topics[1].len() == 32 && rec.topics[2].len() == 32) {
            return Err(IndexError::DecodeError);
        }
        let label_bytes = match parse_one_bytes(&rec.data) {
            Option::Some(b) => b,
            Option::None => {
                return Err(IndexError::DecodeError);
            },
        };
        let label = match utf8_to_string(label_bytes) {
            Option::Some(s) => s,
            Option::None => {
                return Err(IndexError::DecodeError);
            },
        };
        let parent_hash = hex_string(&rec.topics[1]);
        let child_hash = hex_string(&rec.topics[2]);
        Ok(Some(KimapEvent::Mint { parent_hash, child_hash, label }))
    } else if str_eq(
        t0.as_str(),
        "0xe40d9f1ec78dfc3c5a94c3edae28058ba092a8f65ce8a199731840a3d20f82f4",
    ) {
        match decode_annotation(rec, true) {
            Ok(ev) => Ok(Some(ev)),
            Err(e) => Err(e),
        }
    } else if str_eq(
        t0.as_str(),
        "0x6df41fff09a97e34e341514998993ce9f4542c3fa8358931a96c9fff178c3adb",
    ) {
        match decode_annotation(rec, false) {
            Ok(ev) => Ok(Some(ev)),
            Err(e) => Err(e),
        }
    } else {
        Ok(None)
    }
}

/// Decodes the label and payload shared by the two annotation events.
fn decode_annotation(rec: &LogRecord, is_note: bool) -> (r: Result<KimapEvent, IndexError>)
    requires
        rec@.topics.len() > 0,
    ensures
        match spec_decode_annotation(rec@, is_note) {
            DecodeOutcome::Malformed => r == Err::<KimapEvent, IndexError>(IndexError::DecodeError),
            DecodeOutcome::Event(e) => r matches Ok(ev) && ev@ == e,
            DecodeOutcome::Ignored => false,
        },
{
    if !(rec.topics.len() == 4 && rec.topics[1].len() == 32 && rec.topics[2].len() == 32) {
        return Err(IndexError::DecodeError);
    }
    let fields = match parse_two_bytes(&rec.data) {
        Option::Some(f) => f,
        Option::None => {
            return Err(IndexError::DecodeError);
        },
    };
    let (label_bytes, payload) = fields;
    let label = match utf8_to_string(label_bytes) {
        Option::Some(s) => s,
        Option::None => {
            return Err(IndexError::DecodeError);
        },
    };
    let parent_hash = hex_string(&rec.topics[1]);
    if is_note {
        Ok(KimapEvent::Note { parent_hash, label, data: payload })
    } else {
        Ok(KimapEvent::Fact { parent_hash, label, data: payload })
    }
}

} // verus!
