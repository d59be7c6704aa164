//! Driving the index from the log stream: one record decoded and applied,
//! the backfill-then-live phases, and the filter describing what to fetch.
//!
//! The caller runs the transport: it fetches historical records, retries a
//! failed fetch after the fixed delay this module names, applies every
//! record in the order delivered — per-record errors are reported and the
//! stream continues — and persists a snapshot after each applied mutation.
use vstd::prelude::*;
use vstd::string::StringExecFns;
use crate::alists::alist_has;
use crate::decode::{DecodeOutcome, KimapEvent, KimapEventModel, LogRecord, decode_event,
    spec_decode};
use crate::errors::IndexError;
use crate::state::{ResellerState, StateModel, spec_fact, spec_label_is_fact, spec_label_present,
    spec_mint, spec_note};

verus! {

/// What one event does to the state.
pub open spec fn spec_apply_event(m: StateModel, e: KimapEventModel) -> StateModel {
    match e {
        KimapEventModel::Mint { parent_hash, child_hash, label } => spec_mint(
            m,
            parent_hash,
            child_hash,
            label,
        ),
        KimapEventModel::Note { parent_hash, label, data } => spec_note(m, parent_hash, label, data),
        KimapEventModel::Fact { parent_hash, label, data } => spec_fact(m, parent_hash, label, data),
    }
}

/// Whether one event is accepted, and the error it raises when not.
pub open spec fn spec_event_result(m: StateModel, e: KimapEventModel) -> Result<(), IndexError> {
    match e {
        KimapEventModel::Mint { parent_hash, .. } => if alist_has(m.index, parent_hash) {
            Ok(())
        } else {
            Err(IndexError::ParentNotFound)
        },
        KimapEventModel::Note { parent_hash, label, .. } => if !alist_has(m.index, parent_hash) {
            Err(IndexError::ParentNotFound)
        } else if spec_label_is_fact(m, parent_hash, label) {
            Err(IndexError::KindMismatch)
        } else {
            Ok(())
        },
        KimapEventModel::Fact { parent_hash, label, .. } => if !alist_has(m.index, parent_hash) {
            Err(IndexError::ParentNotFound)
        } else if spec_label_present(m, parent_hash, label) {
            Err(IndexError::DuplicateFact)
        } else {
            Ok(())
        },
    }
}

/// What one record does to the state: nothing unless it decodes to an
/// event, and then what the event does.
pub open spec fn spec_handle_log(m: StateModel, l: crate::decode::LogModel) -> StateModel {
    match spec_decode(l) {
        DecodeOutcome::Malformed => m,
        DecodeOutcome::Ignored => m,
        DecodeOutcome::Event(e) => spec_apply_event(m, e),
    }
}

impl ResellerState {
    /// Decodes one record and applies its event. `Ok(true)` reports an
    /// accepted mutation — the caller owes the durable store one snapshot —
    /// `Ok(false)` a record passed over in silence, and an error a record
    /// whose effect was dropped, the state untouched.
    pub fn handle_log(&mut self, rec: &LogRecord) -> (r: Result<bool, IndexError>)
        requires
            old(self).wf(),
        ensures
            final(self)@ == spec_handle_log(old(self)@, rec@),
            final(self).wf(),
            match spec_decode(rec@) {
                DecodeOutcome::Malformed => r == Err::<bool, IndexError>(IndexError::DecodeError),
                DecodeOutcome::Ignored => r == Ok::<bool, IndexError>(false),
                DecodeOutcome::Event(e) => r == (match spec_event_result(old(self)@, e) {
                    Ok(_) => Ok::<bool, IndexError>(true),
                    Err(er) => Err::<bool, IndexError>(er),
                }),
            },
    {
        let ev = match decode_event(rec) {
            Ok(ev) => ev,
            Err(e) => {
                return Err(e);
            },
        };
        match ev {
            Option::None => Ok(false),
            Option::Some(KimapEvent::Mint { parent_hash, child_hash, label }) => {
                match self.add_mint(parent_hash.as_str(), child_hash, label) {
                    Ok(()) => Ok(true),
                    Err(e) => Err(e),
                }
            },
            Option::Some(KimapEvent::Note { parent_hash, label, data }) => {
                match self.add_note(parent_hash.as_str(), label, data) {
                    Ok(()) => Ok(true),
                    Err(e) => Err(e),
                }
            },
            Option::Some(KimapEvent::Fact { parent_hash, label, data }) => {
                match self.add_fact(parent_hash.as_str(), label, data) {
                    Ok(()) => Ok(true),
                    Err(e) => Err(e),
                }
            },
        }
    }
}

/// Where the stream stands: catching up on history, or following the live
/// feed.
#[derive(Debug, Clone, Copy, PartialEq, Eq, Structural)]
pub enum SyncPhase {
    Backfill,
    Live,
}

/// The backfill-then-subscribe controller. Bootstrap never gives up: a
/// failed historical fetch is retried after a fixed delay, for as long as
/// it takes, and only a completed backfill moves the stream to the live
/// feed.
#[derive(Debug, Clone, Copy, PartialEq, Eq, Structural)]
pub struct SyncController {
    pub phase: SyncPhase,
}

impl SyncController {
    /// A fresh controller starts with the historical backfill.
    pub fn new() -> (r: SyncController)
        ensures
            r.phase == SyncPhase::Backfill,
    {
        SyncController { phase: SyncPhase::Backfill }
    }

    /// A failed fetch changes nothing and asks for the same fetch again
    /// after the fixed delay, in seconds.
    pub fn on_fetch_failed(&mut self) -> (delay_secs: u64)
        requires
            old(self).phase == SyncPhase::Backfill,
        ensures
            final(self).phase == SyncPhase::Backfill,
            delay_secs == 5,
    {
        5
    }

    /// A completed backfill moves the stream to the live feed.
    pub fn on_backfill_complete(&mut self)
        requires
            old(self).phase == SyncPhase::Backfill,
        ensures
            final(self).phase == SyncPhase::Live,
    {
        self.phase = SyncPhase::Live;
    }
}

/// The description of the log fetch: the namespace contract's address, the
/// block range from the contract's first appearance to the latest block,
/// and the three event signatures of interest.
#[derive(Debug, Clone)]
pub struct LogFilter {
    pub address_hex: String,
    pub from_block: u64,
    pub to_latest: bool,
    pub event_signatures: Vec<String>,
}

impl ResellerState {
    /// The filter that the log source is handed, in both the historical
    /// fetch and the live subscription.
    pub fn make_filter() -> (r: LogFilter)
        ensures
            r.address_hex@ == "0xcA92476B2483aBD5D82AEBF0b56701Bb2e9be658"@,
            r.from_block == 123908000,
            r.to_latest,
            r.event_signatures@.len() == 3,
            r.event_signatures@[0]@ == "Mint(bytes32,bytes32,bytes,bytes)"@,
            r.event_signatures@[1]@ == "Note(bytes32,bytes32,bytes,bytes,bytes)"@,
            r.event_signatures@[2]@ == "Fact(bytes32,bytes32,bytes,bytes,bytes)"@,
    {
        let mut event_signatures: Vec<String> = Vec::new();
        event_signatures.push(String::from_str("Mint(bytes32,bytes32,bytes,bytes)"));
        event_signatures.push(String::from_str("Note(bytes32,bytes32,bytes,bytes,bytes)"));
        event_signatures.push(String::from_str("Fact(bytes32,bytes32,bytes,bytes,bytes)"));
        LogFilter {
            address_hex: String::from_str("0xcA92476B2483aBD5D82AEBF0b56701Bb2e9be658"),
            from_block: 123908000,
            to_latest: true,
            event_signatures,
        }
    }
}

} // verus!
