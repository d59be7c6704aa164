//! The index's three mutations: minting, notes, facts, and how they fail.
use reseller_test::state::ResellerState;
use reseller_test::node::{DataKey, Node};
use reseller_test::errors::IndexError;

const ROOT: &str = "0x0000000000000000000000000000000000000000000000000000000000000000";
const H1: &str = "0x1111111111111111111111111111111111111111111111111111111111111111";
const H2: &str = "0x2222222222222222222222222222222222222222222222222222222222222222";

fn lookup_name(state: &ResellerState, name: &str) -> Option<String> {
    for (k, v) in &state.names {
        if k == name {
            return Some(v.clone());
        }
    }
    None
}

fn lookup_node<'a>(state: &'a ResellerState, hash: &str) -> Option<&'a Node> {
    for (k, n) in &state.index {
        if k == hash {
            return Some(n);
        }
    }
    None
}

fn data_key<'a>(node: &'a Node, label: &str) -> Option<&'a DataKey> {
    for (k, d) in &node.data_keys {
        if k == label {
            return Some(d);
        }
    }
    None
}

#[test]
fn fresh_state_holds_only_the_root() {
    let state = ResellerState::new();
    assert_eq!(state.index.len(), 1);
    assert_eq!(lookup_name(&state, ""), Some(ROOT.to_string()));
    let root = lookup_node(&state, ROOT).unwrap();
    assert_eq!(root.name, "");
    assert_eq!(root.parent_path, "");
    assert!(root.child_names.is_empty());
    assert!(root.data_keys.is_empty());
}

#[test]
fn mint_two_levels() {
    let mut state = ResellerState::new();
    state.add_mint(ROOT, H1.to_string(), "alice".to_string()).unwrap();
    state.add_mint(H1, H2.to_string(), "bob".to_string()).unwrap();

    assert_eq!(lookup_name(&state, "alice"), Some(H1.to_string()));
    assert_eq!(lookup_name(&state, "bob.alice"), Some(H2.to_string()));

    let alice = lookup_node(&state, H1).unwrap();
    assert_eq!(alice.name, "alice");
    assert_eq!(alice.parent_path, "");
    assert_eq!(alice.child_names, vec!["bob.alice".to_string()]);

    let bob = lookup_node(&state, H2).unwrap();
    assert_eq!(bob.name, "bob");
    assert_eq!(bob.parent_path, ".alice");
    assert!(bob.child_names.is_empty());
}

#[test]
fn mint_keeps_children_sorted() {
    let mut state = ResellerState::new();
    state.add_mint(ROOT, H1.to_string(), "zeta".to_string()).unwrap();
    state.add_mint(ROOT, H2.to_string(), "alpha".to_string()).unwrap();
    let root = lookup_node(&state, ROOT).unwrap();
    assert_eq!(root.child_names, vec!["alpha".to_string(), "zeta".to_string()]);
}

#[test]
fn note_appends_versions() {
    let mut state = ResellerState::new();
    state.add_mint(ROOT, H1.to_string(), "alice".to_string()).unwrap();
    state.add_note(H1, "bio".to_string(), b"a".to_vec()).unwrap();
    state.add_note(H1, "bio".to_string(), b"b".to_vec()).unwrap();
    let alice = lookup_node(&state, H1).unwrap();
    assert_eq!(
        data_key(alice, "bio"),
        Some(&DataKey::Note(vec![b"a".to_vec(), b"b".to_vec()]))
    );
}

#[test]
fn fact_is_write_once() {
    let mut state = ResellerState::new();
    state.add_mint(ROOT, H1.to_string(), "alice".to_string()).unwrap();
    state.add_fact(H1, "owner".to_string(), b"x".to_vec()).unwrap();
    let second = state.add_fact(H1, "owner".to_string(), b"y".to_vec());
    assert_eq!(second, Err(IndexError::DuplicateFact));
    let alice = lookup_node(&state, H1).unwrap();
    assert_eq!(data_key(alice, "owner"), Some(&DataKey::Fact(b"x".to_vec())));
}

#[test]
fn note_on_fact_label_is_kind_mismatch() {
    let mut state = ResellerState::new();
    state.add_mint(ROOT, H1.to_string(), "alice".to_string()).unwrap();
    state.add_fact(H1, "owner".to_string(), b"x".to_vec()).unwrap();
    let names_before = state.names.clone();
    let index_before = state.index.clone();
    let r = state.add_note(H1, "owner".to_string(), b"y".to_vec());
    assert_eq!(r, Err(IndexError::KindMismatch));
    assert_eq!(state.names, names_before);
    assert_eq!(state.index, index_before);
}

#[test]
fn fact_on_note_label_is_duplicate_fact() {
    let mut state = ResellerState::new();
    state.add_mint(ROOT, H1.to_string(), "alice".to_string()).unwrap();
    state.add_note(H1, "bio".to_string(), b"a".to_vec()).unwrap();
    let r = state.add_fact(H1, "bio".to_string(), b"b".to_vec());
    assert_eq!(r, Err(IndexError::DuplicateFact));
    let alice = lookup_node(&state, H1).unwrap();
    assert_eq!(data_key(alice, "bio"), Some(&DataKey::Note(vec![b"a".to_vec()])));
}

#[test]
fn unknown_parent_leaves_state_untouched() {
    let mut state = ResellerState::new();
    state.add_mint(ROOT, H1.to_string(), "alice".to_string()).unwrap();
    let names_before = state.names.clone();
    let index_before = state.index.clone();

    let m = state.add_mint(H2, "0xdd".to_string(), "ghost".to_string());
    assert_eq!(m, Err(IndexError::ParentNotFound));
    let n = state.add_note(H2, "bio".to_string(), b"a".to_vec());
    assert_eq!(n, Err(IndexError::ParentNotFound));
    let f = state.add_fact(H2, "owner".to_string(), b"x".to_vec());
    assert_eq!(f, Err(IndexError::ParentNotFound));

    assert_eq!(state.names, names_before);
    assert_eq!(state.index, index_before);
}

#[test]
fn redelivered_mint_overwrites_the_child() {
    let mut state = ResellerState::new();
    state.add_mint(ROOT, H1.to_string(), "alice".to_string()).unwrap();
    state.add_mint(H1, H2.to_string(), "bob".to_string()).unwrap();
    state.add_note(H1, "bio".to_string(), b"a".to_vec()).unwrap();

    // The same mint again: accepted, and the child's node is reset — not
    // an idempotent no-op.
    state.add_mint(ROOT, H1.to_string(), "alice".to_string()).unwrap();
    let alice = lookup_node(&state, H1).unwrap();
    assert!(alice.child_names.is_empty());
    assert!(alice.data_keys.is_empty());
    // The grandchild's node still exists, now orphaned from its parent's
    // child list.
    assert!(lookup_node(&state, H2).is_some());
}
