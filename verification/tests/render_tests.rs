//! The diagnostic tree rendering: exact text, indentation by depth, byte
//! counts of current values.
use reseller_test::state::ResellerState;

const ROOT: &str = "0x0000000000000000000000000000000000000000000000000000000000000000";
const H1: &str = "0x1111111111111111111111111111111111111111111111111111111111111111";
const H2: &str = "0x2222222222222222222222222222222222222222222222222222222222222222";

#[test]
fn render_root_alone() {
    let state = ResellerState::new();
    assert_eq!(state.tree(ROOT, 0), ".");
}

#[test]
fn render_unknown_hash_is_empty() {
    let state = ResellerState::new();
    assert_eq!(state.tree(H1, 0), "");
}

#[test]
fn render_two_levels_indents_by_depth() {
    let mut state = ResellerState::new();
    state.add_mint(ROOT, H1.to_string(), "alice".to_string()).unwrap();
    state.add_mint(H1, H2.to_string(), "bob".to_string()).unwrap();
    assert_eq!(state.tree(ROOT, 0), ".\r\nalice\r\n    bob.alice");
}

#[test]
fn render_shows_current_value_lengths() {
    let mut state = ResellerState::new();
    state.add_mint(ROOT, H1.to_string(), "alice".to_string()).unwrap();
    state.add_note(H1, "bio".to_string(), b"hi".to_vec()).unwrap();
    state.add_note(H1, "bio".to_string(), b"twelve bytes".to_vec()).unwrap();
    state.add_fact(H1, "age".to_string(), b"9".to_vec()).unwrap();
    // Data keys come sorted; a note shows the length of its latest
    // version.
    assert_eq!(
        state.tree(ROOT, 0),
        ".\r\nalice\r\n    └─ age: 1 bytes\r\n    └─ bio: 12 bytes"
    );
}

#[test]
fn render_subtree_from_inner_node() {
    let mut state = ResellerState::new();
    state.add_mint(ROOT, H1.to_string(), "alice".to_string()).unwrap();
    state.add_mint(H1, H2.to_string(), "bob".to_string()).unwrap();
    assert_eq!(state.tree(H1, 0), "alice\r\nbob.alice");
    assert_eq!(state.tree(H2, 0), "bob.alice");
}
