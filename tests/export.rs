use asn1_editor::state::State;

fn two_integers() -> State {
    let mut st = State::from_root(0x30, vec![], String::new());
    st.add_node(0x02, "1", None, 0, String::new()).unwrap();
    st.add_node(0x02, "2", None, 0, String::new()).unwrap();
    st
}

#[test]
fn export_sequence_of_integers() {
    let st = two_integers();
    assert_eq!(st.export_bin(), vec![0x30, 6, 2, 1, 1, 2, 1, 2]);
    assert_eq!(st.export_base64(), "MAYCAQECAQI=");
}

#[test]
fn export_honours_overrides() {
    let mut st = two_integers();
    st.adapt_node_length(1, 5).unwrap();
    st.adapt_node_tag(2, 0x04).unwrap();
    assert_eq!(st.export_bin(), vec![0x30, 6, 2, 5, 1, 4, 1, 2]);
}

#[test]
fn export_long_length_and_edits() {
    let mut st = State::from_root(0x30, vec![], String::new());
    let hex = "ab".repeat(200);
    st.add_node(0x04, &hex, None, 0, String::new()).unwrap();
    let out = st.export_bin();
    assert_eq!(&out[..6], &[0x30, 0x81, 0xCB, 0x04, 0x81, 0xC8]);
    assert_eq!(out.len(), 3 + 3 + 200);
    st.remove_node(1).unwrap();
    assert_eq!(st.export_bin(), vec![0x30, 0]);
}
