use asn1_editor::state::{decode_input, to_base64, InputError, State};

#[test]
fn null_from_base64_projects_one_empty_node() {
    let bytes = decode_input("BQA=").unwrap();
    assert_eq!(bytes, vec![0x05, 0x00]);
    let st = State::from_root(bytes[0], bytes[2..].to_vec(), String::new());
    let nodes = st.get_nodes();
    assert_eq!(nodes.len(), 1);
    assert_eq!(nodes[0].tag, 0x05);
    assert!(nodes[0].content.is_empty());
    assert_eq!(nodes[0].length, 0);
}

#[test]
fn input_decoding() {
    assert_eq!(decode_input(" 0x0500 ").unwrap(), vec![5, 0]);
    assert_eq!(decode_input("3003020101").unwrap(), vec![0x30, 3, 2, 1, 1]);
    assert_eq!(decode_input("!!"), Err(InputError::InvalidData));
    assert_eq!(decode_input("abc"), Err(InputError::InvalidData));
    assert_eq!(decode_input("QR=="), Err(InputError::InvalidBase64));
    assert_eq!(to_base64(&vec![5, 0]), "BQA=");
}

#[test]
fn projection_is_preorder_and_stable() {
    let mut st = State::from_root(0x30, vec![], String::new());
    st.add_node(0x30, "", None, 0, String::new()).unwrap();
    st.add_node(0x02, "5", None, 1, String::new()).unwrap();
    st.add_node(0x05, "", None, 0, String::new()).unwrap();
    let a = st.get_nodes();
    let b = st.get_nodes();
    let ids: Vec<usize> = a.iter().map(|n| n.id).collect();
    assert_eq!(ids, vec![0, 1, 2, 3]);
    assert_eq!(a.len(), b.len());
    for (x, y) in a.iter().zip(b.iter()) {
        assert_eq!(x.id, y.id);
        assert_eq!(x.content, y.content);
        assert_eq!(x.children, y.children);
        assert_eq!(x.parent, y.parent);
        assert_eq!(x.length, y.length);
    }
    assert_eq!(a[2].content, vec![5]);
    assert_eq!(a[0].length, 7);
    assert_eq!(a[0].length_bytes, vec![7]);
    assert_eq!(a[1].length, 3);
    assert_eq!(a[2].length, 1);
    assert_eq!(a[3].length, 0);
    assert_eq!(st.export_bin(), vec![0x30, 7, 0x30, 3, 2, 1, 5, 5, 0]);
}

#[test]
fn rrdp_entry_fields() {
    let e = asn1_editor::state::RrdpEntry::new("rsync://x/a.roa".to_string(), "AAEC".to_string());
    assert_eq!(e.uri(), "rsync://x/a.roa");
    assert_eq!(e.content(), "AAEC");
}
