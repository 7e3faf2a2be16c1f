use asn1_editor::state::State;
use asn1_editor::tree::{EditError, Tree, NO_PARENT};

fn links_consistent(t: &Tree) -> bool {
    for (id, slot) in t.nodes.iter().enumerate() {
        if let Some(tok) = slot {
            for c in tok.children.iter() {
                match &t.nodes[*c] {
                    Some(ct) if ct.parent == id => {}
                    _ => return false,
                }
            }
            if tok.parent != NO_PARENT {
                match &t.nodes[tok.parent] {
                    Some(pt) if pt.children.contains(&id) => {}
                    _ => return false,
                }
            }
        }
    }
    true
}

fn flat_tree() -> State {
    let mut st = State::from_root(0x30, vec![], String::new());
    st.add_node(0x02, "1", None, 0, String::new()).unwrap();
    st.add_node(0x02, "2", None, 0, String::new()).unwrap();
    st
}

#[test]
fn add_remove_drag_keep_links() {
    let mut st = flat_tree();
    let s = st.add_node(0x30, "", None, 1, "inner".to_string());
    assert_eq!(s, Ok(3));
    st.add_node(0x05, "", None, 3, String::new()).unwrap();
    assert!(links_consistent(&st.tree));
    st.drag_node(3, 2, 0).unwrap();
    assert!(links_consistent(&st.tree));
    st.drag_node(1, 0, 99).unwrap();
    assert!(links_consistent(&st.tree));
    st.remove_node(2).unwrap();
    assert!(links_consistent(&st.tree));
    assert!(st.tree.nodes[2].is_none());
    assert!(st.tree.nodes[3].is_none());
    assert!(st.tree.nodes[4].is_none());
    assert_eq!(st.tree.nodes[0].as_ref().unwrap().children, vec![1]);
    assert_eq!(st.add_node(0x02, "5", None, 0, String::new()), Ok(5));
    assert!(links_consistent(&st.tree));
}

#[test]
fn drag_moves_child_to_front() {
    let mut st = flat_tree();
    st.add_node(0x30, "", None, 0, String::new()).unwrap();
    for slot in st.tree.nodes.iter_mut() {
        slot.as_mut().unwrap().tainted = false;
    }
    assert_eq!(st.drag_node(1, 3, 0), Ok(()));
    let t = &st.tree;
    assert_eq!(t.nodes[3].as_ref().unwrap().children, vec![1]);
    assert_eq!(t.nodes[0].as_ref().unwrap().children, vec![2, 3]);
    assert_eq!(t.nodes[1].as_ref().unwrap().parent, 3);
    assert!(t.nodes[0].as_ref().unwrap().tainted);
    assert!(t.nodes[3].as_ref().unwrap().tainted);
    assert!(!t.nodes[2].as_ref().unwrap().tainted);
}

#[test]
fn drag_below_itself_is_refused() {
    let mut st = flat_tree();
    st.add_node(0x30, "", None, 2, String::new()).unwrap();
    assert_eq!(st.drag_node(1, 1, 0), Err(EditError::WouldCycle));
    assert_eq!(st.drag_node(0, 2, 0), Err(EditError::WouldCycle));
    assert_eq!(st.drag_node(2, 3, 0), Err(EditError::WouldCycle));
    assert_eq!(st.tree.nodes[0].as_ref().unwrap().children, vec![1, 2]);
    assert_eq!(st.drag_node(1, 3, 0), Ok(()));
    assert!(links_consistent(&st.tree));
}

#[test]
fn unknown_ids_are_refused() {
    let mut st = flat_tree();
    assert_eq!(st.add_node(0x02, "1", None, 9, String::new()), Err(EditError::UnknownParent));
    assert_eq!(st.drag_node(9, 0, 0), Err(EditError::UnknownNode));
    assert_eq!(st.drag_node(1, 9, 0), Err(EditError::UnknownNode));
    assert_eq!(st.remove_node(9), Err(EditError::UnknownNode));
    assert_eq!(st.adapt_node_length(9, 1), Err(EditError::UnknownNode));
    assert_eq!(st.adapt_node_tag(9, 1), Err(EditError::UnknownNode));
    assert_eq!(st.adapt_node_label(9, "x".to_string()), Err(EditError::UnknownNode));
    assert_eq!(st.adapt_node_content(9, "1", None), Err(EditError::UnknownNode));
    assert_eq!(st.tree.nodes.len(), 3);
}

#[test]
fn encoding_errors_leave_tree_alone() {
    let mut st = flat_tree();
    let r = st.add_node(0x02, "x", None, 0, String::new());
    assert_eq!(r, Err(EditError::Encoding(asn1_editor::value::EncodeError::InvalidInteger)));
    assert_eq!(st.tree.nodes.len(), 3);
    let r = st.adapt_node_content(1, "x", None);
    assert!(r.is_err());
    assert_eq!(st.tree.nodes[1].as_ref().unwrap().data, vec![1]);
}

#[test]
fn adapt_operations() {
    let mut st = flat_tree();
    st.adapt_node_content(2, "300", None).unwrap();
    let t = st.tree.nodes[2].as_ref().unwrap();
    assert_eq!(t.data, vec![0x01, 0x2C]);
    assert!(t.manipulated && t.tainted);
    st.adapt_node_length(1, 42).unwrap();
    let t = st.tree.nodes[1].as_ref().unwrap();
    assert!(t.manipulated_length);
    assert_eq!(t.visual_length, 42);
    assert_eq!(t.data, vec![1]);
    st.adapt_node_tag(1, 0x04).unwrap();
    let t = st.tree.nodes[1].as_ref().unwrap();
    assert_eq!(t.visual_tag, vec![0x04]);
    assert_eq!(t.tag, 0x02);
    st.adapt_node_label(1, "first".to_string()).unwrap();
    st.adapt_node_label(2, "first".to_string()).unwrap();
    assert_eq!(st.tree.lookup_label(&"first".to_string()), Some(2));
    assert_eq!(st.tree.nodes[1].as_ref().unwrap().label, "first");
}

fn token(tag: u8, children: Vec<usize>, parent: usize) -> asn1_editor::tree::Token {
    asn1_editor::tree::Token {
        tag,
        data: vec![],
        children,
        parent,
        label: String::new(),
        tainted: false,
        manipulated: false,
        manipulated_length: false,
        visual_length: 0,
        visual_tag: vec![tag],
    }
}

#[test]
fn outside_trees_are_checked() {
    let good = Tree {
        nodes: vec![Some(token(0x30, vec![1], NO_PARENT)), Some(token(0x05, vec![], 0))],
        root_id: 0,
        labels: vec![],
    };
    let st = State::from_tree(good, "roa".to_string()).unwrap();
    assert_eq!(st.obj_type, "roa");
    let dangling = Tree {
        nodes: vec![Some(token(0x30, vec![1, 2], NO_PARENT)), Some(token(0x05, vec![], 0))],
        root_id: 0,
        labels: vec![],
    };
    assert!(State::from_tree(dangling, String::new()).is_none());
    let repeated = Tree {
        nodes: vec![Some(token(0x30, vec![1, 1], NO_PARENT)), Some(token(0x05, vec![], 0))],
        root_id: 0,
        labels: vec![],
    };
    assert!(State::from_tree(repeated, String::new()).is_none());
    let orphan = Tree {
        nodes: vec![Some(token(0x30, vec![], NO_PARENT)), Some(token(0x05, vec![], 0))],
        root_id: 0,
        labels: vec![],
    };
    assert!(State::from_tree(orphan, String::new()).is_none());
}
