//! Serialising the tree: each node as its tag bytes, its definite length
//! and its content, a constructed node's content being its children's
//! encodings in order. Lengths are computed afresh on every call.

use vstd::prelude::*;
use crate::tree::{kids, live, Token, Tree};
use crate::value::{in_to_byt, magnitude_bytes};

verus! {

/// A definite length: one byte below 128, else `0x80` plus the count of
/// the big-endian bytes that follow.
pub open spec fn len_bytes(n: nat) -> Seq<u8> {
    if n < 128 {
        seq![n as u8]
    } else {
        seq![(0x80 + magnitude_bytes(n).len()) as u8] + magnitude_bytes(n)
    }
}

/// The length a node writes: its override when one is set, else the
/// length of its content.
pub open spec fn written_length(t: Token, content: Seq<u8>) -> nat {
    if t.manipulated_length {
        t.visual_length as nat
    } else {
        content.len()
    }
}

/// The encoding of node `id`, `fuel` levels deep.
pub open spec fn node_der(s: Seq<Option<Token>>, id: int, fuel: nat) -> Seq<u8>
    decreases fuel, 2nat,
{
    if fuel == 0 || !live(s, id) {
        Seq::empty()
    } else {
        let t = s[id]->0;
        let c = node_content(s, id, fuel);
        t.visual_tag@ + len_bytes(written_length(t, c)) + c
    }
}

/// The content of live node `id`: its data for a leaf, else its children's
/// encodings, `fuel` levels deep.
pub open spec fn node_content(s: Seq<Option<Token>>, id: int, fuel: nat) -> Seq<u8>
    decreases fuel, 1nat,
{
    if s[id]->0.children@.len() == 0 || fuel == 0 {
        s[id]->0.data@
    } else {
        children_der(s, kids(s, id), (fuel - 1) as nat)
    }
}

/// The encodings of the nodes `ks`, one after another.
pub open spec fn children_der(s: Seq<Option<Token>>, ks: Seq<usize>, fuel: nat) -> Seq<u8>
    decreases fuel, ks.len() + 3,
{
    if ks.len() == 0 {
        Seq::empty()
    } else {
        children_der(s, ks.drop_last(), fuel) + node_der(s, ks.last() as int, fuel)
    }
}

/// The encoding of the tree from its root.
pub open spec fn tree_der(tree: &Tree) -> Seq<u8> {
    node_der(tree.nodes@, tree.root_id as int, tree.nodes@.len())
}

proof fn lemma_magnitude_len(n: nat, k: nat)
    requires
        n < crate::encode::pow256(k),
    ensures
        magnitude_bytes(n).len() <= k,
    decreases k,
{
    if n > 0 {
        assert(k > 0);
        assert(n / 256 < crate::encode::pow256((k - 1) as nat));
        lemma_magnitude_len(n / 256, (k - 1) as nat);
    }
}

pub fn length_bytes(n: usize) -> (r: Vec<u8>)
    ensures
        r@ == len_bytes(n as nat),
{
    if n < 128 {
        let r = vec![n as u8];
        assert(r@ =~= seq![n as u8]);
        r
    } else {
        let mut m = in_to_byt(n as u64);
        proof {
            assert(crate::encode::pow256(8) == 0x1_0000_0000_0000_0000) by {
                reveal_with_fuel(crate::encode::pow256, 9);
            }
            lemma_magnitude_len(n as nat, 8);
        }
        let mut r = vec![(0x80 + m.len()) as u8];
        r.append(&mut m);
        assert(r@ =~= len_bytes(n as nat));
        r
    }
}

/// The content of live node `node_id`; see `node_content`.
pub fn der_content(tree: &Tree, node_id: usize, fuel: usize) -> (r: Vec<u8>)
    requires
        live(tree.nodes@, node_id as int),
    ensures
        r@ == node_content(tree.nodes@, node_id as int, fuel as nat),
    decreases fuel, 1nat,
{
    let ghost s = tree.nodes@;
    let t = match &tree.nodes[node_id] {
        Some(t) => t,
        None => {
            return Vec::new();
        },
    };
    if t.children.len() == 0 || fuel == 0 {
        return vstd::slice::slice_to_vec(t.data.as_slice());
    }
    let mut content: Vec<u8> = Vec::new();
    let ghost k = kids(s, node_id as int);
    let mut j: usize = 0;
    assert(k.subrange(0, 0) =~= Seq::<usize>::empty());
    while j < t.children.len()
        invariant
            s == tree.nodes@,
            fuel > 0,
            j <= k.len(),
            t.children@ == k,
            content@ == children_der(s, k.subrange(0, j as int), (fuel - 1) as nat),
        decreases k.len() - j,
    {
        let mut c = der_node(tree, t.children[j], fuel - 1);
        content.append(&mut c);
        assert(k.subrange(0, j + 1).drop_last() =~= k.subrange(0, j as int));
        j = j + 1;
    }
    assert(k.subrange(0, j as int) =~= k);
    content
}

/// The encoding of node `node_id`, at most `fuel` levels deep.
pub fn der_node(tree: &Tree, node_id: usize, fuel: usize) -> (r: Vec<u8>)
    ensures
        r@ == node_der(tree.nodes@, node_id as int, fuel as nat),
    decreases fuel, 2nat,
{
    if fuel == 0 || !tree.contains(node_id) {
        return Vec::new();
    }
    let t = match &tree.nodes[node_id] {
        Some(t) => t,
        None => {
            return Vec::new();
        },
    };
    let mut content = der_content(tree, node_id, fuel);
    let n = if t.manipulated_length {
        t.visual_length
    } else {
        content.len()
    };
    let mut r = vstd::slice::slice_to_vec(t.visual_tag.as_slice());
    let mut lb = length_bytes(n);
    r.append(&mut lb);
    r.append(&mut content);
    r
}

/// The encoding of the whole tree, from its root.
pub fn der_tree(tree: &Tree) -> (r: Vec<u8>)
    ensures
        r@ == tree_der(tree),
{
    der_node(tree, tree.root_id, tree.nodes.len())
}

} // verus!
