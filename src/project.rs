//! A read-only flattening of the tree into display records, in pre-order.

use vstd::prelude::*;
use crate::der::{der_content, len_bytes, length_bytes, node_content, written_length};
use crate::tree::{kids, live, Token, Tree};

verus! {

/// What a caller sees of one node.
#[derive(Debug)]
pub struct Node {
    pub id: usize,
    pub label: String,
    /// The declared tag.
    pub tag: u8,
    /// The tag bytes written for the node.
    pub tag_bytes: Vec<u8>,
    /// The length the node writes: the override when one is set, else the
    /// byte count of its content (its children's encodings for a node with
    /// children).
    pub length: usize,
    /// That length as its definite-length bytes.
    pub length_bytes: Vec<u8>,
    pub content: Vec<u8>,
    pub children: Vec<usize>,
    pub parent: usize,
}

/// The length node `id` writes, its content taken in full.
pub open spec fn shown_length(s: Seq<Option<Token>>, id: int) -> nat {
    written_length(s[id]->0, node_content(s, id, s.len()))
}

/// `n` is the record of node `id` of `s`.
pub open spec fn record_of(n: Node, s: Seq<Option<Token>>, id: int) -> bool {
    let t = s[id]->0;
    &&& n.id == id
    &&& n.label@ == t.label@
    &&& n.tag == t.tag
    &&& n.tag_bytes@ == t.visual_tag@
    &&& n.length == shown_length(s, id)
    &&& n.length_bytes@ == len_bytes(shown_length(s, id))
    &&& n.content@ == t.data@
    &&& n.children@ == t.children@
    &&& n.parent == t.parent
}

/// The ids of the subtree of `id` in pre-order, `fuel` levels deep.
pub open spec fn preorder(s: Seq<Option<Token>>, id: int, fuel: nat) -> Seq<int>
    decreases fuel, 0nat,
{
    if fuel == 0 || !live(s, id) {
        Seq::empty()
    } else {
        seq![id] + preorder_all(s, kids(s, id), (fuel - 1) as nat)
    }
}

/// The pre-orders of the subtrees of `ks`, one after another.
pub open spec fn preorder_all(s: Seq<Option<Token>>, ks: Seq<usize>, fuel: nat) -> Seq<int>
    decreases fuel, ks.len(),
{
    if ks.len() == 0 {
        Seq::empty()
    } else {
        preorder_all(s, ks.drop_last(), fuel) + preorder(s, ks.last() as int, fuel)
    }
}

/// `r` holds the records of `ids`, in that order.
pub open spec fn records(r: Seq<Node>, s: Seq<Option<Token>>, ids: Seq<int>) -> bool {
    &&& r.len() == ids.len()
    &&& forall|i: int| 0 <= i < r.len() ==> #[trigger] live(s, ids[i]) && record_of(r[i], s, ids[i])
}

fn copy_bytes(v: &Vec<u8>) -> (r: Vec<u8>)
    ensures
        r@ == v@,
{
    vstd::slice::slice_to_vec(v.as_slice())
}

fn copy_ids(v: &Vec<usize>) -> (r: Vec<usize>)
    ensures
        r@ == v@,
{
    vstd::slice::slice_to_vec(v.as_slice())
}

fn record(tree: &Tree, t: &Token, id: usize) -> (n: Node)
    requires
        live(tree.nodes@, id as int),
        tree.nodes@[id as int]->0 == *t,
    ensures
        record_of(n, tree.nodes@, id as int),
{
    let content = der_content(tree, id, tree.nodes.len());
    let length = if t.manipulated_length {
        t.visual_length
    } else {
        content.len()
    };
    Node {
        id,
        label: t.label.clone(),
        tag: t.tag,
        tag_bytes: copy_bytes(&t.visual_tag),
        length,
        length_bytes: length_bytes(length),
        content: copy_bytes(&t.data),
        children: copy_ids(&t.children),
        parent: t.parent,
    }
}

/// Appends the records of the subtree of `node_id`, in pre-order, at most
/// `fuel` levels deep.
pub fn encode_node(tree: &Tree, node_id: usize, fuel: usize, out: &mut Vec<Node>)
    ensures
        final(out)@.len() == old(out)@.len() + preorder(tree.nodes@, node_id as int, fuel as nat).len(),
        forall|i: int| 0 <= i < old(out)@.len() ==> #[trigger] final(out)@[i] == old(out)@[i],
        records(final(out)@.subrange(old(out)@.len() as int, final(out)@.len() as int), tree.nodes@, preorder(tree.nodes@, node_id as int, fuel as nat)),
    decreases fuel,
{
    let ghost s = tree.nodes@;
    let ghost o = out@;
    if fuel == 0 || !tree.contains(node_id) {
        assert(out@.subrange(o.len() as int, out@.len() as int) =~= Seq::<Node>::empty());
        return;
    }
    let t = match &tree.nodes[node_id] {
        Some(t) => t,
        None => {
            return;
        },
    };
    out.push(record(tree, t, node_id));
    let ghost k = kids(s, node_id as int);
    assert(t.children@ == k);
    let mut j: usize = 0;
    assert(k.subrange(0, 0) =~= Seq::<usize>::empty());
    while j < t.children.len()
        invariant
            s == tree.nodes@,
            j <= k.len(),
            t.children@ == k,
            fuel > 0,
            live(s, node_id as int),
            out@.len() == o.len() + 1 + preorder_all(s, k.subrange(0, j as int), (fuel - 1) as nat).len(),
            forall|i: int| 0 <= i < o.len() ==> #[trigger] out@[i] == o[i],
            records(out@.subrange(o.len() as int, out@.len() as int), s, seq![node_id as int] + preorder_all(s, k.subrange(0, j as int), (fuel - 1) as nat)),
        decreases k.len() - j,
    {
        let ghost before = out@;
        encode_node(tree, t.children[j], fuel - 1, out);
        proof {
            assert(k.subrange(0, j + 1).drop_last() =~= k.subrange(0, j as int));
            assert(k.subrange(0, j + 1).last() == k[j as int]);
            let ids0 = seq![node_id as int] + preorder_all(s, k.subrange(0, j as int), (fuel - 1) as nat);
            let add = preorder(s, k[j as int] as int, (fuel - 1) as nat);
            assert(seq![node_id as int] + preorder_all(s, k.subrange(0, j + 1), (fuel - 1) as nat) =~= ids0 + add);
            let r = out@.subrange(o.len() as int, out@.len() as int);
            let r0 = before.subrange(o.len() as int, before.len() as int);
            let r1 = out@.subrange(before.len() as int, out@.len() as int);
            assert forall|i: int| 0 <= i < r.len() implies #[trigger] live(s, (ids0 + add)[i]) && record_of(r[i], s, (ids0 + add)[i]) by {
                if i < r0.len() {
                    assert(r[i] == r0[i]);
                    assert(live(s, ids0[i]));
                } else {
                    assert(r[i] == r1[i - r0.len()]);
                    assert((ids0 + add)[i] == add[i - r0.len()]);
                    assert(live(s, add[i - r0.len()]));
                }
            }
        }
        j = j + 1;
    }
    assert(k.subrange(0, j as int) =~= k);
    assert(preorder(s, node_id as int, fuel as nat) == seq![node_id as int] + preorder_all(s, k, (fuel - 1) as nat));
}

/// The records of the whole tree, root first, in pre-order.
pub open spec fn projection(tree: &Tree) -> Seq<int> {
    preorder(tree.nodes@, tree.root_id as int, tree.nodes@.len())
}

/// The records of every node reachable from the root, in pre-order.
pub fn encode_tree(tree: &Tree) -> (r: Vec<Node>)
    ensures
        records(r@, tree.nodes@, projection(tree)),
{
    let mut out: Vec<Node> = Vec::new();
    encode_node(tree, tree.root_id, tree.nodes.len(), &mut out);
    assert(out@.subrange(0, out@.len() as int) =~= out@);
    out
}

/// The projection is a function of the tree: two projections of one tree
/// agree record for record.
pub proof fn lemma_projection_stable(tree: &Tree, a: Seq<Node>, b: Seq<Node>)
    requires
        records(a, tree.nodes@, projection(tree)),
        records(b, tree.nodes@, projection(tree)),
    ensures
        a.len() == b.len(),
        forall|i: int| 0 <= i < a.len() ==> {
            &&& (#[trigger] a[i]).id == b[i].id
            &&& a[i].label@ == b[i].label@
            &&& a[i].tag == b[i].tag
            &&& a[i].tag_bytes@ == b[i].tag_bytes@
            &&& a[i].length == b[i].length
            &&& a[i].length_bytes@ == b[i].length_bytes@
            &&& a[i].content@ == b[i].content@
            &&& a[i].children@ == b[i].children@
            &&& a[i].parent == b[i].parent
        },
{
    assert forall|i: int| 0 <= i < a.len() implies {
        &&& (#[trigger] a[i]).id == b[i].id
        &&& a[i].label@ == b[i].label@
        &&& a[i].tag == b[i].tag
        &&& a[i].tag_bytes@ == b[i].tag_bytes@
        &&& a[i].length == b[i].length
        &&& a[i].length_bytes@ == b[i].length_bytes@
        &&& a[i].content@ == b[i].content@
        &&& a[i].children@ == b[i].children@
        &&& a[i].parent == b[i].parent
    } by {
        assert(live(tree.nodes@, projection(tree)[i]));
    }
}

} // verus!
