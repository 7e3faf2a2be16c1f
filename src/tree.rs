//! The node arena and its edit operations. Nodes are addressed by id, the
//! index of their slot; a removed node leaves an empty slot, so ids are
//! never reused.

use vstd::prelude::*;
use crate::encode::{encoding, val_to_bytes};
use crate::value::{out, EncodeError};

verus! {

/// The parent of the root.
pub const NO_PARENT: usize = usize::MAX;

/// One node of the tree.
#[derive(Debug)]
pub struct Token {
    /// The declared tag.
    pub tag: u8,
    /// The primitive content bytes (empty for constructed types).
    pub data: Vec<u8>,
    /// Child ids, in encoding order.
    pub children: Vec<usize>,
    /// The parent's id, or `NO_PARENT`.
    pub parent: usize,
    pub label: String,
    /// The cached length and encoding are stale.
    pub tainted: bool,
    /// The node was edited by hand.
    pub manipulated: bool,
    /// `visual_length` overrides the real length.
    pub manipulated_length: bool,
    pub visual_length: usize,
    /// The tag bytes written for this node.
    pub visual_tag: Vec<u8>,
}

/// Why an edit was refused.
#[derive(Debug, Clone, Copy, PartialEq, Eq, Structural)]
pub enum EditError {
    UnknownNode,
    UnknownParent,
    TreeFull,
    /// A node cannot move under itself or one of its descendants.
    WouldCycle,
    Encoding(EncodeError),
}

/// A TLV tree: an arena of nodes addressed by id.
pub struct Tree {
    pub nodes: Vec<Option<Token>>,
    pub root_id: usize,
    /// Names given to nodes, each name once.
    pub labels: Vec<(String, usize)>,
}

/// Slot `id` holds a node.
pub open spec fn live(s: Seq<Option<Token>>, id: int) -> bool {
    0 <= id < s.len() && s[id] is Some
}

/// The children of a node.
pub open spec fn kids(s: Seq<Option<Token>>, id: int) -> Seq<usize> {
    s[id]->0.children@
}

/// The parent/child links agree: each child of a node names it as parent,
/// each node with a parent is among that parent's children, and no child
/// list repeats an id.
pub open spec fn links_ok(s: Seq<Option<Token>>) -> bool {
    &&& forall|p: int, k: int|
        live(s, p) && 0 <= k < kids(s, p).len() ==> live(s, #[trigger] kids(s, p)[k] as int) && s[kids(s, p)[k] as int]->0.parent == p
    &&& forall|n: int|
        live(s, n) && #[trigger] s[n]->0.parent != NO_PARENT ==> live(s, s[n]->0.parent as int) && kids(s, s[n]->0.parent as int).contains(n as usize)
    &&& forall|p: int, i: int, j: int|
        live(s, p) && 0 <= i < j < kids(s, p).len() ==> #[trigger] kids(s, p)[i] != #[trigger] kids(s, p)[j]
}

/// The node `k` steps up from `id` (`NO_PARENT` once the chain ends).
pub open spec fn ancestor(s: Seq<Option<Token>>, id: int, k: nat) -> int
    decreases k,
{
    if k == 0 {
        id
    } else {
        let a = ancestor(s, id, (k - 1) as nat);
        if live(s, a) {
            s[a]->0.parent as int
        } else {
            NO_PARENT as int
        }
    }
}

/// Two nodes that differ at most in their taint flag.
pub open spec fn same_but_taint(a: Token, b: Token) -> bool {
    &&& a.tag == b.tag
    &&& a.data@ == b.data@
    &&& a.children@ == b.children@
    &&& a.parent == b.parent
    &&& a.label@ == b.label@
    &&& a.manipulated == b.manipulated
    &&& a.manipulated_length == b.manipulated_length
    &&& a.visual_length == b.visual_length
    &&& a.visual_tag@ == b.visual_tag@
}

/// `b` is `a` with some more nodes tainted.
pub open spec fn tainted_from(a: Seq<Option<Token>>, b: Seq<Option<Token>>) -> bool {
    &&& a.len() == b.len()
    &&& forall|i: int| 0 <= i < a.len() ==> (#[trigger] a[i] is Some <==> b[i] is Some)
    &&& forall|i: int|
        0 <= i < a.len() && #[trigger] a[i] is Some ==> same_but_taint(a[i]->0, b[i]->0) && (a[i]->0.tainted ==> b[i]->0.tainted)
}

impl Tree {
    /// The tree's invariant: consistent links, and room for one more id.
    pub open spec fn wf(&self) -> bool {
        &&& links_ok(self.nodes@)
        &&& self.nodes@.len() < usize::MAX
    }

    pub open spec fn is_node(&self, id: int) -> bool {
        live(self.nodes@, id)
    }

    /// Whether `id` names a node.
    pub fn contains(&self, id: usize) -> (r: bool)
        ensures
            r == self.is_node(id as int),
    {
        id < self.nodes.len() && self.nodes[id].is_some()
    }

    /// Marks the ancestors of `id`, up the parent chain, as tainted.
    pub fn taint_parents(&mut self, id: usize)
        requires
            old(self).wf(),
        ensures
            final(self).wf(),
            final(self).root_id == old(self).root_id,
            final(self).labels@ == old(self).labels@,
            tainted_from(old(self).nodes@, final(self).nodes@),
            forall|k: nat|
                1 <= k <= old(self).nodes@.len() && live(old(self).nodes@, #[trigger] ancestor(old(self).nodes@, id as int, k))
                    ==> final(self).nodes@[ancestor(old(self).nodes@, id as int, k)]->0.tainted,
    {
        let ghost s0 = self.nodes@;
        let n = self.nodes.len();
        let mut x: usize = if id < n && self.nodes[id].is_some() {
            match &self.nodes[id] {
                Some(t) => t.parent,
                None => NO_PARENT,
            }
        } else {
            NO_PARENT
        };
        let mut step: usize = 1;
        assert(ancestor(s0, id as int, 0) == id as int);
        assert(x as int == ancestor(s0, id as int, 1));
        while step <= n && x < n && self.nodes[x].is_some()
            invariant
                n == s0.len(),
                n < usize::MAX,
                1 <= step <= n + 1,
                links_ok(s0),
                tainted_from(s0, self.nodes@),
                x as int == ancestor(s0, id as int, step as nat),
                forall|k: nat| 1 <= k < step && live(s0, #[trigger] ancestor(s0, id as int, k)) ==> self.nodes@[ancestor(s0, id as int, k)]->0.tainted,
                self.root_id == old(self).root_id,
                self.labels@ == old(self).labels@,
            decreases n + 1 - step,
        {
            let mut slot: Option<Token> = None;
            self.nodes.set_and_swap(x, &mut slot);
            let mut t = slot.unwrap();
            t.tainted = true;
            let next = t.parent;
            self.nodes.set(x, Some(t));
            assert(live(s0, x as int));
            assert(next == s0[x as int]->0.parent);
            assert(tainted_from(s0, self.nodes@)) by {
                assert forall|i: int| 0 <= i < s0.len() && #[trigger] s0[i] is Some implies same_but_taint(s0[i]->0, self.nodes@[i]->0) && (s0[i]->0.tainted ==> self.nodes@[i]->0.tainted) by {
                    if i == x {
                        assert(self.nodes@[i]->0.children@ == s0[i]->0.children@);
                    }
                }
            }
            x = next;
            step = step + 1;
        }
        proof {
            assert forall|k: nat| 1 <= k <= s0.len() && live(s0, #[trigger] ancestor(s0, id as int, k)) implies self.nodes@[ancestor(s0, id as int, k)]->0.tainted by {
                if k >= step {
                    lemma_chain_ends(s0, id as int, step as nat, k);
                }
            }
            lemma_links_kept(s0, self.nodes@);
        }
    }
}

/// Once the chain leaves the live nodes it stays out.
proof fn lemma_chain_ends(s: Seq<Option<Token>>, id: int, a: nat, k: nat)
    requires
        a <= k,
        s.len() < usize::MAX,
        !live(s, ancestor(s, id, a)),
    ensures
        !live(s, ancestor(s, id, k)),
    decreases k - a,
{
    if a < k {
        lemma_chain_ends(s, id, a, (k - 1) as nat);
    }
}

/// Tainting keeps the links.
proof fn lemma_links_kept(a: Seq<Option<Token>>, b: Seq<Option<Token>>)
    requires
        links_ok(a),
        tainted_from(a, b),
    ensures
        links_ok(b),
{
    assert forall|p: int, k: int| live(b, p) && 0 <= k < kids(b, p).len() implies live(b, #[trigger] kids(b, p)[k] as int) && b[kids(b, p)[k] as int]->0.parent == p by {
        assert(kids(a, p) == kids(b, p));
        assert(live(a, kids(a, p)[k] as int));
    }
    assert forall|n: int| live(b, n) && #[trigger] b[n]->0.parent != NO_PARENT implies live(b, b[n]->0.parent as int) && kids(b, b[n]->0.parent as int).contains(n as usize) by {
        assert(a[n] is Some);
        assert(a[n]->0.parent == b[n]->0.parent);
        assert(live(a, a[n]->0.parent as int));
        assert(kids(a, a[n]->0.parent as int) == kids(b, b[n]->0.parent as int));
    }
    assert forall|p: int, i: int, j: int| live(b, p) && 0 <= i < j < kids(b, p).len() implies #[trigger] kids(b, p)[i] != #[trigger] kids(b, p)[j] by {
        assert(a[p] is Some);
        assert(kids(a, p) == kids(b, p));
    }
}


/// `b` is `a` with node `id` appended as the last child of `parent`; the new
/// node is `t`.
pub open spec fn attached(a: Seq<Option<Token>>, b: Seq<Option<Token>>, parent: int, id: int, t: Token) -> bool {
    &&& id == a.len()
    &&& a.len() + 1 < usize::MAX
    &&& b.len() == a.len() + 1
    &&& b[id] == Some(t)
    &&& t.parent == parent
    &&& t.children@.len() == 0
    &&& live(a, parent)
    &&& forall|i: int| 0 <= i < a.len() ==> (#[trigger] a[i] is Some <==> b[i] is Some)
    &&& forall|i: int|
        0 <= i < a.len() && i != parent && #[trigger] a[i] is Some ==> b[i] == a[i]
    &&& b[parent]->0.children@ == a[parent]->0.children@.push(id as usize)
    &&& b[parent]->0.tag == a[parent]->0.tag
    &&& b[parent]->0.data@ == a[parent]->0.data@
    &&& b[parent]->0.parent == a[parent]->0.parent
    &&& b[parent]->0.label@ == a[parent]->0.label@
    &&& b[parent]->0.tainted == a[parent]->0.tainted
    &&& b[parent]->0.manipulated == a[parent]->0.manipulated
    &&& b[parent]->0.manipulated_length == a[parent]->0.manipulated_length
    &&& b[parent]->0.visual_length == a[parent]->0.visual_length
    &&& b[parent]->0.visual_tag@ == a[parent]->0.visual_tag@
}

proof fn lemma_attach_links(a: Seq<Option<Token>>, b: Seq<Option<Token>>, parent: int, id: int, t: Token)
    requires
        links_ok(a),
        attached(a, b, parent, id, t),
    ensures
        links_ok(b),
{
    assert forall|p: int, k: int| live(b, p) && 0 <= k < kids(b, p).len() implies live(b, #[trigger] kids(b, p)[k] as int) && b[kids(b, p)[k] as int]->0.parent == p by {
        if p == id {
        } else if p == parent {
            if k < kids(a, p).len() {
                let c = kids(a, p)[k] as int;
                assert(kids(b, p)[k] == kids(a, p)[k]);
                assert(live(a, c));
                if c != parent {
                    assert(b[c] == a[c]);
                }
            }
        } else {
            assert(a[p] is Some);
            assert(kids(b, p) == kids(a, p));
            let c = kids(a, p)[k] as int;
            assert(live(a, c));
            if c != parent {
                assert(b[c] == a[c]);
            }
        }
    }
    assert forall|n: int| live(b, n) && #[trigger] b[n]->0.parent != NO_PARENT implies live(b, b[n]->0.parent as int) && kids(b, b[n]->0.parent as int).contains(n as usize) by {
        if n == id {
            assert(kids(b, parent).last() == id as usize);
        } else {
            assert(a[n] is Some);
            assert(a[n]->0.parent == b[n]->0.parent);
            let q = a[n]->0.parent as int;
            assert(live(a, q));
            if q == parent {
                assert(kids(a, q).contains(n as usize));
                let w = choose|w: int| 0 <= w < kids(a, q).len() && kids(a, q)[w] == n as usize;
                assert(kids(b, q)[w] == n as usize);
            } else {
                assert(kids(a, q) == kids(b, q));
            }
        }
    }
    assert forall|p: int, i: int, j: int| live(b, p) && 0 <= i < j < kids(b, p).len() implies #[trigger] kids(b, p)[i] != #[trigger] kids(b, p)[j] by {
        if p == parent {
            if j == kids(a, p).len() {
                assert(live(a, kids(a, p)[i] as int));
            } else {
                assert(kids(b, p)[i] == kids(a, p)[i]);
            }
        } else if p != id {
            assert(a[p] is Some);
            assert(kids(a, p) == kids(b, p));
        }
    }
}

/// A fresh leaf under `parent`.
pub open spec fn new_leaf(t: Token, tag: u8, data: Seq<u8>, parent: usize, label: Seq<char>) -> bool {
    &&& t.tag == tag
    &&& t.data@ == data
    &&& t.children@.len() == 0
    &&& t.parent == parent
    &&& t.label@ == label
    &&& !t.manipulated
    &&& !t.manipulated_length
    &&& t.visual_tag@ == seq![tag]
}

impl Tree {
    /// Adds a leaf holding `data` under `tag` as the last child of `parent`,
    /// and taints its ancestors. Fails, changing nothing, when `parent` names
    /// no node or no id is left.
    pub fn attach(&mut self, tag: u8, data: Vec<u8>, parent: usize, label: String) -> (r: Result<usize, EditError>)
        requires
            old(self).wf(),
        ensures
            final(self).wf(),
            final(self).root_id == old(self).root_id,
            final(self).labels@ == old(self).labels@,
            !old(self).is_node(parent as int) ==> r == Err::<usize, EditError>(EditError::UnknownParent),
            old(self).is_node(parent as int) ==> (
                if old(self).nodes@.len() + 1 >= usize::MAX {
                    r == Err::<usize, EditError>(EditError::TreeFull)
                } else {
                    r == Ok::<usize, EditError>(old(self).nodes@.len() as usize)
                }
            ),
            r is Err ==> final(self).nodes@ == old(self).nodes@,
            r is Ok ==> grown(old(self).nodes@, final(self).nodes@, r->Ok_0 as int, tag, data@, parent, label@),
    {
        if !self.contains(parent) {
            return Err(EditError::UnknownParent);
        }
        if self.nodes.len() >= usize::MAX - 1 {
            return Err(EditError::TreeFull);
        }
        let id = self.nodes.len();
        let ghost a = self.nodes@;
        let t = Token {
            tag,
            data,
            children: Vec::new(),
            parent,
            label,
            tainted: true,
            manipulated: false,
            manipulated_length: false,
            visual_length: 0,
            visual_tag: vec![tag],
        };
        assert(t.visual_tag@ =~= seq![tag]);
        self.nodes.push(Some(t));
        let mut slot: Option<Token> = None;
        self.nodes.set_and_swap(parent, &mut slot);
        let mut pt = slot.unwrap();
        pt.children.push(id);
        self.nodes.set(parent, Some(pt));
        let ghost b = self.nodes@;
        proof {
            let tt = b[id as int]->0;
            assert(attached(a, b, parent as int, id as int, tt));
            lemma_attach_links(a, b, parent as int, id as int, tt);
        }
        self.taint_parents(id);
        proof {
            let c = self.nodes@;
            lemma_taint_keeps_chain(b, c, id as int, (a.len() + 1) as nat);
        }
        Ok(id)
    }

    /// Adds a leaf with the encoding of `value` under `tag` as the last child
    /// of `parent`, and taints its ancestors. Fails, changing nothing, when
    /// `parent` names no node or the text does not encode.
    pub fn add_node(&mut self, tag: u8, value: &str, real_bits: Option<u64>, parent: usize, label: String) -> (r: Result<usize, EditError>)
        requires
            old(self).wf(),
        ensures
            final(self).wf(),
            final(self).root_id == old(self).root_id,
            final(self).labels@ == old(self).labels@,
            !old(self).is_node(parent as int) ==> r == Err::<usize, EditError>(EditError::UnknownParent),
            old(self).is_node(parent as int) && encoding(tag, value@, real_bits) is Err ==> r == Err::<usize, EditError>(EditError::Encoding(encoding(tag, value@, real_bits)->Err_0)),
            old(self).is_node(parent as int) && encoding(tag, value@, real_bits) is Ok ==> (
                if old(self).nodes@.len() + 1 >= usize::MAX {
                    r == Err::<usize, EditError>(EditError::TreeFull)
                } else {
                    r == Ok::<usize, EditError>(old(self).nodes@.len() as usize)
                }
            ),
            r is Err ==> final(self).nodes@ == old(self).nodes@,
            r is Ok ==> grown(old(self).nodes@, final(self).nodes@, r->Ok_0 as int, tag, encoding(tag, value@, real_bits)->Ok_0, parent, label@),
    {
        if !self.contains(parent) {
            return Err(EditError::UnknownParent);
        }
        let val = match val_to_bytes(tag, value, real_bits) {
            Ok(v) => v,
            Err(e) => {
                return Err(EditError::Encoding(e));
            },
        };
        self.attach(tag, val, parent, label)
    }
}

/// `b` is `a` with a fresh leaf `id` (the next id) under `parent`, holding
/// `data` under `tag`; other nodes differ at most in their taint flag, and
/// the ancestors of the leaf are tainted.
pub open spec fn grown(a: Seq<Option<Token>>, b: Seq<Option<Token>>, id: int, tag: u8, data: Seq<u8>, parent: usize, label: Seq<char>) -> bool {
    &&& id == a.len()
    &&& b.len() == id + 1
    &&& b[id] is Some
    &&& new_leaf(b[id]->0, tag, data, parent, label)
    &&& b[parent as int]->0.children@ == a[parent as int]->0.children@.push(id as usize)
    &&& forall|i: int| 0 <= i < a.len() ==> (#[trigger] a[i] is Some <==> b[i] is Some)
    &&& forall|i: int| 0 <= i < a.len() && i != parent && #[trigger] a[i] is Some ==> same_but_taint(a[i]->0, b[i]->0)
    &&& forall|k: nat| 1 <= k <= a.len() + 1 && live(b, #[trigger] ancestor(b, id, k)) ==> b[ancestor(b, id, k)]->0.tainted
}

/// Tainting leaves the parent chain as it was.
proof fn lemma_taint_keeps_chain(a: Seq<Option<Token>>, b: Seq<Option<Token>>, id: int, n: nat)
    requires
        tainted_from(a, b),
    ensures
        forall|k: nat| k <= n ==> #[trigger] ancestor(b, id, k) == ancestor(a, id, k),
    decreases n,
{
    if n > 0 {
        lemma_taint_keeps_chain(a, b, id, (n - 1) as nat);
        let x = ancestor(a, id, (n - 1) as nat);
        assert(ancestor(b, id, (n - 1) as nat) == x);
        if 0 <= x < a.len() {
            if a[x] is Some {
                assert(same_but_taint(a[x]->0, b[x]->0));
            } else {
                assert(!(b[x] is Some));
            }
        }
        assert(ancestor(b, id, n) == ancestor(a, id, n));
    }
}


/// `s` without the value `v`.
pub open spec fn drop_value(s: Seq<usize>, v: usize) -> Seq<usize>
    decreases s.len(),
{
    if s.len() == 0 {
        s
    } else if s.last() == v {
        drop_value(s.drop_last(), v)
    } else {
        drop_value(s.drop_last(), v).push(s.last())
    }
}

pub open spec fn distinct(s: Seq<usize>) -> bool {
    forall|i: int, j: int| 0 <= i < j < s.len() ==> s[i] != s[j]
}

proof fn lemma_drop_value(s: Seq<usize>, v: usize)
    ensures
        forall|x: usize| #[trigger] drop_value(s, v).contains(x) <==> (s.contains(x) && x != v),
        distinct(s) ==> distinct(drop_value(s, v)),
    decreases s.len(),
{
    if s.len() > 0 {
        let p = s.drop_last();
        lemma_drop_value(p, v);
        assert forall|x: usize| #[trigger] s.contains(x) <==> (p.contains(x) || x == s.last()) by {
            if s.contains(x) {
                let w = choose|w: int| 0 <= w < s.len() && s[w] == x;
                if w < p.len() {
                    assert(p[w] == x);
                }
            }
            if p.contains(x) {
                let w = choose|w: int| 0 <= w < p.len() && p[w] == x;
                assert(s[w] == x);
            }
            if x == s.last() {
                assert(s[s.len() - 1] == x);
            }
        }
        let d = drop_value(p, v);
        if s.last() != v {
            assert forall|x: usize| #[trigger] d.push(s.last()).contains(x) <==> (d.contains(x) || x == s.last()) by {
                if d.push(s.last()).contains(x) {
                    let w = choose|w: int| 0 <= w < d.len() + 1 && d.push(s.last())[w] == x;
                    if w < d.len() {
                        assert(d[w] == x);
                    }
                }
                if d.contains(x) {
                    let w = choose|w: int| 0 <= w < d.len() && d[w] == x;
                    assert(d.push(s.last())[w] == x);
                }
                if x == s.last() {
                    assert(d.push(s.last())[d.len() as int] == x);
                }
            }
            if distinct(s) {
                assert(distinct(p));
                assert(!p.contains(s.last()));
                assert forall|i: int, j: int| 0 <= i < j < d.len() + 1 implies d.push(s.last())[i] != d.push(s.last())[j] by {
                    if j == d.len() {
                        assert(d.contains(d[i]));
                    }
                }
            }
        } else {
            if distinct(s) {
                assert(distinct(p));
            }
        }
    }
}

fn drop_child(s: &Vec<usize>, v: usize) -> (r: Vec<usize>)
    ensures
        r@ == drop_value(s@, v),
{
    let mut r: Vec<usize> = Vec::new();
    let mut i: usize = 0;
    assert(s@.subrange(0, 0) =~= Seq::<usize>::empty());
    while i < s.len()
        invariant
            i <= s@.len(),
            r@ == drop_value(s@.subrange(0, i as int), v),
        decreases s@.len() - i,
    {
        assert(s@.subrange(0, i + 1).drop_last() =~= s@.subrange(0, i as int));
        if s[i] != v {
            r.push(s[i]);
        }
        i = i + 1;
    }
    assert(s@.subrange(0, i as int) =~= s@);
    r
}

/// Two nodes with the same tag, content, label and flags (links and taint
/// aside).
pub open spec fn same_content(a: Token, b: Token) -> bool {
    &&& a.tag == b.tag
    &&& a.data@ == b.data@
    &&& a.label@ == b.label@
    &&& a.manipulated == b.manipulated
    &&& a.manipulated_length == b.manipulated_length
    &&& a.visual_length == b.visual_length
    &&& a.visual_tag@ == b.visual_tag@
}

/// Where `id` goes in the child list of `np`: at `idx`, or at the end when
/// `idx` is past it.
pub open spec fn insert_at(base: Seq<usize>, idx: usize, id: usize) -> Seq<usize> {
    base.insert(if idx as int <= base.len() { idx as int } else { base.len() as int }, id)
}

/// The children of `x` once `id` has moved under `np` at `idx`.
pub open spec fn dragged_kids(a: Seq<Option<Token>>, id: int, np: int, idx: usize, x: int) -> Seq<usize> {
    let base = if x == a[id]->0.parent { drop_value(kids(a, x), id as usize) } else { kids(a, x) };
    if x == np {
        insert_at(base, idx, id as usize)
    } else {
        base
    }
}

/// `b` is `a` with node `id` moved under `np` at `idx`; taint flags aside.
pub open spec fn dragged(a: Seq<Option<Token>>, b: Seq<Option<Token>>, id: int, np: int, idx: usize) -> bool {
    &&& a.len() == b.len()
    &&& forall|i: int| 0 <= i < a.len() ==> (#[trigger] a[i] is Some <==> b[i] is Some)
    &&& forall|i: int|
        0 <= i < a.len() && #[trigger] a[i] is Some ==> {
            &&& same_content(a[i]->0, b[i]->0)
            &&& kids(b, i) == dragged_kids(a, id, np, idx, i)
            &&& b[i]->0.parent == if i == id { np as usize } else { a[i]->0.parent }
        }
}

proof fn lemma_dragged_kids(a: Seq<Option<Token>>, id: int, np: int, idx: usize, p: int)
    requires
        links_ok(a),
        a.len() < usize::MAX,
        live(a, id),
        live(a, p),
    ensures
        distinct(dragged_kids(a, id, np, idx, p)),
        forall|x: usize| #[trigger] dragged_kids(a, id, np, idx, p).contains(x) <==> ((kids(a, p).contains(x) && x != id) || (p == np && x == id)),
{
    let op = a[id]->0.parent as int;
    assert(distinct(kids(a, p))) by {
        assert forall|i: int, j: int| 0 <= i < j < kids(a, p).len() implies kids(a, p)[i] != kids(a, p)[j] by {
            assert(kids(a, p)[i] != kids(a, p)[j]);
        }
    }
    lemma_drop_value(kids(a, p), id as usize);
    let base = if p == op { drop_value(kids(a, p), id as usize) } else { kids(a, p) };
    assert(!base.contains(id as usize)) by {
        if p != op && base.contains(id as usize) {
            let w = choose|w: int| 0 <= w < base.len() && base[w] == id as usize;
            assert(kids(a, p)[w] == id as usize);
            assert(a[id]->0.parent == p);
        }
    }
    assert forall|x: usize| base.contains(x) <==> (kids(a, p).contains(x) && x != id) by {
        if p != op && base.contains(x) && x == id {
            let w = choose|w: int| 0 <= w < base.len() && base[w] == x;
            assert(kids(a, p)[w] == x);
        }
    }
    if p == np {
        let at = if idx as int <= base.len() { idx as int } else { base.len() as int };
        let ins = base.insert(at, id as usize);
        assert forall|x: usize| ins.contains(x) <==> (base.contains(x) || x == id) by {
            if ins.contains(x) {
                let w = choose|w: int| 0 <= w < ins.len() && ins[w] == x;
                if w < at {
                    assert(base[w] == x);
                } else if w > at {
                    assert(base[w - 1] == x);
                }
            }
            if base.contains(x) {
                let w = choose|w: int| 0 <= w < base.len() && base[w] == x;
                if w < at {
                    assert(ins[w] == x);
                } else {
                    assert(ins[w + 1] == x);
                }
            }
            if x == id {
                assert(ins[at] == x);
            }
        }
        assert forall|i: int, j: int| 0 <= i < j < ins.len() implies ins[i] != ins[j] by {
            if i == at {
                assert(base.contains(ins[j]));
            } else if j == at {
                assert(base.contains(ins[i]));
            } else {
                let bi = if i < at { i } else { i - 1 };
                let bj = if j < at { j } else { j - 1 };
                assert(ins[i] == base[bi]);
                assert(ins[j] == base[bj]);
            }
        }
    }
}

proof fn lemma_drag_links(a: Seq<Option<Token>>, b: Seq<Option<Token>>, id: int, np: int, idx: usize)
    requires
        links_ok(a),
        a.len() < usize::MAX,
        live(a, id),
        live(a, np),
        dragged(a, b, id, np, idx),
    ensures
        links_ok(b),
{
    assert forall|p: int, k: int| live(b, p) && 0 <= k < kids(b, p).len() implies live(b, #[trigger] kids(b, p)[k] as int) && b[kids(b, p)[k] as int]->0.parent == p by {
        assert(a[p] is Some);
        lemma_dragged_kids(a, id, np, idx, p);
        let c = kids(b, p)[k];
        assert(dragged_kids(a, id, np, idx, p).contains(c));
        if c as int == id {
            assert(p == np);
        } else {
            assert(kids(a, p).contains(c));
            let w = choose|w: int| 0 <= w < kids(a, p).len() && kids(a, p)[w] == c;
            assert(live(a, kids(a, p)[w] as int));
            assert(a[c as int] is Some);
        }
    }
    assert forall|n: int| live(b, n) && #[trigger] b[n]->0.parent != NO_PARENT implies live(b, b[n]->0.parent as int) && kids(b, b[n]->0.parent as int).contains(n as usize) by {
        assert(a[n] is Some);
        if n == id {
            assert(a[np] is Some);
            lemma_dragged_kids(a, id, np, idx, np);
            assert(dragged_kids(a, id, np, idx, np).contains(n as usize));
        } else {
            let q = a[n]->0.parent as int;
            assert(live(a, q));
            assert(a[q] is Some);
            assert(kids(a, q).contains(n as usize));
            lemma_dragged_kids(a, id, np, idx, q);
            assert(dragged_kids(a, id, np, idx, q).contains(n as usize));
        }
    }
    assert forall|p: int, i: int, j: int| live(b, p) && 0 <= i < j < kids(b, p).len() implies #[trigger] kids(b, p)[i] != #[trigger] kids(b, p)[j] by {
        assert(a[p] is Some);
        lemma_dragged_kids(a, id, np, idx, p);
    }
}

/// Taint before and after a move leaves the move and keeps the first taint.
proof fn lemma_drag_compose(
    s0: Seq<Option<Token>>,
    a: Seq<Option<Token>>,
    m: Seq<Option<Token>>,
    f: Seq<Option<Token>>,
    id: int,
    np: int,
    idx: usize,
)
    requires
        tainted_from(s0, a),
        dragged(a, m, id, np, idx),
        forall|i: int| 0 <= i < a.len() && #[trigger] a[i] is Some ==> m[i]->0.tainted == a[i]->0.tainted,
        tainted_from(m, f),
        live(s0, id),
        forall|k: nat| k <= s0.len() ==> #[trigger] ancestor(a, id, k) == ancestor(s0, id, k),
        forall|k: nat|
            1 <= k <= s0.len() && live(a, #[trigger] ancestor(a, id, k)) ==> a[ancestor(a, id, k)]->0.tainted,
    ensures
        dragged(s0, f, id, np, idx),
        forall|k: nat|
            1 <= k <= s0.len() && live(s0, #[trigger] ancestor(s0, id, k)) ==> f[ancestor(s0, id, k)]->0.tainted,
{
    assert forall|i: int| 0 <= i < s0.len() && #[trigger] s0[i] is Some implies kids(s0, i) == kids(a, i) && s0[i]->0.parent == a[i]->0.parent by {
        assert(same_but_taint(s0[i]->0, a[i]->0));
    }
    assert forall|x: int| 0 <= x < s0.len() && #[trigger] s0[x] is Some implies dragged_kids(s0, id, np, idx, x) == dragged_kids(a, id, np, idx, x) by {
        assert(s0[id] is Some);
    }
    assert forall|i: int| 0 <= i < s0.len() && #[trigger] s0[i] is Some implies {
        &&& same_content(s0[i]->0, f[i]->0)
        &&& kids(f, i) == dragged_kids(s0, id, np, idx, i)
        &&& f[i]->0.parent == if i == id { np as usize } else { s0[i]->0.parent }
    } by {
        assert(a[i] is Some);
        assert(same_but_taint(s0[i]->0, a[i]->0));
        assert(m[i] is Some);
        assert(same_but_taint(m[i]->0, f[i]->0));
    }
    assert forall|k: nat| 1 <= k <= s0.len() && live(s0, #[trigger] ancestor(s0, id, k)) implies f[ancestor(s0, id, k)]->0.tainted by {
        let x = ancestor(s0, id, k);
        assert(ancestor(a, id, k) == x);
        assert(a[x] is Some);
        assert(m[x] is Some);
    }
}

impl Tree {
    fn parent_of(&self, id: usize) -> (r: usize)
        requires
            self.is_node(id as int),
        ensures
            r == self.nodes@[id as int]->0.parent,
    {
        match &self.nodes[id] {
            Some(t) => t.parent,
            None => NO_PARENT,
        }
    }

    /// Moves node `id` under `new_parent` at position `child_index` of its
    /// children (the end when the index is past it), detaching it from its
    /// old parent, and taints the old and the new ancestor chain. Fails,
    /// changing nothing, when either id names no node, or when `id` is
    /// `new_parent` or one of its ancestors (the move would close a cycle).
    #[verifier::rlimit(50)]
    pub fn drag_node(&mut self, id: usize, new_parent: usize, child_index: usize) -> (r: Result<(), EditError>)
        requires
            old(self).wf(),
        ensures
            final(self).wf(),
            final(self).root_id == old(self).root_id,
            final(self).labels@ == old(self).labels@,
            !(old(self).is_node(id as int) && old(self).is_node(new_parent as int)) ==> r == Err::<(), EditError>(EditError::UnknownNode) && final(self).nodes@ == old(self).nodes@,
            old(self).is_node(id as int) && old(self).is_node(new_parent as int) && above(old(self).nodes@, id as int, new_parent as int) ==> r == Err::<(), EditError>(EditError::WouldCycle) && final(self).nodes@ == old(self).nodes@,
            old(self).is_node(id as int) && old(self).is_node(new_parent as int) && !above(old(self).nodes@, id as int, new_parent as int) ==> {
                &&& r is Ok
                &&& dragged(old(self).nodes@, final(self).nodes@, id as int, new_parent as int, child_index)
                &&& forall|k: nat| 1 <= k <= old(self).nodes@.len() && live(old(self).nodes@, #[trigger] ancestor(old(self).nodes@, id as int, k))
                    ==> final(self).nodes@[ancestor(old(self).nodes@, id as int, k)]->0.tainted
                &&& forall|k: nat| 1 <= k <= old(self).nodes@.len() && live(final(self).nodes@, #[trigger] ancestor(final(self).nodes@, id as int, k))
                    ==> final(self).nodes@[ancestor(final(self).nodes@, id as int, k)]->0.tainted
            },
    {
        if !self.contains(new_parent) || !self.contains(id) {
            return Err(EditError::UnknownNode);
        }
        if self.is_above(id, new_parent) {
            return Err(EditError::WouldCycle);
        }
        let ghost s0 = self.nodes@;
        self.taint_parents(id);
        let ghost a = self.nodes@;
        proof {
            lemma_taint_keeps_chain(s0, a, id as int, s0.len());
            lemma_links_kept(s0, a);
        }
        let op = self.parent_of(id);
        if op < self.nodes.len() && self.nodes[op].is_some() {
            let mut slot: Option<Token> = None;
            self.nodes.set_and_swap(op, &mut slot);
            let mut t = slot.unwrap();
            t.children = drop_child(&t.children, id);
            self.nodes.set(op, Some(t));
        }
        let mut slot: Option<Token> = None;
        self.nodes.set_and_swap(new_parent, &mut slot);
        let mut t = slot.unwrap();
        let at = if child_index <= t.children.len() {
            child_index
        } else {
            t.children.len()
        };
        t.children.insert(at, id);
        self.nodes.set(new_parent, Some(t));
        let mut slot: Option<Token> = None;
        self.nodes.set_and_swap(id, &mut slot);
        let mut t = slot.unwrap();
        t.parent = new_parent;
        self.nodes.set(id, Some(t));
        let ghost m = self.nodes@;
        proof {
            assert(forall|i: int| 0 <= i < a.len() && #[trigger] a[i] is Some ==> m[i]->0.tainted == a[i]->0.tainted);
            assert(dragged(a, m, id as int, new_parent as int, child_index));
            lemma_drag_links(a, m, id as int, new_parent as int, child_index);
        }
        self.taint_parents(id);
        proof {
            lemma_drag_compose(s0, a, m, self.nodes@, id as int, new_parent as int, child_index);
            lemma_taint_keeps_chain(m, self.nodes@, id as int, s0.len());
        }
        Ok(())
    }
}

/// `p` walks down child links.
pub open spec fn is_path(s: Seq<Option<Token>>, p: Seq<int>) -> bool {
    &&& p.len() >= 1
    &&& forall|i: int| 0 <= i < p.len() - 1 ==> live(s, #[trigger] p[i]) && kids(s, p[i]).contains(p[i + 1] as usize) && 0 <= p[i + 1] < s.len()
}

/// `b` lies in the subtree of `a` (is `a` or below it).
pub open spec fn reachable(s: Seq<Option<Token>>, a: int, b: int) -> bool {
    exists|p: Seq<int>| #[trigger] is_path(s, p) && p[0] == a && p.last() == b
}

proof fn lemma_reach_self(s: Seq<Option<Token>>, a: int)
    ensures
        reachable(s, a, a),
{
    assert(is_path(s, seq![a]));
}

proof fn lemma_reach_step(s: Seq<Option<Token>>, a: int, b: int, c: usize)
    requires
        reachable(s, a, b),
        live(s, b),
        kids(s, b).contains(c),
        c < s.len(),
    ensures
        reachable(s, a, c as int),
{
    let p = choose|p: Seq<int>| #[trigger] is_path(s, p) && p[0] == a && p.last() == b;
    let q = p.push(c as int);
    assert forall|i: int| 0 <= i < q.len() - 1 implies live(s, #[trigger] q[i]) && kids(s, q[i]).contains(q[i + 1] as usize) && 0 <= q[i + 1] < s.len() by {
        if i < p.len() - 1 {
            assert(q[i] == p[i] && q[i + 1] == p[i + 1]);
        }
    }
    assert(is_path(s, q));
}

/// A set that holds `a` and the children of each of its live members holds
/// the whole subtree of `a`.
proof fn lemma_closed_holds_subtree(s: Seq<Option<Token>>, k: Set<int>, a: int, b: int)
    requires
        k.contains(a),
        s.len() < usize::MAX,
        forall|x: int, c: int| k.contains(x) && live(s, x) && 0 <= c < kids(s, x).len() ==> k.contains(#[trigger] kids(s, x)[c] as int),
        reachable(s, a, b),
    ensures
        k.contains(b),
{
    let p = choose|p: Seq<int>| #[trigger] is_path(s, p) && p[0] == a && p.last() == b;
    assert forall|i: int| 0 <= i < p.len() implies k.contains(#[trigger] p[i]) by {
        lemma_path_in(s, k, p, i);
    }
}

proof fn lemma_path_in(s: Seq<Option<Token>>, k: Set<int>, p: Seq<int>, i: int)
    requires
        is_path(s, p),
        s.len() < usize::MAX,
        k.contains(p[0]),
        forall|x: int, c: int| k.contains(x) && live(s, x) && 0 <= c < kids(s, x).len() ==> k.contains(#[trigger] kids(s, x)[c] as int),
        0 <= i < p.len(),
    ensures
        k.contains(p[i]),
    decreases i,
{
    if i > 0 {
        lemma_path_in(s, k, p, i - 1);
        assert(live(s, p[i - 1]) && kids(s, p[i - 1]).contains(p[i] as usize));
        let ks = kids(s, p[i - 1]);
        let w = choose|w: int| 0 <= w < ks.len() && #[trigger] ks[w] == p[i] as usize;
        assert(k.contains(kids(s, p[i - 1])[w] as int));
    }
}

/// Paths depend only on liveness and child lists.
proof fn lemma_reach_transfer(a: Seq<Option<Token>>, b: Seq<Option<Token>>, x: int, y: int)
    requires
        a.len() == b.len(),
        forall|i: int| 0 <= i < a.len() ==> (#[trigger] a[i] is Some <==> b[i] is Some),
        forall|i: int| 0 <= i < a.len() && #[trigger] a[i] is Some ==> kids(a, i) == kids(b, i),
        reachable(a, x, y),
    ensures
        reachable(b, x, y),
{
    let p = choose|p: Seq<int>| #[trigger] is_path(a, p) && p[0] == x && p.last() == y;
    assert forall|i: int| 0 <= i < p.len() - 1 implies live(b, #[trigger] p[i]) && kids(b, p[i]).contains(p[i + 1] as usize) && 0 <= p[i + 1] < b.len() by {
        assert(live(a, p[i]));
        assert(a[p[i]] is Some);
    }
    assert(is_path(b, p));
}

proof fn lemma_reach_same(a: Seq<Option<Token>>, b: Seq<Option<Token>>, x: int, y: int)
    requires
        a.len() == b.len(),
        forall|i: int| 0 <= i < a.len() ==> (#[trigger] a[i] is Some <==> b[i] is Some),
        forall|i: int| 0 <= i < a.len() && #[trigger] a[i] is Some ==> kids(a, i) == kids(b, i),
    ensures
        reachable(a, x, y) <==> reachable(b, x, y),
{
    if reachable(a, x, y) {
        lemma_reach_transfer(a, b, x, y);
    }
    if reachable(b, x, y) {
        assert forall|i: int| 0 <= i < b.len() && #[trigger] b[i] is Some implies kids(b, i) == kids(a, i) by {
            assert(a[i] is Some);
        }
        lemma_reach_transfer(b, a, x, y);
    }
}

/// `b` is `a` with the subtree of `id` gone and `id` dropped from its
/// parent's children; taint flags aside.
pub open spec fn removed(a: Seq<Option<Token>>, b: Seq<Option<Token>>, id: int) -> bool {
    &&& a.len() == b.len()
    &&& forall|i: int| 0 <= i < a.len() ==> (#[trigger] b[i] is Some <==> (a[i] is Some && !reachable(a, id, i)))
    &&& forall|i: int|
        0 <= i < a.len() && #[trigger] b[i] is Some ==> {
            &&& same_content(a[i]->0, b[i]->0)
            &&& b[i]->0.parent == a[i]->0.parent
            &&& kids(b, i) == if i == a[id]->0.parent { drop_value(kids(a, i), id as usize) } else { kids(a, i) }
        }
}

/// The state after a deletion: the `killed` slots emptied and `id` dropped
/// from the child list of its parent.
pub open spec fn pruned(a: Seq<Option<Token>>, b: Seq<Option<Token>>, killed: Set<int>, id: int) -> bool {
    &&& a.len() == b.len()
    &&& forall|i: int| 0 <= i < a.len() ==> (#[trigger] b[i] is Some <==> (a[i] is Some && !killed.contains(i)))
    &&& forall|i: int|
        0 <= i < a.len() && #[trigger] b[i] is Some ==> {
            &&& same_content(a[i]->0, b[i]->0)
            &&& b[i]->0.tainted == a[i]->0.tainted
            &&& b[i]->0.parent == a[i]->0.parent
            &&& kids(b, i) == if i == a[id]->0.parent { drop_value(kids(a, i), id as usize) } else { kids(a, i) }
        }
}

proof fn lemma_prune_links(a: Seq<Option<Token>>, b: Seq<Option<Token>>, killed: Set<int>, id: int)
    requires
        links_ok(a),
        a.len() < usize::MAX,
        live(a, id),
        killed.contains(id),
        forall|x: int| #[trigger] killed.contains(x) && x != id ==> killed.contains(a[x]->0.parent as int),
        forall|x: int, c: int| killed.contains(x) && live(a, x) && 0 <= c < kids(a, x).len() ==> killed.contains(#[trigger] kids(a, x)[c] as int),
        pruned(a, b, killed, id),
    ensures
        links_ok(b),
{
    let op = a[id]->0.parent as int;
    assert forall|p: int| live(a, p) && !killed.contains(p) implies {
        &&& distinct(#[trigger] kids(b, p))
        &&& forall|x: usize| kids(b, p).contains(x) ==> kids(a, p).contains(x) && x != id
    } by {
        assert(b[p] is Some);
        assert(distinct(kids(a, p))) by {
            assert forall|i: int, j: int| 0 <= i < j < kids(a, p).len() implies kids(a, p)[i] != kids(a, p)[j] by {
                assert(kids(a, p)[i] != kids(a, p)[j]);
            }
        }
        lemma_drop_value(kids(a, p), id as usize);
        assert forall|x: usize| kids(b, p).contains(x) implies kids(a, p).contains(x) && x != id by {
            if p != op && x == id {
                let w = choose|w: int| 0 <= w < kids(a, p).len() && kids(a, p)[w] == x;
                assert(a[id]->0.parent == p);
            }
        }
    }
    assert forall|p: int, k: int| live(b, p) && 0 <= k < kids(b, p).len() implies live(b, #[trigger] kids(b, p)[k] as int) && b[kids(b, p)[k] as int]->0.parent == p by {
        assert(a[p] is Some && !killed.contains(p));
        let c = kids(b, p)[k];
        assert(kids(b, p).contains(c));
        let w = choose|w: int| 0 <= w < kids(a, p).len() && kids(a, p)[w] == c;
        assert(live(a, kids(a, p)[w] as int));
        assert(a[c as int]->0.parent == p);
        if killed.contains(c as int) {
            assert(killed.contains(p));
        }
        assert(b[c as int] is Some);
    }
    assert forall|n: int| live(b, n) && #[trigger] b[n]->0.parent != NO_PARENT implies live(b, b[n]->0.parent as int) && kids(b, b[n]->0.parent as int).contains(n as usize) by {
        assert(a[n] is Some && !killed.contains(n));
        let q = a[n]->0.parent as int;
        assert(live(a, q));
        assert(kids(a, q).contains(n as usize));
        let w = choose|w: int| 0 <= w < kids(a, q).len() && kids(a, q)[w] == n as usize;
        if killed.contains(q) {
            assert(killed.contains(kids(a, q)[w] as int));
        }
        assert(b[q] is Some);
        if q == op {
            lemma_drop_value(kids(a, q), id as usize);
        }
    }
    assert forall|p: int, i: int, j: int| live(b, p) && 0 <= i < j < kids(b, p).len() implies #[trigger] kids(b, p)[i] != #[trigger] kids(b, p)[j] by {
        assert(a[p] is Some && !killed.contains(p));
        assert(distinct(kids(b, p)));
    }
}

impl Tree {
    /// Removes node `id` with its whole subtree, drops it from its parent's
    /// children and taints its former ancestors. Fails, changing nothing,
    /// when `id` names no node.
    #[verifier::rlimit(50)]
    pub fn remove_node(&mut self, id: usize) -> (r: Result<(), EditError>)
        requires
            old(self).wf(),
        ensures
            final(self).wf(),
            final(self).root_id == old(self).root_id,
            final(self).labels@ == old(self).labels@,
            !old(self).is_node(id as int) ==> r == Err::<(), EditError>(EditError::UnknownNode) && final(self).nodes@ == old(self).nodes@,
            old(self).is_node(id as int) ==> {
                &&& r is Ok
                &&& removed(old(self).nodes@, final(self).nodes@, id as int)
                &&& forall|k: nat| 1 <= k <= old(self).nodes@.len() && live(final(self).nodes@, #[trigger] ancestor(old(self).nodes@, id as int, k))
                    ==> final(self).nodes@[ancestor(old(self).nodes@, id as int, k)]->0.tainted
            },
    {
        if !self.contains(id) {
            return Err(EditError::UnknownNode);
        }
        let ghost s0 = self.nodes@;
        self.taint_parents(id);
        let ghost s1 = self.nodes@;
        let n = self.nodes.len();
        let op = self.parent_of(id);
        let mut stack: Vec<usize> = vec![id];
        let ghost mut killed: Set<int> = Set::empty();
        assert(stack@[0] == id);
        proof {
            lemma_reach_self(s1, id as int);
        }
        while stack.len() > 0
            invariant
                n == s1.len(),
                self.root_id == old(self).root_id,
                self.labels@ == old(self).labels@,
                self.nodes@.len() == n,
                n < usize::MAX,
                links_ok(s1),
                live(s1, id as int),
                forall|x: int| 0 <= x < n ==> #[trigger] self.nodes@[x] == if killed.contains(x) { None } else { s1[x] },
                killed.finite(),
                forall|x: int| #[trigger] killed.contains(x) ==> 0 <= x < n && live(s1, x) && reachable(s1, id as int, x),
                forall|x: int| #[trigger] killed.contains(x) && x != id ==> killed.contains(s1[x]->0.parent as int),
                forall|j: int| 0 <= j < stack@.len() ==> (#[trigger] stack@[j]) < n && reachable(s1, id as int, stack@[j] as int),
                forall|j: int| 0 <= j < stack@.len() && #[trigger] stack@[j] != id ==> killed.contains(s1[stack@[j] as int]->0.parent as int),
                forall|x: int, c: int| killed.contains(x) && 0 <= c < kids(s1, x).len() ==> killed.contains(#[trigger] kids(s1, x)[c] as int) || stack@.contains(kids(s1, x)[c]),
                killed.contains(id as int) || stack@.contains(id),
            decreases n - killed.len(), stack@.len(),
        {
            let ghost st0 = stack@;
            let x = stack.pop().unwrap();
            assert(st0 =~= stack@.push(x));
            assert(st0[st0.len() - 1] == x);
            if self.nodes[x].is_some() {
                let mut slot: Option<Token> = None;
                self.nodes.set_and_swap(x, &mut slot);
                let t = slot.unwrap();
                assert(!killed.contains(x as int));
                assert(t.children@ == kids(s1, x as int));
                let ghost base = stack@;
                let mut j: usize = 0;
                while j < t.children.len()
                    invariant
                        j <= t.children@.len(),
                        t.children@ == kids(s1, x as int),
                        stack@ == base + t.children@.subrange(0, j as int),
                    decreases t.children@.len() - j,
                {
                    stack.push(t.children[j]);
                    assert(stack@ =~= base + t.children@.subrange(0, j + 1));
                    j = j + 1;
                }
                assert(t.children@.subrange(0, j as int) =~= t.children@);
                proof {
                    vstd::set_lib::lemma_int_range(0, n as int);
                    let k2 = killed.insert(x as int);
                    assert(k2.subset_of(vstd::set_lib::set_int_range(0, n as int)));
                    vstd::set_lib::lemma_len_subset(k2, vstd::set_lib::set_int_range(0, n as int));
                    assert forall|c: int| 0 <= c < kids(s1, x as int).len() implies (#[trigger] kids(s1, x as int)[c]) < n && reachable(s1, id as int, kids(s1, x as int)[c] as int) && s1[kids(s1, x as int)[c] as int]->0.parent == x by {
                        assert(kids(s1, x as int).contains(kids(s1, x as int)[c]));
                        lemma_reach_step(s1, id as int, x as int, kids(s1, x as int)[c]);
                    }
                    killed = k2;
                }
                assert forall|j: int| 0 <= j < stack@.len() implies (#[trigger] stack@[j]) < n && reachable(s1, id as int, stack@[j] as int) by {
                    if j >= base.len() {
                        assert(stack@[j] == kids(s1, x as int)[j - base.len()]);
                    } else {
                        assert(stack@[j] == st0[j]);
                    }
                }
                assert forall|j: int| 0 <= j < stack@.len() && #[trigger] stack@[j] != id implies killed.contains(s1[stack@[j] as int]->0.parent as int) by {
                    if j >= base.len() {
                        assert(stack@[j] == kids(s1, x as int)[j - base.len()]);
                    } else {
                        assert(stack@[j] == st0[j]);
                    }
                }
                assert forall|y: int, c: int| killed.contains(y) && 0 <= c < kids(s1, y).len() implies killed.contains(#[trigger] kids(s1, y)[c] as int) || stack@.contains(kids(s1, y)[c]) by {
                    if y == x {
                        assert(stack@[base.len() + c] == kids(s1, y)[c]);
                    } else if !killed.contains(kids(s1, y)[c] as int) {
                        assert(st0.contains(kids(s1, y)[c]));
                        let w = choose|w: int| 0 <= w < st0.len() && st0[w] == kids(s1, y)[c];
                        if w < st0.len() - 1 {
                            assert(stack@[w] == st0[w]);
                        }
                    }
                }
                assert(killed.contains(id as int) || stack@.contains(id)) by {
                    if !killed.contains(id as int) {
                        let w = choose|w: int| 0 <= w < st0.len() && st0[w] == id;
                        if w < st0.len() - 1 {
                            assert(stack@[w] == st0[w]);
                        }
                    }
                }
            } else {
                assert(killed.contains(x as int) || !live(s1, x as int));
                proof {
                    if !killed.contains(x as int) {
                        lemma_reach_live(s1, id as int, x as int);
                    }
                }
                assert forall|y: int, c: int| killed.contains(y) && 0 <= c < kids(s1, y).len() implies killed.contains(#[trigger] kids(s1, y)[c] as int) || stack@.contains(kids(s1, y)[c]) by {
                    if !killed.contains(kids(s1, y)[c] as int) {
                        let w = choose|w: int| 0 <= w < st0.len() && st0[w] == kids(s1, y)[c];
                        if w < st0.len() - 1 {
                            assert(stack@[w] == st0[w]);
                        }
                    }
                }
                assert(killed.contains(id as int) || stack@.contains(id)) by {
                    if !killed.contains(id as int) {
                        let w = choose|w: int| 0 <= w < st0.len() && st0[w] == id;
                        if w < st0.len() - 1 {
                            assert(stack@[w] == st0[w]);
                        }
                    }
                }
            }
        }
        if op < self.nodes.len() && self.nodes[op].is_some() {
            let mut slot: Option<Token> = None;
            self.nodes.set_and_swap(op, &mut slot);
            let mut t = slot.unwrap();
            t.children = drop_child(&t.children, id);
            self.nodes.set(op, Some(t));
        }
        proof {
            let f = self.nodes@;
            assert(pruned(s1, f, killed, id as int));
            lemma_prune_links(s1, f, killed, id as int);
            lemma_remove_result(s0, s1, f, killed, id as int);
        }
        Ok(())
    }
}

/// What is reachable from a live node is live.
proof fn lemma_reach_live(s: Seq<Option<Token>>, a: int, b: int)
    requires
        links_ok(s),
        s.len() < usize::MAX,
        live(s, a),
        reachable(s, a, b),
    ensures
        live(s, b),
{
    let p = choose|p: Seq<int>| #[trigger] is_path(s, p) && p[0] == a && p.last() == b;
    if p.len() > 1 {
        let i = p.len() - 2;
        assert(live(s, p[i]) && kids(s, p[i]).contains(p[i + 1] as usize) && 0 <= p[i + 1] < s.len());
        let w = choose|w: int| 0 <= w < kids(s, p[i]).len() && kids(s, p[i])[w] == p[i + 1] as usize;
        assert(live(s, kids(s, p[i])[w] as int));
    }
}

proof fn lemma_remove_result(s0: Seq<Option<Token>>, s1: Seq<Option<Token>>, f: Seq<Option<Token>>, killed: Set<int>, id: int)
    requires
        tainted_from(s0, s1),
        links_ok(s1),
        s1.len() < usize::MAX,
        live(s1, id),
        killed.contains(id),
        forall|x: int| #[trigger] killed.contains(x) ==> 0 <= x < s1.len() && live(s1, x) && reachable(s1, id, x),
        forall|x: int, c: int| killed.contains(x) && 0 <= c < kids(s1, x).len() ==> killed.contains(#[trigger] kids(s1, x)[c] as int),
        pruned(s1, f, killed, id),
        forall|k: nat|
            1 <= k <= s0.len() && live(s0, #[trigger] ancestor(s0, id, k)) ==> s1[ancestor(s0, id, k)]->0.tainted,
    ensures
        removed(s0, f, id),
        forall|k: nat|
            1 <= k <= s0.len() && live(f, #[trigger] ancestor(s0, id, k)) ==> f[ancestor(s0, id, k)]->0.tainted,
{
    assert forall|i: int| 0 <= i < s0.len() && #[trigger] s0[i] is Some implies kids(s0, i) == kids(s1, i) by {
        assert(same_but_taint(s0[i]->0, s1[i]->0));
    }
    assert forall|i: int| 0 <= i < s0.len() implies (#[trigger] f[i] is Some <==> (s0[i] is Some && !reachable(s0, id, i))) by {
        lemma_reach_same(s0, s1, id, i);
        if reachable(s1, id, i) {
            lemma_closed_holds_subtree(s1, killed, id, i);
        }
    }
    assert forall|i: int| 0 <= i < s0.len() && #[trigger] f[i] is Some implies {
        &&& same_content(s0[i]->0, f[i]->0)
        &&& f[i]->0.parent == s0[i]->0.parent
        &&& kids(f, i) == if i == s0[id]->0.parent { drop_value(kids(s0, i), id as usize) } else { kids(s0, i) }
    } by {
        assert(s1[i] is Some);
        assert(s0[i] is Some);
        assert(s0[id] is Some);
        assert(same_but_taint(s0[i]->0, s1[i]->0));
        assert(same_but_taint(s0[id]->0, s1[id]->0));
    }
    assert forall|k: nat| 1 <= k <= s0.len() && live(f, #[trigger] ancestor(s0, id, k)) implies f[ancestor(s0, id, k)]->0.tainted by {
        let x = ancestor(s0, id, k);
        assert(f[x] is Some);
        assert(s1[x] is Some);
        assert(s0[x] is Some);
    }
}

/// `b` keeps the nodes and links of `a`; other nodes than `id` differ at
/// most in their taint flag.
pub open spec fn edited_at(a: Seq<Option<Token>>, b: Seq<Option<Token>>, id: int) -> bool {
    &&& a.len() == b.len()
    &&& forall|i: int| 0 <= i < a.len() ==> (#[trigger] a[i] is Some <==> b[i] is Some)
    &&& forall|i: int| 0 <= i < a.len() && i != id && #[trigger] a[i] is Some ==> same_but_taint(a[i]->0, b[i]->0)
    &&& b[id]->0.children@ == a[id]->0.children@
    &&& b[id]->0.parent == a[id]->0.parent
}

proof fn lemma_edit_links(a: Seq<Option<Token>>, b: Seq<Option<Token>>, id: int)
    requires
        links_ok(a),
        live(a, id),
        edited_at(a, b, id),
    ensures
        links_ok(b),
{
    assert forall|i: int| 0 <= i < a.len() && #[trigger] a[i] is Some implies kids(a, i) == kids(b, i) && a[i]->0.parent == b[i]->0.parent by {
        if i != id {
            assert(same_but_taint(a[i]->0, b[i]->0));
        }
    }
    assert forall|p: int, k: int| live(b, p) && 0 <= k < kids(b, p).len() implies live(b, #[trigger] kids(b, p)[k] as int) && b[kids(b, p)[k] as int]->0.parent == p by {
        assert(a[p] is Some);
        assert(live(a, kids(a, p)[k] as int));
    }
    assert forall|n: int| live(b, n) && #[trigger] b[n]->0.parent != NO_PARENT implies live(b, b[n]->0.parent as int) && kids(b, b[n]->0.parent as int).contains(n as usize) by {
        assert(a[n] is Some);
        assert(live(a, a[n]->0.parent as int));
        assert(a[a[n]->0.parent as int] is Some);
    }
    assert forall|p: int, i: int, j: int| live(b, p) && 0 <= i < j < kids(b, p).len() implies #[trigger] kids(b, p)[i] != #[trigger] kids(b, p)[j] by {
        assert(a[p] is Some);
    }
}

impl Tree {
    fn take_token(&mut self, id: usize) -> (t: Token)
        requires
            old(self).is_node(id as int),
        ensures
            t == old(self).nodes@[id as int]->0,
            final(self).nodes@ == old(self).nodes@.update(id as int, None),
            final(self).root_id == old(self).root_id,
            final(self).labels@ == old(self).labels@,
    {
        let mut slot: Option<Token> = None;
        self.nodes.set_and_swap(id, &mut slot);
        slot.unwrap()
    }

    fn put_token(&mut self, id: usize, t: Token)
        requires
            id < old(self).nodes@.len(),
        ensures
            final(self).nodes@ == old(self).nodes@.update(id as int, Some(t)),
            final(self).root_id == old(self).root_id,
            final(self).labels@ == old(self).labels@,
    {
        self.nodes.set(id, Some(t));
    }

    /// Replaces the content of node `id` with the encoding of `new_content`
    /// under its declared tag, marks it manipulated and tainted, and taints
    /// its ancestors. Fails, changing nothing, when `id` names no node or the
    /// text does not encode.
    pub fn adapt_node_content(&mut self, id: usize, new_content: &str, real_bits: Option<u64>) -> (r: Result<(), EditError>)
        requires
            old(self).wf(),
        ensures
            final(self).wf(),
            final(self).root_id == old(self).root_id,
            final(self).labels@ == old(self).labels@,
            !old(self).is_node(id as int) ==> r == Err::<(), EditError>(EditError::UnknownNode),
            old(self).is_node(id as int) ==> {
                let e = encoding(old(self).nodes@[id as int]->0.tag, new_content@, real_bits);
                &&& e is Err ==> r == Err::<(), EditError>(EditError::Encoding(e->Err_0))
                &&& e is Ok ==> r is Ok
            },
            r is Err ==> final(self).nodes@ == old(self).nodes@,
            r is Ok ==> {
                let t = final(self).nodes@[id as int]->0;
                let o = old(self).nodes@[id as int]->0;
                &&& edited_at(old(self).nodes@, final(self).nodes@, id as int)
                &&& t.data@ == encoding(o.tag, new_content@, real_bits)->Ok_0
                &&& t.tag == o.tag && t.label@ == o.label@ && t.visual_tag@ == o.visual_tag@
                &&& t.manipulated_length == o.manipulated_length && t.visual_length == o.visual_length
                &&& t.manipulated && t.tainted
                &&& forall|k: nat| 1 <= k <= old(self).nodes@.len() && live(final(self).nodes@, #[trigger] ancestor(final(self).nodes@, id as int, k))
                    ==> final(self).nodes@[ancestor(final(self).nodes@, id as int, k)]->0.tainted
            },
    {
        if !self.contains(id) {
            return Err(EditError::UnknownNode);
        }
        let ghost s0 = self.nodes@;
        let mut t = self.take_token(id);
        let val = match val_to_bytes(t.tag, new_content, real_bits) {
            Ok(v) => v,
            Err(e) => {
                self.put_token(id, t);
                assert(self.nodes@ =~= s0);
                return Err(EditError::Encoding(e));
            },
        };
        t.data = val;
        t.manipulated = true;
        t.tainted = true;
        self.put_token(id, t);
        let ghost s1 = self.nodes@;
        proof {
            assert(edited_at(s0, s1, id as int));
            lemma_edit_links(s0, s1, id as int);
        }
        self.taint_parents(id);
        proof {
            let f = self.nodes@;
            lemma_taint_keeps_chain(s1, f, id as int, s0.len());
            assert(s1[id as int] is Some);
            assert(edited_at(s0, f, id as int)) by {
                assert forall|i: int| 0 <= i < s0.len() && i != id && #[trigger] s0[i] is Some implies same_but_taint(s0[i]->0, f[i]->0) by {
                    assert(s1[i] is Some);
                    assert(same_but_taint(s1[i]->0, f[i]->0));
                }
            }
        }
        Ok(())
    }

    /// Sets the length that node `id` shows and writes, apart from its real
    /// length, and marks it manipulated. Fails when `id` names no node.
    pub fn adapt_node_length(&mut self, id: usize, new_length: usize) -> (r: Result<(), EditError>)
        requires
            old(self).wf(),
        ensures
            final(self).wf(),
            final(self).root_id == old(self).root_id,
            final(self).labels@ == old(self).labels@,
            !old(self).is_node(id as int) ==> r == Err::<(), EditError>(EditError::UnknownNode) && final(self).nodes@ == old(self).nodes@,
            old(self).is_node(id as int) ==> r is Ok && {
                let t = final(self).nodes@[id as int]->0;
                let o = old(self).nodes@[id as int]->0;
                &&& edited_at(old(self).nodes@, final(self).nodes@, id as int)
                &&& final(self).nodes@ == old(self).nodes@.update(id as int, final(self).nodes@[id as int])
                &&& t.tag == o.tag && t.data@ == o.data@ && t.label@ == o.label@ && t.visual_tag@ == o.visual_tag@ && t.tainted == o.tainted
                &&& t.visual_length == new_length && t.manipulated_length && t.manipulated
            },
    {
        if !self.contains(id) {
            return Err(EditError::UnknownNode);
        }
        let ghost s0 = self.nodes@;
        let mut t = self.take_token(id);
        t.visual_length = new_length;
        t.manipulated_length = true;
        t.manipulated = true;
        self.put_token(id, t);
        proof {
            lemma_edit_links(s0, self.nodes@, id as int);
            assert(self.nodes@ =~= s0.update(id as int, self.nodes@[id as int]));
        }
        Ok(())
    }

    /// Sets the tag byte that node `id` writes, without checking its content
    /// against it, and marks it manipulated. Fails when `id` names no node.
    pub fn adapt_node_tag(&mut self, id: usize, tag: u8) -> (r: Result<(), EditError>)
        requires
            old(self).wf(),
        ensures
            final(self).wf(),
            final(self).root_id == old(self).root_id,
            final(self).labels@ == old(self).labels@,
            !old(self).is_node(id as int) ==> r == Err::<(), EditError>(EditError::UnknownNode) && final(self).nodes@ == old(self).nodes@,
            old(self).is_node(id as int) ==> r is Ok && {
                let t = final(self).nodes@[id as int]->0;
                let o = old(self).nodes@[id as int]->0;
                &&& edited_at(old(self).nodes@, final(self).nodes@, id as int)
                &&& final(self).nodes@ == old(self).nodes@.update(id as int, final(self).nodes@[id as int])
                &&& t.tag == o.tag && t.data@ == o.data@ && t.label@ == o.label@ && t.tainted == o.tainted
                &&& t.visual_length == o.visual_length && t.manipulated_length == o.manipulated_length
                &&& t.visual_tag@ == seq![tag] && t.manipulated
            },
    {
        if !self.contains(id) {
            return Err(EditError::UnknownNode);
        }
        let ghost s0 = self.nodes@;
        let mut t = self.take_token(id);
        t.visual_tag = vec![tag];
        assert(t.visual_tag@ =~= seq![tag]);
        t.manipulated = true;
        self.put_token(id, t);
        proof {
            lemma_edit_links(s0, self.nodes@, id as int);
            assert(self.nodes@ =~= s0.update(id as int, self.nodes@[id as int]));
        }
        Ok(())
    }
}

/// `m` maps `name` to `id` and keeps every other name of `l`.
pub open spec fn label_set(l: Seq<(String, usize)>, m: Seq<(String, usize)>, name: Seq<char>, id: usize) -> bool {
    &&& exists|i: int| 0 <= i < m.len() && (#[trigger] m[i]).0@ == name && m[i].1 == id
    &&& forall|i: int| 0 <= i < m.len() ==> #[trigger] m[i].0@ == name ==> m[i].1 == id
    &&& forall|i: int| 0 <= i < l.len() && (#[trigger] l[i]).0@ != name ==> exists|j: int| 0 <= j < m.len() && m[j].0@ == l[i].0@ && m[j].1 == l[i].1
    &&& forall|j: int| 0 <= j < m.len() && (#[trigger] m[j]).0@ != name ==> exists|i: int| 0 <= i < l.len() && m[j].0@ == l[i].0@ && m[j].1 == l[i].1
}

impl Tree {
    /// The id that `name` was given to last, if any.
    pub fn lookup_label(&self, name: &String) -> (r: Option<usize>)
        ensures
            r is Some ==> exists|i: int| 0 <= i < self.labels@.len() && (#[trigger] self.labels@[i]).0@ == name@ && self.labels@[i].1 == r->0,
            r is None ==> forall|i: int| 0 <= i < self.labels@.len() ==> (#[trigger] self.labels@[i]).0@ != name@,
    {
        let mut i: usize = 0;
        while i < self.labels.len()
            invariant
                i <= self.labels@.len(),
                forall|k: int| 0 <= k < i ==> (#[trigger] self.labels@[k]).0@ != name@,
            decreases self.labels@.len() - i,
        {
            if self.labels[i].0 == *name {
                return Some(self.labels[i].1);
            }
            i = i + 1;
        }
        None
    }

    /// Names node `id`: sets its label and maps the name to it. Fails when
    /// `id` names no node.
    pub fn adapt_node_label(&mut self, id: usize, new_label: String) -> (r: Result<(), EditError>)
        requires
            old(self).wf(),
        ensures
            final(self).wf(),
            final(self).root_id == old(self).root_id,
            !old(self).is_node(id as int) ==> r == Err::<(), EditError>(EditError::UnknownNode) && final(self).nodes@ == old(self).nodes@ && final(self).labels@ == old(self).labels@,
            old(self).is_node(id as int) ==> r is Ok && {
                let t = final(self).nodes@[id as int]->0;
                let o = old(self).nodes@[id as int]->0;
                &&& edited_at(old(self).nodes@, final(self).nodes@, id as int)
                &&& final(self).nodes@ == old(self).nodes@.update(id as int, final(self).nodes@[id as int])
                &&& t.tag == o.tag && t.data@ == o.data@ && t.tainted == o.tainted && t.manipulated == o.manipulated
                &&& t.visual_length == o.visual_length && t.manipulated_length == o.manipulated_length && t.visual_tag@ == o.visual_tag@
                &&& t.label@ == new_label@
                &&& label_set(old(self).labels@, final(self).labels@, new_label@, id)
            },
    {
        if !self.contains(id) {
            return Err(EditError::UnknownNode);
        }
        let ghost s0 = self.nodes@;
        let ghost l0 = self.labels@;
        let mut t = self.take_token(id);
        let name = new_label.clone();
        t.label = new_label;
        self.put_token(id, t);
        proof {
            lemma_edit_links(s0, self.nodes@, id as int);
            assert(self.nodes@ =~= s0.update(id as int, self.nodes@[id as int]));
        }
        let mut kept: Vec<(String, usize)> = Vec::new();
        let mut i: usize = 0;
        while i < self.labels.len()
            invariant
                i <= self.labels@.len(),
                self.labels@ == l0,
                forall|k: int| 0 <= k < kept@.len() ==> (#[trigger] kept@[k]).0@ != name@,
                forall|k: int| 0 <= k < i && (#[trigger] l0[k]).0@ != name@ ==> exists|j: int| 0 <= j < kept@.len() && kept@[j].0@ == l0[k].0@ && kept@[j].1 == l0[k].1,
                forall|j: int| 0 <= j < kept@.len() ==> exists|k: int| 0 <= k < l0.len() && (#[trigger] kept@[j]).0@ == l0[k].0@ && kept@[j].1 == l0[k].1,
            decreases self.labels@.len() - i,
        {
            if !(self.labels[i].0 == name) {
                let key = self.labels[i].0.clone();
                let ghost before = kept@;
                kept.push((key, self.labels[i].1));
                assert(kept@.last() == (key, l0[i as int].1));
                assert forall|k: int| 0 <= k <= i && (#[trigger] l0[k]).0@ != name@ implies exists|j: int| 0 <= j < kept@.len() && kept@[j].0@ == l0[k].0@ && kept@[j].1 == l0[k].1 by {
                    if k == i {
                        assert(kept@[kept@.len() - 1].0@ == l0[k].0@);
                    } else {
                        let j = choose|j: int| 0 <= j < before.len() && before[j].0@ == l0[k].0@ && before[j].1 == l0[k].1;
                        assert(kept@[j] == before[j]);
                    }
                }
                assert forall|j: int| 0 <= j < kept@.len() implies exists|k: int| 0 <= k < l0.len() && (#[trigger] kept@[j]).0@ == l0[k].0@ && kept@[j].1 == l0[k].1 by {
                    if j == kept@.len() - 1 {
                        assert(kept@[j].0@ == l0[i as int].0@);
                    } else {
                        assert(kept@[j] == before[j]);
                    }
                }
                assert forall|k: int| 0 <= k < kept@.len() implies (#[trigger] kept@[k]).0@ != name@ by {
                    if k < before.len() {
                        assert(kept@[k] == before[k]);
                    }
                }
            }
            i = i + 1;
        }
        let ghost before = kept@;
        kept.push((name, id));
        proof {
            let m = kept@;
            assert(m[m.len() - 1].0@ == new_label@);
            assert forall|k: int| 0 <= k < m.len() && #[trigger] m[k].0@ == new_label@ implies m[k].1 == id by {
                if k < before.len() {
                    assert(m[k] == before[k]);
                }
            }
            assert forall|k: int| 0 <= k < l0.len() && (#[trigger] l0[k]).0@ != new_label@ implies exists|j: int| 0 <= j < m.len() && m[j].0@ == l0[k].0@ && m[j].1 == l0[k].1 by {
                let j = choose|j: int| 0 <= j < before.len() && before[j].0@ == l0[k].0@ && before[j].1 == l0[k].1;
                assert(m[j] == before[j]);
            }
            assert forall|j: int| 0 <= j < m.len() && (#[trigger] m[j]).0@ != new_label@ implies exists|k: int| 0 <= k < l0.len() && m[j].0@ == l0[k].0@ && m[j].1 == l0[k].1 by {
                assert(m[j] == before[j]);
                assert(exists|k: int| 0 <= k < l0.len() && (#[trigger] before[j]).0@ == l0[k].0@ && before[j].1 == l0[k].1);
            }
        }
        self.labels = kept;
        Ok(())
    }
}

impl Tree {
    /// A tree of one node, the root, holding `data` under `tag`.
    pub fn with_root(tag: u8, data: Vec<u8>, label: String) -> (t: Tree)
        ensures
            t.wf(),
            t.root_id == 0,
            t.labels@.len() == 0,
            t.nodes@.len() == 1,
            t.nodes@[0] is Some,
            new_leaf(t.nodes@[0]->0, tag, data@, NO_PARENT, label@),
    {
        let ghost d = data@;
        let ghost l = label@;
        let root = Token {
            tag,
            data,
            children: Vec::new(),
            parent: NO_PARENT,
            label,
            tainted: true,
            manipulated: false,
            manipulated_length: false,
            visual_length: 0,
            visual_tag: vec![tag],
        };
        assert(root.visual_tag@ =~= seq![tag]);
        let t = Tree { nodes: vec![Some(root)], root_id: 0, labels: Vec::new() };
        assert(t.nodes@[0] == Some(root));
        t
    }
}

impl Tree {
    fn child_ok(&self, p: usize, c: usize) -> (r: bool)
        ensures
            r == (live(self.nodes@, c as int) && self.nodes@[c as int]->0.parent == p),
    {
        if c < self.nodes.len() {
            match &self.nodes[c] {
                Some(t) => t.parent == p,
                None => false,
            }
        } else {
            false
        }
    }

    fn kids_ok(&self, p: usize) -> (r: bool)
        requires
            live(self.nodes@, p as int),
        ensures
            r == ((forall|k: int| 0 <= k < kids(self.nodes@, p as int).len() ==> live(self.nodes@, #[trigger] kids(self.nodes@, p as int)[k] as int) && self.nodes@[kids(self.nodes@, p as int)[k] as int]->0.parent == p)
                && (forall|i: int, j: int| 0 <= i < j < kids(self.nodes@, p as int).len() ==> #[trigger] kids(self.nodes@, p as int)[i] != #[trigger] kids(self.nodes@, p as int)[j])),
    {
        let t = match &self.nodes[p] {
            Some(t) => t,
            None => {
                return false;
            },
        };
        let ghost ks = kids(self.nodes@, p as int);
        let mut k: usize = 0;
        while k < t.children.len()
            invariant
                t.children@ == ks,
                ks == kids(self.nodes@, p as int),
                k <= ks.len(),
                forall|q: int| 0 <= q < k ==> live(self.nodes@, #[trigger] ks[q] as int) && self.nodes@[ks[q] as int]->0.parent == p,
                forall|i: int, j: int| 0 <= i < j < k ==> #[trigger] ks[i] != #[trigger] ks[j],
            decreases ks.len() - k,
        {
            let c = t.children[k];
            if !self.child_ok(p, c) {
                return false;
            }
            let mut i: usize = 0;
            while i < k
                invariant
                    t.children@ == ks,
                    ks == kids(self.nodes@, p as int),
                    k < ks.len(),
                    i <= k,
                    c == ks[k as int],
                    forall|q: int| 0 <= q < i ==> ks[q] != c,
                decreases k - i,
            {
                if t.children[i] == c {
                    assert(kids(self.nodes@, p as int)[i as int] == kids(self.nodes@, p as int)[k as int]);
                    return false;
                }
                i = i + 1;
            }
            k = k + 1;
        }
        true
    }

    fn has_child(&self, q: usize, n: usize) -> (r: bool)
        requires
            live(self.nodes@, q as int),
        ensures
            r == kids(self.nodes@, q as int).contains(n),
    {
        let t = match &self.nodes[q] {
            Some(t) => t,
            None => {
                return false;
            },
        };
        let mut k: usize = 0;
        while k < t.children.len()
            invariant
                t.children@ == kids(self.nodes@, q as int),
                k <= t.children@.len(),
                forall|i: int| 0 <= i < k ==> t.children@[i] != n,
            decreases t.children@.len() - k,
        {
            if t.children[k] == n {
                assert(t.children@[k as int] == n);
                return true;
            }
            k = k + 1;
        }
        false
    }

    /// Whether the tree keeps its invariant (for a tree built from outside
    /// data).
    pub fn check(&self) -> (r: bool)
        ensures
            r == self.wf(),
    {
        let n = self.nodes.len();
        if n == usize::MAX {
            return false;
        }
        let ghost s = self.nodes@;
        let mut p: usize = 0;
        while p < n
            invariant
                s == self.nodes@,
                n == s.len(),
                p <= n,
                forall|x: int, k: int| 0 <= x < p && live(s, x) && 0 <= k < kids(s, x).len() ==> live(s, #[trigger] kids(s, x)[k] as int) && s[kids(s, x)[k] as int]->0.parent == x,
                forall|x: int, i: int, j: int| 0 <= x < p && live(s, x) && 0 <= i < j < kids(s, x).len() ==> #[trigger] kids(s, x)[i] != #[trigger] kids(s, x)[j],
                forall|x: int| 0 <= x < p && live(s, x) && #[trigger] s[x]->0.parent != NO_PARENT ==> live(s, s[x]->0.parent as int) && kids(s, s[x]->0.parent as int).contains(x as usize),
            decreases n - p,
        {
            if self.nodes[p].is_some() {
                if !self.kids_ok(p) {
                    return false;
                }
                let q = self.parent_of(p);
                if q != NO_PARENT {
                    if !(q < n && self.nodes[q].is_some()) {
                        return false;
                    }
                    if !self.has_child(q, p) {
                        return false;
                    }
                }
            }
            p = p + 1;
        }
        true
    }
}

/// `a` is `n` itself or one of its ancestors (within as many steps as
/// there are slots).
pub open spec fn above(s: Seq<Option<Token>>, a: int, n: int) -> bool {
    exists|k: nat| k <= s.len() && #[trigger] ancestor(s, n, k) == a
}

impl Tree {
    /// Whether `a` is `n` itself or one of its ancestors.
    pub fn is_above(&self, a: usize, n: usize) -> (r: bool)
        requires
            self.wf(),
            self.is_node(a as int),
        ensures
            r == above(self.nodes@, a as int, n as int),
    {
        let ghost s = self.nodes@;
        let len = self.nodes.len();
        let mut x = n;
        let mut step: usize = 0;
        assert(ancestor(s, n as int, 0) == n as int);
        while step <= len
            invariant
                s == self.nodes@,
                len == s.len(),
                len < usize::MAX,
                live(s, a as int),
                step <= len + 1,
                step <= len ==> x as int == ancestor(s, n as int, step as nat),
                forall|k: nat| k < step ==> #[trigger] ancestor(s, n as int, k) != a,
            decreases len + 1 - step,
        {
            if x == a {
                return true;
            }
            if !(x < len && self.nodes[x].is_some()) {
                proof {
                    assert forall|k: nat| k <= len implies #[trigger] ancestor(s, n as int, k) != a by {
                        if k >= step {
                            lemma_chain_ends(s, n as int, step as nat, k);
                        }
                    }
                }
                return false;
            }
            x = self.parent_of(x);
            step = step + 1;
        }
        false
    }
}

} // verus!
