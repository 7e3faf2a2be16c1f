//! An editing session: the tree behind an id-based edit interface, and the
//! decoding of the hex or base64 text a session starts from.

use vstd::prelude::*;
use vstd::utf8::encode_utf8;
use crate::der::{der_tree, tree_der};
use crate::encode::encoding;
use crate::project::{encode_tree, projection, records, Node};
use crate::text::{trim_text, trimmed};
use crate::tree::{
    above, ancestor, dragged, edited_at, grown, label_set, live, removed, EditError, Tree, NO_PARENT,
};
use crate::value::{all_hex, hex_bytes, strip_0x};

verus! {

/// Why an input text was refused.
#[derive(Debug, Clone, Copy, PartialEq, Eq, Structural)]
pub enum InputError {
    /// Neither hex nor base64.
    InvalidData,
    /// Shaped like base64, but does not decode.
    InvalidBase64,
}

/// A non-empty, even count of hex digits.
pub open spec fn is_hex_text(s: Seq<u8>) -> bool {
    s.len() > 0 && s.len() % 2 == 0 && all_hex(s)
}

pub open spec fn is_b64_char(b: u8) -> bool {
    (65 <= b <= 90) || (97 <= b <= 122) || (48 <= b <= 57) || b == 43u8 || b == 47u8
}

pub open spec fn all_b64(s: Seq<u8>) -> bool {
    forall|i: int| 0 <= i < s.len() ==> is_b64_char(#[trigger] s[i])
}

/// Padded base64 shape: groups of four characters, the last of which may end
/// in `=` or `==`.
pub open spec fn is_base64_text(s: Seq<u8>) -> bool {
    let n = s.len();
    &&& n % 4 == 0
    &&& {
        ||| all_b64(s)
        ||| (n >= 4 && s[n - 1] == 61u8 && s[n - 2] == 61u8 && all_b64(s.subrange(0, n - 2)))
        ||| (n >= 4 && s[n - 1] == 61u8 && all_b64(s.subrange(0, n - 1)))
    }
}

/// What the standard base64 engine decodes from a text.
pub uninterp spec fn base64_decoded(s: Seq<u8>) -> Option<Seq<u8>>;

/// One character of the standard base64 alphabet, for `v < 64`.
pub open spec fn b64_digit(v: nat) -> u8 {
    if v < 26 {
        (65 + v) as u8
    } else if v < 52 {
        (71 + v) as u8
    } else if v < 62 {
        (v - 4) as u8
    } else if v == 62 {
        43u8
    } else {
        47u8
    }
}

/// Standard padded base64: each three bytes become four characters; a last
/// group of one or two bytes is filled up with `=`.
pub open spec fn base64_bytes(b: Seq<u8>) -> Seq<u8>
    decreases b.len(),
{
    if b.len() == 0 {
        Seq::empty()
    } else if b.len() == 1 {
        seq![b64_digit(b[0] as nat / 4), b64_digit(b[0] as nat % 4 * 16), 61u8, 61u8]
    } else if b.len() == 2 {
        seq![
            b64_digit(b[0] as nat / 4),
            b64_digit(b[0] as nat % 4 * 16 + b[1] as nat / 16),
            b64_digit(b[1] as nat % 16 * 4),
            61u8,
        ]
    } else {
        seq![
            b64_digit(b[0] as nat / 4),
            b64_digit(b[0] as nat % 4 * 16 + b[1] as nat / 16),
            b64_digit(b[1] as nat % 16 * 4 + b[2] as nat / 64),
            b64_digit(b[2] as nat % 64),
        ] + base64_bytes(b.subrange(3, b.len() as int))
    }
}

/// Relies on `hex::decode`: digits of either case, two to a byte, high
/// digit first; an odd count or another character is refused.
#[verifier::external_body]
fn hex_decode(s: &[u8]) -> (r: Option<Vec<u8>>)
    ensures
        s@.len() % 2 == 0 && all_hex(s@) ==> r is Some && r->0@ == hex_bytes(s@),
        !(s@.len() % 2 == 0 && all_hex(s@)) ==> r is None,
{
    hex::decode(s).ok()
}

/// Relies on `base64::decode`, the standard engine with padding: it asks
/// for canonical padding and zero trailing bits, so it accepts exactly the
/// texts that `base64_bytes` writes, and gives back what was written.
#[verifier::external_body]
#[allow(deprecated)]
fn base64_decode(s: &[u8]) -> (r: Option<Vec<u8>>)
    ensures
        match r {
            Some(v) => base64_decoded(s@) == Some(v@) && base64_bytes(v@) == s@,
            None => base64_decoded(s@) is None,
        },
        (exists|b: Seq<u8>| base64_bytes(b) == s@) ==> r is Some,
{
    base64::decode(s).ok()
}

/// Relies on `base64::encode`: the standard alphabet with `=` padding.
#[verifier::external_body]
#[allow(deprecated)]
fn base64_encode(b: &[u8]) -> (r: String)
    ensures
        encode_utf8(r@) == base64_bytes(b@),
{
    base64::encode(b)
}

/// The bytes that an input text stands for, once trimmed and without `0x`.
pub open spec fn decoded_input(data: Seq<char>) -> Result<Seq<u8>, InputError> {
    let t = strip_0x(encode_utf8(trimmed(data)));
    if is_hex_text(t) {
        Ok(hex_bytes(t))
    } else if is_base64_text(t) {
        match base64_decoded(t) {
            Some(b) => Ok(b),
            None => Err(InputError::InvalidBase64),
        }
    } else {
        Err(InputError::InvalidData)
    }
}

fn is_hex_bytes(s: &[u8]) -> (r: bool)
    ensures
        r == is_hex_text(s@),
{
    if s.len() == 0 || s.len() % 2 != 0 {
        return false;
    }
    let mut i: usize = 0;
    while i < s.len()
        invariant
            i <= s@.len(),
            forall|k: int| 0 <= k < i ==> (#[trigger] crate::value::hex_val(s@[k])) is Some,
        decreases s@.len() - i,
    {
        let b = s[i];
        if !((48 <= b && b <= 57) || (97 <= b && b <= 102) || (65 <= b && b <= 70)) {
            assert(crate::value::hex_val(s@[i as int]) is None);
            return false;
        }
        i = i + 1;
    }
    true
}

fn b64_char(b: u8) -> (r: bool)
    ensures
        r == is_b64_char(b),
{
    (65 <= b && b <= 90) || (97 <= b && b <= 122) || (48 <= b && b <= 57) || b == 43u8 || b == 47u8
}

fn all_b64_upto(s: &[u8], n: usize) -> (r: bool)
    requires
        n <= s@.len(),
    ensures
        r == all_b64(s@.subrange(0, n as int)),
{
    let mut i: usize = 0;
    while i < n
        invariant
            i <= n <= s@.len(),
            forall|k: int| 0 <= k < i ==> is_b64_char(#[trigger] s@[k]),
        decreases n - i,
    {
        if !b64_char(s[i]) {
            assert(s@.subrange(0, n as int)[i as int] == s@[i as int]);
            return false;
        }
        i = i + 1;
    }
    assert forall|k: int| 0 <= k < n implies is_b64_char(#[trigger] s@.subrange(0, n as int)[k]) by {
        assert(s@.subrange(0, n as int)[k] == s@[k]);
    }
    true
}

fn is_base64_bytes(s: &[u8]) -> (r: bool)
    ensures
        r == is_base64_text(s@),
{
    let n = s.len();
    if n % 4 != 0 {
        return false;
    }
    assert(s@.subrange(0, n as int) =~= s@);
    if all_b64_upto(s, n) {
        return true;
    }
    if n >= 4 && s[n - 1] == 61u8 && s[n - 2] == 61u8 && all_b64_upto(s, n - 2) {
        return true;
    }
    n >= 4 && s[n - 1] == 61u8 && all_b64_upto(s, n - 1)
}

/// Decodes an input text: surrounding whitespace and a `0x` prefix are
/// dropped; hex is tried first, then padded base64.
pub fn decode_input(data: &str) -> (r: Result<Vec<u8>, InputError>)
    ensures
        match r {
            Ok(v) => decoded_input(data@) == Ok::<Seq<u8>, InputError>(v@),
            Err(e) => decoded_input(data@) == Err::<Seq<u8>, InputError>(e),
        },
{
    let t = trim_text(data);
    let b = t.as_bytes();
    let start: usize = if b.len() >= 2 && b[0] == 48u8 && b[1] == 120u8 {
        2
    } else {
        0
    };
    let s = vstd::slice::slice_subrange(b, start, b.len());
    assert(s@ =~= strip_0x(b@));
    if is_hex_bytes(s) {
        match hex_decode(s) {
            Some(v) => Ok(v),
            None => Err(InputError::InvalidData),
        }
    } else if is_base64_bytes(s) {
        match base64_decode(s) {
            Some(v) => Ok(v),
            None => Err(InputError::InvalidBase64),
        }
    } else {
        Err(InputError::InvalidData)
    }
}

/// Base64 text of bytes, with the standard alphabet and padding.
pub fn to_base64(b: &Vec<u8>) -> (r: String)
    ensures
        encode_utf8(r@) == base64_bytes(b@),
{
    base64_encode(b.as_slice())
}

/// An editing session over one tree.
pub struct State {
    pub tree: Tree,
    /// The kind of object the tree encodes (such as `roa` or `cer`), as the
    /// repository builder classifies it; empty when unknown.
    pub obj_type: String,
}

impl State {
    /// The session's tree keeps its invariant.
    pub open spec fn wf(&self) -> bool {
        self.tree.wf()
    }

    /// A session over a tree built elsewhere, if it keeps the invariant.
    pub fn from_tree(tree: Tree, obj_type: String) -> (r: Option<State>)
        ensures
            r is Some <==> tree.wf(),
            r is Some ==> r->0.tree == tree && r->0.wf() && r->0.obj_type@ == obj_type@,
    {
        if tree.check() {
            Some(State { tree, obj_type })
        } else {
            None
        }
    }

    /// A session over a tree of one node holding `data` under `tag`.
    pub fn from_root(tag: u8, data: Vec<u8>, label: String) -> (st: State)
        ensures
            st.wf(),
            st.obj_type@.len() == 0,
            st.tree.root_id == 0,
            st.tree.nodes@.len() == 1,
            st.tree.nodes@[0] is Some,
            crate::tree::new_leaf(st.tree.nodes@[0]->0, tag, data@, NO_PARENT, label@),
    {
        State { tree: Tree::with_root(tag, data, label), obj_type: String::new() }
    }

    /// Adds a leaf holding raw `data`; see `Tree::attach`.
    pub fn attach(&mut self, tag: u8, data: Vec<u8>, parent: usize, label: String) -> (r: Result<usize, EditError>)
        requires
            old(self).wf(),
        ensures
            final(self).tree.wf(),
            final(self).obj_type@ == old(self).obj_type@,
            final(self).tree.root_id == old(self).tree.root_id,
            final(self).tree.labels@ == old(self).tree.labels@,
            !old(self).tree.is_node(parent as int) ==> r == Err::<usize, EditError>(EditError::UnknownParent),
            old(self).tree.is_node(parent as int) ==> (
                if old(self).tree.nodes@.len() + 1 >= usize::MAX {
                    r == Err::<usize, EditError>(EditError::TreeFull)
                } else {
                    r == Ok::<usize, EditError>(old(self).tree.nodes@.len() as usize)
                }
            ),
            r is Err ==> final(self).tree.nodes@ == old(self).tree.nodes@,
            r is Ok ==> grown(old(self).tree.nodes@, final(self).tree.nodes@, r->Ok_0 as int, tag, data@, parent, label@),
    {
        self.tree.attach(tag, data, parent, label)
    }

    /// Adds a leaf with the encoding of `value` under `typ` as the last child
    /// of `parent`; see `Tree::add_node`.
    pub fn add_node(&mut self, typ: u8, value: &str, real_bits: Option<u64>, parent: usize, label: String) -> (r: Result<usize, EditError>)
        requires
            old(self).wf(),
        ensures
            final(self).tree.wf(),
            final(self).obj_type@ == old(self).obj_type@,
            final(self).tree.root_id == old(self).tree.root_id,
            final(self).tree.labels@ == old(self).tree.labels@,
            !old(self).tree.is_node(parent as int) ==> r == Err::<usize, EditError>(EditError::UnknownParent),
            old(self).tree.is_node(parent as int) && encoding(typ, value@, real_bits) is Err ==> r == Err::<usize, EditError>(EditError::Encoding(encoding(typ, value@, real_bits)->Err_0)),
            old(self).tree.is_node(parent as int) && encoding(typ, value@, real_bits) is Ok ==> (
                if old(self).tree.nodes@.len() + 1 >= usize::MAX {
                    r == Err::<usize, EditError>(EditError::TreeFull)
                } else {
                    r == Ok::<usize, EditError>(old(self).tree.nodes@.len() as usize)
                }
            ),
            r is Err ==> final(self).tree.nodes@ == old(self).tree.nodes@,
            r is Ok ==> grown(old(self).tree.nodes@, final(self).tree.nodes@, r->Ok_0 as int, typ, encoding(typ, value@, real_bits)->Ok_0, parent, label@),
    {
        self.tree.add_node(typ, value, real_bits, parent, label)
    }

    /// Re-encodes the content of node `id`; see `Tree::adapt_node_content`.
    pub fn adapt_node_content(&mut self, id: usize, new_content: &str, real_bits: Option<u64>) -> (r: Result<(), EditError>)
        requires
            old(self).wf(),
        ensures
            final(self).tree.wf(),
            final(self).obj_type@ == old(self).obj_type@,
            final(self).tree.root_id == old(self).tree.root_id,
            final(self).tree.labels@ == old(self).tree.labels@,
            !old(self).tree.is_node(id as int) ==> r == Err::<(), EditError>(EditError::UnknownNode),
            old(self).tree.is_node(id as int) ==> {
                let e = encoding(old(self).tree.nodes@[id as int]->0.tag, new_content@, real_bits);
                &&& e is Err ==> r == Err::<(), EditError>(EditError::Encoding(e->Err_0))
                &&& e is Ok ==> r is Ok
            },
            r is Err ==> final(self).tree.nodes@ == old(self).tree.nodes@,
            r is Ok ==> {
                let t = final(self).tree.nodes@[id as int]->0;
                let o = old(self).tree.nodes@[id as int]->0;
                &&& edited_at(old(self).tree.nodes@, final(self).tree.nodes@, id as int)
                &&& t.data@ == encoding(o.tag, new_content@, real_bits)->Ok_0
                &&& t.tag == o.tag && t.label@ == o.label@ && t.visual_tag@ == o.visual_tag@
                &&& t.manipulated_length == o.manipulated_length && t.visual_length == o.visual_length
                &&& t.manipulated && t.tainted
                &&& forall|k: nat| 1 <= k <= old(self).tree.nodes@.len() && live(final(self).tree.nodes@, #[trigger] ancestor(final(self).tree.nodes@, id as int, k))
                    ==> final(self).tree.nodes@[ancestor(final(self).tree.nodes@, id as int, k)]->0.tainted
            },
    {
        self.tree.adapt_node_content(id, new_content, real_bits)
    }

    /// Overrides the length node `id` shows; see `Tree::adapt_node_length`.
    pub fn adapt_node_length(&mut self, id: usize, new_length: usize) -> (r: Result<(), EditError>)
        requires
            old(self).wf(),
        ensures
            final(self).tree.wf(),
            final(self).obj_type@ == old(self).obj_type@,
            final(self).tree.root_id == old(self).tree.root_id,
            final(self).tree.labels@ == old(self).tree.labels@,
            !old(self).tree.is_node(id as int) ==> r == Err::<(), EditError>(EditError::UnknownNode) && final(self).tree.nodes@ == old(self).tree.nodes@,
            old(self).tree.is_node(id as int) ==> r is Ok && {
                let t = final(self).tree.nodes@[id as int]->0;
                let o = old(self).tree.nodes@[id as int]->0;
                &&& edited_at(old(self).tree.nodes@, final(self).tree.nodes@, id as int)
                &&& final(self).tree.nodes@ == old(self).tree.nodes@.update(id as int, final(self).tree.nodes@[id as int])
                &&& t.tag == o.tag && t.data@ == o.data@ && t.label@ == o.label@ && t.visual_tag@ == o.visual_tag@ && t.tainted == o.tainted
                &&& t.visual_length == new_length && t.manipulated_length && t.manipulated
            },
    {
        self.tree.adapt_node_length(id, new_length)
    }

    /// Overrides the tag byte node `id` writes; see `Tree::adapt_node_tag`.
    pub fn adapt_node_tag(&mut self, id: usize, tag: u8) -> (r: Result<(), EditError>)
        requires
            old(self).wf(),
        ensures
            final(self).tree.wf(),
            final(self).obj_type@ == old(self).obj_type@,
            final(self).tree.root_id == old(self).tree.root_id,
            final(self).tree.labels@ == old(self).tree.labels@,
            !old(self).tree.is_node(id as int) ==> r == Err::<(), EditError>(EditError::UnknownNode) && final(self).tree.nodes@ == old(self).tree.nodes@,
            old(self).tree.is_node(id as int) ==> r is Ok && {
                let t = final(self).tree.nodes@[id as int]->0;
                let o = old(self).tree.nodes@[id as int]->0;
                &&& edited_at(old(self).tree.nodes@, final(self).tree.nodes@, id as int)
                &&& final(self).tree.nodes@ == old(self).tree.nodes@.update(id as int, final(self).tree.nodes@[id as int])
                &&& t.tag == o.tag && t.data@ == o.data@ && t.label@ == o.label@ && t.tainted == o.tainted
                &&& t.visual_length == o.visual_length && t.manipulated_length == o.manipulated_length
                &&& t.visual_tag@ == seq![tag] && t.manipulated
            },
    {
        self.tree.adapt_node_tag(id, tag)
    }

    /// Names node `id`; see `Tree::adapt_node_label`.
    pub fn adapt_node_label(&mut self, id: usize, new_label: String) -> (r: Result<(), EditError>)
        requires
            old(self).wf(),
        ensures
            final(self).tree.wf(),
            final(self).obj_type@ == old(self).obj_type@,
            final(self).tree.root_id == old(self).tree.root_id,
            !old(self).tree.is_node(id as int) ==> r == Err::<(), EditError>(EditError::UnknownNode) && final(self).tree.nodes@ == old(self).tree.nodes@ && final(self).tree.labels@ == old(self).tree.labels@,
            old(self).tree.is_node(id as int) ==> r is Ok && {
                let t = final(self).tree.nodes@[id as int]->0;
                let o = old(self).tree.nodes@[id as int]->0;
                &&& edited_at(old(self).tree.nodes@, final(self).tree.nodes@, id as int)
                &&& final(self).tree.nodes@ == old(self).tree.nodes@.update(id as int, final(self).tree.nodes@[id as int])
                &&& t.tag == o.tag && t.data@ == o.data@ && t.tainted == o.tainted && t.manipulated == o.manipulated
                &&& t.visual_length == o.visual_length && t.manipulated_length == o.manipulated_length && t.visual_tag@ == o.visual_tag@
                &&& t.label@ == new_label@
                &&& label_set(old(self).tree.labels@, final(self).tree.labels@, new_label@, id)
            },
    {
        self.tree.adapt_node_label(id, new_label)
    }

    /// Moves node `id` under `new_parent` at `child_index`; see
    /// `Tree::drag_node`.
    pub fn drag_node(&mut self, id: usize, new_parent: usize, child_index: usize) -> (r: Result<(), EditError>)
        requires
            old(self).wf(),
        ensures
            final(self).tree.wf(),
            final(self).obj_type@ == old(self).obj_type@,
            final(self).tree.root_id == old(self).tree.root_id,
            final(self).tree.labels@ == old(self).tree.labels@,
            !(old(self).tree.is_node(id as int) && old(self).tree.is_node(new_parent as int)) ==> r == Err::<(), EditError>(EditError::UnknownNode) && final(self).tree.nodes@ == old(self).tree.nodes@,
            old(self).tree.is_node(id as int) && old(self).tree.is_node(new_parent as int) && above(old(self).tree.nodes@, id as int, new_parent as int) ==> r == Err::<(), EditError>(EditError::WouldCycle) && final(self).tree.nodes@ == old(self).tree.nodes@,
            old(self).tree.is_node(id as int) && old(self).tree.is_node(new_parent as int) && !above(old(self).tree.nodes@, id as int, new_parent as int) ==> {
                &&& r is Ok
                &&& dragged(old(self).tree.nodes@, final(self).tree.nodes@, id as int, new_parent as int, child_index)
                &&& forall|k: nat| 1 <= k <= old(self).tree.nodes@.len() && live(old(self).tree.nodes@, #[trigger] ancestor(old(self).tree.nodes@, id as int, k))
                    ==> final(self).tree.nodes@[ancestor(old(self).tree.nodes@, id as int, k)]->0.tainted
                &&& forall|k: nat| 1 <= k <= old(self).tree.nodes@.len() && live(final(self).tree.nodes@, #[trigger] ancestor(final(self).tree.nodes@, id as int, k))
                    ==> final(self).tree.nodes@[ancestor(final(self).tree.nodes@, id as int, k)]->0.tainted
            },
    {
        self.tree.drag_node(id, new_parent, child_index)
    }

    /// Removes node `id` and its subtree; see `Tree::remove_node`.
    pub fn remove_node(&mut self, id: usize) -> (r: Result<(), EditError>)
        requires
            old(self).wf(),
        ensures
            final(self).tree.wf(),
            final(self).obj_type@ == old(self).obj_type@,
            final(self).tree.root_id == old(self).tree.root_id,
            final(self).tree.labels@ == old(self).tree.labels@,
            !old(self).tree.is_node(id as int) ==> r == Err::<(), EditError>(EditError::UnknownNode) && final(self).tree.nodes@ == old(self).tree.nodes@,
            old(self).tree.is_node(id as int) ==> {
                &&& r is Ok
                &&& removed(old(self).tree.nodes@, final(self).tree.nodes@, id as int)
                &&& forall|k: nat| 1 <= k <= old(self).tree.nodes@.len() && live(final(self).tree.nodes@, #[trigger] ancestor(old(self).tree.nodes@, id as int, k))
                    ==> final(self).tree.nodes@[ancestor(old(self).tree.nodes@, id as int, k)]->0.tainted
            },
    {
        self.tree.remove_node(id)
    }

    /// The records of the tree, root first, in pre-order.
    pub fn get_nodes(&self) -> (r: Vec<Node>)
        ensures
            records(r@, self.tree.nodes@, projection(&self.tree)),
    {
        encode_tree(&self.tree)
    }
    /// The tree's encoding, lengths computed afresh.
    pub fn export_bin(&self) -> (r: Vec<u8>)
        ensures
            r@ == tree_der(&self.tree),
    {
        der_tree(&self.tree)
    }

    /// The tree's encoding as base64 text.
    pub fn export_base64(&self) -> (r: String)
        ensures
            encode_utf8(r@) == base64_bytes(tree_der(&self.tree)),
    {
        let b = der_tree(&self.tree);
        to_base64(&b)
    }
}

/// One entry of an RRDP snapshot: its URI and content.
pub struct RrdpEntry {
    uri: String,
    content: String,
}

impl RrdpEntry {
    pub closed spec fn uri_view(&self) -> Seq<char> {
        self.uri@
    }

    pub closed spec fn content_view(&self) -> Seq<char> {
        self.content@
    }

    pub fn new(uri: String, content: String) -> (r: RrdpEntry)
        ensures
            r.uri_view() == uri@,
            r.content_view() == content@,
    {
        RrdpEntry { uri, content }
    }

    pub fn uri(&self) -> (r: String)
        ensures
            r@ == self.uri_view(),
    {
        self.uri.clone()
    }

    pub fn content(&self) -> (r: String)
        ensures
            r@ == self.content_view(),
    {
        self.content.clone()
    }
}

} // verus!
