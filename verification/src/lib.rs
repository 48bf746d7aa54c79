//! A statically-typed, nested data structure exposed as a dynamically
//! path-addressable parameter tree: every scalar leaf can be enumerated,
//! read, and written through a dotted name string of at most 16 bytes,
//! while each value crosses the wire inside a single 4-byte float slot.

use vstd::prelude::*;
use vstd::slice::slice_index_get;
use vstd::string::StringSliceAdditionalSpecFns;
use vstd::utf8::encode_utf8;

pub mod ident;
pub mod iter;
pub mod node;
pub mod value;

pub use ident::Ident;
pub use iter::{param_iter, param_iter_named, ParamIter, MAX_STACK_DEPTH};
pub use node::{Entry, Enum, Node, NodeRef, Tree, Variant};
pub use value::{Floaty, Leaf, Value};

use crate::ident::SEPARATOR;
use crate::node::{
    find_entry, find_variant, lemma_entries_view_len, lemma_find_entry, lemma_find_variant,
    node_size, node_wf, ref_view, EntryV, EnumV, NodeV,
};

verus! {

/// The recoverable failures of this library. Structural misses during path
/// resolution are reported as `None`/`false` instead, never as an `Error`.
#[derive(Debug, PartialEq)]
pub enum Error {
    /// While iterating a tree, appending the next segment would exceed the
    /// 16-byte identifier capacity; carries the path so far and the
    /// offending segment.
    PathTooLong(Ident, String),
    /// While iterating a tree, descending would exceed the traversal
    /// stack's maximum depth; carries the path so far and the offending
    /// segment.
    DepthTooBig(Ident, String),
    /// A raw byte sequence is too long to be an identifier.
    SequenceTooLong,
    /// A raw byte sequence is not valid UTF-8.
    SequenceNotUtf8,
}

/// A parameter combines a 16-byte identifier with the value read at that
/// path.
#[derive(Debug, Clone, Copy, PartialEq)]
pub struct Parameter {
    pub ident: Ident,
    pub value: Value,
}

/// The mathematical view of a [`Parameter`]: the identifier's bytes and
/// the value.
#[verifier::ext_equal]
pub ghost struct ParamV {
    pub path: Seq<u8>,
    pub value: Value,
}

impl View for Parameter {
    type V = ParamV;

    open spec fn view(&self) -> ParamV {
        ParamV { path: self.ident@, value: self.value }
    }
}

/// The mathematical view of an [`Error`]: segments appear as their UTF-8
/// bytes.
#[verifier::ext_equal]
pub ghost enum ErrorV {
    PathTooLong { path: Seq<u8>, entry: Seq<u8> },
    DepthTooBig { path: Seq<u8>, entry: Seq<u8> },
    SequenceTooLong,
    SequenceNotUtf8,
}

impl View for Error {
    type V = ErrorV;

    open spec fn view(&self) -> ErrorV {
        match self {
            Error::PathTooLong(id, seg) => ErrorV::PathTooLong {
                path: id@,
                entry: encode_utf8(seg@),
            },
            Error::DepthTooBig(id, seg) => ErrorV::DepthTooBig {
                path: id@,
                entry: encode_utf8(seg@),
            },
            Error::SequenceTooLong => ErrorV::SequenceTooLong,
            Error::SequenceNotUtf8 => ErrorV::SequenceNotUtf8,
        }
    }
}

/// The ASCII `#`: the reserved path segment that addresses an enum's own
/// discriminant rather than its payload.
pub const SIGIL: u8 = 35;

/// The end of the path segment that starts at `pos`: the position of the
/// next separator at or after `pos`, or the end of the path.
pub open spec fn seg_end(path: Seq<u8>, pos: int) -> int
    decreases path.len() - pos,
{
    if pos < 0 || pos >= path.len() {
        path.len() as int
    } else if path[pos] == SEPARATOR {
        pos
    } else {
        seg_end(path, pos + 1)
    }
}

/// `seg_end` finds the segment's end: everything from `pos` up to it is
/// separator-free, and it either sits on a separator or at the path's end.
pub proof fn lemma_seg_end(path: Seq<u8>, pos: int)
    requires
        0 <= pos <= path.len(),
    ensures
        pos <= seg_end(path, pos) <= path.len(),
        seg_end(path, pos) < path.len() ==> path[seg_end(path, pos)] == SEPARATOR,
        forall|j: int| pos <= j < seg_end(path, pos) ==> path[j] != SEPARATOR,
    decreases path.len() - pos,
{
    if pos < path.len() && path[pos] != SEPARATOR {
        lemma_seg_end(path, pos + 1);
    }
}

/// The first position at or after `pos` that is not a separator; leading
/// separators of a path are ignored by resolution.
pub open spec fn skip_dots(path: Seq<u8>, pos: int) -> int
    decreases path.len() - pos,
{
    if pos < 0 || pos >= path.len() {
        path.len() as int
    } else if path[pos] == SEPARATOR {
        skip_dots(path, pos + 1)
    } else {
        pos
    }
}

proof fn lemma_skip_dots(path: Seq<u8>, pos: int)
    requires
        0 <= pos <= path.len(),
    ensures
        pos <= skip_dots(path, pos) <= path.len(),
    decreases path.len() - pos,
{
    if pos < path.len() && path[pos] == SEPARATOR {
        lemma_skip_dots(path, pos + 1);
    }
}

/// A node's size strictly bounds the size of each of its tree children.
pub proof fn lemma_entries_size_element(s: Seq<EntryV>, i: int)
    requires
        0 <= i < s.len(),
    ensures
        node_size(s[i].node) < crate::node::entries_size(s),
    decreases s.len(),
{
    if i > 0 {
        lemma_entries_size_element(s.drop_first(), i - 1);
    }
}

/// What resolving `path` from position `pos` against node `n` reads.
///
/// `more` says whether a segment (possibly empty) is still pending at
/// `pos`. A tree consumes one segment and descends into the named child if
/// it is available; an enum resolves its discriminant when the pending
/// segment is exactly the sigil and the path ends there, and otherwise
/// transparently substitutes its active payload; a leaf yields its value
/// only when the path is exhausted.
pub open spec fn spec_get(n: NodeV, path: Seq<u8>, pos: int, more: bool) -> Option<Value>
    decreases node_size(n),
    via spec_get_dec
{
    match n {
        NodeV::Absent => None,
        NodeV::Leaf(v) => if more {
            None
        } else {
            Some(v)
        },
        NodeV::Tree(entries) => {
            if !more {
                None
            } else {
                let e = seg_end(path, pos);
                let seg = path.subrange(pos, e);
                let fe = find_entry(entries, seg);
                if fe >= 0 && entries[fe].enabled {
                    if e < path.len() {
                        spec_get(entries[fe].node, path, e + 1, true)
                    } else {
                        spec_get(entries[fe].node, path, e, false)
                    }
                } else {
                    None
                }
            }
        },
        NodeV::Enum(u) => {
            if more && path.subrange(pos, seg_end(path, pos)) == seq![SIGIL] {
                if seg_end(path, pos) < path.len() {
                    None
                } else {
                    Some(u.variants[u.active].tag)
                }
            } else {
                spec_get(*u.payload, path, pos, more)
            }
        },
    }
}

#[via_fn]
proof fn spec_get_dec(n: NodeV, path: Seq<u8>, pos: int, more: bool) {
    match n {
        NodeV::Tree(entries) => {
            if more {
                let e = seg_end(path, pos);
                let seg = path.subrange(pos, e);
                let fe = find_entry(entries, seg);
                lemma_find_entry(entries, seg);
                if fe >= 0 {
                    lemma_entries_size_element(entries, fe);
                }
            }
        },
        _ => {},
    }
}

/// What writing `val` along `path` from position `pos` does to node `n`:
/// the updated node and whether the write took effect. A failed write
/// leaves the node unchanged. Writing to an enum's sigil segment performs
/// the destructive variant reset of
/// [`Enum::set_discriminant`](crate::node::Enum::set_discriminant).
pub open spec fn spec_set(n: NodeV, path: Seq<u8>, pos: int, more: bool, val: Value) -> (
    NodeV,
    bool,
)
    decreases node_size(n),
    via spec_set_dec
{
    match n {
        NodeV::Absent => (n, false),
        NodeV::Leaf(v) => if !more && v.same_kind(val) {
            (NodeV::Leaf(val), true)
        } else {
            (n, false)
        },
        NodeV::Tree(entries) => {
            if !more {
                (n, false)
            } else {
                let e = seg_end(path, pos);
                let seg = path.subrange(pos, e);
                let fe = find_entry(entries, seg);
                if fe >= 0 && entries[fe].enabled {
                    let sr = if e < path.len() {
                        spec_set(entries[fe].node, path, e + 1, true, val)
                    } else {
                        spec_set(entries[fe].node, path, e, false, val)
                    };
                    (
                        NodeV::Tree(
                            entries.update(
                                fe,
                                EntryV {
                                    name: entries[fe].name,
                                    enabled: entries[fe].enabled,
                                    node: sr.0,
                                },
                            ),
                        ),
                        sr.1,
                    )
                } else {
                    (n, false)
                }
            }
        },
        NodeV::Enum(u) => {
            if more && path.subrange(pos, seg_end(path, pos)) == seq![SIGIL] {
                if seg_end(path, pos) < path.len() {
                    (n, false)
                } else {
                    let fv = find_variant(u.variants, val);
                    if fv >= 0 {
                        (
                            NodeV::Enum(
                                EnumV {
                                    variants: u.variants,
                                    active: fv,
                                    payload: Box::new(u.variants[fv].payload),
                                },
                            ),
                            true,
                        )
                    } else {
                        (n, false)
                    }
                }
            } else {
                let sr = spec_set(*u.payload, path, pos, more, val);
                (
                    NodeV::Enum(
                        EnumV { variants: u.variants, active: u.active, payload: Box::new(sr.0) },
                    ),
                    sr.1,
                )
            }
        },
    }
}

#[via_fn]
proof fn spec_set_dec(n: NodeV, path: Seq<u8>, pos: int, more: bool, val: Value) {
    match n {
        NodeV::Tree(entries) => {
            if more {
                let e = seg_end(path, pos);
                let seg = path.subrange(pos, e);
                let fe = find_entry(entries, seg);
                lemma_find_entry(entries, seg);
                if fe >= 0 {
                    lemma_entries_size_element(entries, fe);
                }
            }
        },
        _ => {},
    }
}

/// Law: a write that reports failure leaves the node exactly as it was.
pub proof fn lemma_failed_set_unchanged(n: NodeV, path: Seq<u8>, pos: int, more: bool, val: Value)
    ensures
        !spec_set(n, path, pos, more, val).1 ==> spec_set(n, path, pos, more, val).0 == n,
    decreases node_size(n),
{
    match n {
        NodeV::Absent => {},
        NodeV::Leaf(_) => {},
        NodeV::Tree(entries) => {
            if more {
                let e = seg_end(path, pos);
                let seg = path.subrange(pos, e);
                let fe = find_entry(entries, seg);
                lemma_find_entry(entries, seg);
                if fe >= 0 && entries[fe].enabled {
                    lemma_entries_size_element(entries, fe);
                    if e < path.len() {
                        lemma_failed_set_unchanged(entries[fe].node, path, e + 1, true, val);
                    } else {
                        lemma_failed_set_unchanged(entries[fe].node, path, e, false, val);
                    }
                    let sr = if e < path.len() {
                        spec_set(entries[fe].node, path, e + 1, true, val)
                    } else {
                        spec_set(entries[fe].node, path, e, false, val)
                    };
                    if !sr.1 {
                        assert(EntryV {
                            name: entries[fe].name,
                            enabled: entries[fe].enabled,
                            node: sr.0,
                        } =~= entries[fe]);
                        assert(entries.update(fe, entries[fe]) =~= entries);
                    }
                }
            }
        },
        NodeV::Enum(u) => {
            if more && path.subrange(pos, seg_end(path, pos)) == seq![SIGIL] {
            } else {
                lemma_failed_set_unchanged(*u.payload, path, pos, more, val);
                let sr = spec_set(*u.payload, path, pos, more, val);
                if !sr.1 {
                    assert(EnumV {
                        variants: u.variants,
                        active: u.active,
                        payload: Box::new(sr.0),
                    } =~= u);
                }
            }
        },
    }
}

/// What [`get_value`] returns: resolution starts past any leading
/// separators.
pub open spec fn spec_get_value(n: NodeV, path: Seq<u8>) -> Option<Value> {
    spec_get(n, path, skip_dots(path, 0), true)
}

/// What [`set_value`] does: resolution starts past any leading separators.
pub open spec fn spec_set_value(n: NodeV, path: Seq<u8>, val: Value) -> (NodeV, bool) {
    spec_set(n, path, skip_dots(path, 0), true, val)
}

/// Find the end of the path segment that starts at `pos`.
#[verifier::loop_isolation(false)]
fn seg_end_exec(path: &[u8], pos: usize) -> (r: usize)
    requires
        pos <= path@.len(),
    ensures
        r as int == seg_end(path@, pos as int),
        pos <= r <= path@.len(),
{
    proof {
        lemma_seg_end(path@, pos as int);
    }
    let n = path.len();
    let mut i = pos;
    while i < n && *slice_index_get(path, i) != SEPARATOR
        invariant
            pos <= i <= n,
            seg_end(path@, pos as int) == seg_end(path@, i as int),
        decreases n - i,
    {
        i += 1;
    }
    i
}

/// Resolve a path against a node, reading the value it names.
#[verifier::loop_isolation(false)]
fn get_rec(n: NodeRef<'_>, path: &[u8], pos: usize, more: bool) -> (r: Option<Value>)
    requires
        node_wf(ref_view(n)),
        pos <= path@.len(),
    ensures
        r == spec_get(ref_view(n), path@, pos as int, more),
    decreases node_size(ref_view(n)),
{
    match n {
        NodeRef::Absent => None,
        NodeRef::Leaf(v) => {
            if more {
                None
            } else {
                Some(*v)
            }
        },
        NodeRef::Tree(t) => {
            if !more {
                None
            } else {
                let e = seg_end_exec(path, pos);
                let seg: &[u8] = &path[pos..e];
                proof {
                    assert(seg@ =~= path@.subrange(pos as int, e as int));
                    lemma_find_entry(t@, seg@);
                    lemma_entries_view_len(t.entries@);
                }
                match t.find_index(seg) {
                    None => None,
                    Some(idx) => {
                        proof {
                            crate::node::lemma_entries_view_index(t.entries@, idx as int);
                            lemma_entries_size_element(t@, idx as int);
                        }
                        let child = &t.entries[idx];
                        if !child.enabled {
                            None
                        } else {
                            if e < path.len() {
                                get_rec(child.node.node_ref(), path, e + 1, true)
                            } else {
                                get_rec(child.node.node_ref(), path, e, false)
                            }
                        }
                    },
                }
            }
        },
        NodeRef::Enum(u) => {
            let e = seg_end_exec(path, pos);
            let is_sigil = more && e - pos == 1 && *slice_index_get(path, pos) == SIGIL;
            proof {
                let seg = path@.subrange(pos as int, e as int);
                if is_sigil {
                    assert(seg =~= seq![SIGIL]);
                } else if more && seg == seq![SIGIL] {
                    assert(seg.len() == 1);
                    assert(path@[pos as int] == seg[0]);
                    assert(false);
                }
            }
            proof {
                assert(ref_view(n) == NodeV::Enum(u@));
                assert(crate::node::enum_wf(u@));
            }
            if is_sigil {
                if e < path.len() {
                    None
                } else {
                    Some(u.discriminant())
                }
            } else {
                get_rec(u.active_node_ref(), path, pos, more)
            }
        },
    }
}

/// Returns the value for the given dot-separated identifier, or `None`
/// when the path names nothing readable: an unknown or currently hidden
/// segment, a position that is not a scalar, or trailing segments past a
/// leaf.
#[verifier::loop_isolation(false)]
pub fn get_value(node: &Node, ident: &str) -> (r: Option<Value>)
    requires
        node_wf(node@),
    ensures
        r == spec_get_value(node@, ident.spec_bytes()),
{
    let path: &[u8] = ident.as_bytes();
    proof {
        lemma_skip_dots(path@, 0);
    }
    let n = path.len();
    let mut pos: usize = 0;
    while pos < n && *slice_index_get(path, pos) == SEPARATOR
        invariant
            0 <= pos <= n,
            skip_dots(path@, 0) == skip_dots(path@, pos as int),
        decreases n - pos,
    {
        pos += 1;
    }
    get_rec(node.node_ref(), path, pos, true)
}

/// Resolve a path against a node, writing `val` at the position it names.
/// Takes the node by value and returns its updated form together with
/// whether the write took effect.
#[verifier::loop_isolation(false)]
fn set_owned(n: Node, path: &[u8], pos: usize, more: bool, val: Value) -> (res: (Node, bool))
    requires
        node_wf(n@),
        pos <= path@.len(),
    ensures
        node_wf(res.0@),
        res.0@ == spec_set(n@, path@, pos as int, more, val).0,
        res.1 == spec_set(n@, path@, pos as int, more, val).1,
    decreases node_size(n@),
{
    match n {
        Node::Absent => (Node::Absent, false),
        Node::Leaf(v) => {
            if !more {
                let mut scalar = v;
                let r = scalar.try_assign(val);
                (Node::Leaf(scalar), r)
            } else {
                (Node::Leaf(v), false)
            }
        },
        Node::Tree(t) => {
            if !more {
                (Node::Tree(t), false)
            } else {
                let mut t = t;
                let e = seg_end_exec(path, pos);
                let seg: &[u8] = &path[pos..e];
                proof {
                    assert(seg@ =~= path@.subrange(pos as int, e as int));
                    lemma_find_entry(t@, seg@);
                    lemma_entries_view_len(t.entries@);
                }
                match t.find_index(seg) {
                    None => (Node::Tree(t), false),
                    Some(idx) => {
                        proof {
                            crate::node::lemma_entries_view_index(t.entries@, idx as int);
                            lemma_entries_size_element(t@, idx as int);
                        }
                        let enabled = t.entries[idx].enabled;
                        if !enabled {
                            (Node::Tree(t), false)
                        } else {
                            let ghost old_entries = t.entries@;
                            let ghost old_tree_view = t@;
                            let mut child = Node::Absent;
                            let slot = &mut t.entries[idx];
                            core::mem::swap(&mut slot.node, &mut child);
                            let (child2, r) = if e < path.len() {
                                set_owned(child, path, e + 1, true, val)
                            } else {
                                set_owned(child, path, e, false, val)
                            };
                            slot.node = child2;
                            proof {
                                crate::node::lemma_entries_view_update(
                                    old_entries,
                                    idx as int,
                                    t.entries@[idx as int],
                                );
                                assert(t.entries@ =~= old_entries.update(
                                    idx as int,
                                    t.entries@[idx as int],
                                ));
                                let sr = spec_set(
                                    old_tree_view[idx as int].node,
                                    path@,
                                    if e < path@.len() {
                                        e + 1
                                    } else {
                                        e as int
                                    },
                                    e < path@.len(),
                                    val,
                                );
                                assert(t.entries@[idx as int]@ =~= EntryV {
                                    name: old_tree_view[idx as int].name,
                                    enabled: old_tree_view[idx as int].enabled,
                                    node: sr.0,
                                });
                                assert(t@ =~= old_tree_view.update(
                                    idx as int,
                                    EntryV {
                                        name: old_tree_view[idx as int].name,
                                        enabled: old_tree_view[idx as int].enabled,
                                        node: sr.0,
                                    },
                                ));
                                assert forall|k: int|
                                    0 <= k < t@.len() implies node_wf(
                                    #[trigger] t@[k].node,
                                ) by {
                                    if k != idx as int {
                                        assert(t@[k] == old_tree_view[k]);
                                    }
                                }
                            }
                            (Node::Tree(t), r)
                        }
                    },
                }
            }
        },
        Node::Enum(u) => {
            let mut u = u;
            let e = seg_end_exec(path, pos);
            let is_sigil = more && e - pos == 1 && *slice_index_get(path, pos) == SIGIL;
            proof {
                let seg = path@.subrange(pos as int, e as int);
                if is_sigil {
                    assert(seg =~= seq![SIGIL]);
                } else if more && seg == seq![SIGIL] {
                    assert(seg.len() == 1);
                    assert(path@[pos as int] == seg[0]);
                    assert(false);
                }
            }
            if is_sigil {
                if e < path.len() {
                    (Node::Enum(u), false)
                } else {
                    let ghost old_enum_view = u@;
                    proof {
                        assert(crate::node::enum_wf(old_enum_view));
                    }
                    let r = u.set_discriminant(val);
                    proof {
                        lemma_find_variant(old_enum_view.variants, val);
                        let fv = find_variant(old_enum_view.variants, val);
                        if fv >= 0 {
                            assert(u@ =~= EnumV {
                                variants: old_enum_view.variants,
                                active: fv,
                                payload: Box::new(old_enum_view.variants[fv].payload),
                            });
                            assert(node_wf(*u@.payload));
                        }
                        assert(crate::node::enum_wf(u@));
                        assert(node_wf(NodeV::Enum(u@)));
                    }
                    (Node::Enum(u), r)
                }
            } else {
                let ghost old_enum_view = u@;
                proof {
                    assert(crate::node::enum_wf(old_enum_view));
                }
                let mut payload = Node::Absent;
                core::mem::swap(&mut *u.payload, &mut payload);
                let (p2, r) = set_owned(payload, path, pos, more, val);
                u.payload = Box::new(p2);
                proof {
                    let sr = spec_set(*old_enum_view.payload, path@, pos as int, more, val);
                    assert(u@ =~= EnumV {
                        variants: old_enum_view.variants,
                        active: old_enum_view.active,
                        payload: Box::new(sr.0),
                    });
                    assert(crate::node::enum_wf(u@));
                    assert(node_wf(NodeV::Enum(u@)));
                }
                (Node::Enum(u), r)
            }
        },
    }
}

/// Writes the value at the given dot-separated identifier. Returns
/// `Some(())` when the write took effect and `None` when it did not: an
/// unknown or currently hidden segment, a position that is not writable,
/// trailing segments past a leaf, a kind mismatch at the leaf, or an
/// undeclared discriminant at a sigil segment. On `None` the tree is
/// unchanged.
#[verifier::loop_isolation(false)]
pub fn set_value(node: &mut Node, ident: &str, value: Value) -> (r: Option<()>)
    requires
        node_wf(old(node)@),
    ensures
        node_wf(final(node)@),
        final(node)@ == spec_set_value(old(node)@, ident.spec_bytes(), value).0,
        r == (if spec_set_value(old(node)@, ident.spec_bytes(), value).1 {
            Some(())
        } else {
            None::<()>
        }),
        r is None ==> final(node)@ == old(node)@,
{
    let path: &[u8] = ident.as_bytes();
    proof {
        lemma_skip_dots(path@, 0);
        lemma_failed_set_unchanged(
            old(node)@,
            ident.spec_bytes(),
            skip_dots(ident.spec_bytes(), 0),
            true,
            value,
        );
    }
    let n = path.len();
    let mut pos: usize = 0;
    while pos < n && *slice_index_get(path, pos) == SEPARATOR
        invariant
            0 <= pos <= n,
            skip_dots(path@, 0) == skip_dots(path@, pos as int),
        decreases n - pos,
    {
        pos += 1;
    }
    let mut work = Node::Absent;
    core::mem::swap(node, &mut work);
    let (done, ok) = set_owned(work, path, pos, true, value);
    *node = done;
    if ok {
        Some(())
    } else {
        None
    }
}

} // verus!
