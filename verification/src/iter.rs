//! The traversal engine: a bounded-depth, allocation-conscious depth-first
//! iterator that linearizes a parameter tree into a flat sequence of
//! identifier/value pairs, reusing one identifier buffer and a stack of at
//! most [`MAX_STACK_DEPTH`] frames.
//!
//! The whole traversal is pinned down by the step machine [`iter_items`]:
//! given the current frame stack and identifier, it gives every item the
//! iterator will still yield, and [`ParamIter::next`] returns exactly the
//! head of that sequence.

use vstd::prelude::*;
use vstd::string::StringSliceAdditionalSpecFns;

use crate::ident::{
    lemma_push_then_pop, spec_push_fits, spec_popped, spec_pushed, Ident, SEPARATOR,
};
use crate::node::{
    entries_size, enum_wf, lemma_entries_view_index, lemma_entries_view_len, node_size, node_wf,
    ref_view, EntryV, Node, NodeRef, NodeV,
};
use crate::value::Value;
use crate::{Error, ErrorV, ParamV, Parameter, SIGIL};

verus! {

/// Maximum traversal depth: the most frames the iterator will hold. Only
/// structural tree descent consumes a frame; enum substitution does not.
pub const MAX_STACK_DEPTH: usize = 5;

/// The state of a single level of tree iteration: what stands at this
/// level and, for a tree, the position of the next entry to visit.
#[derive(Clone, Copy)]
struct Frame<'a> {
    node: NodeRef<'a>,
    index: usize,
}

/// The mathematical view of a [`Frame`].
#[verifier::ext_equal]
pub ghost struct FrameV {
    pub node: NodeV,
    pub index: int,
}

impl<'a> View for Frame<'a> {
    type V = FrameV;

    closed spec fn view(&self) -> FrameV {
        FrameV { node: ref_view(self.node), index: self.index as int }
    }
}

pub open spec fn frames_view<'a>(s: Seq<Frame<'a>>) -> Seq<FrameV> {
    s.map_values(|f: Frame<'a>| f@)
}

/// How much work one frame has left; the clamp makes the measure total
/// even for cursor positions no run ever produces.
pub open spec fn frame_measure(f: FrameV) -> nat {
    match f.node {
        NodeV::Tree(entries) => {
            let idx = if 0 <= f.index <= entries.len() {
                f.index
            } else {
                entries.len() as int
            };
            1 + entries_size(entries.skip(idx))
        },
        _ => node_size(f.node),
    }
}

/// How much work a whole frame stack has left.
pub open spec fn frames_measure(s: Seq<FrameV>) -> nat
    decreases s.len(),
{
    if s.len() == 0 {
        0
    } else {
        frames_measure(s.drop_last()) + frame_measure(s.last())
    }
}

/// Every node has size at least one.
proof fn lemma_node_size_pos(n: NodeV)
    ensures
        node_size(n) >= 1,
{
}

/// One step of entry consumption splits off the entry's own size.
proof fn lemma_entries_size_skip_step(s: Seq<EntryV>, i: int)
    requires
        0 <= i < s.len(),
    ensures
        entries_size(s.skip(i)) == 1 + node_size(s[i].node) + entries_size(s.skip(i + 1)),
{
    assert(s.skip(i)[0] == s[i]);
    assert(s.skip(i).drop_first() =~= s.skip(i + 1));
}

/// Skipping entries never increases the remaining size.
proof fn lemma_entries_size_skip_le(s: Seq<EntryV>, i: int)
    requires
        0 <= i <= s.len(),
    ensures
        entries_size(s.skip(i)) <= entries_size(s),
    decreases i,
{
    if i == 0 {
        assert(s.skip(0) =~= s);
    } else {
        lemma_entries_size_skip_le(s, i - 1);
        lemma_entries_size_skip_step(s, i - 1);
    }
}

/// A frame that starts at the first entry has its node's full size as
/// measure.
proof fn lemma_frame_measure_start(f: FrameV)
    requires
        f.index == 0,
    ensures
        frame_measure(f) == node_size(f.node),
{
    match f.node {
        NodeV::Tree(entries) => {
            assert(entries.skip(0) =~= entries);
        },
        _ => {},
    }
}

/// Replacing the top frame replaces its share of the measure.
proof fn lemma_measure_update_last(s: Seq<FrameV>, f: FrameV)
    requires
        s.len() > 0,
    ensures
        frames_measure(s.update(s.len() - 1, f)) == frames_measure(s.drop_last())
            + frame_measure(f),
{
    let s2 = s.update(s.len() - 1, f);
    assert(s2.drop_last() =~= s.drop_last());
    assert(s2.last() == f);
}

/// Pushing a frame adds its share to the measure.
proof fn lemma_measure_push(s: Seq<FrameV>, f: FrameV)
    ensures
        frames_measure(s.push(f)) == frames_measure(s) + frame_measure(f),
{
    assert(s.push(f).drop_last() =~= s);
    assert(s.push(f).last() == f);
}

/// All the items a traversal will yield from a given state: the frame
/// stack (bottom first) and the current identifier bytes.
///
/// One recursive step is one turn of the traversal loop:
/// - an absent node pops its frame and one identifier segment;
/// - an exhausted tree pops its frame, and one segment unless it was the
///   outermost frame;
/// - a tree entry is skipped when disabled, reported as `PathTooLong` or
///   `DepthTooBig` (and then skipped) when it does not fit, and otherwise
///   descended into;
/// - an enum yields its discriminant under the sigil segment — or a
///   `PathTooLong` when the sigil does not fit — and is then replaced in
///   place by its active payload, consuming no extra frame;
/// - a leaf yields its value and pops its frame and segment.
pub open spec fn iter_items(frames: Seq<FrameV>, id: Seq<u8>) -> Seq<Result<ParamV, ErrorV>>
    decreases frames_measure(frames),
    via iter_items_dec
{
    if frames.len() == 0 {
        Seq::empty()
    } else {
        let f = frames.last();
        match f.node {
            NodeV::Absent => iter_items(frames.drop_last(), spec_popped(id)),
            NodeV::Leaf(v) => seq![Ok(ParamV { path: id, value: v })] + iter_items(
                frames.drop_last(),
                spec_popped(id),
            ),
            NodeV::Tree(entries) => {
                if !(0 <= f.index < entries.len()) {
                    let rest = frames.drop_last();
                    iter_items(
                        rest,
                        if rest.len() == 0 {
                            id
                        } else {
                            spec_popped(id)
                        },
                    )
                } else {
                    let entry = entries[f.index];
                    let advanced = frames.update(
                        frames.len() - 1,
                        FrameV { node: f.node, index: f.index + 1 },
                    );
                    if !entry.enabled {
                        iter_items(advanced, id)
                    } else if !spec_push_fits(id, entry.name) {
                        seq![Err(ErrorV::PathTooLong { path: id, entry: entry.name })]
                            + iter_items(advanced, id)
                    } else if frames.len() >= MAX_STACK_DEPTH {
                        seq![Err(ErrorV::DepthTooBig { path: id, entry: entry.name })]
                            + iter_items(advanced, id)
                    } else {
                        iter_items(
                            advanced.push(FrameV { node: entry.node, index: 0 }),
                            spec_pushed(id, entry.name),
                        )
                    }
                }
            },
            NodeV::Enum(u) => {
                let substituted = frames.update(
                    frames.len() - 1,
                    FrameV { node: *u.payload, index: f.index },
                );
                if !spec_push_fits(id, seq![SIGIL]) {
                    seq![Err(ErrorV::PathTooLong { path: id, entry: seq![SIGIL] })] + iter_items(
                        substituted,
                        id,
                    )
                } else {
                    seq![
                        Ok(ParamV { path: spec_pushed(id, seq![SIGIL]), value: u.variants[u.active].tag }),
                    ] + iter_items(substituted, id)
                }
            },
        }
    }
}

#[via_fn]
proof fn iter_items_dec(frames: Seq<FrameV>, id: Seq<u8>) {
    if frames.len() > 0 {
        let f = frames.last();
        match f.node {
            NodeV::Absent => {
                lemma_node_size_pos(f.node);
            },
            NodeV::Leaf(_) => {
                lemma_node_size_pos(f.node);
            },
            NodeV::Tree(entries) => {
                if !(0 <= f.index < entries.len()) {
                } else {
                    let entry = entries[f.index];
                    let advanced = frames.update(
                        frames.len() - 1,
                        FrameV { node: f.node, index: f.index + 1 },
                    );
                    lemma_measure_update_last(frames, FrameV { node: f.node, index: f.index + 1 });
                    lemma_entries_size_skip_step(entries, f.index);
                    lemma_measure_push(advanced, FrameV { node: entry.node, index: 0 });
                    lemma_frame_measure_start(FrameV { node: entry.node, index: 0 });
                    lemma_node_size_pos(entry.node);
                }
            },
            NodeV::Enum(u) => {
                lemma_measure_update_last(frames, FrameV { node: *u.payload, index: f.index });
                lemma_node_size_pos(*u.payload);
                match *u.payload {
                    NodeV::Tree(entries) => {
                        let idx = if 0 <= f.index <= entries.len() {
                            f.index
                        } else {
                            entries.len() as int
                        };
                        lemma_entries_size_skip_le(entries, idx);
                    },
                    _ => {},
                }
            },
        }
    }
}

/// A segment name with no separator byte: pushing and popping such a name
/// are exact inverses.
pub open spec fn plain_name(name: Seq<u8>) -> bool {
    forall|k: int| 0 <= k < name.len() ==> name[k] != SEPARATOR
}

/// The parameters a node contributes under a path prefix, in declaration
/// order: a leaf contributes its value at the path itself; an enum
/// contributes its discriminant under the sigil segment and then its
/// active payload's parameters at the same path; a tree contributes each
/// currently enabled entry in turn; disabled entries and absent nodes
/// contribute nothing.
pub open spec fn flat_params(n: NodeV, path: Seq<u8>) -> Seq<ParamV>
    decreases node_size(n),
    via flat_params_dec
{
    match n {
        NodeV::Absent => Seq::empty(),
        NodeV::Leaf(v) => seq![ParamV { path, value: v }],
        NodeV::Tree(entries) => flat_entries(entries, path),
        NodeV::Enum(u) => seq![
            ParamV { path: spec_pushed(path, seq![SIGIL]), value: u.variants[u.active].tag },
        ] + flat_params(*u.payload, path),
    }
}

/// The parameters a list of entries contributes under a path prefix.
pub open spec fn flat_entries(s: Seq<EntryV>, path: Seq<u8>) -> Seq<ParamV>
    decreases entries_size(s),
    via flat_entries_dec
{
    if s.len() == 0 {
        Seq::empty()
    } else {
        (if s[0].enabled {
            flat_params(s[0].node, spec_pushed(path, s[0].name))
        } else {
            Seq::empty()
        }) + flat_entries(s.drop_first(), path)
    }
}

#[via_fn]
proof fn flat_params_dec(n: NodeV, path: Seq<u8>) {
}

#[via_fn]
proof fn flat_entries_dec(s: Seq<EntryV>, path: Seq<u8>) {
    if s.len() > 0 {
        assert(entries_size(s) == 1 + node_size(s[0].node) + entries_size(s.drop_first()));
    }
}

/// Whether a traversal of `n` below a path prefix stays within every
/// bound: each pushed segment is separator-free and fits the identifier
/// capacity, each descent has a stack slot left (`budget` slots remain),
/// and each enum can push the sigil.
pub open spec fn fits(n: NodeV, path: Seq<u8>, budget: int) -> bool
    decreases node_size(n),
    via fits_dec
{
    match n {
        NodeV::Absent => true,
        NodeV::Leaf(_) => true,
        NodeV::Tree(entries) => fits_entries(entries, path, budget),
        NodeV::Enum(u) => spec_push_fits(path, seq![SIGIL]) && fits(*u.payload, path, budget),
    }
}

/// [`fits`] for each enabled entry of a list.
pub open spec fn fits_entries(s: Seq<EntryV>, path: Seq<u8>, budget: int) -> bool
    decreases entries_size(s),
    via fits_entries_dec
{
    if s.len() == 0 {
        true
    } else {
        (s[0].enabled ==> {
            &&& plain_name(s[0].name)
            &&& spec_push_fits(path, s[0].name)
            &&& budget >= 1
            &&& fits(s[0].node, spec_pushed(path, s[0].name), budget - 1)
        }) && fits_entries(s.drop_first(), path, budget)
    }
}

#[via_fn]
proof fn fits_dec(n: NodeV, path: Seq<u8>, budget: int) {
}

#[via_fn]
proof fn fits_entries_dec(s: Seq<EntryV>, path: Seq<u8>, budget: int) {
    if s.len() > 0 {
        assert(entries_size(s) == 1 + node_size(s[0].node) + entries_size(s.drop_first()));
    }
}

/// Every parameter of a sequence, as a successful traversal item.
pub open spec fn oks(s: Seq<ParamV>) -> Seq<Result<ParamV, ErrorV>> {
    s.map_values(|p: ParamV| Ok(p))
}

/// What one frame still contributes.
spec fn frame_rest(f: FrameV, id: Seq<u8>) -> Seq<ParamV> {
    match f.node {
        NodeV::Tree(entries) => {
            let idx = if 0 <= f.index <= entries.len() {
                f.index
            } else {
                entries.len() as int
            };
            flat_entries(entries.skip(idx), id)
        },
        _ => flat_params(f.node, id),
    }
}

/// The identifier the next frame down resumes with, once the top frame is
/// finished: one segment is popped, except below an outermost tree frame.
spec fn next_id(f: FrameV, rest_len: int, id: Seq<u8>) -> Seq<u8> {
    match f.node {
        NodeV::Tree(_) => if rest_len == 0 {
            id
        } else {
            spec_popped(id)
        },
        _ => spec_popped(id),
    }
}

/// What a whole frame stack still contributes, top frame first.
spec fn stack_rest(frames: Seq<FrameV>, id: Seq<u8>) -> Seq<ParamV>
    decreases frames.len(),
{
    if frames.len() == 0 {
        Seq::empty()
    } else {
        let f = frames.last();
        let rest = frames.drop_last();
        frame_rest(f, id) + stack_rest(rest, next_id(f, rest.len() as int, id))
    }
}

/// Whether every frame of a stack stays within every bound, given the
/// identifier the top frame currently works under.
spec fn stack_fits(frames: Seq<FrameV>, id: Seq<u8>) -> bool
    decreases frames.len(),
{
    if frames.len() == 0 {
        true
    } else {
        let f = frames.last();
        let rest = frames.drop_last();
        let avail = MAX_STACK_DEPTH - frames.len() as int;
        let here = match f.node {
            NodeV::Tree(entries) => {
                let idx = if 0 <= f.index <= entries.len() {
                    f.index
                } else {
                    entries.len() as int
                };
                &&& f.index >= 0
                &&& fits_entries(entries.skip(idx), id, avail)
            },
            NodeV::Enum(u) => f.index == 0 && fits(f.node, id, avail),
            _ => true,
        };
        here && stack_fits(rest, next_id(f, rest.len() as int, id))
    }
}

/// The machine agrees with the flattening: from any in-bounds state, the
/// traversal yields exactly what its frames still contribute, all
/// successfully.
proof fn lemma_machine_rest(frames: Seq<FrameV>, id: Seq<u8>)
    requires
        frames.len() <= MAX_STACK_DEPTH,
        stack_fits(frames, id),
    ensures
        iter_items(frames, id) == oks(stack_rest(frames, id)),
    decreases frames_measure(frames),
{
    if frames.len() > 0 {
        let f = frames.last();
        let rest = frames.drop_last();
        let avail = MAX_STACK_DEPTH - frames.len() as int;
        match f.node {
            NodeV::Absent => {
                lemma_machine_rest(rest, spec_popped(id));
                lemma_node_size_pos(f.node);
                assert(iter_items(frames, id) =~= oks(stack_rest(frames, id)));
            },
            NodeV::Leaf(v) => {
                lemma_machine_rest(rest, spec_popped(id));
                lemma_node_size_pos(f.node);
                assert(iter_items(frames, id) =~= oks(stack_rest(frames, id)));
            },
            NodeV::Tree(entries) => {
                if !(0 <= f.index < entries.len()) {
                    let id2 = next_id(f, rest.len() as int, id);
                    lemma_machine_rest(rest, id2);
                    assert(entries.skip(entries.len() as int) =~= Seq::empty());
                    assert(frame_rest(f, id) == Seq::<ParamV>::empty());
                    assert(iter_items(frames, id) =~= oks(stack_rest(frames, id)));
                } else {
                    let i = f.index;
                    let entry = entries[i];
                    let adv_frame = FrameV { node: f.node, index: i + 1 };
                    let advanced = frames.update(frames.len() - 1, adv_frame);
                    lemma_measure_update_last(frames, adv_frame);
                    lemma_entries_size_skip_step(entries, i);
                    assert(advanced.drop_last() =~= rest);
                    assert(entries.skip(i).drop_first() =~= entries.skip(i + 1));
                    assert(entries.skip(i)[0] == entry);
                    // the advanced state is still in bounds, and below the
                    // top nothing changed
                    assert(stack_fits(advanced, id));
                    if !entry.enabled {
                        lemma_machine_rest(advanced, id);
                        assert(frame_rest(f, id) == flat_entries(entries.skip(i), id));
                        assert(flat_entries(entries.skip(i), id) == frame_rest(adv_frame, id));
                        assert(iter_items(frames, id) =~= oks(stack_rest(frames, id)));
                    } else {
                        let pushed_id = spec_pushed(id, entry.name);
                        let child = FrameV { node: entry.node, index: 0 };
                        let newstack = advanced.push(child);
                        assert(avail >= 1);
                        assert(frames.len() < MAX_STACK_DEPTH);
                        lemma_measure_push(advanced, child);
                        lemma_frame_measure_start(child);
                        lemma_node_size_pos(entry.node);
                        // the child frame is in bounds under the pushed
                        // identifier
                        assert(newstack.drop_last() =~= advanced);
                        assert(newstack.last() == child);
                        assert(fits_entries(entries.skip(i), id, avail));
                        assert(plain_name(entry.name));
                        assert(fits(entry.node, pushed_id, avail - 1));
                        lemma_push_then_pop(id, entry.name);
                        assert(next_id(child, advanced.len() as int, pushed_id) == id);
                        assert(stack_fits(newstack, pushed_id)) by {
                            match entry.node {
                                NodeV::Tree(centries) => {
                                    assert(centries.skip(0) =~= centries);
                                    assert(fits_entries(centries, pushed_id, avail - 1));
                                },
                                NodeV::Enum(_) => {
                                    assert(child.index == 0);
                                },
                                _ => {},
                            }
                            assert(stack_fits(advanced, id));
                        };
                        lemma_machine_rest(newstack, pushed_id);
                        assert(frame_rest(child, pushed_id) == flat_params(entry.node, pushed_id))
                            by {
                            match entry.node {
                                NodeV::Tree(centries) => {
                                    assert(centries.skip(0) =~= centries);
                                },
                                _ => {},
                            }
                        };
                        assert(stack_rest(frames, id) =~= frame_rest(child, pushed_id)
                            + stack_rest(advanced, id));
                        assert(iter_items(frames, id) =~= oks(stack_rest(frames, id)));
                    }
                }
            },
            NodeV::Enum(u) => {
                let sub_frame = FrameV { node: *u.payload, index: f.index };
                let substituted = frames.update(frames.len() - 1, sub_frame);
                lemma_measure_update_last(frames, sub_frame);
                lemma_node_size_pos(*u.payload);
                assert(substituted.drop_last() =~= rest);
                assert(f.index == 0 && fits(f.node, id, avail));
                assert(spec_push_fits(id, seq![SIGIL]));
                assert(fits(*u.payload, id, avail));
                assert(next_id(sub_frame, rest.len() as int, id) == next_id(
                    f,
                    rest.len() as int,
                    id,
                ) || rest.len() == 0);
                assert(stack_fits(substituted, id)) by {
                    match *u.payload {
                        NodeV::Tree(centries) => {
                            assert(centries.skip(0) =~= centries);
                            assert(fits_entries(centries, id, avail));
                        },
                        NodeV::Enum(_) => {
                            assert(sub_frame.index == 0);
                        },
                        _ => {},
                    }
                    if rest.len() == 0 {
                        assert(stack_fits(rest, next_id(sub_frame, rest.len() as int, id)));
                    } else {
                        assert(next_id(sub_frame, rest.len() as int, id) == spec_popped(id)
                            || next_id(sub_frame, rest.len() as int, id) == id);
                        assert(stack_fits(rest, spec_popped(id)));
                        if next_id(sub_frame, rest.len() as int, id) == id
                            && next_id(sub_frame, rest.len() as int, id) != spec_popped(id) {
                            assert(false);
                        }
                    }
                };
                match *u.payload {
                    NodeV::Tree(centries) => {
                        let idx = if 0 <= f.index <= centries.len() {
                            f.index
                        } else {
                            centries.len() as int
                        };
                        lemma_entries_size_skip_le(centries, idx);
                    },
                    _ => {},
                }
                lemma_machine_rest(substituted, id);
                assert(frame_rest(sub_frame, id) == flat_params(*u.payload, id)) by {
                    match *u.payload {
                        NodeV::Tree(centries) => {
                            assert(centries.skip(0) =~= centries);
                        },
                        _ => {},
                    }
                };
                let tail = stack_rest(rest, next_id(sub_frame, rest.len() as int, id));
                assert(stack_rest(substituted, id) == frame_rest(sub_frame, id) + tail);
                assert(stack_rest(rest, next_id(f, rest.len() as int, id)) == tail) by {
                    if rest.len() == 0 {
                        assert(stack_rest(rest, next_id(f, 0, id)) =~= Seq::<ParamV>::empty());
                        assert(tail =~= Seq::<ParamV>::empty());
                    } else {
                        assert(next_id(f, rest.len() as int, id) == spec_popped(id));
                        assert(next_id(sub_frame, rest.len() as int, id) == spec_popped(id));
                    }
                };
                assert(iter_items(frames, id) =~= oks(stack_rest(frames, id)));
            },
        }
    }
}

/// Law: when every identifier fits and nesting stays within the stack
/// budget, traversal is exactly the declaration-order flattening of the
/// tree — every item succeeds, disabled entries are absent, and nothing
/// else is lost, duplicated, or reordered.
pub proof fn lemma_traversal_is_flattening(n: NodeV, id: Seq<u8>)
    requires
        fits(n, id, MAX_STACK_DEPTH - 1),
    ensures
        iter_items(seq![FrameV { node: n, index: 0 }], id) == oks(flat_params(n, id)),
{
    let frame = FrameV { node: n, index: 0 };
    let frames = seq![frame];
    assert(frames.drop_last() =~= Seq::<FrameV>::empty());
    assert(frames.last() == frame);
    assert(stack_fits(frames, id)) by {
        assert(stack_fits(Seq::<FrameV>::empty(), next_id(frame, 0, id)));
        match n {
            NodeV::Tree(entries) => {
                assert(entries.skip(0) =~= entries);
                assert(fits_entries(entries, id, MAX_STACK_DEPTH - 1));
            },
            _ => {},
        }
    };
    lemma_machine_rest(frames, id);
    assert(frame_rest(frame, id) == flat_params(n, id)) by {
        match n {
            NodeV::Tree(entries) => {
                assert(entries.skip(0) =~= entries);
            },
            _ => {},
        }
    };
    assert(stack_rest(Seq::<FrameV>::empty(), next_id(frame, 0, id)) =~= Seq::<ParamV>::empty());
    assert(stack_rest(frames, id) =~= flat_params(n, id));
}

/// Law: a tree entry gated off contributes nothing to the flattening,
/// while the same entry gated on contributes exactly its own flattening,
/// in declaration order, with every other entry's contribution unchanged.
pub proof fn lemma_gated_entry(s: Seq<EntryV>, k: int, path: Seq<u8>)
    requires
        0 <= k < s.len(),
    ensures
        !s[k].enabled ==> flat_entries(s, path) == flat_entries(s.take(k), path) + flat_entries(
            s.skip(k + 1),
            path,
        ),
        s[k].enabled ==> flat_entries(s, path) == flat_entries(s.take(k), path) + flat_params(
            s[k].node,
            spec_pushed(path, s[k].name),
        ) + flat_entries(s.skip(k + 1), path),
    decreases k,
{
    if k == 0 {
        assert(s.take(0) =~= Seq::<EntryV>::empty());
        assert(s.drop_first() =~= s.skip(1));
        if !s[0].enabled {
            assert(flat_entries(s, path) =~= flat_entries(s.take(0), path) + flat_entries(
                s.skip(1),
                path,
            ));
        } else {
            assert(flat_entries(s, path) =~= flat_entries(s.take(0), path) + flat_params(
                s[0].node,
                spec_pushed(path, s[0].name),
            ) + flat_entries(s.skip(1), path));
        }
    } else {
        lemma_gated_entry(s.drop_first(), k - 1, path);
        assert(s.drop_first().take(k - 1) =~= s.take(k).drop_first());
        assert(s.drop_first().skip(k) =~= s.skip(k + 1));
        assert(s.drop_first()[k - 1] == s[k]);
        assert(s.take(k)[0] == s[0]);
        assert(s.take(k).len() == k);
        if !s[k].enabled {
            assert(flat_entries(s, path) =~= flat_entries(s.take(k), path) + flat_entries(
                s.skip(k + 1),
                path,
            ));
        } else {
            assert(flat_entries(s, path) =~= flat_entries(s.take(k), path) + flat_params(
                s[k].node,
                spec_pushed(path, s[k].name),
            ) + flat_entries(s.skip(k + 1), path));
        }
    }
}

/// An enum contributes exactly two parameters per occurrence when it wraps
/// a scalar leaf — the discriminant under the sigil segment and the value
/// at the path itself — and only the discriminant when its active variant
/// is absent.
pub proof fn lemma_enum_flattening(u: crate::node::EnumV, path: Seq<u8>)
    ensures
        (*u.payload matches NodeV::Leaf(v)) ==> flat_params(NodeV::Enum(u), path) == seq![
            ParamV { path: spec_pushed(path, seq![SIGIL]), value: u.variants[u.active].tag },
            ParamV { path, value: u.payload->Leaf_0 },
        ],
        (*u.payload is Absent) ==> flat_params(NodeV::Enum(u), path) == seq![
            ParamV { path: spec_pushed(path, seq![SIGIL]), value: u.variants[u.active].tag },
        ],
{
    let head = ParamV { path: spec_pushed(path, seq![SIGIL]), value: u.variants[u.active].tag };
    match *u.payload {
        NodeV::Leaf(v) => {
            assert(flat_params(*u.payload, path) =~= seq![ParamV { path, value: v }]);
            assert(flat_params(NodeV::Enum(u), path) =~= seq![head, ParamV { path, value: v }]);
        },
        NodeV::Absent => {
            assert(flat_params(*u.payload, path) =~= Seq::<ParamV>::empty());
            assert(flat_params(NodeV::Enum(u), path) =~= seq![head]);
        },
        _ => {},
    }
}

/// The view of one yielded item.
pub open spec fn item_view(r: Result<Parameter, Error>) -> Result<ParamV, ErrorV> {
    match r {
        Ok(p) => Ok(p@),
        Err(e) => Err(e@),
    }
}

/// The identifier a traversal starts with: the root name when one is given
/// and fits, the empty identifier otherwise.
pub open spec fn initial_ident(name: Option<&str>) -> Seq<u8> {
    match name {
        Some(s) => if s.spec_bytes().len() <= crate::ident::MAX_NAMED_LEN {
            s.spec_bytes()
        } else {
            Seq::empty()
        },
        None => Seq::empty(),
    }
}

/// The sigil string pushed ahead of a discriminant yield.
proof fn lemma_sigil_str()
    ensures
        ("#").spec_bytes() =~= seq![SIGIL],
        forall|i: int| 0 <= i < 1 ==> seq![SIGIL][i] != SEPARATOR,
{
    reveal_strlit("#");
    assert(("#")@ =~= seq!['#']);
    assert(vstd::utf8::is_ascii_chars(("#")@));
    vstd::utf8::is_ascii_chars_encode_utf8(("#")@);
    assert(("#").spec_bytes() =~= seq![SIGIL]);
}

/// An iterator that traverses a parameter tree depth-first and yields each
/// parameter, building dotted identifiers in a single reusable buffer.
///
/// It yields `Result` items: an identifier longer than 16 bytes or a tree
/// nested beyond [`MAX_STACK_DEPTH`] is reported in-band as an [`Error`],
/// the entry is skipped, and iteration goes on.
pub struct ParamIter<'a> {
    ident_buffer: Ident,
    stack: Vec<Frame<'a>>,
}

impl<'a> ParamIter<'a> {
    /// Well-formedness: a valid identifier buffer, a bounded stack, and
    /// well-formed nodes in every frame.
    pub closed spec fn wf(&self) -> bool {
        &&& self.ident_buffer.wf()
        &&& self.stack@.len() <= MAX_STACK_DEPTH
        &&& forall|i: int|
            0 <= i < self.stack@.len() ==> node_wf((#[trigger] self.stack@[i])@.node)
    }

    /// The items this iterator will still yield, in order.
    pub closed spec fn items(&self) -> Seq<Result<ParamV, ErrorV>> {
        iter_items(frames_view(self.stack@), self.ident_buffer@)
    }

    /// Creates a new parameter iterator starting at the given node, with an
    /// optional root name for the identifiers. A name that does not fit the
    /// identifier capacity is ignored.
    pub fn new(node: NodeRef<'a>, name: Option<&str>) -> (r: Self)
        requires
            node_wf(ref_view(node)),
        ensures
            r.wf(),
            r.items() == iter_items(
                seq![FrameV { node: ref_view(node), index: 0 }],
                initial_ident(name),
            ),
    {
        let mut ident_buffer = Ident::new();
        if let Some(name) = name {
            let _ = ident_buffer.push_entry(name);
        }
        let mut stack: Vec<Frame<'a>> = Vec::new();
        stack.push(Frame { node, index: 0 });
        let r = Self { ident_buffer, stack };
        proof {
            assert(frames_view(r.stack@) =~= seq![FrameV { node: ref_view(node), index: 0 }]);
        }
        r
    }

    /// Yields the next parameter or in-band error of the traversal, which
    /// is exactly the head of [`ParamIter::items`]; `None` once the
    /// traversal is complete.
    #[verifier::loop_isolation(false)]
    pub fn next(&mut self) -> (r: Option<Result<Parameter, Error>>)
        requires
            old(self).wf(),
        ensures
            final(self).wf(),
            old(self).items().len() == 0 ==> r is None && final(self).items() == old(
                self,
            ).items(),
            old(self).items().len() > 0 ==> (r matches Some(item) && item_view(item) == old(
                self,
            ).items()[0] && final(self).items() == old(self).items().drop_first()),
    {
        loop
            invariant
                self.wf(),
                iter_items(frames_view(self.stack@), self.ident_buffer@) == iter_items(
                    frames_view(old(self).stack@),
                    old(self).ident_buffer@,
                ),
            decreases frames_measure(frames_view(self.stack@)),
        {
            let ghost prev_frames = frames_view(self.stack@);
            let ghost prev_id = self.ident_buffer@;
            if self.stack.len() == 0 {
                return None;
            }
            let top = self.stack.len() - 1;
            let frame = self.stack[top];
            proof {
                assert(prev_frames.last() == frame@);
            }
            match frame.node {
                NodeRef::Absent => {
                    let _ = self.stack.pop();
                    self.ident_buffer.pop_entry();
                    proof {
                        assert(frames_view(self.stack@) =~= prev_frames.drop_last());
                        lemma_node_size_pos(frame@.node);
                    }
                },
                NodeRef::Leaf(v) => {
                    let ident = self.ident_buffer;
                    self.ident_buffer.pop_entry();
                    let _ = self.stack.pop();
                    proof {
                        assert(frames_view(self.stack@) =~= prev_frames.drop_last());
                        assert(iter_items(prev_frames, prev_id)[0] == Ok::<ParamV, ErrorV>(
                            ParamV { path: prev_id, value: *v },
                        ));
                        assert(iter_items(prev_frames, prev_id).drop_first() =~= iter_items(
                            frames_view(self.stack@),
                            self.ident_buffer@,
                        ));
                    }
                    return Some(Ok(Parameter { ident, value: *v }));
                },
                NodeRef::Tree(t) => {
                    proof {
                        lemma_entries_view_len(t.entries@);
                    }
                    if frame.index >= t.entries.len() {
                        let _ = self.stack.pop();
                        if self.stack.len() > 0 {
                            self.ident_buffer.pop_entry();
                        }
                        proof {
                            assert(frames_view(self.stack@) =~= prev_frames.drop_last());
                        }
                    } else {
                        proof {
                            lemma_entries_view_index(t.entries@, frame.index as int);
                        }
                        let entry = &t.entries[frame.index];
                        let ghost entry_v = t@[frame.index as int];
                        self.stack[top] = Frame { node: frame.node, index: frame.index + 1 };
                        let ghost advanced = frames_view(self.stack@);
                        proof {
                            assert(advanced =~= prev_frames.update(
                                prev_frames.len() - 1,
                                FrameV { node: frame@.node, index: frame@.index + 1 },
                            ));
                            lemma_measure_update_last(
                                prev_frames,
                                FrameV { node: frame@.node, index: frame@.index + 1 },
                            );
                            lemma_entries_size_skip_step(t@, frame.index as int);
                        }
                        if !entry.enabled {
                            proof {
                                lemma_node_size_pos(entry_v.node);
                            }
                        } else if !self.ident_buffer.fits(entry.name.as_str()) {
                            proof {
                                assert(iter_items(prev_frames, prev_id)[0] == Err::<
                                    ParamV,
                                    ErrorV,
                                >(ErrorV::PathTooLong { path: prev_id, entry: entry_v.name }));
                                assert(iter_items(prev_frames, prev_id).drop_first()
                                    =~= iter_items(advanced, self.ident_buffer@));
                            }
                            return Some(
                                Err(Error::PathTooLong(self.ident_buffer, entry.name.clone())),
                            );
                        } else if self.stack.len() >= MAX_STACK_DEPTH {
                            proof {
                                assert(iter_items(prev_frames, prev_id)[0] == Err::<
                                    ParamV,
                                    ErrorV,
                                >(ErrorV::DepthTooBig { path: prev_id, entry: entry_v.name }));
                                assert(iter_items(prev_frames, prev_id).drop_first()
                                    =~= iter_items(advanced, self.ident_buffer@));
                            }
                            return Some(
                                Err(Error::DepthTooBig(self.ident_buffer, entry.name.clone())),
                            );
                        } else {
                            let ok = self.ident_buffer.push_entry(entry.name.as_str());
                            proof {
                                assert(ok);
                            }
                            self.stack.push(Frame { node: entry.node.node_ref(), index: 0 });
                            proof {
                                assert(frames_view(self.stack@) =~= advanced.push(
                                    FrameV { node: entry_v.node, index: 0 },
                                ));
                                lemma_measure_push(
                                    advanced,
                                    FrameV { node: entry_v.node, index: 0 },
                                );
                                lemma_frame_measure_start(
                                    FrameV { node: entry_v.node, index: 0 },
                                );
                                lemma_node_size_pos(entry_v.node);
                            }
                        }
                    }
                },
                NodeRef::Enum(u) => {
                    proof {
                        assert(node_wf(frame@.node));
                        assert(enum_wf(u@));
                        lemma_sigil_str();
                    }
                    let pushed = self.ident_buffer.push_entry("#");
                    let ghost substituted = prev_frames.update(
                        prev_frames.len() - 1,
                        FrameV { node: *u@.payload, index: frame@.index },
                    );
                    if !pushed {
                        self.stack[top] = Frame { node: u.active_node_ref(), index: frame.index };
                        proof {
                            assert(frames_view(self.stack@) =~= substituted);
                            assert(iter_items(prev_frames, prev_id)[0] == Err::<ParamV, ErrorV>(
                                ErrorV::PathTooLong { path: prev_id, entry: seq![SIGIL] },
                            ));
                            assert(iter_items(prev_frames, prev_id).drop_first() =~= iter_items(
                                frames_view(self.stack@),
                                self.ident_buffer@,
                            ));
                        }
                        return Some(
                            Err(Error::PathTooLong(self.ident_buffer, ("#").to_owned())),
                        );
                    } else {
                        let ident = self.ident_buffer;
                        self.ident_buffer.pop_entry();
                        proof {
                            lemma_push_then_pop(prev_id, seq![SIGIL]);
                            assert(self.ident_buffer@ == prev_id);
                        }
                        let value = u.discriminant();
                        self.stack[top] = Frame { node: u.active_node_ref(), index: frame.index };
                        proof {
                            assert(frames_view(self.stack@) =~= substituted);
                            assert(iter_items(prev_frames, prev_id)[0] == Ok::<ParamV, ErrorV>(
                                ParamV { path: spec_pushed(prev_id, seq![SIGIL]), value },
                            ));
                            assert(iter_items(prev_frames, prev_id).drop_first() =~= iter_items(
                                frames_view(self.stack@),
                                self.ident_buffer@,
                            ));
                        }
                        return Some(Ok(Parameter { ident, value }));
                    }
                },
            }
        }
    }
}

/// Iterate all parameters of a tree, prefixing every identifier with a
/// root name.
///
/// The iterator yields `Result`, since some parameter identifiers may turn
/// out to be longer than 16 bytes, or trees may be nested too deeply.
pub fn param_iter_named<'a>(node: &'a Node, name: &str) -> (r: ParamIter<'a>)
    requires
        node_wf(node@),
    ensures
        r.wf(),
        r.items() == iter_items(
            seq![FrameV { node: node@, index: 0 }],
            initial_ident(Some(name)),
        ),
{
    ParamIter::new(node.node_ref(), Some(name))
}

/// Iterate all parameters of a tree.
///
/// The iterator yields `Result`, since some parameter identifiers may turn
/// out to be longer than 16 bytes, or trees may be nested too deeply.
pub fn param_iter<'a>(node: &'a Node) -> (r: ParamIter<'a>)
    requires
        node_wf(node@),
    ensures
        r.wf(),
        r.items() == iter_items(seq![FrameV { node: node@, index: 0 }], Seq::empty()),
{
    ParamIter::new(node.node_ref(), None)
}

} // verus!
