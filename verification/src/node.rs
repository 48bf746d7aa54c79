//! The node capability hierarchy: the three things a position in a
//! parameter tree can be — a tree of named children, a tagged union with an
//! active variant, or a scalar leaf — plus the uniform node reference that
//! answers "what is at this position".
//!
//! Every contract in this crate speaks about the mathematical view of a
//! node ([`NodeV`]): a tree of entry names (as UTF-8 byte sequences),
//! availability flags, discriminants, and scalar values.

use vstd::prelude::*;
use vstd::slice::slice_index_get;
use vstd::string::StringSliceAdditionalSpecFns;
use vstd::utf8::encode_utf8;

use crate::value::Value;

verus! {

/// The mathematical view of a [`Node`].
#[verifier::ext_equal]
pub ghost enum NodeV {
    Absent,
    Leaf(Value),
    Tree(Seq<EntryV>),
    Enum(EnumV),
}

/// The mathematical view of an [`Entry`]: the name as UTF-8 bytes, the
/// availability flag, and the child node.
#[verifier::ext_equal]
pub ghost struct EntryV {
    pub name: Seq<u8>,
    pub enabled: bool,
    pub node: NodeV,
}

/// The mathematical view of a [`Variant`].
#[verifier::ext_equal]
pub ghost struct VariantV {
    pub tag: Value,
    pub payload: NodeV,
}

/// The mathematical view of an [`Enum`].
#[verifier::ext_equal]
pub ghost struct EnumV {
    pub variants: Seq<VariantV>,
    pub active: int,
    pub payload: Box<NodeV>,
}

/// One named child of a [`Tree`]: its name (one path segment), whether it
/// is currently available, and the child node itself.
///
/// The declared entry list of a tree never changes; only `enabled` varies
/// with the data, standing for a data-dependent visibility condition.
/// Disabled entries are still listed by [`Tree::entries`] but are withheld
/// by [`Tree::get_ref`] and skipped by traversal.
pub struct Entry {
    pub name: String,
    pub enabled: bool,
    pub node: Node,
}

/// An aggregate with a fixed, ordered list of named children.
pub struct Tree {
    pub entries: Vec<Entry>,
}

/// One declared variant of a tagged union: its discriminant value and the
/// variant's declared default payload.
pub struct Variant {
    pub tag: Value,
    pub payload: Node,
}

/// A tagged union: a fixed list of declared variants, the index of the
/// active one, and the active variant's current payload (`Node::Absent`
/// for a unit-like variant).
pub struct Enum {
    pub variants: Vec<Variant>,
    pub active: usize,
    pub payload: Box<Node>,
}

/// Anything addressable in a parameter tree.
pub enum Node {
    /// No node at all: the payload of a unit-like variant.
    Absent,
    /// A scalar value.
    Leaf(Value),
    /// An aggregate with named children.
    Tree(Tree),
    /// A tagged union with one active variant.
    Enum(Enum),
}

/// A read-only reference to whatever sits at some position in the tree.
#[derive(Clone, Copy)]
pub enum NodeRef<'a> {
    Absent,
    Leaf(&'a Value),
    Tree(&'a Tree),
    Enum(&'a Enum),
}

pub open spec fn entry_view(e: Entry) -> EntryV
    decreases e,
{
    EntryV { name: encode_utf8(e.name@), enabled: e.enabled, node: node_view(e.node) }
}

pub open spec fn entries_view(s: Seq<Entry>) -> Seq<EntryV>
    decreases s,
{
    if s.len() == 0 {
        Seq::empty()
    } else {
        seq![entry_view(s[0])] + entries_view(s.drop_first())
    }
}

pub open spec fn variant_view(v: Variant) -> VariantV
    decreases v,
{
    VariantV { tag: v.tag, payload: node_view(v.payload) }
}

pub open spec fn variants_view(s: Seq<Variant>) -> Seq<VariantV>
    decreases s,
{
    if s.len() == 0 {
        Seq::empty()
    } else {
        seq![variant_view(s[0])] + variants_view(s.drop_first())
    }
}

pub open spec fn enum_view(u: Enum) -> EnumV
    decreases u,
{
    EnumV {
        variants: variants_view(u.variants@),
        active: u.active as int,
        payload: Box::new(node_view(*u.payload)),
    }
}

pub open spec fn node_view(n: Node) -> NodeV
    decreases n,
{
    match n {
        Node::Absent => NodeV::Absent,
        Node::Leaf(v) => NodeV::Leaf(v),
        Node::Tree(t) => NodeV::Tree(entries_view(t.entries@)),
        Node::Enum(u) => NodeV::Enum(enum_view(u)),
    }
}

impl View for Entry {
    type V = EntryV;

    open spec fn view(&self) -> EntryV {
        entry_view(*self)
    }
}

impl View for Variant {
    type V = VariantV;

    open spec fn view(&self) -> VariantV {
        variant_view(*self)
    }
}

impl View for Tree {
    type V = Seq<EntryV>;

    open spec fn view(&self) -> Seq<EntryV> {
        entries_view(self.entries@)
    }
}

impl View for Enum {
    type V = EnumV;

    open spec fn view(&self) -> EnumV {
        enum_view(*self)
    }
}

impl View for Node {
    type V = NodeV;

    open spec fn view(&self) -> NodeV {
        node_view(*self)
    }
}

/// A list of entries views to its element views, position by position.
pub broadcast proof fn lemma_entries_view_len(s: Seq<Entry>)
    ensures
        #[trigger] entries_view(s).len() == s.len(),
    decreases s.len(),
{
    if s.len() > 0 {
        lemma_entries_view_len(s.drop_first());
    }
}

/// The view of the entry at a position is the view of that entry.
pub broadcast proof fn lemma_entries_view_index(s: Seq<Entry>, i: int)
    requires
        0 <= i < s.len(),
    ensures
        entries_view(s).len() == s.len(),
        #[trigger] entries_view(s)[i] == s[i]@,
    decreases s.len(),
{
    lemma_entries_view_len(s);
    if i > 0 {
        lemma_entries_view_index(s.drop_first(), i - 1);
    }
}

/// A list of variants views to its element views, position by position.
pub broadcast proof fn lemma_variants_view_len(s: Seq<Variant>)
    ensures
        #[trigger] variants_view(s).len() == s.len(),
    decreases s.len(),
{
    if s.len() > 0 {
        lemma_variants_view_len(s.drop_first());
    }
}

/// The view of the variant at a position is the view of that variant.
pub broadcast proof fn lemma_variants_view_index(s: Seq<Variant>, i: int)
    requires
        0 <= i < s.len(),
    ensures
        variants_view(s).len() == s.len(),
        #[trigger] variants_view(s)[i] == s[i]@,
    decreases s.len(),
{
    lemma_variants_view_len(s);
    if i > 0 {
        lemma_variants_view_index(s.drop_first(), i - 1);
    }
}

pub broadcast group group_node_views {
    lemma_entries_view_len,
    lemma_entries_view_index,
    lemma_variants_view_len,
    lemma_variants_view_index,
}

/// The node a [`NodeRef`] stands for.
pub open spec fn ref_view<'a>(r: NodeRef<'a>) -> NodeV {
    match r {
        NodeRef::Absent => NodeV::Absent,
        NodeRef::Leaf(v) => NodeV::Leaf(*v),
        NodeRef::Tree(t) => NodeV::Tree(t@),
        NodeRef::Enum(u) => NodeV::Enum(u@),
    }
}

/// Well-formedness of an enum: at least one declared variant, the active
/// index points into the list, and every payload is well-formed.
pub open spec fn enum_wf(u: EnumV) -> bool
    decreases u,
{
    &&& u.variants.len() > 0
    &&& 0 <= u.active < u.variants.len()
    &&& node_wf(*u.payload)
    &&& forall|i: int| 0 <= i < u.variants.len() ==> node_wf(#[trigger] u.variants[i].payload)
}

/// Well-formedness of a node: every enum below it satisfies [`enum_wf`].
pub open spec fn node_wf(n: NodeV) -> bool
    decreases n,
{
    match n {
        NodeV::Absent => true,
        NodeV::Leaf(_) => true,
        NodeV::Tree(entries) => forall|i: int|
            0 <= i < entries.len() ==> node_wf(#[trigger] entries[i].node),
        NodeV::Enum(u) => enum_wf(u),
    }
}

/// The number of nodes below (and including) `n`; the termination measure
/// for everything that walks a tree.
pub open spec fn node_size(n: NodeV) -> nat
    decreases n,
{
    match n {
        NodeV::Absent => 1,
        NodeV::Leaf(_) => 1,
        NodeV::Tree(entries) => 1 + entries_size(entries),
        NodeV::Enum(u) => 1 + node_size(*u.payload),
    }
}

/// The combined size of a list of entries, counting one extra unit per
/// entry.
pub open spec fn entries_size(s: Seq<EntryV>) -> nat
    decreases s,
{
    if s.len() == 0 {
        0
    } else {
        1 + node_size(s[0].node) + entries_size(s.drop_first())
    }
}

/// The first entry of `s` whose name is `name`, or `-1`.
pub open spec fn find_entry(s: Seq<EntryV>, name: Seq<u8>) -> int
    decreases s.len(),
{
    if s.len() == 0 {
        -1
    } else if s[0].name == name {
        0
    } else if find_entry(s.drop_first(), name) < 0 {
        -1
    } else {
        1 + find_entry(s.drop_first(), name)
    }
}

/// `find_entry` finds the first matching entry: the index it reports
/// matches, and no earlier index does.
pub proof fn lemma_find_entry(s: Seq<EntryV>, name: Seq<u8>)
    ensures
        -1 <= find_entry(s, name) < s.len(),
        find_entry(s, name) >= 0 ==> s[find_entry(s, name)].name == name,
        forall|j: int| 0 <= j < s.len() && j < find_entry(s, name) ==> s[j].name != name,
        find_entry(s, name) < 0 ==> forall|j: int| 0 <= j < s.len() ==> s[j].name != name,
    decreases s.len(),
{
    if s.len() > 0 && s[0].name != name {
        lemma_find_entry(s.drop_first(), name);
        assert(forall|j: int| 1 <= j < s.len() ==> s[j] == s.drop_first()[j - 1]);
    }
}

/// The first variant of `s` whose discriminant equals `tag`, or `-1`.
pub open spec fn find_variant(s: Seq<VariantV>, tag: Value) -> int
    decreases s.len(),
{
    if s.len() == 0 {
        -1
    } else if s[0].tag == tag {
        0
    } else if find_variant(s.drop_first(), tag) < 0 {
        -1
    } else {
        1 + find_variant(s.drop_first(), tag)
    }
}

/// `find_variant` finds the first matching variant: the index it reports
/// matches, and no earlier index does.
pub proof fn lemma_find_variant(s: Seq<VariantV>, tag: Value)
    ensures
        -1 <= find_variant(s, tag) < s.len(),
        find_variant(s, tag) >= 0 ==> s[find_variant(s, tag)].tag == tag,
        forall|j: int| 0 <= j < s.len() && j < find_variant(s, tag) ==> s[j].tag != tag,
        find_variant(s, tag) < 0 ==> forall|j: int| 0 <= j < s.len() ==> s[j].tag != tag,
    decreases s.len(),
{
    if s.len() > 0 && s[0].tag != tag {
        lemma_find_variant(s.drop_first(), tag);
        assert(forall|j: int| 1 <= j < s.len() ==> s[j] == s.drop_first()[j - 1]);
    }
}

/// Compare two byte slices for equality.
#[verifier::loop_isolation(false)]
pub(crate) fn bytes_eq(a: &[u8], b: &[u8]) -> (r: bool)
    ensures
        r == (a@ == b@),
{
    if a.len() != b.len() {
        return false;
    }
    let n = a.len();
    let mut i: usize = 0;
    while i < n
        invariant
            0 <= i <= n,
            n == a@.len(),
            n == b@.len(),
            forall|j: int| 0 <= j < i ==> a@[j] == b@[j],
        decreases n - i,
    {
        if *slice_index_get(a, i) != *slice_index_get(b, i) {
            return false;
        }
        i += 1;
    }
    proof {
        assert(a@ =~= b@);
    }
    true
}

impl Node {
    /// Turn a node into a [`NodeRef`] to allow working with the specific
    /// capability it offers.
    pub fn node_ref<'a>(&'a self) -> (r: NodeRef<'a>)
        ensures
            ref_view(r) == self@,
    {
        match self {
            Node::Absent => NodeRef::Absent,
            Node::Leaf(v) => NodeRef::Leaf(v),
            Node::Tree(t) => NodeRef::Tree(t),
            Node::Enum(u) => NodeRef::Enum(u),
        }
    }
}

impl Clone for Node {
    /// A deep copy with the same view as the original.
    fn clone(&self) -> (res: Self)
        ensures
            res@ == self@,
        decreases *self,
    {
        match self {
            Node::Absent => Node::Absent,
            Node::Leaf(v) => Node::Leaf(*v),
            Node::Tree(t) => Node::Tree(t.clone()),
            Node::Enum(u) => Node::Enum(u.clone()),
        }
    }
}

impl Clone for Tree {
    /// A deep copy with the same view as the original.
    #[verifier::loop_isolation(false)]
    fn clone(&self) -> (res: Self)
        ensures
            res@ == self@,
        decreases *self,
    {
        broadcast use group_node_views;

        let mut entries: Vec<Entry> = Vec::new();
        let n = self.entries.len();
        let mut i: usize = 0;
        while i < n
            invariant
                0 <= i <= n,
                n == self.entries@.len(),
                entries@.len() == i,
                forall|j: int| 0 <= j < i ==> #[trigger] entries@[j]@ == self.entries@[j]@,
            decreases n - i,
        {
            let e = &self.entries[i];
            let copy = Entry { name: e.name.clone(), enabled: e.enabled, node: e.node.clone() };
            proof {
                assert(copy@ =~= self.entries@[i as int]@);
            }
            entries.push(copy);
            i += 1;
        }
        let res = Tree { entries };
        proof {
            assert(res@ =~= self@);
        }
        res
    }
}

impl Clone for Enum {
    /// A deep copy with the same view as the original.
    #[verifier::loop_isolation(false)]
    fn clone(&self) -> (res: Self)
        ensures
            res@ == self@,
        decreases *self,
    {
        broadcast use group_node_views;

        let mut variants: Vec<Variant> = Vec::new();
        let n = self.variants.len();
        let mut i: usize = 0;
        while i < n
            invariant
                0 <= i <= n,
                n == self.variants@.len(),
                variants@.len() == i,
                forall|j: int| 0 <= j < i ==> #[trigger] variants@[j]@ == self.variants@[j]@,
            decreases n - i,
        {
            let v = &self.variants[i];
            let copy = Variant { tag: v.tag, payload: v.payload.clone() };
            proof {
                assert(copy@ =~= self.variants@[i as int]@);
            }
            variants.push(copy);
            i += 1;
        }
        let res = Enum {
            variants,
            active: self.active,
            payload: Box::new(Node::clone(&*self.payload)),
        };
        proof {
            assert(variants_view(res.variants@) =~= variants_view(self.variants@));
            assert(res@ =~= self@);
        }
        res
    }
}

impl Tree {
    /// A new tree with no children.
    pub fn new() -> (r: Tree)
        ensures
            r@ == Seq::<EntryV>::empty(),
            node_wf(NodeV::Tree(r@)),
    {
        let r = Tree { entries: Vec::new() };
        proof {
            assert(r.entries@ =~= Seq::<Entry>::empty());
            lemma_entries_view_len(r.entries@);
        }
        r
    }

    /// Append a child at the end of the declared entry list. A well-formed
    /// child keeps a well-formed tree well-formed.
    pub fn add_entry(&mut self, name: &str, enabled: bool, node: Node)
        ensures
            final(self)@ == old(self)@.push(
                EntryV { name: name.spec_bytes(), enabled, node: node@ },
            ),
            node_wf(NodeV::Tree(old(self)@)) && node_wf(node@) ==> node_wf(
                NodeV::Tree(final(self)@),
            ),
    {
        broadcast use group_node_views;

        let ghost pushed = EntryV { name: name.spec_bytes(), enabled, node: node@ };
        self.entries.push(Entry { name: name.to_owned(), enabled, node });
        proof {
            assert(self.entries@.drop_last() =~= old(self).entries@);
            lemma_entries_view_push(old(self).entries@, self.entries@.last());
            assert(self.entries@.last()@ =~= pushed);
            assert(self@ =~= old(self)@.push(pushed));
            if node_wf(NodeV::Tree(old(self)@)) && node_wf(pushed.node) {
                assert forall|i: int| 0 <= i < self@.len() implies node_wf(
                    #[trigger] self@[i].node,
                ) by {
                    if i < old(self)@.len() {
                        assert(self@[i] == old(self)@[i]);
                    } else {
                        assert(self@[i] == pushed);
                    }
                }
            }
        }
    }

    /// Retrieve a reference to the child with the given name, or `None`
    /// when the name is unknown or the child is currently disabled.
    #[verifier::loop_isolation(false)]
    pub fn get_ref<'a>(&'a self, name: &str) -> (r: Option<NodeRef<'a>>)
        ensures
            ({
                let fe = find_entry(self@, name.spec_bytes());
                if fe >= 0 && self@[fe].enabled {
                    r matches Some(nr) && ref_view(nr) == self@[fe].node
                } else {
                    r is None
                }
            }),
    {
        proof {
            lemma_find_entry(self@, name.spec_bytes());
            lemma_entries_view_len(self.entries@);
        }
        match self.find_index(name.as_bytes()) {
            None => None,
            Some(i) => {
                proof {
                    lemma_entries_view_index(self.entries@, i as int);
                }
                let e = &self.entries[i];
                if e.enabled {
                    Some(e.node.node_ref())
                } else {
                    None
                }
            },
        }
    }

    /// The position of the named child in the declared entry list, or
    /// `None` when the name is unknown. Disabled entries are still found.
    #[verifier::loop_isolation(false)]
    pub fn find_index(&self, name: &[u8]) -> (r: Option<usize>)
        ensures
            ({
                let fe = find_entry(self@, name@);
                if fe >= 0 {
                    r matches Some(i) && i as int == fe
                } else {
                    r is None
                }
            }),
    {
        proof {
            lemma_find_entry(self@, name@);
            lemma_entries_view_len(self.entries@);
        }
        let n = self.entries.len();
        let mut i: usize = 0;
        while i < n
            invariant
                0 <= i <= n,
                n == self.entries@.len(),
                forall|j: int| 0 <= j < i ==> (#[trigger] self@[j]).name != name@,
            decreases n - i,
        {
            proof {
                lemma_entries_view_index(self.entries@, i as int);
            }
            let e = &self.entries[i];
            if bytes_eq(e.name.as_str().as_bytes(), name) {
                proof {
                    assert(self@[i as int].name == name@);
                    let fe = find_entry(self@, name@);
                    if fe < 0 {
                        assert(self@[i as int].name != name@);
                        assert(false);
                    } else if fe < i as int {
                        assert(self@[fe].name == name@);
                        assert(self@[fe].name != name@);
                        assert(false);
                    } else if fe > i as int {
                        assert(self@[i as int].name != name@);
                        assert(false);
                    }
                }
                return Some(i);
            }
            i += 1;
        }
        proof {
            let fe = find_entry(self@, name@);
            if fe >= 0 {
                assert(self@[fe].name == name@);
                assert(false);
            }
        }
        None
    }

    /// Flip the availability of the named child, standing for a change in
    /// the data its visibility condition reads. Returns false when the name
    /// is unknown.
    #[verifier::loop_isolation(false)]
    pub fn set_enabled(&mut self, name: &str, enabled: bool) -> (r: bool)
        ensures
            node_wf(NodeV::Tree(old(self)@)) ==> node_wf(NodeV::Tree(final(self)@)),
            ({
                let fe = find_entry(old(self)@, name.spec_bytes());
                if fe >= 0 {
                    r && final(self)@ == old(self)@.update(
                        fe,
                        EntryV {
                            name: old(self)@[fe].name,
                            enabled,
                            node: old(self)@[fe].node,
                        },
                    )
                } else {
                    !r && *final(self) == *old(self)
                }
            }),
    {
        proof {
            lemma_find_entry(self@, name.spec_bytes());
            lemma_entries_view_len(self.entries@);
        }
        match self.find_index(name.as_bytes()) {
            None => false,
            Some(i) => {
                proof {
                    lemma_entries_view_index(self.entries@, i as int);
                }
                let e = &mut self.entries[i];
                e.enabled = enabled;
                proof {
                    lemma_entries_view_update(
                        old(self).entries@,
                        i as int,
                        self.entries@[i as int],
                    );
                    assert(self.entries@ =~= old(self).entries@.update(
                        i as int,
                        self.entries@[i as int],
                    ));
                    assert(self.entries@[i as int]@ =~= EntryV {
                        name: old(self)@[i as int].name,
                        enabled,
                        node: old(self)@[i as int].node,
                    });
                    assert(self@ =~= old(self)@.update(
                        i as int,
                        EntryV {
                            name: old(self)@[i as int].name,
                            enabled,
                            node: old(self)@[i as int].node,
                        },
                    ));
                    if node_wf(NodeV::Tree(old(self)@)) {
                        assert forall|k: int| 0 <= k < self@.len() implies node_wf(
                            #[trigger] self@[k].node,
                        ) by {
                            assert(self@[k].node == old(self)@[k].node);
                        }
                    }
                }
                true
            },
        }
    }

    /// List all declared child names at this level, disabled entries
    /// included. To learn whether an entry is currently available, check
    /// that [`Tree::get_ref`] returns `Some`.
    #[verifier::loop_isolation(false)]
    pub fn entries(&self) -> (r: Vec<String>)
        ensures
            r@.len() == self@.len(),
            forall|i: int| 0 <= i < r@.len() ==> encode_utf8(#[trigger] r@[i]@) == self@[i].name,
    {
        broadcast use group_node_views;

        let n = self.entries.len();
        let mut r: Vec<String> = Vec::new();
        let mut i: usize = 0;
        while i < n
            invariant
                0 <= i <= n,
                n == self.entries@.len(),
                r@.len() == i,
                forall|j: int| 0 <= j < i ==> encode_utf8(#[trigger] r@[j]@) == self@[j].name,
            decreases n - i,
        {
            r.push(self.entries[i].name.clone());
            i += 1;
        }
        r
    }
}

/// Pushing an entry pushes its view.
pub proof fn lemma_entries_view_push(s: Seq<Entry>, e: Entry)
    ensures
        entries_view(s.push(e)) == entries_view(s).push(e@),
{
    lemma_entries_view_len(s);
    lemma_entries_view_len(s.push(e));
    assert forall|i: int| 0 <= i < s.len() + 1 implies entries_view(s.push(e))[i] == entries_view(
        s,
    ).push(e@)[i] by {
        lemma_entries_view_index(s.push(e), i);
        if i < s.len() {
            lemma_entries_view_index(s, i);
            assert(s.push(e)[i] == s[i]);
        } else {
            assert(s.push(e)[i] == e);
        }
    }
    assert(entries_view(s.push(e)) =~= entries_view(s).push(e@));
}

/// Updating an entry updates its view.
pub proof fn lemma_entries_view_update(s: Seq<Entry>, i: int, e: Entry)
    requires
        0 <= i < s.len(),
    ensures
        entries_view(s.update(i, e)) == entries_view(s).update(i, e@),
{
    lemma_entries_view_len(s);
    lemma_entries_view_len(s.update(i, e));
    assert forall|j: int| 0 <= j < s.len() implies entries_view(s.update(i, e))[j] == entries_view(
        s,
    ).update(i, e@)[j] by {
        lemma_entries_view_index(s.update(i, e), j);
        if j != i {
            lemma_entries_view_index(s, j);
            assert(s.update(i, e)[j] == s[j]);
        } else {
            assert(s.update(i, e)[j] == e);
        }
    }
    assert(entries_view(s.update(i, e)) =~= entries_view(s).update(i, e@));
}

impl Enum {
    /// The declared discriminants, in declaration order.
    pub open spec fn spec_tags(&self) -> Seq<Value> {
        self@.variants.map_values(|v: VariantV| v.tag)
    }

    /// A new tagged union over the given variants, starting at variant
    /// `active` with that variant's declared default payload.
    pub fn new(variants: Vec<Variant>, active: usize) -> (r: Enum)
        requires
            variants@.len() > 0,
            active < variants@.len(),
        ensures
            r@.variants == variants_view(variants@),
            r@.active == active as int,
            *r@.payload == variants@[active as int]@.payload,
            (forall|i: int|
                0 <= i < variants@.len() ==> node_wf((#[trigger] variants@[i])@.payload))
                ==> node_wf(NodeV::Enum(r@)),
    {
        let payload = Box::new(variants[active].payload.clone());
        let r = Enum { variants, active, payload };
        proof {
            assert(r@.variants == variants_view(r.variants@));
            lemma_variants_view_len(r.variants@);
            if forall|i: int|
                0 <= i < r.variants@.len() ==> node_wf((#[trigger] r.variants@[i])@.payload) {
                assert forall|i: int| 0 <= i < r@.variants.len() implies node_wf(
                    #[trigger] r@.variants[i].payload,
                ) by {
                    lemma_variants_view_index(r.variants@, i);
                    assert(node_wf(r.variants@[i]@.payload));
                }
                lemma_variants_view_index(r.variants@, r.active as int);
                assert(node_wf(*r@.payload));
                assert(enum_wf(r@));
                assert(node_wf(NodeV::Enum(r@)));
            }
        }
        r
    }

    /// A tagged union standing for an optional value: discriminant 0 is
    /// the empty variant with no payload, discriminant 1 holds a payload
    /// that defaults to `default_payload`. `current` gives the payload to
    /// start with, or `None` to start empty.
    pub fn optional(default_payload: Node, current: Option<Node>) -> (r: Enum)
        ensures
            r@.variants.len() == 2,
            r@.variants[0] == (VariantV { tag: Value::U8(0), payload: NodeV::Absent }),
            r@.variants[1] == (VariantV { tag: Value::U8(1), payload: default_payload@ }),
            ({
                match current {
                    None => r@.active == 0 && *r@.payload == NodeV::Absent,
                    Some(n) => r@.active == 1 && *r@.payload == n@,
                }
            }),
            node_wf(default_payload@) && (current matches Some(n) ==> node_wf(n@)) ==> node_wf(
                NodeV::Enum(r@),
            ),
    {
        let mut variants: Vec<Variant> = Vec::new();
        let v0 = Variant { tag: Value::U8(0), payload: Node::Absent };
        let v1 = Variant { tag: Value::U8(1), payload: default_payload };
        let ghost gv0 = v0;
        let ghost gv1 = v1;
        variants.push(v0);
        variants.push(v1);
        proof {
            assert(variants@ =~= seq![gv0, gv1]);
        }
        let ghost gcur = current;
        let r = match current {
            None => Enum { variants, active: 0, payload: Box::new(Node::Absent) },
            Some(n) => Enum { variants, active: 1, payload: Box::new(n) },
        };
        proof {
            lemma_variants_view_len(r.variants@);
            lemma_variants_view_index(r.variants@, 0);
            lemma_variants_view_index(r.variants@, 1);
            if node_wf(gv1.payload@) && (gcur matches Some(n) ==> node_wf(n@)) {
                assert forall|i: int| 0 <= i < r@.variants.len() implies node_wf(
                    #[trigger] r@.variants[i].payload,
                ) by {
                    lemma_variants_view_index(r.variants@, i);
                    if i == 0 {
                        assert(node_wf(NodeV::Absent));
                    }
                }
                assert(node_wf(*r@.payload)) by {
                    if gcur is None {
                        assert(node_wf(NodeV::Absent));
                    }
                };
                assert(enum_wf(r@));
                assert(node_wf(NodeV::Enum(r@)));
            }
        }
        r
    }

    /// The discriminant of the active variant.
    pub fn discriminant(&self) -> (r: Value)
        requires
            enum_wf(self@),
        ensures
            r == self@.variants[self@.active].tag,
    {
        proof {
            lemma_variants_view_len(self.variants@);
            lemma_variants_view_index(self.variants@, self.active as int);
        }
        self.variants[self.active].tag
    }

    /// All declared discriminants, in declaration order.
    #[verifier::loop_isolation(false)]
    pub fn discriminants(&self) -> (r: Vec<Value>)
        ensures
            r@ == self.spec_tags(),
    {
        broadcast use group_node_views;

        let n = self.variants.len();
        let mut r: Vec<Value> = Vec::new();
        let mut i: usize = 0;
        while i < n
            invariant
                0 <= i <= n,
                n == self.variants@.len(),
                r@.len() == i,
                forall|j: int| 0 <= j < i ==> r@[j] == (#[trigger] self.variants@[j]).tag,
            decreases n - i,
        {
            r.push(self.variants[i].tag);
            i += 1;
        }
        proof {
            lemma_variants_view_len(self.variants@);
            assert forall|j: int| 0 <= j < n implies r@[j] == self.spec_tags()[j] by {
                lemma_variants_view_index(self.variants@, j);
            }
            assert(r@ =~= self.spec_tags());
        }
        r
    }

    /// If `val` matches a declared discriminant, make that variant active
    /// and reset its payload to the variant's declared default, discarding
    /// the prior payload; otherwise do nothing and return false.
    #[verifier::loop_isolation(false)]
    pub fn set_discriminant(&mut self, val: Value) -> (r: bool)
        ensures
            ({
                let fv = find_variant(old(self)@.variants, val);
                if fv >= 0 {
                    &&& r
                    &&& final(self)@.variants == old(self)@.variants
                    &&& final(self)@.active == fv
                    &&& *final(self)@.payload == old(self)@.variants[fv].payload
                } else {
                    !r && *final(self) == *old(self)
                }
            }),
    {
        proof {
            lemma_find_variant(self@.variants, val);
            lemma_variants_view_len(self.variants@);
        }
        let n = self.variants.len();
        let mut i: usize = 0;
        while i < n
            invariant
                0 <= i <= n,
                n == self.variants@.len(),
                *self == *old(self),
                forall|j: int| 0 <= j < i ==> (#[trigger] self@.variants[j]).tag != val,
            decreases n - i,
        {
            proof {
                lemma_variants_view_index(self.variants@, i as int);
            }
            if self.variants[i].tag == val {
                proof {
                    assert(self@.variants[i as int].tag == val);
                    let fv = find_variant(self@.variants, val);
                    lemma_find_variant(self@.variants, val);
                    if fv < 0 {
                        assert(self@.variants[i as int].tag != val);
                        assert(false);
                    } else if fv < i as int {
                        assert(self@.variants[fv].tag == val);
                        assert(self@.variants[fv].tag != val);
                        assert(false);
                    } else if fv > i as int {
                        assert(self@.variants[i as int].tag != val);
                        assert(false);
                    }
                    assert(fv == i as int);
                }
                self.active = i;
                let fresh = self.variants[i].payload.clone();
                self.payload = Box::new(fresh);
                proof {
                    assert(variants_view(self.variants@) == variants_view(old(self).variants@));
                    lemma_variants_view_index(old(self).variants@, i as int);
                }
                return true;
            }
            i += 1;
        }
        proof {
            lemma_find_variant(self@.variants, val);
            let fv = find_variant(self@.variants, val);
            if fv >= 0 {
                assert(self@.variants[fv].tag == val);
                assert(false);
            }
        }
        false
    }

    /// A reference to the active variant's payload node; `NodeRef::Absent`
    /// for a unit-like variant.
    pub fn active_node_ref<'a>(&'a self) -> (r: NodeRef<'a>)
        ensures
            ref_view(r) == *self@.payload,
    {
        Node::node_ref(&*self.payload)
    }
}

} // verus!
