//! The tree store: green nodes, held once each in an arena, and red nodes,
//! which give a green node its place in a text.

use std::collections::hash_map::DefaultHasher;
use std::hash::Hasher;

use dashmap::DashMap;
use vstd::prelude::*;
use vstd::std_specs::hash::DefaultHasherAdditionalSpecFns;
use vstd::string::StringSliceAdditionalSpecFns;
use vstd::utf8::encode_utf8;

use crate::grammar::GrammarError;
use crate::grammar::GrammarErrorView;

verus! {

/// `boxcar::Vec`: a vector to which items are only ever appended.
#[verifier::external_type_specification]
#[verifier::external_body]
#[verifier::reject_recursive_types(T)]
pub struct ExBoxcarVec<T>(boxcar::Vec<T>);

/// `dashmap::DashMap`: a hash map.
#[verifier::external_type_specification]
#[verifier::external_body]
#[verifier::reject_recursive_types(K)]
#[verifier::reject_recursive_types(V)]
#[verifier::reject_recursive_types(S)]
pub struct ExDashMap<K, V, S>(DashMap<K, V, S>);

/// The items of an append-only vector, in the order of their indices.
pub uninterp spec fn stored(nodes: boxcar::Vec<GreenNode>) -> Seq<GreenNode>;

/// The entries of a hash map.
pub uninterp spec fn entries(map: DashMap<u64, Vec<usize>>) -> Map<u64, Seq<usize>>;

/// The map without entries.
pub open spec fn no_entries() -> Map<u64, Seq<usize>> {
    Map::empty()
}

/// A vector without items.
///
/// Stands for `boxcar::Vec::new`.
#[verifier::external_body]
fn nodes_new() -> (nodes: boxcar::Vec<GreenNode>)
    ensures
        stored(nodes) == Seq::<GreenNode>::empty(),
{
    boxcar::Vec::new()
}

/// Appends `node` and returns its index.
///
/// Stands for `boxcar::Vec::push`, called by the one holder of the vector:
/// the item goes behind the last one and gets the next index. The call
/// panics where no index is left, which the length asked for rules out.
#[verifier::external_body]
fn nodes_push(nodes: &mut boxcar::Vec<GreenNode>, node: GreenNode) -> (id: usize)
    requires
        stored(*old(nodes)).len() + 32 <= isize::MAX,
    ensures
        stored(*final(nodes)) == stored(*old(nodes)).push(node),
        id == stored(*old(nodes)).len(),
{
    nodes.push(node)
}

/// The number of items.
///
/// Stands for `boxcar::Vec::count`.
#[verifier::external_body]
fn nodes_count(nodes: &boxcar::Vec<GreenNode>) -> (count: usize)
    ensures
        count == stored(*nodes).len(),
{
    nodes.count()
}

/// The item at index `id`.
///
/// Stands for the indexing of a `boxcar::Vec`, which panics where no item
/// has the index.
#[verifier::external_body]
fn nodes_get(nodes: &boxcar::Vec<GreenNode>, id: usize) -> (node: &GreenNode)
    requires
        id < stored(*nodes).len(),
    ensures
        *node == stored(*nodes)[id as int],
{
    &nodes[id]
}

/// A map without entries.
///
/// Stands for `DashMap::new`.
#[verifier::external_body]
fn buckets_new() -> (buckets: DashMap<u64, Vec<usize>>)
    ensures
        entries(buckets) == no_entries(),
{
    DashMap::new()
}

/// A copy of the value under `key`, if the map has the key.
///
/// Stands for `DashMap::get`.
#[verifier::external_body]
fn buckets_get(map: &DashMap<u64, Vec<usize>>, key: u64) -> (bucket: Option<Vec<usize>>)
    ensures
        match bucket {
            Some(ids) => entries(*map).contains_key(key) && ids@ == entries(*map)[key],
            None => !entries(*map).contains_key(key),
        },
{
    match map.get(&key) {
        Some(bucket) => Some(bucket.value().clone()),
        None => None,
    }
}

/// Puts `bucket` under `key`, in place of what was there.
///
/// Stands for `DashMap::insert`.
#[verifier::external_body]
fn buckets_insert(map: &mut DashMap<u64, Vec<usize>>, key: u64, bucket: Vec<usize>)
    ensures
        entries(*final(map)) == entries(*old(map)).insert(key, bucket@),
{
    map.insert(key, bucket);
}

/// What a green node stands for: a rule of the grammar, or an error.
#[derive(Debug, Clone, PartialEq, Eq, Hash)]
pub enum Tag {
    Rule(usize),
    Error(GrammarError),
}

/// What a tag is, with text as sequences of characters.
pub enum TagView {
    Rule(usize),
    Error(GrammarErrorView),
}

impl View for Tag {
    type V = TagView;

    open spec fn view(&self) -> TagView {
        match *self {
            Tag::Rule(index) => TagView::Rule(index),
            Tag::Error(error) => TagView::Error(error@),
        }
    }
}

/// A node of the stored tree: what it stands for, how wide the text is that
/// it covers, and the identifiers of its children.
#[derive(Debug, Clone, PartialEq, Eq, Hash)]
pub struct GreenNode {
    pub tag: Tag,
    pub width: usize,
    pub children: Vec<usize>,
}

/// What a green node is, with its children as a sequence.
pub struct GreenView {
    pub tag: TagView,
    pub width: usize,
    pub children: Seq<usize>,
}

impl View for GreenNode {
    type V = GreenView;

    open spec fn view(&self) -> GreenView {
        GreenView { tag: self.tag@, width: self.width, children: self.children@ }
    }
}

/// The `count` lowest bytes of `x`, the lowest first.
pub open spec fn le_bytes(x: int, count: nat) -> Seq<u8>
    decreases count,
{
    if count == 0 {
        Seq::empty()
    } else {
        seq![(x % 256) as u8] + le_bytes(x / 256, (count - 1) as nat)
    }
}

/// What a tag gives the hasher: a byte for its kind, and then its number or
/// its text.
pub open spec fn tag_writes(tag: TagView) -> Seq<Seq<u8>> {
    match tag {
        TagView::Rule(index) => seq![seq![0u8], le_bytes(index as int, 8)],
        TagView::Error(GrammarErrorView::Placeholder) => seq![seq![1u8]],
        TagView::Error(GrammarErrorView::RuleMismatch { expected }) => seq![
            seq![2u8],
            le_bytes(expected as int, 8),
        ],
        TagView::Error(GrammarErrorView::TokenMismatch { expected }) => seq![
            seq![3u8],
            encode_utf8(expected),
        ],
    }
}

/// What a node gives the hasher: its tag, its width, and its children in
/// order.
pub open spec fn content_writes(node: GreenView) -> Seq<Seq<u8>> {
    tag_writes(node.tag) + seq![le_bytes(node.width as int, 8)] + Seq::new(
        node.children.len(),
        |i: int| le_bytes(node.children[i] as int, 8),
    )
}

/// The hash of a node's content.
pub open spec fn content_hash(node: GreenView) -> u64 {
    DefaultHasher::spec_finish(content_writes(node))
}

/// The eight lowest bytes of `x`, the lowest first.
fn number_bytes(x: usize) -> (out: Vec<u8>)
    ensures
        out@ == le_bytes(x as int, 8),
{
    let mut out: Vec<u8> = Vec::new();
    let mut rest: usize = x;
    let mut i: usize = 0;
    proof {
        assert(out@ + le_bytes(rest as int, 8) =~= le_bytes(x as int, 8));
    }
    while i < 8
        invariant
            i <= 8,
            out@ + le_bytes(rest as int, (8 - i) as nat) == le_bytes(x as int, 8),
        decreases 8 - i,
    {
        let ghost earlier = out@;
        let low = (rest % 256) as u8;
        out.push(low);
        proof {
            let tail = le_bytes((rest / 256) as int, (8 - i - 1) as nat);
            assert(le_bytes(rest as int, (8 - i) as nat) == seq![low] + tail);
            assert(out@ + tail =~= earlier + (seq![low] + tail));
        }
        rest = rest / 256;
        i = i + 1;
    }
    proof {
        assert(out@ + le_bytes(rest as int, 0) =~= out@);
    }
    out
}

/// Gives the hasher the bytes of one number.
fn write_number(hasher: &mut DefaultHasher, x: usize)
    ensures
        final(hasher)@ == old(hasher)@.push(le_bytes(x as int, 8)),
{
    let bytes = number_bytes(x);
    hasher.write(bytes.as_slice());
}

/// Gives the hasher one byte.
fn write_kind(hasher: &mut DefaultHasher, kind: u8)
    ensures
        final(hasher)@ == old(hasher)@.push(seq![kind]),
{
    let mut bytes: Vec<u8> = Vec::new();
    bytes.push(kind);
    assert(bytes@ =~= seq![kind]);
    hasher.write(bytes.as_slice());
}

/// The hash of the content of a node with the given tag, children and width.
pub fn hash_content(tag: &Tag, children: &Vec<usize>, width: usize) -> (hash: u64)
    ensures
        hash == content_hash(GreenView { tag: tag@, width, children: children@ }),
{
    let ghost node = GreenView { tag: tag@, width, children: children@ };
    let mut hasher = DefaultHasher::new();
    match tag {
        Tag::Rule(index) => {
            write_kind(&mut hasher, 0);
            write_number(&mut hasher, *index);
        },
        Tag::Error(GrammarError::Placeholder) => {
            write_kind(&mut hasher, 1);
        },
        Tag::Error(GrammarError::RuleMismatch { expected }) => {
            write_kind(&mut hasher, 2);
            write_number(&mut hasher, *expected);
        },
        Tag::Error(GrammarError::TokenMismatch { expected }) => {
            write_kind(&mut hasher, 3);
            hasher.write(expected.as_str().as_bytes());
        },
    }
    assert(hasher@ =~= tag_writes(tag@));
    write_number(&mut hasher, width);
    let ghost head = tag_writes(tag@) + seq![le_bytes(width as int, 8)];
    assert(hasher@ =~= head);
    let mut i: usize = 0;
    while i < children.len()
        invariant
            i <= children.len(),
            hasher@ == head + Seq::new(i as nat, |k: int| le_bytes(children@[k] as int, 8)),
        decreases children.len() - i,
    {
        let ghost earlier = hasher@;
        write_number(&mut hasher, children[i]);
        proof {
            assert(hasher@ =~= head + Seq::new(
                (i + 1) as nat,
                |k: int| le_bytes(children@[k] as int, 8),
            ));
        }
        i = i + 1;
    }
    proof {
        assert(hasher@ =~= content_writes(node));
    }
    hasher.finish()
}

/// Whether two tree-level errors are the same.
fn same_error(a: &GrammarError, b: &GrammarError) -> (same: bool)
    ensures
        same == (a@ == b@),
{
    match (a, b) {
        (GrammarError::Placeholder, GrammarError::Placeholder) => true,
        (
            GrammarError::RuleMismatch { expected: x },
            GrammarError::RuleMismatch { expected: y },
        ) => *x == *y,
        (
            GrammarError::TokenMismatch { expected: x },
            GrammarError::TokenMismatch { expected: y },
        ) => *x == *y,
        _ => false,
    }
}

/// Whether two tags are the same.
fn same_tag(a: &Tag, b: &Tag) -> (same: bool)
    ensures
        same == (a@ == b@),
{
    match (a, b) {
        (Tag::Rule(x), Tag::Rule(y)) => *x == *y,
        (Tag::Error(x), Tag::Error(y)) => same_error(x, y),
        _ => false,
    }
}

/// Whether two lists of identifiers are the same.
fn same_ids(a: &Vec<usize>, b: &Vec<usize>) -> (same: bool)
    ensures
        same == (a@ == b@),
{
    if a.len() != b.len() {
        return false;
    }
    let mut i: usize = 0;
    while i < a.len()
        invariant
            i <= a.len(),
            a@.len() == b@.len(),
            forall|k: int| 0 <= k < i ==> a@[k] == b@[k],
        decreases a.len() - i,
    {
        if a[i] != b[i] {
            return false;
        }
        i = i + 1;
    }
    assert(a@ =~= b@);
    true
}

/// Whether `node` has the given tag, children and width.
fn same_content(node: &GreenNode, tag: &Tag, children: &Vec<usize>, width: usize) -> (same: bool)
    ensures
        same == (node@ == GreenView { tag: tag@, width, children: children@ }),
{
    node.width == width && same_tag(&node.tag, tag) && same_ids(&node.children, children)
}

/// The arena of green nodes: every node is held once, whatever it is asked
/// for how often, and keeps its identifier for as long as the arena lives.
///
/// Nodes are found again by the hash of their content; nodes whose hashes
/// agree are told apart by their content.
pub struct TreeAlloc {
    nodes: boxcar::Vec<GreenNode>,
    dedup: DashMap<u64, Vec<usize>>,
    keys: Ghost<Seq<u64>>,
}

impl TreeAlloc {
    /// The nodes of the arena, each at the index that is its identifier.
    pub closed spec fn nodes(&self) -> Seq<GreenView> {
        Seq::new(stored(self.nodes).len(), |i: int| stored(self.nodes)[i]@)
    }

    /// The hash under which each node is kept.
    pub closed spec fn keys(&self) -> Seq<u64> {
        self.keys@
    }

    /// Every node is kept under one hash, in the bucket of that hash, and no
    /// two nodes are the same.
    pub closed spec fn wf(&self) -> bool {
        let nodes = self.nodes();
        let keys = self.keys@;
        let map = entries(self.dedup);
        &&& keys.len() == nodes.len()
        &&& forall|i: int, j: int| 0 <= i < j < nodes.len() ==> nodes[i] != nodes[j]
        &&& forall|k: u64, t: int|
            #![trigger map[k][t]]
            map.contains_key(k) && 0 <= t < map[k].len() ==> map[k][t] < nodes.len()
                && keys[map[k][t] as int] == k
        &&& forall|i: int|
            0 <= i < nodes.len() ==> map.contains_key(#[trigger] keys[i]) && map[keys[i]].contains(
                i as usize,
            )
    }

    /// Every node is kept under the hash of its content.
    pub open spec fn canonical(&self) -> bool {
        forall|i: int|
            0 <= i < self.nodes().len() ==> (#[trigger] self.keys()[i]) == content_hash(
                self.nodes()[i],
            )
    }

    /// The arena can take another node.
    pub open spec fn has_room(&self) -> bool {
        self.nodes().len() + 32 <= isize::MAX
    }

    /// No two nodes of an arena are the same.
    pub proof fn lemma_held_once(&self, i: int, j: int)
        requires
            self.wf(),
            0 <= i < self.nodes().len(),
            0 <= j < self.nodes().len(),
            self.nodes()[i] == self.nodes()[j],
        ensures
            i == j,
    {
        if i < j {
            assert(self.nodes()[i] != self.nodes()[j]);
        }
        if j < i {
            assert(self.nodes()[j] != self.nodes()[i]);
        }
    }

    /// An arena without nodes.
    pub fn new() -> (arena: TreeAlloc)
        ensures
            arena.wf(),
            arena.canonical(),
            arena.nodes() == Seq::<GreenView>::empty(),
    {
        let arena = TreeAlloc { nodes: nodes_new(), dedup: buckets_new(), keys: Ghost(Seq::empty()) };
        assert(arena.nodes() =~= Seq::<GreenView>::empty());
        arena
    }

    /// The number of nodes.
    pub fn len(&self) -> (n: usize)
        ensures
            n == self.nodes().len(),
    {
        nodes_count(&self.nodes)
    }

    /// The node with the identifier `id`.
    pub fn get_node(&self, id: usize) -> (node: &GreenNode)
        requires
            id < self.nodes().len(),
        ensures
            node@ == self.nodes()[id as int],
    {
        nodes_get(&self.nodes, id)
    }

    /// The identifier of the node with the given content, which is kept
    /// under `hash`: that of the node that the arena holds already, or that
    /// of a new node, which then is its last.
    ///
    /// `hash` has to be the hash under which this content was kept before,
    /// where it was.
    pub fn allocate_with_hash(
        &mut self,
        hash: u64,
        tag: Tag,
        children: Vec<usize>,
        width: usize,
    ) -> (id: usize)
        requires
            old(self).wf(),
            old(self).has_room(),
            forall|i: int|
                0 <= i < old(self).nodes().len() && (#[trigger] old(self).nodes()[i]) == (GreenView {
                    tag: tag@,
                    width,
                    children: children@,
                }) ==> old(self).keys()[i] == hash,
        ensures
            final(self).wf(),
            id < final(self).nodes().len(),
            final(self).nodes()[id as int] == (GreenView { tag: tag@, width, children: children@ }),
            old(self).nodes().contains(GreenView { tag: tag@, width, children: children@ }) ==> {
                &&& final(self).nodes() == old(self).nodes()
                &&& final(self).keys() == old(self).keys()
            },
            !old(self).nodes().contains(GreenView { tag: tag@, width, children: children@ }) ==> {
                &&& final(self).nodes() == old(self).nodes().push(
                    GreenView { tag: tag@, width, children: children@ },
                )
                &&& final(self).keys() == old(self).keys().push(hash)
                &&& id == old(self).nodes().len()
            },
    {
        let ghost content = GreenView { tag: tag@, width, children: children@ };
        let ghost nodes = self.nodes();
        let ghost keys = self.keys@;
        let ghost map = entries(self.dedup);
        let bucket = buckets_get(&self.dedup, hash);
        let mut ids: Vec<usize> = Vec::new();
        match bucket {
            Some(found) => {
                let mut t: usize = 0;
                while t < found.len()
                    invariant
                        t <= found@.len(),
                        self.wf(),
                        self.nodes() == nodes,
                        self.keys@ == keys,
                        entries(self.dedup) == map,
                        map.contains_key(hash),
                        found@ == map[hash],
                        content == (GreenView { tag: tag@, width, children: children@ }),
                        forall|s: int| 0 <= s < t ==> nodes[(#[trigger] found@[s]) as int] != content,
                    decreases found@.len() - t,
                {
                    let id = found[t];
                    assert(map[hash][t as int] < nodes.len());
                    let node = nodes_get(&self.nodes, id);
                    if same_content(node, &tag, &children, width) {
                        assert(nodes[id as int] == content);
                        return id;
                    }
                    t = t + 1;
                }
                ids = found;
            },
            None => {},
        }
        proof {
            assert(ids@.len() > 0 ==> map.contains_key(hash) && ids@ == map[hash]);
            assert forall|i: int| 0 <= i < nodes.len() implies nodes[i] != content by {
                if nodes[i] == content {
                    assert(keys[i] == hash);
                    assert(map.contains_key(keys[i]) && map[keys[i]].contains(i as usize));
                    let s = choose|s: int| 0 <= s < map[hash].len() && map[hash][s] == i as usize;
                    assert(nodes[ids@[s] as int] != content);
                }
            }
            assert(!nodes.contains(content));
        }
        let id = nodes_push(&mut self.nodes, GreenNode { tag, children, width });
        let ghost filled = ids@;
        ids.push(id);
        buckets_insert(&mut self.dedup, hash, ids);
        self.keys = Ghost(keys.push(hash));
        proof {
            let after = self.nodes();
            let keys2 = self.keys@;
            let map2 = entries(self.dedup);
            assert(after =~= nodes.push(content));
            assert forall|i: int, j: int| 0 <= i < j < after.len() implies after[i] != after[j] by {
                if j < nodes.len() {
                    assert(nodes[i] != nodes[j]);
                }
            }
            assert forall|k: u64, t: int|
                #![trigger map2[k][t]]
                map2.contains_key(k) && 0 <= t < map2[k].len() implies map2[k][t] < after.len()
                && keys2[map2[k][t] as int] == k by {
                if k == hash {
                    if t < filled.len() {
                        assert(map[k][t] < nodes.len());
                    }
                } else {
                    assert(map[k][t] < nodes.len());
                }
            }
            assert forall|i: int| 0 <= i < after.len() implies map2.contains_key(
                #[trigger] keys2[i],
            ) && map2[keys2[i]].contains(i as usize) by {
                if i < nodes.len() {
                    assert(map.contains_key(keys[i]) && map[keys[i]].contains(i as usize));
                    if keys[i] == hash {
                        let s = choose|s: int|
                            0 <= s < map[hash].len() && map[hash][s] == i as usize;
                        assert(map2[hash][s] == i as usize);
                    }
                } else {
                    assert(map2[hash][filled.len() as int] == i as usize);
                }
            }
        }
        id
    }

    /// The identifier of the node with the given content: that of the node
    /// that the arena holds already, or that of a new node, which then is its
    /// last.
    pub fn allocate(&mut self, tag: Tag, children: Vec<usize>, width: usize) -> (id: usize)
        requires
            old(self).wf(),
            old(self).canonical(),
            old(self).has_room(),
        ensures
            final(self).wf(),
            final(self).canonical(),
            id < final(self).nodes().len(),
            final(self).nodes()[id as int] == (GreenView { tag: tag@, width, children: children@ }),
            old(self).nodes().contains(GreenView { tag: tag@, width, children: children@ }) ==> {
                &&& final(self).nodes() == old(self).nodes()
                &&& final(self).keys() == old(self).keys()
            },
            !old(self).nodes().contains(GreenView { tag: tag@, width, children: children@ }) ==> {
                &&& final(self).nodes() == old(self).nodes().push(
                    GreenView { tag: tag@, width, children: children@ },
                )
                &&& id == old(self).nodes().len()
            },
    {
        let hash = hash_content(&tag, &children, width);
        self.allocate_with_hash(hash, tag, children, width)
    }

    /// The identifier of a node without children that stands for content
    /// not known yet.
    pub fn new_placeholder(&mut self, width: usize) -> (id: usize)
        requires
            old(self).wf(),
            old(self).canonical(),
            old(self).has_room(),
        ensures
            final(self).wf(),
            final(self).canonical(),
            id < final(self).nodes().len(),
            final(self).nodes()[id as int] == placeholder(width),
            old(self).nodes().contains(placeholder(width)) ==> final(self).nodes() == old(
                self,
            ).nodes(),
            !old(self).nodes().contains(placeholder(width)) ==> {
                &&& final(self).nodes() == old(self).nodes().push(placeholder(width))
                &&& id == old(self).nodes().len()
            },
    {
        let children: Vec<usize> = Vec::new();
        assert(children@ =~= Seq::empty());
        self.allocate(Tag::Error(GrammarError::Placeholder), children, width)
    }
}

/// The node without children that stands for content not known yet.
pub open spec fn placeholder(width: usize) -> GreenView {
    GreenView {
        tag: TagView::Error(GrammarErrorView::Placeholder),
        width,
        children: Seq::empty(),
    }
}

/// A green node seen at a place in the text: the offset at which it begins,
/// and the red node of its parent.
#[derive(Debug)]
pub struct RedNode {
    pub parent: Option<Box<RedNode>>,
    pub offset: usize,
    pub green: usize,
}

/// The sum of the widths of the first `count` of `children`. A child that
/// the arena does not hold counts for nothing.
pub open spec fn widths_before(nodes: Seq<GreenView>, children: Seq<usize>, count: int) -> int
    decreases count,
{
    if count <= 0 {
        0
    } else {
        widths_before(nodes, children, count - 1) + if children[count - 1] < nodes.len() {
            nodes[children[count - 1] as int].width as int
        } else {
            0
        }
    }
}

/// Whether the arena holds the first `count` of `children`.
pub open spec fn known(nodes: Seq<GreenView>, children: Seq<usize>, count: int) -> bool {
    forall|k: int| 0 <= k < count ==> (#[trigger] children[k]) < nodes.len()
}

/// The widths of more children sum to no less.
pub proof fn lemma_widths_grow(nodes: Seq<GreenView>, children: Seq<usize>, few: int, many: int)
    requires
        few <= many,
    ensures
        widths_before(nodes, children, few) <= widths_before(nodes, children, many),
        0 <= widths_before(nodes, children, few),
    decreases many - few, many,
{
    if few < many {
        lemma_widths_grow(nodes, children, few, many - 1);
    } else if few > 0 {
        lemma_widths_grow(nodes, children, few - 1, few - 1);
    }
}

impl RedNode {
    /// The red node of the root `green`: at offset zero, without a parent.
    pub fn root(green: usize) -> (node: RedNode)
        ensures
            node.parent is None,
            node.offset == 0,
            node.green == green,
    {
        RedNode { parent: None, offset: 0, green }
    }

    /// Whether the red node of the child at `index` can be given: the arena
    /// holds this node and the children before that one, the node has a child
    /// at `index`, and the child's offset is a number of the machine.
    pub open spec fn can_descend(&self, nodes: Seq<GreenView>, index: int) -> bool {
        &&& self.green < nodes.len()
        &&& 0 <= index < nodes[self.green as int].children.len()
        &&& known(nodes, nodes[self.green as int].children, index)
        &&& self.offset + widths_before(nodes, nodes[self.green as int].children, index)
            <= usize::MAX
    }

    /// The red node of the child at `index`: it begins where this node
    /// begins plus the widths of the children before it, and has this node
    /// for its parent.
    pub fn child(self, arena: &TreeAlloc, index: usize) -> (out: Option<RedNode>)
        ensures
            out is Some <==> self.can_descend(arena.nodes(), index as int),
            match out {
                Some(child) => {
                    &&& child.green == arena.nodes()[self.green as int].children[index as int]
                    &&& child.offset == self.offset + widths_before(
                        arena.nodes(),
                        arena.nodes()[self.green as int].children,
                        index as int,
                    )
                    &&& child.parent == Some(Box::new(self))
                },
                None => true,
            },
    {
        let ghost nodes = arena.nodes();
        let count = arena.len();
        if self.green >= count {
            return None;
        }
        let node = arena.get_node(self.green);
        let ghost children = nodes[self.green as int].children;
        if index >= node.children.len() {
            return None;
        }
        let mut offset: usize = self.offset;
        let mut k: usize = 0;
        while k < index
            invariant
                k <= index,
                index < children.len(),
                nodes == arena.nodes(),
                count == nodes.len(),
                node@ == nodes[self.green as int],
                children == nodes[self.green as int].children,
                known(nodes, children, k as int),
                offset == self.offset + widths_before(nodes, children, k as int),
            decreases index - k,
        {
            let sibling = node.children[k];
            if sibling >= count {
                assert(!known(nodes, children, index as int)) by {
                    assert(children[k as int] >= nodes.len());
                }
                return None;
            }
            let width = arena.get_node(sibling).width;
            match offset.checked_add(width) {
                Some(sum) => {
                    offset = sum;
                },
                None => {
                    proof {
                        lemma_widths_grow(nodes, children, k + 1, index as int);
                    }
                    return None;
                },
            }
            k = k + 1;
        }
        let green = node.children[index];
        Some(RedNode { parent: Some(Box::new(self)), offset, green })
    }
}

} // verus!
